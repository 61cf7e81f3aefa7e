//! Dictionary order of texts.

use vstd::prelude::*;

verus! {

/// `a` and `b` agree on their first `k` characters, and there `a` ends while
/// `b` goes on, or `a` has the character of the smaller code.
pub open spec fn precedes_at(a: Seq<char>, b: Seq<char>, k: int) -> bool {
    &&& 0 <= k <= a.len()
    &&& k < b.len()
    &&& forall|j: int| 0 <= j < k ==> a[j] == b[j]
    &&& k < a.len() ==> (a[k] as int) < (b[k] as int)
}

/// `a` comes before `b` in dictionary order, character by character by code.
pub open spec fn text_lt(a: Seq<char>, b: Seq<char>) -> bool {
    exists|k: int| precedes_at(a, b, k)
}

/// No text comes before itself.
pub proof fn lemma_text_lt_irreflexive(a: Seq<char>)
    ensures
        !text_lt(a, a),
{
}

/// What comes before a text that comes before a third comes before the third.
pub proof fn lemma_text_lt_transitive(a: Seq<char>, b: Seq<char>, c: Seq<char>)
    requires
        text_lt(a, b),
        text_lt(b, c),
    ensures
        text_lt(a, c),
{
    let first = choose|k: int| precedes_at(a, b, k);
    let second = choose|k: int| precedes_at(b, c, k);
    if first <= second {
        if first < second {
            assert(b[first] == c[first]);
        }
        assert(precedes_at(a, c, first));
    } else {
        assert(a[second] == b[second]);
        assert(precedes_at(a, c, second));
    }
}

/// Of two texts, neither comes before the other only if they are the same.
pub proof fn lemma_text_lt_total(a: Seq<char>, b: Seq<char>)
    ensures
        a == b || text_lt(a, b) || text_lt(b, a),
{
    lemma_first_difference(a, b, 0);
}

proof fn lemma_first_difference(a: Seq<char>, b: Seq<char>, k: int)
    requires
        0 <= k <= a.len(),
        k <= b.len(),
        forall|j: int| 0 <= j < k ==> a[j] == b[j],
    ensures
        a == b || text_lt(a, b) || text_lt(b, a),
    decreases a.len() - k,
{
    if k == a.len() && k == b.len() {
        assert(a =~= b);
    } else if k == a.len() {
        assert(precedes_at(a, b, k));
    } else if k == b.len() {
        assert(precedes_at(b, a, k));
    } else if a[k] == b[k] {
        lemma_first_difference(a, b, k + 1);
    } else if (a[k] as int) < (b[k] as int) {
        assert(precedes_at(a, b, k));
    } else {
        assert(precedes_at(b, a, k));
    }
}

/// Tells whether `a` comes before `b` in dictionary order.
pub fn text_less(a: &str, b: &str) -> (less: bool)
    ensures
        less == text_lt(a@, b@),
{
    let a_len = a.unicode_len();
    let b_len = b.unicode_len();
    let mut i: usize = 0;
    while i < a_len && i < b_len
        invariant
            i <= a_len,
            i <= b_len,
            a_len == a@.len(),
            b_len == b@.len(),
            forall|j: int| 0 <= j < i ==> a@[j] == b@[j],
        decreases a_len - i,
    {
        let left = a.get_char(i);
        let right = b.get_char(i);
        if left != right {
            let less = (left as u32) < (right as u32);
            proof {
                if less {
                    assert(precedes_at(a@, b@, i as int));
                } else {
                    assert forall|k: int| !precedes_at(a@, b@, k) by {
                        if precedes_at(a@, b@, k) && k > i {
                            assert(a@[i as int] == b@[i as int]);
                        }
                    }
                }
            }
            return less;
        }
        i += 1;
    }
    proof {
        if a_len < b_len {
            assert(precedes_at(a@, b@, a_len as int));
        } else {
            assert forall|k: int| !precedes_at(a@, b@, k) by {}
        }
    }
    a_len < b_len
}

} // verus!
