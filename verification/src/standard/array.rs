//! Merging and searching of timestamp sequences.

use vstd::prelude::*;

verus! {

/// Every element is smaller than each element after it.
pub open spec fn strictly_increasing(s: Seq<i64>) -> bool {
    forall|i: int, j: int| 0 <= i < j < s.len() ==> s[i] < s[j]
}

/// `needle` stands in `haystack` as one unbroken run that starts at `offset`.
pub open spec fn is_run_at(haystack: Seq<i64>, needle: Seq<i64>, offset: int) -> bool {
    &&& 0 <= offset
    &&& offset + needle.len() <= haystack.len()
    &&& forall|j: int| 0 <= j < needle.len() ==> haystack[offset + j] == needle[j]
}

/// `needle` is empty, or it stands in `haystack` as one unbroken run.
pub open spec fn contiguous_in(haystack: Seq<i64>, needle: Seq<i64>) -> bool {
    needle.len() == 0 || exists|offset: int| is_run_at(haystack, needle, offset)
}

/// The two-cursor merge of `a` and `b`: the smaller head goes first, and a head
/// that both share goes once.
pub open spec fn merged(a: Seq<i64>, b: Seq<i64>) -> Seq<i64>
    decreases a.len() + b.len(),
{
    if a.len() == 0 {
        b
    } else if b.len() == 0 {
        a
    } else if a[0] < b[0] {
        seq![a[0]] + merged(a.skip(1), b)
    } else if a[0] > b[0] {
        seq![b[0]] + merged(a, b.skip(1))
    } else {
        seq![a[0]] + merged(a.skip(1), b.skip(1))
    }
}

/// A merge never holds more elements than its two inputs together.
pub proof fn lemma_merged_len(a: Seq<i64>, b: Seq<i64>)
    ensures
        merged(a, b).len() <= a.len() + b.len(),
    decreases a.len() + b.len(),
{
    if a.len() == 0 || b.len() == 0 {
    } else if a[0] < b[0] {
        lemma_merged_len(a.skip(1), b);
    } else if a[0] > b[0] {
        lemma_merged_len(a, b.skip(1));
    } else {
        lemma_merged_len(a.skip(1), b.skip(1));
    }
}

/// A value is in the merge exactly when it is in one of the inputs.
pub proof fn lemma_merged_contains(a: Seq<i64>, b: Seq<i64>, x: i64)
    ensures
        merged(a, b).contains(x) <==> a.contains(x) || b.contains(x),
    decreases a.len() + b.len(),
{
    if a.len() == 0 {
    } else if b.len() == 0 {
    } else {
        let m = merged(a, b);
        let ta = a.skip(1);
        let tb = b.skip(1);
        assert(forall|i: int| 0 <= i < ta.len() ==> ta[i] == a[i + 1]);
        assert(forall|i: int| 0 <= i < tb.len() ==> tb[i] == b[i + 1]);
        if a[0] < b[0] {
            lemma_merged_contains(ta, b, x);
            lemma_cons_contains(a[0], merged(ta, b), x);
            lemma_cons_contains(a[0], ta, x);
            assert(a =~= seq![a[0]] + ta);
        } else if a[0] > b[0] {
            lemma_merged_contains(a, tb, x);
            lemma_cons_contains(b[0], merged(a, tb), x);
            lemma_cons_contains(b[0], tb, x);
            assert(b =~= seq![b[0]] + tb);
        } else {
            lemma_merged_contains(ta, tb, x);
            lemma_cons_contains(a[0], merged(ta, tb), x);
            lemma_cons_contains(a[0], ta, x);
            lemma_cons_contains(b[0], tb, x);
            assert(a =~= seq![a[0]] + ta);
            assert(b =~= seq![b[0]] + tb);
        }
    }
}

proof fn lemma_cons_contains(head: i64, tail: Seq<i64>, x: i64)
    ensures
        (seq![head] + tail).contains(x) <==> x == head || tail.contains(x),
{
    let s = seq![head] + tail;
    if x == head {
        assert(s[0] == x);
    }
    if tail.contains(x) {
        let i = choose|i: int| 0 <= i < tail.len() && tail[i] == x;
        assert(s[i + 1] == x);
    }
    if s.contains(x) {
        let i = choose|i: int| 0 <= i < s.len() && s[i] == x;
        if i > 0 {
            assert(tail[i - 1] == x);
        }
    }
}

proof fn lemma_cons_increasing(head: i64, tail: Seq<i64>)
    requires
        strictly_increasing(tail),
        forall|x: i64| tail.contains(x) ==> head < x,
    ensures
        strictly_increasing(seq![head] + tail),
{
    let s = seq![head] + tail;
    assert forall|i: int, j: int| 0 <= i < j < s.len() implies s[i] < s[j] by {
        assert(s[j] == tail[j - 1]);
        assert(tail.contains(tail[j - 1]));
        if i > 0 {
            assert(s[i] == tail[i - 1]);
        }
    }
}

proof fn lemma_skip_increasing(s: Seq<i64>)
    requires
        strictly_increasing(s),
        s.len() > 0,
    ensures
        strictly_increasing(s.skip(1)),
        forall|x: i64| s.skip(1).contains(x) ==> s[0] < x,
{
    let t = s.skip(1);
    assert forall|i: int, j: int| 0 <= i < j < t.len() implies t[i] < t[j] by {
        assert(t[i] == s[i + 1] && t[j] == s[j + 1]);
    }
    assert forall|x: i64| t.contains(x) implies s[0] < x by {
        let i = choose|i: int| 0 <= i < t.len() && t[i] == x;
        assert(t[i] == s[i + 1]);
    }
}

proof fn lemma_head_least(s: Seq<i64>, x: i64)
    requires
        strictly_increasing(s),
        s.contains(x),
    ensures
        s[0] <= x,
{
    let i = choose|i: int| 0 <= i < s.len() && s[i] == x;
    if i > 0 {
        assert(s[0] < s[i]);
    }
}

/// The merge of two strictly increasing sequences is strictly increasing.
pub proof fn lemma_merged_increasing(a: Seq<i64>, b: Seq<i64>)
    requires
        strictly_increasing(a),
        strictly_increasing(b),
    ensures
        strictly_increasing(merged(a, b)),
    decreases a.len() + b.len(),
{
    if a.len() == 0 || b.len() == 0 {
    } else {
        let ta = a.skip(1);
        let tb = b.skip(1);
        lemma_skip_increasing(a);
        lemma_skip_increasing(b);
        if a[0] < b[0] {
            lemma_merged_increasing(ta, b);
            assert forall|x: i64| merged(ta, b).contains(x) implies a[0] < x by {
                lemma_merged_contains(ta, b, x);
                if b.contains(x) {
                    lemma_head_least(b, x);
                }
            }
            lemma_cons_increasing(a[0], merged(ta, b));
        } else if a[0] > b[0] {
            lemma_merged_increasing(a, tb);
            assert forall|x: i64| merged(a, tb).contains(x) implies b[0] < x by {
                lemma_merged_contains(a, tb, x);
                if a.contains(x) {
                    lemma_head_least(a, x);
                }
            }
            lemma_cons_increasing(b[0], merged(a, tb));
        } else {
            lemma_merged_increasing(ta, tb);
            assert forall|x: i64| merged(ta, tb).contains(x) implies a[0] < x by {
                lemma_merged_contains(ta, tb, x);
            }
            lemma_cons_increasing(a[0], merged(ta, tb));
        }
    }
}

/// For strictly increasing `a` and `b`, the merge is strictly increasing, holds
/// exactly the values of `a` and of `b`, and is no longer than both together.
pub proof fn lemma_merged_is_union(a: Seq<i64>, b: Seq<i64>)
    requires
        strictly_increasing(a),
        strictly_increasing(b),
    ensures
        strictly_increasing(merged(a, b)),
        merged(a, b).to_set() == a.to_set().union(b.to_set()),
        merged(a, b).len() <= a.len() + b.len(),
{
    lemma_merged_increasing(a, b);
    lemma_merged_len(a, b);
    assert forall|x: i64|
        merged(a, b).to_set().contains(x) == a.to_set().union(b.to_set()).contains(x) by {
        lemma_merged_contains(a, b, x);
    }
    assert(merged(a, b).to_set() =~= a.to_set().union(b.to_set()));
}

/// An empty needle is contiguous in every haystack.
pub proof fn lemma_empty_is_contiguous(haystack: Seq<i64>)
    ensures
        contiguous_in(haystack, Seq::<i64>::empty()),
{
}

/// Tells whether `b` is empty or occurs in `a` as one unbroken run.
pub fn is_continuous_subset(a: &[i64], b: &[i64]) -> (found: bool)
    ensures
        found == contiguous_in(a@, b@),
{
    if b.len() == 0 {
        return true;
    }
    let mut i: usize = 0;
    while i < a.len()
        invariant
            b.len() > 0,
            i <= a.len(),
            forall|o: int| 0 <= o < i ==> !is_run_at(a@, b@, o),
        decreases a.len() - i,
    {
        if a[i] == b[0] {
            let mut j: usize = 0;
            while j < b.len() && i + j < a.len() && a[i + j] == b[j]
                invariant
                    i < a.len(),
                    j <= b.len(),
                    i + j <= a.len(),
                    forall|k: int| 0 <= k < j ==> a@[i + k] == b@[k],
                decreases b.len() - j,
            {
                j += 1;
            }
            if j == b.len() {
                assert(is_run_at(a@, b@, i as int));
                return true;
            }
        }
        i += 1;
    }
    assert forall|o: int| !is_run_at(a@, b@, o) by {}
    false
}

/// Merges two timestamp sequences; for strictly increasing inputs the result is
/// their strictly increasing union.
pub fn sorted_union(vec1: &[i64], vec2: &[i64]) -> (result: Vec<i64>)
    ensures
        result@ == merged(vec1@, vec2@),
        result.len() <= vec1.len() + vec2.len(),
        strictly_increasing(vec1@) && strictly_increasing(vec2@) ==> strictly_increasing(result@)
            && result@.to_set() == vec1@.to_set().union(vec2@.to_set()),
{
    let mut result: Vec<i64> = Vec::new();
    let mut i: usize = 0;
    let mut j: usize = 0;
    proof {
        assert(vec1@.skip(0) =~= vec1@);
        assert(vec2@.skip(0) =~= vec2@);
        assert(result@ + merged(vec1@, vec2@) =~= merged(vec1@, vec2@));
    }
    while i < vec1.len() && j < vec2.len()
        invariant
            i <= vec1.len(),
            j <= vec2.len(),
            result@ + merged(vec1@.skip(i as int), vec2@.skip(j as int)) == merged(vec1@, vec2@),
        decreases vec1.len() - i + vec2.len() - j,
    {
        let ghost rest1 = vec1@.skip(i as int);
        let ghost rest2 = vec2@.skip(j as int);
        let ghost before = result@;
        proof {
            assert(rest1.skip(1) =~= vec1@.skip(i + 1));
            assert(rest2.skip(1) =~= vec2@.skip(j + 1));
        }
        if vec1[i] < vec2[j] {
            result.push(vec1[i]);
            i += 1;
        } else if vec1[i] > vec2[j] {
            result.push(vec2[j]);
            j += 1;
        } else {
            result.push(vec1[i]);
            i += 1;
            j += 1;
        }
        proof {
            let rest = merged(vec1@.skip(i as int), vec2@.skip(j as int));
            assert(merged(rest1, rest2) == seq![result@.last()] + rest);
            assert(result@ + rest =~= before + (seq![result@.last()] + rest));
        }
    }
    proof {
        let rest1 = vec1@.skip(i as int);
        let rest2 = vec2@.skip(j as int);
        assert(merged(rest1, rest2) =~= rest1 + rest2);
        assert(result@ + rest1 + rest2 =~= result@ + (rest1 + rest2));
    }
    while i < vec1.len()
        invariant
            i <= vec1.len(),
            j <= vec2.len(),
            result@ + vec1@.skip(i as int) + vec2@.skip(j as int) == merged(vec1@, vec2@),
        decreases vec1.len() - i,
    {
        let ghost before = result@;
        result.push(vec1[i]);
        i += 1;
        proof {
            assert(before + vec1@.skip(i - 1) =~= result@ + vec1@.skip(i as int));
        }
    }
    while j < vec2.len()
        invariant
            i == vec1.len(),
            j <= vec2.len(),
            result@ + vec2@.skip(j as int) == merged(vec1@, vec2@),
        decreases vec2.len() - j,
    {
        let ghost before = result@;
        result.push(vec2[j]);
        j += 1;
        proof {
            assert(before + vec2@.skip(j - 1) =~= result@ + vec2@.skip(j as int));
        }
    }
    proof {
        assert(result@ + vec2@.skip(j as int) =~= result@);
        lemma_merged_len(vec1@, vec2@);
        if strictly_increasing(vec1@) && strictly_increasing(vec2@) {
            lemma_merged_is_union(vec1@, vec2@);
        }
    }
    result
}

} // verus!
