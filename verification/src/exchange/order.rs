//! The order in which the files of a source are read: by the name of the
//! instrument that each holds.

use vstd::prelude::*;
use crate::exchange::asset::texts;
use crate::standard::text::{
    lemma_text_lt_irreflexive, lemma_text_lt_total, lemma_text_lt_transitive, text_less, text_lt,
};

verus! {

/// File `i` is read before file `j`: its stem comes first in dictionary order,
/// or the two have the same stem and `i` stands first among the files.
pub open spec fn read_before(stems: Seq<Seq<char>>, i: int, j: int) -> bool {
    text_lt(stems[i], stems[j]) || (stems[i] == stems[j] && i < j)
}

/// `place` is where file `x` goes into `order`: before the first file whose
/// stem comes after its own, and at the end where there is none.
pub open spec fn is_place(stems: Seq<Seq<char>>, order: Seq<int>, x: int, place: int) -> bool {
    &&& 0 <= place <= order.len()
    &&& forall|k: int| 0 <= k < place ==> !text_lt(stems[x], stems[#[trigger] order[k]])
    &&& place < order.len() ==> text_lt(stems[x], stems[order[place]])
}

/// The order in which files with the stems `stems` are read. The files are
/// taken one after another, and each goes before the first of those already
/// placed whose stem comes after its own.
pub open spec fn reading_order(stems: Seq<Seq<char>>) -> Seq<int>
    decreases stems.len(),
{
    if stems.len() == 0 {
        Seq::empty()
    } else {
        let before = reading_order(stems.drop_last());
        let x = stems.len() - 1;
        before.insert(choose|place: int| is_place(stems, before, x, place), x)
    }
}

/// The numbers of a list of indices.
pub open spec fn ints(indices: Seq<usize>) -> Seq<int> {
    Seq::new(indices.len(), |k: int| indices[k] as int)
}

proof fn lemma_place_exists(stems: Seq<Seq<char>>, order: Seq<int>, x: int, from: int) -> (place:
    int)
    requires
        0 <= from <= order.len(),
        forall|k: int| 0 <= k < from ==> !text_lt(stems[x], stems[#[trigger] order[k]]),
    ensures
        is_place(stems, order, x, place),
    decreases order.len() - from,
{
    if from == order.len() || text_lt(stems[x], stems[order[from]]) {
        from
    } else {
        lemma_place_exists(stems, order, x, from + 1)
    }
}

proof fn lemma_place_unique(stems: Seq<Seq<char>>, order: Seq<int>, x: int, p: int, q: int)
    requires
        is_place(stems, order, x, p),
        is_place(stems, order, x, q),
    ensures
        p == q,
{
    if p < q {
        assert(!text_lt(stems[x], stems[order[p]]));
    } else if q < p {
        assert(!text_lt(stems[x], stems[order[q]]));
    }
}

/// Where the last file goes into the order of those before it.
proof fn lemma_last_place(stems: Seq<Seq<char>>) -> (place: int)
    requires
        stems.len() > 0,
    ensures
        is_place(stems, reading_order(stems.drop_last()), stems.len() - 1, place),
        reading_order(stems) == reading_order(stems.drop_last()).insert(place, stems.len() - 1),
{
    let before = reading_order(stems.drop_last());
    let x = stems.len() - 1;
    let found = lemma_place_exists(stems, before, x, 0);
    let place = choose|place: int| is_place(stems, before, x, place);
    lemma_place_unique(stems, before, x, found, place);
    place
}

/// The reading order holds every file once: it is as long as the list of
/// files, each entry is a file, and each file is an entry.
pub proof fn lemma_reading_order_holds_all(stems: Seq<Seq<char>>)
    ensures
        reading_order(stems).len() == stems.len(),
        forall|k: int|
            0 <= k < stems.len() ==> 0 <= #[trigger] reading_order(stems)[k] < stems.len(),
        forall|i: int| 0 <= i < stems.len() ==> reading_order(stems).contains(i),
    decreases stems.len(),
{
    if stems.len() > 0 {
        let before = reading_order(stems.drop_last());
        let x = stems.len() - 1;
        lemma_reading_order_holds_all(stems.drop_last());
        let place = lemma_last_place(stems);
        let order = reading_order(stems);
        assert forall|i: int| 0 <= i < stems.len() implies order.contains(i) by {
            if i == x {
                assert(order[place] == i);
            } else {
                assert(before.contains(i));
                let k = choose|k: int| 0 <= k < before.len() && before[k] == i;
                if k < place {
                    assert(order[k] == i);
                } else {
                    assert(order[k + 1] == i);
                }
            }
        }
    }
}

/// In the reading order each file is read before those after it: stems come
/// in dictionary order, and files of one stem in the order in which they were
/// given.
pub proof fn lemma_reading_order_sorted(stems: Seq<Seq<char>>)
    ensures
        forall|k: int, l: int|
            0 <= k < l < stems.len() ==> read_before(
                stems,
                #[trigger] reading_order(stems)[k],
                #[trigger] reading_order(stems)[l],
            ),
    decreases stems.len(),
{
    if stems.len() > 0 {
        let front = stems.drop_last();
        let before = reading_order(front);
        let x = stems.len() - 1;
        lemma_reading_order_sorted(front);
        lemma_reading_order_holds_all(front);
        lemma_reading_order_holds_all(stems);
        let place = lemma_last_place(stems);
        let order = reading_order(stems);
        assert forall|k: int, l: int| 0 <= k < l < stems.len() implies read_before(
            stems,
            #[trigger] order[k],
            #[trigger] order[l],
        ) by {
            if l == place {
                assert(order[k] == before[k]);
                assert(front[before[k]] == stems[before[k]]);
                lemma_text_lt_total(stems[before[k]], stems[x]);
            } else if k == place {
                assert(order[l] == before[l - 1]);
                assert(front[before[l - 1]] == stems[before[l - 1]]);
                assert(front[before[place]] == stems[before[place]]);
                if l - 1 > place {
                    assert(read_before(front, before[place], before[l - 1]));
                    if text_lt(stems[before[place]], stems[before[l - 1]]) {
                        lemma_text_lt_transitive(
                            stems[x],
                            stems[before[place]],
                            stems[before[l - 1]],
                        );
                    }
                }
            } else {
                let a = if k < place {
                    k
                } else {
                    k - 1
                };
                let b = if l < place {
                    l
                } else {
                    l - 1
                };
                assert(order[k] == before[a] && order[l] == before[b]);
                assert(read_before(front, before[a], before[b]));
                assert(front[before[a]] == stems[before[a]]);
                assert(front[before[b]] == stems[before[b]]);
            }
        }
    }
}

/// Two files whose stems are in dictionary order are read in that order, and
/// no file is read twice.
pub proof fn lemma_reading_order_follows_stems(stems: Seq<Seq<char>>, k: int, l: int)
    requires
        0 <= k < stems.len(),
        0 <= l < stems.len(),
    ensures
        text_lt(stems[reading_order(stems)[k]], stems[reading_order(stems)[l]]) ==> k < l,
        reading_order(stems)[k] == reading_order(stems)[l] ==> k == l,
{
    lemma_reading_order_sorted(stems);
    let order = reading_order(stems);
    let first = stems[order[k]];
    let second = stems[order[l]];
    lemma_text_lt_irreflexive(first);
    if l < k {
        assert(read_before(stems, order[l], order[k]));
        if text_lt(first, second) && text_lt(second, first) {
            lemma_text_lt_transitive(first, second, first);
        }
    } else if k < l {
        assert(read_before(stems, order[k], order[l]));
    }
}

/// The order in which files with the stems `stems` are read.
pub fn reading_order_of(stems: &Vec<String>) -> (order: Vec<usize>)
    ensures
        ints(order@) == reading_order(texts(stems@)),
        order.len() == stems.len(),
        forall|k: int| 0 <= k < order.len() ==> #[trigger] order@[k] < stems.len(),
{
    let mut order: Vec<usize> = Vec::new();
    let mut x: usize = 0;
    proof {
        assert(texts(stems@).take(0) =~= Seq::<Seq<char>>::empty());
        assert(ints(order@) =~= reading_order(texts(stems@).take(0)));
    }
    while x < stems.len()
        invariant
            x <= stems.len(),
            order.len() == x,
            forall|k: int| 0 <= k < order.len() ==> #[trigger] order@[k] < x,
            ints(order@) == reading_order(texts(stems@).take(x as int)),
        decreases stems.len() - x,
    {
        let mut place: usize = 0;
        while place < order.len() && !text_less(stems[x].as_str(), stems[order[place]].as_str())
            invariant
                place <= order.len(),
                x < stems.len(),
                forall|k: int| 0 <= k < order.len() ==> #[trigger] order@[k] < x,
                forall|k: int|
                    0 <= k < place ==> !text_lt(stems@[x as int]@, stems@[#[trigger] order@[k] as int]@),
            decreases order.len() - place,
        {
            place += 1;
        }
        proof {
            let grown = texts(stems@).take(x + 1);
            let before = ints(order@);
            assert(grown.drop_last() =~= texts(stems@).take(x as int));
            assert(grown[x as int] == stems@[x as int]@);
            assert forall|k: int| 0 <= k < place implies !text_lt(
                grown[x as int],
                grown[#[trigger] before[k]],
            ) by {
                assert(before[k] == order@[k]);
                assert(grown[before[k]] == stems@[order@[k] as int]@);
            }
            if place < order.len() {
                assert(before[place as int] == order@[place as int]);
                assert(grown[before[place as int]] == stems@[order@[place as int] as int]@);
            }
            assert(is_place(grown, before, x as int, place as int));
            let chosen = lemma_last_place(grown);
            lemma_place_unique(grown, before, x as int, chosen, place as int);
            assert(ints(order@.insert(place as int, x)) =~= before.insert(place as int, x as int));
        }
        order.insert(place, x);
        x += 1;
    }
    proof {
        assert(texts(stems@).take(stems.len() as int) =~= texts(stems@));
    }
    order
}

} // verus!
