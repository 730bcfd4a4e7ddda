//! Ordering by size: larger first, ties by name in ascending order.

use vstd::prelude::*;
use crate::text::{seq_less, str_less, lemma_seq_less_strict_total, lemma_seq_less_transitive};

verus! {

/// `(ca, a)` comes strictly before `(cb, b)`: a larger count first, equal
/// counts by name.
pub open spec fn ranks_before(ca: int, a: Seq<char>, cb: int, b: Seq<char>) -> bool {
    ca > cb || (ca == cb && seq_less(a, b))
}

/// The key at position `i` comes strictly before the key at position `j`.
pub open spec fn key_before(keys: Seq<(usize, String)>, i: int, j: int) -> bool {
    ranks_before(keys[i].0 as int, keys[i].1@, keys[j].0 as int, keys[j].1@)
}

/// `order` lists every position of `keys` once, and no key comes strictly
/// before one listed ahead of it.
pub open spec fn is_rank_order(keys: Seq<(usize, String)>, order: Seq<usize>) -> bool {
    &&& order.len() == keys.len()
    &&& order.no_duplicates()
    &&& forall|i: int| 0 <= i < order.len() ==> (#[trigger] order[i] as int) < keys.len()
    &&& forall|i: int, j: int|
        0 <= i < j < order.len() ==> !key_before(keys, #[trigger] order[j] as int, #[trigger] order[i] as int)
}

pub proof fn lemma_ranks_before_strict(ca: int, a: Seq<char>, cb: int, b: Seq<char>)
    ensures
        !(ranks_before(ca, a, cb, b) && ranks_before(cb, b, ca, a)),
        (ca, a) != (cb, b) ==> ranks_before(ca, a, cb, b) || ranks_before(cb, b, ca, a),
{
    lemma_seq_less_strict_total(a, b);
}

pub proof fn lemma_ranks_before_transitive(
    ca: int,
    a: Seq<char>,
    cb: int,
    b: Seq<char>,
    cc: int,
    c: Seq<char>,
)
    requires
        ranks_before(ca, a, cb, b),
        ranks_before(cb, b, cc, c),
    ensures
        ranks_before(ca, a, cc, c),
{
    if ca == cb && cb == cc {
        lemma_seq_less_transitive(a, b, c);
    }
}

/// The positions of `keys` sorted by rank, stable among equal keys.
pub fn rank_order(keys: &Vec<(usize, String)>) -> (order: Vec<usize>)
    ensures
        is_rank_order(keys@, order@),
{
    let mut order: Vec<usize> = Vec::new();
    let mut k: usize = 0;
    while k < keys.len()
        invariant
            k <= keys@.len(),
            order@.len() == k,
            order@.no_duplicates(),
            forall|i: int| 0 <= i < order@.len() ==> (#[trigger] order@[i] as int) < k,
            forall|i: int, j: int|
                0 <= i < j < order@.len() ==> !key_before(
                    keys@,
                    #[trigger] order@[j] as int,
                    #[trigger] order@[i] as int,
                ),
        decreases keys@.len() - k,
    {
        let mut p: usize = 0;
        while p < order.len() && !(keys[k].0 > keys[order[p]].0 || (keys[k].0 == keys[order[p]].0
            && str_less(keys[k].1.as_str(), keys[order[p]].1.as_str())))
            invariant
                p <= order@.len(),
                k < keys@.len(),
                forall|i: int| 0 <= i < order@.len() ==> (#[trigger] order@[i] as int) < k,
                forall|q: int| 0 <= q < p ==> !key_before(keys@, k as int, #[trigger] order@[q] as int),
            decreases order@.len() - p,
        {
            p = p + 1;
        }
        let ghost before = order@;
        order.insert(p, k);
        proof {
            assert(forall|q: int| 0 <= q < p ==> order@[q] == before[q]);
            assert(forall|q: int| p < q < order@.len() ==> order@[q] == before[q - 1]);
            assert forall|i: int, j: int|
                0 <= i < j < order@.len() implies !key_before(
                keys@,
                #[trigger] order@[j] as int,
                #[trigger] order@[i] as int,
            ) by {
                if i == p {
                    let oj = before[j - 1] as int;
                    assert(key_before(keys@, k as int, before[p as int] as int));
                    if j - 1 > p {
                        assert(!key_before(keys@, oj, before[p as int] as int));
                    }
                    if key_before(keys@, oj, k as int) {
                        if j - 1 > p {
                            lemma_ranks_before_transitive(
                                keys@[oj].0 as int,
                                keys@[oj].1@,
                                keys@[k as int].0 as int,
                                keys@[k as int].1@,
                                keys@[before[p as int] as int].0 as int,
                                keys@[before[p as int] as int].1@,
                            );
                        } else {
                            lemma_ranks_before_strict(
                                keys@[oj].0 as int,
                                keys@[oj].1@,
                                keys@[k as int].0 as int,
                                keys@[k as int].1@,
                            );
                        }
                    }
                } else if j == p {
                } else {
                    let bi = if i < p { i } else { i - 1 };
                    let bj = if j < p { j } else { j - 1 };
                    assert(order@[i] == before[bi]);
                    assert(order@[j] == before[bj]);
                }
            }
            assert(order@.no_duplicates()) by {
                assert forall|i: int, j: int|
                    0 <= i < order@.len() && 0 <= j < order@.len() && i != j implies order@[i]
                    != order@[j] by {
                    if i != p && j != p {
                        let bi = if i < p { i } else { i - 1 };
                        let bj = if j < p { j } else { j - 1 };
                        assert(order@[i] == before[bi]);
                        assert(order@[j] == before[bj]);
                    } else if i == p {
                        let bj = if j < p { j } else { j - 1 };
                        assert(order@[j] == before[bj]);
                    } else {
                        let bi = if i < p { i } else { i - 1 };
                        assert(order@[i] == before[bi]);
                    }
                }
            }
        }
        k = k + 1;
    }
    order
}

/// A rank order lists every position.
pub proof fn lemma_order_covers(keys: Seq<(usize, String)>, order: Seq<usize>, h: int)
    requires
        is_rank_order(keys, order),
        0 <= h < keys.len(),
    ensures
        exists|j: int| 0 <= j < order.len() && order[j] as int == h,
{
    let oi = order.map_values(|x: usize| x as int);
    assert(oi.no_duplicates()) by {
        assert forall|i: int, j: int| 0 <= i < oi.len() && 0 <= j < oi.len() && i != j implies oi[i]
            != oi[j] by {
            assert(order[i] != order[j]);
        }
    }
    oi.unique_seq_to_set();
    let range = vstd::set_lib::set_int_range(0, keys.len() as int);
    vstd::set_lib::lemma_int_range(0, keys.len() as int);
    assert(oi.to_set().subset_of(range)) by {
        assert forall|x: int| oi.to_set().contains(x) implies range.contains(x) by {
            let j = choose|j: int| 0 <= j < oi.len() && oi[j] == x;
            assert((order[j] as int) < keys.len());
        }
    }
    vstd::seq_lib::seq_to_set_is_finite(oi);
    vstd::set_lib::lemma_subset_equality(oi.to_set(), range);
    assert(range.contains(h));
    let j = choose|j: int| 0 <= j < oi.len() && oi[j] == h;
    assert(order[j] as int == h);
}

} // verus!
