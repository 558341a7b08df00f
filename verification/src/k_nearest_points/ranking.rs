//! Ranking candidates by their keys with a binary heap.
//!
//! A candidate is known by its place in the caller's list. Candidates are
//! ranked by key, smallest first, and candidates with equal keys by place,
//! so that every list of keys has exactly one ranking.

use crate::k_nearest_points::distance::SquaredDistance;
use vstd::prelude::*;

verus! {

/// The numbers that a list of squared distances stands for.
pub open spec fn key_values(keys: Seq<SquaredDistance>) -> Seq<int> {
    Seq::new(keys.len(), |i: int| keys[i].value())
}

/// Whether candidate `i` ranks before candidate `j`: its key is smaller, or
/// the keys are equal and it stands earlier in the list.
pub open spec fn precedes(keys: Seq<int>, i: int, j: int) -> bool {
    keys[i] < keys[j] || (keys[i] == keys[j] && i < j)
}

/// Whether `order` lists the place `j`.
pub open spec fn lists_place(order: Seq<usize>, j: int) -> bool {
    exists|p: int| 0 <= p < order.len() && #[trigger] order[p] == j
}

/// Whether `order` lists each of the places `0..n` exactly once.
pub open spec fn is_arrangement(order: Seq<usize>, n: nat) -> bool {
    &&& order.len() == n
    &&& forall|p: int| 0 <= p < n ==> #[trigger] order[p] < n
    &&& forall|p: int, q: int| 0 <= p < q < n ==> #[trigger] order[p] != #[trigger] order[q]
    &&& forall|j: int| 0 <= j < n ==> #[trigger] lists_place(order, j)
}

/// Whether `order` lists all candidates from first-ranked to last-ranked.
pub open spec fn is_ranking(keys: Seq<int>, order: Seq<usize>) -> bool {
    &&& is_arrangement(order, keys.len())
    &&& forall|p: int, q: int|
        0 <= p < q < order.len() ==> precedes(
            keys,
            #[trigger] order[p] as int,
            #[trigger] order[q] as int,
        )
}

/// Whether `picked` holds, in this order, the items at the first places that
/// `order` lists.
pub open spec fn is_selection<T>(items: Seq<T>, order: Seq<usize>, picked: Seq<T>) -> bool {
    &&& picked.len() <= order.len()
    &&& forall|i: int| 0 <= i < picked.len() ==> #[trigger] picked[i] == items[order[i] as int]
}

/// `order` with the entries at `a` and `b` exchanged.
spec fn swapped(order: Seq<usize>, a: int, b: int) -> Seq<usize> {
    order.update(a, order[b]).update(b, order[a])
}

/// Whether the entry at `p` ranks no earlier than the entries at its two
/// children, as far as they lie before `end`.
spec fn dominates_children(keys: Seq<int>, order: Seq<usize>, p: int, end: int) -> bool {
    &&& 2 * p + 1 < end ==> !precedes(keys, order[p] as int, order[2 * p + 1] as int)
    &&& 2 * p + 2 < end ==> !precedes(keys, order[p] as int, order[2 * p + 2] as int)
}

/// Whether the entries from `start` up to `end` are in heap order, the
/// last-ranked on top.
spec fn is_heap(keys: Seq<int>, order: Seq<usize>, start: int, end: int) -> bool {
    forall|p: int| start <= p < end ==> #[trigger] dominates_children(keys, order, p, end)
}

/// Exchanging two entries of an arrangement leaves an arrangement.
proof fn lemma_swap_keeps_arrangement(order: Seq<usize>, a: int, b: int, n: nat)
    requires
        is_arrangement(order, n),
        0 <= a < n,
        0 <= b < n,
    ensures
        is_arrangement(swapped(order, a, b), n),
{
    let after = swapped(order, a, b);
    assert forall|j: int| 0 <= j < n implies #[trigger] lists_place(after, j) by {
        assert(lists_place(order, j));
        let p = choose|p: int| 0 <= p < order.len() && #[trigger] order[p] == j;
        let q = if p == a {
            b
        } else if p == b {
            a
        } else {
            p
        };
        assert(after[q] == j);
    }
}

/// In a heap that starts at the root, no entry ranks after the root's.
proof fn lemma_root_ranks_last(keys: Seq<int>, order: Seq<usize>, end: int, p: int)
    requires
        is_heap(keys, order, 0, end),
        0 <= p < end,
    ensures
        !precedes(keys, order[0] as int, order[p] as int),
    decreases p,
{
    if p > 0 {
        let above = (p - 1) / 2;
        lemma_root_ranks_last(keys, order, end, above);
        assert(dominates_children(keys, order, above, end));
    }
}

/// Tells whether candidate `i` ranks before candidate `j`.
fn ranks_before(keys: &Vec<SquaredDistance>, i: usize, j: usize) -> (before: bool)
    requires
        i < keys@.len(),
        j < keys@.len(),
    ensures
        before == precedes(key_values(keys@), i as int, j as int),
{
    let key_i = &keys[i];
    let key_j = &keys[j];
    key_i.is_less_than(key_j) || (key_i.is_same_as(key_j) && i < j)
}

/// Exchanges the entries at `a` and `b`.
fn swap_entries(order: &mut Vec<usize>, a: usize, b: usize)
    requires
        a < old(order)@.len(),
        b < old(order)@.len(),
    ensures
        final(order)@ == swapped(old(order)@, a as int, b as int),
{
    let at_a = order[a];
    let at_b = order[b];
    order[a] = at_b;
    order[b] = at_a;
}

/// Lets the entry at `start` sink until the entries from `start` up to
/// `end` are in heap order, given that those behind `start` already are.
fn sift_down(keys: &Vec<SquaredDistance>, order: &mut Vec<usize>, start: usize, end: usize)
    requires
        is_arrangement(old(order)@, keys@.len()),
        start < end <= keys@.len(),
        is_heap(key_values(keys@), old(order)@, start + 1, end as int),
    ensures
        is_arrangement(final(order)@, keys@.len()),
        is_heap(key_values(keys@), final(order)@, start as int, end as int),
        forall|p: int|
            0 <= p < start || end <= p < keys@.len() ==> #[trigger] final(order)@[p] == old(
                order,
            )@[p],
        forall|p: int|
            start <= p < end ==> old(order)@.subrange(start as int, end as int).contains(
                #[trigger] final(order)@[p],
            ),
{
    let ghost values = key_values(keys@);
    let ghost before = order@;
    let ghost region = order@.subrange(start as int, end as int);
    let mut at: usize = start;
    let mut settled = false;
    proof {
        assert forall|p: int| start <= p < end implies region.contains(#[trigger] order@[p]) by {
            assert(region[p - start] == order@[p]);
        }
    }
    while !settled && at < end / 2
        invariant
            start <= at < end <= keys@.len(),
            values == key_values(keys@),
            before.len() == keys@.len(),
            region == before.subrange(start as int, end as int),
            is_arrangement(order@, keys@.len()),
            forall|p: int|
                start <= p < end && p != at ==> #[trigger] dominates_children(
                    values,
                    order@,
                    p,
                    end as int,
                ),
            settled ==> dominates_children(values, order@, at as int, end as int),
            at > start ==> start <= (at - 1) / 2,
            at > start && 2 * at + 1 < end ==> !precedes(
                values,
                order@[(at - 1) / 2] as int,
                order@[2 * at + 1] as int,
            ),
            at > start && 2 * at + 2 < end ==> !precedes(
                values,
                order@[(at - 1) / 2] as int,
                order@[2 * at + 2] as int,
            ),
            forall|p: int|
                0 <= p < start || end <= p < keys@.len() ==> #[trigger] order@[p] == before[p],
            forall|p: int| start <= p < end ==> region.contains(#[trigger] order@[p]),
        decreases end - at, if settled { 0int } else { 1int },
    {
        let left = 2 * at + 1;
        let right = left + 1;
        let mut top = left;
        if right < end && ranks_before(keys, order[left], order[right]) {
            top = right;
        }
        if ranks_before(keys, order[at], order[top]) {
            let ghost held = order@;
            proof {
                assert(dominates_children(values, held, top as int, end as int));
                lemma_swap_keeps_arrangement(held, at as int, top as int, keys@.len());
            }
            swap_entries(order, at, top);
            proof {
                assert forall|p: int| start <= p < end && p != top implies #[trigger]
                    dominates_children(values, order@, p, end as int) by {
                    if p != at {
                        assert(dominates_children(values, held, p, end as int));
                    }
                }
            }
            at = top;
        } else {
            settled = true;
        }
    }
}

/// Ranks all candidates by key: the result lists their places from the
/// smallest key to the largest, equal keys in the order of their places.
pub fn rank_by_key(keys: &Vec<SquaredDistance>) -> (order: Vec<usize>)
    ensures
        is_ranking(key_values(keys@), order@),
{
    let ghost values = key_values(keys@);
    let count = keys.len();
    let mut order: Vec<usize> = Vec::new();
    let mut next: usize = 0;
    while next < count
        invariant
            next <= count,
            count == keys@.len(),
            order@.len() == next,
            forall|p: int| 0 <= p < next ==> #[trigger] order@[p] == p,
        decreases count - next,
    {
        order.push(next);
        next += 1;
    }
    proof {
        assert forall|j: int| 0 <= j < count implies #[trigger] lists_place(order@, j) by {
            assert(order@[j] == j);
        }
    }
    let mut start = count / 2;
    while start > 0
        invariant
            start <= count / 2,
            count == keys@.len(),
            values == key_values(keys@),
            is_arrangement(order@, keys@.len()),
            is_heap(values, order@, start as int, count as int),
        decreases start,
    {
        start -= 1;
        sift_down(keys, &mut order, start, count);
    }
    let mut end = count;
    while end > 1
        invariant
            end <= count,
            count == keys@.len(),
            values == key_values(keys@),
            is_arrangement(order@, keys@.len()),
            is_heap(values, order@, 0, end as int),
            forall|p: int, q: int|
                end <= p < q < count ==> !precedes(
                    values,
                    #[trigger] order@[q] as int,
                    #[trigger] order@[p] as int,
                ),
            forall|p: int, q: int|
                0 <= p < end <= q < count ==> !precedes(
                    values,
                    #[trigger] order@[q] as int,
                    #[trigger] order@[p] as int,
                ),
        decreases end,
    {
        let ghost held = order@;
        proof {
            assert forall|p: int| 0 <= p < end implies !precedes(
                values,
                held[0] as int,
                #[trigger] held[p] as int,
            ) by {
                lemma_root_ranks_last(values, held, end as int, p);
            }
            lemma_swap_keeps_arrangement(held, 0, end - 1, keys@.len());
        }
        end -= 1;
        swap_entries(&mut order, 0, end);
        let ghost exchanged = order@;
        proof {
            assert forall|p: int| 1 <= p < end implies #[trigger] dominates_children(
                values,
                exchanged,
                p,
                end as int,
            ) by {
                assert(dominates_children(values, held, p, end + 1));
            }
        }
        sift_down(keys, &mut order, 0, end);
    }
    order
}

/// A list of keys has only one ranking.
pub proof fn lemma_ranking_unique(keys: Seq<int>, first: Seq<usize>, second: Seq<usize>)
    requires
        is_ranking(keys, first),
        is_ranking(keys, second),
    ensures
        first == second,
{
    assert forall|p: int| 0 <= p < first.len() implies first[p] == second[p] by {
        lemma_rankings_agree(keys, first, second, p);
    }
}

/// Two rankings of the same keys hold the same candidate at every place up
/// to `p`.
proof fn lemma_rankings_agree(keys: Seq<int>, first: Seq<usize>, second: Seq<usize>, p: int)
    requires
        is_ranking(keys, first),
        is_ranking(keys, second),
        0 <= p < first.len(),
    ensures
        forall|r: int| 0 <= r <= p ==> first[r] == second[r],
    decreases p,
{
    if p > 0 {
        lemma_rankings_agree(keys, first, second, p - 1);
    }
    let a = first[p];
    let b = second[p];
    if a != b {
        assert(lists_place(second, a as int));
        assert(lists_place(first, b as int));
    }
}

/// In a ranking no candidate stands before one with a smaller key.
pub proof fn lemma_ranking_ascends(keys: Seq<int>, order: Seq<usize>, p: int, q: int)
    requires
        is_ranking(keys, order),
        0 <= p <= q < order.len(),
    ensures
        keys[order[p] as int] <= keys[order[q] as int],
{
}

/// Picking the items of a list at the places of an arrangement gives the
/// same items, each as often as the list holds it.
pub proof fn lemma_arrangement_keeps_all<T>(items: Seq<T>, order: Seq<usize>, picked: Seq<T>)
    requires
        is_arrangement(order, items.len()),
        picked.len() == items.len(),
        is_selection(items, order, picked),
    ensures
        picked.to_multiset() == items.to_multiset(),
    decreases items.len(),
{
    let n = items.len();
    if n == 0 {
        assert(picked =~= items);
    } else {
        assert(lists_place(order, n - 1));
        let at = choose|at: int| 0 <= at < order.len() && #[trigger] order[at] == n - 1;
        let fewer_places = order.remove(at);
        let fewer_picked = picked.remove(at);
        let fewer_items = items.drop_last();
        assert forall|j: int| 0 <= j < n - 1 implies #[trigger] lists_place(fewer_places, j) by {
            assert(lists_place(order, j));
            let was = choose|was: int| 0 <= was < order.len() && #[trigger] order[was] == j;
            let now = if was < at {
                was
            } else {
                was - 1
            };
            assert(fewer_places[now] == j);
        }
        lemma_arrangement_keeps_all(fewer_items, fewer_places, fewer_picked);
        picked.to_multiset_ensures();
        fewer_items.to_multiset_ensures();
        assert(items =~= fewer_items.push(items.last()));
    }
}

} // verus!
