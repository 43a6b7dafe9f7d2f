//! A stable ranking of items by numeric keys.

use vstd::prelude::*;

verus! {

/// Item `a` comes before item `b`: its key is smaller, or the keys are equal and it was
/// listed first.
pub open spec fn comes_before(keys: Seq<u128>, a: usize, b: usize) -> bool {
    keys[a as int] < keys[b as int] || (keys[a as int] == keys[b as int] && a < b)
}

/// `order` lists the items of a range, each once, every item before those that it comes
/// before.
pub open spec fn ranks_range(order: Seq<usize>, keys: Seq<u128>, lo: int, hi: int) -> bool {
    &&& order.len() == hi - lo
    &&& forall|i: int| 0 <= i < order.len() ==> lo <= #[trigger] order[i] < hi
    &&& forall|i: int, j: int|
        0 <= i < j < order.len() ==> #[trigger] comes_before(keys, order[i], order[j])
    &&& forall|k: usize| lo <= k < hi ==> #[trigger] order.contains(k)
}

/// `order` ranks all items by ascending key, and items of equal key as they were listed.
pub open spec fn ranks(order: Seq<usize>, keys: Seq<u128>) -> bool {
    ranks_range(order, keys, 0, keys.len() as int)
}

/// The items in ranked order.
pub open spec fn arranged<T>(items: Seq<T>, order: Seq<usize>) -> Seq<T> {
    Seq::new(order.len(), |i: int| items[order[i] as int])
}

/// Lists the items in ascending order of their keys, keeping the order of equal ones.
pub fn rank(keys: &Vec<u128>) -> (order: Vec<usize>)
    ensures
        ranks(order@, keys@),
{
    rank_range(keys, 0, keys.len())
}

fn rank_range(keys: &Vec<u128>, lo: usize, hi: usize) -> (order: Vec<usize>)
    requires
        lo <= hi <= keys@.len(),
    ensures
        ranks_range(order@, keys@, lo as int, hi as int),
    decreases hi - lo,
{
    if hi - lo == 0 {
        return Vec::new();
    }
    if hi - lo == 1 {
        let mut order: Vec<usize> = Vec::new();
        order.push(lo);
        assert(order@[0] == lo);
        return order;
    }
    let mid: usize = lo + (hi - lo) / 2;
    let a = rank_range(keys, lo, mid);
    let b = rank_range(keys, mid, hi);
    merge(keys, &a, &b, Ghost(lo as int), Ghost(mid as int), Ghost(hi as int))
}

fn merge(
    keys: &Vec<u128>,
    a: &Vec<usize>,
    b: &Vec<usize>,
    Ghost(lo): Ghost<int>,
    Ghost(mid): Ghost<int>,
    Ghost(hi): Ghost<int>,
) -> (out: Vec<usize>)
    requires
        0 <= lo <= mid <= hi <= keys@.len(),
        ranks_range(a@, keys@, lo, mid),
        ranks_range(b@, keys@, mid, hi),
    ensures
        ranks_range(out@, keys@, lo, hi),
{
    let mut out: Vec<usize> = Vec::new();
    let mut i: usize = 0;
    let mut j: usize = 0;
    while i < a.len() || j < b.len()
        invariant
            0 <= lo <= mid <= hi <= keys@.len(),
            ranks_range(a@, keys@, lo, mid),
            ranks_range(b@, keys@, mid, hi),
            i <= a@.len(),
            j <= b@.len(),
            out@.len() == i + j,
            forall|p: int| 0 <= p < out@.len() ==> lo <= #[trigger] out@[p] < hi,
            forall|p: int, q: int|
                0 <= p < q < out@.len() ==> #[trigger] comes_before(keys@, out@[p], out@[q]),
            forall|p: int, q: int|
                0 <= p < out@.len() && i <= q < a@.len() ==> #[trigger] comes_before(
                    keys@,
                    out@[p],
                    a@[q],
                ),
            forall|p: int, q: int|
                0 <= p < out@.len() && j <= q < b@.len() ==> #[trigger] comes_before(
                    keys@,
                    out@[p],
                    b@[q],
                ),
            forall|p: int| 0 <= p < i ==> out@.contains(#[trigger] a@[p]),
            forall|p: int| 0 <= p < j ==> out@.contains(#[trigger] b@[p]),
        decreases a@.len() - i + b@.len() - j,
    {
        let ghost before = out@;
        let from_a: bool = j >= b.len() || (i < a.len() && keys[a[i]] <= keys[b[j]]);
        let next: usize = if from_a {
            a[i]
        } else {
            b[j]
        };
        proof {
            if i < a@.len() && j < b@.len() {
                assert(a@[i as int] < mid <= b@[j as int]);
                assert(comes_before(keys@, a@[i as int], b@[j as int]) == from_a);
                assert(from_a || comes_before(keys@, b@[j as int], a@[i as int]));
            }
            assert forall|q: int|
                i <= q < a@.len() && (from_a ==> q > i) implies #[trigger] comes_before(
                keys@,
                next,
                a@[q],
            ) by {
                if q > i {
                    assert(comes_before(keys@, a@[i as int], a@[q]));
                }
            }
            assert forall|q: int|
                j <= q < b@.len() && (!from_a ==> q > j) implies #[trigger] comes_before(
                keys@,
                next,
                b@[q],
            ) by {
                if q > j {
                    assert(comes_before(keys@, b@[j as int], b@[q]));
                }
            }
            if from_a {
                assert forall|p: int| 0 <= p < before.len() implies #[trigger] comes_before(
                    keys@,
                    before[p],
                    next,
                ) by {
                    assert(comes_before(keys@, out@[p], a@[i as int]));
                }
            } else {
                assert forall|p: int| 0 <= p < before.len() implies #[trigger] comes_before(
                    keys@,
                    before[p],
                    next,
                ) by {
                    assert(comes_before(keys@, out@[p], b@[j as int]));
                }
            }
        }
        out.push(next);
        assert(out@ == before.push(next));
        assert(out@[before.len() as int] == next);
        assert forall|x: usize| before.contains(x) implies #[trigger] out@.contains(x) by {
            let p = choose|p: int| 0 <= p < before.len() && before[p] == x;
            assert(out@[p] == x);
        }
        if from_a {
            i = i + 1;
        } else {
            j = j + 1;
        }
    }
    assert forall|k: usize| lo <= k < hi implies #[trigger] out@.contains(k) by {
        if k < mid {
            assert(a@.contains(k));
            let p = choose|p: int| 0 <= p < a@.len() && a@[p] == k;
            assert(out@.contains(a@[p]));
        } else {
            assert(b@.contains(k));
            let p = choose|p: int| 0 <= p < b@.len() && b@[p] == k;
            assert(out@.contains(b@[p]));
        }
    }
    out
}

/// A ranking is unique: two rankings by the same keys are the same list.
pub proof fn ranking_unique(a: Seq<usize>, b: Seq<usize>, keys: Seq<u128>)
    requires
        ranks(a, keys),
        ranks(b, keys),
        keys.len() <= usize::MAX,
    ensures
        a == b,
{
    assert forall|i: int| 0 <= i < a.len() implies a[i] == b[i] by {
        lemma_rank_agrees(a, b, keys, i);
    }
    assert(a =~= b);
}

proof fn lemma_rank_agrees(a: Seq<usize>, b: Seq<usize>, keys: Seq<u128>, i: int)
    requires
        ranks(a, keys),
        ranks(b, keys),
        keys.len() <= usize::MAX,
        0 <= i < a.len(),
    ensures
        a[i] == b[i],
    decreases i,
{
    assert forall|j: int| 0 <= j < i implies a[j] == b[j] by {
        lemma_rank_agrees(a, b, keys, j);
    }
    assert(b.contains(a[i]));
    let p = choose|p: int| 0 <= p < b.len() && b[p] == a[i];
    assert(a.contains(b[i]));
    let q = choose|q: int| 0 <= q < a.len() && a[q] == b[i];
    if p < i {
        assert(comes_before(keys, a[p], a[i]));
    }
    if q < i {
        assert(comes_before(keys, b[q], b[i]));
    }
    if p > i && q > i {
        assert(comes_before(keys, b[i], b[p]));
        assert(comes_before(keys, a[i], a[q]));
    }
}

proof fn lemma_without_last(order: Seq<usize>, keys: Seq<u128>, p: int)
    requires
        ranks(order, keys),
        0 < keys.len() <= usize::MAX,
        0 <= p < order.len(),
        order[p] == keys.len() - 1,
    ensures
        ranks(order.remove(p), keys.drop_last()),
{
    let rest = order.remove(p);
    let fewer = keys.drop_last();
    let old_place = |i: int|
        if i < p {
            i
        } else {
            i + 1
        };
    assert forall|i: int| 0 <= i < rest.len() implies 0 <= #[trigger] rest[i] < fewer.len() by {
        let j = old_place(i);
        assert(rest[i] == order[j]);
        if j < p {
            assert(comes_before(keys, order[j], order[p]));
        } else {
            assert(comes_before(keys, order[p], order[j]));
        }
        assert(order[j] < keys.len());
    }
    assert forall|i: int, j: int| 0 <= i < j < rest.len() implies #[trigger] comes_before(
        fewer,
        rest[i],
        rest[j],
    ) by {
        assert(comes_before(keys, order[old_place(i)], order[old_place(j)]));
    }
    assert forall|k: usize| 0 <= k < fewer.len() implies #[trigger] rest.contains(k) by {
        assert(order.contains(k));
        let j = choose|j: int| 0 <= j < order.len() && order[j] == k;
        if j < p {
            assert(rest[j] == k);
        } else {
            assert(rest[j - 1] == k);
        }
    }
}

/// Ranking loses nothing and adds nothing: it only reorders.
pub proof fn ranking_is_permutation<T>(items: Seq<T>, keys: Seq<u128>, order: Seq<usize>)
    requires
        items.len() == keys.len() <= usize::MAX,
        ranks(order, keys),
    ensures
        arranged(items, order).to_multiset() == items.to_multiset(),
    decreases items.len(),
{
    let after = arranged(items, order);
    if items.len() == 0 {
        assert(after =~= items);
    } else {
        let last = (items.len() - 1) as usize;
        assert(order.contains(last));
        let p = choose|p: int| 0 <= p < order.len() && order[p] == last;
        lemma_without_last(order, keys, p);
        ranking_is_permutation(items.drop_last(), keys.drop_last(), order.remove(p));
        assert(arranged(items.drop_last(), order.remove(p)) =~= after.remove(p));
        assert(items =~= items.drop_last().push(items.last()));
        items.drop_last().to_multiset_ensures();
        after.to_multiset_ensures();
        assert(after[p] == items.last());
        assert(after.contains(items.last()));
        assert(after.to_multiset().remove(items.last()).insert(items.last())
            =~= after.to_multiset());
    }
}

/// Ranking is stable: the items of one key stay in the order in which they were listed.
/// `picked` tells those items.
pub proof fn ranking_is_stable<T>(
    items: Seq<T>,
    keys: Seq<u128>,
    order: Seq<usize>,
    key: u128,
    picked: spec_fn(T) -> bool,
)
    requires
        items.len() == keys.len() <= usize::MAX,
        ranks(order, keys),
        forall|i: int| 0 <= i < items.len() ==> (picked(#[trigger] items[i]) <==> keys[i] == key),
    ensures
        arranged(items, order).filter(picked) == items.filter(picked),
    decreases items.len(),
{
    let after = arranged(items, order);
    if items.len() == 0 {
        assert(after =~= items);
    } else {
        let last = (items.len() - 1) as usize;
        let front = items.drop_last();
        assert(order.contains(last));
        let p = choose|p: int| 0 <= p < order.len() && order[p] == last;
        lemma_without_last(order, keys, p);
        assert forall|i: int| 0 <= i < front.len() implies (picked(#[trigger] front[i])
            <==> keys.drop_last()[i] == key) by {
            assert(front[i] == items[i]);
        }
        ranking_is_stable(front, keys.drop_last(), order.remove(p), key, picked);
        let before = after.take(p);
        let behind = after.skip(p + 1);
        assert(arranged(front, order.remove(p)) =~= before + behind);
        assert(after =~= before.push(items.last()) + behind);
        assert(items =~= front.push(items.last()));
        Seq::filter_distributes_over_add(before, behind, picked);
        Seq::filter_distributes_over_add(before.push(items.last()), behind, picked);
        before.lemma_filter_push(items.last(), picked);
        front.lemma_filter_push(items.last(), picked);
        if picked(items.last()) {
            assert forall|i: int| 0 <= i < behind.len() implies !picked(#[trigger] behind[i]) by {
                assert(comes_before(keys, order[p], order[p + 1 + i]));
                assert(order[p + 1 + i] < keys.len());
                assert(behind[i] == items[order[p + 1 + i] as int]);
            }
            lemma_none_picked(behind, picked);
            assert(after.filter(picked) =~= before.filter(picked).push(items.last()));
            assert(items.filter(picked) =~= front.filter(picked).push(items.last()));
            assert(front.filter(picked) =~= before.filter(picked));
        }
    }
}

proof fn lemma_none_picked<T>(items: Seq<T>, picked: spec_fn(T) -> bool)
    requires
        forall|i: int| 0 <= i < items.len() ==> !picked(#[trigger] items[i]),
    ensures
        items.filter(picked) == Seq::<T>::empty(),
    decreases items.len(),
{
    reveal(Seq::filter);
    if items.len() > 0 {
        lemma_none_picked(items.drop_last(), picked);
        assert(!picked(items[items.len() - 1]));
    }
}

/// `list` holds the members of a set, in ascending order.
pub open spec fn lists_ascending(list: Seq<u32>, members: Set<u32>) -> bool {
    &&& forall|a: int, b: int| 0 <= a < b < list.len() ==> list[a] < list[b]
    &&& forall|i: u32| #[trigger] list.contains(i) <==> members.contains(i)
}

/// Sorts numbers that are all different.
pub fn sort_distinct(items: &Vec<u32>) -> (r: Vec<u32>)
    requires
        items@.no_duplicates(),
    ensures
        lists_ascending(r@, items@.to_set()),
        r@.len() == items@.len(),
{
    let mut keys: Vec<u128> = Vec::new();
    let mut i: usize = 0;
    while i < items.len()
        invariant
            i <= items@.len(),
            keys@.len() == i,
            forall|j: int| 0 <= j < i ==> keys@[j] == items@[j],
        decreases items@.len() - i,
    {
        keys.push(items[i] as u128);
        i = i + 1;
    }
    let order = rank(&keys);
    let mut sorted: Vec<u32> = Vec::new();
    let mut p: usize = 0;
    while p < order.len()
        invariant
            p <= order@.len(),
            ranks(order@, keys@),
            keys@.len() == items@.len(),
            sorted@ == arranged(items@, order@).take(p as int),
        decreases order@.len() - p,
    {
        sorted.push(items[order[p]]);
        p = p + 1;
        assert(sorted@ =~= arranged(items@, order@).take(p as int));
    }
    assert(sorted@ =~= arranged(items@, order@));
    proof {
        assert forall|a: int, b: int| 0 <= a < b < sorted@.len() implies sorted@[a]
            < sorted@[b] by {
            assert(comes_before(keys@, order@[a], order@[b]));
            assert(items@[order@[a] as int] != items@[order@[b] as int] || order@[a] == order@[b]);
        }
        assert forall|x: u32| #[trigger] sorted@.contains(x) implies items@.to_set().contains(
            x,
        ) by {
            let a = choose|a: int| 0 <= a < sorted@.len() && sorted@[a] == x;
            assert(items@[order@[a] as int] == x);
        }
        assert forall|x: u32| items@.to_set().contains(x) implies #[trigger] sorted@.contains(
            x,
        ) by {
            let j = choose|j: int| 0 <= j < items@.len() && items@[j] == x;
            assert(order@.contains(j as usize));
            let a = choose|a: int| 0 <= a < order@.len() && order@[a] == j as usize;
            assert(sorted@[a] == x);
        }
    }
    sorted
}

/// An ascending list of a set is unique.
pub proof fn ascending_list_unique(a: Seq<u32>, b: Seq<u32>, members: Set<u32>)
    requires
        lists_ascending(a, members),
        lists_ascending(b, members),
    ensures
        a == b,
    decreases a.len(),
{
    if a.len() == 0 {
        if b.len() > 0 {
            assert(b.contains(b[0]));
            assert(a.contains(b[0]));
        }
        assert(a =~= b);
    } else {
        assert(a.contains(a.last()));
        assert(b.contains(a.last()));
        let p = choose|p: int| 0 <= p < b.len() && b[p] == a.last();
        assert(b.contains(b.last()));
        assert(a.contains(b.last()));
        let q = choose|q: int| 0 <= q < a.len() && a[q] == b.last();
        assert(a.last() == b.last());
        let rest = members.remove(a.last());
        assert forall|x: u32| #[trigger] a.drop_last().contains(x) <==> rest.contains(x) by {
            if a.drop_last().contains(x) {
                let i = choose|i: int| 0 <= i < a.drop_last().len() && a.drop_last()[i] == x;
                assert(a[i] == x);
                assert(a.contains(x));
            }
            if rest.contains(x) {
                assert(a.contains(x));
                let i = choose|i: int| 0 <= i < a.len() && a[i] == x;
                assert(a.drop_last()[i] == x);
            }
        }
        assert forall|x: u32| #[trigger] b.drop_last().contains(x) <==> rest.contains(x) by {
            if b.drop_last().contains(x) {
                let i = choose|i: int| 0 <= i < b.drop_last().len() && b.drop_last()[i] == x;
                assert(b[i] == x);
                assert(b.contains(x));
            }
            if rest.contains(x) {
                assert(b.contains(x));
                let i = choose|i: int| 0 <= i < b.len() && b[i] == x;
                assert(b.drop_last()[i] == x);
            }
        }
        ascending_list_unique(a.drop_last(), b.drop_last(), rest);
        assert(a =~= a.drop_last().push(a.last()));
        assert(b =~= b.drop_last().push(b.last()));
    }
}

} // verus!
