//! Ranking by squared length: a stable merge sort and what it guarantees.

use vstd::prelude::*;

verus! {

/// Something with a squared Euclidean length to be ranked by.
pub trait Ranked: Copy {
    /// The squared length.
    spec fn rank(&self) -> nat;

    /// Computes the squared length.
    fn measure(&self) -> (m: u64)
        ensures
            m == self.rank(),
    ;
}

/// The test "has rank `k`".
pub open spec fn with_rank<T: Ranked>(k: nat) -> spec_fn(T) -> bool {
    |item: T| item.rank() == k
}

/// No item ranks above a later one.
pub open spec fn ascending<T: Ranked>(items: Seq<T>) -> bool {
    forall|i: int, j: int| 0 <= i <= j < items.len() ==> items[i].rank() <= items[j].rank()
}

/// `ranked` is `items` sorted by rank with ties left in their order: it is
/// ascending, and for each rank the items of that rank are the same in both,
/// in the same order.
pub open spec fn stably_ranked<T: Ranked>(ranked: Seq<T>, items: Seq<T>) -> bool {
    &&& ranked.len() == items.len()
    &&& ascending(ranked)
    &&& forall|k: nat| #[trigger]
        ranked.filter(with_rank::<T>(k)) == items.filter(with_rank::<T>(k))
}

/// Filtering a sequence with one more item at its end.
proof fn lemma_filter_push<T>(items: Seq<T>, item: T, pred: spec_fn(T) -> bool)
    ensures
        items.push(item).filter(pred) == if pred(item) {
            items.filter(pred).push(item)
        } else {
            items.filter(pred)
        },
{
    reveal(Seq::filter);
    assert(items.push(item).drop_last() =~= items);
}

/// A filter that no item passes leaves nothing.
proof fn lemma_filter_none<T>(items: Seq<T>, pred: spec_fn(T) -> bool)
    requires
        forall|i: int| 0 <= i < items.len() ==> !pred(items[i]),
    ensures
        items.filter(pred) == Seq::<T>::empty(),
    decreases items.len(),
{
    reveal(Seq::filter);
    if items.len() > 0 {
        lemma_filter_none(items.drop_last(), pred);
    }
}

/// A stable ranking keeps every item: what occurs in the input occurs in the
/// ranking, and the other way round.
pub proof fn lemma_ranking_keeps_items<T: Ranked>(ranked: Seq<T>, items: Seq<T>, item: T)
    requires
        stably_ranked(ranked, items),
    ensures
        ranked.contains(item) <==> items.contains(item),
{
    let pred = with_rank::<T>(item.rank());
    assert(ranked.filter(pred) == items.filter(pred));
    if items.contains(item) {
        let i = choose|i: int| 0 <= i < items.len() && items[i] == item;
        items.lemma_filter_contains(pred, i);
        ranked.lemma_filter_contains_rev(pred, item);
    }
    if ranked.contains(item) {
        let i = choose|i: int| 0 <= i < ranked.len() && ranked[i] == item;
        ranked.lemma_filter_contains(pred, i);
        items.lemma_filter_contains_rev(pred, item);
    }
}

/// Two ascending sequences that agree, rank by rank, on the items of that
/// rank and their order are the same sequence.
proof fn lemma_same_ranks_same_items<T: Ranked>(a: Seq<T>, b: Seq<T>)
    requires
        a.len() == b.len(),
        ascending(a),
        ascending(b),
        forall|k: nat| #[trigger] a.filter(with_rank::<T>(k)) == b.filter(with_rank::<T>(k)),
    ensures
        a == b,
    decreases a.len(),
{
    if a.len() == 0 {
        assert(a =~= b);
    } else {
        let x = a.last();
        let y = b.last();
        let front = a.drop_last();
        let back = b.drop_last();
        assert(front.push(x) =~= a);
        assert(back.push(y) =~= b);
        // The last items have the same rank: each occurs in the other
        // sequence, below its last item.
        let px = with_rank::<T>(x.rank());
        let py = with_rank::<T>(y.rank());
        assert(a.filter(px) == b.filter(px));
        assert(a.filter(py) == b.filter(py));
        a.lemma_filter_contains(px, a.len() - 1);
        b.lemma_filter_contains_rev(px, x);
        b.lemma_filter_contains(py, b.len() - 1);
        a.lemma_filter_contains_rev(py, y);
        let i = choose|i: int| 0 <= i < b.len() && b[i] == x;
        let j = choose|j: int| 0 <= j < a.len() && a[j] == y;
        assert(b[i].rank() <= b[b.len() - 1].rank());
        assert(a[j].rank() <= a[a.len() - 1].rank());
        assert(x.rank() == y.rank());
        // So they are the last of the same filtered sequence.
        lemma_filter_push(front, x, px);
        lemma_filter_push(back, y, px);
        assert(front.filter(px).push(x) == back.filter(px).push(y));
        assert(front.filter(px).push(x).last() == x);
        assert(back.filter(px).push(y).last() == y);
        assert(x == y);
        assert(front.filter(px).push(x).drop_last() =~= front.filter(px));
        assert(back.filter(px).push(y).drop_last() =~= back.filter(px));
        assert forall|k: nat| #[trigger]
            front.filter(with_rank::<T>(k)) == back.filter(with_rank::<T>(k)) by {
            let pred = with_rank::<T>(k);
            lemma_filter_push(front, x, pred);
            lemma_filter_push(back, y, pred);
            assert(a.filter(pred) == b.filter(pred));
        }
        assert forall|i: int, j: int| 0 <= i <= j < front.len() implies front[i].rank()
            <= front[j].rank() by {
            assert(a[i].rank() <= a[j].rank());
        }
        assert forall|i: int, j: int| 0 <= i <= j < back.len() implies back[i].rank()
            <= back[j].rank() by {
            assert(b[i].rank() <= b[j].rank());
        }
        lemma_same_ranks_same_items(front, back);
    }
}

/// There is one stable ranking of a sequence, and no other.
pub proof fn lemma_ranking_unique<T: Ranked>(first: Seq<T>, second: Seq<T>, items: Seq<T>)
    requires
        stably_ranked(first, items),
        stably_ranked(second, items),
    ensures
        first == second,
{
    assert forall|k: nat| #[trigger]
        first.filter(with_rank::<T>(k)) == second.filter(with_rank::<T>(k)) by {
        assert(first.filter(with_rank::<T>(k)) == items.filter(with_rank::<T>(k)));
        assert(second.filter(with_rank::<T>(k)) == items.filter(with_rank::<T>(k)));
    }
    lemma_same_ranks_same_items(first, second);
}

/// Merges two ascending vectors into one, an item of `left` going before an
/// item of `right` of the same rank.
fn merge<T: Ranked>(left: &Vec<T>, right: &Vec<T>) -> (out: Vec<T>)
    requires
        ascending(left@),
        ascending(right@),
        left.len() + right.len() <= usize::MAX,
    ensures
        stably_ranked(out@, left@ + right@),
{
    let mut out: Vec<T> = Vec::with_capacity(left.len() + right.len());
    let mut i: usize = 0;
    let mut j: usize = 0;
    proof {
        assert forall|k: nat| #[trigger]
            out@.filter(with_rank::<T>(k)) == left@.take(0).filter(with_rank::<T>(k))
                + right@.take(0).filter(with_rank::<T>(k)) by {
            let pred = with_rank::<T>(k);
            lemma_filter_none(out@, pred);
            lemma_filter_none(left@.take(0), pred);
            lemma_filter_none(right@.take(0), pred);
        }
    }
    while i < left.len() || j < right.len()
        invariant
            i <= left.len(),
            j <= right.len(),
            out.len() == i + j,
            ascending(left@),
            ascending(right@),
            ascending(out@),
            forall|p: int|
                0 <= p < out.len() && i < left.len() ==> out[p].rank() <= left[i as int].rank(),
            forall|p: int|
                0 <= p < out.len() && j < right.len() ==> out[p].rank() <= right[j as int].rank(),
            forall|q: int| 0 <= q < j && i < left.len() ==> right[q].rank() < left[i as int].rank(),
            forall|k: nat| #[trigger]
                out@.filter(with_rank::<T>(k)) == left@.take(i as int).filter(with_rank::<T>(k))
                    + right@.take(j as int).filter(with_rank::<T>(k)),
        decreases left.len() - i + right.len() - j,
    {
        let from_right = if i == left.len() {
            true
        } else if j == right.len() {
            false
        } else {
            right[j].measure() < left[i].measure()
        };
        let ghost before = out@;
        if from_right {
            let item = right[j];
            out.push(item);
            proof {
                assert(right@.take(j + 1) =~= right@.take(j as int).push(item));
                assert forall|k: nat| #[trigger]
                    out@.filter(with_rank::<T>(k)) == left@.take(i as int).filter(
                        with_rank::<T>(k),
                    ) + right@.take(j + 1).filter(with_rank::<T>(k)) by {
                    let pred = with_rank::<T>(k);
                    lemma_filter_push(before, item, pred);
                    lemma_filter_push(right@.take(j as int), item, pred);
                    assert(before.filter(pred) == left@.take(i as int).filter(pred)
                        + right@.take(j as int).filter(pred));
                    if pred(item) {
                        assert((left@.take(i as int).filter(pred) + right@.take(j as int).filter(
                            pred,
                        )).push(item) =~= left@.take(i as int).filter(pred) + right@.take(
                            j as int,
                        ).filter(pred).push(item));
                    }
                }
            }
            j += 1;
        } else {
            let item = left[i];
            out.push(item);
            proof {
                assert(left@.take(i + 1) =~= left@.take(i as int).push(item));
                assert forall|k: nat| #[trigger]
                    out@.filter(with_rank::<T>(k)) == left@.take(i + 1).filter(with_rank::<T>(k))
                        + right@.take(j as int).filter(with_rank::<T>(k)) by {
                    let pred = with_rank::<T>(k);
                    lemma_filter_push(before, item, pred);
                    lemma_filter_push(left@.take(i as int), item, pred);
                    assert(before.filter(pred) == left@.take(i as int).filter(pred)
                        + right@.take(j as int).filter(pred));
                    if pred(item) {
                        lemma_filter_none(right@.take(j as int), pred);
                        assert((left@.take(i as int).filter(pred) + Seq::<T>::empty()).push(item)
                            =~= left@.take(i as int).filter(pred).push(item) + Seq::<T>::empty());
                    }
                }
            }
            i += 1;
        }
    }
    proof {
        assert(left@.take(i as int) =~= left@);
        assert(right@.take(j as int) =~= right@);
        assert forall|k: nat| #[trigger]
            out@.filter(with_rank::<T>(k)) == (left@ + right@).filter(with_rank::<T>(k)) by {
            Seq::filter_distributes_over_add(left@, right@, with_rank::<T>(k));
        }
    }
    out
}

/// Ranks the items of `items[lo..hi]`.
fn rank_range<T: Ranked>(items: &Vec<T>, lo: usize, hi: usize) -> (out: Vec<T>)
    requires
        lo <= hi <= items.len(),
    ensures
        stably_ranked(out@, items@.subrange(lo as int, hi as int)),
    decreases hi - lo,
{
    let ghost part = items@.subrange(lo as int, hi as int);
    if hi - lo <= 1 {
        let mut out: Vec<T> = Vec::new();
        if hi - lo == 1 {
            out.push(items[lo]);
        }
        assert(out@ =~= part);
        out
    } else {
        let mid: usize = lo + (hi - lo) / 2;
        let left = rank_range(items, lo, mid);
        let right = rank_range(items, mid, hi);
        let out = merge(&left, &right);
        proof {
            let first = items@.subrange(lo as int, mid as int);
            let second = items@.subrange(mid as int, hi as int);
            assert(part =~= first + second);
            assert forall|k: nat| #[trigger]
                out@.filter(with_rank::<T>(k)) == part.filter(with_rank::<T>(k)) by {
                let pred = with_rank::<T>(k);
                Seq::filter_distributes_over_add(left@, right@, pred);
                Seq::filter_distributes_over_add(first, second, pred);
                assert(left@.filter(pred) == first.filter(pred));
                assert(right@.filter(pred) == second.filter(pred));
            }
        }
        out
    }
}

/// Sorts by rank, ascending, items of equal rank staying in their order.
pub fn rank_stably<T: Ranked>(items: &Vec<T>) -> (ranked: Vec<T>)
    ensures
        stably_ranked(ranked@, items@),
{
    let ranked = rank_range(items, 0, items.len());
    assert(items@.subrange(0, items.len() as int) =~= items@);
    ranked
}

} // verus!
