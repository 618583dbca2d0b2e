//! The order in which found items are listed, and a stable sort into it.

use vstd::prelude::*;
use crate::ranking::{FileItem, ItemView, item_views};

verus! {

/// The sort key of an item: its score first, then the year written in its
/// name, then its modification time.
pub open spec fn rank_key(a: ItemView) -> (int, int, int) {
    (a.score, a.year_in_name, a.modified_secs)
}

/// `k1` is greater than `k2` in lexicographic order.
pub open spec fn key_greater(k1: (int, int, int), k2: (int, int, int)) -> bool {
    ||| k1.0 > k2.0
    ||| k1.0 == k2.0 && k1.1 > k2.1
    ||| k1.0 == k2.0 && k1.1 == k2.1 && k1.2 > k2.2
}

/// `a` is listed before `b` whatever their positions: its key is greater.
pub open spec fn ranks_before(a: ItemView, b: ItemView) -> bool {
    key_greater(rank_key(a), rank_key(b))
}

/// Where `x` goes in `t`: right before the first item that `x` ranks before,
/// so after every item whose key is not smaller than its own.
pub open spec fn insertion_point(t: Seq<ItemView>, x: ItemView) -> int
    decreases t.len(),
{
    if t.len() == 0 {
        0
    } else if ranks_before(x, t[0]) {
        0
    } else {
        1 + insertion_point(t.drop_first(), x)
    }
}

/// `t` with `x` put at its insertion point.
pub open spec fn insert_ranked(t: Seq<ItemView>, x: ItemView) -> Seq<ItemView> {
    t.insert(insertion_point(t, x), x)
}

/// The items of `s` in ranking order: by decreasing key, and in their order
/// in `s` where keys are equal.
pub open spec fn rank_sort(s: Seq<ItemView>) -> Seq<ItemView>
    decreases s.len(),
{
    if s.len() == 0 {
        s
    } else {
        insert_ranked(rank_sort(s.drop_last()), s.last())
    }
}

/// No item of `s` ranks before an item that comes earlier in `s`.
pub open spec fn is_ranked(s: Seq<ItemView>) -> bool {
    forall|i: int, j: int| 0 <= i < j < s.len() ==> !ranks_before(s[j], s[i])
}

/// The insertion point lies in `t`; items before it do not rank after `x`,
/// and `x` ranks before the item at it.
pub proof fn lemma_insertion_point(t: Seq<ItemView>, x: ItemView)
    ensures
        0 <= insertion_point(t, x) <= t.len(),
        forall|j: int|
            0 <= j < insertion_point(t, x) ==> !ranks_before(x, #[trigger] t[j]),
        insertion_point(t, x) < t.len() ==> ranks_before(
            x,
            t[insertion_point(t, x)]
        ),
    decreases t.len(),
{
    if t.len() > 0 && !ranks_before(x, t[0]) {
        lemma_insertion_point(t.drop_first(), x);
        let p = insertion_point(t, x);
        assert forall|j: int| 0 <= j < p implies !ranks_before(x, #[trigger] t[j]) by {
            if j > 0 {
                assert(t[j] == t.drop_first()[j - 1]);
            }
        }
    }
}

/// The insertion point is the first position before which no item ranks
/// after `x` and at which `x` ranks before the item.
pub proof fn lemma_insertion_point_unique(t: Seq<ItemView>, x: ItemView, k: int)
    requires
        0 <= k <= t.len(),
        forall|j: int| 0 <= j < k ==> !ranks_before(x, #[trigger] t[j]),
        k < t.len() ==> ranks_before(x, t[k]),
    ensures
        insertion_point(t, x) == k,
    decreases t.len(),
{
    if t.len() > 0 && k > 0 {
        assert(!ranks_before(x, t[0]));
        assert forall|j: int| 0 <= j < k - 1 implies !ranks_before(
            x,
            #[trigger] t.drop_first()[j]
        ) by {
            assert(t.drop_first()[j] == t[j + 1]);
        }
        if k < t.len() {
            assert(t.drop_first()[k - 1] == t[k]);
        }
        lemma_insertion_point_unique(t.drop_first(), x, k - 1);
    }
}


/// The items of `s` whose score, year in the name and modification time are
/// those of `k`, in order.
pub open spec fn with_key(s: Seq<ItemView>, k: (int, int, int)) -> Seq<ItemView> {
    s.filter(|y: ItemView| y.score == k.0 && y.year_in_name == k.1 && y.modified_secs == k.2)
}

/// Putting `x` at its insertion point in a ranked sequence keeps it ranked.
pub proof fn lemma_insert_ranked(t: Seq<ItemView>, x: ItemView)
    requires
        is_ranked(t),
    ensures
        is_ranked(insert_ranked(t, x)),
{
    lemma_insertion_point(t, x);
    let p = insertion_point(t, x);
    let r = insert_ranked(t, x);
    assert forall|i: int, j: int| 0 <= i < j < r.len() implies !ranks_before(
        r[j],
        r[i]
    ) by {
        if j < p {
        } else if j == p {
            assert(r[i] == t[i]);
        } else if i == p {
            assert(r[j] == t[j - 1]);
            if j - 1 > p {
                assert(!ranks_before(t[j - 1], t[p]));
            }
        } else if i < p {
            assert(r[i] == t[i]);
            assert(r[j] == t[j - 1]);
        } else {
            assert(r[i] == t[i - 1]);
            assert(r[j] == t[j - 1]);
        }
    }
}

/// Ranking lists the items by decreasing key: no item is listed after one
/// that it ranks before.
pub proof fn lemma_rank_sort_is_ranked(s: Seq<ItemView>)
    ensures
        is_ranked(rank_sort(s)),
    decreases s.len(),
{
    if s.len() > 0 {
        lemma_rank_sort_is_ranked(s.drop_last());
        lemma_insert_ranked(rank_sort(s.drop_last()), s.last());
    }
}

/// Ranking neither drops nor adds nor duplicates an item: the result holds
/// the same items as the input, as many times each.
pub proof fn lemma_rank_sort_permutes(s: Seq<ItemView>)
    ensures
        rank_sort(s).to_multiset() == s.to_multiset(),
        rank_sort(s).len() == s.len(),
    decreases s.len(),
{
    broadcast use vstd::seq_lib::group_to_multiset_ensures;

    if s.len() > 0 {
        let t = rank_sort(s.drop_last());
        lemma_rank_sort_permutes(s.drop_last());
        lemma_insertion_point(t, s.last());
        vstd::seq_lib::to_multiset_insert(t, insertion_point(t, s.last()), s.last());
        assert(s.drop_last().push(s.last()) =~= s);
    }
}

proof fn lemma_filter_none(u: Seq<ItemView>, pred: spec_fn(ItemView) -> bool)
    requires
        forall|i: int| 0 <= i < u.len() ==> !pred(#[trigger] u[i]),
    ensures
        u.filter(pred) == Seq::<ItemView>::empty(),
    decreases u.len(),
{
    reveal(Seq::filter);
    if u.len() > 0 {
        lemma_filter_none(u.drop_last(), pred);
        assert(!pred(u[u.len() - 1]));
    }
}

/// Ranking is stable: the items that share a key come out in the order in
/// which they came in.
pub proof fn lemma_rank_sort_stable(s: Seq<ItemView>, k: (int, int, int))
    ensures
        with_key(rank_sort(s), k) == with_key(s, k),
    decreases s.len(),
{
    let pred = |y: ItemView| y.score == k.0 && y.year_in_name == k.1 && y.modified_secs == k.2;
    if s.len() == 0 {
    } else {
        let t = rank_sort(s.drop_last());
        let x = s.last();
        lemma_rank_sort_stable(s.drop_last(), k);
        lemma_rank_sort_is_ranked(s.drop_last());
        lemma_insertion_point(t, x);
        let p = insertion_point(t, x);
        let a = t.take(p);
        let b = t.skip(p);
        assert(t =~= a + b);
        assert(t.insert(p, x) =~= a + seq![x] + b);
        Seq::filter_distributes_over_add(a, b, pred);
        Seq::filter_distributes_over_add(a + seq![x], b, pred);
        Seq::filter_distributes_over_add(a, seq![x], pred);
        assert(seq![x] =~= Seq::<ItemView>::empty().push(x));
        Seq::<ItemView>::empty().lemma_filter_push(x, pred);
        assert(Seq::<ItemView>::empty().filter(pred) =~= Seq::<ItemView>::empty()) by {
            reveal(Seq::filter);
        }
        assert(s.drop_last().push(x) =~= s);
        s.drop_last().lemma_filter_push(x, pred);
        if pred(x) {
            assert forall|i: int| 0 <= i < b.len() implies !pred(#[trigger] b[i]) by {
                assert(b[i] == t[p + i]);
                if i > 0 {
                    assert(!ranks_before(t[p + i], t[p]));
                }
            }
            lemma_filter_none(b, pred);
            assert(a.filter(pred) + b.filter(pred) =~= a.filter(pred));
            assert(a.filter(pred) + seq![x].filter(pred) + b.filter(pred) =~= a.filter(pred).push(x));
        } else {
            assert(a.filter(pred) + seq![x].filter(pred) =~= a.filter(pred));
        }
    }
}

/// The order compares scores first, then years in the names, then
/// modification times: a higher one ranks first, and items equal in all
/// three rank neither way.
pub proof fn lemma_ranks_before_fields(a: ItemView, b: ItemView)
    ensures
        a.score > b.score ==> ranks_before(a, b),
        a.score == b.score && a.year_in_name > b.year_in_name ==> ranks_before(a, b),
        a.score == b.score && a.year_in_name == b.year_in_name && a.modified_secs
            > b.modified_secs ==> ranks_before(a, b),
        ranks_before(a, b) ==> a.score >= b.score,
        a.score == b.score && a.year_in_name == b.year_in_name && a.modified_secs
            == b.modified_secs ==> !ranks_before(a, b) && !ranks_before(b, a),
{
}

/// Ranked items come by non-increasing score; among equal scores by
/// non-increasing year in the name; among equal scores and years by
/// non-increasing modification time.
pub proof fn lemma_rank_sort_fields(s: Seq<ItemView>)
    ensures
        forall|i: int, j: int|
            0 <= i < j < rank_sort(s).len() ==> {
                let a = #[trigger] rank_sort(s)[i];
                let b = #[trigger] rank_sort(s)[j];
                &&& a.score >= b.score
                &&& a.score == b.score ==> a.year_in_name >= b.year_in_name
                &&& a.score == b.score && a.year_in_name == b.year_in_name ==> a.modified_secs
                    >= b.modified_secs
            },
{
    lemma_rank_sort_is_ranked(s);
    let r = rank_sort(s);
    assert forall|i: int, j: int| 0 <= i < j < r.len() implies {
        let a = #[trigger] r[i];
        let b = #[trigger] r[j];
        &&& a.score >= b.score
        &&& a.score == b.score ==> a.year_in_name >= b.year_in_name
        &&& a.score == b.score && a.year_in_name == b.year_in_name ==> a.modified_secs
            >= b.modified_secs
    } by {
        assert(!ranks_before(r[j], r[i]));
    }
}

fn ranks_first(a: &FileItem, b: &FileItem) -> (r: bool)
    ensures
        r == ranks_before(a@, b@),
{
    if a.score != b.score {
        a.score > b.score
    } else if a.year_in_name != b.year_in_name {
        a.year_in_name > b.year_in_name
    } else {
        a.modified_secs > b.modified_secs
    }
}

/// Sorts `items` into ranking order: by decreasing score, then year in the
/// name, then modification time; items with equal keys keep their order.
pub fn sort_ranked(items: Vec<FileItem>) -> (r: Vec<FileItem>)
    ensures
        item_views(r@) == rank_sort(item_views(items@)),
{
    let ghost input = item_views(items@);
    let mut out: Vec<FileItem> = Vec::new();
    for item in it: items
        invariant
            input == item_views(it.seq()),
            item_views(out@) == rank_sort(input.take(it.index())),
    {
        let ghost t = item_views(out@);
        let ghost i = it.index();
        let mut k: usize = 0;
        while k < out.len() && !ranks_first(&item, &out[k])
            invariant
                k <= out@.len(),
                t == item_views(out@),
                forall|j: int| 0 <= j < k ==> !ranks_before(item@, #[trigger] t[j]),
            decreases out@.len() - k,
        {
            k = k + 1;
        }
        proof {
            lemma_insertion_point_unique(t, item@, k as int);
            assert(input.take(i + 1).drop_last() =~= input.take(i));
            assert(input.take(i + 1).last() == item@);
        }
        let ghost x = item;
        out.insert(k, item);
        proof {
            assert(item_views(out@) =~= t.insert(k as int, x@));
        }
    }
    proof {
        assert(input.take(input.len() as int) =~= input);
    }
    out
}

} // verus!
