//! The blob report: how many blobs, what they weigh, and the ten largest.

use crate::object_collection::{GraphView, ObjectContainer};
use crate::report_commits::{lemma_sum_of_beginning, lemma_sum_of_next, sum};
use vstd::prelude::*;
use vstd::relations::{sorted_by, total_ordering};
use vstd::seq_lib::{
    lemma_sorted_unique, to_multiset_build, to_multiset_contains, to_multiset_insert,
    to_multiset_len, to_multiset_remove,
};

verus! {

/// The number of blobs that the report names.
pub const TOP_COUNT: usize = 10;

/// Whether the blob `a` comes before the blob `b` in the ranking, each given as its size
/// on disk and its index: the larger one first, and of two of the same size the one with
/// the smaller index, which was met first.
pub open spec fn ranks_before(a: (u32, usize), b: (u32, usize)) -> bool {
    a.0 > b.0 || (a.0 == b.0 && a.1 <= b.1)
}

/// The order of the ranking.
pub open spec fn ranking_order() -> spec_fn((u32, usize), (u32, usize)) -> bool {
    |a: (u32, usize), b: (u32, usize)| ranks_before(a, b)
}

/// Every blob as its size on disk and its index, by index.
pub open spec fn candidates(sizes: Seq<u32>) -> Seq<(u32, usize)> {
    Seq::new(sizes.len(), |i: int| (sizes[i], i as usize))
}

/// All blobs in the order of the ranking.
pub open spec fn ranking(sizes: Seq<u32>) -> Seq<(u32, usize)> {
    candidates(sizes).sort_by(ranking_order())
}

/// The first ten of the ranking, or all where there are fewer.
pub open spec fn top_ten(sizes: Seq<u32>) -> Seq<(u32, usize)> {
    ranking(sizes).take(
        if sizes.len() < TOP_COUNT {
            sizes.len() as int
        } else {
            TOP_COUNT as int
        },
    )
}

impl GraphView {
    /// The size on disk of every blob, by index.
    pub open spec fn blob_disk_sizes(self) -> Seq<u32> {
        Seq::new(self.blobs.records.len(), |i: int| self.blobs.records[i].size_disk)
    }
}

/// The ranking is a total order.
pub proof fn lemma_ranking_order_total()
    ensures
        total_ordering(ranking_order()),
{
    let r = ranking_order();
    assert forall|x: (u32, usize), y: (u32, usize)| #[trigger] r(x, y) && #[trigger] r(y, x) implies x == y by {
        assert(x.0 == y.0 && x.1 == y.1);
    }
    assert(vstd::relations::reflexive(r));
    assert(vstd::relations::antisymmetric(r));
    assert(vstd::relations::transitive(r));
    assert(vstd::relations::strongly_connected(r));
}

/// Position at which a blob of size `size` that was met after all of `ranked` enters the
/// ranking: behind everything that is at least as large.
pub open spec fn entry_point(ranked: Seq<(u32, usize)>, size: u32) -> int
    decreases ranked.len(),
{
    if ranked.len() == 0 {
        0
    } else if ranked[0].0 < size {
        0
    } else {
        1 + entry_point(ranked.skip(1), size)
    }
}

proof fn lemma_entry_point_props(ranked: Seq<(u32, usize)>, size: u32)
    ensures
        0 <= entry_point(ranked, size) <= ranked.len(),
        forall|j: int| 0 <= j < entry_point(ranked, size) ==> ranked[j].0 >= size,
        entry_point(ranked, size) < ranked.len() ==> ranked[entry_point(ranked, size)].0 < size,
    decreases ranked.len(),
{
    if ranked.len() > 0 && ranked[0].0 >= size {
        let rest = ranked.skip(1);
        lemma_entry_point_props(rest, size);
        assert forall|j: int| 0 <= j < entry_point(ranked, size) implies ranked[j].0 >= size by {
            if j > 0 {
                assert(ranked[j] == rest[j - 1]);
            }
        }
        assert(entry_point(ranked, size) < ranked.len() ==> ranked[entry_point(ranked, size)]
            == rest[entry_point(rest, size)]);
    }
}

proof fn lemma_entry_point_is(ranked: Seq<(u32, usize)>, size: u32, k: int)
    requires
        0 <= k <= ranked.len(),
        forall|j: int| 0 <= j < k ==> ranked[j].0 >= size,
        k < ranked.len() ==> ranked[k].0 < size,
    ensures
        entry_point(ranked, size) == k,
    decreases ranked.len(),
{
    if ranked.len() > 0 && k > 0 {
        let rest = ranked.skip(1);
        assert(ranked[0].0 >= size);
        assert forall|j: int| 0 <= j < k - 1 implies rest[j].0 >= size by {
            assert(rest[j] == ranked[j + 1]);
        }
        lemma_entry_point_is(rest, size, k - 1);
    }
}

/// A ranking stays one when a blob that was met later enters at its entry point.
proof fn lemma_enter_ranking(ranked: Seq<(u32, usize)>, size: u32, index: usize)
    requires
        sorted_by(ranked, ranking_order()),
        forall|j: int| 0 <= j < ranked.len() ==> (#[trigger] ranked[j]).1 < index,
    ensures
        sorted_by(ranked.insert(entry_point(ranked, size), (size, index)), ranking_order()),
{
    let q = entry_point(ranked, size);
    let after = ranked.insert(q, (size, index));
    lemma_entry_point_props(ranked, size);
    assert forall|i: int, j: int| 0 <= i < j < after.len() implies #[trigger] ranking_order()(
        after[i],
        after[j],
    ) by {
        if j < q {
            assert(ranking_order()(ranked[i], ranked[j]));
        } else if j == q {
            assert(ranked[i].1 < index);
        } else if i < q {
            assert(ranking_order()(ranked[i], ranked[j - 1]));
        } else if i == q {
            if q < j - 1 {
                assert(ranking_order()(ranked[q], ranked[j - 1]));
            }
        } else {
            assert(ranking_order()(ranked[i - 1], ranked[j - 1]));
        }
    }
}

/// What the blob report says.
#[derive(Debug, PartialEq, Eq)]
pub struct BlobReport {
    /// The number of blobs.
    pub count: usize,
    /// The sizes on disk of all blobs, added up.
    pub total_size: u64,
    /// Size on disk and index of the ten largest blobs, the largest first. Of blobs of
    /// one size, the one met first comes first.
    pub largest: Vec<(u32, usize)>,
}

/// Whether `r` is the blob report of `g`.
pub open spec fn is_blob_report(g: GraphView, r: BlobReport) -> bool {
    &&& r.count == g.blobs.records.len()
    &&& r.total_size == sum(g.blob_sizes())
    &&& r.largest@ == top_ten(g.blob_disk_sizes())
}

/// Builds the blob report. The ten largest blobs are kept in a list of at most ten that
/// each blob enters at its place, if it has one.
pub fn report_blobs(container: &ObjectContainer) -> (r: BlobReport)
    requires
        sum(container@.blob_sizes()) <= u64::MAX,
    ensures
        is_blob_report(container@, r),
{
    let blobs = container.blobs().object_iter();
    let ghost sizes = container@.blob_sizes();
    let ghost weights = container@.blob_disk_sizes();
    let ghost all = candidates(weights);
    let ghost mut ranked: Seq<(u32, usize)> = Seq::empty();
    let mut total_size: u64 = 0;
    let mut top: Vec<(u32, usize)> = Vec::new();
    let mut i: usize = 0;
    proof {
        assert(sizes.take(0) =~= Seq::<nat>::empty());
        assert(all.take(0) =~= ranked);
    }
    while i < blobs.len()
        invariant
            i <= blobs.len(),
            blobs@ == container.blob_store().records(),
            sum(container@.blob_sizes()) <= u64::MAX,
            sizes == container@.blob_sizes(),
            weights == container@.blob_disk_sizes(),
            all == candidates(weights),
            total_size == sum(sizes.take(i as int)),
            sorted_by(ranked, ranking_order()),
            ranked.to_multiset() == all.take(i as int).to_multiset(),
            ranked.len() == i,
            forall|j: int| 0 <= j < ranked.len() ==> (#[trigger] ranked[j]).1 < i,
            top@ == ranked.take(
                if i < TOP_COUNT {
                    i as int
                } else {
                    TOP_COUNT as int
                },
            ),
        decreases blobs.len() - i,
    {
        let blob = &blobs[i];
        let size = blob.size_disk();
        proof {
            lemma_sum_of_next(sizes, i as int);
            lemma_sum_of_beginning(sizes, i + 1);
            assert(blob@ == container@.blobs.records[i as int]);
            assert(all[i as int] == (size, i));
        }
        total_size += size as u64;
        let mut p: usize = 0;
        while p < top.len() && top[p].0 >= size
            invariant
                p <= top.len(),
                forall|j: int| 0 <= j < p ==> top@[j].0 >= size,
            decreases top.len() - p,
        {
            p += 1;
        }
        let ghost q = entry_point(ranked, size);
        let ghost kept = top@;
        proof {
            lemma_entry_point_props(ranked, size);
            if p < top.len() {
                assert(forall|j: int| 0 <= j < p ==> ranked[j] == kept[j]);
                assert(ranked[p as int] == kept[p as int]);
                lemma_entry_point_is(ranked, size, p as int);
            } else {
                assert(forall|j: int| 0 <= j < p ==> ranked[j] == kept[j]);
                if q < p {
                    assert(ranked[q].0 >= size);
                }
            }
            lemma_enter_ranking(ranked, size, i);
            to_multiset_insert(ranked, q, (size, i));
            assert(all.take(i + 1) =~= all.take(i as int).push((size, i)));
            to_multiset_build(all.take(i as int), (size, i));
        }
        if p < TOP_COUNT {
            top.insert(p, (size, i));
            if top.len() > TOP_COUNT {
                top.pop();
            }
        }
        proof {
            let entered = ranked.insert(q, (size, i));
            let n: int = if i + 1 < TOP_COUNT {
                i + 1
            } else {
                TOP_COUNT as int
            };
            assert(top@ =~= entered.take(n));
            assert forall|j: int| 0 <= j < entered.len() implies (#[trigger] entered[j]).1 < i
                + 1 by {
                if j < q {
                    assert(entered[j] == ranked[j]);
                } else if j > q {
                    assert(entered[j] == ranked[j - 1]);
                }
            }
            ranked = entered;
        }
        i += 1;
    }
    proof {
        assert(sizes.take(i as int) =~= sizes);
        assert(all.take(i as int) =~= all);
        lemma_ranking_order_total();
        all.lemma_sort_by_ensures(ranking_order());
        lemma_sorted_unique(ranked, ranking(weights), ranking_order());
    }
    BlobReport { count: blobs.len(), total_size, largest: top }
}

/// The sizes of the blobs of `ranked`, in order.
pub open spec fn sizes_of(ranked: Seq<(u32, usize)>) -> Seq<u32> {
    ranked.map_values(|e: (u32, usize)| e.0)
}

/// The order of sizes from the largest down.
pub open spec fn descending() -> spec_fn(u32, u32) -> bool {
    |a: u32, b: u32| a >= b
}

/// Two sequences with the same elements, each as often in one as in the other, still
/// have the same elements after one function was applied to every element.
proof fn lemma_map_keeps_multiset<A, B>(x: Seq<A>, y: Seq<A>, f: spec_fn(A) -> B)
    requires
        x.to_multiset() == y.to_multiset(),
    ensures
        x.map_values(f).to_multiset() == y.map_values(f).to_multiset(),
    decreases x.len(),
{
    broadcast use vstd::multiset::group_multiset_axioms;

    to_multiset_len(x);
    to_multiset_len(y);
    if x.len() == 0 {
        assert(x.map_values(f) =~= y.map_values(f));
    } else {
        let a = x.last();
        let front = x.drop_last();
        assert(x =~= front.push(a));
        to_multiset_build(front, a);
        to_multiset_contains(x, a);
        to_multiset_contains(y, a);
        assert(x.contains(a));
        let j = choose|j: int| 0 <= j < y.len() && y[j] == a;
        let rest = y.remove(j);
        to_multiset_remove(y, j);
        assert(front.to_multiset() =~= x.to_multiset().remove(a));
        lemma_map_keeps_multiset(front, rest, f);
        assert(x.map_values(f) =~= front.map_values(f).push(f(a)));
        to_multiset_build(front.map_values(f), f(a));
        assert(y.map_values(f) =~= rest.map_values(f).insert(j, f(a)));
        to_multiset_insert(rest.map_values(f), j, f(a));
    }
}

/// The sizes of the ranking are the sizes from the largest down.
pub proof fn lemma_ranking_sizes(sizes: Seq<u32>)
    ensures
        ranking(sizes).len() == sizes.len(),
        sizes_of(ranking(sizes)) == sizes.sort_by(descending()),
{
    let first = |e: (u32, usize)| e.0;
    let ranked = ranking(sizes);
    lemma_ranking_order_total();
    candidates(sizes).lemma_sort_by_ensures(ranking_order());
    to_multiset_len(ranked);
    to_multiset_len(candidates(sizes));
    lemma_map_keeps_multiset(ranked, candidates(sizes), first);
    assert(candidates(sizes).map_values(first) =~= sizes);
    assert(total_ordering(descending())) by {
        let r = descending();
        assert(vstd::relations::reflexive(r));
        assert(vstd::relations::antisymmetric(r));
        assert(vstd::relations::transitive(r));
        assert(vstd::relations::strongly_connected(r));
    }
    sizes.lemma_sort_by_ensures(descending());
    assert(sorted_by(sizes_of(ranked), descending())) by {
        assert forall|i: int, j: int| 0 <= i < j < sizes_of(ranked).len() implies #[trigger] descending()(
            sizes_of(ranked)[i],
            sizes_of(ranked)[j],
        ) by {
            assert(ranking_order()(ranked[i], ranked[j]));
        }
    }
    lemma_sorted_unique(sizes_of(ranked), sizes.sort_by(descending()), descending());
}

/// The ten largest sizes do not depend on the order in which the blobs are met: two
/// listings of the same blobs, in any two orders, give the same sizes in the same order.
pub proof fn lemma_top_ten_order_independent(a: Seq<u32>, b: Seq<u32>)
    requires
        a.to_multiset() == b.to_multiset(),
    ensures
        sizes_of(top_ten(a)) == sizes_of(top_ten(b)),
{
    lemma_ranking_sizes(a);
    lemma_ranking_sizes(b);
    to_multiset_len(a);
    to_multiset_len(b);
    assert(total_ordering(descending())) by {
        let r = descending();
        assert(vstd::relations::reflexive(r));
        assert(vstd::relations::antisymmetric(r));
        assert(vstd::relations::transitive(r));
        assert(vstd::relations::strongly_connected(r));
    }
    a.lemma_sort_by_ensures(descending());
    b.lemma_sort_by_ensures(descending());
    lemma_sorted_unique(a.sort_by(descending()), b.sort_by(descending()), descending());
    let n: int = if a.len() < TOP_COUNT {
        a.len() as int
    } else {
        TOP_COUNT as int
    };
    assert(sizes_of(ranking(a).take(n)) =~= sizes_of(ranking(a)).take(n));
    assert(sizes_of(ranking(b).take(n)) =~= sizes_of(ranking(b)).take(n));
}

} // verus!
