//! The commit report: how many commits, what they weigh, and which weighs most, by
//! itself and by what it introduces.

use crate::commit::{Commit, CommitView};
use crate::object_collection::{GraphView, ObjectContainer};
use vstd::prelude::*;

verus! {

/// The sum of `values`.
pub open spec fn sum(values: Seq<nat>) -> nat
    decreases values.len(),
{
    if values.len() == 0 {
        0
    } else {
        sum(values.drop_last()) + values.last()
    }
}

/// The sum of a beginning of `values` is no more than the sum of all.
pub proof fn lemma_sum_of_beginning(values: Seq<nat>, k: int)
    requires
        0 <= k <= values.len(),
    ensures
        sum(values.take(k)) <= sum(values),
    decreases values.len(),
{
    if k == values.len() {
        assert(values.take(k) =~= values);
    } else {
        lemma_sum_of_beginning(values.drop_last(), k);
        assert(values.drop_last().take(k) =~= values.take(k));
    }
}

/// The sum grows by the value that is added at the end.
pub proof fn lemma_sum_of_next(values: Seq<nat>, k: int)
    requires
        0 <= k < values.len(),
    ensures
        sum(values.take(k + 1)) == sum(values.take(k)) + values[k],
{
    assert(values.take(k + 1).drop_last() =~= values.take(k));
}

/// Whether `i` is the first position of `values` that holds their maximum.
pub open spec fn is_first_max(values: Seq<nat>, i: int) -> bool {
    &&& 0 <= i < values.len()
    &&& forall|j: int| 0 <= j < values.len() ==> values[j] <= values[i]
    &&& forall|j: int| 0 <= j < i ==> values[j] < values[i]
}

/// The sizes on disk that the records at `indices` have, where `sizes` holds the size on
/// disk of every record of the store.
pub open spec fn sizes_at(sizes: Seq<nat>, indices: Seq<usize>) -> Seq<nat> {
    Seq::new(indices.len(), |k: int| sizes[indices[k] as int])
}

impl GraphView {
    /// The size on disk of every commit, by index.
    pub open spec fn commit_sizes(self) -> Seq<nat> {
        Seq::new(self.commits.records.len(), |i: int| self.commits.records[i].size_disk as nat)
    }

    /// The size on disk of every blob, by index.
    pub open spec fn blob_sizes(self) -> Seq<nat> {
        Seq::new(self.blobs.records.len(), |i: int| self.blobs.records[i].size_disk as nat)
    }

    /// The size on disk of every tree, by index.
    pub open spec fn tree_sizes(self) -> Seq<nat> {
        Seq::new(self.trees.records.len(), |i: int| self.trees.records[i].size_disk as nat)
    }

    /// The size on disk of every tag, by index.
    pub open spec fn tag_sizes(self) -> Seq<nat> {
        Seq::new(self.tags.records.len(), |i: int| self.tags.records[i].size_disk as nat)
    }

    /// Whether what `commit` depends on is in the stores.
    pub open spec fn holds_deps_of(self, commit: CommitView) -> bool {
        &&& forall|k: int|
            0 <= k < commit.blob_deps.len() ==> #[trigger] commit.blob_deps[k]
                < self.blobs.records.len()
        &&& forall|k: int|
            0 <= k < commit.tree_deps.len() ==> #[trigger] commit.tree_deps[k]
                < self.trees.records.len()
        &&& forall|k: int|
            0 <= k < commit.tag_deps.len() ==> #[trigger] commit.tag_deps[k]
                < self.tags.records.len()
    }

    /// The contributing size of `commit`: the sizes on disk of the blobs, trees and tags
    /// that it depends on directly, added up, each as often as it is named.
    pub open spec fn contributing_size(self, commit: CommitView) -> nat {
        sum(sizes_at(self.blob_sizes(), commit.blob_deps)) + sum(
            sizes_at(self.tree_sizes(), commit.tree_deps),
        ) + sum(sizes_at(self.tag_sizes(), commit.tag_deps))
    }

    /// The contributing size of every commit, by index.
    pub open spec fn contributing_sizes(self) -> Seq<nat> {
        Seq::new(
            self.commits.records.len(),
            |i: int| self.contributing_size(self.commits.records[i]),
        )
    }
}

/// The contributing size of `commit` in `container`.
pub fn calc_commit_size(commit: &Commit, container: &ObjectContainer) -> (r: u64)
    requires
        container@.holds_deps_of(commit@),
        container@.contributing_size(commit@) <= u64::MAX,
    ensures
        r == container@.contributing_size(commit@),
{
    let ghost blob_part = sizes_at(container@.blob_sizes(), commit@.blob_deps);
    let ghost tree_part = sizes_at(container@.tree_sizes(), commit@.tree_deps);
    let ghost tag_part = sizes_at(container@.tag_sizes(), commit@.tag_deps);

    let mut total_blob_size: u64 = 0;
    let blob_deps = commit.blob_deps();
    let mut i: usize = 0;
    assert(blob_part.take(0) =~= Seq::<nat>::empty());
    while i < blob_deps.len()
        invariant
            i <= blob_deps.len(),
            blob_deps@ == commit@.blob_deps,
            container@.holds_deps_of(commit@),
            blob_part == sizes_at(container@.blob_sizes(), commit@.blob_deps),
            sum(blob_part) <= u64::MAX,
            total_blob_size == sum(blob_part.take(i as int)),
        decreases blob_deps.len() - i,
    {
        let blob = container.blobs().get_by_index(&blob_deps[i]);
        proof {
            lemma_sum_of_next(blob_part, i as int);
            lemma_sum_of_beginning(blob_part, i + 1);
            assert(blob@ == container@.blobs.records[blob_deps@[i as int] as int]);
        }
        total_blob_size += blob.size_disk() as u64;
        i += 1;
    }
    assert(blob_part.take(i as int) =~= blob_part);

    let mut total_tree_size: u64 = 0;
    let tree_deps = commit.tree_deps();
    let mut i: usize = 0;
    assert(tree_part.take(0) =~= Seq::<nat>::empty());
    while i < tree_deps.len()
        invariant
            i <= tree_deps.len(),
            tree_deps@ == commit@.tree_deps,
            container@.holds_deps_of(commit@),
            tree_part == sizes_at(container@.tree_sizes(), commit@.tree_deps),
            sum(tree_part) <= u64::MAX,
            total_tree_size == sum(tree_part.take(i as int)),
        decreases tree_deps.len() - i,
    {
        let tree = container.trees().get_by_index(&tree_deps[i]);
        proof {
            lemma_sum_of_next(tree_part, i as int);
            lemma_sum_of_beginning(tree_part, i + 1);
            assert(tree@ == container@.trees.records[tree_deps@[i as int] as int]);
        }
        total_tree_size += tree.size_disk() as u64;
        i += 1;
    }
    assert(tree_part.take(i as int) =~= tree_part);

    let mut total_tag_size: u64 = 0;
    let tag_deps = commit.tag_deps();
    let mut i: usize = 0;
    assert(tag_part.take(0) =~= Seq::<nat>::empty());
    while i < tag_deps.len()
        invariant
            i <= tag_deps.len(),
            tag_deps@ == commit@.tag_deps,
            container@.holds_deps_of(commit@),
            tag_part == sizes_at(container@.tag_sizes(), commit@.tag_deps),
            sum(tag_part) <= u64::MAX,
            total_tag_size == sum(tag_part.take(i as int)),
        decreases tag_deps.len() - i,
    {
        let tag = container.tags().get_by_index(&tag_deps[i]);
        proof {
            lemma_sum_of_next(tag_part, i as int);
            lemma_sum_of_beginning(tag_part, i + 1);
            assert(tag@ == container@.tags.records[tag_deps@[i as int] as int]);
        }
        total_tag_size += tag.size_disk() as u64;
        i += 1;
    }
    assert(tag_part.take(i as int) =~= tag_part);

    total_blob_size + total_tree_size + total_tag_size
}

/// What the commit report says.
#[derive(Debug, PartialEq, Eq)]
pub struct CommitReport {
    /// The number of commits.
    pub count: usize,
    /// The sizes on disk of all commits, added up.
    pub total_size: u64,
    /// Index and size on disk of the largest commit: the first of those with the
    /// greatest size on disk. None where there is no commit.
    pub largest: Option<(usize, u32)>,
    /// Index and contributing size of the commit that contributes most: the first of
    /// those with the greatest contributing size. None where there is no commit.
    pub largest_contributing: Option<(usize, u64)>,
}

/// Whether the sizes of the commit report can be held: the sizes on disk of all commits
/// together, and the contributing size of each, fit in 64 bits.
pub open spec fn commit_sizes_fit(g: GraphView) -> bool {
    &&& sum(g.commit_sizes()) <= u64::MAX
    &&& forall|i: int|
        0 <= i < g.commits.records.len() ==> #[trigger] g.contributing_sizes()[i] <= u64::MAX
}

/// Whether `r` is the commit report of `g`.
pub open spec fn is_commit_report(g: GraphView, r: CommitReport) -> bool {
    &&& r.count == g.commits.records.len()
    &&& r.total_size == sum(g.commit_sizes())
    &&& match r.largest {
        Some((index, size)) => is_first_max(g.commit_sizes(), index as int) && size
            == g.commit_sizes()[index as int],
        None => g.commits.records.len() == 0,
    }
    &&& match r.largest_contributing {
        Some((index, size)) => is_first_max(g.contributing_sizes(), index as int) && size
            == g.contributing_sizes()[index as int],
        None => g.commits.records.len() == 0,
    }
}

/// Builds the commit report.
pub fn report_commits(container: &ObjectContainer) -> (r: CommitReport)
    requires
        container@.links_valid(),
        commit_sizes_fit(container@),
    ensures
        is_commit_report(container@, r),
{
    let commits = container.commits().object_iter();
    let ghost sizes = container@.commit_sizes();
    let ghost contributions = container@.contributing_sizes();
    let mut total_size: u64 = 0;
    let mut largest: Option<(usize, u32)> = None;
    let mut largest_contributing: Option<(usize, u64)> = None;
    let mut i: usize = 0;
    assert(sizes.take(0) =~= Seq::<nat>::empty());
    while i < commits.len()
        invariant
            i <= commits.len(),
            commits@ == container.commit_store().records(),
            container@.links_valid(),
            commit_sizes_fit(container@),
            sizes == container@.commit_sizes(),
            contributions == container@.contributing_sizes(),
            total_size == sum(sizes.take(i as int)),
            match largest {
                Some((index, size)) => is_first_max(sizes.take(i as int), index as int) && size
                    == sizes[index as int],
                None => i == 0,
            },
            match largest_contributing {
                Some((index, size)) => is_first_max(contributions.take(i as int), index as int)
                    && size == contributions[index as int],
                None => i == 0,
            },
        decreases commits.len() - i,
    {
        let commit = &commits[i];
        proof {
            lemma_sum_of_next(sizes, i as int);
            lemma_sum_of_beginning(sizes, i + 1);
            assert(commit@ == container@.commits.records[i as int]);
            assert(contributions[i as int] == container@.contributing_size(commit@));
            assert(container@.holds_deps_of(commit@));
        }
        let size = commit.size_disk();
        total_size += size as u64;
        largest = match largest {
            Some((index, best)) => if best < size {
                Some((i, size))
            } else {
                Some((index, best))
            },
            None => Some((i, size)),
        };
        let contributing = calc_commit_size(commit, container);
        largest_contributing = match largest_contributing {
            Some((index, best)) => if best < contributing {
                Some((i, contributing))
            } else {
                Some((index, best))
            },
            None => Some((i, contributing)),
        };
        i += 1;
    }
    proof {
        assert(sizes.take(i as int) =~= sizes);
        assert(contributions.take(i as int) =~= contributions);
    }
    CommitReport { count: commits.len(), total_size, largest, largest_contributing }
}

} // verus!
