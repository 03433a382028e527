//! What the reports ask of the graph, as tests that can be run: that every link names a
//! record, and that the sizes which are added up fit in 64 bits.

use crate::commit::Commit;
use crate::object_collection::{GraphView, ObjectContainer};
use crate::report_commits::{
    commit_sizes_fit, lemma_sum_of_beginning, lemma_sum_of_next, sizes_at, sum,
};
use vstd::prelude::*;

verus! {

fn all_below(indices: &Vec<usize>, bound: usize) -> (r: bool)
    ensures
        r == forall|k: int| 0 <= k < indices@.len() ==> #[trigger] indices@[k] < bound,
{
    let mut k: usize = 0;
    while k < indices.len()
        invariant
            k <= indices.len(),
            forall|j: int| 0 <= j < k ==> #[trigger] indices@[j] < bound,
        decreases indices.len() - k,
    {
        if indices[k] >= bound {
            return false;
        }
        k += 1;
    }
    true
}

/// Whether every index that a record of `container` holds names a record of the store
/// it points into.
pub fn has_valid_links(container: &ObjectContainer) -> (r: bool)
    ensures
        r == container@.links_valid(),
{
    let ghost g = container@;
    let commit_count = container.commits().count();
    let blob_count = container.blobs().count();
    let tree_count = container.trees().count();
    let tag_count = container.tags().count();

    let commits = container.commits().object_iter();
    let mut c: usize = 0;
    while c < commits.len()
        invariant
            c <= commits.len(),
            g == container@,
            commits@ == container.commit_store().records(),
            blob_count == g.blobs.records.len(),
            tree_count == g.trees.records.len(),
            tag_count == g.tags.records.len(),
            forall|i: int, k: int|
                0 <= i < c && 0 <= k < g.commits.records[i].blob_deps.len()
                    ==> #[trigger] g.commits.records[i].blob_deps[k] < g.blobs.records.len(),
            forall|i: int, k: int|
                0 <= i < c && 0 <= k < g.commits.records[i].tree_deps.len()
                    ==> #[trigger] g.commits.records[i].tree_deps[k] < g.trees.records.len(),
            forall|i: int, k: int|
                0 <= i < c && 0 <= k < g.commits.records[i].tag_deps.len()
                    ==> #[trigger] g.commits.records[i].tag_deps[k] < g.tags.records.len(),
        decreases commits.len() - c,
    {
        let commit = &commits[c];
        assert(commit@ == g.commits.records[c as int]);
        if !all_below(commit.blob_deps(), blob_count) {
            return false;
        }
        if !all_below(commit.tree_deps(), tree_count) {
            return false;
        }
        if !all_below(commit.tag_deps(), tag_count) {
            return false;
        }
        c += 1;
    }

    let trees = container.trees().object_iter();
    let mut t: usize = 0;
    while t < trees.len()
        invariant
            t <= trees.len(),
            g == container@,
            trees@ == container.tree_store().records(),
            commit_count == g.commits.records.len(),
            forall|i: int, k: int|
                0 <= i < t && 0 <= k < g.trees.records[i].commits.len()
                    ==> #[trigger] g.trees.records[i].commits[k] < g.commits.records.len(),
        decreases trees.len() - t,
    {
        let tree = &trees[t];
        assert(tree@ == g.trees.records[t as int]);
        if !all_below(tree.commits(), commit_count) {
            return false;
        }
        t += 1;
    }

    let blobs = container.blobs().object_iter();
    let mut b: usize = 0;
    while b < blobs.len()
        invariant
            b <= blobs.len(),
            g == container@,
            blobs@ == container.blob_store().records(),
            commit_count == g.commits.records.len(),
            forall|i: int, k: int|
                0 <= i < b && 0 <= k < g.blobs.records[i].commits.len()
                    ==> #[trigger] g.blobs.records[i].commits[k] < g.commits.records.len(),
        decreases blobs.len() - b,
    {
        let blob = &blobs[b];
        assert(blob@ == g.blobs.records[b as int]);
        if !all_below(blob.commits(), commit_count) {
            return false;
        }
        b += 1;
    }

    let tags = container.tags().object_iter();
    let mut a: usize = 0;
    while a < tags.len()
        invariant
            a <= tags.len(),
            g == container@,
            tags@ == container.tag_store().records(),
            commit_count == g.commits.records.len(),
            forall|i: int|
                0 <= i < a ==> match (#[trigger] g.tags.records[i]).commit_index {
                    Some(c) => c < g.commits.records.len(),
                    None => true,
                },
        decreases tags.len() - a,
    {
        let tag = &tags[a];
        assert(tag@ == g.tags.records[a as int]);
        match tag.commit_index() {
            Some(index) => {
                if index >= commit_count {
                    return false;
                }
            },
            None => {},
        }
        a += 1;
    }
    true
}

/// Adds `size` to `total` where the sum fits in 64 bits.
fn add_size(total: u64, size: u32) -> (r: Option<u64>)
    ensures
        match r {
            Some(next) => next == total + size,
            None => total + size > u64::MAX,
        },
{
    if total > u64::MAX - size as u64 {
        None
    } else {
        Some(total + size as u64)
    }
}

/// The contributing size of `commit`, where it fits in 64 bits.
pub fn checked_commit_size(commit: &Commit, container: &ObjectContainer) -> (r: Option<u64>)
    requires
        container@.holds_deps_of(commit@),
    ensures
        match r {
            Some(size) => size == container@.contributing_size(commit@),
            None => container@.contributing_size(commit@) > u64::MAX,
        },
{
    let ghost blob_part = sizes_at(container@.blob_sizes(), commit@.blob_deps);
    let ghost tree_part = sizes_at(container@.tree_sizes(), commit@.tree_deps);
    let ghost tag_part = sizes_at(container@.tag_sizes(), commit@.tag_deps);

    let mut blob_total: u64 = 0;
    let blob_deps = commit.blob_deps();
    let mut i: usize = 0;
    assert(blob_part.take(0) =~= Seq::<nat>::empty());
    while i < blob_deps.len()
        invariant
            i <= blob_deps.len(),
            blob_deps@ == commit@.blob_deps,
            container@.holds_deps_of(commit@),
            blob_part == sizes_at(container@.blob_sizes(), commit@.blob_deps),
            blob_total == sum(blob_part.take(i as int)),
        decreases blob_deps.len() - i,
    {
        let blob = container.blobs().get_by_index(&blob_deps[i]);
        proof {
            lemma_sum_of_next(blob_part, i as int);
            lemma_sum_of_beginning(blob_part, i + 1);
            assert(blob@ == container@.blobs.records[blob_deps@[i as int] as int]);
        }
        blob_total = match add_size(blob_total, blob.size_disk()) {
            Some(next) => next,
            None => {
                return None;
            },
        };
        i += 1;
    }
    assert(blob_part.take(i as int) =~= blob_part);

    let mut tree_total: u64 = 0;
    let tree_deps = commit.tree_deps();
    let mut i: usize = 0;
    assert(tree_part.take(0) =~= Seq::<nat>::empty());
    while i < tree_deps.len()
        invariant
            i <= tree_deps.len(),
            tree_deps@ == commit@.tree_deps,
            container@.holds_deps_of(commit@),
            tree_part == sizes_at(container@.tree_sizes(), commit@.tree_deps),
            tree_total == sum(tree_part.take(i as int)),
        decreases tree_deps.len() - i,
    {
        let tree = container.trees().get_by_index(&tree_deps[i]);
        proof {
            lemma_sum_of_next(tree_part, i as int);
            lemma_sum_of_beginning(tree_part, i + 1);
            assert(tree@ == container@.trees.records[tree_deps@[i as int] as int]);
        }
        tree_total = match add_size(tree_total, tree.size_disk()) {
            Some(next) => next,
            None => {
                return None;
            },
        };
        i += 1;
    }
    assert(tree_part.take(i as int) =~= tree_part);

    let mut tag_total: u64 = 0;
    let tag_deps = commit.tag_deps();
    let mut i: usize = 0;
    assert(tag_part.take(0) =~= Seq::<nat>::empty());
    while i < tag_deps.len()
        invariant
            i <= tag_deps.len(),
            tag_deps@ == commit@.tag_deps,
            container@.holds_deps_of(commit@),
            tag_part == sizes_at(container@.tag_sizes(), commit@.tag_deps),
            tag_total == sum(tag_part.take(i as int)),
        decreases tag_deps.len() - i,
    {
        let tag = container.tags().get_by_index(&tag_deps[i]);
        proof {
            lemma_sum_of_next(tag_part, i as int);
            lemma_sum_of_beginning(tag_part, i + 1);
            assert(tag@ == container@.tags.records[tag_deps@[i as int] as int]);
        }
        tag_total = match add_size(tag_total, tag.size_disk()) {
            Some(next) => next,
            None => {
                return None;
            },
        };
        i += 1;
    }
    assert(tag_part.take(i as int) =~= tag_part);

    if blob_total > u64::MAX - tree_total {
        return None;
    }
    let both = blob_total + tree_total;
    if both > u64::MAX - tag_total {
        return None;
    }
    Some(both + tag_total)
}

/// Whether the sizes that the reports add up fit in 64 bits.
pub open spec fn report_sizes_fit(g: GraphView) -> bool {
    &&& commit_sizes_fit(g)
    &&& sum(g.tree_sizes()) <= u64::MAX
    &&& sum(g.blob_sizes()) <= u64::MAX
}

/// Whether the reports can be built from `container`: its links are valid and the sizes
/// that are added up fit in 64 bits.
pub fn can_report(container: &ObjectContainer) -> (r: bool)
    ensures
        r == (container@.links_valid() && report_sizes_fit(container@)),
{
    if !has_valid_links(container) {
        return false;
    }
    let ghost g = container@;

    let commits = container.commits().object_iter();
    let ghost commit_sizes = g.commit_sizes();
    let mut total: u64 = 0;
    let mut i: usize = 0;
    assert(commit_sizes.take(0) =~= Seq::<nat>::empty());
    while i < commits.len()
        invariant
            i <= commits.len(),
            g == container@,
            g.links_valid(),
            commits@ == container.commit_store().records(),
            commit_sizes == g.commit_sizes(),
            total == sum(commit_sizes.take(i as int)),
            forall|j: int| 0 <= j < i ==> #[trigger] g.contributing_sizes()[j] <= u64::MAX,
        decreases commits.len() - i,
    {
        let commit = &commits[i];
        proof {
            lemma_sum_of_next(commit_sizes, i as int);
            lemma_sum_of_beginning(commit_sizes, i + 1);
            assert(commit@ == g.commits.records[i as int]);
            assert(g.holds_deps_of(commit@));
            assert(g.contributing_sizes()[i as int] == g.contributing_size(commit@));
        }
        total = match add_size(total, commit.size_disk()) {
            Some(next) => next,
            None => {
                return false;
            },
        };
        if checked_commit_size(commit, container).is_none() {
            return false;
        }
        i += 1;
    }
    assert(commit_sizes.take(i as int) =~= commit_sizes);

    let trees = container.trees().object_iter();
    let ghost tree_sizes = g.tree_sizes();
    let mut total: u64 = 0;
    let mut i: usize = 0;
    assert(tree_sizes.take(0) =~= Seq::<nat>::empty());
    while i < trees.len()
        invariant
            i <= trees.len(),
            g == container@,
            trees@ == container.tree_store().records(),
            tree_sizes == g.tree_sizes(),
            total == sum(tree_sizes.take(i as int)),
        decreases trees.len() - i,
    {
        let tree = &trees[i];
        proof {
            lemma_sum_of_next(tree_sizes, i as int);
            lemma_sum_of_beginning(tree_sizes, i + 1);
            assert(tree@ == g.trees.records[i as int]);
        }
        total = match add_size(total, tree.size_disk()) {
            Some(next) => next,
            None => {
                return false;
            },
        };
        i += 1;
    }
    assert(tree_sizes.take(i as int) =~= tree_sizes);

    let blobs = container.blobs().object_iter();
    let ghost blob_sizes = g.blob_sizes();
    let mut total: u64 = 0;
    let mut i: usize = 0;
    assert(blob_sizes.take(0) =~= Seq::<nat>::empty());
    while i < blobs.len()
        invariant
            i <= blobs.len(),
            g == container@,
            blobs@ == container.blob_store().records(),
            blob_sizes == g.blob_sizes(),
            total == sum(blob_sizes.take(i as int)),
        decreases blobs.len() - i,
    {
        let blob = &blobs[i];
        proof {
            lemma_sum_of_next(blob_sizes, i as int);
            lemma_sum_of_beginning(blob_sizes, i + 1);
            assert(blob@ == g.blobs.records[i as int]);
        }
        total = match add_size(total, blob.size_disk()) {
            Some(next) => next,
            None => {
                return false;
            },
        };
        i += 1;
    }
    assert(blob_sizes.take(i as int) =~= blob_sizes);
    true
}

} // verus!
