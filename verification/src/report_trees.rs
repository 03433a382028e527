//! The tree report: how many trees, what they weigh, which weighs most, and which path
//! has the most versions.

use crate::object_collection::{GraphView, ObjectContainer};
use crate::report_commits::{is_first_max, lemma_sum_of_beginning, lemma_sum_of_next, sum};
use vstd::hash_map::StringHashMap;
use vstd::prelude::*;

verus! {

/// How many of `paths` are `path`.
pub open spec fn count_of(paths: Seq<Seq<char>>, path: Seq<char>) -> nat
    decreases paths.len(),
{
    if paths.len() == 0 {
        0
    } else {
        count_of(paths.drop_last(), path) + if paths.last() == path {
            1nat
        } else {
            0nat
        }
    }
}

/// The sizes of those positions of `paths` that hold `path`, added up; `sizes` holds one
/// size for each position.
pub open spec fn size_of_path(paths: Seq<Seq<char>>, sizes: Seq<nat>, path: Seq<char>) -> nat
    decreases paths.len(),
{
    if paths.len() == 0 {
        0
    } else {
        size_of_path(paths.drop_last(), sizes.drop_last(), path) + if paths.last() == path {
            sizes[paths.len() - 1]
        } else {
            0nat
        }
    }
}

/// For every position of `paths`, how many positions hold the same path.
pub open spec fn version_counts(paths: Seq<Seq<char>>) -> Seq<nat> {
    Seq::new(paths.len(), |i: int| count_of(paths, paths[i]))
}

impl GraphView {
    /// The path of every tree, by index.
    pub open spec fn tree_paths(self) -> Seq<Seq<char>> {
        Seq::new(self.trees.records.len(), |i: int| self.trees.records[i].path)
    }
}

/// A path is counted no more often than there are positions, and at least once where a
/// position holds it.
pub proof fn lemma_count_of_bounds(paths: Seq<Seq<char>>, path: Seq<char>)
    ensures
        count_of(paths, path) <= paths.len(),
        forall|i: int| 0 <= i < paths.len() && paths[i] == path ==> count_of(paths, path) >= 1,
    decreases paths.len(),
{
    if paths.len() > 0 {
        lemma_count_of_bounds(paths.drop_last(), path);
        assert forall|i: int| 0 <= i < paths.len() && paths[i] == path implies count_of(
            paths,
            path,
        ) >= 1 by {
            if i < paths.len() - 1 {
                assert(paths.drop_last()[i] == path);
            }
        }
    }
}

/// The sizes at one path are no more than all sizes together.
pub proof fn lemma_size_of_path_bound(paths: Seq<Seq<char>>, sizes: Seq<nat>, path: Seq<char>)
    requires
        paths.len() == sizes.len(),
    ensures
        size_of_path(paths, sizes, path) <= sum(sizes),
    decreases paths.len(),
{
    if paths.len() > 0 {
        lemma_size_of_path_bound(paths.drop_last(), sizes.drop_last(), path);
    }
}

/// A path that no position holds has no size.
pub proof fn lemma_size_of_absent_path(paths: Seq<Seq<char>>, sizes: Seq<nat>, path: Seq<char>)
    requires
        count_of(paths, path) == 0,
    ensures
        size_of_path(paths, sizes, path) == 0,
    decreases paths.len(),
{
    if paths.len() > 0 {
        lemma_size_of_absent_path(paths.drop_last(), sizes.drop_last(), path);
    }
}

/// The path with the most versions.
#[derive(Debug, PartialEq, Eq)]
pub struct PathVersions {
    /// Index of the first tree at the path.
    pub first_tree: usize,
    pub path: String,
    /// The number of trees at the path.
    pub count: usize,
    /// The sizes on disk of the trees at the path, added up.
    pub total_size: u64,
}

/// What the tree report says.
#[derive(Debug, PartialEq, Eq)]
pub struct TreeReport {
    /// The number of trees.
    pub count: usize,
    /// The sizes on disk of all trees, added up.
    pub total_size: u64,
    /// Index and size on disk of the largest tree: the first of those with the greatest
    /// size on disk. None where there is no tree.
    pub largest: Option<(usize, u32)>,
    /// The path at which most trees are; of several such paths, the one that comes first
    /// among the trees. None where there is no tree.
    pub most_versions: Option<PathVersions>,
}

/// Whether `r` is the tree report of `g`.
pub open spec fn is_tree_report(g: GraphView, r: TreeReport) -> bool {
    &&& r.count == g.trees.records.len()
    &&& r.total_size == sum(g.tree_sizes())
    &&& match r.largest {
        Some((index, size)) => is_first_max(g.tree_sizes(), index as int) && size
            == g.tree_sizes()[index as int],
        None => g.trees.records.len() == 0,
    }
    &&& match r.most_versions {
        Some(most) => {
            &&& is_first_max(version_counts(g.tree_paths()), most.first_tree as int)
            &&& most.path@ == g.tree_paths()[most.first_tree as int]
            &&& most.count == count_of(g.tree_paths(), most.path@)
            &&& most.total_size == size_of_path(g.tree_paths(), g.tree_sizes(), most.path@)
        },
        None => g.trees.records.len() == 0,
    }
}

/// Builds the tree report.
pub fn report_trees(container: &ObjectContainer) -> (r: TreeReport)
    requires
        sum(container@.tree_sizes()) <= u64::MAX,
    ensures
        is_tree_report(container@, r),
{
    let trees = container.trees().object_iter();
    let ghost sizes = container@.tree_sizes();
    let ghost paths = container@.tree_paths();
    let mut total_size: u64 = 0;
    let mut largest: Option<(usize, u32)> = None;
    let mut by_path: StringHashMap<(usize, u64)> = StringHashMap::new();
    let mut i: usize = 0;
    proof {
        assert(sizes.take(0) =~= Seq::<nat>::empty());
        assert(paths.take(0) =~= Seq::<Seq<char>>::empty());
    }
    while i < trees.len()
        invariant
            i <= trees.len(),
            trees@ == container.tree_store().records(),
            sum(container@.tree_sizes()) <= u64::MAX,
            sizes == container@.tree_sizes(),
            paths == container@.tree_paths(),
            total_size == sum(sizes.take(i as int)),
            match largest {
                Some((index, size)) => is_first_max(sizes.take(i as int), index as int) && size
                    == sizes[index as int],
                None => i == 0,
            },
            forall|p: Seq<char>| #[trigger]
                by_path@.contains_key(p) <==> count_of(paths.take(i as int), p) > 0,
            forall|p: Seq<char>| #[trigger]
                by_path@.contains_key(p) ==> by_path@[p].0 == count_of(paths.take(i as int), p)
                    && by_path@[p].1 == size_of_path(
                    paths.take(i as int),
                    sizes.take(i as int),
                    p,
                ),
        decreases trees.len() - i,
    {
        let tree = &trees[i];
        let size = tree.size_disk();
        let path = tree.path();
        proof {
            lemma_sum_of_next(sizes, i as int);
            lemma_sum_of_beginning(sizes, i + 1);
            assert(tree@ == container@.trees.records[i as int]);
            assert(paths.take(i + 1).drop_last() =~= paths.take(i as int));
            assert(sizes.take(i + 1).drop_last() =~= sizes.take(i as int));
            assert(paths.take(i + 1).last() == path@);
            lemma_count_of_bounds(paths.take(i as int), path@);
            lemma_size_of_path_bound(paths.take(i as int), sizes.take(i as int), path@);
            if count_of(paths.take(i as int), path@) == 0 {
                lemma_size_of_absent_path(paths.take(i as int), sizes.take(i as int), path@);
            }
        }
        total_size += size as u64;
        largest = match largest {
            Some((index, best)) => if best < size {
                Some((i, size))
            } else {
                Some((index, best))
            },
            None => Some((i, size)),
        };
        let seen = match by_path.get(path) {
            Some(entry) => (entry.0, entry.1),
            None => (0, 0),
        };
        let ghost before = by_path@;
        by_path.insert(path.to_owned(), (seen.0 + 1, seen.1 + size as u64));
        proof {
            assert(sizes.take(i + 1)[i as int] == size);
            assert forall|p: Seq<char>| #[trigger] by_path@.contains_key(p) implies by_path@[p].0
                == count_of(paths.take(i + 1), p) && by_path@[p].1 == size_of_path(
                paths.take(i + 1),
                sizes.take(i + 1),
                p,
            ) by {
                if p != path@ {
                    assert(before.contains_key(p));
                }
            }
            assert forall|p: Seq<char>| #[trigger]
                by_path@.contains_key(p) <==> count_of(paths.take(i + 1), p) > 0 by {
                if p != path@ {
                    assert(before.contains_key(p) <==> by_path@.contains_key(p));
                }
            }
        }
        i += 1;
    }
    proof {
        assert(sizes.take(i as int) =~= sizes);
        assert(paths.take(i as int) =~= paths);
    }
    let ghost counts = version_counts(paths);
    let mut best: Option<(usize, usize)> = None;
    let mut k: usize = 0;
    while k < trees.len()
        invariant
            k <= trees.len(),
            trees@ == container.tree_store().records(),
            paths == container@.tree_paths(),
            counts == version_counts(paths),
            forall|p: Seq<char>| #[trigger] by_path@.contains_key(p) <==> count_of(paths, p) > 0,
            forall|p: Seq<char>| #[trigger]
                by_path@.contains_key(p) ==> by_path@[p].0 == count_of(paths, p),
            match best {
                Some((index, count)) => is_first_max(counts.take(k as int), index as int) && count
                    == counts[index as int],
                None => k == 0,
            },
        decreases trees.len() - k,
    {
        let tree = &trees[k];
        proof {
            assert(tree@ == container@.trees.records[k as int]);
            lemma_count_of_bounds(paths, paths[k as int]);
            assert(by_path@.contains_key(paths[k as int]));
        }
        let count = match by_path.get(tree.path()) {
            Some(entry) => entry.0,
            None => 0,
        };
        best = match best {
            Some((index, most)) => if most < count {
                Some((k, count))
            } else {
                Some((index, most))
            },
            None => Some((k, count)),
        };
        k += 1;
    }
    assert(counts.take(k as int) =~= counts);
    let most_versions = match best {
        Some((index, count)) => {
            let path = trees[index].path();
            proof {
                assert(trees@[index as int]@ == container@.trees.records[index as int]);
                lemma_count_of_bounds(paths, paths[index as int]);
                assert(by_path@.contains_key(paths[index as int]));
            }
            let size = match by_path.get(path) {
                Some(entry) => entry.1,
                None => 0,
            };
            Some(PathVersions { first_tree: index, path: path.to_owned(), count, total_size: size })
        },
        None => None,
    };
    TreeReport { count: trees.len(), total_size, largest, most_versions }
}

} // verus!
