//! Linking does not depend on the order of the entries: what each commit, tree and blob
//! holds afterwards is told here without reference to any order.

use crate::dependency_map::{distinct_keys, EntryView};
use crate::linking::{
    lemma_link_lines_adds_resolved, lemma_resolved_lines_have_targets, lemma_with_edges_keeps,
    link_all, resolve_entry, resolve_lines, EdgeView, TargetKind,
};
use crate::object_collection::{lemma_index_map_sound, GraphView};
use crate::text::lines;
use vstd::prelude::*;
use vstd::seq_lib::{to_multiset_build, to_multiset_contains};

verus! {

/// The indices of the objects of `kind` that `edges` name, in order.
pub open spec fn targets(edges: Seq<EdgeView>, kind: TargetKind) -> Seq<usize>
    decreases edges.len(),
{
    if edges.len() == 0 {
        Seq::empty()
    } else if edges.last().kind == kind {
        targets(edges.drop_last(), kind).push(edges.last().index)
    } else {
        targets(edges.drop_last(), kind)
    }
}

/// How many of `edges` name the object of `kind` at `index`.
pub open spec fn hits(edges: Seq<EdgeView>, kind: TargetKind, index: usize) -> nat
    decreases edges.len(),
{
    if edges.len() == 0 {
        0
    } else if edges.last().kind == kind && edges.last().index == index {
        hits(edges.drop_last(), kind, index) + 1
    } else {
        hits(edges.drop_last(), kind, index)
    }
}

/// The path of the last of `edges` that names the object of `kind` at `index`.
pub open spec fn last_path(edges: Seq<EdgeView>, kind: TargetKind, index: usize) -> Option<
    Seq<char>,
>
    decreases edges.len(),
{
    if edges.len() == 0 {
        None
    } else if edges.last().kind == kind && edges.last().index == index {
        Some(edges.last().path)
    } else {
        last_path(edges.drop_last(), kind, index)
    }
}

impl GraphView {
    /// The path of the object of `kind` at `index`.
    pub open spec fn target_path(self, kind: TargetKind, index: int) -> Seq<char> {
        match kind {
            TargetKind::Tree => self.trees.records[index].path,
            TargetKind::Blob => self.blobs.records[index].path,
        }
    }

    /// The back-references of the object of `kind` at `index`.
    pub open spec fn target_commits(self, kind: TargetKind, index: int) -> Seq<usize> {
        match kind {
            TargetKind::Tree => self.trees.records[index].commits,
            TargetKind::Blob => self.blobs.records[index].commits,
        }
    }

    /// The number of objects of `kind`.
    pub open spec fn target_count(self, kind: TargetKind) -> nat {
        match kind {
            TargetKind::Tree => self.trees.records.len(),
            TargetKind::Blob => self.blobs.records.len(),
        }
    }

    /// The dependencies of the commit at `commit` on objects of `kind`.
    pub open spec fn commit_targets(self, kind: TargetKind, commit: int) -> Seq<usize> {
        match kind {
            TargetKind::Tree => self.commits.records[commit].tree_deps,
            TargetKind::Blob => self.commits.records[commit].blob_deps,
        }
    }

    /// Whether `other` differs from this graph in nothing but the links between commits
    /// and the trees and blobs, and the paths of these.
    pub open spec fn same_but_links(self, other: GraphView) -> bool {
        &&& self.same_hashes(other)
        &&& self.tags == other.tags
        &&& self.commits.records.len() == other.commits.records.len()
        &&& self.trees.records.len() == other.trees.records.len()
        &&& self.blobs.records.len() == other.blobs.records.len()
        &&& forall|c: int|
            0 <= c < self.commits.records.len() ==> {
                let a = #[trigger] self.commits.records[c];
                let b = other.commits.records[c];
                a.index == b.index && a.size == b.size && a.size_disk == b.size_disk && a.tag_deps
                    == b.tag_deps && a.lightweight_tags == b.lightweight_tags
            }
        &&& forall|t: int|
            0 <= t < self.trees.records.len() ==> {
                let a = #[trigger] self.trees.records[t];
                let b = other.trees.records[t];
                a.index == b.index && a.size == b.size && a.size_disk == b.size_disk
            }
        &&& forall|t: int|
            0 <= t < self.blobs.records.len() ==> {
                let a = #[trigger] self.blobs.records[t];
                let b = other.blobs.records[t];
                a.index == b.index && a.size == b.size && a.size_disk == b.size_disk
            }
    }
}

/// What one edge changes.
proof fn lemma_with_edge_effect(g: GraphView, commit: usize, e: EdgeView)
    requires
        commit < g.commits.records.len(),
        g.has_target(e),
    ensures
        g.same_but_links(g.with_edge(commit, e)),
        forall|kind: TargetKind, c: int|
            0 <= c < g.commits.records.len() ==> #[trigger] g.with_edge(commit, e).commit_targets(
                kind,
                c,
            ) == if c == commit && kind == e.kind {
                g.commit_targets(kind, c).push(e.index)
            } else {
                g.commit_targets(kind, c)
            },
        forall|kind: TargetKind, t: int|
            0 <= t < g.target_count(kind) ==> #[trigger] g.with_edge(commit, e).target_commits(
                kind,
                t,
            ) == if t == e.index && kind == e.kind {
                g.target_commits(kind, t).push(commit)
            } else {
                g.target_commits(kind, t)
            },
        forall|kind: TargetKind, t: int|
            0 <= t < g.target_count(kind) ==> #[trigger] g.with_edge(commit, e).target_path(
                kind,
                t,
            ) == if t == e.index && kind == e.kind {
                e.path
            } else {
                g.target_path(kind, t)
            },
{
}

/// `targets` of two runs of edges, one after the other.
proof fn lemma_targets_concat(a: Seq<EdgeView>, b: Seq<EdgeView>, kind: TargetKind)
    ensures
        targets(a + b, kind) == targets(a, kind) + targets(b, kind),
    decreases b.len(),
{
    if b.len() == 0 {
        assert(a + b =~= a);
        assert(targets(a, kind) + targets(b, kind) =~= targets(a, kind));
    } else {
        assert((a + b).drop_last() =~= a + b.drop_last());
        assert((a + b).last() == b.last());
        lemma_targets_concat(a, b.drop_last(), kind);
        if b.last().kind == kind {
            assert((targets(a, kind) + targets(b.drop_last(), kind)).push(b.last().index)
                =~= targets(a, kind) + targets(b.drop_last(), kind).push(b.last().index));
        }
    }
}

/// `hits` of two runs of edges, one after the other.
proof fn lemma_hits_concat(a: Seq<EdgeView>, b: Seq<EdgeView>, kind: TargetKind, index: usize)
    ensures
        hits(a + b, kind, index) == hits(a, kind, index) + hits(b, kind, index),
    decreases b.len(),
{
    if b.len() == 0 {
        assert(a + b =~= a);
    } else {
        assert((a + b).drop_last() =~= a + b.drop_last());
        assert((a + b).last() == b.last());
        lemma_hits_concat(a, b.drop_last(), kind, index);
    }
}

/// What a run of edges of one commit changes: the commit gains the targets in order;
/// every object named gains the commit once for every edge that names it, and takes the
/// path of the last such edge.
pub proof fn lemma_with_edges_effect(g: GraphView, commit: usize, edges: Seq<EdgeView>)
    requires
        commit < g.commits.records.len(),
        forall|k: int| 0 <= k < edges.len() ==> g.has_target(#[trigger] edges[k]),
    ensures
        g.same_but_links(g.with_edges(commit, edges)),
        forall|kind: TargetKind, c: int|
            0 <= c < g.commits.records.len() ==> #[trigger] g.with_edges(
                commit,
                edges,
            ).commit_targets(kind, c) == if c == commit {
                g.commit_targets(kind, c) + targets(edges, kind)
            } else {
                g.commit_targets(kind, c)
            },
        forall|kind: TargetKind, t: usize, x: usize|
            t < g.target_count(kind) ==> #[trigger] g.with_edges(commit, edges).target_commits(
                kind,
                t as int,
            ).to_multiset().count(x) == g.target_commits(kind, t as int).to_multiset().count(x)
                + if x == commit {
                hits(edges, kind, t)
            } else {
                0
            },
        forall|kind: TargetKind, t: usize|
            t < g.target_count(kind) ==> #[trigger] g.with_edges(commit, edges).target_path(
                kind,
                t as int,
            ) == match last_path(edges, kind, t) {
                Some(p) => p,
                None => g.target_path(kind, t as int),
            },
    decreases edges.len(),
{
    let after = g.with_edges(commit, edges);
    if edges.len() == 0 {
        assert forall|kind: TargetKind, c: int|
            0 <= c < g.commits.records.len() implies #[trigger] after.commit_targets(kind, c)
            == if c == commit {
            g.commit_targets(kind, c) + targets(edges, kind)
        } else {
            g.commit_targets(kind, c)
        } by {
            assert(g.commit_targets(kind, c) + targets(edges, kind) =~= g.commit_targets(kind, c));
        }
    } else {
        let front = edges.drop_last();
        let e = edges.last();
        let mid = g.with_edges(commit, front);
        assert forall|k: int| 0 <= k < front.len() implies g.has_target(#[trigger] front[k]) by {
            assert(front[k] == edges[k]);
        }
        lemma_with_edges_effect(g, commit, front);
        lemma_with_edges_keeps(g, commit, front);
        assert(g.has_target(edges[edges.len() - 1]));
        lemma_with_edge_effect(mid, commit, e);
        assert forall|kind: TargetKind, c: int|
            0 <= c < g.commits.records.len() implies #[trigger] after.commit_targets(kind, c)
            == if c == commit {
            g.commit_targets(kind, c) + targets(edges, kind)
        } else {
            g.commit_targets(kind, c)
        } by {
            assert(after.commit_targets(kind, c) == if c == commit && kind == e.kind {
                mid.commit_targets(kind, c).push(e.index)
            } else {
                mid.commit_targets(kind, c)
            });
            if c == commit && kind == e.kind {
                assert((g.commit_targets(kind, c) + targets(front, kind)).push(e.index)
                    =~= g.commit_targets(kind, c) + targets(front, kind).push(e.index));
            }
        }
        assert forall|kind: TargetKind, t: usize, x: usize|
            t < g.target_count(kind) implies #[trigger] after.target_commits(
            kind,
            t as int,
        ).to_multiset().count(x) == g.target_commits(kind, t as int).to_multiset().count(x)
            + if x == commit {
            hits(edges, kind, t)
        } else {
            0
        } by {
            assert(after.target_commits(kind, t as int) == if t == e.index && kind == e.kind {
                mid.target_commits(kind, t as int).push(commit)
            } else {
                mid.target_commits(kind, t as int)
            });
            assert(mid.target_commits(kind, t as int).to_multiset().count(x) == g.target_commits(
                kind,
                t as int,
            ).to_multiset().count(x) + if x == commit {
                hits(front, kind, t)
            } else {
                0
            });
            if t == e.index && kind == e.kind {
                to_multiset_build(mid.target_commits(kind, t as int), commit);
            }
        }
        assert forall|kind: TargetKind, t: usize|
            t < g.target_count(kind) implies #[trigger] after.target_path(kind, t as int)
            == match last_path(edges, kind, t) {
            Some(p) => p,
            None => g.target_path(kind, t as int),
        } by {
            assert(after.target_path(kind, t as int) == if t == e.index && kind == e.kind {
                e.path
            } else {
                mid.target_path(kind, t as int)
            });
        }
        lemma_same_but_links_chain(g, mid, after);
    }
}

/// `same_but_links` carries over from one pair of graphs to the next.
proof fn lemma_same_but_links_chain(a: GraphView, b: GraphView, c: GraphView)
    requires
        a.same_but_links(b),
        b.same_but_links(c),
    ensures
        a.same_but_links(c),
{
    assert forall|i: int| 0 <= i < a.commits.records.len() implies {
        let x = #[trigger] a.commits.records[i];
        let y = c.commits.records[i];
        x.index == y.index && x.size == y.size && x.size_disk == y.size_disk && x.tag_deps
            == y.tag_deps && x.lightweight_tags == y.lightweight_tags
    } by {
        assert(b.commits.records[i].index == c.commits.records[i].index);
    }
    assert forall|i: int| 0 <= i < a.trees.records.len() implies {
        let x = #[trigger] a.trees.records[i];
        let y = c.trees.records[i];
        x.index == y.index && x.size == y.size && x.size_disk == y.size_disk
    } by {
        assert(b.trees.records[i].index == c.trees.records[i].index);
    }
    assert forall|i: int| 0 <= i < a.blobs.records.len() implies {
        let x = #[trigger] a.blobs.records[i];
        let y = c.blobs.records[i];
        x.index == y.index && x.size == y.size && x.size_disk == y.size_disk
    } by {
        assert(b.blobs.records[i].index == c.blobs.records[i].index);
    }
}

/// Adding, entry by entry, the edges that the entries resolve to in `first`.
pub open spec fn add_resolved(g: GraphView, first: GraphView, entries: Seq<EntryView>) -> GraphView
    decreases entries.len(),
{
    if entries.len() == 0 {
        g
    } else {
        let before = add_resolved(g, first, entries.drop_last());
        let resolved = resolve_entry(first, entries.last().0, entries.last().1);
        match resolved.0 {
            Some(commit) => before.with_edges(commit, resolved.1),
            None => before,
        }
    }
}

/// What entry `i` resolves to in `g`.
pub open spec fn entry_commit(g: GraphView, entries: Seq<EntryView>, i: int) -> Option<usize> {
    resolve_entry(g, entries[i].0, entries[i].1).0
}

/// The edges that entry `i` resolves to in `g`.
pub open spec fn entry_edges(g: GraphView, entries: Seq<EntryView>, i: int) -> Seq<EdgeView> {
    resolve_entry(g, entries[i].0, entries[i].1).1
}

/// The edges of the entries that are for the commit at `commit`, in the order of the
/// entries.
pub open spec fn commit_edges(g: GraphView, entries: Seq<EntryView>, commit: usize) -> Seq<
    EdgeView,
>
    decreases entries.len(),
{
    if entries.len() == 0 {
        Seq::empty()
    } else if entry_commit(g, entries, entries.len() - 1) == Some(commit) {
        commit_edges(g, entries.drop_last(), commit) + entry_edges(g, entries, entries.len() - 1)
    } else {
        commit_edges(g, entries.drop_last(), commit)
    }
}

/// The path that the last edge of the entries gives to the object of `kind` at `index`.
pub open spec fn named_path(
    g: GraphView,
    entries: Seq<EntryView>,
    kind: TargetKind,
    index: usize,
) -> Option<Seq<char>>
    decreases entries.len(),
{
    if entries.len() == 0 {
        None
    } else {
        match last_path(entry_edges(g, entries, entries.len() - 1), kind, index) {
            Some(p) => Some(p),
            None => named_path(g, entries.drop_last(), kind, index),
        }
    }
}

/// Whether the entries give every object one path only: two edges to one object, of one
/// entry or of two, have the same path.
pub open spec fn paths_agree(g: GraphView, entries: Seq<EntryView>) -> bool {
    forall|i: int, j: int, a: int, b: int|
        0 <= i < entries.len() && 0 <= j < entries.len() && 0 <= a < entry_edges(
            g,
            entries,
            i,
        ).len() && 0 <= b < entry_edges(g, entries, j).len() && (#[trigger] entry_edges(
            g,
            entries,
            i,
        )[a]).kind == (#[trigger] entry_edges(g, entries, j)[b]).kind && entry_edges(
            g,
            entries,
            i,
        )[a].index == entry_edges(g, entries, j)[b].index ==> entry_edges(g, entries, i)[a].path
            == entry_edges(g, entries, j)[b].path
}

/// Whether two graphs hold the same objects with the same edges and paths: they differ
/// at most in the order in which a tree or a blob lists the commits that introduce it.
pub open spec fn same_edges(a: GraphView, b: GraphView) -> bool {
    &&& a.same_but_links(b)
    &&& forall|c: int|
        0 <= c < a.commits.records.len() ==> #[trigger] a.commits.records[c]
            == b.commits.records[c]
    &&& forall|t: int|
        0 <= t < a.trees.records.len() ==> (#[trigger] a.trees.records[t]).path
            == b.trees.records[t].path && a.trees.records[t].commits.to_multiset()
            == b.trees.records[t].commits.to_multiset()
    &&& forall|t: int|
        0 <= t < a.blobs.records.len() ==> (#[trigger] a.blobs.records[t]).path
            == b.blobs.records[t].path && a.blobs.records[t].commits.to_multiset()
            == b.blobs.records[t].commits.to_multiset()
}

/// Linking entry by entry, each line looked up in the graph as it then is, gives what
/// adding the edges gives that the entries resolve to in the graph as it was at first.
/// So the entries can be resolved beforehand, by any number of workers in any order.
pub proof fn lemma_link_all_adds_resolved(g: GraphView, entries: Seq<EntryView>)
    requires
        g.shaped(),
    ensures
        link_all(g, entries) == add_resolved(g, g, entries),
        link_all(g, entries).shaped(),
        g.same_but_links(link_all(g, entries)),
    decreases entries.len(),
{
    if entries.len() == 0 {
    } else {
        let front = entries.drop_last();
        let hash = entries.last().0;
        let deps = entries.last().1;
        lemma_link_all_adds_resolved(g, front);
        let before = link_all(g, front);
        lemma_index_map_sound(g.commits.hashes, hash);
        match g.commits.index_of(hash) {
            Some(commit) => {
                lemma_link_lines_adds_resolved(before, g, commit, lines(deps));
                lemma_resolved_lines_have_targets(g, lines(deps));
                let edges = resolve_lines(g, lines(deps));
                assert forall|k: int| 0 <= k < edges.len() implies before.has_target(
                    #[trigger] edges[k],
                ) by {
                    assert(g.has_target(edges[k]));
                }
                lemma_with_edges_keeps(before, commit, edges);
                lemma_with_edges_effect(before, commit, edges);
                lemma_same_but_links_chain(g, before, before.with_edges(commit, edges));
            },
            None => {},
        }
    }
}

/// What linking leaves in the graph, told without the order of the entries: every
/// commit has gained the targets of its edges; every tree and blob has gained each
/// commit as often as the edges of that commit name it, and has the path that the last
/// edge to it gives.
pub proof fn lemma_add_resolved_effect(g: GraphView, entries: Seq<EntryView>)
    requires
        g.shaped(),
    ensures
        g.same_but_links(add_resolved(g, g, entries)),
        forall|kind: TargetKind, c: usize|
            c < g.commits.records.len() ==> #[trigger] add_resolved(g, g, entries).commit_targets(
                kind,
                c as int,
            ) == g.commit_targets(kind, c as int) + targets(commit_edges(g, entries, c), kind),
        forall|kind: TargetKind, t: usize, x: usize|
            t < g.target_count(kind) ==> #[trigger] add_resolved(g, g, entries).target_commits(
                kind,
                t as int,
            ).to_multiset().count(x) == g.target_commits(kind, t as int).to_multiset().count(x)
                + hits(commit_edges(g, entries, x), kind, t),
        forall|kind: TargetKind, t: usize|
            t < g.target_count(kind) ==> #[trigger] add_resolved(g, g, entries).target_path(
                kind,
                t as int,
            ) == match named_path(g, entries, kind, t) {
                Some(p) => p,
                None => g.target_path(kind, t as int),
            },
    decreases entries.len(),
{
    let after = add_resolved(g, g, entries);
    if entries.len() == 0 {
        assert forall|kind: TargetKind, c: usize|
            c < g.commits.records.len() implies #[trigger] after.commit_targets(kind, c as int)
            == g.commit_targets(kind, c as int) + targets(commit_edges(g, entries, c), kind) by {
            assert(g.commit_targets(kind, c as int) + targets(commit_edges(g, entries, c), kind)
                =~= g.commit_targets(kind, c as int));
        }
    } else {
        let front = entries.drop_last();
        let n = entries.len() - 1;
        let hash = entries.last().0;
        let deps = entries.last().1;
        let before = add_resolved(g, g, front);
        let edges = entry_edges(g, entries, n);
        lemma_add_resolved_effect(g, front);
        lemma_index_map_sound(g.commits.hashes, hash);
        match entry_commit(g, entries, n) {
            Some(commit) => {
                lemma_resolved_lines_have_targets(g, lines(deps));
                assert forall|k: int| 0 <= k < edges.len() implies before.has_target(
                    #[trigger] edges[k],
                ) by {
                    assert(g.has_target(edges[k]));
                }
                lemma_with_edges_effect(before, commit, edges);
                lemma_same_but_links_chain(g, before, after);
                assert forall|kind: TargetKind, c: usize|
                    c < g.commits.records.len() implies #[trigger] after.commit_targets(
                    kind,
                    c as int,
                ) == g.commit_targets(kind, c as int) + targets(
                    commit_edges(g, entries, c),
                    kind,
                ) by {
                    assert(after.commit_targets(kind, c as int) == if c == commit {
                        before.commit_targets(kind, c as int) + targets(edges, kind)
                    } else {
                        before.commit_targets(kind, c as int)
                    });
                    if c == commit {
                        lemma_targets_concat(commit_edges(g, front, c), edges, kind);
                        assert(g.commit_targets(kind, c as int) + targets(
                            commit_edges(g, front, c),
                            kind,
                        ) + targets(edges, kind) =~= g.commit_targets(kind, c as int) + (targets(
                            commit_edges(g, front, c),
                            kind,
                        ) + targets(edges, kind)));
                    }
                }
                assert forall|kind: TargetKind, t: usize, x: usize|
                    t < g.target_count(kind) implies #[trigger] after.target_commits(
                    kind,
                    t as int,
                ).to_multiset().count(x) == g.target_commits(kind, t as int).to_multiset().count(
                    x,
                ) + hits(commit_edges(g, entries, x), kind, t) by {
                    assert(after.target_commits(kind, t as int).to_multiset().count(x)
                        == before.target_commits(kind, t as int).to_multiset().count(x) + if x
                        == commit {
                        hits(edges, kind, t)
                    } else {
                        0
                    });
                    if x == commit {
                        lemma_hits_concat(commit_edges(g, front, x), edges, kind, t);
                    }
                }
                assert forall|kind: TargetKind, t: usize|
                    t < g.target_count(kind) implies #[trigger] after.target_path(kind, t as int)
                    == match named_path(g, entries, kind, t) {
                    Some(p) => p,
                    None => g.target_path(kind, t as int),
                } by {
                    assert(after.target_path(kind, t as int) == match last_path(edges, kind, t) {
                        Some(p) => p,
                        None => before.target_path(kind, t as int),
                    });
                }
            },
            None => {
                assert(edges =~= Seq::<EdgeView>::empty());
            },
        }
    }
}

/// Where no entry is for the commit, the commit has no edges.
proof fn lemma_commit_edges_none(g: GraphView, entries: Seq<EntryView>, commit: usize)
    requires
        forall|i: int| 0 <= i < entries.len() ==> entry_commit(g, entries, i) != Some(commit),
    ensures
        commit_edges(g, entries, commit) == Seq::<EdgeView>::empty(),
    decreases entries.len(),
{
    if entries.len() > 0 {
        let front = entries.drop_last();
        assert forall|i: int| 0 <= i < front.len() implies entry_commit(g, front, i) != Some(
            commit,
        ) by {
            assert(front[i] == entries[i]);
            assert(entry_commit(g, entries, i) != Some(commit));
        }
        lemma_commit_edges_none(g, front, commit);
        assert(entry_commit(g, entries, entries.len() - 1) != Some(commit));
    }
}

/// Two entries for one commit have the same hash.
proof fn lemma_one_hash_per_commit(g: GraphView, a: EntryView, b: EntryView, commit: usize)
    requires
        g.shaped(),
        resolve_entry(g, a.0, a.1).0 == Some(commit),
        resolve_entry(g, b.0, b.1).0 == Some(commit),
    ensures
        a.0 == b.0,
{
    lemma_index_map_sound(g.commits.hashes, a.0);
    lemma_index_map_sound(g.commits.hashes, b.0);
}

/// Where no hash has two entries, the edges of a commit are those of the one entry that
/// is for it.
proof fn lemma_commit_edges_one(g: GraphView, entries: Seq<EntryView>, commit: usize, i: int)
    requires
        g.shaped(),
        distinct_keys(entries),
        0 <= i < entries.len(),
        entry_commit(g, entries, i) == Some(commit),
    ensures
        commit_edges(g, entries, commit) == entry_edges(g, entries, i),
    decreases entries.len(),
{
    let n = entries.len() - 1;
    let front = entries.drop_last();
    if i == n {
        assert forall|j: int| 0 <= j < front.len() implies entry_commit(g, front, j) != Some(
            commit,
        ) by {
            assert(front[j] == entries[j]);
            if entry_commit(g, front, j) == Some(commit) {
                lemma_one_hash_per_commit(g, entries[j], entries[n], commit);
            }
        }
        lemma_commit_edges_none(g, front, commit);
        assert(Seq::<EdgeView>::empty() + entry_edges(g, entries, n) =~= entry_edges(
            g,
            entries,
            n,
        ));
    } else {
        if entry_commit(g, entries, n) == Some(commit) {
            lemma_one_hash_per_commit(g, entries[i], entries[n], commit);
        }
        assert(distinct_keys(front)) by {
            assert forall|a: int, b: int|
                0 <= a < front.len() && 0 <= b < front.len() && (#[trigger] front[a]).0 == (
                #[trigger] front[b]).0 implies a == b by {
                assert(front[a] == entries[a]);
                assert(front[b] == entries[b]);
            }
        }
        assert(front[i] == entries[i]);
        lemma_commit_edges_one(g, front, commit, i);
    }
}

/// Whether `other` holds the entries of `entries`, and no other.
pub open spec fn same_entries(entries: Seq<EntryView>, other: Seq<EntryView>) -> bool {
    &&& forall|i: int| 0 <= i < entries.len() ==> other.contains(#[trigger] entries[i])
    &&& forall|j: int| 0 <= j < other.len() ==> entries.contains(#[trigger] other[j])
}

/// The edges of a commit do not depend on the order of the entries.
proof fn lemma_commit_edges_by_entries(
    g: GraphView,
    entries: Seq<EntryView>,
    other: Seq<EntryView>,
    commit: usize,
)
    requires
        g.shaped(),
        distinct_keys(entries),
        distinct_keys(other),
        same_entries(entries, other),
    ensures
        commit_edges(g, entries, commit) == commit_edges(g, other, commit),
{
    if exists|i: int| 0 <= i < entries.len() && entry_commit(g, entries, i) == Some(commit) {
        let i = choose|i: int| 0 <= i < entries.len() && entry_commit(g, entries, i) == Some(commit);
        assert(other.contains(entries[i]));
        let j = choose|j: int| 0 <= j < other.len() && other[j] == entries[i];
        lemma_commit_edges_one(g, entries, commit, i);
        lemma_commit_edges_one(g, other, commit, j);
    } else {
        assert forall|j: int| 0 <= j < other.len() implies entry_commit(g, other, j) != Some(
            commit,
        ) by {
            assert(entries.contains(other[j]));
            let i = choose|i: int| 0 <= i < entries.len() && entries[i] == other[j];
            assert(entry_commit(g, entries, i) != Some(commit));
        }
        lemma_commit_edges_none(g, entries, commit);
        lemma_commit_edges_none(g, other, commit);
    }
}

/// A path that edges give to an object is the path of one of them; where they give
/// none, none of them names the object.
proof fn lemma_last_path_witness(edges: Seq<EdgeView>, kind: TargetKind, index: usize)
    ensures
        match last_path(edges, kind, index) {
            Some(p) => exists|k: int|
                0 <= k < edges.len() && (#[trigger] edges[k]).kind == kind && edges[k].index
                    == index && edges[k].path == p,
            None => forall|k: int|
                0 <= k < edges.len() ==> !((#[trigger] edges[k]).kind == kind && edges[k].index
                    == index),
        },
    decreases edges.len(),
{
    if edges.len() > 0 {
        let front = edges.drop_last();
        let n = edges.len() - 1;
        lemma_last_path_witness(front, kind, index);
        if edges.last().kind == kind && edges.last().index == index {
            assert(edges[n].path == edges.last().path);
        } else {
            match last_path(front, kind, index) {
                Some(p) => {
                    let k = choose|k: int|
                        0 <= k < front.len() && (#[trigger] front[k]).kind == kind
                            && front[k].index == index && front[k].path == p;
                    assert(edges[k] == front[k]);
                },
                None => {
                    assert forall|k: int| 0 <= k < edges.len() implies !((
                    #[trigger] edges[k]).kind == kind && edges[k].index == index) by {
                        if k < n {
                            assert(edges[k] == front[k]);
                        }
                    }
                },
            }
        }
    }
}

/// A path that the entries give to an object is the path of one of their edges; where
/// they give none, no edge names the object.
proof fn lemma_named_path_witness(
    g: GraphView,
    entries: Seq<EntryView>,
    kind: TargetKind,
    index: usize,
)
    ensures
        match named_path(g, entries, kind, index) {
            Some(p) => exists|i: int, k: int|
                0 <= i < entries.len() && 0 <= k < entry_edges(g, entries, i).len() && (
                #[trigger] entry_edges(g, entries, i)[k]).kind == kind && entry_edges(
                    g,
                    entries,
                    i,
                )[k].index == index && entry_edges(g, entries, i)[k].path == p,
            None => forall|i: int, k: int|
                0 <= i < entries.len() && 0 <= k < entry_edges(g, entries, i).len() ==> !((
                #[trigger] entry_edges(g, entries, i)[k]).kind == kind && entry_edges(
                    g,
                    entries,
                    i,
                )[k].index == index),
        },
    decreases entries.len(),
{
    if entries.len() > 0 {
        let front = entries.drop_last();
        let n = entries.len() - 1;
        let edges = entry_edges(g, entries, n);
        lemma_named_path_witness(g, front, kind, index);
        lemma_last_path_witness(edges, kind, index);
        assert forall|i: int| 0 <= i < front.len() implies entry_edges(g, front, i) == entry_edges(
            g,
            entries,
            i,
        ) by {
            assert(front[i] == entries[i]);
        }
        match last_path(edges, kind, index) {
            Some(p) => {
                let k = choose|k: int|
                    0 <= k < edges.len() && (#[trigger] edges[k]).kind == kind && edges[k].index
                        == index && edges[k].path == p;
                assert(entry_edges(g, entries, n)[k].path == p);
            },
            None => {
                match named_path(g, front, kind, index) {
                    Some(p) => {
                        let (i, k) = choose|i: int, k: int|
                            0 <= i < front.len() && 0 <= k < entry_edges(g, front, i).len() && (
                            #[trigger] entry_edges(g, front, i)[k]).kind == kind && entry_edges(
                                g,
                                front,
                                i,
                            )[k].index == index && entry_edges(g, front, i)[k].path == p;
                        assert(entry_edges(g, entries, i)[k].path == p);
                    },
                    None => {
                        assert forall|i: int, k: int|
                            0 <= i < entries.len() && 0 <= k < entry_edges(
                                g,
                                entries,
                                i,
                            ).len() implies !((#[trigger] entry_edges(g, entries, i)[k]).kind
                            == kind && entry_edges(g, entries, i)[k].index == index) by {
                            if i < n {
                                assert(entry_edges(g, front, i)[k] == entry_edges(
                                    g,
                                    entries,
                                    i,
                                )[k]);
                            }
                        }
                    },
                }
            },
        }
    }
}

/// Where the entries give every object one path only, the path they give to an object
/// does not depend on their order.
proof fn lemma_named_path_by_entries(
    g: GraphView,
    entries: Seq<EntryView>,
    other: Seq<EntryView>,
    kind: TargetKind,
    index: usize,
)
    requires
        paths_agree(g, entries),
        same_entries(entries, other),
    ensures
        named_path(g, entries, kind, index) == named_path(g, other, kind, index),
{
    lemma_named_path_witness(g, entries, kind, index);
    lemma_named_path_witness(g, other, kind, index);
    match named_path(g, other, kind, index) {
        Some(q) => {
            let (j, b) = choose|j: int, b: int|
                0 <= j < other.len() && 0 <= b < entry_edges(g, other, j).len() && (
                #[trigger] entry_edges(g, other, j)[b]).kind == kind && entry_edges(
                    g,
                    other,
                    j,
                )[b].index == index && entry_edges(g, other, j)[b].path == q;
            assert(entries.contains(other[j]));
            let i2 = choose|i: int| 0 <= i < entries.len() && entries[i] == other[j];
            assert(entry_edges(g, entries, i2)[b].path == q);
            match named_path(g, entries, kind, index) {
                Some(p) => {
                    let (i, a) = choose|i: int, a: int|
                        0 <= i < entries.len() && 0 <= a < entry_edges(g, entries, i).len() && (
                        #[trigger] entry_edges(g, entries, i)[a]).kind == kind && entry_edges(
                            g,
                            entries,
                            i,
                        )[a].index == index && entry_edges(g, entries, i)[a].path == p;
                    assert(entry_edges(g, entries, i)[a].path == entry_edges(
                        g,
                        entries,
                        i2,
                    )[b].path);
                },
                None => {},
            }
        },
        None => {
            match named_path(g, entries, kind, index) {
                Some(p) => {
                    let (i, a) = choose|i: int, a: int|
                        0 <= i < entries.len() && 0 <= a < entry_edges(g, entries, i).len() && (
                        #[trigger] entry_edges(g, entries, i)[a]).kind == kind && entry_edges(
                            g,
                            entries,
                            i,
                        )[a].index == index && entry_edges(g, entries, i)[a].path == p;
                    assert(other.contains(entries[i]));
                    let j = choose|j: int| 0 <= j < other.len() && other[j] == entries[i];
                    assert(entry_edges(g, other, j)[a].kind == kind);
                },
                None => {},
            }
        },
    }
}

/// A reordering of entries with distinct hashes has distinct hashes, and the same
/// entries.
proof fn lemma_reordered(entries: Seq<EntryView>, other: Seq<EntryView>)
    requires
        distinct_keys(entries),
        entries.to_multiset() == other.to_multiset(),
    ensures
        distinct_keys(other),
        same_entries(entries, other),
{
    assert(entries.no_duplicates());
    entries.lemma_multiset_has_no_duplicates();
    other.lemma_multiset_has_no_duplicates_conv();
    assert forall|i: int| 0 <= i < entries.len() implies other.contains(
        #[trigger] entries[i],
    ) by {
        assert(entries.contains(entries[i]));
        to_multiset_contains(entries, entries[i]);
        to_multiset_contains(other, entries[i]);
    }
    assert forall|j: int| 0 <= j < other.len() implies entries.contains(#[trigger] other[j]) by {
        assert(other.contains(other[j]));
        to_multiset_contains(entries, other[j]);
        to_multiset_contains(other, other[j]);
    }
    assert forall|a: int, b: int|
        0 <= a < other.len() && 0 <= b < other.len() && (#[trigger] other[a]).0 == (
        #[trigger] other[b]).0 implies a == b by {
        assert(entries.contains(other[a]));
        assert(entries.contains(other[b]));
        let i = choose|i: int| 0 <= i < entries.len() && entries[i] == other[a];
        let j = choose|j: int| 0 <= j < entries.len() && entries[j] == other[b];
        assert(entries[i].0 == entries[j].0);
    }
}

/// Linking does not depend on the order in which the commits are linked. Two orders of
/// the same entries give graphs with the same objects, the same edges and the same
/// paths; only the order in which a tree or a blob lists its commits may differ. This
/// holds where no hash has two entries and the entries give every object one path only.
pub proof fn lemma_link_order(g: GraphView, entries: Seq<EntryView>, other: Seq<EntryView>)
    requires
        g.shaped(),
        distinct_keys(entries),
        entries.to_multiset() == other.to_multiset(),
        paths_agree(g, entries),
    ensures
        same_edges(link_all(g, entries), link_all(g, other)),
{
    let a = link_all(g, entries);
    let b = link_all(g, other);
    lemma_reordered(entries, other);
    lemma_link_all_adds_resolved(g, entries);
    lemma_link_all_adds_resolved(g, other);
    lemma_add_resolved_effect(g, entries);
    lemma_add_resolved_effect(g, other);
    assert forall|c: int| 0 <= c < a.commits.records.len() implies #[trigger] a.commits.records[c]
        == b.commits.records[c] by {
        let x = a.commits.records[c];
        let y = b.commits.records[c];
        let base = g.commits.records[c];
        lemma_commit_edges_by_entries(g, entries, other, c as usize);
        assert(x.size == base.size && y.size == base.size);
        assert(a.commit_targets(TargetKind::Tree, c as usize as int) == b.commit_targets(
            TargetKind::Tree,
            c as usize as int,
        ));
        assert(a.commit_targets(TargetKind::Blob, c as usize as int) == b.commit_targets(
            TargetKind::Blob,
            c as usize as int,
        ));
        assert(x.tree_deps == y.tree_deps);
        assert(x.blob_deps == y.blob_deps);
        assert(x.index == base.index && y.index == base.index);
        assert(x.tag_deps == base.tag_deps && y.tag_deps == base.tag_deps);
        assert(x.lightweight_tags == base.lightweight_tags && y.lightweight_tags
            == base.lightweight_tags);
    }
    assert forall|t: int| 0 <= t < a.trees.records.len() implies (#[trigger] a.trees.records[t]).path
        == b.trees.records[t].path && a.trees.records[t].commits.to_multiset()
        == b.trees.records[t].commits.to_multiset() by {
        let kind = TargetKind::Tree;
        let u = t as usize;
        lemma_named_path_by_entries(g, entries, other, kind, u);
        assert(a.target_path(kind, u as int) == b.target_path(kind, u as int));
        assert forall|x: usize|
            a.target_commits(kind, u as int).to_multiset().count(x) == b.target_commits(
                kind,
                u as int,
            ).to_multiset().count(x) by {
            lemma_commit_edges_by_entries(g, entries, other, x);
        }
        assert(a.target_commits(kind, u as int).to_multiset() =~= b.target_commits(
            kind,
            u as int,
        ).to_multiset());
    }
    assert forall|t: int| 0 <= t < a.blobs.records.len() implies (#[trigger] a.blobs.records[t]).path
        == b.blobs.records[t].path && a.blobs.records[t].commits.to_multiset()
        == b.blobs.records[t].commits.to_multiset() by {
        let kind = TargetKind::Blob;
        let u = t as usize;
        lemma_named_path_by_entries(g, entries, other, kind, u);
        assert(a.target_path(kind, u as int) == b.target_path(kind, u as int));
        assert forall|x: usize|
            a.target_commits(kind, u as int).to_multiset().count(x) == b.target_commits(
                kind,
                u as int,
            ).to_multiset().count(x) by {
            lemma_commit_edges_by_entries(g, entries, other, x);
        }
        assert(a.target_commits(kind, u as int).to_multiset() =~= b.target_commits(
            kind,
            u as int,
        ).to_multiset());
    }
    assert(a.same_but_links(b)) by {
        lemma_same_but_links_back(g, a);
        lemma_same_but_links_chain(a, g, b);
    }
}

/// `same_but_links` holds both ways.
proof fn lemma_same_but_links_back(a: GraphView, b: GraphView)
    requires
        a.same_but_links(b),
    ensures
        b.same_but_links(a),
{
    assert forall|i: int| 0 <= i < b.commits.records.len() implies {
        let x = #[trigger] b.commits.records[i];
        let y = a.commits.records[i];
        x.index == y.index && x.size == y.size && x.size_disk == y.size_disk && x.tag_deps
            == y.tag_deps && x.lightweight_tags == y.lightweight_tags
    } by {
        assert(a.commits.records[i].index == b.commits.records[i].index);
    }
    assert forall|i: int| 0 <= i < b.trees.records.len() implies {
        let x = #[trigger] b.trees.records[i];
        let y = a.trees.records[i];
        x.index == y.index && x.size == y.size && x.size_disk == y.size_disk
    } by {
        assert(a.trees.records[i].index == b.trees.records[i].index);
    }
    assert forall|i: int| 0 <= i < b.blobs.records.len() implies {
        let x = #[trigger] b.blobs.records[i];
        let y = a.blobs.records[i];
        x.index == y.index && x.size == y.size && x.size_disk == y.size_disk
    } by {
        assert(a.blobs.records[i].index == b.blobs.records[i].index);
    }
}

} // verus!
