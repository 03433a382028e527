//! Linking: every line of a commit's dependency text that names a known tree or blob
//! becomes an edge between the commit and that object.

use crate::blob::BlobView;
use crate::commit::CommitView;
use crate::dependency_map::{CommitDependencyMap, EntryView};
use crate::object_collection::{lemma_index_map_sound, GraphView, ObjectContainer};
use crate::text::{chars_of, lines, slice_of, split_lines, string_of, views};
use crate::tree::TreeView;
use rayon::iter::{IntoParallelRefIterator, ParallelIterator};
use vstd::prelude::*;

verus! {

/// The kinds of object that a commit is linked to.
#[derive(Clone, Copy, Debug, PartialEq, Eq, Structural)]
pub enum TargetKind {
    Tree,
    Blob,
}

/// What a dependency line resolves to: the object it names and the path it gives.
#[derive(Debug)]
pub struct Edge {
    pub kind: TargetKind,
    /// Index of the object in the store of its kind.
    pub index: usize,
    pub path: String,
}

/// An edge with its path as text.
pub struct EdgeView {
    pub kind: TargetKind,
    pub index: usize,
    pub path: Seq<char>,
}

impl View for Edge {
    type V = EdgeView;

    open spec fn view(&self) -> EdgeView {
        EdgeView { kind: self.kind, index: self.index, path: self.path@ }
    }
}

/// What one entry of the dependency map resolves to.
#[derive(Debug)]
pub struct ResolvedEntry {
    /// Index of the commit that the entry is for; none where its hash is unknown.
    pub commit: Option<usize>,
    /// The edges of the commit, in the order of the lines.
    pub edges: Vec<Edge>,
}

/// The views of `edges`, in order.
pub open spec fn edge_views(edges: Seq<Edge>) -> Seq<EdgeView> {
    edges.map_values(|e: Edge| e@)
}

impl View for ResolvedEntry {
    type V = (Option<usize>, Seq<EdgeView>);

    open spec fn view(&self) -> (Option<usize>, Seq<EdgeView>) {
        (self.commit, edge_views(self.edges@))
    }
}

/// The number of characters of an object id.
pub const ID_LENGTH: usize = 40;

/// Where the path of a dependency line begins: after the id and one more character.
pub const PATH_START: usize = 41;

/// The object id of a dependency line: its first characters.
pub open spec fn line_id(line: Seq<char>) -> Seq<char> {
    line.take(ID_LENGTH as int)
}

/// The path of a dependency line: what follows the id and one more character, if
/// anything does.
pub open spec fn line_path(line: Seq<char>) -> Seq<char> {
    if line.len() > PATH_START {
        line.skip(PATH_START as int)
    } else {
        Seq::empty()
    }
}

/// The edge that `line` stands for in `g`. A line that is shorter than an id stands for
/// none. The id is looked for among the trees first, then among the blobs; an id that is
/// neither names a commit and stands for no edge.
pub open spec fn resolve_line(g: GraphView, line: Seq<char>) -> Option<EdgeView> {
    if line.len() < ID_LENGTH {
        None
    } else {
        match g.trees.index_of(line_id(line)) {
            Some(index) => Some(EdgeView { kind: TargetKind::Tree, index, path: line_path(line) }),
            None => match g.blobs.index_of(line_id(line)) {
                Some(index) => Some(
                    EdgeView { kind: TargetKind::Blob, index, path: line_path(line) },
                ),
                None => None,
            },
        }
    }
}

/// The edges that `lines` stand for in `g`, in order.
pub open spec fn resolve_lines(g: GraphView, lines: Seq<Seq<char>>) -> Seq<EdgeView>
    decreases lines.len(),
{
    if lines.len() == 0 {
        Seq::empty()
    } else {
        let front = resolve_lines(g, lines.drop_last());
        match resolve_line(g, lines.last()) {
            Some(e) => front.push(e),
            None => front,
        }
    }
}

/// What the entry `hash`, `deps` resolves to in `g`: the commit that `hash` names and the
/// edges of the lines of `deps`; nothing where `hash` names no commit.
pub open spec fn resolve_entry(g: GraphView, hash: Seq<char>, deps: Seq<char>) -> (
    Option<usize>,
    Seq<EdgeView>,
) {
    match g.commits.index_of(hash) {
        Some(c) => (Some(c), resolve_lines(g, lines(deps))),
        None => (None, Seq::empty()),
    }
}

impl GraphView {
    /// Each store has one hash per record, and no more records than an index can name.
    pub open spec fn shaped(self) -> bool {
        &&& self.commits.hashes.len() == self.commits.records.len() <= usize::MAX
        &&& self.blobs.hashes.len() == self.blobs.records.len() <= usize::MAX
        &&& self.trees.hashes.len() == self.trees.records.len() <= usize::MAX
        &&& self.tags.hashes.len() == self.tags.records.len() <= usize::MAX
    }

    /// Whether `other` has the same hashes at the same indices, in every store.
    pub open spec fn same_hashes(self, other: GraphView) -> bool {
        &&& self.commits.hashes == other.commits.hashes
        &&& self.blobs.hashes == other.blobs.hashes
        &&& self.trees.hashes == other.trees.hashes
        &&& self.tags.hashes == other.tags.hashes
    }

    /// Whether `e` names a record of the store of its kind.
    pub open spec fn has_target(self, e: EdgeView) -> bool {
        match e.kind {
            TargetKind::Tree => e.index < self.trees.records.len(),
            TargetKind::Blob => e.index < self.blobs.records.len(),
        }
    }

    /// The graph after the edge `e` of the commit at `commit` was added: the object takes
    /// the path of the edge and gains the commit as a back-reference, and the commit
    /// gains the object as a dependency.
    pub open spec fn with_edge(self, commit: usize, e: EdgeView) -> GraphView {
        let c = self.commits.records[commit as int];
        match e.kind {
            TargetKind::Tree => {
                let t = self.trees.records[e.index as int];
                GraphView {
                    trees: self.trees.replace(
                        e.index as int,
                        TreeView { path: e.path, commits: t.commits.push(commit), ..t },
                    ),
                    commits: self.commits.replace(
                        commit as int,
                        CommitView { tree_deps: c.tree_deps.push(e.index), ..c },
                    ),
                    ..self
                }
            },
            TargetKind::Blob => {
                let b = self.blobs.records[e.index as int];
                GraphView {
                    blobs: self.blobs.replace(
                        e.index as int,
                        BlobView { path: e.path, commits: b.commits.push(commit), ..b },
                    ),
                    commits: self.commits.replace(
                        commit as int,
                        CommitView { blob_deps: c.blob_deps.push(e.index), ..c },
                    ),
                    ..self
                }
            },
        }
    }

    /// The graph after `edges` of the commit at `commit` were added in order.
    pub open spec fn with_edges(self, commit: usize, edges: Seq<EdgeView>) -> GraphView
        decreases edges.len(),
    {
        if edges.len() == 0 {
            self
        } else {
            self.with_edges(commit, edges.drop_last()).with_edge(commit, edges.last())
        }
    }
}

/// Linking one dependency line of the commit at `commit`.
pub open spec fn link_line(g: GraphView, commit: usize, line: Seq<char>) -> GraphView {
    match resolve_line(g, line) {
        Some(e) => g.with_edge(commit, e),
        None => g,
    }
}

/// Linking the dependency lines `lines` of the commit at `commit`, one after the other.
pub open spec fn link_lines(g: GraphView, commit: usize, lines: Seq<Seq<char>>) -> GraphView
    decreases lines.len(),
{
    if lines.len() == 0 {
        g
    } else {
        link_line(link_lines(g, commit, lines.drop_last()), commit, lines.last())
    }
}

/// Linking one entry of the dependency map: the lines of `deps` for the commit that
/// `hash` names. An entry whose hash names no commit changes nothing.
pub open spec fn link_entry(g: GraphView, hash: Seq<char>, deps: Seq<char>) -> GraphView {
    match g.commits.index_of(hash) {
        Some(c) => link_lines(g, c, lines(deps)),
        None => g,
    }
}

/// Linking the entries of a dependency map, one after the other.
pub open spec fn link_all(g: GraphView, entries: Seq<EntryView>) -> GraphView
    decreases entries.len(),
{
    if entries.len() == 0 {
        g
    } else {
        link_entry(link_all(g, entries.drop_last()), entries.last().0, entries.last().1)
    }
}

/// An edge that a line resolves to names a record.
pub proof fn lemma_resolved_has_target(g: GraphView, line: Seq<char>)
    requires
        g.shaped(),
    ensures
        match resolve_line(g, line) {
            Some(e) => g.has_target(e),
            None => true,
        },
{
    lemma_index_map_sound(g.trees.hashes, line_id(line));
    lemma_index_map_sound(g.blobs.hashes, line_id(line));
}

/// All edges that lines resolve to name records.
pub proof fn lemma_resolved_lines_have_targets(g: GraphView, lines: Seq<Seq<char>>)
    requires
        g.shaped(),
    ensures
        forall|k: int|
            0 <= k < resolve_lines(g, lines).len() ==> g.has_target(
                #[trigger] resolve_lines(g, lines)[k],
            ),
    decreases lines.len(),
{
    if lines.len() > 0 {
        let front = resolve_lines(g, lines.drop_last());
        lemma_resolved_lines_have_targets(g, lines.drop_last());
        lemma_resolved_has_target(g, lines.last());
        assert forall|k: int| 0 <= k < resolve_lines(g, lines).len() implies g.has_target(
            #[trigger] resolve_lines(g, lines)[k],
        ) by {
            if k < front.len() {
                assert(resolve_lines(g, lines)[k] == front[k]);
            }
        }
    }
}

/// Lines resolve alike in graphs with the same hashes.
pub proof fn lemma_resolve_by_hashes(g: GraphView, h: GraphView, lines: Seq<Seq<char>>)
    requires
        g.same_hashes(h),
    ensures
        resolve_lines(g, lines) == resolve_lines(h, lines),
    decreases lines.len(),
{
    if lines.len() > 0 {
        lemma_resolve_by_hashes(g, h, lines.drop_last());
    }
}

/// Adding an edge between records of the graph changes no hash and no count, and keeps
/// the links valid.
pub proof fn lemma_with_edge_keeps(g: GraphView, commit: usize, e: EdgeView)
    requires
        commit < g.commits.records.len(),
        g.has_target(e),
    ensures
        g.with_edge(commit, e).same_hashes(g),
        g.with_edge(commit, e).commits.records.len() == g.commits.records.len(),
        g.with_edge(commit, e).blobs.records.len() == g.blobs.records.len(),
        g.with_edge(commit, e).trees.records.len() == g.trees.records.len(),
        g.with_edge(commit, e).tags.records.len() == g.tags.records.len(),
        g.shaped() ==> g.with_edge(commit, e).shaped(),
        g.links_valid() ==> g.with_edge(commit, e).links_valid(),
{
    let h = g.with_edge(commit, e);
    if g.links_valid() {
        assert forall|c: int, k: int|
            0 <= c < h.commits.records.len() && 0 <= k
                < h.commits.records[c].blob_deps.len() implies #[trigger] h.commits.records[c].blob_deps[k]
            < h.blobs.records.len() by {
            if k < g.commits.records[c].blob_deps.len() {
                assert(h.commits.records[c].blob_deps[k] == g.commits.records[c].blob_deps[k]);
            }
        }
        assert forall|c: int, k: int|
            0 <= c < h.commits.records.len() && 0 <= k
                < h.commits.records[c].tree_deps.len() implies #[trigger] h.commits.records[c].tree_deps[k]
            < h.trees.records.len() by {
            if k < g.commits.records[c].tree_deps.len() {
                assert(h.commits.records[c].tree_deps[k] == g.commits.records[c].tree_deps[k]);
            }
        }
        assert forall|c: int, k: int|
            0 <= c < h.commits.records.len() && 0 <= k
                < h.commits.records[c].tag_deps.len() implies #[trigger] h.commits.records[c].tag_deps[k]
            < h.tags.records.len() by {
            assert(h.commits.records[c].tag_deps[k] == g.commits.records[c].tag_deps[k]);
        }
        assert forall|t: int, k: int|
            0 <= t < h.trees.records.len() && 0 <= k
                < h.trees.records[t].commits.len() implies #[trigger] h.trees.records[t].commits[k]
            < h.commits.records.len() by {
            if k < g.trees.records[t].commits.len() {
                assert(h.trees.records[t].commits[k] == g.trees.records[t].commits[k]);
            }
        }
        assert forall|b: int, k: int|
            0 <= b < h.blobs.records.len() && 0 <= k
                < h.blobs.records[b].commits.len() implies #[trigger] h.blobs.records[b].commits[k]
            < h.commits.records.len() by {
            if k < g.blobs.records[b].commits.len() {
                assert(h.blobs.records[b].commits[k] == g.blobs.records[b].commits[k]);
            }
        }
        assert forall|t: int| 0 <= t < h.tags.records.len() implies match (
        #[trigger] h.tags.records[t]).commit_index {
            Some(c) => c < h.commits.records.len(),
            None => true,
        } by {
            assert(h.tags.records[t] == g.tags.records[t]);
        }
    }
}

/// Adding edges between records of the graph changes no hash and no count, and keeps the
/// links valid.
pub proof fn lemma_with_edges_keeps(g: GraphView, commit: usize, edges: Seq<EdgeView>)
    requires
        commit < g.commits.records.len(),
        forall|k: int| 0 <= k < edges.len() ==> g.has_target(#[trigger] edges[k]),
    ensures
        g.with_edges(commit, edges).same_hashes(g),
        g.with_edges(commit, edges).commits.records.len() == g.commits.records.len(),
        g.with_edges(commit, edges).blobs.records.len() == g.blobs.records.len(),
        g.with_edges(commit, edges).trees.records.len() == g.trees.records.len(),
        g.with_edges(commit, edges).tags.records.len() == g.tags.records.len(),
        g.shaped() ==> g.with_edges(commit, edges).shaped(),
        g.links_valid() ==> g.with_edges(commit, edges).links_valid(),
    decreases edges.len(),
{
    if edges.len() > 0 {
        let front = edges.drop_last();
        assert forall|k: int| 0 <= k < front.len() implies g.has_target(#[trigger] front[k]) by {
            assert(front[k] == edges[k]);
        }
        lemma_with_edges_keeps(g, commit, front);
        assert(g.has_target(edges[edges.len() - 1]));
        lemma_with_edge_keeps(g.with_edges(commit, front), commit, edges.last());
    }
}

/// Linking lines one after the other, each looked up in the graph as it then is, adds
/// the edges that the lines resolve to in any graph with the same hashes.
pub proof fn lemma_link_lines_adds_resolved(
    g: GraphView,
    first: GraphView,
    commit: usize,
    lines: Seq<Seq<char>>,
)
    requires
        g.shaped(),
        g.same_hashes(first),
        commit < g.commits.records.len(),
    ensures
        link_lines(g, commit, lines) == g.with_edges(commit, resolve_lines(first, lines)),
    decreases lines.len(),
{
    if lines.len() > 0 {
        let front = lines.drop_last();
        lemma_link_lines_adds_resolved(g, first, commit, front);
        lemma_resolve_by_hashes(g, first, front);
        lemma_resolved_lines_have_targets(g, front);
        lemma_with_edges_keeps(g, commit, resolve_lines(g, front));
        let mid = link_lines(g, commit, front);
        assert(resolve_line(mid, lines.last()) == resolve_line(first, lines.last()));
        match resolve_line(first, lines.last()) {
            Some(e) => {
                assert(resolve_lines(first, lines).drop_last() =~= resolve_lines(first, front));
            },
            None => {},
        }
    }
}

/// Resolves one entry of the dependency map against the stores of `container`.
pub fn resolve_dependencies(container: &ObjectContainer, hash: &str, deps: &str) -> (r:
    ResolvedEntry)
    requires
        container.wf(),
    ensures
        r@ == resolve_entry(container@, hash@, deps@),
{
    let commit = match container.commits().get_index(hash) {
        Some(c) => *c,
        None => {
            let none = ResolvedEntry { commit: None, edges: Vec::new() };
            assert(edge_views(none.edges@) =~= Seq::<EdgeView>::empty());
            return none;
        },
    };
    let text = chars_of(deps);
    let dep_lines = split_lines(&text);
    let ghost all = views(dep_lines@);
    let mut edges: Vec<Edge> = Vec::new();
    let mut i: usize = 0;
    proof {
        assert(all.take(0) =~= Seq::<Seq<char>>::empty());
        assert(edge_views(edges@) =~= Seq::<EdgeView>::empty());
    }
    while i < dep_lines.len()
        invariant
            i <= dep_lines.len(),
            container.wf(),
            all == views(dep_lines@),
            edge_views(edges@) == resolve_lines(container@, all.take(i as int)),
        decreases dep_lines.len() - i,
    {
        let line = &dep_lines[i];
        proof {
            assert(all.take(i + 1).drop_last() =~= all.take(i as int));
            assert(all.take(i + 1).last() == line@);
        }
        if line.len() >= ID_LENGTH {
            let id = string_of(&slice_of(line, 0, ID_LENGTH));
            let path_chars = if line.len() > PATH_START {
                slice_of(line, PATH_START, line.len())
            } else {
                Vec::new()
            };
            assert(path_chars@ =~= line_path(line@));
            let found = match container.trees().get_index(id.as_str()) {
                Some(index) => Some((TargetKind::Tree, *index)),
                None => match container.blobs().get_index(id.as_str()) {
                    Some(index) => Some((TargetKind::Blob, *index)),
                    None => None,
                },
            };
            match found {
                Some((kind, index)) => {
                    let edge = Edge { kind, index, path: string_of(&path_chars) };
                    assert(edge_views(edges@.push(edge)) =~= edge_views(edges@).push(edge@));
                    edges.push(edge);
                },
                None => {},
            }
        }
        i += 1;
    }
    assert(all.take(i as int) =~= all);
    ResolvedEntry { commit: Some(commit), edges }
}

/// `par_iter`, `map` and `collect` of rayon, on the entries of `deps`: the entries are
/// resolved against `container` by `resolve_dependencies`, on as many threads as rayon
/// has, and the results are collected in the order of the entries.
#[verifier::external_body]
fn resolve_in_parallel(container: &ObjectContainer, deps: &CommitDependencyMap) -> (r: Vec<
    ResolvedEntry,
>)
    requires
        container.wf(),
    ensures
        r@.len() == deps@.len(),
        forall|i: int|
            0 <= i < r@.len() ==> (#[trigger] r@[i])@ == resolve_entry(
                container@,
                deps@[i].0,
                deps@[i].1,
            ),
{
    deps.entries().par_iter().map(
        |entry| resolve_dependencies(container, entry.0.as_str(), entry.1.as_str()),
    ).collect()
}

fn add_edge(container: &mut ObjectContainer, commit: usize, edge: &Edge)
    requires
        old(container).wf(),
        commit < old(container)@.commits.records.len(),
        old(container)@.has_target(edge@),
    ensures
        final(container).wf(),
        final(container)@ == old(container)@.with_edge(commit, edge@),
{
    match edge.kind {
        TargetKind::Tree => {
            let tree = container.mut_trees().get_mut_by_index(&edge.index);
            tree.add_path(edge.path.as_str());
            tree.add_commit(&commit);
            let record = container.mut_commits().get_mut_by_index(&commit);
            record.add_tree_dep(&edge.index);
            assert(container@.trees.records =~= old(container)@.with_edge(
                commit,
                edge@,
            ).trees.records);
            assert(container@.commits.records =~= old(container)@.with_edge(
                commit,
                edge@,
            ).commits.records);
        },
        TargetKind::Blob => {
            let blob = container.mut_blobs().get_mut_by_index(&edge.index);
            blob.add_path(edge.path.as_str());
            blob.add_commit(&commit);
            let record = container.mut_commits().get_mut_by_index(&commit);
            record.add_blob_dep(&edge.index);
            assert(container@.blobs.records =~= old(container)@.with_edge(
                commit,
                edge@,
            ).blobs.records);
            assert(container@.commits.records =~= old(container)@.with_edge(
                commit,
                edge@,
            ).commits.records);
        },
    }
}

fn add_edges(container: &mut ObjectContainer, commit: usize, edges: &Vec<Edge>)
    requires
        old(container).wf(),
        commit < old(container)@.commits.records.len(),
        forall|k: int|
            0 <= k < edges@.len() ==> old(container)@.has_target(#[trigger] edge_views(edges@)[k]),
    ensures
        final(container).wf(),
        final(container)@ == old(container)@.with_edges(commit, edge_views(edges@)),
{
    let ghost start = container@;
    let ghost all = edge_views(edges@);
    let mut k: usize = 0;
    assert(all.take(0) =~= Seq::<EdgeView>::empty());
    while k < edges.len()
        invariant
            k <= edges.len(),
            all == edge_views(edges@),
            container.wf(),
            commit < start.commits.records.len(),
            forall|j: int| 0 <= j < all.len() ==> start.has_target(#[trigger] all[j]),
            container@ == start.with_edges(commit, all.take(k as int)),
        decreases edges.len() - k,
    {
        proof {
            assert(all.take(k + 1).drop_last() =~= all.take(k as int));
            assert(all.take(k + 1).last() == edges@[k as int]@);
            assert forall|j: int| 0 <= j < all.take(k as int).len() implies start.has_target(
                #[trigger] all.take(k as int)[j],
            ) by {
                assert(all.take(k as int)[j] == all[j]);
            }
            lemma_with_edges_keeps(start, commit, all.take(k as int));
            assert(start.has_target(all[k as int]));
        }
        add_edge(container, commit, &edges[k]);
        k += 1;
    }
    assert(all.take(k as int) =~= all);
}

/// Links every commit of `commit_deps` to the trees and blobs that its dependency text
/// names. The entries are resolved in parallel; the edges are then added entry by entry,
/// in the order of the map. The result is that of linking the entries one after the
/// other, line by line.
pub fn process_commit_deps(commit_deps: &CommitDependencyMap, container: &mut ObjectContainer)
    requires
        old(container).wf(),
    ensures
        final(container).wf(),
        final(container)@ == link_all(old(container)@, commit_deps@),
        final(container)@.same_hashes(old(container)@),
        old(container)@.links_valid() ==> final(container)@.links_valid(),
{
    let resolved = resolve_in_parallel(container, commit_deps);
    let ghost start = container@;
    let ghost entries = commit_deps@;
    let mut i: usize = 0;
    proof {
        assert(entries.take(0) =~= Seq::<EntryView>::empty());
        lemma_wf_shaped(container);
    }
    while i < resolved.len()
        invariant
            i <= resolved.len(),
            resolved@.len() == entries.len(),
            start == old(container)@,
            entries == commit_deps@,
            forall|j: int|
                0 <= j < resolved@.len() ==> (#[trigger] resolved@[j])@ == resolve_entry(
                    start,
                    entries[j].0,
                    entries[j].1,
                ),
            container.wf(),
            container@.shaped(),
            container@ == link_all(start, entries.take(i as int)),
            container@.same_hashes(start),
            start.links_valid() ==> container@.links_valid(),
        decreases resolved.len() - i,
    {
        let entry = &resolved[i];
        let ghost before = container@;
        let ghost hash = entries[i as int].0;
        let ghost deps = entries[i as int].1;
        proof {
            assert(entries.take(i + 1).drop_last() =~= entries.take(i as int));
            assert(entries.take(i + 1).last() == entries[i as int]);
            assert(entry@ == resolve_entry(start, hash, deps));
            lemma_index_map_sound(before.commits.hashes, hash);
        }
        match entry.commit {
            Some(commit) => {
                proof {
                    lemma_link_lines_adds_resolved(before, start, commit, lines(deps));
                    lemma_resolve_by_hashes(before, start, lines(deps));
                    lemma_resolved_lines_have_targets(before, lines(deps));
                    lemma_with_edges_keeps(before, commit, resolve_lines(start, lines(deps)));
                }
                add_edges(container, commit, &entry.edges);
            },
            None => {},
        }
        i += 1;
    }
    assert(entries.take(i as int) =~= entries);
}

/// The view of well-formed stores is shaped.
pub proof fn lemma_wf_shaped(container: &ObjectContainer)
    requires
        container.wf(),
    ensures
        container@.shaped(),
{
    container.commit_store().lemma_len_bounded();
    container.blob_store().lemma_len_bounded();
    container.tree_store().lemma_len_bounded();
    container.tag_store().lemma_len_bounded();
}

} // verus!
