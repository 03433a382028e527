//! Tag references: naming the annotated tags, linking each to the commit it points at,
//! and noting lightweight tags on their commits.

use crate::commit::CommitView;
use crate::object_collection::{lemma_index_map_sound, GraphView, ObjectContainer};
use crate::tag::TagView;
use crate::text::{
    chars_of, ends_with, has_suffix, lines, split, split_chars, split_lines, string_of, views,
};
use vstd::prelude::*;

verus! {

/// What the tag references showed that is worth telling the user.
#[derive(Debug, PartialEq, Eq)]
pub enum TagDiagnostic {
    /// The reference after an annotated tag names a commit but does not end in `^{}`: the
    /// tag is left without commit. Holds the tag's hash.
    TagWithoutCommit(String),
    /// The reference names neither a commit nor a tag. Holds the hash of the reference.
    UnresolvedTag(String),
}

/// A diagnostic with its hash as text.
pub enum TagDiagnosticView {
    TagWithoutCommit(Seq<char>),
    UnresolvedTag(Seq<char>),
}

impl View for TagDiagnostic {
    type V = TagDiagnosticView;

    open spec fn view(&self) -> TagDiagnosticView {
        match self {
            TagDiagnostic::TagWithoutCommit(h) => TagDiagnosticView::TagWithoutCommit(h@),
            TagDiagnostic::UnresolvedTag(h) => TagDiagnosticView::UnresolvedTag(h@),
        }
    }
}

/// The views of `diagnostics`, in order.
pub open spec fn diagnostic_views(diagnostics: Seq<TagDiagnostic>) -> Seq<TagDiagnosticView> {
    diagnostics.map_values(|d: TagDiagnostic| d@)
}

impl GraphView {
    /// The graph after the tag at `tag` and the commit at `commit` were linked, each to
    /// the other.
    pub open spec fn with_tag_link(self, commit: usize, tag: usize) -> GraphView {
        let c = self.commits.records[commit as int];
        let t = self.tags.records[tag as int];
        GraphView {
            commits: self.commits.replace(
                commit as int,
                CommitView { tag_deps: c.tag_deps.push(tag), ..c },
            ),
            tags: self.tags.replace(tag as int, TagView { commit_index: Some(commit), ..t }),
            ..self
        }
    }

    /// The graph after the commit at `commit` gained the lightweight tag `label`.
    pub open spec fn with_lightweight_tag(self, commit: usize, label: Seq<char>) -> GraphView {
        let c = self.commits.records[commit as int];
        GraphView {
            commits: self.commits.replace(
                commit as int,
                CommitView { lightweight_tags: c.lightweight_tags.push(label), ..c },
            ),
            ..self
        }
    }

    /// The graph after the tag at `tag` was named `label`.
    pub open spec fn with_tag_name(self, tag: usize, label: Seq<char>) -> GraphView {
        let t = self.tags.records[tag as int];
        GraphView { tags: self.tags.replace(tag as int, TagView { name: label, ..t }), ..self }
    }
}

/// How far reading the tag references has come.
pub struct TagResolution {
    /// The graph with the references read so far.
    pub graph: GraphView,
    /// The annotated tag of the reference just read, which waits for its commit.
    pub pending: Option<usize>,
    /// What was found amiss, in the order of the references.
    pub diagnostics: Seq<TagDiagnosticView>,
}

/// Whether `line` has the two fields of a reference, a hash and a label, with a space
/// between them.
pub open spec fn is_reference(line: Seq<char>) -> bool {
    split(line, ' ').len() >= 2
}

/// Whether every line of `text` is a reference.
pub open spec fn is_reference_listing(text: Seq<char>) -> bool {
    forall|i: int| 0 <= i < lines(text).len() ==> is_reference(#[trigger] lines(text)[i])
}

/// The suffix that marks the commit an annotated tag points at.
pub open spec fn dereference_mark() -> Seq<char> {
    "^{}"@
}

/// Reading the reference `line` after `state`.
///
/// A reference to a commit, while a tag waits: where the line ends in the dereference
/// mark, tag and commit are linked; where not, the tag stays without commit and this is
/// noted. Either way no tag waits afterwards. A reference to a commit while no tag waits
/// is a lightweight tag of that commit. A reference to a tag names the tag, which then
/// waits. Any other reference is noted, and a waiting tag goes on waiting.
pub open spec fn resolve_reference(state: TagResolution, line: Seq<char>) -> TagResolution {
    let hash = split(line, ' ')[0];
    let label = split(line, ' ')[1];
    match state.graph.commits.index_of(hash) {
        Some(commit) => match state.pending {
            Some(tag) => if ends_with(line, dereference_mark()) {
                TagResolution {
                    graph: state.graph.with_tag_link(commit, tag),
                    pending: None,
                    ..state
                }
            } else {
                TagResolution {
                    pending: None,
                    diagnostics: state.diagnostics.push(
                        TagDiagnosticView::TagWithoutCommit(state.graph.tags.hashes[tag as int]),
                    ),
                    ..state
                }
            },
            None => TagResolution {
                graph: state.graph.with_lightweight_tag(commit, label),
                ..state
            },
        },
        None => match state.graph.tags.index_of(hash) {
            Some(tag) => TagResolution {
                graph: state.graph.with_tag_name(tag, label),
                pending: Some(tag),
                ..state
            },
            None => TagResolution {
                diagnostics: state.diagnostics.push(TagDiagnosticView::UnresolvedTag(hash)),
                ..state
            },
        },
    }
}

/// Reading the references `lines` in order, starting with no tag waiting.
pub open spec fn resolve_references(graph: GraphView, lines: Seq<Seq<char>>) -> TagResolution
    decreases lines.len(),
{
    if lines.len() == 0 {
        TagResolution { graph, pending: None, diagnostics: Seq::empty() }
    } else {
        resolve_reference(resolve_references(graph, lines.drop_last()), lines.last())
    }
}

/// Whether the tag that waits, if one does, is the tag that its hash leads to.
pub open spec fn waits_in_store(g: GraphView, pending: Option<usize>) -> bool {
    match pending {
        Some(tag) => tag < g.tags.records.len() && g.tags.index_of(g.tags.hashes[tag as int])
            == Some(tag),
        None => true,
    }
}

/// One reference leaves the hashes and counts of a shaped graph as they are, keeps valid
/// links valid, and leaves no tag waiting but one that its hash leads to.
pub proof fn lemma_resolve_reference_keeps(state: TagResolution, line: Seq<char>)
    requires
        state.graph.shaped(),
        waits_in_store(state.graph, state.pending),
    ensures
        resolve_reference(state, line).graph.shaped(),
        resolve_reference(state, line).graph.same_hashes(state.graph),
        waits_in_store(
            resolve_reference(state, line).graph,
            resolve_reference(state, line).pending,
        ),
        state.graph.links_valid() ==> resolve_reference(state, line).graph.links_valid(),
{
    let g = state.graph;
    let h = resolve_reference(state, line).graph;
    let hash = split(line, ' ')[0];
    lemma_index_map_sound(g.commits.hashes, hash);
    lemma_index_map_sound(g.tags.hashes, hash);
    if g.links_valid() {
        assert forall|c: int, k: int|
            0 <= c < h.commits.records.len() && 0 <= k
                < h.commits.records[c].blob_deps.len() implies #[trigger] h.commits.records[c].blob_deps[k]
            < h.blobs.records.len() by {
            assert(h.commits.records[c].blob_deps[k] == g.commits.records[c].blob_deps[k]);
        }
        assert forall|c: int, k: int|
            0 <= c < h.commits.records.len() && 0 <= k
                < h.commits.records[c].tree_deps.len() implies #[trigger] h.commits.records[c].tree_deps[k]
            < h.trees.records.len() by {
            assert(h.commits.records[c].tree_deps[k] == g.commits.records[c].tree_deps[k]);
        }
        assert forall|c: int, k: int|
            0 <= c < h.commits.records.len() && 0 <= k
                < h.commits.records[c].tag_deps.len() implies #[trigger] h.commits.records[c].tag_deps[k]
            < h.tags.records.len() by {
            if k < g.commits.records[c].tag_deps.len() {
                assert(h.commits.records[c].tag_deps[k] == g.commits.records[c].tag_deps[k]);
            }
        }
        assert forall|t: int, k: int|
            0 <= t < h.trees.records.len() && 0 <= k
                < h.trees.records[t].commits.len() implies #[trigger] h.trees.records[t].commits[k]
            < h.commits.records.len() by {
            assert(h.trees.records[t].commits[k] == g.trees.records[t].commits[k]);
        }
        assert forall|b: int, k: int|
            0 <= b < h.blobs.records.len() && 0 <= k
                < h.blobs.records[b].commits.len() implies #[trigger] h.blobs.records[b].commits[k]
            < h.commits.records.len() by {
            assert(h.blobs.records[b].commits[k] == g.blobs.records[b].commits[k]);
        }
        assert forall|t: int| 0 <= t < h.tags.records.len() implies match (
        #[trigger] h.tags.records[t]).commit_index {
            Some(c) => c < h.commits.records.len(),
            None => true,
        } by {
            assert(match g.tags.records[t].commit_index {
                Some(c) => c < g.commits.records.len(),
                None => true,
            });
        }
    }
}

/// Whether every line of `references` has a hash and a label, so that `process_tags`
/// can read it.
pub fn is_tag_listing(references: &str) -> (r: bool)
    ensures
        r == is_reference_listing(references@),
{
    let text = chars_of(references);
    let reference_lines = split_lines(&text);
    let ghost all = views(reference_lines@);
    let mut i: usize = 0;
    while i < reference_lines.len()
        invariant
            i <= reference_lines.len(),
            all == views(reference_lines@),
            all == lines(references@),
            forall|j: int| 0 <= j < i ==> is_reference(#[trigger] all[j]),
        decreases reference_lines.len() - i,
    {
        let fields = split_chars(&reference_lines[i], ' ');
        if fields.len() < 2 {
            assert(!is_reference(all[i as int]));
            return false;
        }
        i += 1;
    }
    true
}

/// Reads the tag references `references`, one per line as `hash label`, into the graph.
/// An annotated tag comes as two lines, the tag and then the commit it points at, whose
/// label ends in `^{}`. Hands back what was found amiss.
pub fn process_tags(references: &str, container: &mut ObjectContainer) -> (r: Vec<TagDiagnostic>)
    requires
        old(container).wf(),
        is_reference_listing(references@),
    ensures
        final(container).wf(),
        final(container)@ == resolve_references(old(container)@, lines(references@)).graph,
        diagnostic_views(r@) == resolve_references(
            old(container)@,
            lines(references@),
        ).diagnostics,
        final(container)@.same_hashes(old(container)@),
        old(container)@.links_valid() ==> final(container)@.links_valid(),
{
    let text = chars_of(references);
    let reference_lines = split_lines(&text);
    let ghost start = container@;
    let ghost all = views(reference_lines@);
    let mut diagnostics: Vec<TagDiagnostic> = Vec::new();
    let mut pending: Option<usize> = None;
    let mut i: usize = 0;
    proof {
        assert(all.take(0) =~= Seq::<Seq<char>>::empty());
        assert(diagnostic_views(diagnostics@) =~= Seq::<TagDiagnosticView>::empty());
        crate::linking::lemma_wf_shaped(container);
    }
    while i < reference_lines.len()
        invariant
            i <= reference_lines.len(),
            all == views(reference_lines@),
            all == lines(references@),
            is_reference_listing(references@),
            start == old(container)@,
            container.wf(),
            container@.shaped(),
            container@ == resolve_references(start, all.take(i as int)).graph,
            pending == resolve_references(start, all.take(i as int)).pending,
            diagnostic_views(diagnostics@) == resolve_references(
                start,
                all.take(i as int),
            ).diagnostics,
            waits_in_store(container@, pending),
            container@.same_hashes(start),
            start.links_valid() ==> container@.links_valid(),
        decreases reference_lines.len() - i,
    {
        let line = &reference_lines[i];
        let fields = split_chars(line, ' ');
        let ghost before = resolve_references(start, all.take(i as int));
        proof {
            assert(all.take(i + 1).drop_last() =~= all.take(i as int));
            assert(all.take(i + 1).last() == line@);
            assert(is_reference(all[i as int]));
            lemma_resolve_reference_keeps(before, line@);
        }
        let hash = string_of(&fields[0]);
        let label = string_of(&fields[1]);
        let commit_index = match container.commits().get_index(hash.as_str()) {
            Some(c) => Some(*c),
            None => None,
        };
        match commit_index {
            Some(commit) => {
                match pending {
                    Some(tag) => {
                        if has_suffix(line, "^{}") {
                            container.mut_commits().get_mut_by_index(&commit).add_tag_dep(&tag);
                            container.mut_tags().get_mut_by_index(&tag).add_commit_dep(&commit);
                            assert(container@.commits.records =~= before.graph.with_tag_link(
                                commit,
                                tag,
                            ).commits.records);
                            assert(container@.tags.records =~= before.graph.with_tag_link(
                                commit,
                                tag,
                            ).tags.records);
                        } else {
                            assert(container.tag_store().hashes() == before.graph.tags.hashes);
                            let tag_hash = container.tags().lookup_hash_for_index(&tag);
                            assert(tag_hash is Some) by {
                                assert(container.tag_store().index_of(
                                    container.tag_store().hashes()[tag as int],
                                ) == Some(tag));
                            }
                            let note = TagDiagnostic::TagWithoutCommit(tag_hash.unwrap().clone());
                            assert(diagnostic_views(diagnostics@.push(note)) =~= diagnostic_views(
                                diagnostics@,
                            ).push(note@));
                            diagnostics.push(note);
                        }
                        pending = None;
                    },
                    None => {
                        container.mut_commits().get_mut_by_index(&commit).add_lightweight_tag(
                            label.as_str(),
                        );
                        assert(container@.commits.records
                            =~= before.graph.with_lightweight_tag(commit, label@).commits.records);
                    },
                }
            },
            None => {
                let tag_index = match container.tags().get_index(hash.as_str()) {
                    Some(t) => Some(*t),
                    None => None,
                };
                match tag_index {
                    Some(tag) => {
                        container.mut_tags().get_mut_by_index(&tag).add_name(label.as_str());
                        assert(container@.tags.records =~= before.graph.with_tag_name(
                            tag,
                            label@,
                        ).tags.records);
                        pending = Some(tag);
                    },
                    None => {
                        let note = TagDiagnostic::UnresolvedTag(hash);
                        assert(diagnostic_views(diagnostics@.push(note)) =~= diagnostic_views(
                            diagnostics@,
                        ).push(note@));
                        diagnostics.push(note);
                    },
                }
            },
        }
        i += 1;
    }
    assert(all.take(i as int) =~= all);
    diagnostics
}

} // verus!
