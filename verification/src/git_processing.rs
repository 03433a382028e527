//! Building the object graph: reading the object listing into the stores, linking each
//! commit to the trees and blobs it introduces, and resolving tag references.

use crate::blob::Blob;
use crate::commit::Commit;
use crate::object_collection::{GraphView, ObjectContainer};
use crate::tag::Tag;
use crate::text::{
    chars_of, equals_str, lines, parse_u32, parse_u32_chars, split, split_chars, split_lines,
    string_of, string_views, views,
};
use crate::tree::Tree;
use vstd::prelude::*;

verus! {

/// The four kinds of object.
#[derive(Clone, Copy, Debug, PartialEq, Eq, Structural)]
pub enum ObjectKind {
    Commit,
    Blob,
    Tree,
    Tag,
}

/// The two number fields of a line of the object listing.
#[derive(Clone, Copy, Debug, PartialEq, Eq, Structural)]
pub enum SizeField {
    Size,
    SizeOnDisk,
}

/// A line of the object listing has four fields and one of its sizes is no `u32`.
#[derive(Clone, Copy, Debug, PartialEq, Eq, Structural)]
pub struct ParseError {
    /// Position of the line among the lines of the listing, from zero.
    pub line: usize,
    /// The field that could not be read.
    pub field: SizeField,
}

/// What one line of the object listing says.
pub enum LineReading {
    /// The line does not have four fields: it is passed over.
    Skipped,
    /// The line has four fields and this one is no `u32`.
    Malformed(SizeField),
    /// The line is sound but for its kind, which is none of the four.
    UnknownKind(Seq<char>),
    /// The line describes an object.
    Object { kind: ObjectKind, hash: Seq<char>, size: u32, size_disk: u32 },
}

/// `line` without its apostrophes.
pub open spec fn without_apostrophes(line: Seq<char>) -> Seq<char> {
    line.filter(|c: char| c != '\'')
}

/// The kind that `name` names.
pub open spec fn kind_of(name: Seq<char>) -> Option<ObjectKind> {
    if name == "commit"@ {
        Some(ObjectKind::Commit)
    } else if name == "blob"@ {
        Some(ObjectKind::Blob)
    } else if name == "tree"@ {
        Some(ObjectKind::Tree)
    } else if name == "tag"@ {
        Some(ObjectKind::Tag)
    } else {
        None
    }
}

/// Reads one line of the object listing: after the apostrophes are taken out, the fields
/// `kind hash size sizeOnDisk`, with one space between two fields. The sizes are read
/// before the kind is looked at.
pub open spec fn read_object_line(line: Seq<char>) -> LineReading {
    let fields = split(without_apostrophes(line), ' ');
    if fields.len() != 4 {
        LineReading::Skipped
    } else {
        match (parse_u32(fields[2]), parse_u32(fields[3]), kind_of(fields[0])) {
            (None, _, _) => LineReading::Malformed(SizeField::Size),
            (Some(_), None, _) => LineReading::Malformed(SizeField::SizeOnDisk),
            (Some(_), Some(_), None) => LineReading::UnknownKind(fields[0]),
            (Some(size), Some(size_disk), Some(kind)) => LineReading::Object {
                kind,
                hash: fields[1],
                size,
                size_disk,
            },
        }
    }
}

impl GraphView {
    /// The graph after a new object of `kind` was appended to the store of its kind, with
    /// the next index of that store and without links.
    pub open spec fn with_object(
        self,
        kind: ObjectKind,
        hash: Seq<char>,
        size: u32,
        size_disk: u32,
    ) -> GraphView {
        match kind {
            ObjectKind::Commit => GraphView {
                commits: self.commits.push(
                    hash,
                    Commit::fresh(self.commits.records.len() as usize, size, size_disk),
                ),
                ..self
            },
            ObjectKind::Blob => GraphView {
                blobs: self.blobs.push(
                    hash,
                    Blob::fresh(self.blobs.records.len() as usize, size, size_disk),
                ),
                ..self
            },
            ObjectKind::Tree => GraphView {
                trees: self.trees.push(
                    hash,
                    Tree::fresh(self.trees.records.len() as usize, size, size_disk),
                ),
                ..self
            },
            ObjectKind::Tag => GraphView {
                tags: self.tags.push(
                    hash,
                    Tag::fresh(self.tags.records.len() as usize, size, size_disk),
                ),
                ..self
            },
        }
    }
}

/// How far reading an object listing has come.
pub struct Ingestion {
    /// The graph with the objects read so far.
    pub graph: GraphView,
    /// The kinds that were not recognised, one per such line, in the order of the lines.
    pub unknown_kinds: Seq<Seq<char>>,
    /// The first malformed line, once there is one. Nothing is read after it.
    pub error: Option<ParseError>,
}

/// Reading `line`, which is line number `number`, after `state`.
pub open spec fn ingest_line(state: Ingestion, line: Seq<char>, number: int) -> Ingestion {
    if state.error is Some {
        state
    } else {
        match read_object_line(line) {
            LineReading::Skipped => state,
            LineReading::Malformed(field) => Ingestion {
                error: Some(ParseError { line: number as usize, field }),
                ..state
            },
            LineReading::UnknownKind(name) => Ingestion {
                unknown_kinds: state.unknown_kinds.push(name),
                ..state
            },
            LineReading::Object { kind, hash, size, size_disk } => Ingestion {
                graph: state.graph.with_object(kind, hash, size, size_disk),
                ..state
            },
        }
    }
}

/// Reading `lines` in order into `graph`, up to the first malformed line.
pub open spec fn ingest(graph: GraphView, lines: Seq<Seq<char>>) -> Ingestion
    decreases lines.len(),
{
    if lines.len() == 0 {
        Ingestion { graph, unknown_kinds: Seq::empty(), error: None }
    } else {
        ingest_line(ingest(graph, lines.drop_last()), lines.last(), lines.len() - 1)
    }
}

/// A new object has no links, so a graph whose links are valid stays so.
pub proof fn lemma_with_object_keeps_links(
    g: GraphView,
    kind: ObjectKind,
    hash: Seq<char>,
    size: u32,
    size_disk: u32,
)
    requires
        g.links_valid(),
    ensures
        g.with_object(kind, hash, size, size_disk).links_valid(),
{
    let h = g.with_object(kind, hash, size, size_disk);
    assert forall|c: int, k: int|
        0 <= c < h.commits.records.len() && 0 <= k
            < h.commits.records[c].blob_deps.len() implies #[trigger] h.commits.records[c].blob_deps[k]
        < h.blobs.records.len() by {
        if c < g.commits.records.len() {
            assert(h.commits.records[c] == g.commits.records[c]);
            assert(g.commits.records[c].blob_deps[k] < g.blobs.records.len());
        }
    }
    assert forall|c: int, k: int|
        0 <= c < h.commits.records.len() && 0 <= k
            < h.commits.records[c].tree_deps.len() implies #[trigger] h.commits.records[c].tree_deps[k]
        < h.trees.records.len() by {
        if c < g.commits.records.len() {
            assert(h.commits.records[c] == g.commits.records[c]);
            assert(g.commits.records[c].tree_deps[k] < g.trees.records.len());
        }
    }
    assert forall|c: int, k: int|
        0 <= c < h.commits.records.len() && 0 <= k
            < h.commits.records[c].tag_deps.len() implies #[trigger] h.commits.records[c].tag_deps[k]
        < h.tags.records.len() by {
        if c < g.commits.records.len() {
            assert(h.commits.records[c] == g.commits.records[c]);
            assert(g.commits.records[c].tag_deps[k] < g.tags.records.len());
        }
    }
    assert forall|t: int, k: int|
        0 <= t < h.trees.records.len() && 0 <= k
            < h.trees.records[t].commits.len() implies #[trigger] h.trees.records[t].commits[k]
        < h.commits.records.len() by {
        if t < g.trees.records.len() {
            assert(h.trees.records[t] == g.trees.records[t]);
            assert(g.trees.records[t].commits[k] < g.commits.records.len());
        }
    }
    assert forall|b: int, k: int|
        0 <= b < h.blobs.records.len() && 0 <= k
            < h.blobs.records[b].commits.len() implies #[trigger] h.blobs.records[b].commits[k]
        < h.commits.records.len() by {
        if b < g.blobs.records.len() {
            assert(h.blobs.records[b] == g.blobs.records[b]);
            assert(g.blobs.records[b].commits[k] < g.commits.records.len());
        }
    }
    assert forall|t: int| 0 <= t < h.tags.records.len() implies match (
    #[trigger] h.tags.records[t]).commit_index {
        Some(c) => c < h.commits.records.len(),
        None => true,
    } by {
        if t < g.tags.records.len() {
            assert(h.tags.records[t] == g.tags.records[t]);
        }
    }
}

/// Reading a listing keeps the links valid.
pub proof fn lemma_ingest_keeps_links(graph: GraphView, lines: Seq<Seq<char>>)
    requires
        graph.links_valid(),
    ensures
        ingest(graph, lines).graph.links_valid(),
    decreases lines.len(),
{
    if lines.len() > 0 {
        lemma_ingest_keeps_links(graph, lines.drop_last());
        let before = ingest(graph, lines.drop_last());
        if before.error is None {
            match read_object_line(lines.last()) {
                LineReading::Object { kind, hash, size, size_disk } => {
                    lemma_with_object_keeps_links(before.graph, kind, hash, size, size_disk);
                },
                _ => {},
            }
        }
    }
}

fn strip_apostrophes(line: &Vec<char>) -> (r: Vec<char>)
    ensures
        r@ == without_apostrophes(line@),
{
    let mut out: Vec<char> = Vec::new();
    let mut i: usize = 0;
    proof {
        assert(line@.take(0) =~= Seq::<char>::empty());
        line@.take(0).lemma_filter_len(|c: char| c != '\'');
    }
    while i < line.len()
        invariant
            i <= line.len(),
            out@ == without_apostrophes(line@.take(i as int)),
        decreases line.len() - i,
    {
        let c = line[i];
        proof {
            assert(line@.take(i + 1) =~= line@.take(i as int).push(c));
            line@.take(i as int).lemma_filter_push(c, |c: char| c != '\'');
        }
        if c != '\'' {
            out.push(c);
        }
        i += 1;
    }
    assert(line@.take(i as int) =~= line@);
    out
}

fn read_kind(name: &Vec<char>) -> (r: Option<ObjectKind>)
    ensures
        r == kind_of(name@),
{
    if equals_str(name, "commit") {
        Some(ObjectKind::Commit)
    } else if equals_str(name, "blob") {
        Some(ObjectKind::Blob)
    } else if equals_str(name, "tree") {
        Some(ObjectKind::Tree)
    } else if equals_str(name, "tag") {
        Some(ObjectKind::Tag)
    } else {
        None
    }
}

fn insert_object(
    container: &mut ObjectContainer,
    kind: ObjectKind,
    hash: &str,
    size: u32,
    size_disk: u32,
)
    requires
        old(container).wf(),
    ensures
        final(container).wf(),
        final(container)@ == old(container)@.with_object(kind, hash@, size, size_disk),
{
    match kind {
        ObjectKind::Commit => {
            let index = container.commits().count();
            let record = Commit::new(index, size, size_disk);
            proof {
                record.lemma_reindexed(index);
            }
            container.mut_commits().add(hash, record);
            assert(container@.commits.records =~= old(container)@.commits.records.push(
                Commit::fresh(index, size, size_disk),
            ));
        },
        ObjectKind::Blob => {
            let index = container.blobs().count();
            let record = Blob::new(index, size, size_disk);
            proof {
                record.lemma_reindexed(index);
            }
            container.mut_blobs().add(hash, record);
            assert(container@.blobs.records =~= old(container)@.blobs.records.push(
                Blob::fresh(index, size, size_disk),
            ));
        },
        ObjectKind::Tree => {
            let index = container.trees().count();
            let record = Tree::new(index, size, size_disk);
            proof {
                record.lemma_reindexed(index);
            }
            container.mut_trees().add(hash, record);
            assert(container@.trees.records =~= old(container)@.trees.records.push(
                Tree::fresh(index, size, size_disk),
            ));
        },
        ObjectKind::Tag => {
            let index = container.tags().count();
            let record = Tag::new(index, size, size_disk);
            proof {
                record.lemma_reindexed(index);
            }
            container.mut_tags().add(hash, record);
            assert(container@.tags.records =~= old(container)@.tags.records.push(
                Tag::fresh(index, size, size_disk),
            ));
        },
    }
}

/// Reads the object listing `objects` into the stores of `container`, line by line. A
/// line that does not have four fields is passed over. A line of an unknown kind adds
/// nothing; its kind is handed back. At the first line of which a size is no `u32`,
/// reading stops with an error, and the objects of the lines before it stay.
pub fn process_objects(objects: &str, container: &mut ObjectContainer) -> (r: Result<
    Vec<String>,
    ParseError,
>)
    requires
        old(container).wf(),
    ensures
        final(container).wf(),
        final(container)@ == ingest(old(container)@, lines(objects@)).graph,
        match r {
            Ok(unknown) => ingest(old(container)@, lines(objects@)).error is None && string_views(
                unknown@,
            ) == ingest(old(container)@, lines(objects@)).unknown_kinds,
            Err(e) => ingest(old(container)@, lines(objects@)).error == Some(e),
        },
        old(container)@.links_valid() ==> final(container)@.links_valid(),
{
    let text = chars_of(objects);
    let object_lines = split_lines(&text);
    let ghost start = container@;
    let ghost all = views(object_lines@);
    let mut unknown: Vec<String> = Vec::new();
    let mut i: usize = 0;
    proof {
        assert(all.take(0) =~= Seq::<Seq<char>>::empty());
        assert(string_views(unknown@) =~= Seq::<Seq<char>>::empty());
        if start.links_valid() {
            lemma_ingest_keeps_links(start, all);
        }
    }
    while i < object_lines.len()
        invariant
            i <= object_lines.len(),
            all == views(object_lines@),
            all == lines(objects@),
            start == old(container)@,
            start.links_valid() ==> ingest(start, all).graph.links_valid(),
            container.wf(),
            container@ == ingest(start, all.take(i as int)).graph,
            ingest(start, all.take(i as int)).error is None,
            string_views(unknown@) == ingest(start, all.take(i as int)).unknown_kinds,
        decreases object_lines.len() - i,
    {
        let line = strip_apostrophes(&object_lines[i]);
        let fields = split_chars(&line, ' ');
        proof {
            assert(all.take(i + 1).drop_last() =~= all.take(i as int));
            assert(all.take(i + 1).last() == object_lines@[i as int]@);
        }
        let ghost next = ingest(start, all.take(i + 1));
        if fields.len() == 4 {
            let size = match parse_u32_chars(&fields[2]) {
                Some(v) => v,
                None => {
                    proof {
                        lemma_ingest_stops(start, all, i + 1);
                    }
                    return Err(ParseError { line: i, field: SizeField::Size });
                },
            };
            let size_disk = match parse_u32_chars(&fields[3]) {
                Some(v) => v,
                None => {
                    proof {
                        lemma_ingest_stops(start, all, i + 1);
                    }
                    return Err(ParseError { line: i, field: SizeField::SizeOnDisk });
                },
            };
            match read_kind(&fields[0]) {
                Some(kind) => {
                    let hash = string_of(&fields[1]);
                    insert_object(container, kind, hash.as_str(), size, size_disk);
                },
                None => {
                    let name = string_of(&fields[0]);
                    assert(string_views(unknown@.push(name)) =~= string_views(unknown@).push(
                        name@,
                    ));
                    unknown.push(name);
                },
            }
        }
        i += 1;
    }
    assert(all.take(i as int) =~= all);
    Ok(unknown)
}

/// Once a line is malformed, the lines after it change nothing.
pub proof fn lemma_ingest_stops(graph: GraphView, lines: Seq<Seq<char>>, k: int)
    requires
        0 <= k <= lines.len(),
        ingest(graph, lines.take(k)).error is Some,
    ensures
        ingest(graph, lines) == ingest(graph, lines.take(k)),
    decreases lines.len() - k,
{
    if k == lines.len() {
        assert(lines.take(k) =~= lines);
    } else {
        assert(lines.take(k + 1).drop_last() =~= lines.take(k));
        lemma_ingest_stops(graph, lines, k + 1);
    }
}

} // verus!

pub use crate::linking::process_commit_deps;
pub use crate::tag_resolution::process_tags;
