//! The text form in which a dependency map is kept between runs.
//!
//! A line that holds `;` and nothing else is a delimiter. The text begins with a
//! delimiter. Every entry is a block: a line with the commit's hash, the lines of its
//! dependency text, and a delimiter.

use crate::dependency_map::{distinct_keys, has_key, upsert, CommitDependencyMap, EntryView};
use crate::text::{
    chars_of, ends_with, equals_str, has_suffix, lemma_split_concat, lemma_split_none, lines,
    slice_of, split, split_lines, string_of, strip_cr, views,
};
use vstd::prelude::*;
use vstd::string::StringExecFns;

verus! {

/// The text of a delimiter line.
pub open spec fn delimiter() -> Seq<char> {
    ";"@
}

/// `deps` as it is written: with a line feed added unless it ends with one.
pub open spec fn with_final_newline(deps: Seq<char>) -> Seq<char> {
    if ends_with(deps, "\n"@) {
        deps
    } else {
        deps + "\n"@
    }
}

/// The block of one entry.
pub open spec fn block(entry: EntryView) -> Seq<char> {
    entry.0 + "\n"@ + with_final_newline(entry.1) + ";\n"@
}

/// The blocks of `entries`, one after the other.
pub open spec fn blocks(entries: Seq<EntryView>) -> Seq<char>
    decreases entries.len(),
{
    if entries.len() == 0 {
        Seq::empty()
    } else {
        blocks(entries.drop_last()) + block(entries.last())
    }
}

/// The text that holds `entries`.
pub open spec fn saved(entries: Seq<EntryView>) -> Seq<char> {
    ";\n"@ + blocks(entries)
}

/// `line` without one space at its end, if it has one.
pub open spec fn without_final_space(line: Seq<char>) -> Seq<char> {
    if ends_with(line, " "@) {
        line.drop_last()
    } else {
        line
    }
}

/// How far reading a saved text has come.
pub struct Loading {
    /// The entries of the blocks that were closed.
    pub entries: Seq<EntryView>,
    /// Whether the next line is a hash: the line before was a delimiter.
    pub expects_hash: bool,
    /// The hash that was read last.
    pub hash: Seq<char>,
    /// The dependency lines since the last delimiter, each with a line feed.
    pub deps: Seq<char>,
}

/// The state in which reading begins.
pub open spec fn loading_start() -> Loading {
    Loading { entries: Seq::empty(), expects_hash: false, hash: Seq::empty(), deps: Seq::empty() }
}

/// Reading `line` after `state`. A delimiter closes the block: the dependency lines
/// since the last delimiter, if there are any, are stored for the hash read last. The line
/// after a delimiter is a hash. Any other line is a dependency line: it is kept without
/// one space at its end and with a line feed after it.
pub open spec fn load_line(state: Loading, line: Seq<char>) -> Loading {
    if line == delimiter() {
        Loading {
            entries: if state.deps.len() > 0 {
                upsert(state.entries, state.hash, state.deps)
            } else {
                state.entries
            },
            expects_hash: true,
            hash: state.hash,
            deps: Seq::empty(),
        }
    } else if state.expects_hash {
        Loading { hash: line, expects_hash: false, ..state }
    } else {
        Loading { deps: state.deps + without_final_space(line) + "\n"@, ..state }
    }
}

/// Reading `lines` in order after `state`.
pub open spec fn load_lines(state: Loading, lines: Seq<Seq<char>>) -> Loading
    decreases lines.len(),
{
    if lines.len() == 0 {
        state
    } else {
        load_line(load_lines(state, lines.drop_last()), lines.last())
    }
}

/// The entries that the saved text `text` holds. A block that the text does not close
/// is left out.
pub open spec fn loaded(text: Seq<char>) -> Seq<EntryView> {
    load_lines(loading_start(), lines(text)).entries
}

/// Writes `commit_deps` as text.
pub fn save_deps(commit_deps: &CommitDependencyMap) -> (r: String)
    ensures
        r@ == saved(commit_deps@),
{
    let entries = commit_deps.entries();
    let ghost all = commit_deps@;
    let mut out = String::new();
    out.append(";\n");
    let mut i: usize = 0;
    proof {
        assert(all.take(0) =~= Seq::<EntryView>::empty());
        assert(out@ =~= ";\n"@ + blocks(all.take(0)));
    }
    while i < entries.len()
        invariant
            i <= entries.len(),
            all == commit_deps@,
            entries@.map_values(|e: (String, String)| (e.0@, e.1@)) == all,
            out@ == ";\n"@ + blocks(all.take(i as int)),
        decreases entries.len() - i,
    {
        let hash = entries[i].0.as_str();
        let deps = entries[i].1.as_str();
        let closed = has_suffix(&chars_of(deps), "\n");
        let ghost before = out@;
        out.append(hash);
        out.append("\n");
        out.append(deps);
        if !closed {
            out.append("\n");
        }
        out.append(";\n");
        proof {
            assert(all.take(i + 1).drop_last() =~= all.take(i as int));
            assert(all.take(i + 1).last() == (hash@, deps@));
            assert(out@ =~= before + block((hash@, deps@)));
            assert(";\n"@ + blocks(all.take(i + 1)) =~= (";\n"@ + blocks(all.take(i as int)))
                + block((hash@, deps@)));
        }
        i += 1;
    }
    assert(all.take(i as int) =~= all);
    out
}

/// Reads the saved text `text`.
pub fn load_deps(text: &str) -> (r: CommitDependencyMap)
    ensures
        r.wf(),
        r@ == loaded(text@),
{
    let content = chars_of(text);
    let text_lines = split_lines(&content);
    let ghost all = views(text_lines@);
    let mut deps = CommitDependencyMap::new();
    let mut expects_hash = false;
    let mut hash: Vec<char> = Vec::new();
    let mut dep_lines: Vec<char> = Vec::new();
    let mut i: usize = 0;
    proof {
        assert(all.take(0) =~= Seq::<Seq<char>>::empty());
        reveal_strlit("\n");
        reveal_strlit(" ");
    }
    while i < text_lines.len()
        invariant
            i <= text_lines.len(),
            all == views(text_lines@),
            all == lines(text@),
            deps.wf(),
            load_lines(loading_start(), all.take(i as int)) == (Loading {
                entries: deps@,
                expects_hash,
                hash: hash@,
                deps: dep_lines@,
            }),
            "\n"@ == seq!['\n'],
            " "@ == seq![' '],
        decreases text_lines.len() - i,
    {
        let line = &text_lines[i];
        proof {
            assert(all.take(i + 1).drop_last() =~= all.take(i as int));
            assert(all.take(i + 1).last() == line@);
        }
        if equals_str(line, ";") {
            if dep_lines.len() > 0 {
                deps.insert(string_of(&hash), string_of(&dep_lines));
                dep_lines = Vec::new();
            }
            expects_hash = true;
            assert(dep_lines@ =~= Seq::<char>::empty());
        } else if expects_hash {
            hash = slice_of(line, 0, line.len());
            assert(hash@ =~= line@);
            expects_hash = false;
        } else {
            let n = line.len();
            let end: usize = if n > 0 && line[n - 1] == ' ' {
                n - 1
            } else {
                n
            };
            proof {
                if n > 0 {
                    assert(line@.skip(n - 1) =~= seq![line@[n - 1]]);
                    assert(seq![line@[n - 1]][0] == line@[n - 1]);
                }
                assert(line@.subrange(0, end as int) =~= without_final_space(line@));
            }
            let ghost before = dep_lines@;
            let mut k: usize = 0;
            while k < end
                invariant
                    k <= end <= line.len(),
                    dep_lines@ == before + line@.subrange(0, k as int),
                decreases end - k,
            {
                dep_lines.push(line[k]);
                assert(line@.subrange(0, k + 1) =~= line@.subrange(0, k as int).push(
                    line@[k as int],
                ));
                assert(before + line@.subrange(0, k as int).push(line@[k as int]) =~= (before
                    + line@.subrange(0, k as int)).push(line@[k as int]));
                k += 1;
            }
            dep_lines.push('\n');
            assert(dep_lines@ =~= before + without_final_space(line@) + "\n"@);
        }
        i += 1;
    }
    assert(all.take(i as int) =~= all);
    deps
}

/// The lines of `deps` as they are written: what stands between the line feeds of
/// `with_final_newline(deps)`.
pub open spec fn written_lines(deps: Seq<char>) -> Seq<Seq<char>> {
    split(with_final_newline(deps).drop_last(), '\n')
}

/// A line that is read back as it was written: no delimiter, and neither a space nor a
/// carriage return at its end.
pub open spec fn is_plain_line(line: Seq<char>) -> bool {
    line != delimiter() && !ends_with(line, " "@) && !ends_with(line, "\r"@)
}

/// An entry that is read back as it was written: its hash is one line, no delimiter and
/// without carriage return at its end, and its dependency lines are plain.
pub open spec fn is_plain_entry(entry: EntryView) -> bool {
    &&& forall|i: int| 0 <= i < entry.0.len() ==> entry.0[i] != '\n'
    &&& entry.0 != delimiter()
    &&& !ends_with(entry.0, "\r"@)
    &&& forall|k: int|
        0 <= k < written_lines(entry.1).len() ==> is_plain_line(#[trigger] written_lines(entry.1)[k])
}

/// `entries` as they are read back: each text with its final line feed.
pub open spec fn as_written(entries: Seq<EntryView>) -> Seq<EntryView> {
    entries.map_values(|e: EntryView| (e.0, with_final_newline(e.1)))
}

/// The lines of the block of `entry`.
pub open spec fn block_lines(entry: EntryView) -> Seq<Seq<char>> {
    seq![entry.0] + written_lines(entry.1) + seq![delimiter()]
}

/// The lines of the blocks of `entries`.
pub open spec fn all_block_lines(entries: Seq<EntryView>) -> Seq<Seq<char>>
    decreases entries.len(),
{
    if entries.len() == 0 {
        Seq::empty()
    } else {
        all_block_lines(entries.drop_last()) + block_lines(entries.last())
    }
}

/// `lines`, each followed by a line feed, as one text.
pub open spec fn joined(lines: Seq<Seq<char>>) -> Seq<char>
    decreases lines.len(),
{
    if lines.len() == 0 {
        Seq::empty()
    } else {
        joined(lines.drop_last()) + lines.last() + seq!['\n']
    }
}

proof fn lemma_literals()
    ensures
        "\n"@ == seq!['\n'],
        ";"@ == seq![';'],
        ";\n"@ == seq![';', '\n'],
        " "@ == seq![' '],
        "\r"@ == seq!['\r'],
{
    reveal_strlit("\n");
    reveal_strlit(";");
    reveal_strlit(";\n");
    reveal_strlit(" ");
    reveal_strlit("\r");
    assert("\n"@ =~= seq!['\n']);
    assert(";"@ =~= seq![';']);
    assert(";\n"@ =~= seq![';', '\n']);
    assert(" "@ =~= seq![' ']);
    assert("\r"@ =~= seq!['\r']);
}

/// What is written for a text ends with a line feed.
pub proof fn lemma_final_newline(deps: Seq<char>)
    ensures
        with_final_newline(deps).len() > 0,
        with_final_newline(deps).last() == '\n',
        with_final_newline(deps) == with_final_newline(deps).drop_last() + seq!['\n'],
{
    lemma_literals();
    let nd = with_final_newline(deps);
    if ends_with(deps, "\n"@) {
        assert(deps.skip(deps.len() - 1)[0] == '\n');
    }
    assert(nd =~= nd.drop_last() + seq!['\n']);
}

proof fn lemma_joined_one(line: Seq<char>)
    ensures
        joined(seq![line]) == line + seq!['\n'],
{
    reveal_with_fuel(joined, 2);
    assert(seq![line].drop_last() =~= Seq::<Seq<char>>::empty());
    assert(joined(seq![line]) =~= line + seq!['\n']);
}

proof fn lemma_load_one(state: Loading, line: Seq<char>)
    ensures
        load_lines(state, seq![line]) == load_line(state, line),
{
    reveal_with_fuel(load_lines, 2);
    assert(seq![line].drop_last() =~= Seq::<Seq<char>>::empty());
}

proof fn lemma_joined_concat(a: Seq<Seq<char>>, b: Seq<Seq<char>>)
    ensures
        joined(a + b) == joined(a) + joined(b),
    decreases b.len(),
{
    if b.len() == 0 {
        assert(a + b =~= a);
        assert(joined(a) + joined(b) =~= joined(a));
    } else {
        assert((a + b).drop_last() =~= a + b.drop_last());
        assert((a + b).last() == b.last());
        lemma_joined_concat(a, b.drop_last());
        assert(joined(a) + joined(b.drop_last()) + b.last() + seq!['\n'] =~= joined(a) + (joined(
            b.drop_last(),
        ) + b.last() + seq!['\n']));
    }
}

/// Joining the pieces of a text gives the text and a line feed.
proof fn lemma_joined_split(body: Seq<char>)
    ensures
        joined(split(body, '\n')) == body + seq!['\n'],
    decreases body.len(),
{
    let i = crate::text::first_index_of(body, '\n');
    crate::text::lemma_first_index_of_props(body, '\n');
    if 0 <= i < body.len() {
        let head = body.take(i);
        let tail = body.skip(i + 1);
        lemma_joined_split(tail);
        lemma_joined_concat(seq![head], split(tail, '\n'));
        lemma_joined_one(head);
        assert(body + seq!['\n'] =~= head + seq!['\n'] + (tail + seq!['\n']));
    } else {
        lemma_joined_one(body);
    }
}

proof fn lemma_load_lines_concat(state: Loading, a: Seq<Seq<char>>, b: Seq<Seq<char>>)
    ensures
        load_lines(state, a + b) == load_lines(load_lines(state, a), b),
    decreases b.len(),
{
    if b.len() == 0 {
        assert(a + b =~= a);
    } else {
        assert((a + b).drop_last() =~= a + b.drop_last());
        assert((a + b).last() == b.last());
        lemma_load_lines_concat(state, a, b.drop_last());
    }
}

/// Plain lines inside a block are gathered as they are.
proof fn lemma_load_plain_lines(state: Loading, plain: Seq<Seq<char>>)
    requires
        !state.expects_hash,
        forall|k: int| 0 <= k < plain.len() ==> is_plain_line(#[trigger] plain[k]),
    ensures
        load_lines(state, plain) == (Loading { deps: state.deps + joined(plain), ..state }),
    decreases plain.len(),
{
    lemma_literals();
    if plain.len() == 0 {
        assert(state.deps + joined(plain) =~= state.deps);
    } else {
        let front = plain.drop_last();
        assert forall|k: int| 0 <= k < front.len() implies is_plain_line(#[trigger] front[k]) by {
            assert(front[k] == plain[k]);
        }
        lemma_load_plain_lines(state, front);
        assert(is_plain_line(plain[plain.len() - 1]));
        assert(state.deps + joined(front) + plain.last() + seq!['\n'] =~= state.deps + (joined(
            front,
        ) + plain.last() + seq!['\n']));
    }
}

/// The pieces of a text that ends with a line feed, after a block was added to it.
proof fn lemma_split_with_block(text: Seq<char>, entry: EntryView)
    requires
        text.len() > 0,
        text.last() == '\n',
        forall|i: int| 0 <= i < entry.0.len() ==> entry.0[i] != '\n',
    ensures
        split(text, '\n').last() == Seq::<char>::empty(),
        split(text + block(entry), '\n') == split(text, '\n').drop_last() + block_lines(entry)
            + seq![Seq::<char>::empty()],
{
    lemma_literals();
    lemma_final_newline(entry.1);
    let nl = seq!['\n'];
    let none = Seq::<char>::empty();
    let p = text.drop_last();
    let body = with_final_newline(entry.1).drop_last();
    assert(split(none, '\n') == seq![none]);
    // the text itself
    assert(text =~= p + nl + none);
    lemma_split_concat(p, '\n', none);
    assert((split(p, '\n') + seq![none]).drop_last() =~= split(p, '\n'));
    // the delimiter line
    assert(";\n"@ =~= ";"@ + nl + none);
    lemma_split_concat(";"@, '\n', none);
    lemma_split_none(";"@, '\n');
    // the dependency lines
    let after_body = ";\n"@;
    lemma_split_concat(body, '\n', after_body);
    // the hash line
    let after_hash = body + nl + after_body;
    lemma_split_concat(entry.0, '\n', after_hash);
    lemma_split_none(entry.0, '\n');
    assert(block(entry) =~= entry.0 + nl + after_hash);
    // both together
    assert(text + block(entry) =~= p + nl + block(entry));
    lemma_split_concat(p, '\n', block(entry));
    assert(split(p, '\n') + (seq![entry.0] + (split(body, '\n') + (seq![";"@] + seq![none])))
        =~= split(p, '\n') + (seq![entry.0] + split(body, '\n') + seq![delimiter()]) + seq![
        none,
    ]);
}

/// The pieces of a saved text: a delimiter, the lines of the blocks, and nothing after
/// the last line feed.
proof fn lemma_split_saved(entries: Seq<EntryView>)
    requires
        forall|i: int| 0 <= i < entries.len() ==> is_plain_entry(#[trigger] entries[i]),
    ensures
        saved(entries).len() > 0,
        saved(entries).last() == '\n',
        split(saved(entries), '\n') == seq![delimiter()] + all_block_lines(entries) + seq![
            Seq::<char>::empty(),
        ],
    decreases entries.len(),
{
    lemma_literals();
    let none = Seq::<char>::empty();
    if entries.len() == 0 {
        assert(saved(entries) =~= ";"@ + seq!['\n'] + none);
        lemma_split_concat(";"@, '\n', none);
        lemma_split_none(";"@, '\n');
        assert(split(none, '\n') == seq![none]);
        assert(seq![delimiter()] + all_block_lines(entries) + seq![none] =~= seq![";"@] + seq![
            none,
        ]);
    } else {
        let front = entries.drop_last();
        assert forall|i: int| 0 <= i < front.len() implies is_plain_entry(#[trigger] front[i]) by {
            assert(front[i] == entries[i]);
        }
        lemma_split_saved(front);
        assert(is_plain_entry(entries[entries.len() - 1]));
        assert(saved(entries) =~= saved(front) + block(entries.last()));
        lemma_split_with_block(saved(front), entries.last());
        let before = seq![delimiter()] + all_block_lines(front);
        assert((before + seq![none]).drop_last() =~= before);
        assert(before + block_lines(entries.last()) + seq![none] =~= seq![delimiter()]
            + all_block_lines(entries) + seq![none]);
    }
}

/// No line of the blocks of plain entries ends with a carriage return.
proof fn lemma_block_lines_keep(entries: Seq<EntryView>)
    requires
        forall|i: int| 0 <= i < entries.len() ==> is_plain_entry(#[trigger] entries[i]),
    ensures
        forall|k: int|
            0 <= k < all_block_lines(entries).len() ==> strip_cr(
                #[trigger] all_block_lines(entries)[k],
            ) == all_block_lines(entries)[k],
    decreases entries.len(),
{
    lemma_literals();
    if entries.len() > 0 {
        let front = entries.drop_last();
        let e = entries.last();
        assert forall|i: int| 0 <= i < front.len() implies is_plain_entry(#[trigger] front[i]) by {
            assert(front[i] == entries[i]);
        }
        lemma_block_lines_keep(front);
        assert(is_plain_entry(entries[entries.len() - 1]));
        let all = all_block_lines(entries);
        let n = all_block_lines(front).len();
        let w = written_lines(e.1);
        assert forall|k: int| 0 <= k < all.len() implies strip_cr(#[trigger] all[k]) == all[k] by {
            let line = all[k];
            if k < n {
                assert(line == all_block_lines(front)[k]);
            } else if k == n {
                assert(line == e.0);
                lemma_no_cr(line);
            } else if k < n + 1 + w.len() {
                assert(line == w[k - n - 1]);
                assert(is_plain_line(w[k - n - 1]));
                lemma_no_cr(line);
            } else {
                assert(line == delimiter());
            }
        }
    }
}

proof fn lemma_no_cr(line: Seq<char>)
    requires
        !ends_with(line, "\r"@),
    ensures
        strip_cr(line) == line,
{
    lemma_literals();
    if line.len() > 0 && line.last() == '\r' {
        assert(line.skip(line.len() - 1) =~= seq!['\r']);
    }
}

/// Reading the lines of a saved text gives the entries as they were written, and ends
/// after a delimiter.
proof fn lemma_load_block_lines(entries: Seq<EntryView>)
    requires
        distinct_keys(entries),
        forall|i: int| 0 <= i < entries.len() ==> is_plain_entry(#[trigger] entries[i]),
    ensures
        load_lines(loading_start(), seq![delimiter()] + all_block_lines(entries)).entries
            == as_written(entries),
        load_lines(loading_start(), seq![delimiter()] + all_block_lines(entries)).expects_hash,
        load_lines(loading_start(), seq![delimiter()] + all_block_lines(entries)).deps.len() == 0,
    decreases entries.len(),
{
    lemma_literals();
    let first = seq![delimiter()];
    if entries.len() == 0 {
        assert(first + all_block_lines(entries) =~= first);
        lemma_load_one(loading_start(), delimiter());
        assert(as_written(entries) =~= Seq::<EntryView>::empty());
    } else {
        let front = entries.drop_last();
        let e = entries.last();
        assert forall|i: int| 0 <= i < front.len() implies is_plain_entry(#[trigger] front[i]) by {
            assert(front[i] == entries[i]);
        }
        assert(distinct_keys(front)) by {
            assert forall|i: int, j: int|
                0 <= i < front.len() && 0 <= j < front.len() && (#[trigger] front[i]).0 == (
                #[trigger] front[j]).0 implies i == j by {
                assert(front[i] == entries[i]);
                assert(front[j] == entries[j]);
            }
        }
        lemma_load_block_lines(front);
        assert(is_plain_entry(entries[entries.len() - 1]));
        let before = load_lines(loading_start(), first + all_block_lines(front));
        assert(first + all_block_lines(entries) =~= (first + all_block_lines(front)) + block_lines(
            e,
        ));
        lemma_load_lines_concat(loading_start(), first + all_block_lines(front), block_lines(e));
        // the hash line
        let w = written_lines(e.1);
        let at_hash = load_lines(before, seq![e.0]);
        lemma_load_one(before, e.0);
        assert(at_hash == (Loading { hash: e.0, expects_hash: false, ..before }));
        // the dependency lines
        lemma_load_lines_concat(before, seq![e.0], w);
        lemma_load_plain_lines(at_hash, w);
        lemma_final_newline(e.1);
        lemma_joined_split(with_final_newline(e.1).drop_last());
        let at_deps = load_lines(before, seq![e.0] + w);
        assert(at_deps.deps =~= with_final_newline(e.1));
        // the delimiter
        lemma_load_lines_concat(before, seq![e.0] + w, seq![delimiter()]);
        lemma_load_one(at_deps, delimiter());
        let closed = load_lines(before, block_lines(e));
        assert(closed == load_line(at_deps, delimiter()));
        assert(!has_key(as_written(front), e.0)) by {
            if has_key(as_written(front), e.0) {
                let i = choose|i: int|
                    0 <= i < as_written(front).len() && (#[trigger] as_written(front)[i]).0 == e.0;
                assert(entries[i].0 == entries[entries.len() - 1].0);
            }
        }
        assert(closed.entries =~= as_written(entries));
    }
}

/// A dependency map that is saved and loaded again comes back with the same hashes in
/// the same order, each with its dependency text as it was written: ended by a line feed.
/// This holds where the entries are plain and no hash has two of them.
pub proof fn lemma_save_then_load(entries: Seq<EntryView>)
    requires
        distinct_keys(entries),
        forall|i: int| 0 <= i < entries.len() ==> is_plain_entry(#[trigger] entries[i]),
    ensures
        loaded(saved(entries)) == as_written(entries),
{
    let none = Seq::<char>::empty();
    let kept = seq![delimiter()] + all_block_lines(entries);
    lemma_literals();
    lemma_split_saved(entries);
    lemma_block_lines_keep(entries);
    lemma_load_block_lines(entries);
    let parts = split(saved(entries), '\n');
    assert(parts.drop_last() =~= kept);
    assert(parts.last() == none);
    assert forall|k: int| 0 <= k < kept.len() implies strip_cr(#[trigger] kept[k]) == kept[k] by {
        if k > 0 {
            assert(kept[k] == all_block_lines(entries)[k - 1]);
        }
    }
    assert(kept.map_values(|l: Seq<char>| strip_cr(l)) =~= kept);
    assert(lines(saved(entries)) == kept);
}

/// The last piece of a text that does not end with the separator ends as the text does.
proof fn lemma_split_last(s: Seq<char>, sep: char)
    requires
        s.len() > 0,
        s.last() != sep,
    ensures
        split(s, sep).last().len() > 0,
        split(s, sep).last().last() == s.last(),
    decreases s.len(),
{
    let i = crate::text::first_index_of(s, sep);
    crate::text::lemma_first_index_of_props(s, sep);
    if 0 <= i < s.len() {
        let rest = s.skip(i + 1);
        assert(rest.len() > 0);
        assert(rest.last() == s.last());
        lemma_split_last(rest, sep);
    }
}

/// The final line feed that is written with a text adds no line and changes none, where
/// the text is not empty and does not end with a carriage return.
pub proof fn lemma_final_newline_keeps_lines(deps: Seq<char>)
    requires
        deps.len() > 0,
        !ends_with(deps, "\r"@),
    ensures
        lines(with_final_newline(deps)) == lines(deps),
{
    lemma_literals();
    let none = Seq::<char>::empty();
    if !ends_with(deps, "\n"@) {
        if deps.last() == '\n' {
            assert(deps.skip(deps.len() - 1) =~= seq!['\n']);
        }
        if deps.last() == '\r' {
            assert(deps.skip(deps.len() - 1) =~= seq!['\r']);
        }
        assert(with_final_newline(deps) =~= deps + seq!['\n'] + none);
        lemma_split_concat(deps, '\n', none);
        assert(split(none, '\n') == seq![none]);
        lemma_split_last(deps, '\n');
        let parts = split(deps, '\n');
        assert((parts + seq![none]).drop_last() =~= parts);
        assert(strip_cr(parts.last()) == parts.last());
        assert(parts.map_values(|l: Seq<char>| strip_cr(l)) =~= parts.drop_last().map_values(
            |l: Seq<char>| strip_cr(l),
        ).push(parts.last()));
    }
}

/// Round trip: a dependency map that is saved and loaded again has the same hashes, and
/// every hash has the same dependency lines as before. This holds where the entries are
/// plain and no hash has two of them; an entry without any dependency text comes back
/// with one empty line, and is left out here.
pub proof fn lemma_round_trip_keeps_lines(entries: Seq<EntryView>, i: int)
    requires
        distinct_keys(entries),
        forall|k: int| 0 <= k < entries.len() ==> is_plain_entry(#[trigger] entries[k]),
        0 <= i < entries.len(),
        entries[i].1.len() > 0,
    ensures
        loaded(saved(entries)).len() == entries.len(),
        loaded(saved(entries))[i].0 == entries[i].0,
        lines(loaded(saved(entries))[i].1) == lines(entries[i].1),
{
    lemma_literals();
    lemma_save_then_load(entries);
    let deps = entries[i].1;
    assert(is_plain_entry(entries[i]));
    if deps.last() == '\r' {
        assert(!ends_with(deps, "\n"@)) by {
            if ends_with(deps, "\n"@) {
                assert(deps.skip(deps.len() - 1)[0] == '\n');
            }
        }
        let body = with_final_newline(deps).drop_last();
        assert(body =~= deps);
        lemma_split_last(deps, '\n');
        let pieces = written_lines(deps);
        let piece = pieces[pieces.len() - 1];
        assert(is_plain_line(piece));
        assert(piece.skip(piece.len() - 1) =~= seq!['\r']);
    }
    assert(!ends_with(deps, "\r"@)) by {
        if ends_with(deps, "\r"@) {
            assert(deps.skip(deps.len() - 1)[0] == '\r');
        }
    }
    lemma_final_newline_keeps_lines(deps);
}

} // verus!
