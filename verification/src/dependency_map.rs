//! The dependency listing of every commit: a map from a commit's hash to the text that
//! names the objects it introduces, kept in the order in which the hashes came.

use vstd::hash_map::StringHashMap;
use vstd::prelude::*;

verus! {

/// One entry: a commit's hash and its dependency text.
pub type EntryView = (Seq<char>, Seq<char>);

/// Whether `entries` has an entry for `hash`.
pub open spec fn has_key(entries: Seq<EntryView>, hash: Seq<char>) -> bool {
    exists|i: int| 0 <= i < entries.len() && (#[trigger] entries[i]).0 == hash
}

/// Position of an entry for `hash`. It is the only one where no hash occurs twice.
pub open spec fn position_of(entries: Seq<EntryView>, hash: Seq<char>) -> int {
    choose|i: int| 0 <= i < entries.len() && (#[trigger] entries[i]).0 == hash
}

/// Whether no hash has two entries.
pub open spec fn distinct_keys(entries: Seq<EntryView>) -> bool {
    forall|i: int, j: int|
        0 <= i < entries.len() && 0 <= j < entries.len() && (#[trigger] entries[i]).0 == (
        #[trigger] entries[j]).0 ==> i == j
}

/// `entries` after `deps` was stored for `hash`: in place of the text that `hash` had, or
/// else as a new last entry.
pub open spec fn upsert(entries: Seq<EntryView>, hash: Seq<char>, deps: Seq<char>) -> Seq<
    EntryView,
> {
    if has_key(entries, hash) {
        entries.update(position_of(entries, hash), (hash, deps))
    } else {
        entries.push((hash, deps))
    }
}

/// The text stored for `hash`, if there is one.
pub open spec fn text_of(entries: Seq<EntryView>, hash: Seq<char>) -> Option<Seq<char>> {
    if has_key(entries, hash) {
        Some(entries[position_of(entries, hash)].1)
    } else {
        None
    }
}

/// Storing a text keeps the hashes distinct.
pub proof fn lemma_upsert_distinct(entries: Seq<EntryView>, hash: Seq<char>, deps: Seq<char>)
    requires
        distinct_keys(entries),
    ensures
        distinct_keys(upsert(entries, hash, deps)),
        text_of(upsert(entries, hash, deps), hash) == Some(deps),
        forall|other: Seq<char>|
            other != hash ==> text_of(upsert(entries, hash, deps), other) == text_of(
                entries,
                other,
            ),
{
    let after = upsert(entries, hash, deps);
    if has_key(entries, hash) {
        let p = position_of(entries, hash);
        assert forall|i: int, j: int|
            0 <= i < after.len() && 0 <= j < after.len() && (#[trigger] after[i]).0 == (
            #[trigger] after[j]).0 implies i == j by {
            assert(after[i].0 == entries[i].0);
            assert(after[j].0 == entries[j].0);
        }
        assert(after[p].0 == hash);
        assert(has_key(after, hash));
        let q = position_of(after, hash);
        assert(after[q].0 == after[p].0);
        assert forall|other: Seq<char>| other != hash implies text_of(after, other) == text_of(
            entries,
            other,
        ) by {
            if has_key(entries, other) {
                let a = position_of(entries, other);
                assert(after[a].0 == other);
                let b = position_of(after, other);
                assert(after[b].0 == after[a].0);
            } else if has_key(after, other) {
                let b = position_of(after, other);
                assert(entries[b].0 == other);
            }
        }
    } else {
        let n = entries.len() as int;
        assert forall|i: int, j: int|
            0 <= i < after.len() && 0 <= j < after.len() && (#[trigger] after[i]).0 == (
            #[trigger] after[j]).0 implies i == j by {
            if i < n {
                assert(after[i] == entries[i]);
            }
            if j < n {
                assert(after[j] == entries[j]);
            }
        }
        assert(after[n].0 == hash);
        assert(has_key(after, hash));
        let q = position_of(after, hash);
        assert(after[q].0 == after[n].0);
        assert forall|other: Seq<char>| other != hash implies text_of(after, other) == text_of(
            entries,
            other,
        ) by {
            if has_key(entries, other) {
                let a = position_of(entries, other);
                assert(after[a] == entries[a]);
                let b = position_of(after, other);
                assert(after[b].0 == after[a].0);
            } else if has_key(after, other) {
                let b = position_of(after, other);
                assert(after[b] == entries[b]);
            }
        }
    }
}

pub struct CommitDependencyMap {
    entries: Vec<(String, String)>,
    positions: StringHashMap<usize>,
}

impl View for CommitDependencyMap {
    type V = Seq<EntryView>;

    closed spec fn view(&self) -> Seq<EntryView> {
        self.entries@.map_values(|e: (String, String)| (e.0@, e.1@))
    }
}

impl CommitDependencyMap {
    /// The invariant: the positions that the lookup holds are those of the entries.
    pub closed spec fn wf(&self) -> bool {
        &&& forall|i: int|
            0 <= i < self@.len() ==> self.positions@.contains_key((#[trigger] self@[i]).0)
                && self.positions@[self@[i].0] == i
        &&& forall|k: Seq<char>| #[trigger]
            self.positions@.contains_key(k) ==> self.positions@[k] < self@.len()
                && self@[self.positions@[k] as int].0 == k
    }

    /// In a well-formed map no hash has two entries.
    pub proof fn lemma_distinct(&self)
        requires
            self.wf(),
        ensures
            distinct_keys(self@),
    {
    }

    /// The map without entries.
    pub fn new() -> (r: Self)
        ensures
            r.wf(),
            r@ == Seq::<EntryView>::empty(),
    {
        let r = CommitDependencyMap { entries: Vec::new(), positions: StringHashMap::new() };
        assert(r@ =~= Seq::<EntryView>::empty());
        r
    }

    /// The number of entries.
    pub fn len(&self) -> (r: usize)
        ensures
            r == self@.len(),
    {
        self.entries.len()
    }

    /// The entries in their order.
    pub fn entries(&self) -> (r: &Vec<(String, String)>)
        ensures
            r@.map_values(|e: (String, String)| (e.0@, e.1@)) == self@,
    {
        &self.entries
    }

    /// The text stored for `hash`.
    pub fn get(&self, hash: &str) -> (r: Option<&String>)
        requires
            self.wf(),
        ensures
            match r {
                Some(deps) => text_of(self@, hash@) == Some(deps@),
                None => text_of(self@, hash@) is None,
            },
    {
        match self.positions.get(hash) {
            Some(p) => {
                proof {
                    self.lemma_distinct();
                    assert(self@[*p as int].0 == hash@);
                    let q = position_of(self@, hash@);
                    assert(self@[q].0 == self@[*p as int].0);
                }
                Some(&self.entries[*p].1)
            },
            None => {
                proof {
                    if has_key(self@, hash@) {
                        let q = position_of(self@, hash@);
                        assert(self.positions@.contains_key(self@[q].0));
                    }
                }
                None
            },
        }
    }

    /// Stores `deps` for `hash`; a text that `hash` had before is replaced.
    pub fn insert(&mut self, hash: String, deps: String)
        requires
            old(self).wf(),
        ensures
            final(self).wf(),
            final(self)@ == upsert(old(self)@, hash@, deps@),
    {
        let found = match self.positions.get(hash.as_str()) {
            Some(p) => Some(*p),
            None => None,
        };
        match found {
            Some(p) => {
                proof {
                    self.lemma_distinct();
                    assert(self@[p as int].0 == hash@);
                    let q = position_of(self@, hash@);
                    assert(self@[q].0 == self@[p as int].0);
                }
                let ghost before = self@;
                self.entries.set(p, (hash, deps));
                assert(self@ =~= before.update(p as int, (hash@, deps@)));
                assert forall|i: int| 0 <= i < self@.len() implies self.positions@.contains_key(
                    (#[trigger] self@[i]).0,
                ) && self.positions@[self@[i].0] == i by {
                    assert(self@[i].0 == before[i].0);
                }
            },
            None => {
                proof {
                    if has_key(self@, hash@) {
                        let q = position_of(self@, hash@);
                        assert(self.positions@.contains_key(self@[q].0));
                    }
                }
                let ghost before = self@;
                let n = self.entries.len();
                self.positions.insert(hash.clone(), n);
                self.entries.push((hash, deps));
                assert(self@ =~= before.push((hash@, deps@)));
                assert forall|i: int| 0 <= i < self@.len() implies self.positions@.contains_key(
                    (#[trigger] self@[i]).0,
                ) && self.positions@[self@[i].0] == i by {
                    if i < n {
                        assert(self@[i] == before[i]);
                    }
                }
            },
        }
    }
}

} // verus!
