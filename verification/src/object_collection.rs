//! Append-only stores of records, one per kind of object, each with a lookup from an
//! object's hash to the record's index.

use crate::blob::{Blob, BlobView};
use crate::commit::{Commit, CommitView};
use crate::tag::{Tag, TagView};
use crate::text::string_views;
use crate::tree::{Tree, TreeView};
use vstd::hash_map::StringHashMap;
use vstd::prelude::*;

verus! {

/// What every record of a store has: an index, which is its position in the store.
///
/// An implementation says in `record_index` and `reindexed` what its two methods do, so
/// that a store can say what it holds.
pub trait Properties: Sized {
    /// The record's index.
    spec fn record_index(&self) -> usize;

    /// The record with `index` in place of its index and nothing else changed.
    spec fn reindexed(self, index: usize) -> Self;

    fn hash_index(&self) -> (r: &usize)
        ensures
            *r == self.record_index(),
    ;

    fn set_index(&mut self, index: usize)
        ensures
            *final(self) == old(self).reindexed(index),
            final(self).record_index() == index,
    ;
}

/// The lookup that inserting `hashes` one after the other builds: each hash leads to the
/// position of its last occurrence.
pub open spec fn index_map(hashes: Seq<Seq<char>>) -> Map<Seq<char>, usize>
    decreases hashes.len(),
{
    if hashes.len() == 0 {
        Map::empty()
    } else {
        index_map(hashes.drop_last()).insert(hashes.last(), (hashes.len() - 1) as usize)
    }
}

/// The index that `hashes` gives for `h`, if `h` is among them.
pub open spec fn lookup_hash(hashes: Seq<Seq<char>>, h: Seq<char>) -> Option<usize> {
    if index_map(hashes).contains_key(h) {
        Some(index_map(hashes)[h])
    } else {
        None
    }
}

/// A hash is found exactly if it occurs, and the index found holds that hash.
pub proof fn lemma_index_map_sound(hashes: Seq<Seq<char>>, h: Seq<char>)
    requires
        hashes.len() <= usize::MAX,
    ensures
        index_map(hashes).contains_key(h) <==> hashes.contains(h),
        index_map(hashes).contains_key(h) ==> index_map(hashes)[h] < hashes.len()
            && hashes[index_map(hashes)[h] as int] == h,
        forall|j: int|
            index_map(hashes).contains_key(h) && index_map(hashes)[h] < j < hashes.len()
                ==> hashes[j] != h,
    decreases hashes.len(),
{
    if hashes.len() > 0 {
        let front = hashes.drop_last();
        lemma_index_map_sound(front, h);
        if hashes.last() == h {
            assert(hashes[hashes.len() - 1] == h);
        } else {
            if front.contains(h) {
                let j = choose|j: int| 0 <= j < front.len() && front[j] == h;
                assert(hashes[j] == h);
            }
            if hashes.contains(h) {
                let j = choose|j: int| 0 <= j < hashes.len() && hashes[j] == h;
                assert(front[j] == h);
            }
            assert(index_map(hashes).contains_key(h) ==> hashes[index_map(hashes)[h] as int]
                == front[index_map(front)[h] as int]);
            assert forall|j: int|
                index_map(hashes).contains_key(h) && index_map(hashes)[h] < j
                    < hashes.len() implies hashes[j] != h by {
                if j < front.len() {
                    assert(hashes[j] == front[j]);
                }
            }
        }
    }
}

/// Where no hash occurs twice, every hash leads to its own position: the lookup is one to
/// one between the hashes and the indices of the store.
pub proof fn lemma_index_map_bijective(hashes: Seq<Seq<char>>, i: int)
    requires
        hashes.len() <= usize::MAX,
        hashes.no_duplicates(),
        0 <= i < hashes.len(),
    ensures
        lookup_hash(hashes, hashes[i]) == Some(i as usize),
{
    lemma_index_map_sound(hashes, hashes[i]);
    assert(hashes.contains(hashes[i]));
}

/// Inserting other hashes leaves the index of `h` as it was.
pub proof fn lemma_index_map_stable(hashes: Seq<Seq<char>>, later: Seq<Seq<char>>, h: Seq<char>)
    requires
        !later.contains(h),
    ensures
        lookup_hash(hashes + later, h) == lookup_hash(hashes, h),
    decreases later.len(),
{
    if later.len() == 0 {
        assert(hashes + later =~= hashes);
    } else {
        let front = later.drop_last();
        assert((hashes + later).drop_last() =~= hashes + front);
        assert((hashes + later).last() == later.last());
        assert(later[later.len() - 1] != h);
        assert forall|j: int| 0 <= j < front.len() implies front[j] != h by {
            assert(later[j] == front[j]);
        }
        lemma_index_map_stable(hashes, front, h);
    }
}

/// What a store holds: its records and the hash of each, by index.
pub struct StoreView<V> {
    pub records: Seq<V>,
    pub hashes: Seq<Seq<char>>,
}

impl<V> StoreView<V> {
    /// The store without records.
    pub open spec fn empty() -> Self {
        StoreView { records: Seq::empty(), hashes: Seq::empty() }
    }

    /// The index that the store gives for the hash `h`.
    pub open spec fn index_of(self, h: Seq<char>) -> Option<usize> {
        lookup_hash(self.hashes, h)
    }

    /// The store after `record` was inserted under `hash`.
    pub open spec fn push(self, hash: Seq<char>, record: V) -> Self {
        StoreView { records: self.records.push(record), hashes: self.hashes.push(hash) }
    }

    /// The store with `record` in place of the record at `index`.
    pub open spec fn replace(self, index: int, record: V) -> Self {
        StoreView { records: self.records.update(index, record), hashes: self.hashes }
    }
}

pub struct BasicObjectContainer<T> {
    items: Vec<T>,
    hashes: Vec<String>,
    lookup: StringHashMap<usize>,
}

impl<T: Properties + View> View for BasicObjectContainer<T> {
    type V = StoreView<T::V>;

    open spec fn view(&self) -> StoreView<T::V> {
        StoreView { records: self.records().map_values(|r: T| r@), hashes: self.hashes() }
    }
}

impl<T> BasicObjectContainer<T> where T: Properties {
    /// The records, by index.
    pub closed spec fn records(&self) -> Seq<T> {
        self.items@
    }

    /// The hash under which each record was inserted, by index.
    pub closed spec fn hashes(&self) -> Seq<Seq<char>> {
        string_views(self.hashes@)
    }

    /// The lookup is the one that inserting the hashes in order builds.
    pub closed spec fn lookup_agrees(&self) -> bool {
        self.lookup@ == index_map(string_views(self.hashes@))
    }

    /// The store's invariant: one hash per record, each record at the position that its
    /// index names, and a lookup that agrees with the hashes.
    pub open spec fn wf(&self) -> bool {
        &&& self.hashes().len() == self.records().len()
        &&& forall|i: int|
            0 <= i < self.records().len() ==> (#[trigger] self.records()[i]).record_index() == i
        &&& self.lookup_agrees()
    }

    /// The index that the store gives for the hash `h`.
    pub open spec fn index_of(&self, h: Seq<char>) -> Option<usize> {
        lookup_hash(self.hashes(), h)
    }

    /// Every record of a store in which no hash was inserted twice is found under its
    /// hash, at the index that it was given when it was inserted, which is its position.
    pub proof fn lemma_lookup_finds_insertion_index(&self, i: int)
        requires
            self.wf(),
            self.hashes().no_duplicates(),
            0 <= i < self.records().len(),
        ensures
            self.index_of(self.hashes()[i]) == Some(i as usize),
            self.records()[i].record_index() == i,
    {
        self.lemma_len_bounded();
        lemma_index_map_bijective(self.hashes(), i);
    }

    /// A store holds no more records than an index can name.
    pub proof fn lemma_len_bounded(&self)
        ensures
            self.records().len() <= usize::MAX,
    {
        assert(self.items.len() == self.records().len());
    }

    pub fn new() -> (r: Self)
        ensures
            r.wf(),
            r.records() == Seq::<T>::empty(),
            r.hashes() == Seq::<Seq<char>>::empty(),
    {
        let r = BasicObjectContainer {
            items: Vec::new(),
            hashes: Vec::new(),
            lookup: StringHashMap::new(),
        };
        assert(r.hashes() =~= Seq::<Seq<char>>::empty());
        r
    }

    /// Appends `object` under `hash` and gives it the next index of the store, which is
    /// returned. A hash that was inserted before leads to the new record from now on.
    pub fn add(&mut self, hash: &str, object: T) -> (index: usize)
        requires
            old(self).wf(),
        ensures
            final(self).wf(),
            index == old(self).records().len(),
            final(self).records() == old(self).records().push(object.reindexed(index)),
            final(self).hashes() == old(self).hashes().push(hash@),
            final(self).index_of(hash@) == Some(index),
            forall|h: Seq<char>| h != hash@ ==> final(self).index_of(h) == old(self).index_of(h),
    {
        let index: usize = self.items.len();
        let mut object = object;
        object.set_index(index);
        let owned = hash.to_owned();
        proof {
            let before = string_views(self.hashes@);
            let after = string_views(self.hashes@.push(owned));
            assert(after =~= before.push(hash@));
            assert(after.drop_last() =~= before);
        }
        self.items.push(object);
        self.hashes.push(owned);
        self.lookup.insert(hash.to_owned(), index);
        index
    }

    pub fn get_index(&self, hash: &str) -> (r: Option<&usize>)
        requires
            self.wf(),
        ensures
            match r {
                Some(i) => self.index_of(hash@) == Some(*i) && *i < self.records().len()
                    && self.hashes()[*i as int] == hash@,
                None => self.index_of(hash@) is None,
            },
    {
        proof {
            assert(self.hashes.len() == self.hashes().len());
            lemma_index_map_sound(self.hashes(), hash@);
        }
        self.lookup.get(hash)
    }

    pub fn get(&self, hash: &str) -> (r: Option<&T>)
        requires
            self.wf(),
        ensures
            match self.index_of(hash@) {
                Some(i) => i < self.records().len() && r == Some(&self.records()[i as int]),
                None => r is None,
            },
    {
        proof {
            assert(self.hashes.len() == self.hashes().len());
            lemma_index_map_sound(self.hashes(), hash@);
        }
        match self.lookup.get(hash) {
            Some(index) => Some(&self.items[*index]),
            None => None,
        }
    }

    pub fn get_by_index(&self, index: &usize) -> (r: &T)
        requires
            *index < self.records().len(),
        ensures
            *r == self.records()[*index as int],
    {
        &self.items[*index]
    }

    /// The record at `index`, to be changed in place. The store stays well formed as long
    /// as the record keeps its index.
    pub fn get_mut_by_index(&mut self, index: &usize) -> (r: &mut T)
        requires
            *index < old(self).records().len(),
        ensures
            *r == old(self).records()[*index as int],
            final(self).records() == old(self).records().update(*index as int, *final(r)),
            final(self).hashes() == old(self).hashes(),
            old(self).wf() && final(r).record_index() == *index ==> final(self).wf(),
    {
        &mut self.items[*index]
    }

    pub fn count(&self) -> (r: usize)
        ensures
            r == self.records().len(),
    {
        self.items.len()
    }

    /// Every hash that the lookup knows with the index it leads to, by ascending index.
    pub open spec fn hash_pairs(&self) -> Seq<(Seq<char>, usize)> {
        Seq::new(self.hashes().len(), |i: int| (self.hashes()[i], i as usize)).filter(
            |p: (Seq<char>, usize)| self.index_of(p.0) == Some(p.1),
        )
    }

    pub fn object_hash_iter(&self) -> (r: Vec<(String, usize)>)
        requires
            self.wf(),
        ensures
            r@.map_values(|p: (String, usize)| (p.0@, p.1)) == self.hash_pairs(),
    {
        let ghost all = Seq::new(self.hashes().len(), |i: int| (self.hashes()[i], i as usize));
        let ghost live = |p: (Seq<char>, usize)| self.index_of(p.0) == Some(p.1);
        let ghost shape = |p: (String, usize)| (p.0@, p.1);
        let mut out: Vec<(String, usize)> = Vec::new();
        let mut i: usize = 0;
        assert(all.take(0) =~= Seq::empty());
        while i < self.hashes.len()
            invariant
                self.wf(),
                i <= self.hashes.len(),
                all == Seq::new(self.hashes().len(), |i: int| (self.hashes()[i], i as usize)),
                live == |p: (Seq<char>, usize)| self.index_of(p.0) == Some(p.1),
                shape == |p: (String, usize)| (p.0@, p.1),
                out@.map_values(shape) == all.take(i as int).filter(live),
            decreases self.hashes.len() - i,
        {
            let found = self.lookup.get(self.hashes[i].as_str());
            proof {
                lemma_index_map_sound(self.hashes(), self.hashes()[i as int]);
                assert(all.take(i + 1) =~= all.take(i as int).push(all[i as int]));
                all.take(i as int).lemma_filter_push(all[i as int], live);
            }
            if found == Some(&i) {
                let entry = (self.hashes[i].clone(), i);
                assert(out@.push(entry).map_values(shape) =~= out@.map_values(shape).push(
                    all[i as int],
                ));
                out.push(entry);
            }
            i += 1;
        }
        assert(all.take(i as int) =~= all);
        out
    }

    pub fn object_iter(&self) -> (r: &Vec<T>)
        ensures
            r@ == self.records(),
    {
        &self.items
    }

    /// The hash that leads to `index`, if there is one. There is none where `index` is
    /// not in the store, or where the hash of that record was inserted again later.
    pub fn lookup_hash_for_index(&self, index: &usize) -> (r: Option<&String>)
        requires
            self.wf(),
        ensures
            match r {
                Some(h) => *index < self.records().len() && self.hashes()[*index as int] == h@
                    && self.index_of(h@) == Some(*index),
                None => forall|h: Seq<char>| self.index_of(h) != Some(*index),
            },
    {
        if *index >= self.hashes.len() {
            assert forall|h: Seq<char>| self.index_of(h) != Some(*index) by {
                lemma_index_map_sound(self.hashes(), h);
            }
            return None;
        }
        let hash = &self.hashes[*index];
        let found = self.lookup.get(hash.as_str());
        if found == Some(index) {
            Some(hash)
        } else {
            assert forall|h: Seq<char>| self.index_of(h) != Some(*index) by {
                lemma_index_map_sound(self.hashes(), h);
            }
            None
        }
    }
}

impl<T> Default for BasicObjectContainer<T> where T: Properties {
    fn default() -> (r: Self)
        ensures
            r.wf(),
            r.records() == Seq::<T>::empty(),
            r.hashes() == Seq::<Seq<char>>::empty(),
    {
        Self::new()
    }
}

/// What the four stores hold.
pub struct GraphView {
    pub commits: StoreView<CommitView>,
    pub blobs: StoreView<BlobView>,
    pub trees: StoreView<TreeView>,
    pub tags: StoreView<TagView>,
}

impl GraphView {
    /// Whether every index that a record holds names a record of the store it points into.
    pub open spec fn links_valid(self) -> bool {
        &&& forall|c: int, k: int|
            0 <= c < self.commits.records.len() && 0 <= k < self.commits.records[c].blob_deps.len()
                ==> #[trigger] self.commits.records[c].blob_deps[k] < self.blobs.records.len()
        &&& forall|c: int, k: int|
            0 <= c < self.commits.records.len() && 0 <= k < self.commits.records[c].tree_deps.len()
                ==> #[trigger] self.commits.records[c].tree_deps[k] < self.trees.records.len()
        &&& forall|c: int, k: int|
            0 <= c < self.commits.records.len() && 0 <= k < self.commits.records[c].tag_deps.len()
                ==> #[trigger] self.commits.records[c].tag_deps[k] < self.tags.records.len()
        &&& forall|t: int, k: int|
            0 <= t < self.trees.records.len() && 0 <= k < self.trees.records[t].commits.len()
                ==> #[trigger] self.trees.records[t].commits[k] < self.commits.records.len()
        &&& forall|b: int, k: int|
            0 <= b < self.blobs.records.len() && 0 <= k < self.blobs.records[b].commits.len()
                ==> #[trigger] self.blobs.records[b].commits[k] < self.commits.records.len()
        &&& forall|t: int|
            0 <= t < self.tags.records.len() ==> match (
            #[trigger] self.tags.records[t]).commit_index {
                Some(c) => c < self.commits.records.len(),
                None => true,
            }
    }
}

pub struct ObjectContainer {
    commits: BasicObjectContainer<Commit>,
    blobs: BasicObjectContainer<Blob>,
    trees: BasicObjectContainer<Tree>,
    tags: BasicObjectContainer<Tag>,
}

impl View for ObjectContainer {
    type V = GraphView;

    open spec fn view(&self) -> GraphView {
        GraphView {
            commits: self.commit_store()@,
            blobs: self.blob_store()@,
            trees: self.tree_store()@,
            tags: self.tag_store()@,
        }
    }
}

impl ObjectContainer {
    /// The store of commits.
    pub closed spec fn commit_store(&self) -> BasicObjectContainer<Commit> {
        self.commits
    }

    /// The store of blobs.
    pub closed spec fn blob_store(&self) -> BasicObjectContainer<Blob> {
        self.blobs
    }

    /// The store of trees.
    pub closed spec fn tree_store(&self) -> BasicObjectContainer<Tree> {
        self.trees
    }

    /// The store of tags.
    pub closed spec fn tag_store(&self) -> BasicObjectContainer<Tag> {
        self.tags
    }

    /// Each of the four stores is well formed.
    pub open spec fn wf(&self) -> bool {
        &&& self.commit_store().wf()
        &&& self.blob_store().wf()
        &&& self.tree_store().wf()
        &&& self.tag_store().wf()
    }

    pub fn new() -> (r: Self)
        ensures
            r.wf(),
            r@.commits == StoreView::<CommitView>::empty(),
            r@.blobs == StoreView::<BlobView>::empty(),
            r@.trees == StoreView::<TreeView>::empty(),
            r@.tags == StoreView::<TagView>::empty(),
    {
        let r = ObjectContainer {
            commits: BasicObjectContainer::new(),
            blobs: BasicObjectContainer::new(),
            trees: BasicObjectContainer::new(),
            tags: BasicObjectContainer::new(),
        };
        assert(r@.commits.records =~= Seq::empty());
        assert(r@.blobs.records =~= Seq::empty());
        assert(r@.trees.records =~= Seq::empty());
        assert(r@.tags.records =~= Seq::empty());
        r
    }

    pub fn mut_commits(&mut self) -> (r: &mut BasicObjectContainer<Commit>)
        ensures
            *r == old(self).commit_store(),
            final(self).commit_store() == *final(r),
            final(self).blob_store() == old(self).blob_store(),
            final(self).tree_store() == old(self).tree_store(),
            final(self).tag_store() == old(self).tag_store(),
    {
        &mut self.commits
    }

    pub fn commits(&self) -> (r: &BasicObjectContainer<Commit>)
        ensures
            *r == self.commit_store(),
    {
        &self.commits
    }

    pub fn mut_blobs(&mut self) -> (r: &mut BasicObjectContainer<Blob>)
        ensures
            *r == old(self).blob_store(),
            final(self).blob_store() == *final(r),
            final(self).commit_store() == old(self).commit_store(),
            final(self).tree_store() == old(self).tree_store(),
            final(self).tag_store() == old(self).tag_store(),
    {
        &mut self.blobs
    }

    pub fn blobs(&self) -> (r: &BasicObjectContainer<Blob>)
        ensures
            *r == self.blob_store(),
    {
        &self.blobs
    }

    pub fn mut_trees(&mut self) -> (r: &mut BasicObjectContainer<Tree>)
        ensures
            *r == old(self).tree_store(),
            final(self).tree_store() == *final(r),
            final(self).commit_store() == old(self).commit_store(),
            final(self).blob_store() == old(self).blob_store(),
            final(self).tag_store() == old(self).tag_store(),
    {
        &mut self.trees
    }

    pub fn trees(&self) -> (r: &BasicObjectContainer<Tree>)
        ensures
            *r == self.tree_store(),
    {
        &self.trees
    }

    pub fn mut_tags(&mut self) -> (r: &mut BasicObjectContainer<Tag>)
        ensures
            *r == old(self).tag_store(),
            final(self).tag_store() == *final(r),
            final(self).commit_store() == old(self).commit_store(),
            final(self).blob_store() == old(self).blob_store(),
            final(self).tree_store() == old(self).tree_store(),
    {
        &mut self.tags
    }

    pub fn tags(&self) -> (r: &BasicObjectContainer<Tag>)
        ensures
            *r == self.tag_store(),
    {
        &self.tags
    }
}

} // verus!
