//! Resolving dependencies: what is decided and computed around the queries that are put
//! to git once per commit. The queries themselves, and the tasks that run them, are the
//! caller's part.

use crate::dependency_map::{upsert, CommitDependencyMap, EntryView};
use crate::object_collection::ObjectContainer;
use crate::text::{chars_of, first_index_of, lemma_first_index_of_is, slice_of, string_of};
use vstd::prelude::*;

verus! {

/// Where the dependency map comes from.
#[derive(Clone, Copy, Debug, PartialEq, Eq, Structural)]
pub enum DependencySource {
    /// It is read from the cache file; git is not asked.
    Cache,
    /// It is built by asking git, and saved to the cache file afterwards.
    QueryAndSave,
    /// It is built by asking git.
    Query,
}

/// Decides where the dependency map comes from: from the cache file where one was named
/// and exists; from git otherwise, to be saved where a cache file was named.
pub fn dependency_source(cache_named: bool, cache_exists: bool) -> (r: DependencySource)
    ensures
        r == if cache_named && cache_exists {
            DependencySource::Cache
        } else if cache_named {
            DependencySource::QueryAndSave
        } else {
            DependencySource::Query
        },
{
    if cache_named {
        if cache_exists {
            DependencySource::Cache
        } else {
            DependencySource::QueryAndSave
        }
    } else {
        DependencySource::Query
    }
}

/// The hashes of the commits of `container`, by index: one query is due for each.
pub fn commit_hashes(container: &ObjectContainer) -> (r: Vec<String>)
    requires
        container.wf(),
    ensures
        r@.map_values(|h: String| h@) == container.commit_store().hash_pairs().map_values(
            |p: (Seq<char>, usize)| p.0,
        ),
{
    let pairs = container.commits().object_hash_iter();
    let ghost shape = |p: (String, usize)| (p.0@, p.1);
    let ghost first = |p: (Seq<char>, usize)| p.0;
    let ghost text = |h: String| h@;
    let mut out: Vec<String> = Vec::new();
    let mut i: usize = 0;
    while i < pairs.len()
        invariant
            i <= pairs.len(),
            shape == |p: (String, usize)| (p.0@, p.1),
            first == |p: (Seq<char>, usize)| p.0,
            text == |h: String| h@,
            out@.map_values(text) == pairs@.take(i as int).map_values(shape).map_values(first),
        decreases pairs.len() - i,
    {
        let hash = pairs[i].0.clone();
        assert(out@.push(hash).map_values(text) =~= out@.map_values(text).push(hash@));
        assert(pairs@.take(i + 1).map_values(shape).map_values(first) =~= pairs@.take(
            i as int,
        ).map_values(shape).map_values(first).push(hash@));
        out.push(hash);
        i += 1;
    }
    assert(pairs@.take(i as int) == pairs@);
    out
}

/// The number of CPUs that the process may use, as `num_cpus::get` reports it. The
/// number depends on the machine, and nothing here relies on what it is.
#[verifier::external_body]
fn available_cpus() -> usize {
    num_cpus::get()
}

/// The number of workers for `available` CPUs: half of them, and at least one.
pub fn worker_count(available: usize) -> (r: usize)
    ensures
        r == if available / 2 >= 1 {
            available / 2
        } else {
            1
        },
{
    let half = available / 2;
    if half >= 1 {
        half
    } else {
        1
    }
}

/// The number of workers on this machine: at least one.
pub fn worker_pool_size() -> (r: usize)
    ensures
        r >= 1,
{
    worker_count(available_cpus())
}

/// What follows the first line of `output`: nothing where `output` has no line feed.
pub open spec fn after_first_line(output: Seq<char>) -> Seq<char> {
    let i = first_index_of(output, '\n');
    if 0 <= i < output.len() {
        output.skip(i + 1)
    } else {
        Seq::empty()
    }
}

/// The dependency text of a commit, given how the query for it ended: the answer without
/// its first line, which names the commit itself; nothing where the query failed.
pub open spec fn dependency_text(outcome: Result<Seq<char>, Seq<char>>) -> Seq<char> {
    match outcome {
        Ok(output) => after_first_line(output),
        Err(_) => Seq::empty(),
    }
}

/// The outcome of a query with its texts as sequences.
pub open spec fn outcome_view(outcome: Result<String, String>) -> Result<Seq<char>, Seq<char>> {
    match outcome {
        Ok(output) => Ok(output@),
        Err(message) => Err(message@),
    }
}

/// The dependency text of a commit, given how the query for it ended.
pub fn dependency_text_of(outcome: &Result<String, String>) -> (r: String)
    ensures
        r@ == dependency_text(outcome_view(*outcome)),
{
    match outcome {
        Ok(output) => {
            let text = chars_of(output.as_str());
            let mut i: usize = 0;
            while i < text.len() && text[i] != '\n'
                invariant
                    i <= text.len(),
                    forall|j: int| 0 <= j < i ==> text@[j] != '\n',
                decreases text.len() - i,
            {
                i += 1;
            }
            proof {
                lemma_first_index_of_is(text@, '\n', i as int);
            }
            if i < text.len() {
                string_of(&slice_of(&text, i + 1, text.len()))
            } else {
                String::new()
            }
        },
        Err(_) => String::new(),
    }
}

/// The map of the results `results`, each a commit's hash and its dependency text,
/// stored one after the other.
pub open spec fn merged(results: Seq<EntryView>) -> Seq<EntryView>
    decreases results.len(),
{
    if results.len() == 0 {
        Seq::empty()
    } else {
        upsert(merged(results.drop_last()), results.last().0, results.last().1)
    }
}

/// The results of the queries as entries: each hash with the dependency text of its
/// outcome.
pub open spec fn result_entries(results: Seq<(String, Result<String, String>)>) -> Seq<EntryView> {
    results.map_values(
        |r: (String, Result<String, String>)| (r.0@, dependency_text(outcome_view(r.1))),
    )
}

/// Merges the results of the queries, each a commit's hash and the outcome of its query,
/// into one dependency map. Every commit has an entry, a failed query an empty one.
pub fn merge_dependencies(results: Vec<(String, Result<String, String>)>) -> (r:
    CommitDependencyMap)
    ensures
        r.wf(),
        r@ == merged(result_entries(results@)),
{
    let ghost all = result_entries(results@);
    let mut deps = CommitDependencyMap::new();
    let mut i: usize = 0;
    assert(all.take(0) =~= Seq::<EntryView>::empty());
    while i < results.len()
        invariant
            i <= results.len(),
            all == result_entries(results@),
            deps.wf(),
            deps@ == merged(all.take(i as int)),
        decreases results.len() - i,
    {
        let text = dependency_text_of(&results[i].1);
        proof {
            assert(all.take(i + 1).drop_last() =~= all.take(i as int));
            assert(all.take(i + 1).last() == (results@[i as int].0@, text@));
        }
        deps.insert(results[i].0.clone(), text);
        i += 1;
    }
    assert(all.take(i as int) =~= all);
    deps
}

/// The percentage of `completed` out of `total`, rounded down.
pub open spec fn percent_of(completed: u32, total: u32) -> nat {
    (completed as nat * 100 / total as nat) as nat
}

/// Follows the progress of the queries and tells when it is worth a line.
pub struct ProgressTracker {
    total: u32,
    last_reported: u64,
}

impl ProgressTracker {
    #[verifier::type_invariant]
    spec fn inv(self) -> bool {
        self.total > 0
    }

    /// The number of queries that are due.
    pub closed spec fn total(&self) -> u32 {
        self.total
    }

    /// The percentage that was reported last; zero before the first report.
    pub closed spec fn last_reported(&self) -> nat {
        self.last_reported as nat
    }

    /// A tracker for `total` queries, none of them reported.
    pub fn new(total: u32) -> (r: Self)
        requires
            total > 0,
        ensures
            r.total() == total,
            r.last_reported() == 0,
    {
        ProgressTracker { total, last_reported: 0 }
    }

    /// Takes note that `completed` queries are done. Hands back the percentage done where
    /// it is greater than the one reported last, and is then the one reported last. The
    /// percentage reported never goes down.
    pub fn record(&mut self, completed: u32) -> (r: Option<u64>)
        ensures
            final(self).total() == old(self).total(),
            final(self).last_reported() >= old(self).last_reported(),
            match r {
                Some(percent) => percent == percent_of(completed, old(self).total()) && percent
                    > old(self).last_reported() && final(self).last_reported() == percent,
                None => percent_of(completed, old(self).total()) <= old(self).last_reported()
                    && final(self).last_reported() == old(self).last_reported(),
            },
    {
        proof {
            use_type_invariant(&*self);
        }
        let percent: u64 = (completed as u64 * 100) / (self.total as u64);
        if percent > self.last_reported {
            self.last_reported = percent;
            Some(percent)
        } else {
            None
        }
    }
}

/// The time that a query took on average, in nanoseconds, rounded down: `total_nanos`
/// shared among `completed` queries, or among one where none is done.
pub fn average_task_nanos(total_nanos: u64, completed: u64) -> (r: u64)
    ensures
        r == total_nanos as nat / (if completed >= 1 {
            completed as nat
        } else {
            1nat
        }),
{
    if completed >= 1 {
        total_nanos / completed
    } else {
        total_nanos
    }
}

} // verus!
