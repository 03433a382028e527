//! The three reports together.

use crate::object_collection::ObjectContainer;
use crate::report_blobs::{is_blob_report, report_blobs, BlobReport};
use crate::report_checks::report_sizes_fit;
use crate::report_commits::{is_commit_report, report_commits, CommitReport};
use crate::report_trees::{is_tree_report, report_trees, TreeReport};
use vstd::prelude::*;

verus! {

/// What the three reports say.
#[derive(Debug, PartialEq, Eq)]
pub struct FullReport {
    pub commits: CommitReport,
    pub trees: TreeReport,
    pub blobs: BlobReport,
}

/// Builds the commit report, the tree report and the blob report.
pub fn report_all(container: &ObjectContainer) -> (r: FullReport)
    requires
        container@.links_valid(),
        report_sizes_fit(container@),
    ensures
        is_commit_report(container@, r.commits),
        is_tree_report(container@, r.trees),
        is_blob_report(container@, r.blobs),
{
    let commits = report_commits(container);
    let trees = report_trees(container);
    let blobs = report_blobs(container);
    FullReport { commits, trees, blobs }
}

} // verus!
