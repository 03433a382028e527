//! Inventory of the objects of a git repository: commits, trees, blobs and tags, the
//! links between them, and reports on their sizes.
//!
//! The graph is built in three steps. [`git_processing::process_objects`] reads the
//! listing of all objects into four stores ([`object_collection`]).
//! [`linking::process_commit_deps`] links every commit to the trees and blobs it
//! introduces, given the dependency text of each commit ([`dependency_map`], built with
//! [`dependency_resolution`] or read back with [`dependency_cache`]).
//! [`tag_resolution::process_tags`] attaches the tag references. The reports
//! ([`report_commits`], [`report_trees`], [`report_blobs`], [`report_all`]) read the
//! finished graph.
//!
//! Nothing here runs a program or touches a file: [`git_commands`] says which queries
//! are due, and the caller runs them and hands over their output as text.

pub mod blob;
pub mod commit;
pub mod dependency_cache;
pub mod dependency_map;
pub mod dependency_resolution;
pub mod git_commands;
pub mod git_processing;
pub mod linking;
pub mod linking_order;
pub mod object_collection;
pub mod report_all;
pub mod report_blobs;
pub mod report_checks;
pub mod report_commits;
pub mod report_trees;
pub mod tag;
pub mod tag_resolution;
pub mod text;
pub mod tree;
