//! The queries that are put to git: which program to run and with which arguments.
//! Running them is the caller's part.

use crate::text::string_views;
use vstd::prelude::*;
use vstd::string::StringExecFns;

verus! {

/// One program call: the program's name and its arguments in order.
pub struct GitCommand {
    pub program: String,
    pub args: Vec<String>,
}

impl GitCommand {
    /// The arguments as texts.
    pub open spec fn arguments(&self) -> Seq<Seq<char>> {
        string_views(self.args@)
    }
}

/// The range that holds what `commit_hash` added to its first parent.
pub open spec fn parent_range(commit_hash: Seq<char>) -> Seq<char> {
    commit_hash + "~1.."@ + commit_hash
}

fn git(args: Vec<String>) -> (r: GitCommand)
    ensures
        r.program@ == "git"@,
        r.args == args,
{
    GitCommand { program: "git".to_owned(), args }
}

/// Asks for the hash of the tree of `commit_hash`.
pub fn get_commit_tree_hash(commit_hash: &str) -> (r: GitCommand)
    ensures
        r.program@ == "git"@,
        r.arguments() == seq!["log"@, "--pretty=format:%T"@, "-n"@, "1"@, commit_hash@],
{
    let mut args: Vec<String> = Vec::new();
    args.push("log".to_owned());
    args.push("--pretty=format:%T".to_owned());
    args.push("-n".to_owned());
    args.push("1".to_owned());
    args.push(commit_hash.to_owned());
    assert(string_views(args@) =~= seq![
        "log"@,
        "--pretty=format:%T"@,
        "-n"@,
        "1"@,
        commit_hash@,
    ]);
    git(args)
}

/// Asks for the objects that `commit_hash` introduces, each with its path. The first
/// line of the answer names the commit itself.
pub fn get_commit_deps(commit_hash: &str) -> (r: GitCommand)
    ensures
        r.program@ == "git"@,
        r.arguments() == seq!["rev-list"@, "--objects"@, parent_range(commit_hash@)],
{
    let mut commit_part = commit_hash.to_owned();
    commit_part.append("~1..");
    commit_part.append(commit_hash);
    let mut args: Vec<String> = Vec::new();
    args.push("rev-list".to_owned());
    args.push("--objects".to_owned());
    args.push(commit_part);
    assert(string_views(args@) =~= seq![
        "rev-list"@,
        "--objects"@,
        parent_range(commit_hash@),
    ]);
    git(args)
}

/// Asks for the kind of the object `hash`.
pub fn get_object_type(hash: &str) -> (r: GitCommand)
    ensures
        r.program@ == "git"@,
        r.arguments() == seq!["cat-file"@, "-t"@, hash@],
{
    let mut args: Vec<String> = Vec::new();
    args.push("cat-file".to_owned());
    args.push("-t".to_owned());
    args.push(hash.to_owned());
    assert(string_views(args@) =~= seq!["cat-file"@, "-t"@, hash@]);
    git(args)
}

/// Asks for the files that `commit_hash` changed, by way of a tree comparison.
pub fn get_commit_deps_old(commit_hash: &str) -> (r: GitCommand)
    ensures
        r.program@ == "git"@,
        r.arguments() == seq!["diff-tree"@, "--no-commit-id"@, "-r"@, commit_hash@],
{
    let mut args: Vec<String> = Vec::new();
    args.push("diff-tree".to_owned());
    args.push("--no-commit-id".to_owned());
    args.push("-r".to_owned());
    args.push(commit_hash.to_owned());
    assert(string_views(args@) =~= seq![
        "diff-tree"@,
        "--no-commit-id"@,
        "-r"@,
        commit_hash@,
    ]);
    git(args)
}

/// Asks for every reachable object with its kind, hash, size and size on disk, one per
/// line, each line between apostrophes. The output of the first command is the input of
/// the second.
pub fn list_objects() -> (r: (GitCommand, GitCommand))
    ensures
        r.0.program@ == "git"@,
        r.0.arguments() == seq!["rev-list"@, "--objects"@, "--all"@, "--no-object-names"@],
        r.1.program@ == "git"@,
        r.1.arguments() == seq![
            "cat-file"@,
            "--batch-check='%(objecttype) %(objectname) %(objectsize) %(objectsize:disk)'"@,
        ],
{
    let mut rev_list_args: Vec<String> = Vec::new();
    rev_list_args.push("rev-list".to_owned());
    rev_list_args.push("--objects".to_owned());
    rev_list_args.push("--all".to_owned());
    rev_list_args.push("--no-object-names".to_owned());
    assert(string_views(rev_list_args@) =~= seq![
        "rev-list"@,
        "--objects"@,
        "--all"@,
        "--no-object-names"@,
    ]);
    let mut cat_file_args: Vec<String> = Vec::new();
    cat_file_args.push("cat-file".to_owned());
    cat_file_args.push(
        "--batch-check='%(objecttype) %(objectname) %(objectsize) %(objectsize:disk)'".to_owned(),
    );
    assert(string_views(cat_file_args@) =~= seq![
        "cat-file"@,
        "--batch-check='%(objecttype) %(objectname) %(objectsize) %(objectsize:disk)'"@,
    ]);
    (git(rev_list_args), git(cat_file_args))
}

/// Asks for every tag reference, an annotated tag followed by the commit it points at.
pub fn get_tag_deps() -> (r: GitCommand)
    ensures
        r.program@ == "git"@,
        r.arguments() == seq!["show-ref"@, "--tags"@, "-d"@],
{
    let mut args: Vec<String> = Vec::new();
    args.push("show-ref".to_owned());
    args.push("--tags".to_owned());
    args.push("-d".to_owned());
    assert(string_views(args@) =~= seq!["show-ref"@, "--tags"@, "-d"@]);
    git(args)
}

} // verus!
