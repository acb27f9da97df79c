//! The commands that the crate asks to have run.

use vstd::prelude::*;

use crate::text::views;

verus! {

/// A program and its arguments.
#[derive(Debug)]
pub struct Command {
    pub program: String,
    pub args: Vec<String>,
}

/// What a command says.
pub struct CommandView {
    pub program: Seq<char>,
    pub args: Seq<Seq<char>>,
}

impl View for Command {
    type V = CommandView;

    open spec fn view(&self) -> CommandView {
        CommandView { program: self.program@, args: views(self.args@) }
    }
}

/// A call of `jj`.
pub open spec fn jj(args: Seq<Seq<char>>) -> CommandView {
    CommandView { program: "jj"@, args }
}

/// The changes of `branch` that `target` does not have.
pub open spec fn changes_between(target: Seq<char>, branch: Seq<char>) -> Seq<char> {
    target + ".."@ + branch
}

fn changes_range(target: &str, branch: &str) -> (out: String)
    ensures
        out@ == changes_between(target@, branch@),
{
    target.to_owned().concat("..").concat(branch)
}

fn jj_with(args: Vec<String>) -> (out: Command)
    ensures
        out@ == jj(views(args@)),
{
    Command { program: "jj".to_owned(), args }
}

/// Lists the ids of all changes, newest first.
pub open spec fn log_ids() -> CommandView {
    jj(seq!["log"@, "--no-graph"@, "-T"@, "change_id ++ \"\\n\""@])
}

/// Lists the ids of all changes, newest first.
pub fn log_ids_command() -> (out: Command)
    ensures
        out@ == log_ids(),
{
    let args = vec![
        "log".to_owned(),
        "--no-graph".to_owned(),
        "-T".to_owned(),
        "change_id ++ \"\\n\"".to_owned(),
    ];
    assert(views(args@) =~= log_ids().args);
    jj_with(args)
}

/// Lists the changes directly on top of a change, each with its bookmarks.
pub open spec fn children_of(change: Seq<char>) -> CommandView {
    jj(
        seq![
            "log"@,
            "--no-graph"@,
            "-r"@,
            "children("@ + change + ", 1)"@,
            "-T"@,
            "change_id ++ \" \" ++ local_bookmarks ++ \"\\n\""@,
        ],
    )
}

/// Lists the changes directly on top of a change, each with its bookmarks.
pub fn children_command(change: &str) -> (out: Command)
    ensures
        out@ == children_of(change@),
{
    let args = vec![
        "log".to_owned(),
        "--no-graph".to_owned(),
        "-r".to_owned(),
        "children(".to_owned().concat(change).concat(", 1)"),
        "-T".to_owned(),
        "change_id ++ \" \" ++ local_bookmarks ++ \"\\n\"".to_owned(),
    ];
    assert(views(args@) =~= children_of(change@).args);
    jj_with(args)
}

/// Shows the bookmarks of the trunk.
pub open spec fn show_trunk() -> CommandView {
    jj(seq!["show"@, "-r"@, "trunk()"@, "-T"@, "local_bookmarks"@])
}

/// Shows the bookmarks of the trunk.
pub fn show_trunk_command() -> (out: Command)
    ensures
        out@ == show_trunk(),
{
    let args = vec![
        "show".to_owned(),
        "-r".to_owned(),
        "trunk()".to_owned(),
        "-T".to_owned(),
        "local_bookmarks".to_owned(),
    ];
    assert(views(args@) =~= show_trunk().args);
    jj_with(args)
}

/// Shows a change by name.
pub open spec fn show(name: Seq<char>) -> CommandView {
    jj(seq!["show"@, name])
}

/// Shows a change by name.
pub fn show_command(name: &str) -> (out: Command)
    ensures
        out@ == show(name@),
{
    let args = vec!["show".to_owned(), name.to_owned()];
    assert(views(args@) =~= show(name@).args);
    jj_with(args)
}

/// Asks for the name and the owner of the repository.
pub open spec fn repo_view() -> CommandView {
    CommandView { program: "gh"@, args: seq!["repo"@, "view"@, "--json"@, "name,owner"@] }
}

/// Asks for the name and the owner of the repository.
pub fn repo_view_command() -> (out: Command)
    ensures
        out@ == repo_view(),
{
    let args = vec![
        "repo".to_owned(),
        "view".to_owned(),
        "--json".to_owned(),
        "name,owner".to_owned(),
    ];
    assert(views(args@) =~= repo_view().args);
    Command { program: "gh".to_owned(), args }
}

/// Shows what a pull request would consist of.
pub open spec fn preview(target: Seq<char>, branch: Seq<char>) -> CommandView {
    jj(seq!["log"@, "-r"@, target + "::"@ + branch])
}

/// Shows what a pull request would consist of.
pub fn preview_command(target: &str, branch: &str) -> (out: Command)
    ensures
        out@ == preview(target@, branch@),
{
    let args = vec![
        "log".to_owned(),
        "-r".to_owned(),
        target.to_owned().concat("::").concat(branch),
    ];
    assert(views(args@) =~= preview(target@, branch@).args);
    jj_with(args)
}

/// Counts the changes of a pull request.
pub open spec fn count_changes(target: Seq<char>, branch: Seq<char>) -> CommandView {
    jj(seq!["log"@, "--count"@, "-r"@, changes_between(target, branch)])
}

/// Counts the changes of a pull request.
pub fn count_command(target: &str, branch: &str) -> (out: Command)
    ensures
        out@ == count_changes(target@, branch@),
{
    let args = vec![
        "log".to_owned(),
        "--count".to_owned(),
        "-r".to_owned(),
        changes_range(target, branch),
    ];
    assert(views(args@) =~= count_changes(target@, branch@).args);
    jj_with(args)
}

/// Prints the descriptions of the changes of a pull request.
pub open spec fn describe_changes(target: Seq<char>, branch: Seq<char>) -> CommandView {
    jj(
        seq![
            "log"@,
            "--no-graph"@,
            "-r"@,
            changes_between(target, branch),
            "-T"@,
            "description ++ \"\\n\""@,
        ],
    )
}

/// Prints the descriptions of the changes of a pull request.
pub fn describe_command(target: &str, branch: &str) -> (out: Command)
    ensures
        out@ == describe_changes(target@, branch@),
{
    let args = vec![
        "log".to_owned(),
        "--no-graph".to_owned(),
        "-r".to_owned(),
        changes_range(target, branch),
        "-T".to_owned(),
        "description ++ \"\\n\"".to_owned(),
    ];
    assert(views(args@) =~= describe_changes(target@, branch@).args);
    jj_with(args)
}

/// Prints the difference that a pull request makes.
pub open spec fn diff_changes(target: Seq<char>, branch: Seq<char>) -> CommandView {
    jj(seq!["diff"@, "--git"@, "-r"@, changes_between(target, branch)])
}

/// Prints the difference that a pull request makes.
pub fn diff_command(target: &str, branch: &str) -> (out: Command)
    ensures
        out@ == diff_changes(target@, branch@),
{
    let args = vec![
        "diff".to_owned(),
        "--git".to_owned(),
        "-r".to_owned(),
        changes_range(target, branch),
    ];
    assert(views(args@) =~= diff_changes(target@, branch@).args);
    jj_with(args)
}

/// Prints the changes of a pull request in detail.
pub open spec fn detail_changes(target: Seq<char>, branch: Seq<char>) -> CommandView {
    jj(
        seq![
            "log"@,
            "--color"@,
            "never"@,
            "-r"@,
            changes_between(target, branch),
            "-T"@,
            "builtin_log_detailed"@,
        ],
    )
}

/// Prints the changes of a pull request in detail.
pub fn detail_command(target: &str, branch: &str) -> (out: Command)
    ensures
        out@ == detail_changes(target@, branch@),
{
    let args = vec![
        "log".to_owned(),
        "--color".to_owned(),
        "never".to_owned(),
        "-r".to_owned(),
        changes_range(target, branch),
        "-T".to_owned(),
        "builtin_log_detailed".to_owned(),
    ];
    assert(views(args@) =~= detail_changes(target@, branch@).args);
    jj_with(args)
}

/// Every command to the letter.
pub proof fn law_commands(target: Seq<char>, branch: Seq<char>, change: Seq<char>)
    ensures
        log_ids() == (CommandView {
            program: "jj"@,
            args: seq!["log"@, "--no-graph"@, "-T"@, "change_id ++ \"\\n\""@],
        }),
        children_of(change) == (CommandView {
            program: "jj"@,
            args: seq![
                "log"@,
                "--no-graph"@,
                "-r"@,
                "children("@ + change + ", 1)"@,
                "-T"@,
                "change_id ++ \" \" ++ local_bookmarks ++ \"\\n\""@,
            ],
        }),
        show_trunk() == (CommandView {
            program: "jj"@,
            args: seq!["show"@, "-r"@, "trunk()"@, "-T"@, "local_bookmarks"@],
        }),
        show(branch) == (CommandView { program: "jj"@, args: seq!["show"@, branch] }),
        repo_view() == (CommandView {
            program: "gh"@,
            args: seq!["repo"@, "view"@, "--json"@, "name,owner"@],
        }),
        preview(target, branch) == (CommandView {
            program: "jj"@,
            args: seq!["log"@, "-r"@, target + "::"@ + branch],
        }),
        count_changes(target, branch) == (CommandView {
            program: "jj"@,
            args: seq!["log"@, "--count"@, "-r"@, target + ".."@ + branch],
        }),
        describe_changes(target, branch) == (CommandView {
            program: "jj"@,
            args: seq![
                "log"@,
                "--no-graph"@,
                "-r"@,
                target + ".."@ + branch,
                "-T"@,
                "description ++ \"\\n\""@,
            ],
        }),
        diff_changes(target, branch) == (CommandView {
            program: "jj"@,
            args: seq!["diff"@, "--git"@, "-r"@, target + ".."@ + branch],
        }),
        detail_changes(target, branch) == (CommandView {
            program: "jj"@,
            args: seq![
                "log"@,
                "--color"@,
                "never"@,
                "-r"@,
                target + ".."@ + branch,
                "-T"@,
                "builtin_log_detailed"@,
            ],
        }),
{
}

/// What is looked at in a command is all that it holds.
pub proof fn law_command_view(command: Command, k: int)
    requires
        0 <= k < command.args@.len(),
    ensures
        command@.program == command.program@,
        command@.args.len() == command.args@.len(),
        command@.args[k] == command.args@[k]@,
{
}

} // verus!
