use jj_sync_prs::branch_graph::{parse_change_line, BranchGraphBuilder};
use jj_sync_prs::branches::{parse_trunk_bookmark_output, RootSearch, RootStep};
use jj_sync_prs::command::{children_command, log_ids_command, repo_view_command, Command};
use jj_sync_prs::error::SyncError;
use jj_sync_prs::graph::Graph;
use jj_sync_prs::repo::{parse_repo_info_output, RepoInfo, RepoOutput, RepoOwner};

/// Asks until the branch at the root is found; the answers come from `run`.
fn branch_at_root_of_stack(run: &dyn Fn(&Command) -> Result<String, String>) -> String {
    let mut search = RootSearch::Trunk;
    loop {
        let output = run(&search.command()).ok();
        match search.step(output.as_deref()) {
            RootStep::Ask(next) => search = next,
            RootStep::Found(branch) => return branch,
        }
    }
}

/// Walks the changes from the oldest one up; also gives the changes that were asked about.
fn build_branch_graph(
    root: &str,
    run: &dyn Fn(&Command) -> Result<String, String>,
) -> Result<(Graph, Vec<String>), String> {
    let output = run(&log_ids_command())?;
    let (mut builder, first) =
        BranchGraphBuilder::start(&output, root).map_err(|e| e.message())?;
    let mut asked = Vec::new();
    let mut next = Some(first);
    while let Some(change) = next {
        let output = run(&children_command(&change))?;
        asked.push(change);
        next = builder.feed(&output);
    }
    Ok((builder.into_graph(), asked))
}

fn args(command: &Command) -> Vec<&str> {
    command.args.iter().map(|arg| arg.as_str()).collect()
}

#[test]
fn parse_trunk_bookmark_output_parses_single_bookmark() {
    assert_eq!(parse_trunk_bookmark_output("master\n"), Some("master".to_owned()));
}

#[test]
fn parse_trunk_bookmark_output_ignores_markers_and_whitespace() {
    assert_eq!(parse_trunk_bookmark_output("  *main  \n"), Some("main".to_owned()));
}

#[test]
fn parse_trunk_bookmark_output_rejects_ambiguous_output() {
    assert_eq!(parse_trunk_bookmark_output("main master\n"), None);
}

#[test]
fn trunk_bookmarks_count_once_if_they_agree() {
    assert_eq!(parse_trunk_bookmark_output("main main*\n main"), Some("main".to_owned()));
    assert_eq!(parse_trunk_bookmark_output("main master main"), None);
    assert_eq!(parse_trunk_bookmark_output("* ** \n"), None);
    assert_eq!(parse_trunk_bookmark_output("* dev **"), Some("dev".to_owned()));
    assert_eq!(parse_trunk_bookmark_output("a*b"), Some("a*b".to_owned()));
    assert_eq!(parse_trunk_bookmark_output(""), None);
}

#[test]
fn branch_at_root_of_stack_uses_trunk_bookmark() {
    let branch = branch_at_root_of_stack(&|command| {
        if command.program == "jj"
            && args(command) == ["show", "-r", "trunk()", "-T", "local_bookmarks"]
        {
            Ok("master\n".to_owned())
        } else {
            Err(format!("unexpected command: {command:?}"))
        }
    });

    assert_eq!(branch, "master");
}

#[test]
fn branch_at_root_of_stack_falls_back_to_master_when_trunk_is_unavailable() {
    let branch = branch_at_root_of_stack(&|command| {
        assert_eq!(command.program, "jj");
        match args(command).as_slice() {
            ["show", "-r", "trunk()", "-T", "local_bookmarks"] => {
                Err("trunk unavailable".to_owned())
            }
            ["show", "main"] => Err("main missing".to_owned()),
            ["show", "master"] => Ok("ok".to_owned()),
            _ => panic!("unexpected command: {command:?}"),
        }
    });

    assert_eq!(branch, "master");
}

#[test]
fn branch_at_root_of_stack_falls_back_to_main() {
    let branch = branch_at_root_of_stack(&|command| {
        assert_eq!(command.program, "jj");
        match args(command).as_slice() {
            ["show", "-r", "trunk()", "-T", "local_bookmarks"] => Ok("\n".to_owned()),
            ["show", "main"] => Err("main missing".to_owned()),
            ["show", "master"] => Err("master missing".to_owned()),
            _ => panic!("unexpected command: {command:?}"),
        }
    });

    assert_eq!(branch, "main");
}

#[test]
fn branch_at_root_of_stack_prefers_main_to_master() {
    let branch = branch_at_root_of_stack(&|command| match args(command).as_slice() {
        ["show", "-r", ..] => Ok("main master".to_owned()),
        _ => Ok(String::new()),
    });

    assert_eq!(branch, "main");
}

#[test]
fn build_branch_graph_parses_recursive_children() {
    let (graph, asked) = build_branch_graph("main", &|command| {
        assert_eq!(command.program, "jj");
        let args = args(command);

        if args == ["log", "--no-graph", "-T", "change_id ++ \"\\n\""] {
            return Ok("c3\nc2\nc1\n".to_owned());
        }

        if args.iter().any(|arg| *arg == "children(c1, 1)") {
            return Ok("c2 feat1\n".to_owned());
        }

        if args.iter().any(|arg| *arg == "children(c2, 1)") {
            return Ok("c3\n".to_owned());
        }

        if args.iter().any(|arg| *arg == "children(c3, 1)") {
            return Ok("c4 feat2\n".to_owned());
        }

        if args.iter().any(|arg| *arg == "children(c4, 1)") {
            return Ok(String::new());
        }

        Err(format!("unexpected args: {args:?}"))
    })
    .unwrap();

    assert_eq!(graph.iter_edges_from("main"), vec!["feat1"]);
    assert_eq!(graph.iter_edges_from("feat1"), vec!["feat2"]);
    assert_eq!(asked, vec!["c1", "c2", "c3", "c4"]);
}

#[test]
fn walk_goes_all_the_way_up_before_the_next_line() {
    let (graph, asked) = build_branch_graph("main", &|command| {
        Ok(match args(command).get(3).copied() {
            Some("change_id ++ \"\\n\"") => "z\nroot",
            Some("children(root, 1)") => "a main*\nb other\n",
            Some("children(a, 1)") => "c \nd one*\n",
            Some("children(d, 1)") => "e two\nf one\n",
            Some("children(f, 1)") => "g three",
            _ => "",
        }
        .to_owned())
    })
    .unwrap();

    assert_eq!(asked, vec!["root", "a", "c ", "d", "e", "f", "g", "b"]);
    assert_eq!(
        graph.iter_edges(),
        vec![("main", "one"), ("main", "other"), ("one", "two"), ("one", "three")]
    );
    assert_eq!(graph.stack_height("main"), Some(3));
}

#[test]
fn empty_log_gives_no_graph() {
    assert_eq!(
        build_branch_graph("main", &|_| Ok(String::new())).unwrap_err(),
        "no lines"
    );
    assert!(matches!(
        BranchGraphBuilder::start("", "main"),
        Err(SyncError::NoLines)
    ));
}

#[test]
fn change_lines_have_an_id_and_perhaps_a_bookmark() {
    assert_eq!(
        parse_change_line("abc feat*"),
        ("abc".to_owned(), Some("feat".to_owned()))
    );
    assert_eq!(
        parse_change_line("  abc  feat "),
        ("abc".to_owned(), Some(" feat".to_owned()))
    );
    assert_eq!(
        parse_change_line("abc one two"),
        ("abc".to_owned(), Some("one two".to_owned()))
    );
    assert_eq!(parse_change_line("abc "), ("abc ".to_owned(), None));
    assert_eq!(parse_change_line("abc"), ("abc".to_owned(), None));
    assert_eq!(parse_change_line("abc **"), ("abc".to_owned(), Some(String::new())));
}

#[test]
fn children_are_asked_for_by_change() {
    let command = children_command("qrs");
    assert_eq!(command.program, "jj");
    assert_eq!(
        args(&command),
        [
            "log",
            "--no-graph",
            "-r",
            "children(qrs, 1)",
            "-T",
            "change_id ++ \" \" ++ local_bookmarks ++ \"\\n\"",
        ]
    );
}

/// Reads what `gh` prints, as far as these tests need it.
fn repo_info(output: &str) -> Result<RepoInfo, SyncError> {
    let parsed = serde_json::from_str::<serde_json::Value>(output).ok().map(|value| RepoOutput {
        name: value["name"].as_str().unwrap().to_owned(),
        owner: RepoOwner {
            login: value["owner"]["login"].as_str().unwrap().to_owned(),
        },
    });
    parse_repo_info_output(parsed)
}

#[test]
fn parse_repo_info_output_parses_json() {
    let info = repo_info(r#"{"name":"repo","owner":{"login":"me"}}"#).unwrap();
    assert_eq!(info.owner, "me");
    assert_eq!(info.name, "repo");
}

#[test]
fn parse_repo_info_output_errors_for_invalid_json() {
    let err = repo_info("not json").unwrap_err();
    assert!(matches!(err, SyncError::RepoOutput));
    assert!(err.message().contains("failed to parse json output from gh"));
}

#[test]
fn repository_is_asked_for_with_gh() {
    let command = repo_view_command();
    assert_eq!(command.program, "gh");
    assert_eq!(args(&command), ["repo", "view", "--json", "name,owner"]);
}
