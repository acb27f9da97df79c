use jj_sync_prs::comment::{
    create_or_update_comment, finalize_comment, write_pr_comment, CommentLine, ID,
};
use jj_sync_prs::error::SyncError;
use jj_sync_prs::github::{find_pull, PullRequestInfo};
use jj_sync_prs::graph::Graph;
use jj_sync_prs::sync::{
    create_or_update_comments, failure_contexts, find_or_create_prs, stack_comments, sync_order,
    PrVisit,
};

fn sample_pull(number: u64, head_branch: &str, base_branch: &str) -> PullRequestInfo {
    PullRequestInfo {
        number,
        head_branch: head_branch.to_owned(),
        base_branch: base_branch.to_owned(),
        html_url: Some(format!("https://example.com/pull/{number}")),
        title: Some(format!("PR {head_branch}")),
        body: None,
    }
}

fn line(branch: &str, indent: usize) -> CommentLine {
    CommentLine {
        branch: branch.to_owned(),
        indent,
    }
}

fn graph_of(edges: &[(&str, &str)]) -> Graph {
    let mut graph = Graph::default();
    for (from, to) in edges {
        let from = graph.get_or_insert(from);
        let to = graph.get_or_insert(to);
        graph.add_edge(from, to);
    }
    graph
}

fn visits_of(visits: &[PrVisit]) -> Vec<(&str, &str, bool)> {
    visits
        .iter()
        .map(|visit| (visit.branch.as_str(), visit.target.as_str(), visit.is_first))
        .collect()
}

#[test]
fn write_pr_comment_collects_depth_first_with_indentation() {
    let mut graph = Graph::default();
    let main = graph.get_or_insert("main");
    let feat1 = graph.get_or_insert("feat1");
    let feat2 = graph.get_or_insert("feat2");
    let feat3 = graph.get_or_insert("feat3");
    graph.add_edge(main, feat1);
    graph.add_edge(feat1, feat2);
    graph.add_edge(feat1, feat3);

    let mut lines = Vec::new();
    write_pr_comment(&graph, "feat1", 0, &mut lines);

    assert_eq!(lines.len(), 3);
    assert_eq!(lines[0].branch, "feat1");
    assert_eq!(lines[0].indent, 0);
    assert_eq!(lines[1].branch, "feat2");
    assert_eq!(lines[1].indent, 2);
    assert_eq!(lines[2].branch, "feat3");
    assert_eq!(lines[2].indent, 2);
}

#[test]
fn write_pr_comment_appends_to_what_is_there() {
    let graph = graph_of(&[("a", "b"), ("b", "c")]);
    let mut lines = vec![line("before", 7)];
    write_pr_comment(&graph, "a", 1, &mut lines);
    let got: Vec<(&str, usize)> = lines.iter().map(|l| (l.branch.as_str(), l.indent)).collect();
    assert_eq!(got, vec![("before", 7), ("a", 1), ("b", 3), ("c", 5)]);
}

#[test]
fn comment_line_format_includes_here_marker_on_head_branch() {
    let line = CommentLine {
        branch: "feat".to_owned(),
        indent: 2,
    };
    let pulls = vec![sample_pull(1, "feat", "main")];

    let mut out = String::new();
    line.format("feat", &pulls, &mut out).unwrap();

    assert_eq!(
        out,
        "  - [PR feat](https://example.com/pull/1) 👈 you are here"
    );
}

#[test]
fn comment_line_format_errors_when_pull_missing() {
    let line = CommentLine {
        branch: "missing".to_owned(),
        indent: 0,
    };
    let pulls = vec![sample_pull(1, "feat", "main")];

    let err = line.format("feat", &pulls, &mut String::new()).unwrap_err();
    assert!(err.message().contains("PR from missing not found"));
}

#[test]
fn comment_line_needs_title_and_link_of_the_first_pull() {
    let mut untitled = sample_pull(1, "feat", "main");
    untitled.title = None;
    let mut unlinked = sample_pull(2, "feat", "main");
    unlinked.html_url = None;
    let good = sample_pull(3, "feat", "main");

    for bad in [untitled, unlinked] {
        let mut out = String::from("kept");
        let err = line("feat", 0).format("x", &[bad, good.clone()], &mut out).unwrap_err();
        assert!(matches!(err, SyncError::PullNotFound { branch } if branch == "feat"));
        assert_eq!(out, "kept");
    }

    let mut out = String::from("> ");
    line("feat", 0).format("x", &[good], &mut out).unwrap();
    assert_eq!(out, "> - [PR feat](https://example.com/pull/3)");
}

#[test]
fn first_pull_from_a_branch_is_found() {
    let pulls = vec![
        sample_pull(1, "a", "main"),
        sample_pull(2, "b", "main"),
        sample_pull(3, "b", "a"),
    ];
    assert_eq!(find_pull(&pulls, "b"), Some(1));
    assert_eq!(find_pull(&pulls, "a"), Some(0));
    assert_eq!(find_pull(&pulls, "c"), None);
}

#[test]
fn finalize_comment_includes_all_metadata() {
    let lines = vec![
        CommentLine {
            branch: "feat1".to_owned(),
            indent: 0,
        },
        CommentLine {
            branch: "feat2".to_owned(),
            indent: 2,
        },
    ];
    let pulls = vec![
        sample_pull(1, "feat1", "main"),
        sample_pull(2, "feat2", "feat1"),
    ];

    let comment = finalize_comment("feat2", &lines, &pulls).unwrap();

    assert!(comment.contains("<!-- jj-sync-prs:"));
    assert!(comment.contains("> [!NOTE]"));
    assert!(comment.contains("[PR feat1](https://example.com/pull/1)"));
    assert!(comment.contains("[PR feat2](https://example.com/pull/2) 👈 you are here"));
}

#[test]
fn finalize_comment_writes_the_whole_comment() {
    let lines = vec![line("feat1", 0), line("feat2", 2)];
    let pulls = vec![
        sample_pull(1, "feat1", "main"),
        sample_pull(2, "feat2", "feat1"),
    ];
    assert_eq!(
        finalize_comment("feat1", &lines, &pulls).unwrap(),
        "<!-- jj-sync-prs: e39f85cc-4589-41f7-9bae-d491c1ee2eda -->\n\
         ---\n\
         > [!NOTE]\n\
         > This pull request is part of a stack:\n\
         > - [PR feat1](https://example.com/pull/1) 👈 you are here\n\
         >   - [PR feat2](https://example.com/pull/2)\n\
         >\n\
         >\n"
    );
}

#[test]
fn finalize_comment_fails_at_the_first_missing_pull() {
    let lines = vec![line("a", 0), line("b", 2), line("c", 2)];
    let err = finalize_comment("a", &lines, &[sample_pull(1, "a", "main")]).unwrap_err();
    assert!(matches!(err, SyncError::PullNotFound { branch } if branch == "b"));
}

#[test]
fn create_or_update_comment_appends_when_no_existing_body() {
    let lines = vec![line("feature", 0)];
    let pulls = vec![sample_pull(42, "feature", "main")];

    let update = create_or_update_comment(&lines, "feature", &pulls).unwrap();

    assert_eq!(update.number, 42);
    assert!(update.body.contains("<!-- jj-sync-prs:"));
    assert_eq!(update.failure(), "failed to update comment on #42");
}

#[test]
fn create_or_update_comment_replaces_existing_generated_comment() {
    let lines = vec![line("feature", 0)];
    let mut pull = sample_pull(7, "feature", "main");
    pull.body = Some(format!(
        "Manual content\n<!-- jj-sync-prs: {ID} -->\nold generated comment"
    ));

    let update = create_or_update_comment(&lines, "feature", &[pull]).unwrap();

    let body = &update.body;
    assert!(body.starts_with("Manual content\n\n<!-- jj-sync-prs:"));
    assert!(!body.contains("old generated comment"));
}

#[test]
fn create_or_update_comment_errors_for_unknown_branch() {
    let lines = vec![line("feature", 0)];

    let err = create_or_update_comment(&lines, "missing", &[]).unwrap_err();
    assert!(err.message().contains("PR from missing not found"));
}

#[test]
fn comment_that_names_an_unknown_branch_is_not_finalized() {
    let lines = vec![line("feature", 0), line("gone", 2)];
    let err = create_or_update_comment(&lines, "feature", &[sample_pull(1, "feature", "main")])
        .unwrap_err();
    assert!(matches!(&err, SyncError::FinalizeComment { branch } if branch == "gone"));
    assert_eq!(
        err.message(),
        "failed to finalize comment: PR from gone not found"
    );
}

#[test]
fn next_comment_takes_the_place_of_the_last_one() {
    let lines = vec![line("feature", 0)];
    let mut pull = sample_pull(7, "feature", "main");
    pull.body = Some("Text\r\n\r\nof my own".to_owned());
    let comment = finalize_comment("feature", &lines, &[pull.clone()]).unwrap();

    let first = create_or_update_comment(&lines, "feature", &[pull.clone()]).unwrap();
    assert_eq!(first.body, format!("Text\n\nof my own\n\n{comment}"));

    pull.body = Some(first.body);
    let second = create_or_update_comment(&lines, "feature", &[pull.clone()]).unwrap();
    assert_eq!(second.body, format!("Text\n\nof my own\n\n\n{comment}"));

    pull.body = Some(comment.clone());
    let bare = create_or_update_comment(&lines, "feature", &[pull]).unwrap();
    assert_eq!(bare.body, format!("\n\n{comment}"));
}

#[test]
fn find_or_create_prs_visits_each_branch_into_the_one_below() {
    let graph = graph_of(&[("main", "a"), ("a", "b"), ("a", "c"), ("b", "d")]);
    assert_eq!(
        visits_of(&find_or_create_prs("a", "main", &graph, true)),
        vec![
            ("a", "main", true),
            ("b", "a", false),
            ("d", "b", false),
            ("c", "a", false),
        ]
    );
    assert_eq!(
        visits_of(&find_or_create_prs("c", "x", &graph, false)),
        vec![("c", "x", false)]
    );
}

#[test]
fn sync_takes_one_stack_after_the_other() {
    let graph = graph_of(&[("main", "a"), ("a", "b"), ("main", "c"), ("main", "d"), ("d", "b")]);
    assert!(graph.can_walk("main"));
    assert_eq!(
        visits_of(&sync_order(&graph, "main")),
        vec![
            ("a", "main", true),
            ("b", "a", false),
            ("c", "main", true),
            ("d", "main", true),
            ("b", "d", false),
        ]
    );
    assert!(sync_order(&graph, "c").is_empty());
}

#[test]
fn only_stacks_of_more_than_one_branch_get_comments() {
    let graph = graph_of(&[("main", "a"), ("a", "b"), ("main", "c"), ("main", "d"), ("d", "e")]);
    let stacks = stack_comments(&graph, "main");
    let got: Vec<(&str, Vec<(&str, usize)>)> = stacks
        .iter()
        .map(|stack| {
            let lines = stack.lines.iter().map(|l| (l.branch.as_str(), l.indent)).collect();
            (stack.branch.as_str(), lines)
        })
        .collect();
    assert_eq!(
        got,
        vec![
            ("a", vec![("a", 0), ("b", 2)]),
            ("d", vec![("d", 0), ("e", 2)]),
        ]
    );
}

#[test]
fn create_or_update_comments_recurses_for_entire_stack() {
    let mut graph = Graph::default();
    let main = graph.get_or_insert("main");
    let a = graph.get_or_insert("a");
    let b = graph.get_or_insert("b");
    let c = graph.get_or_insert("c");
    let d = graph.get_or_insert("d");
    graph.add_edge(main, a);
    graph.add_edge(a, b);
    graph.add_edge(a, c);
    graph.add_edge(c, d);

    let mut comment_lines = Vec::new();
    write_pr_comment(&graph, "a", 0, &mut comment_lines);

    let pulls = vec![
        sample_pull(1, "a", "main"),
        sample_pull(2, "b", "a"),
        sample_pull(3, "c", "a"),
        sample_pull(4, "d", "c"),
    ];

    let updates = create_or_update_comments(&comment_lines, "a", &graph, &pulls);

    let mut updated_numbers = updates
        .iter()
        .map(|update| update.as_ref().unwrap().number)
        .collect::<Vec<_>>();
    updated_numbers.sort_unstable();

    assert_eq!(updated_numbers, vec![1, 2, 3, 4]);
}

#[test]
fn one_missing_pull_does_not_stop_the_other_comments() {
    let graph = graph_of(&[("main", "a"), ("a", "b")]);
    let lines = vec![line("a", 0)];
    let updates =
        create_or_update_comments(&lines, "a", &graph, &[sample_pull(1, "a", "main")]);
    assert_eq!(updates.len(), 2);
    assert_eq!(updates[0].as_ref().unwrap().number, 1);
    assert!(matches!(
        &updates[1],
        Err(SyncError::PullNotFound { branch }) if branch == "b"
    ));
}

#[test]
fn failures_are_told_down_to_the_bottom_of_the_stack() {
    let graph = graph_of(&[("main", "x"), ("main", "a"), ("a", "b"), ("a", "c"), ("b", "d")]);
    let visits = sync_order(&graph, "main");
    let at = visits.iter().position(|visit| visit.branch == "d").unwrap();
    assert_eq!(
        failure_contexts(&visits, at),
        vec![
            "failed to find or create pr from d into b",
            "failed to find or create pr from b into a",
            "failed to find or create pr from a into main",
        ]
    );
    let at = visits.iter().position(|visit| visit.branch == "c").unwrap();
    assert_eq!(
        failure_contexts(&visits, at),
        vec![
            "failed to find or create pr from c into a",
            "failed to find or create pr from a into main",
        ]
    );
    assert_eq!(
        failure_contexts(&visits, 0),
        vec!["failed to find or create pr from x into main"]
    );
}

#[test]
fn failures_stay_within_their_stack() {
    let graph = graph_of(&[("main", "a"), ("a", "b"), ("main", "d"), ("d", "a")]);
    let visits = sync_order(&graph, "main");
    assert_eq!(
        visits_of(&visits),
        vec![
            ("a", "main", true),
            ("b", "a", false),
            ("d", "main", true),
            ("a", "d", false),
            ("b", "a", false),
        ]
    );
    assert_eq!(
        failure_contexts(&visits, 4),
        vec![
            "failed to find or create pr from b into a",
            "failed to find or create pr from a into d",
            "failed to find or create pr from d into main",
        ]
    );
    assert_eq!(
        failure_contexts(&visits, 2),
        vec!["failed to find or create pr from d into main"]
    );
}
