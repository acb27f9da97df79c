use jj_sync_prs::command::Command;
use jj_sync_prs::draft::{parse_pr_editor_text, GetPrTitleAndBody, IGNORED_MARKER};
use jj_sync_prs::error::SyncError;
use jj_sync_prs::github::PullRequestInfo;
use jj_sync_prs::graph::Graph;
use jj_sync_prs::pull_request::{PrAction, PrEvent, PrFlow};
use jj_sync_prs::sync::find_or_create_prs;
use jj_sync_prs::text::IntError;

fn sample_pull(number: u64, head_branch: &str, base_branch: &str) -> PullRequestInfo {
    PullRequestInfo {
        number,
        head_branch: head_branch.to_owned(),
        base_branch: base_branch.to_owned(),
        html_url: Some(format!("https://example.com/pull/{number}")),
        title: Some(format!("PR {head_branch}")),
        body: None,
    }
}

/// What stands around a flow, and what it was asked to do.
struct Surroundings {
    run: fn(&[String]) -> Option<String>,
    answer: Option<bool>,
    template: Option<&'static str>,
    edited: Result<Option<&'static str>, ()>,
    fail_update: bool,
    fail_create: bool,
    updated_bases: Vec<(u64, String)>,
    created: Vec<(String, String, String, Option<String>, bool)>,
    prompts: Vec<(String, bool)>,
    templates: Vec<String>,
    commands: Vec<String>,
    said: Vec<String>,
}

fn usual_output(args: &[String]) -> Option<String> {
    let text = if args.iter().any(|arg| arg == "--count") {
        "1\n"
    } else if args.iter().any(|arg| arg == "description ++ \"\\n\"") {
        "Title\nBody\n"
    } else if args.iter().any(|arg| arg == "--git") {
        ""
    } else if args.iter().any(|arg| arg == "builtin_log_detailed") {
        "log"
    } else {
        ""
    };
    Some(text.to_owned())
}

impl Surroundings {
    fn new() -> Surroundings {
        Surroundings {
            run: usual_output,
            answer: Some(true),
            template: None,
            edited: Ok(Some("A title\n\nA body")),
            fail_update: false,
            fail_create: false,
            updated_bases: Vec::new(),
            created: Vec::new(),
            prompts: Vec::new(),
            templates: Vec::new(),
            commands: Vec::new(),
            said: Vec::new(),
        }
    }

    fn output(&mut self, command: &Command) -> PrEvent {
        assert_eq!(command.program, "jj");
        self.commands.push(command.args.join(" "));
        match (self.run)(&command.args) {
            Some(text) => PrEvent::Output(text),
            None => PrEvent::Failed,
        }
    }

    fn find_or_create_pr(
        &mut self,
        target: &str,
        branch: &str,
        pulls: &mut Vec<PullRequestInfo>,
    ) -> Result<(), String> {
        let (mut flow, mut action) = PrFlow::start(target, branch, pulls);
        loop {
            let event = match action {
                PrAction::UpdateBase { number, base, notice } => {
                    self.said.push(notice);
                    self.updated_bases.push((number, base.clone()));
                    if self.fail_update {
                        PrEvent::Failed
                    } else {
                        PrEvent::Pull(PullRequestInfo {
                            number,
                            head_branch: branch.to_owned(),
                            base_branch: base,
                            html_url: Some("https://example.com/pr/1".to_owned()),
                            title: Some("title".to_owned()),
                            body: None,
                        })
                    }
                }
                PrAction::Preview(command) => self.output(&command),
                PrAction::Confirm { prompt, default } => {
                    self.prompts.push((prompt, default));
                    match self.answer {
                        Some(yes) => PrEvent::Answer(yes),
                        None => PrEvent::Failed,
                    }
                }
                PrAction::Run(command) => self.output(&command),
                PrAction::ReadTemplate { path } => {
                    assert_eq!(path, ".github/pull_request_template.md");
                    match self.template {
                        Some(text) => PrEvent::Template(text.to_owned()),
                        None => PrEvent::Failed,
                    }
                }
                PrAction::Edit { text } => {
                    self.templates.push(text);
                    match self.edited {
                        Ok(edited) => PrEvent::Edited(edited.map(|text| text.to_owned())),
                        Err(()) => PrEvent::Failed,
                    }
                }
                PrAction::CreatePull { title, head, base, body, draft } => {
                    self.created.push((
                        title.clone(),
                        head.clone(),
                        base.clone(),
                        body.clone(),
                        draft,
                    ));
                    if self.fail_create {
                        PrEvent::Failed
                    } else {
                        PrEvent::Pull(PullRequestInfo {
                            number: 999,
                            head_branch: head,
                            base_branch: base,
                            html_url: Some("https://example.com/pr/999".to_owned()),
                            title: Some(title),
                            body,
                        })
                    }
                }
                PrAction::Finish { message } => {
                    self.said.extend(message);
                    return Ok(());
                }
                PrAction::Abort { context } => return Err(context.unwrap_or_default()),
                PrAction::Reject(error) => return Err(error.message()),
            };
            assert!(flow.fits(pulls));
            action = flow.step(event, pulls);
        }
    }
}

#[test]
fn find_or_create_pr_updates_base_when_needed() {
    let mut around = Surroundings::new();
    let mut pulls = vec![sample_pull(1, "feature", "old-base")];

    around.find_or_create_pr("new-base", "feature", &mut pulls).unwrap();

    assert_eq!(around.updated_bases, vec![(1, "new-base".to_owned())]);
    assert_eq!(pulls[0].base_branch, "new-base");
    assert_eq!(
        around.said,
        vec!["updating target of PR #1 from old-base <- feature to new-base <- feature"]
    );
}

#[test]
fn find_or_create_pr_noop_when_base_matches() {
    let mut around = Surroundings::new();
    let mut pulls = vec![sample_pull(1, "feature", "main")];

    around.find_or_create_pr("main", "feature", &mut pulls).unwrap();

    assert!(around.updated_bases.is_empty());
    assert!(around.said.is_empty());
}

#[test]
fn failed_update_names_both_targets() {
    let mut around = Surroundings::new();
    around.fail_update = true;
    let mut pulls = vec![sample_pull(12, "feature", "old")];

    let err = around.find_or_create_pr("new", "feature", &mut pulls).unwrap_err();

    assert_eq!(
        err,
        "failed updating target of PR #12 from old <- feature to new <- feature"
    );
    assert_eq!(pulls[0].base_branch, "old");
}

#[test]
fn find_or_create_pr_creates_when_missing_and_confirmed() {
    let mut around = Surroundings::new();

    let mut pulls = Vec::new();
    around.find_or_create_pr("main", "feature", &mut pulls).unwrap();

    let created = around.created;
    assert_eq!(created.len(), 1);
    assert_eq!(created[0].0, "A title");
    assert_eq!(created[0].1, "feature");
    assert_eq!(created[0].2, "main");
    assert_eq!(created[0].3.as_deref(), Some("A body"));
    assert!(created[0].4);
    assert_eq!(pulls.len(), 1);
    assert_eq!(
        around.prompts,
        vec![(
            "PR from main <- feature doesn't exist. Do you want to create it?".to_owned(),
            true
        )]
    );
    assert_eq!(
        around.commands,
        vec![
            "log -r main::feature",
            "log --count -r main..feature",
            "log --no-graph -r main..feature -T description ++ \"\\n\"",
            "diff --git -r main..feature",
            "log --color never -r main..feature -T builtin_log_detailed",
        ]
    );
    assert_eq!(
        around.templates,
        vec![format!("Title\n\nBody\n\nJJ: {IGNORED_MARKER}\n\nlog\n")]
    );
    assert_eq!(
        around.said,
        vec!["Created PR from main <- feature: https://example.com/pr/999"]
    );
}

#[test]
fn find_or_create_pr_skips_create_when_not_confirmed() {
    let mut around = Surroundings::new();
    around.answer = Some(false);

    let mut pulls = Vec::new();
    around.find_or_create_pr("main", "feature", &mut pulls).unwrap();

    assert!(around.created.is_empty());
    assert!(pulls.is_empty());
    assert_eq!(around.said, vec!["skipping creating PR from main <- feature"]);
}

#[test]
fn find_or_create_pr_propagates_create_errors() {
    let mut around = Surroundings::new();
    around.fail_create = true;

    let mut pulls = Vec::new();
    let err = around.find_or_create_pr("main", "feature", &mut pulls).unwrap_err();
    assert!(err.contains("failed to create PR from main <- feature"));
    assert!(pulls.is_empty());
}

#[test]
fn preview_may_fail_but_the_rest_may_not() {
    let mut around = Surroundings::new();
    around.run = |args| {
        if args.iter().any(|arg| arg == "main::feature") {
            None
        } else {
            usual_output(args)
        }
    };
    let mut pulls = Vec::new();
    around.find_or_create_pr("main", "feature", &mut pulls).unwrap();
    assert_eq!(pulls.len(), 1);

    let failing: [fn(&[String]) -> Option<String>; 4] = [
        |args| if args[1] == "--count" { None } else { usual_output(args) },
        |args| if args[1] == "--no-graph" { None } else { usual_output(args) },
        |args| if args[0] == "diff" { None } else { usual_output(args) },
        |args| if args[1] == "--color" { None } else { usual_output(args) },
    ];
    for run in failing {
        let mut around = Surroundings::new();
        around.run = run;
        let mut pulls = Vec::new();
        assert_eq!(around.find_or_create_pr("main", "feature", &mut pulls).unwrap_err(), "");
        assert!(around.created.is_empty());
        assert!(pulls.is_empty());
    }

    let mut around = Surroundings::new();
    around.answer = None;
    assert!(around.find_or_create_pr("main", "feature", &mut Vec::new()).is_err());

    let mut around = Surroundings::new();
    around.edited = Err(());
    assert!(around.find_or_create_pr("main", "feature", &mut Vec::new()).is_err());
}

#[test]
fn counts_must_be_integers() {
    let cases: [(fn(&[String]) -> Option<String>, &str); 4] = [
        (|_| Some(" \n".to_owned()), "cannot parse integer from empty string"),
        (|_| Some("one\n".to_owned()), "invalid digit found in string"),
        (|_| Some("2147483648\n".to_owned()), "number too large to fit in target type"),
        (|_| Some("-2147483649\n".to_owned()), "number too small to fit in target type"),
    ];
    for (run, expected) in cases {
        let mut around = Surroundings::new();
        around.run = run;
        let mut pulls = Vec::new();
        assert_eq!(
            around.find_or_create_pr("main", "feature", &mut pulls).unwrap_err(),
            expected
        );
        assert!(pulls.is_empty());
    }
    assert_eq!(
        SyncError::Count(IntError::InvalidDigit).message(),
        "invalid digit found in string"
    );
}

#[test]
fn blank_edit_creates_nothing() {
    let mut around = Surroundings::new();
    around.edited = Ok(Some(" \n\t"));
    let mut pulls = Vec::new();
    assert_eq!(
        around.find_or_create_pr("main", "feature", &mut pulls).unwrap_err(),
        "empty PR title and description"
    );
    assert!(around.created.is_empty());
    assert!(pulls.is_empty());
}

#[test]
fn get_pr_title_and_body_handles_editor_cancel() {
    let mut around = Surroundings::new();
    around.edited = Ok(None);

    let mut pulls = Vec::new();
    around.find_or_create_pr("main", "feature", &mut pulls).unwrap();

    assert_eq!(
        around.created,
        vec![("feature".to_owned(), "feature".to_owned(), "main".to_owned(), None, true)]
    );
}

#[test]
fn get_pr_title_and_body_uses_pr_template_when_present() {
    let mut around = Surroundings::new();
    around.run = |args| {
        let text = if args.iter().any(|arg| arg == "--count") {
            "1\n"
        } else if args.iter().any(|arg| arg == "description ++ \"\\n\"") {
            "Commit title\nMore details\n"
        } else if args.iter().any(|arg| arg == "--git") {
            "diff --git a b\n"
        } else if args.iter().any(|arg| arg == "builtin_log_detailed") {
            "log output"
        } else {
            ""
        };
        Some(text.to_owned())
    };
    around.template = Some("Template body");
    around.edited = Ok(Some("Edited title\n\nEdited body"));

    around.find_or_create_pr("main", "feature", &mut Vec::new()).unwrap();
    assert_eq!(around.created[0].0, "Edited title");

    let template = &around.templates[0];
    assert!(template.contains("Template body"));
    assert!(template.contains("log output"));
    assert!(template.contains("diff --git a b"));
    assert_eq!(
        *template,
        format!(
            "Commit title\n\nTemplate body\n\nJJ: {IGNORED_MARKER}\n\nlog output\nMore details\n\n\
             diff --git a b\n\n"
        )
    );
}

#[test]
fn find_or_create_prs_recurses_with_parent_as_target() {
    let mut graph = Graph::default();
    let main = graph.get_or_insert("main");
    let a = graph.get_or_insert("a");
    let b = graph.get_or_insert("b");
    let c = graph.get_or_insert("c");
    let d = graph.get_or_insert("d");
    graph.add_edge(main, a);
    graph.add_edge(a, b);
    graph.add_edge(a, c);
    graph.add_edge(b, d);

    let mut pulls = vec![
        sample_pull(10, "a", "old"),
        sample_pull(11, "b", "old"),
        sample_pull(12, "c", "old"),
        sample_pull(13, "d", "old"),
    ];

    let mut around = Surroundings::new();
    for visit in find_or_create_prs("a", "main", &graph, true) {
        around.find_or_create_pr(&visit.target, &visit.branch, &mut pulls).unwrap();
    }

    let mut updates = around.updated_bases;
    updates.sort_by_key(|(number, _)| *number);
    assert_eq!(
        updates,
        vec![
            (10, "main".to_owned()),
            (11, "a".to_owned()),
            (12, "a".to_owned()),
            (13, "b".to_owned()),
        ]
    );
}

#[test]
fn second_sync_has_nothing_to_do() {
    let mut around = Surroundings::new();
    let mut pulls = vec![sample_pull(1, "b", "old"), sample_pull(2, "other", "x")];
    around.find_or_create_pr("main", "a", &mut pulls).unwrap();
    around.find_or_create_pr("a", "b", &mut pulls).unwrap();
    assert_eq!(around.created.len(), 1);
    assert_eq!(around.updated_bases.len(), 1);

    let mut again = Surroundings::new();
    again.find_or_create_pr("main", "a", &mut pulls).unwrap();
    again.find_or_create_pr("a", "b", &mut pulls).unwrap();
    assert!(again.created.is_empty());
    assert!(again.updated_bases.is_empty());
    assert!(again.prompts.is_empty());

    let (_, action) = PrFlow::start("y", "other", &pulls);
    assert!(matches!(action, PrAction::UpdateBase { number: 2, .. }));
}

#[test]
fn created_pull_without_a_link_is_told_without_one() {
    let mut pulls = Vec::new();
    let (mut flow, _) = PrFlow::start("main", "f", &pulls);
    let events = vec![
        PrEvent::Failed,
        PrEvent::Answer(true),
        PrEvent::Output("0".to_owned()),
        PrEvent::Output(String::new()),
        PrEvent::Failed,
        PrEvent::Output(" ".to_owned()),
        PrEvent::Output(String::new()),
        PrEvent::Edited(None),
    ];
    for event in events {
        flow.step(event, &mut pulls);
    }
    let mut pull = sample_pull(5, "f", "main");
    pull.html_url = None;
    let end = flow.step(PrEvent::Pull(pull), &mut pulls);
    assert!(matches!(
        end,
        PrAction::Finish { message: Some(said) } if said == "Created PR from main <- f"
    ));
    assert_eq!(pulls.len(), 1);
    let after = flow.step(PrEvent::Answer(true), &mut pulls);
    assert!(matches!(after, PrAction::Abort { context: None }));
}

#[test]
fn parse_pr_editor_text_handles_marker() {
    let parsed = parse_pr_editor_text(
        "My title\n\nBody line\nJJ: Everything below this line will be ignored\nignored",
    )
    .unwrap()
    .unwrap();
    assert_eq!(parsed.0, "My title");
    assert_eq!(parsed.1, "Body line");
}

#[test]
fn parse_pr_editor_text_errors_on_empty() {
    let err = parse_pr_editor_text("  \n\t").unwrap_err();
    assert!(matches!(err, SyncError::EmptyEditorText));
    assert!(err.message().contains("empty PR title and description"));
}

#[test]
fn second_line_of_the_edited_text_is_skipped() {
    let read = |text: &str| parse_pr_editor_text(text).unwrap().unwrap();
    assert_eq!(read("T"), ("T".to_owned(), String::new()));
    assert_eq!(read("T\nlost\nB1\nB2\n"), ("T".to_owned(), "B1\nB2".to_owned()));
    assert_eq!(read("\n\nbody"), (String::new(), "body".to_owned()));
}

#[test]
fn saved_draft_gives_its_title_and_message() {
    let draft = GetPrTitleAndBody::get(
        1,
        "Title\nfirst\n\nsecond\n".to_owned(),
        None,
        "a diff".to_owned(),
        "a log".to_owned(),
    );
    assert_eq!(draft.message.as_deref(), Some("first\n\nsecond"));
    assert_eq!(draft.additional, None);
    assert_eq!(
        parse_pr_editor_text(&draft.template()).unwrap().unwrap(),
        ("Title".to_owned(), "first\n\nsecond\n".to_owned())
    );
}

#[test]
fn drafts_of_several_changes_have_no_title() {
    let plain = GetPrTitleAndBody::get(
        2,
        "One\nmore\n\nTwo\n".to_owned(),
        None,
        " \n".to_owned(),
        "log".to_owned(),
    );
    assert_eq!(plain.title, None);
    assert_eq!(plain.message, None);
    assert_eq!(plain.additional.as_deref(), Some("One\nmore\n\nTwo\n"));
    assert_eq!(plain.diff, None);
    assert_eq!(
        plain.template(),
        format!(
            "Enter PR title...\n\nJJ: {IGNORED_MARKER}\n\nlog\nOne\nmore\n\nTwo\n\n\n"
        )
    );
    assert_eq!(
        parse_pr_editor_text(&plain.template()).unwrap().unwrap(),
        ("Enter PR title...".to_owned(), String::new())
    );

    let with_template = GetPrTitleAndBody::get(
        2,
        "One\r\nTwo\r\n".to_owned(),
        Some("T".to_owned()),
        "d".to_owned(),
        "log".to_owned(),
    );
    assert_eq!(with_template.title, None);
    assert_eq!(with_template.message.as_deref(), Some("T"));
    assert_eq!(with_template.additional.as_deref(), Some("One\nTwo"));
    assert_eq!(with_template.diff.as_deref(), Some("d"));
}

#[test]
fn draft_of_one_change_without_a_description() {
    let draft =
        GetPrTitleAndBody::get(1, String::new(), None, String::new(), String::new());
    assert_eq!(draft.title, None);
    assert_eq!(draft.message.as_deref(), Some(""));
    assert_eq!(draft.additional, None);
}

#[test]
fn saved_draft_keeps_the_message_to_the_letter() {
    for message in ["", "one", "one\n", "\none\n\n\ntwo  \n", "a\rb"] {
        let draft = GetPrTitleAndBody::get(
            1,
            "Title\n".to_owned(),
            Some(message.to_owned()),
            "diff".to_owned(),
            "log".to_owned(),
        );
        assert_eq!(
            parse_pr_editor_text(&draft.template()).unwrap().unwrap(),
            ("Title".to_owned(), format!("{message}\n"))
        );
    }
}
