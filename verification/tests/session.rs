use jj_sync_prs::error::SyncError;
use jj_sync_prs::github::PullRequestInfo;
use jj_sync_prs::graph::Graph;
use jj_sync_prs::pull_request::{PrAction, PrEvent};
use jj_sync_prs::session::{SyncAction, SyncFlow};

fn graph_of(edges: &[(&str, &str)]) -> Graph {
    let mut graph = Graph::default();
    for (from, to) in edges {
        let from = graph.get_or_insert(from);
        let to = graph.get_or_insert(to);
        graph.add_edge(from, to);
    }
    graph
}

fn pull(number: u64, head_branch: &str, base_branch: &str) -> PullRequestInfo {
    PullRequestInfo {
        number,
        head_branch: head_branch.to_owned(),
        base_branch: base_branch.to_owned(),
        html_url: Some(format!("https://example.com/pull/{number}")),
        title: Some(format!("PR {head_branch}")),
        body: None,
    }
}

/// A service with its pull requests, and a user who answers every question the same way.
struct World {
    pulls: Vec<PullRequestInfo>,
    yes: bool,
    broken: Option<&'static str>,
    gaps: usize,
    requests: Vec<String>,
}

/// How a sync ended.
enum End {
    Comments(Vec<Result<(u64, String), SyncError>>),
    Failure(PrAction, Vec<String>),
}

impl World {
    fn new(pulls: Vec<PullRequestInfo>) -> World {
        World {
            pulls,
            yes: true,
            broken: None,
            gaps: 0,
            requests: Vec::new(),
        }
    }

    fn perform(&mut self, action: PrAction) -> PrEvent {
        match action {
            PrAction::UpdateBase { number, base, .. } => {
                self.requests.push(format!("update {number} {base}"));
                let at = self.pulls.iter().position(|p| p.number == number).unwrap();
                self.pulls[at].base_branch = base;
                PrEvent::Pull(self.pulls[at].clone())
            }
            PrAction::Preview(_) => PrEvent::Failed,
            PrAction::Confirm { .. } => PrEvent::Answer(self.yes),
            PrAction::Run(command) => {
                if command.args.iter().any(|arg| arg == "--count") {
                    PrEvent::Output("2".to_owned())
                } else {
                    PrEvent::Output(String::new())
                }
            }
            PrAction::ReadTemplate { .. } => PrEvent::Failed,
            PrAction::Edit { .. } => PrEvent::Edited(None),
            PrAction::CreatePull { title, head, base, body, draft } => {
                self.requests.push(format!("create {head} {base} {draft}"));
                if self.broken == Some(head.as_str()) {
                    return PrEvent::Failed;
                }
                let mut created = pull(100 + self.pulls.len() as u64, &head, &base);
                created.title = Some(title);
                created.body = body;
                self.pulls.push(created.clone());
                PrEvent::Pull(created)
            }
            PrAction::Finish { .. } => PrEvent::Done,
            PrAction::Abort { .. } | PrAction::Reject(_) => unreachable!(),
        }
    }

    fn sync(&mut self, graph: Graph, root: &str) -> End {
        assert!(graph.can_walk(root));
        let (mut sync, mut next) = SyncFlow::start(graph, root, self.pulls.clone());
        loop {
            match next {
                SyncAction::Visit { gap, action } => {
                    self.gaps += gap as usize;
                    let event = self.perform(action);
                    next = sync.step(event);
                }
                SyncAction::Fail { action, contexts } => {
                    assert!(matches!(
                        sync.step(PrEvent::Done),
                        SyncAction::Fail { action: PrAction::Abort { context: None }, .. }
                    ));
                    return End::Failure(action, contexts);
                }
                SyncAction::Comment { updates } => {
                    let updates =
                        updates.into_iter().map(|u| u.map(|u| (u.number, u.body))).collect();
                    return End::Comments(updates);
                }
            }
        }
    }
}

#[test]
fn sync_creates_and_retargets_in_order() {
    let edges = [("main", "a"), ("a", "b"), ("b", "c"), ("main", "d")];
    let mut world = World::new(vec![pull(1, "b", "main"), pull(2, "d", "main")]);
    let end = world.sync(graph_of(&edges), "main");

    assert_eq!(
        world.requests,
        vec!["create a main true", "update 1 a", "create c b true"]
    );
    assert_eq!(world.gaps, 2);
    match end {
        End::Comments(updates) => {
            let numbers: Vec<u64> = updates.iter().map(|u| u.as_ref().unwrap().0).collect();
            assert_eq!(numbers, vec![102, 1, 103]);
            let body = &updates[1].as_ref().unwrap().1;
            assert!(body.contains("> - [a](https://example.com/pull/102)\n"));
            assert!(body.contains(">   - [PR b](https://example.com/pull/1) 👈 you are here\n"));
            assert!(body.contains(">     - [c](https://example.com/pull/103)\n"));
        }
        End::Failure(..) => panic!("the sync failed"),
    }
}

#[test]
fn sync_again_asks_for_nothing() {
    let edges = [("main", "a"), ("a", "b"), ("a", "c"), ("main", "d")];
    let mut world = World::new(vec![pull(1, "c", "d")]);
    assert!(matches!(world.sync(graph_of(&edges), "main"), End::Comments(_)));
    assert_eq!(world.requests.len(), 4);

    let mut again = World::new(world.pulls.clone());
    again.yes = false;
    assert!(matches!(again.sync(graph_of(&edges), "main"), End::Comments(_)));
    assert!(again.requests.is_empty());
    assert_eq!(again.pulls.len(), world.pulls.len());
}

#[test]
fn refused_pull_requests_are_missed_in_the_comments() {
    let mut world = World::new(vec![pull(1, "b", "a")]);
    world.yes = false;
    match world.sync(graph_of(&[("main", "a"), ("a", "b")]), "main") {
        End::Comments(updates) => {
            assert!(matches!(
                &updates[0],
                Err(SyncError::PullNotFound { branch }) if branch == "a"
            ));
            assert!(matches!(
                &updates[1],
                Err(SyncError::FinalizeComment { branch }) if branch == "a"
            ));
            assert_eq!(updates.len(), 2);
        }
        End::Failure(..) => panic!("the sync failed"),
    }
    assert!(world.requests.is_empty());
}

#[test]
fn failure_stops_the_sync_and_tells_why() {
    let edges = [("main", "a"), ("a", "b"), ("main", "d")];
    let mut world = World::new(vec![pull(1, "a", "main")]);
    world.broken = Some("b");
    match world.sync(graph_of(&edges), "main") {
        End::Failure(action, contexts) => {
            assert!(matches!(
                action,
                PrAction::Abort { context: Some(said) } if said == "failed to create PR from a <- b"
            ));
            assert_eq!(
                contexts,
                vec![
                    "failed to find or create pr from b into a",
                    "failed to find or create pr from a into main",
                ]
            );
        }
        End::Comments(_) => panic!("the sync went through"),
    }
    assert_eq!(world.requests, vec!["create b a true"]);
}

#[test]
fn branch_on_two_others_follows_the_last_one() {
    let edges = [("main", "a"), ("main", "d"), ("a", "b"), ("d", "b")];
    let mut world = World::new(vec![pull(1, "a", "main"), pull(2, "d", "main"), pull(3, "b", "a")]);
    assert!(matches!(world.sync(graph_of(&edges), "main"), End::Comments(_)));
    assert_eq!(world.requests, vec!["update 3 d"]);
    assert!(matches!(world.sync(graph_of(&edges), "main"), End::Comments(_)));
    assert_eq!(world.requests, vec!["update 3 d", "update 3 a", "update 3 d"]);
}

#[test]
fn nothing_on_the_root_gives_no_comments() {
    let mut world = World::new(Vec::new());
    match world.sync(Graph::default(), "main") {
        End::Comments(updates) => assert!(updates.is_empty()),
        End::Failure(..) => panic!("the sync failed"),
    }
}

#[test]
fn sync_leaves_other_pull_requests_alone() {
    let edges = [("main", "a"), ("a", "b")];
    let before = vec![
        pull(1, "stranger", "main"),
        pull(2, "b", "main"),
        pull(3, "b", "elsewhere"),
        pull(4, "main", "release"),
    ];
    let mut world = World::new(before.clone());
    world.sync(graph_of(&edges), "main");

    assert_eq!(world.requests, vec!["create a main true", "update 2 a"]);
    assert_eq!(world.pulls.len(), 5);
    for i in [0, 2, 3] {
        assert_eq!(world.pulls[i].number, before[i].number);
        assert_eq!(world.pulls[i].head_branch, before[i].head_branch);
        assert_eq!(world.pulls[i].base_branch, before[i].base_branch);
    }
    assert_eq!(world.pulls[1].base_branch, "a");
    assert_eq!(world.pulls[4].head_branch, "a");
}
