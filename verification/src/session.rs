//! A whole sync: one pull request after the other, then the comments.

use vstd::prelude::*;

use crate::comment::{comment_update, IssueUpdate, UpdateView};
use crate::error::{ErrorView, SyncError};
use crate::github::{
    lemma_pull_from, lemma_pull_from_meaning, pull_from, pull_views, PullRequestInfo, PullView,
};
use crate::graph::{Graph, GraphView};
use crate::pull_request::{ActionView, EventView, FlowView, PrAction, PrEvent, PrFlow, StageView};
use crate::sync::{
    comment_updates, create_or_update_comments, failure_contexts, failures, law_comment_updates,
    law_sync_comments, outcome_views, pr_views, stack_comments, stack_views, sync_order, PrVisit,
    PrVisitView, StackView,
};
use crate::text::views;

verus! {

/// What a sync waits for.
#[derive(Debug)]
pub enum Phase {
    /// Nothing: the next pull request can be taken up.
    Between,
    /// What came of an action for the pull request that is being found or created.
    Within(PrFlow),
    /// Nothing: the sync is over.
    Over,
}

/// What a phase says.
pub enum PhaseView {
    Between,
    Within(FlowView),
    Over,
}

impl View for Phase {
    type V = PhaseView;

    open spec fn view(&self) -> PhaseView {
        match self {
            Phase::Between => PhaseView::Between,
            Phase::Within(flow) => PhaseView::Within(flow@),
            Phase::Over => PhaseView::Over,
        }
    }
}

/// What a sync is to do next.
#[derive(Debug)]
pub enum SyncAction {
    /// Leave a gap, if there is to be one, then do something for one pull request.
    Visit { gap: bool, action: PrAction },
    /// Give up: an action failed, or what came of it is of no use. What it was done for, the innermost
    /// reason first.
    Fail { action: PrAction, contexts: Vec<String> },
    /// Give the pull requests their new descriptions. Then the sync is over.
    Comment { updates: Vec<Result<IssueUpdate, SyncError>> },
}

/// What an action of a sync says.
pub enum SyncActionView {
    Visit { gap: bool, action: ActionView },
    Fail { action: ActionView, contexts: Seq<Seq<char>> },
    Comment { updates: Seq<Result<UpdateView, ErrorView>> },
}

impl View for SyncAction {
    type V = SyncActionView;

    open spec fn view(&self) -> SyncActionView {
        match self {
            SyncAction::Visit { gap, action } => SyncActionView::Visit {
                gap: *gap,
                action: action@,
            },
            SyncAction::Fail { action, contexts } => SyncActionView::Fail {
                action: action@,
                contexts: views(contexts@),
            },
            SyncAction::Comment { updates } => SyncActionView::Comment {
                updates: outcome_views(updates@),
            },
        }
    }
}

/// The new descriptions of the pull requests of several stacks.
pub open spec fn stack_updates(stacks: Seq<StackView>, pulls: Seq<PullView>) -> Seq<
    Result<UpdateView, ErrorView>,
>
    decreases stacks.len(),
{
    if stacks.len() == 0 {
        Seq::empty()
    } else {
        stack_updates(stacks.drop_last(), pulls) + comment_updates(
            stacks.last().lines,
            stacks.last().lines,
            pulls,
        )
    }
}

/// How far a sync has come: the visits that it makes, how many of them are over, and the pull
/// requests that are known.
pub struct SyncView {
    pub graph: GraphView,
    pub root: Seq<char>,
    pub visits: Seq<PrVisitView>,
    pub at: nat,
    pub phase: PhaseView,
    pub pulls: Seq<PullView>,
}

impl SyncView {
    /// The sync with something changed.
    pub open spec fn with(self, at: nat, phase: PhaseView, pulls: Seq<PullView>) -> SyncView {
        SyncView { graph: self.graph, root: self.root, visits: self.visits, at, phase, pulls }
    }

    /// The sync once it has been told what to do for the pull request that it is at.
    pub open spec fn took(
        self,
        flow: FlowView,
        action: ActionView,
        pulls: Seq<PullView>,
        gap: bool,
    ) -> (SyncView, SyncActionView) {
        match action {
            ActionView::Abort { .. } | ActionView::Reject(_) => (
                self.with(self.at, PhaseView::Over, pulls),
                SyncActionView::Fail { action, contexts: failures(self.visits, self.at as int) },
            ),
            ActionView::Finish { .. } => (
                self.with(self.at + 1, PhaseView::Between, pulls),
                SyncActionView::Visit { gap, action },
            ),
            _ => (
                self.with(self.at, PhaseView::Within(flow), pulls),
                SyncActionView::Visit { gap, action },
            ),
        }
    }

    /// The sync once it has taken up the next pull request, or else the comments. Only the first pull
    /// request of a stack comes without a gap before it.
    pub open spec fn enter(self) -> (SyncView, SyncActionView) {
        if self.at < self.visits.len() {
            let visit = self.visits[self.at as int];
            let (flow, action) = FlowView::start(visit.target, visit.branch, self.pulls);
            self.took(flow, action, self.pulls, !visit.is_first)
        } else {
            (
                self.with(self.at, PhaseView::Over, self.pulls),
                SyncActionView::Comment {
                    updates: stack_updates(
                        self.graph.long_stacks(self.graph.children(self.root)),
                        self.pulls,
                    ),
                },
            )
        }
    }

    /// A sync before its first visit.
    pub open spec fn fresh(graph: GraphView, root: Seq<char>, pulls: Seq<PullView>) -> SyncView {
        SyncView {
            graph,
            root,
            visits: graph.sync_order(graph.children(root), root),
            at: 0,
            phase: PhaseView::Between,
            pulls,
        }
    }

    /// What an event leads to.
    pub open spec fn step(self, event: EventView) -> (SyncView, SyncActionView) {
        match self.phase {
            PhaseView::Between => self.enter(),
            PhaseView::Within(flow) => {
                let (next, action, pulls) = flow.step(event, self.pulls);
                self.took(next, action, pulls, false)
            },
            PhaseView::Over => (
                self,
                SyncActionView::Fail {
                    action: ActionView::Abort { context: None },
                    contexts: Seq::empty(),
                },
            ),
        }
    }

    /// The visits are those that the graph asks for, and one is under way only if there is one left.
    pub open spec fn wf(self) -> bool {
        &&& self.graph.wf()
        &&& self.graph.walkable(self.root)
        &&& self.visits == self.graph.sync_order(self.graph.children(self.root), self.root)
        &&& self.at <= self.visits.len()
        &&& self.phase matches PhaseView::Within(flow) ==> {
            &&& self.at < self.visits.len()
            &&& flow.fits(self.pulls.len())
            &&& flow.stage !is Finished
        }
    }
}

/// A sync.
#[derive(Debug)]
pub struct SyncFlow {
    graph: Graph,
    root: String,
    visits: Vec<PrVisit>,
    at: usize,
    phase: Phase,
    pulls: Vec<PullRequestInfo>,
}

impl View for SyncFlow {
    type V = SyncView;

    closed spec fn view(&self) -> SyncView {
        SyncView {
            graph: self.graph@,
            root: self.root@,
            visits: pr_views(self.visits@),
            at: self.at as nat,
            phase: self.phase@,
            pulls: pull_views(self.pulls@),
        }
    }
}

proof fn lemma_long_stacks(graph: GraphView, branches: Seq<Seq<char>>)
    ensures
        forall|k: int|
            0 <= k < graph.long_stacks(branches).len() ==> {
                &&& branches.contains((#[trigger] graph.long_stacks(branches)[k]).branch)
                &&& graph.long_stacks(branches)[k].lines == graph.stack_lines(
                    graph.long_stacks(branches)[k].branch,
                    0,
                )
            },
    decreases branches.len(),
{
    if branches.len() > 0 {
        let rest = branches.drop_last();
        lemma_long_stacks(graph, rest);
        let front = graph.long_stacks(rest);
        let all = graph.long_stacks(branches);
        assert forall|k: int| 0 <= k < all.len() implies {
            &&& branches.contains((#[trigger] all[k]).branch)
            &&& all[k].lines == graph.stack_lines(all[k].branch, 0)
        } by {
            if k < front.len() {
                assert(all[k] == front[k]);
                let m = choose|m: int| 0 <= m < rest.len() && rest[m] == front[k].branch;
                assert(branches[m] == front[k].branch);
            } else {
                assert(branches[branches.len() - 1] == all[k].branch);
            }
        }
    }
}

impl SyncFlow {
    /// The visits are those that the graph asks for, and one is under way only if there is one left.
    pub open spec fn wf(&self) -> bool {
        self@.wf()
    }

    /// Starts the sync of everything stacked on the branch at the root, given the pull requests that
    /// there are.
    pub fn start(graph: Graph, root: &str, pulls: Vec<PullRequestInfo>) -> (out: (
        SyncFlow,
        SyncAction,
    ))
        requires
            graph.wf(),
            graph@.walkable(root@),
        ensures
            out.0.wf(),
            (out.0@, out.1@) == SyncView::fresh(graph@, root@, pull_views(pulls@)).enter(),
    {
        let visits = sync_order(&graph, root);
        let mut sync = SyncFlow {
            graph,
            root: root.to_owned(),
            visits,
            at: 0,
            phase: Phase::Between,
            pulls,
        };
        let action = sync.enter();
        (sync, action)
    }

    /// Works out the new descriptions of all pull requests that are part of a stack.
    fn comments(&self) -> (out: Vec<Result<IssueUpdate, SyncError>>)
        requires
            self.wf(),
        ensures
            outcome_views(out@) == stack_updates(
                self@.graph.long_stacks(self@.graph.children(self@.root)),
                self@.pulls,
            ),
    {
        let stacks = stack_comments(&self.graph, self.root.as_str());
        let ghost known = pull_views(self.pulls@);
        let ghost names = self.graph@.children(self.root@);
        let ghost all = stack_views(stacks@);
        proof {
            lemma_long_stacks(self.graph@, names);
        }
        let mut out: Vec<Result<IssueUpdate, SyncError>> = Vec::new();
        assert(outcome_views(out@) =~= stack_updates(all.take(0), known));
        let mut k: usize = 0;
        while k < stacks.len()
            invariant
                self.graph.wf(),
                self.graph@.walkable(self.root@),
                names == self.graph@.children(self.root@),
                all == stack_views(stacks@),
                all == self.graph@.long_stacks(names),
                known == pull_views(self.pulls@),
                forall|k: int|
                    0 <= k < all.len() ==> {
                        &&& names.contains((#[trigger] all[k]).branch)
                        &&& all[k].lines == self.graph@.stack_lines(all[k].branch, 0)
                    },
                k <= stacks@.len(),
                outcome_views(out@) == stack_updates(all.take(k as int), known),
            decreases stacks.len() - k,
        {
            let stack = &stacks[k];
            assert(all[k as int] == stack@);
            proof {
                let m = choose|m: int| 0 <= m < names.len() && names[m] == stack@.branch;
                assert(self.graph@.ends(names[m]));
            }
            let ghost before = out@;
            let mut more = create_or_update_comments(
                stack.lines.as_slice(),
                stack.branch.as_str(),
                &self.graph,
                self.pulls.as_slice(),
            );
            let ghost added = more@;
            out.append(&mut more);
            proof {
                assert(outcome_views(out@) =~= outcome_views(before) + outcome_views(added));
                assert(all.take(k + 1).drop_last() =~= all.take(k as int));
            }
            k += 1;
        }
        assert(all.take(k as int) =~= all);
        out
    }

    fn took(&mut self, flow: PrFlow, action: PrAction, gap: bool) -> (out: SyncAction)
        requires
            old(self)@.graph.wf(),
            old(self)@.graph.walkable(old(self)@.root),
            old(self)@.visits == old(self)@.graph.sync_order(
                old(self)@.graph.children(old(self)@.root),
                old(self)@.root,
            ),
            old(self)@.at < old(self)@.visits.len(),
            flow@.fits(old(self)@.pulls.len()),
            flow@.stage is Finished ==> {
                ||| action@ is Finish
                ||| action@ is Abort
                ||| action@ is Reject
            },
        ensures
            final(self).wf(),
            (final(self)@, out@) == old(self)@.took(flow@, action@, old(self)@.pulls, gap),
    {
        match action {
            PrAction::Abort { .. } | PrAction::Reject(_) => {
                let contexts = failure_contexts(self.visits.as_slice(), self.at);
                self.phase = Phase::Over;
                SyncAction::Fail { action, contexts }
            },
            PrAction::Finish { .. } => {
                assert(self.at < self.visits.len());
                self.at = self.at + 1;
                self.phase = Phase::Between;
                SyncAction::Visit { gap, action }
            },
            _ => {
                self.phase = Phase::Within(flow);
                SyncAction::Visit { gap, action }
            },
        }
    }

    fn enter(&mut self) -> (out: SyncAction)
        requires
            old(self).wf(),
        ensures
            final(self).wf(),
            (final(self)@, out@) == old(self)@.enter(),
    {
        if self.at < self.visits.len() {
            let visit = &self.visits[self.at];
            assert(pr_views(self.visits@)[self.at as int] == visit@);
            let gap = !visit.is_first;
            let (flow, action) = PrFlow::start(
                visit.target.as_str(),
                visit.branch.as_str(),
                self.pulls.as_slice(),
            );
            self.took(flow, action, gap)
        } else {
            let updates = self.comments();
            self.phase = Phase::Over;
            SyncAction::Comment { updates }
        }
    }

    /// Takes what came of the last action, and says what is to be done next.
    pub fn step(&mut self, event: PrEvent) -> (out: SyncAction)
        requires
            old(self).wf(),
        ensures
            final(self).wf(),
            (final(self)@, out@) == old(self)@.step(event@),
    {
        let mut phase = Phase::Over;
        std::mem::swap(&mut phase, &mut self.phase);
        match phase {
            Phase::Between => {
                self.phase = Phase::Between;
                self.enter()
            },
            Phase::Within(flow) => {
                let mut flow = flow;
                let action = flow.step(event, &mut self.pulls);
                self.took(flow, action, false)
            },
            Phase::Over => {
                let contexts: Vec<String> = Vec::new();
                assert(views(contexts@) =~= Seq::empty());
                SyncAction::Fail { action: PrAction::Abort { context: None }, contexts }
            },
        }
    }
}

// A sync as a whole.

/// Whether there is nothing left to do for a pull request: there is one from the branch, and the first
/// such one goes into the target.
pub open spec fn settled(visit: PrVisitView, pulls: Seq<PullView>) -> bool {
    FlowView::start(visit.target, visit.branch, pulls).1 == (ActionView::Finish { message: None })
}

/// Whether no branch is visited twice.
pub open spec fn distinct(visits: Seq<PrVisitView>) -> bool {
    forall|j: int, k: int|
        0 <= j < k < visits.len() ==> (#[trigger] visits[j]).branch != (#[trigger] visits[k]).branch
}

impl SyncView {
    /// A sync after several events.
    pub open spec fn run(self, events: Seq<EventView>) -> SyncView
        decreases events.len(),
    {
        if events.len() == 0 {
            self
        } else {
            self.run(events.drop_last()).step(events.last()).0
        }
    }

    /// Whether the service, if it gives back a pull request, gives back one from the branch that is
    /// visited.
    pub open spec fn fits_branch(self, event: EventView) -> bool {
        self.phase is Within ==> (event matches EventView::Pull(pull) ==> pull.head_branch
            == self.visits[self.at as int].branch)
    }

    /// Whether the service only ever gives back pull requests from the branch that is visited.
    pub open spec fn branches_fit(self, events: Seq<EventView>) -> bool
        decreases events.len(),
    {
        events.len() == 0 || {
            &&& self.branches_fit(events.drop_last())
            &&& self.run(events.drop_last()).fits_branch(events.last())
        }
    }

    /// Whether an event is what the user and the service are asked for: the user does not refuse, and
    /// the service gives back a pull request from the branch that is visited, into its target.
    pub open spec fn agrees(self, event: EventView) -> bool {
        &&& self.fits_branch(event)
        &&& self.phase is Within ==> match event {
            EventView::Answer(yes) => yes,
            EventView::Pull(pull) => pull.base_branch == self.visits[self.at as int].target,
            _ => true,
        }
    }

    /// Whether all events are what the user and the service are asked for.
    pub open spec fn agreed(self, events: Seq<EventView>) -> bool
        decreases events.len(),
    {
        events.len() == 0 || {
            &&& self.agreed(events.drop_last())
            &&& self.run(events.drop_last()).agrees(events.last())
        }
    }

    /// Whether the visit that is under way is about its own pull request.
    spec fn tracks(self) -> bool {
        &&& self.at <= self.visits.len()
        &&& self.phase matches PhaseView::Within(flow) ==> {
            let visit = self.visits[self.at as int];
            let i = pull_from(self.pulls, visit.branch);
            &&& self.at < self.visits.len()
            &&& flow.target == visit.target
            &&& flow.branch == visit.branch
            &&& flow.stage !is Finished
            &&& match flow.stage {
                StageView::Retargeting { index, .. } => index == i && i < self.pulls.len(),
                _ => i == self.pulls.len(),
            }
        }
    }

    /// What a step can change: the first pull request from the branch that is visited is replaced, or
    /// one is put behind the others if there is none.
    proof fn lemma_tracks(self, event: EventView)
        requires
            self.tracks(),
        ensures
            self.step(event).0.tracks(),
            self.step(event).0.visits == self.visits,
            self.step(event).0.pulls != self.pulls ==> {
                let i = pull_from(self.pulls, self.visits[self.at as int].branch) as int;
                &&& self.phase is Within
                &&& event is Pull
                &&& self.step(event).0.pulls == if i < self.pulls.len() {
                    self.pulls.update(i, event->Pull_0)
                } else {
                    self.pulls.push(event->Pull_0)
                }
            },
    {
        if self.at < self.visits.len() {
            lemma_pull_from_meaning(self.pulls, self.visits[self.at as int].branch);
        }
    }

    /// Whether, besides, nothing is left to do for what was visited.
    spec fn on_course(self) -> bool {
        &&& self.tracks()
        &&& forall|k: int| 0 <= k < self.at ==> settled(#[trigger] self.visits[k], self.pulls)
    }

    proof fn lemma_on_course(self, event: EventView)
        requires
            distinct(self.visits),
            self.on_course(),
            self.agrees(event),
        ensures
            self.step(event).1 !is Fail ==> self.step(event).0.on_course(),
            self.step(event).0.visits == self.visits,
    {
        self.lemma_tracks(event);
        let next = self.step(event).0;
        if self.at < self.visits.len() {
            let visit = self.visits[self.at as int];
            lemma_pull_from_meaning(self.pulls, visit.branch);
            if next.pulls != self.pulls {
                let given = event->Pull_0;
                lemma_given(self.pulls, next.pulls, given, visit.branch);
                assert(settled(visit, next.pulls));
                assert forall|k: int| 0 <= k < self.at implies settled(
                    #[trigger] self.visits[k],
                    next.pulls,
                ) by {
                    lemma_others(
                        self.pulls,
                        next.pulls,
                        given,
                        visit.branch,
                        self.visits[k].branch,
                    );
                }
            }
        }
    }

    proof fn lemma_run_on_course(self, events: Seq<EventView>)
        requires
            distinct(self.visits),
            self.on_course(),
            self.agreed(events),
        ensures
            self.run(events).visits == self.visits,
            self.run(events).phase !is Over || self.run(events).at == self.visits.len()
                ==> self.run(events).on_course(),
        decreases events.len(),
    {
        if events.len() > 0 {
            self.lemma_run_on_course(events.drop_last());
            let before = self.run(events.drop_last());
            if before.phase !is Over {
                before.lemma_on_course(events.last());
            }
        }
    }
}

/// That the first pull request from a branch is the one that was put into its place.
proof fn lemma_given(
    before: Seq<PullView>,
    after: Seq<PullView>,
    given: PullView,
    branch: Seq<char>,
)
    requires
        given.head_branch == branch,
        ({
            let i = pull_from(before, branch) as int;
            after == if i < before.len() {
                before.update(i, given)
            } else {
                before.push(given)
            }
        }),
    ensures
        pull_from(after, branch) == pull_from(before, branch),
        pull_from(after, branch) < after.len(),
        after[pull_from(after, branch) as int] == given,
{
    let i = pull_from(before, branch) as int;
    lemma_pull_from_meaning(before, branch);
    assert forall|k: int| 0 <= k < i implies (#[trigger] after[k]).head_branch != branch by {
        assert(after[k] == before[k]);
    }
    lemma_pull_from(after, branch, i);
}

/// That the first pull request from another branch stays what it is.
proof fn lemma_others(
    before: Seq<PullView>,
    after: Seq<PullView>,
    given: PullView,
    branch: Seq<char>,
    other: Seq<char>,
)
    requires
        given.head_branch == branch,
        other != branch,
        pull_from(before, other) < before.len(),
        ({
            let i = pull_from(before, branch) as int;
            after == if i < before.len() {
                before.update(i, given)
            } else {
                before.push(given)
            }
        }),
    ensures
        pull_from(after, other) == pull_from(before, other),
        after[pull_from(after, other) as int] == before[pull_from(before, other) as int],
{
    let i = pull_from(before, branch) as int;
    let j = pull_from(before, other) as int;
    lemma_pull_from_meaning(before, branch);
    lemma_pull_from_meaning(before, other);
    assert forall|k: int| 0 <= k < j implies (#[trigger] after[k]).head_branch != other by {
        if k != i {
            assert(after[k] == before[k]);
        }
    }
    lemma_pull_from(after, other, j);
}

/// A sync that has come to the comments leaves nothing to do for any pull request that it visited,
/// provided that the user refused nothing, that the service did as it was asked, and that no branch is
/// stacked on two others.
pub proof fn law_sync_settles(
    graph: GraphView,
    root: Seq<char>,
    pulls: Seq<PullView>,
    events: Seq<EventView>,
)
    requires
        distinct(SyncView::fresh(graph, root, pulls).visits),
        SyncView::fresh(graph, root, pulls).enter().0.agreed(events),
        ({
            let end = SyncView::fresh(graph, root, pulls).enter().0.run(events);
            end.at == end.visits.len()
        }),
    ensures
        ({
            let end = SyncView::fresh(graph, root, pulls).enter().0.run(events);
            forall|k: int|
                0 <= k < end.visits.len() ==> settled(#[trigger] end.visits[k], end.pulls)
        }),
{
    let fresh = SyncView::fresh(graph, root, pulls);
    fresh.lemma_on_course(EventView::Done);
    assert(fresh.step(EventView::Done) == fresh.enter());
    fresh.enter().0.lemma_run_on_course(events);
}

/// Syncing again right after such a sync asks nothing of the user or the service, and changes nothing:
/// no visit is ever under way.
pub proof fn law_second_sync(
    graph: GraphView,
    root: Seq<char>,
    pulls: Seq<PullView>,
    events: Seq<EventView>,
    again: Seq<EventView>,
)
    requires
        distinct(SyncView::fresh(graph, root, pulls).visits),
        SyncView::fresh(graph, root, pulls).enter().0.agreed(events),
        ({
            let end = SyncView::fresh(graph, root, pulls).enter().0.run(events);
            end.at == end.visits.len()
        }),
    ensures
        ({
            let end = SyncView::fresh(graph, root, pulls).enter().0.run(events);
            let second = SyncView::fresh(graph, root, end.pulls).enter().0.run(again);
            &&& second.phase !is Within
            &&& second.pulls == end.pulls
        }),
    decreases again.len(),
{
    law_sync_settles(graph, root, pulls, events);
    let end = SyncView::fresh(graph, root, pulls).enter().0.run(events);
    let fresh = SyncView::fresh(graph, root, end.pulls);
    SyncView::fresh(graph, root, pulls).enter().0.lemma_same_visits(events);
    fresh.enter().0.lemma_same_visits(again);
    if again.len() > 0 {
        law_second_sync(graph, root, pulls, events, again.drop_last());
        let before = fresh.enter().0.run(again.drop_last());
        fresh.enter().0.lemma_same_visits(again.drop_last());
        if before.at < before.visits.len() {
            assert(settled(end.visits[before.at as int], end.pulls));
        }
    } else if fresh.visits.len() > 0 {
        assert(settled(end.visits[0], end.pulls));
    }
}

impl SyncView {
    proof fn lemma_same_visits(self, events: Seq<EventView>)
        ensures
            self.run(events).visits == self.visits,
        decreases events.len(),
    {
        if events.len() > 0 {
            self.lemma_same_visits(events.drop_last());
        }
    }

    /// How many steps a sync can still take.
    pub open spec fn left(self) -> int {
        match self.phase {
            PhaseView::Between => 10 * (self.visits.len() - self.at) + 1,
            PhaseView::Within(flow) => 10 * (self.visits.len() - self.at) - flow.place(),
            PhaseView::Over => 0,
        }
    }

    /// Every sync comes to its end: each step leaves fewer steps to take.
    pub proof fn law_sync_ends(self, event: EventView)
        requires
            self.wf(),
            self.phase !is Over,
        ensures
            0 <= self.step(event).0.left() < self.left(),
    {
    }
}

/// What a list of pull requests may become in a sync: it only grows, and only at its end. Each place
/// keeps the branch that its pull request is from, and a pull request is changed only if it is the
/// first one from a visited branch. What is new is from a visited branch too.
pub open spec fn leaves_alone(
    before: Seq<PullView>,
    after: Seq<PullView>,
    visits: Seq<PrVisitView>,
) -> bool {
    &&& before.len() <= after.len()
    &&& forall|i: int|
        0 <= i < before.len() ==> (#[trigger] after[i]).head_branch == before[i].head_branch
    &&& forall|i: int|
        0 <= i < before.len() && #[trigger] after[i] != before[i] ==> exists|k: int|
            0 <= k < visits.len() && i == pull_from(before, (#[trigger] visits[k]).branch)
    &&& forall|i: int|
        before.len() <= i < after.len() ==> exists|k: int|
            0 <= k < visits.len() && (#[trigger] visits[k]).branch == (
            #[trigger] after[i]).head_branch
}

proof fn lemma_leaves_alone(
    first: Seq<PullView>,
    before: Seq<PullView>,
    after: Seq<PullView>,
    visits: Seq<PrVisitView>,
    at: int,
    given: PullView,
)
    requires
        leaves_alone(first, before, visits),
        0 <= at < visits.len(),
        given.head_branch == visits[at].branch,
        ({
            let i = pull_from(before, visits[at].branch) as int;
            after == if i < before.len() {
                before.update(i, given)
            } else {
                before.push(given)
            }
        }),
    ensures
        leaves_alone(first, after, visits),
{
    let branch = visits[at].branch;
    let n = pull_from(before, branch) as int;
    lemma_pull_from_meaning(before, branch);
    if n < first.len() {
        assert forall|i: int| 0 <= i < n implies (#[trigger] first[i]).head_branch != branch by {
            assert(before[i].head_branch == first[i].head_branch);
        }
        assert(before[n].head_branch == first[n].head_branch);
        lemma_pull_from(first, branch, n);
    }
    assert forall|i: int| 0 <= i < first.len() implies (#[trigger] after[i]).head_branch
        == first[i].head_branch by {
        assert(before[i].head_branch == first[i].head_branch);
    }
    assert forall|i: int| 0 <= i < first.len() && #[trigger] after[i] != first[i] implies exists|
        k: int,
    |
        0 <= k < visits.len() && i == pull_from(first, (#[trigger] visits[k]).branch) by {
        if i == n {
            assert(i == pull_from(first, visits[at].branch));
        } else {
            assert(before[i] != first[i]);
        }
    }
    assert forall|i: int| first.len() <= i < after.len() implies exists|k: int|
        0 <= k < visits.len() && (#[trigger] visits[k]).branch == (
        #[trigger] after[i]).head_branch by {
        if i == n {
            assert(visits[at].branch == after[i].head_branch);
        } else {
            assert(after[i] == before[i]);
        }
    }
}

impl SyncView {
    proof fn lemma_run_leaves_alone(self, first: Seq<PullView>, events: Seq<EventView>)
        requires
            self.tracks(),
            self.branches_fit(events),
            leaves_alone(first, self.pulls, self.visits),
        ensures
            self.run(events).tracks(),
            self.run(events).visits == self.visits,
            leaves_alone(first, self.run(events).pulls, self.visits),
        decreases events.len(),
    {
        if events.len() > 0 {
            self.lemma_run_leaves_alone(first, events.drop_last());
            let before = self.run(events.drop_last());
            let event = events.last();
            before.lemma_tracks(event);
            if before.step(event).0.pulls != before.pulls {
                lemma_leaves_alone(
                    first,
                    before.pulls,
                    before.step(event).0.pulls,
                    self.visits,
                    before.at as int,
                    event->Pull_0,
                );
            }
        }
    }
}

/// However far a sync comes and whatever the user says, it leaves alone what it is not about, provided
/// that the service gives back pull requests from the branches that it was asked about: a pull request
/// from a branch that no visit names stays as it is and where it is, and the list only grows at its
/// end.
pub proof fn law_sync_leaves_alone(
    graph: GraphView,
    root: Seq<char>,
    pulls: Seq<PullView>,
    events: Seq<EventView>,
)
    requires
        SyncView::fresh(graph, root, pulls).enter().0.branches_fit(events),
    ensures
        ({
            let end = SyncView::fresh(graph, root, pulls).enter().0.run(events);
            &&& leaves_alone(pulls, end.pulls, end.visits)
            &&& forall|i: int|
                0 <= i < pulls.len() && (forall|k: int|
                    0 <= k < end.visits.len() ==> (#[trigger] end.visits[k]).branch
                        != pulls[i].head_branch) ==> #[trigger] end.pulls[i] == pulls[i]
        }),
{
    let fresh = SyncView::fresh(graph, root, pulls);
    fresh.lemma_tracks(EventView::Done);
    let start = fresh.enter().0;
    assert(fresh.step(EventView::Done).0 == start);
    start.lemma_run_leaves_alone(pulls, events);
    let end = start.run(events);
    assert forall|i: int|
        0 <= i < pulls.len() && (forall|k: int|
            0 <= k < end.visits.len() ==> (#[trigger] end.visits[k]).branch
                != pulls[i].head_branch) implies #[trigger] end.pulls[i] == pulls[i] by {
        if end.pulls[i] != pulls[i] {
            let k = choose|k: int|
                0 <= k < end.visits.len() && i == pull_from(pulls, (#[trigger] end.visits[k]).branch);
            lemma_pull_from_meaning(pulls, end.visits[k].branch);
        }
    }
}

// What each step of a sync amounts to.

/// A sync starts with the visits that the graph asks for, none of them made, and the pull requests that
/// there are.
pub proof fn law_fresh(graph: GraphView, root: Seq<char>, pulls: Seq<PullView>)
    ensures
        ({
            let fresh = SyncView::fresh(graph, root, pulls);
            &&& fresh.graph == graph
            &&& fresh.root == root
            &&& fresh.visits == graph.sync_order(graph.children(root), root)
            &&& fresh.at == 0
            &&& fresh.phase is Between
            &&& fresh.pulls == pulls
        }),
{
}

/// Between two visits, the next one is taken up whatever came before: with what is to be done first for
/// its pull request, after a gap unless it is the first of its stack. A visit for which nothing is to
/// be done is over at once.
pub proof fn law_next_visit(sync: SyncView, event: EventView)
    requires
        sync.phase is Between,
        sync.at < sync.visits.len(),
    ensures
        ({
            let visit = sync.visits[sync.at as int];
            let (flow, action) = FlowView::start(visit.target, visit.branch, sync.pulls);
            let (next, told) = sync.step(event);
            &&& sync.step(event) == sync.enter()
            &&& told == (SyncActionView::Visit { gap: !visit.is_first, action })
            &&& next == (SyncView {
                at: if action is Finish {
                    sync.at + 1
                } else {
                    sync.at
                },
                phase: if action is Finish {
                    PhaseView::Between
                } else {
                    PhaseView::Within(flow)
                },
                ..sync
            })
        }),
{
}

/// After the last visit, every stack that is commented on gets its comments, as the pull requests are
/// now, and the sync is over.
pub proof fn law_after_the_visits(sync: SyncView, event: EventView)
    requires
        sync.phase is Between,
        sync.at >= sync.visits.len(),
    ensures
        sync.step(event) == sync.enter(),
        sync.step(event).1 == (SyncActionView::Comment {
            updates: stack_updates(
                sync.graph.long_stacks(sync.graph.children(sync.root)),
                sync.pulls,
            ),
        }),
        sync.step(event).0 == (SyncView { phase: PhaseView::Over, ..sync }),
{
}

/// Within a visit, what came of the last action is for its flow, and what the flow wants next is done
/// without a gap. If the flow gives up the sync is over, and it is told for what; if the flow is over the
/// next visit can be taken up. The pull requests are always those that the flow leaves.
pub proof fn law_within_visit(sync: SyncView, flow: FlowView, event: EventView)
    requires
        sync.phase == PhaseView::Within(flow),
    ensures
        ({
            let (after, action, pulls) = flow.step(event, sync.pulls);
            let (next, told) = sync.step(event);
            let ends = action is Abort || action is Reject;
            &&& ends ==> told == (SyncActionView::Fail {
                action,
                contexts: failures(sync.visits, sync.at as int),
            })
            &&& !ends ==> told == (SyncActionView::Visit { gap: false, action })
            &&& next == (SyncView {
                at: if action is Finish {
                    sync.at + 1
                } else {
                    sync.at
                },
                phase: if ends {
                    PhaseView::Over
                } else if action is Finish {
                    PhaseView::Between
                } else {
                    PhaseView::Within(after)
                },
                pulls,
                ..sync
            })
        }),
{
}

/// A sync that is over stays over.
pub proof fn law_over(sync: SyncView, event: EventView)
    requires
        sync.phase is Over,
    ensures
        sync.step(event).0 == sync,
        sync.step(event).1 == (SyncActionView::Fail {
            action: ActionView::Abort { context: None },
            contexts: Seq::empty(),
        }),
{
}

/// The new descriptions for several stacks are those for the first ones, then those for the others; a
/// stack gives one for each line of its list.
pub proof fn law_updates_append(
    front: Seq<StackView>,
    back: Seq<StackView>,
    stack: StackView,
    pulls: Seq<PullView>,
)
    ensures
        stack_updates(front + back, pulls) == stack_updates(front, pulls) + stack_updates(
            back,
            pulls,
        ),
        stack_updates(seq![stack], pulls) == comment_updates(stack.lines, stack.lines, pulls),
        stack_updates(Seq::empty(), pulls) == Seq::<Result<UpdateView, ErrorView>>::empty(),
    decreases back.len(),
{
    let none = Seq::<StackView>::empty();
    assert(seq![stack].drop_last() =~= none);
    assert(stack_updates(none, pulls) =~= Seq::empty());
    assert(stack_updates(seq![stack], pulls) =~= comment_updates(stack.lines, stack.lines, pulls));
    if back.len() == 0 {
        assert(front + back =~= front);
        assert(stack_updates(front, pulls) + Seq::empty() =~= stack_updates(front, pulls));
    } else {
        let all = front + back;
        law_updates_append(front, back.drop_last(), stack, pulls);
        assert(all.drop_last() =~= front + back.drop_last());
        assert(all.last() == back.last());
        assert(stack_updates(all, pulls) =~= stack_updates(front, pulls) + stack_updates(
            back,
            pulls,
        ));
    }
}

/// Every branch of a stack that is commented on gets its new description: with the list of the whole
/// stack, however long.
pub proof fn law_every_branch_is_updated(
    graph: GraphView,
    root: Seq<char>,
    pulls: Seq<PullView>,
    child: Seq<char>,
    k: int,
)
    requires
        graph.walkable(root),
        graph.children(root).contains(child),
        graph.children(child).len() > 0,
        0 <= k < graph.stack_lines(child, 0).len(),
    ensures
        stack_updates(graph.long_stacks(graph.children(root)), pulls).contains(
            comment_update(
                graph.stack_lines(child, 0),
                graph.stack_lines(child, 0)[k].branch,
                pulls,
            ),
        ),
{
    let stacks = graph.long_stacks(graph.children(root));
    let stack = StackView { branch: child, lines: graph.stack_lines(child, 0) };
    law_sync_comments(graph, root, child);
    let m = choose|m: int| 0 <= m < stacks.len() && stacks[m] == stack;
    let front = stacks.take(m);
    let back = stacks.skip(m + 1);
    assert(front + seq![stack] + back =~= stacks);
    law_updates_append(front + seq![stack], back, stack, pulls);
    law_updates_append(front, seq![stack], stack, pulls);
    law_comment_updates(stack.lines, stack.lines, pulls, k);
    let at = stack_updates(front, pulls).len() + k;
    assert(stack_updates(stacks, pulls)[at] == comment_updates(stack.lines, stack.lines, pulls)[k]);
}

/// What is looked at in an action of a sync is all that it holds.
pub proof fn law_sync_action_views(
    gap: bool,
    action: PrAction,
    contexts: Vec<String>,
    updates: Vec<Result<IssueUpdate, SyncError>>,
    k: int,
)
    requires
        0 <= k < updates@.len(),
    ensures
        (SyncAction::Visit { gap, action })@ == (SyncActionView::Visit { gap, action: action@ }),
        (SyncAction::Fail { action, contexts })@ == (SyncActionView::Fail {
            action: action@,
            contexts: contexts@.map_values(|s: String| s@),
        }),
        (SyncAction::Comment { updates })@ matches SyncActionView::Comment { updates: said }
            && said.len() == updates@.len() && said[k] == match updates@[k] {
            Ok(update) => Ok::<UpdateView, ErrorView>(update@),
            Err(error) => Err(error@),
        },
{
}

} // verus!
