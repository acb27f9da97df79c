//! What a sync visits: every stack on the branch at the root, one pull request after the other.

use vstd::prelude::*;

use crate::comment::{
    comment_update, create_or_update_comment, law_comment_needs_every_line, line_views,
    outcome_view, write_pr_comment, CommentLine, IssueUpdate, LineView, UpdateView,
};
use crate::error::{ErrorView, SyncError};
use crate::github::{pull_from, pull_views, PullRequestInfo, PullView};
use crate::graph::{slice_views, Graph, GraphView};
use crate::stack::VisitView;
use crate::text::{same_text, views};

verus! {

/// A pull request to be found or created: from a branch into the one that it is stacked on.
#[derive(Debug)]
pub struct PrVisit {
    pub branch: String,
    pub target: String,
    pub is_first: bool,
}

/// What a visit says.
pub struct PrVisitView {
    pub branch: Seq<char>,
    pub target: Seq<char>,
    pub is_first: bool,
}

impl View for PrVisit {
    type V = PrVisitView;

    open spec fn view(&self) -> PrVisitView {
        PrVisitView { branch: self.branch@, target: self.target@, is_first: self.is_first }
    }
}

/// What each visit of a list says.
pub open spec fn pr_views(visits: Seq<PrVisit>) -> Seq<PrVisitView> {
    visits.map_values(|v: PrVisit| v@)
}

/// The pull requests of a stack in the order of its branches; the first may be marked as such.
pub open spec fn pr_order(stack: Seq<VisitView>, is_first: bool) -> Seq<PrVisitView> {
    Seq::new(
        stack.len(),
        |k: int|
            PrVisitView {
                branch: stack[k].branch,
                target: stack[k].target,
                is_first: is_first && k == 0,
            },
    )
}

/// Appends the pull requests of the stack on a branch.
fn collect_visits(
    branch: &str,
    target: &str,
    graph: &Graph,
    is_first: bool,
    Ghost(indent): Ghost<nat>,
    out: &mut Vec<PrVisit>,
)
    requires
        graph.wf(),
        graph@.ends(branch@),
    ensures
        pr_views(final(out)@) == pr_views(old(out)@) + pr_order(
            graph@.stack(branch@, target@, indent),
            is_first,
        ),
    decreases graph@.height(branch@),
{
    let ghost start = pr_views(out@);
    let ghost first = seq![PrVisitView { branch: branch@, target: target@, is_first }];
    proof {
        graph@.lemma_children_end(branch@);
        graph@.law_stack_unfolds(branch@, target@, indent);
    }
    out.push(PrVisit { branch: branch.to_owned(), target: target.to_owned(), is_first });
    let children = graph.iter_edges_from(branch);
    let ghost names = graph@.children(branch@);
    assert(pr_views(out@) =~= start + first + pr_order(
        graph@.stacks(names.take(0), branch@, indent + 2),
        false,
    ));
    let mut k: usize = 0;
    while k < children.len()
        invariant
            graph.wf(),
            k <= children@.len(),
            slice_views(children@) == names,
            forall|k: int|
                0 <= k < names.len() ==> {
                    &&& graph@.ends(#[trigger] names[k])
                    &&& graph@.height(names[k]) < graph@.height(branch@)
                },
            pr_views(out@) == start + first + pr_order(
                graph@.stacks(names.take(k as int), branch@, indent + 2),
                false,
            ),
        decreases children.len() - k,
    {
        let child = children[k];
        assert(names[k as int] == child@);
        collect_visits(child, branch, graph, false, Ghost(indent + 2), out);
        proof {
            let upto = names.take(k + 1);
            assert(upto.drop_last() =~= names.take(k as int));
            assert(pr_views(out@) =~= start + first + pr_order(
                graph@.stacks(upto, branch@, indent + 2),
                false,
            ));
        }
        k += 1;
    }
    assert(names.take(k as int) =~= names);
    assert(pr_views(out@) =~= start + pr_order(
        graph@.stack(branch@, target@, indent),
        is_first,
    ));
}

/// The pull requests to find or create for the stack on a branch: its own into the target, then
/// those of what is stacked on it, each into the branch below.
pub fn find_or_create_prs(branch: &str, target: &str, graph: &Graph, is_first: bool) -> (out: Vec<
    PrVisit,
>)
    requires
        graph.wf(),
        graph@.ends(branch@),
    ensures
        pr_views(out@) == pr_order(graph@.stack(branch@, target@, 0), is_first),
{
    let mut out: Vec<PrVisit> = Vec::new();
    collect_visits(branch, target, graph, is_first, Ghost(0), &mut out);
    assert(pr_views(out@) =~= pr_order(graph@.stack(branch@, target@, 0), is_first));
    out
}

/// What the outcomes for several pull requests say.
pub open spec fn outcome_views(outcomes: Seq<Result<IssueUpdate, SyncError>>) -> Seq<
    Result<UpdateView, ErrorView>,
> {
    outcomes.map_values(|out: Result<IssueUpdate, SyncError>| outcome_view(out))
}

/// The new descriptions of the pull requests from several branches, each with a comment that lists
/// the same lines.
pub open spec fn comment_updates(
    lines: Seq<LineView>,
    branches: Seq<LineView>,
    pulls: Seq<PullView>,
) -> Seq<Result<UpdateView, ErrorView>> {
    branches.map_values(|line: LineView| comment_update(lines, line.branch, pulls))
}

/// Works out the new description of every pull request of the stack on a branch.
pub fn create_or_update_comments(
    comment_lines: &[CommentLine],
    branch: &str,
    graph: &Graph,
    pulls: &[PullRequestInfo],
) -> (out: Vec<Result<IssueUpdate, SyncError>>)
    requires
        graph.wf(),
        graph@.ends(branch@),
    ensures
        outcome_views(out@) == comment_updates(
            line_views(comment_lines@),
            graph@.stack_lines(branch@, 0),
            pull_views(pulls@),
        ),
{
    let visits = find_or_create_prs(branch, branch, graph, true);
    let ghost named = graph@.stack_lines(branch@, 0);
    let ghost wanted = comment_updates(line_views(comment_lines@), named, pull_views(pulls@));
    assert(pr_views(visits@).len() == visits@.len());
    assert forall|k: int| 0 <= k < visits@.len() implies (#[trigger] visits@[k]).branch@
        == named[k].branch by {
        assert(pr_views(visits@)[k] == visits@[k]@);
        assert(named[k].branch == graph@.stack(branch@, branch@, 0)[k].branch);
    }
    let mut out: Vec<Result<IssueUpdate, SyncError>> = Vec::new();
    let mut k: usize = 0;
    while k < visits.len()
        invariant
            k <= visits@.len(),
            visits@.len() == named.len(),
            wanted == comment_updates(line_views(comment_lines@), named, pull_views(pulls@)),
            out@.len() == k,
            forall|k: int|
                0 <= k < visits@.len() ==> (#[trigger] visits@[k]).branch@ == named[k].branch,
            forall|m: int| 0 <= m < k ==> outcome_view(#[trigger] out@[m]) == wanted[m],
        decreases visits.len() - k,
    {
        out.push(create_or_update_comment(comment_lines, visits[k].branch.as_str(), pulls));
        k += 1;
    }
    assert(outcome_views(out@) =~= wanted);
    out
}

impl GraphView {
    /// Whether every stack on a branch ends, and its list can be indented.
    pub open spec fn walkable(self, root: Seq<char>) -> bool {
        forall|k: int|
            0 <= k < self.children(root).len() ==> {
                &&& self.ends(#[trigger] self.children(root)[k])
                &&& 2 * (self.height(self.children(root)[k]) - 1) <= usize::MAX
            }
    }

    /// The pull requests of several stacks on a branch, one stack after the other.
    pub open spec fn sync_order(self, branches: Seq<Seq<char>>, root: Seq<char>) -> Seq<PrVisitView>
        decreases branches.len(),
    {
        if branches.len() == 0 {
            Seq::empty()
        } else {
            self.sync_order(branches.drop_last(), root) + pr_order(
                self.stack(branches.last(), root, 0),
                true,
            )
        }
    }

    /// The stacks of more than one branch, each with its list.
    pub open spec fn long_stacks(self, branches: Seq<Seq<char>>) -> Seq<StackView>
        decreases branches.len(),
    {
        if branches.len() == 0 {
            Seq::empty()
        } else {
            let list = self.stack_lines(branches.last(), 0);
            self.long_stacks(branches.drop_last()) + if list.len() > 1 {
                seq![StackView { branch: branches.last(), lines: list }]
            } else {
                Seq::empty()
            }
        }
    }
}

impl Graph {
    /// Whether every stack on a branch ends, and its list can be indented.
    pub fn can_walk(&self, root: &str) -> (out: bool)
        requires
            self.wf(),
        ensures
            out == self@.walkable(root@),
    {
        let children = self.iter_edges_from(root);
        let ghost names = self@.children(root@);
        let mut k: usize = 0;
        while k < children.len()
            invariant
                self.wf(),
                k <= children@.len(),
                slice_views(children@) == names,
                names == self@.children(root@),
                forall|m: int|
                    0 <= m < k ==> {
                        &&& self@.ends(#[trigger] names[m])
                        &&& 2 * (self@.height(names[m]) - 1) <= usize::MAX
                    },
            decreases children.len() - k,
        {
            assert(names[k as int] == children@[k as int]@);
            match self.stack_height(children[k]) {
                Some(n) => {
                    if n > 0 && n - 1 > usize::MAX / 2 {
                        return false;
                    }
                },
                None => {
                    return false;
                },
            }
            k += 1;
        }
        true
    }
}

/// A stack of more than one branch, with the list for its comment.
#[derive(Debug)]
pub struct StackComment {
    pub branch: String,
    pub lines: Vec<CommentLine>,
}

/// What a stack with its list says.
pub struct StackView {
    pub branch: Seq<char>,
    pub lines: Seq<LineView>,
}

impl View for StackComment {
    type V = StackView;

    open spec fn view(&self) -> StackView {
        StackView { branch: self.branch@, lines: line_views(self.lines@) }
    }
}

/// What each stack of a list says.
pub open spec fn stack_views(stacks: Seq<StackComment>) -> Seq<StackView> {
    stacks.map_values(|s: StackComment| s@)
}

/// All pull requests that a sync finds or creates, in order.
pub fn sync_order(graph: &Graph, root: &str) -> (out: Vec<PrVisit>)
    requires
        graph.wf(),
        graph@.walkable(root@),
    ensures
        pr_views(out@) == graph@.sync_order(graph@.children(root@), root@),
{
    let children = graph.iter_edges_from(root);
    let ghost names = graph@.children(root@);
    let mut out: Vec<PrVisit> = Vec::new();
    assert(pr_views(out@) =~= graph@.sync_order(names.take(0), root@));
    let mut k: usize = 0;
    while k < children.len()
        invariant
            graph.wf(),
            graph@.walkable(root@),
            k <= children@.len(),
            slice_views(children@) == names,
            names == graph@.children(root@),
            pr_views(out@) == graph@.sync_order(names.take(k as int), root@),
        decreases children.len() - k,
    {
        let child = children[k];
        assert(names[k as int] == child@);
        collect_visits(child, root, graph, true, Ghost(0), &mut out);
        assert(names.take(k + 1).drop_last() =~= names.take(k as int));
        k += 1;
    }
    assert(names.take(k as int) =~= names);
    out
}

/// The stacks that a sync comments on: those of more than one branch.
pub fn stack_comments(graph: &Graph, root: &str) -> (out: Vec<StackComment>)
    requires
        graph.wf(),
        graph@.walkable(root@),
    ensures
        stack_views(out@) == graph@.long_stacks(graph@.children(root@)),
{
    let children = graph.iter_edges_from(root);
    let ghost names = graph@.children(root@);
    let mut out: Vec<StackComment> = Vec::new();
    assert(stack_views(out@) =~= graph@.long_stacks(names.take(0)));
    let mut k: usize = 0;
    while k < children.len()
        invariant
            graph.wf(),
            graph@.walkable(root@),
            k <= children@.len(),
            slice_views(children@) == names,
            names == graph@.children(root@),
            stack_views(out@) == graph@.long_stacks(names.take(k as int)),
        decreases children.len() - k,
    {
        let child = children[k];
        assert(names[k as int] == child@);
        let ghost before = out@;
        let mut lines: Vec<CommentLine> = Vec::new();
        write_pr_comment(graph, child, 0, &mut lines);
        assert(line_views(lines@) =~= graph@.stack_lines(child@, 0));
        assert(names.take(k + 1).drop_last() =~= names.take(k as int));
        if lines.len() > 1 {
            out.push(StackComment { branch: child.to_owned(), lines });
            assert(stack_views(out@) =~= stack_views(before) + seq![out@.last()@]);
        }
        assert(stack_views(out@) =~= graph@.long_stacks(names.take(k + 1)));
        k += 1;
    }
    assert(names.take(k as int) =~= names);
    out
}

// What is said when a pull request could not be found or created.

/// What is said about a visit that failed, or on top of which one failed.
pub open spec fn visit_failure(visit: PrVisitView) -> Seq<char> {
    "failed to find or create pr from "@ + visit.branch + " into "@ + visit.target
}

/// The last of the first `n` visits that is from a branch, if there is one.
pub open spec fn last_from(visits: Seq<PrVisitView>, branch: Seq<char>, n: int) -> Option<int>
    decreases n,
{
    if n <= 0 {
        None
    } else if visits[n - 1].branch == branch {
        Some(n - 1)
    } else {
        last_from(visits, branch, n - 1)
    }
}

/// The visit that a visit comes directly on top of, if it is not the first of its stack.
pub open spec fn visit_below(visits: Seq<PrVisitView>, at: int) -> Option<int> {
    if visits[at].is_first {
        None
    } else {
        last_from(visits, visits[at].target, at)
    }
}

/// What is said when a visit fails: about itself, then about each visit below it, down to the bottom
/// of the stack.
pub open spec fn failures(visits: Seq<PrVisitView>, at: int) -> Seq<Seq<char>>
    decreases at,
    when at >= 0
{
    seq![visit_failure(visits[at])] + match visit_below(visits, at) {
        Some(below) if 0 <= below < at => failures(visits, below),
        _ => Seq::empty(),
    }
}

proof fn lemma_last_from(visits: Seq<PrVisitView>, branch: Seq<char>, n: int)
    ensures
        match last_from(visits, branch, n) {
            Some(k) => {
                &&& 0 <= k < n
                &&& visits[k].branch == branch
                &&& forall|m: int| k < m < n ==> (#[trigger] visits[m]).branch != branch
            },
            None => forall|m: int| 0 <= m < n ==> (#[trigger] visits[m]).branch != branch,
        },
    decreases n,
{
    if n > 0 && visits[n - 1].branch != branch {
        lemma_last_from(visits, branch, n - 1);
    }
}

/// Finds the visit that a visit comes directly on top of.
fn find_below(visits: &[PrVisit], at: usize) -> (out: Option<usize>)
    requires
        at < visits@.len(),
    ensures
        match out {
            Some(below) => below < at && visit_below(pr_views(visits@), at as int) == Some(
                below as int,
            ),
            None => visit_below(pr_views(visits@), at as int) is None,
        },
{
    let ghost all = pr_views(visits@);
    assert(all[at as int] == visits@[at as int]@);
    if visits[at].is_first {
        return None;
    }
    let target = visits[at].target.as_str();
    let mut n: usize = at;
    while n > 0
        invariant
            all == pr_views(visits@),
            n <= at < visits@.len(),
            target@ == all[at as int].target,
            !all[at as int].is_first,
            visit_below(all, at as int) == last_from(all, target@, n as int),
        decreases n,
    {
        assert(all[n - 1] == visits@[n - 1]@);
        if same_text(visits[n - 1].branch.as_str(), target) {
            return Some(n - 1);
        }
        n -= 1;
    }
    None
}

fn push_failures(visits: &[PrVisit], at: usize, out: &mut Vec<String>)
    requires
        at < visits@.len(),
    ensures
        views(final(out)@) == views(old(out)@) + failures(pr_views(visits@), at as int),
    decreases at,
{
    let ghost all = pr_views(visits@);
    let ghost before = views(out@);
    assert(all[at as int] == visits@[at as int]@);
    let said = "failed to find or create pr from ".to_owned().concat(
        visits[at].branch.as_str(),
    ).concat(" into ").concat(visits[at].target.as_str());
    out.push(said);
    assert(views(out@) =~= before + seq![said@]);
    match find_below(visits, at) {
        Some(below) => {
            push_failures(visits, below, out);
            assert(views(out@) =~= before + (seq![said@] + failures(all, below as int)));
        },
        None => {
            assert(views(out@) =~= before + (seq![said@] + Seq::empty()));
        },
    }
}

/// What is said when the visit at a position fails, the innermost reason first.
pub fn failure_contexts(visits: &[PrVisit], at: usize) -> (out: Vec<String>)
    requires
        at < visits@.len(),
    ensures
        views(out@) == failures(pr_views(visits@), at as int),
{
    let mut out: Vec<String> = Vec::new();
    push_failures(visits, at, &mut out);
    assert(views(out@) =~= failures(pr_views(visits@), at as int));
    out
}

/// In the stack on a branch, the visit below another one is the visit of the branch that the other's
/// branch is stacked on.
pub proof fn law_visit_below(graph: GraphView, branch: Seq<char>, target: Seq<char>, at: int)
    requires
        graph.ends(branch),
        0 < at < graph.stack(branch, target, 0).len(),
    ensures
        ({
            let stack = graph.stack(branch, target, 0);
            let below = visit_below(pr_order(stack, true), at);
            below matches Some(k) && graph.rests_on(stack, at, k)
        }),
{
    let stack = graph.stack(branch, target, 0);
    let visits = pr_order(stack, true);
    graph.law_stack_rests(branch, target, 0);
    assert(graph.rests(stack, at));
    let k = choose|k: int| graph.rests_on(stack, at, k);
    lemma_last_from(visits, stack[at].target, at);
    assert(visits[k].branch == stack[at].target);
    match visit_below(visits, at) {
        Some(j) => {
            if j > k {
                assert(stack[j].branch == visits[j].branch);
            }
        },
        None => {},
    }
}

/// That two lists that begin alike have the same visit below one of their common visits.
proof fn lemma_below_in_prefix(front: Seq<PrVisitView>, back: Seq<PrVisitView>, at: int)
    requires
        0 <= at < front.len(),
    ensures
        visit_below(front + back, at) == visit_below(front, at),
{
    let all = front + back;
    let target = front[at].target;
    lemma_last_from(front, target, at);
    lemma_last_from(all, target, at);
    match (last_from(front, target, at), last_from(all, target, at)) {
        (Some(j), Some(k)) => {
            if j < k {
                assert(front[k].branch == all[k].branch);
            } else if k < j {
                assert(all[j].branch == front[j].branch);
            }
        },
        (Some(j), None) => {
            assert(all[j].branch == front[j].branch);
        },
        (None, Some(k)) => {
            assert(front[k].branch == all[k].branch);
        },
        _ => {},
    }
}

/// Whether the visit below another one is what it should be: there is none exactly for the first visit
/// of a stack; else it is the last earlier visit of the target, in the same stack.
pub open spec fn below_in_stack(graph: GraphView, visits: Seq<PrVisitView>, at: int) -> bool {
    match visit_below(visits, at) {
        None => visits[at].is_first,
        Some(below) => {
            &&& !visits[at].is_first
            &&& 0 <= below < at
            &&& visits[below].branch == visits[at].target
            &&& graph.children(visits[at].target).contains(visits[at].branch)
            &&& forall|k: int|
                below < k <= at ==> !(#[trigger] visits[k]).is_first && (k < at ==> visits[k].branch
                    != visits[at].target)
        },
    }
}

proof fn lemma_sync_below(graph: GraphView, branches: Seq<Seq<char>>, root: Seq<char>, at: int)
    requires
        forall|k: int| 0 <= k < branches.len() ==> graph.ends(#[trigger] branches[k]),
        0 <= at < graph.sync_order(branches, root).len(),
    ensures
        below_in_stack(graph, graph.sync_order(branches, root), at),
    decreases branches.len(),
{
    let rest = branches.drop_last();
    let last = branches.last();
    let front = graph.sync_order(rest, root);
    let stack = graph.stack(last, root, 0);
    let back = pr_order(stack, true);
    let all = graph.sync_order(branches, root);
    assert(all == front + back);
    if at < front.len() {
        lemma_sync_below(graph, rest, root, at);
        lemma_below_in_prefix(front, back, at);
        match visit_below(front, at) {
            Some(below) => {
                assert forall|k: int| below < k <= at implies !(#[trigger] all[k]).is_first && (k
                    < at ==> all[k].branch != all[at].target) by {
                    assert(all[k] == front[k]);
                }
            },
            None => {},
        }
    } else {
        let low = at - front.len();
        assert(all[at] == back[low]);
        assert(graph.ends(branches[branches.len() - 1]));
        if low > 0 {
            law_visit_below(graph, last, root, low);
            let j = visit_below(back, low)->0;
            let below = front.len() + j;
            lemma_last_from(back, all[at].target, low);
            lemma_last_from(all, all[at].target, at);
            assert(all[below] == back[j]);
            let found = last_from(all, all[at].target, at);
            assert(found is Some);
            assert(found == Some(below)) by {
                if found->0 > below {
                    assert(all[found->0] == back[found->0 - front.len()]);
                }
            }
            assert forall|k: int| below < k <= at implies !(#[trigger] all[k]).is_first && (k < at
                ==> all[k].branch != all[at].target) by {
                assert(all[k] == back[k - front.len()]);
            }
        }
    }
}

/// Among all visits of a sync, a visit has none below it exactly if it is the first of its stack. Else
/// the one below is the last earlier visit of the branch that it goes into, and no other stack begins
/// in between.
pub proof fn law_visit_below_in_sync(graph: GraphView, root: Seq<char>, at: int)
    requires
        graph.walkable(root),
        0 <= at < graph.sync_order(graph.children(root), root).len(),
    ensures
        below_in_stack(graph, graph.sync_order(graph.children(root), root), at),
{
    lemma_sync_below(graph, graph.children(root), root, at);
}

// What holds of a whole sync.

proof fn lemma_sync_targets(graph: GraphView, branches: Seq<Seq<char>>, root: Seq<char>)
    requires
        forall|k: int|
            0 <= k < branches.len() ==> graph.ends(#[trigger] branches[k]) && graph.children(
                root,
            ).contains(branches[k]),
    ensures
        forall|at: int|
            #![trigger graph.sync_order(branches, root)[at]]
            0 <= at < graph.sync_order(branches, root).len() ==> {
                let visit = graph.sync_order(branches, root)[at];
                &&& graph.children(visit.target).contains(visit.branch)
                &&& visit.is_first ==> visit.target == root
            },
    decreases branches.len(),
{
    if branches.len() > 0 {
        let rest = branches.drop_last();
        let last = branches.last();
        assert forall|k: int| 0 <= k < rest.len() implies graph.ends(#[trigger] rest[k])
            && graph.children(root).contains(rest[k]) by {
            assert(rest[k] == branches[k]);
        }
        lemma_sync_targets(graph, rest, root);
        let front = graph.sync_order(rest, root);
        let stack = graph.stack(last, root, 0);
        let all = graph.sync_order(branches, root);
        assert(graph.ends(branches[branches.len() - 1]));
        graph.law_stack_rests(last, root, 0);
        assert forall|at: int| 0 <= at < all.len() implies {
            let visit = #[trigger] all[at];
            &&& graph.children(visit.target).contains(visit.branch)
            &&& visit.is_first ==> visit.target == root
        } by {
            if at < front.len() {
                assert(all[at] == front[at]);
            } else {
                let k = at - front.len();
                assert(all[at] == pr_order(stack, true)[k]);
                if k > 0 {
                    assert(graph.rests(stack, k));
                }
            }
        }
    }
}

/// Every pull request of a sync goes from a branch into one that it is stacked on, and the first of
/// each stack goes into the branch at the root.
pub proof fn law_sync_targets(graph: GraphView, root: Seq<char>)
    requires
        graph.walkable(root),
    ensures
        forall|at: int|
            #![trigger graph.sync_order(graph.children(root), root)[at]]
            0 <= at < graph.sync_order(graph.children(root), root).len() ==> {
                let visit = graph.sync_order(graph.children(root), root)[at];
                &&& graph.children(visit.target).contains(visit.branch)
                &&& visit.is_first ==> visit.target == root
            },
{
    lemma_sync_targets(graph, graph.children(root), root);
}

/// A stack is commented on exactly if something is stacked on the branch at its bottom.
pub proof fn law_long_stack(graph: GraphView, branch: Seq<char>)
    requires
        graph.ends(branch),
    ensures
        graph.stack_lines(branch, 0).len() > 1 <==> graph.children(branch).len() > 0,
{
    graph.law_stack_lines_unfold(branch, 0);
    graph.lemma_children_end(branch);
    let names = graph.children(branch);
    if names.len() > 0 {
        assert(graph.ends(names[names.len() - 1]));
        graph.law_stack_lines_unfold(names.last(), 2);
    }
}

/// The comment of a stack lists the branches whose pull requests the sync visits, in the same order.
pub proof fn law_comment_lists_visits(graph: GraphView, branch: Seq<char>, target: Seq<char>, at: int)
    requires
        graph.ends(branch),
        0 <= at < graph.stack_lines(branch, 0).len(),
    ensures
        pr_order(graph.stack(branch, target, 0), true).len() == graph.stack_lines(branch, 0).len(),
        pr_order(graph.stack(branch, target, 0), true)[at].branch == graph.stack_lines(
            branch,
            0,
        )[at].branch,
{
    graph.law_lines_of_stack(branch, target, 0);
    let line = |v: VisitView| LineView { branch: v.branch, indent: v.indent };
    assert(graph.stack(branch, target, 0).map_values(line)[at] == graph.stack_lines(
        branch,
        0,
    )[at]);
}

/// Every comment of a stack can be written if each branch of the stack has a pull request with a title
/// and a link.
pub proof fn law_comments_are_written(lines: Seq<LineView>, pulls: Seq<PullView>, at: int)
    requires
        forall|k: int|
            0 <= k < lines.len() ==> {
                let i = pull_from(pulls, (#[trigger] lines[k]).branch);
                &&& i < pulls.len()
                &&& pulls[i as int].html_url is Some
                &&& pulls[i as int].title is Some
            },
        0 <= at < lines.len(),
    ensures
        comment_updates(lines, lines, pulls)[at] is Ok,
{
    law_comment_needs_every_line(lines[at].branch, lines, pulls);
}

/// The pull requests of a stack are those of its branches, in the same order, each into the branch that
/// it rests on; at most the one at the bottom is marked as the first.
pub proof fn law_pr_order(stack: Seq<VisitView>, is_first: bool, at: int)
    requires
        0 <= at < stack.len(),
    ensures
        pr_order(stack, is_first).len() == stack.len(),
        pr_order(stack, is_first)[at].branch == stack[at].branch,
        pr_order(stack, is_first)[at].target == stack[at].target,
        pr_order(stack, is_first)[at].is_first == (is_first && at == 0),
{
}

/// The root can be walked from exactly if the stack on each of its children ends, and is not so high
/// that its list could not be indented.
pub proof fn law_walkable(graph: GraphView, root: Seq<char>)
    ensures
        graph.walkable(root) <==> forall|child: Seq<char>| #[trigger]
            graph.children(root).contains(child) ==> graph.ends(child) && 2 * (graph.height(child)
                - 1) <= usize::MAX,
{
    let names = graph.children(root);
    if graph.walkable(root) {
        assert forall|child: Seq<char>| #[trigger] names.contains(child) implies graph.ends(child)
            && 2 * (graph.height(child) - 1) <= usize::MAX by {
            let k = choose|k: int| 0 <= k < names.len() && names[k] == child;
            assert(graph.ends(names[k]));
        }
    }
    if forall|child: Seq<char>| #[trigger]
        names.contains(child) ==> graph.ends(child) && 2 * (graph.height(child) - 1)
            <= usize::MAX {
        assert forall|k: int| 0 <= k < names.len() implies {
            &&& graph.ends(#[trigger] names[k])
            &&& 2 * (graph.height(names[k]) - 1) <= usize::MAX
        } by {
            assert(names.contains(names[k]));
        }
    }
}

/// The visits of several stacks are those of the first ones, then those of the others, however many
/// there are; those of one stack are the pull requests of its branches.
pub proof fn law_sync_appends(
    graph: GraphView,
    front: Seq<Seq<char>>,
    back: Seq<Seq<char>>,
    branch: Seq<char>,
    root: Seq<char>,
)
    ensures
        graph.sync_order(front + back, root) == graph.sync_order(front, root) + graph.sync_order(
            back,
            root,
        ),
        graph.sync_order(seq![branch], root) == pr_order(graph.stack(branch, root, 0), true),
        graph.sync_order(Seq::empty(), root) == Seq::<PrVisitView>::empty(),
    decreases back.len(),
{
    let none = Seq::<Seq<char>>::empty();
    assert(seq![branch].drop_last() =~= none);
    assert(graph.sync_order(none, root) =~= Seq::empty());
    assert(graph.sync_order(seq![branch], root) =~= pr_order(graph.stack(branch, root, 0), true));
    if back.len() == 0 {
        assert(front + back =~= front);
        assert(graph.sync_order(front, root) + Seq::empty() =~= graph.sync_order(front, root));
    } else {
        let all = front + back;
        law_sync_appends(graph, front, back.drop_last(), branch, root);
        assert(all.drop_last() =~= front + back.drop_last());
        assert(all.last() == back.last());
        assert(graph.sync_order(all, root) =~= graph.sync_order(front, root) + graph.sync_order(
            back,
            root,
        ));
    }
}

proof fn lemma_sync_parts(graph: GraphView, branches: Seq<Seq<char>>, root: Seq<char>, m: int)
    requires
        0 <= m < branches.len(),
    ensures
        graph.sync_order(branches, root) == graph.sync_order(branches.take(m), root) + pr_order(
            graph.stack(branches[m], root, 0),
            true,
        ) + graph.sync_order(branches.skip(m + 1), root),
{
    let one = seq![branches[m]];
    law_sync_appends(graph, branches.take(m) + one, branches.skip(m + 1), branches[m], root);
    law_sync_appends(graph, branches.take(m), one, branches[m], root);
    assert(branches.take(m) + one + branches.skip(m + 1) =~= branches);
}

/// Every branch straight on the root is visited by a sync: as the first of a stack, into the root.
pub proof fn law_sync_visits_children(graph: GraphView, root: Seq<char>, child: Seq<char>)
    requires
        graph.walkable(root),
        graph.children(root).contains(child),
    ensures
        graph.sync_order(graph.children(root), root).contains(
            PrVisitView { branch: child, target: root, is_first: true },
        ),
{
    let names = graph.children(root);
    let m = choose|m: int| 0 <= m < names.len() && names[m] == child;
    assert(graph.ends(names[m]));
    lemma_sync_parts(graph, names, root, m);
    graph.law_stack_rests(child, root, 0);
    let front = graph.sync_order(names.take(m), root);
    let stack = pr_order(graph.stack(child, root, 0), true);
    let all = graph.sync_order(names, root);
    assert(all[front.len() as int] == stack[0]);
    assert(stack[0] == (PrVisitView { branch: child, target: root, is_first: true }));
}

proof fn lemma_find_stack(
    graph: GraphView,
    branches: Seq<Seq<char>>,
    root: Seq<char>,
    at: int,
) -> (out: (int, int))
    requires
        0 <= at < graph.sync_order(branches, root).len(),
    ensures
        0 <= out.0 < branches.len(),
        0 <= out.1 < graph.stack(branches[out.0], root, 0).len(),
        at == graph.sync_order(branches.take(out.0), root).len() + out.1,
    decreases branches.len(),
{
    let rest = branches.drop_last();
    let front = graph.sync_order(rest, root);
    let last = branches.len() - 1;
    if at < front.len() {
        let out = lemma_find_stack(graph, rest, root, at);
        assert(rest.take(out.0) =~= branches.take(out.0));
        out
    } else {
        assert(branches.take(last) =~= rest);
        (last, at - front.len())
    }
}

/// Everything stacked on a visited branch is visited later in the sync, into that branch.
pub proof fn law_sync_visits_above(graph: GraphView, root: Seq<char>, at: int, child: Seq<char>) -> (
    above: int)
    requires
        graph.walkable(root),
        0 <= at < graph.sync_order(graph.children(root), root).len(),
        graph.children(graph.sync_order(graph.children(root), root)[at].branch).contains(child),
    ensures
        at < above < graph.sync_order(graph.children(root), root).len(),
        graph.sync_order(graph.children(root), root)[above] == (PrVisitView {
            branch: child,
            target: graph.sync_order(graph.children(root), root)[at].branch,
            is_first: false,
        }),
{
    let names = graph.children(root);
    let all = graph.sync_order(names, root);
    let (m, low) = lemma_find_stack(graph, names, root, at);
    assert(graph.ends(names[m]));
    lemma_sync_parts(graph, names, root, m);
    let front = graph.sync_order(names.take(m), root);
    let stack = graph.stack(names[m], root, 0);
    let visits = pr_order(stack, true);
    assert(all[at] == visits[low]);
    graph.law_stack_complete(names[m], root, 0);
    let upper = graph.children(stack[low].branch);
    let k = choose|k: int| 0 <= k < upper.len() && upper[k] == child;
    assert(GraphView::comes_after(stack, low, upper[k]));
    let high = choose|high: int|
        low < high < stack.len() && (#[trigger] stack[high]).branch == child && stack[high].target
            == stack[low].branch;
    assert(all[front.len() + high] == visits[high]);
    front.len() + high
}

/// A branch that can be reached from the root, step by step, is visited by a sync.
pub proof fn law_sync_reaches(graph: GraphView, root: Seq<char>, path: Seq<Seq<char>>) -> (at: int)
    requires
        graph.walkable(root),
        path.len() >= 2,
        path[0] == root,
        forall|i: int|
            0 < i < path.len() ==> graph.children(path[i - 1]).contains(#[trigger] path[i]),
    ensures
        0 <= at < graph.sync_order(graph.children(root), root).len(),
        graph.sync_order(graph.children(root), root)[at].branch == path.last(),
        graph.sync_order(graph.children(root), root)[at].target == path[path.len() - 2],
    decreases path.len(),
{
    let all = graph.sync_order(graph.children(root), root);
    let n = path.len() as int;
    assert(graph.children(path[n - 2]).contains(path[n - 1]));
    if n == 2 {
        law_sync_visits_children(graph, root, path[1]);
        let visit = PrVisitView { branch: path[1], target: root, is_first: true };
        choose|at: int| 0 <= at < all.len() && all[at] == visit
    } else {
        let less = path.drop_last();
        assert forall|i: int| 0 < i < less.len() implies graph.children(less[i - 1]).contains(
            #[trigger] less[i],
        ) by {
            assert(path[i] == less[i]);
        }
        let below = law_sync_reaches(graph, root, less);
        law_sync_visits_above(graph, root, below, path[n - 1])
    }
}

/// A sync visits only branches that can be reached from the root, step by step. Gives the way to one.
pub proof fn law_sync_stays_reachable(graph: GraphView, root: Seq<char>, at: int) -> (path: Seq<
    Seq<char>,
>)
    requires
        graph.walkable(root),
        0 <= at < graph.sync_order(graph.children(root), root).len(),
    ensures
        path.len() >= 2,
        path[0] == root,
        path.last() == graph.sync_order(graph.children(root), root)[at].branch,
        forall|i: int|
            0 < i < path.len() ==> graph.children(path[i - 1]).contains(#[trigger] path[i]),
    decreases at,
{
    let all = graph.sync_order(graph.children(root), root);
    let visit = all[at];
    law_sync_targets(graph, root);
    law_visit_below_in_sync(graph, root, at);
    let front = match visit_below(all, at) {
        None => seq![root],
        Some(below) => law_sync_stays_reachable(graph, root, below),
    };
    let path = front.push(visit.branch);
    assert(front.last() == visit.target);
    assert forall|i: int| 0 < i < path.len() implies graph.children(path[i - 1]).contains(
        #[trigger] path[i],
    ) by {
        if i < front.len() {
            assert(path[i] == front[i]);
            assert(path[i - 1] == front[i - 1]);
        }
    }
    path
}

/// The stacks that a sync comments on are those on which there is more than the bottom branch, all of
/// them and in their order, each with its whole list.
pub proof fn law_commented_stacks(graph: GraphView, branches: Seq<Seq<char>>)
    requires
        forall|k: int| 0 <= k < branches.len() ==> graph.ends(#[trigger] branches[k]),
    ensures
        graph.long_stacks(branches).map_values(|stack: StackView| stack.branch) == branches.filter(
            |branch: Seq<char>| graph.children(branch).len() > 0,
        ),
        forall|k: int|
            0 <= k < graph.long_stacks(branches).len() ==> (
            #[trigger] graph.long_stacks(branches)[k]).lines == graph.stack_lines(
                graph.long_stacks(branches)[k].branch,
                0,
            ),
    decreases branches.len(),
{
    let name = |stack: StackView| stack.branch;
    let long = |branch: Seq<char>| graph.children(branch).len() > 0;
    let all = graph.long_stacks(branches);
    reveal(Seq::filter);
    if branches.len() > 0 {
        let rest = branches.drop_last();
        let last = branches.last();
        assert forall|k: int| 0 <= k < rest.len() implies graph.ends(#[trigger] rest[k]) by {
            assert(rest[k] == branches[k]);
        }
        law_commented_stacks(graph, rest);
        assert(graph.ends(branches[branches.len() - 1]));
        law_long_stack(graph, last);
        let front = graph.long_stacks(rest);
        assert(all.map_values(name) =~= front.map_values(name) + if long(last) {
            seq![last]
        } else {
            Seq::empty()
        });
        assert(branches.filter(long) =~= front.map_values(name) + if long(last) {
            seq![last]
        } else {
            Seq::empty()
        });
        assert forall|k: int| 0 <= k < all.len() implies (#[trigger] all[k]).lines
            == graph.stack_lines(all[k].branch, 0) by {
            if k < front.len() {
                assert(all[k] == front[k]);
            }
        }
    } else {
        assert(all.map_values(name) =~= branches.filter(long));
    }
}

/// What a sync comments on, in terms of the branches on the root: each one with something stacked on it
/// has its stack among them with the whole list, and there is no other.
pub proof fn law_sync_comments(graph: GraphView, root: Seq<char>, child: Seq<char>)
    requires
        graph.walkable(root),
    ensures
        graph.long_stacks(graph.children(root)).contains(
            StackView { branch: child, lines: graph.stack_lines(child, 0) },
        ) <==> graph.children(root).contains(child) && graph.children(child).len() > 0,
        forall|k: int|
            0 <= k < graph.long_stacks(graph.children(root)).len() ==> (
            #[trigger] graph.long_stacks(graph.children(root))[k]).lines == graph.stack_lines(
                graph.long_stacks(graph.children(root))[k].branch,
                0,
            ),
{
    let names = graph.children(root);
    let all = graph.long_stacks(names);
    let name = |stack: StackView| stack.branch;
    let long = |branch: Seq<char>| graph.children(branch).len() > 0;
    law_commented_stacks(graph, names);
    let wanted = StackView { branch: child, lines: graph.stack_lines(child, 0) };
    let picked = names.filter(long);
    if all.contains(wanted) {
        let k = choose|k: int| 0 <= k < all.len() && all[k] == wanted;
        assert(all.map_values(name)[k] == child);
        assert(picked.contains(picked[k]));
        names.lemma_filter_pred(long, k);
        names.lemma_filter_contains_rev(long, child);
    }
    if names.contains(child) && long(child) {
        let m = choose|m: int| 0 <= m < names.len() && names[m] == child;
        names.lemma_filter_contains(long, m);
        let k = choose|k: int| 0 <= k < picked.len() && picked[k] == child;
        assert(all.map_values(name)[k] == child);
        assert(all[k] == wanted);
    }
}

/// Several pull requests get one new description each, in their order, every one with the same list.
pub proof fn law_comment_updates(
    lines: Seq<LineView>,
    branches: Seq<LineView>,
    pulls: Seq<PullView>,
    at: int,
)
    requires
        0 <= at < branches.len(),
    ensures
        comment_updates(lines, branches, pulls).len() == branches.len(),
        comment_updates(lines, branches, pulls)[at] == comment_update(
            lines,
            branches[at].branch,
            pulls,
        ),
{
}

/// What is said about a visit that failed names its two branches, and then comes what is said about the
/// visit below.
pub proof fn law_failures(visits: Seq<PrVisitView>, at: int)
    requires
        0 <= at < visits.len(),
    ensures
        failures(visits, at).len() > 0,
        failures(visits, at)[0] == "failed to find or create pr from "@ + visits[at].branch
            + " into "@ + visits[at].target,
        visits[at].is_first ==> failures(visits, at).len() == 1,
        !visits[at].is_first ==> match visit_below(visits, at) {
            Some(below) => failures(visits, at).drop_first() == failures(visits, below),
            None => failures(visits, at).len() == 1,
        },
{
    lemma_last_from(visits, visits[at].target, at);
    match visit_below(visits, at) {
        Some(below) => {
            assert(failures(visits, at).drop_first() =~= failures(visits, below));
        },
        None => {},
    }
}

/// The visit below another one is the last earlier one from its target, unless it is the first of its
/// stack.
pub proof fn law_below(visits: Seq<PrVisitView>, at: int)
    requires
        0 <= at < visits.len(),
    ensures
        match visit_below(visits, at) {
            Some(below) => {
                &&& !visits[at].is_first
                &&& 0 <= below < at
                &&& visits[below].branch == visits[at].target
                &&& forall|k: int|
                    below < k < at ==> (#[trigger] visits[k]).branch != visits[at].target
            },
            None => visits[at].is_first || forall|k: int|
                0 <= k < at ==> (#[trigger] visits[k]).branch != visits[at].target,
        },
{
    lemma_last_from(visits, visits[at].target, at);
}

/// What is looked at in a visit and in a stack with its list is all that they hold.
pub proof fn law_sync_views(visit: PrVisit, stack: StackComment, k: int)
    requires
        0 <= k < stack.lines@.len(),
    ensures
        visit@.branch == visit.branch@,
        visit@.target == visit.target@,
        visit@.is_first == visit.is_first,
        stack@.branch == stack.branch@,
        stack@.lines.len() == stack.lines@.len(),
        stack@.lines[k].branch == stack.lines@[k].branch@,
        stack@.lines[k].indent == stack.lines@[k].indent,
{
}

/// What is looked at in lists of visits, stacks and outcomes are all of them, in their order, and each
/// as it is.
pub proof fn law_sync_list_views(
    visits: Seq<PrVisit>,
    stacks: Seq<StackComment>,
    outcomes: Seq<Result<IssueUpdate, SyncError>>,
    k: int,
)
    ensures
        pr_views(visits).len() == visits.len(),
        0 <= k < visits.len() ==> pr_views(visits)[k] == visits[k]@,
        stack_views(stacks).len() == stacks.len(),
        0 <= k < stacks.len() ==> stack_views(stacks)[k] == stacks[k]@,
        outcome_views(outcomes).len() == outcomes.len(),
        0 <= k < outcomes.len() ==> outcome_views(outcomes)[k] == match outcomes[k] {
            Ok(update) => Ok::<UpdateView, ErrorView>(update@),
            Err(error) => Err(error@),
        },
{
}

} // verus!
