//! Building the graph of branches: the changes are walked from the oldest one up, and each bookmark
//! is stacked on the nearest one below it.

use vstd::prelude::*;

use crate::error::{ErrorView, SyncError};
use crate::graph::{
    index_of, law_children_are_edges, law_numbers_stay, law_with_node, lemma_index_of_meaning, Graph,
    GraphView,
};
use crate::text::{
    is_whitespace, law_split, law_trim_around, lines, option_view, same_text, split_at_first, split_once, text_lines, trim, trimmed, views,
    CharClass,
};

verus! {

/// A line about a change: its id, and its bookmark if it has one.
pub open spec fn change_line(line: Seq<char>) -> (Seq<char>, Option<Seq<char>>) {
    match split_at_first(trimmed(line, CharClass::Whitespace), ' ') {
        Some((change, branch)) => (change, Some(trimmed(branch, CharClass::Star))),
        None => (line, None),
    }
}

/// Reads a line about a change.
pub fn parse_change_line(line: &str) -> (out: (String, Option<String>))
    ensures
        (out.0@, option_view(out.1)) == change_line(line@),
{
    let whole = trim(line, CharClass::Whitespace);
    match split_once(whole.as_str(), ' ') {
        Some((change, branch)) => (change, Some(trim(branch.as_str(), CharClass::Star))),
        None => (line.to_owned(), None),
    }
}

/// A line about a change that is still to be read, and the nearest bookmark below the change.
pub struct PendingView {
    pub line: Seq<char>,
    pub parent: Seq<char>,
}

/// The lines of one answer, all with the same bookmark below.
pub open spec fn pending_lines(lines: Seq<Seq<char>>, parent: Seq<char>) -> Seq<PendingView> {
    lines.map_values(|line: Seq<char>| PendingView { line, parent })
}

/// The graph once a branch is stacked on another. A branch is never stacked on itself.
pub open spec fn stacked(graph: GraphView, parent: Seq<char>, branch: Seq<char>) -> GraphView {
    if parent == branch {
        graph
    } else {
        let both = graph.with_node(parent).with_node(branch);
        both.with_edge(index_of(both.nodes, parent) as int, index_of(both.nodes, branch) as int)
    }
}

/// What a line changes: the graph, the change to ask about next, and the nearest bookmark below
/// what is on top of that.
pub open spec fn read_line(graph: GraphView, pending: PendingView) -> (
    GraphView,
    Seq<char>,
    Seq<char>,
) {
    match change_line(pending.line) {
        (change, Some(branch)) => (stacked(graph, pending.parent, branch), change, branch),
        (change, None) => (graph, change, pending.parent),
    }
}

/// How far the walk has come: the graph so far, the lines still to be read, and the nearest
/// bookmark below the changes that the next answer lists.
pub struct BuilderView {
    pub graph: GraphView,
    pub pending: Seq<PendingView>,
    pub parent: Seq<char>,
}

impl BuilderView {
    /// The walk before its first answer.
    pub open spec fn start(root: Seq<char>) -> BuilderView {
        BuilderView { graph: GraphView::empty(), pending: Seq::empty(), parent: root }
    }

    /// The walk after an answer, and the change to ask about next, if the walk is not over.
    pub open spec fn feed(self, output: Seq<char>) -> (BuilderView, Option<Seq<char>>) {
        let pending = pending_lines(text_lines(output), self.parent) + self.pending;
        if pending.len() == 0 {
            (BuilderView { graph: self.graph, pending, parent: self.parent }, None)
        } else {
            let (graph, change, parent) = read_line(self.graph, pending[0]);
            (BuilderView { graph, pending: pending.drop_first(), parent }, Some(change))
        }
    }
}

/// A line still to be read.
#[derive(Debug)]
struct Pending {
    line: String,
    parent: String,
}

/// The walk from the oldest change up.
#[derive(Debug)]
pub struct BranchGraphBuilder {
    graph: Graph,
    pending: Vec<Pending>,
    parent: String,
}

impl View for BranchGraphBuilder {
    type V = BuilderView;

    closed spec fn view(&self) -> BuilderView {
        BuilderView {
            graph: self.graph@,
            pending: pending_views(self.pending@),
            parent: self.parent@,
        }
    }
}

/// What is still to be read; the line at the end of the list comes first.
spec fn pending_views(pending: Seq<Pending>) -> Seq<PendingView> {
    Seq::new(
        pending.len(),
        |i: int|
            PendingView {
                line: pending[pending.len() - 1 - i].line@,
                parent: pending[pending.len() - 1 - i].parent@,
            },
    )
}

/// Stacks a branch on another.
fn stack_on(graph: &mut Graph, parent: &str, branch: &str)
    requires
        old(graph).wf(),
    ensures
        final(graph).wf(),
        final(graph)@ == stacked(old(graph)@, parent@, branch@),
{
    if !same_text(parent, branch) {
        let parent_node = graph.get_or_insert(parent);
        let ghost one = graph@;
        let branch_node = graph.get_or_insert(branch);
        proof {
            law_numbers_stay(one, parent@, branch@);
        }
        graph.add_edge(parent_node, branch_node);
    }
}

impl BranchGraphBuilder {
    /// The graph so far is in order.
    pub closed spec fn wf(&self) -> bool {
        self.graph.wf()
    }

    /// Starts the walk at the last line of a list of change ids, and asks about that change.
    pub fn start(output: &str, root: &str) -> (out: Result<(BranchGraphBuilder, String), SyncError>)
        ensures
            match out {
                Ok((builder, change)) => {
                    &&& builder.wf()
                    &&& builder@ == BuilderView::start(root@)
                    &&& text_lines(output@).len() > 0
                    &&& change@ == text_lines(output@).last()
                },
                Err(e) => text_lines(output@).len() == 0 && e@ == ErrorView::NoLines,
            },
    {
        let ids = lines(output);
        assert(views(ids@).len() == ids@.len());
        if ids.len() == 0 {
            return Err(SyncError::NoLines);
        }
        let change = ids[ids.len() - 1].clone();
        let builder = BranchGraphBuilder {
            graph: Graph::default(),
            pending: Vec::new(),
            parent: root.to_owned(),
        };
        assert(builder@.pending =~= Seq::empty());
        Ok((builder, change))
    }

    /// Takes the list of the changes on top of the one that was asked about, and gives the change to
    /// ask about next, or nothing when the walk is over.
    pub fn feed(&mut self, output: &str) -> (next: Option<String>)
        requires
            old(self).wf(),
        ensures
            final(self).wf(),
            (final(self)@, option_view(next)) == old(self)@.feed(output@),
    {
        let listed = lines(output);
        let ghost rows = views(listed@);
        let ghost before = self@;
        let mut i: usize = listed.len();
        assert(pending_lines(rows.skip(i as int), before.parent) + before.pending
            =~= before.pending);
        while i > 0
            invariant
                i <= listed@.len(),
                rows == views(listed@),
                self.wf(),
                self@.graph == before.graph,
                self@.parent == before.parent,
                self@.pending == pending_lines(rows.skip(i as int), before.parent)
                    + before.pending,
            decreases i,
        {
            i -= 1;
            let ghost earlier = self.pending@;
            self.pending.push(Pending { line: listed[i].clone(), parent: self.parent.clone() });
            proof {
                let top = PendingView { line: rows[i as int], parent: before.parent };
                assert(pending_views(self.pending@) =~= seq![top] + pending_views(earlier));
                assert(pending_lines(rows.skip(i as int), before.parent) =~= seq![top]
                    + pending_lines(rows.skip(i + 1), before.parent));
                assert(self@.pending =~= pending_lines(rows.skip(i as int), before.parent)
                    + before.pending);
            }
        }
        assert(rows.skip(0) =~= rows);
        let ghost all = self.pending@;
        match self.pending.pop() {
            Some(top) => {
                assert(pending_views(all)[0] == PendingView {
                    line: top.line@,
                    parent: top.parent@,
                });
                assert(pending_views(all).drop_first() =~= pending_views(self.pending@));
                let (change, branch) = parse_change_line(top.line.as_str());
                match branch {
                    Some(branch) => {
                        stack_on(&mut self.graph, top.parent.as_str(), branch.as_str());
                        self.parent = branch;
                    },
                    None => {
                        self.parent = top.parent;
                    },
                }
                Some(change)
            },
            None => None,
        }
    }

    /// The graph that the walk has built.
    pub fn into_graph(self) -> (graph: Graph)
        requires
            self.wf(),
        ensures
            graph.wf(),
            graph@ == self@.graph,
    {
        self.graph
    }
}

// The walk as a whole.

/// The outcome of a walk: the graph, the changes that were asked about in order, and the answers
/// that are left over.
pub struct WalkView {
    pub graph: GraphView,
    pub asked: Seq<Seq<char>>,
    pub rest: Seq<Seq<char>>,
}

/// The walk up from a change, given the answers in order: what the first answer lists is read line
/// by line. There is no outcome if the answers run out.
pub open spec fn walk_change(
    graph: GraphView,
    parent: Seq<char>,
    answers: Seq<Seq<char>>,
) -> Option<WalkView>
    decreases answers.len(), 0nat,
{
    if answers.len() == 0 {
        None
    } else {
        walk_lines(
            graph,
            pending_lines(text_lines(answers[0]), parent),
            answers.drop_first(),
        )
    }
}

/// The walk over a row of lines: each is read, and the walk goes up from its change before the next
/// one is read. No walk gives back more answers than it was given.
pub open spec fn walk_lines(
    graph: GraphView,
    pending: Seq<PendingView>,
    answers: Seq<Seq<char>>,
) -> Option<WalkView>
    decreases answers.len(), pending.len() + 1,
{
    if pending.len() == 0 {
        Some(WalkView { graph, asked: Seq::empty(), rest: answers })
    } else {
        let (read, change, parent) = read_line(graph, pending[0]);
        match walk_change(read, parent, answers) {
            Some(up) if up.rest.len() <= answers.len() => match walk_lines(
                up.graph,
                pending.drop_first(),
                up.rest,
            ) {
                Some(on) => Some(
                    WalkView {
                        graph: on.graph,
                        asked: seq![change] + up.asked + on.asked,
                        rest: on.rest,
                    },
                ),
                None => None,
            },
            _ => None,
        }
    }
}

/// One walk after another.
pub open spec fn then_lines(first: Option<WalkView>, pending: Seq<PendingView>) -> Option<WalkView> {
    match first {
        Some(first) => match walk_lines(first.graph, pending, first.rest) {
            Some(on) => Some(
                WalkView { graph: on.graph, asked: first.asked + on.asked, rest: on.rest },
            ),
            None => None,
        },
        None => None,
    }
}

proof fn lemma_walk_splits(
    graph: GraphView,
    front: Seq<PendingView>,
    back: Seq<PendingView>,
    answers: Seq<Seq<char>>,
)
    ensures
        walk_lines(graph, front + back, answers) == then_lines(
            walk_lines(graph, front, answers),
            back,
        ),
    decreases front.len(),
{
    let all = front + back;
    if front.len() == 0 {
        assert(all =~= back);
        match walk_lines(graph, back, answers) {
            Some(on) => {
                assert(Seq::<Seq<char>>::empty() + on.asked =~= on.asked);
            },
            None => {},
        }
    } else {
        assert(all[0] == front[0]);
        assert(all.drop_first() =~= front.drop_first() + back);
        let (read, change, parent) = read_line(graph, front[0]);
        match walk_change(read, parent, answers) {
            Some(up) => {
                lemma_walk_splits(up.graph, front.drop_first(), back, up.rest);
                match walk_lines(up.graph, front.drop_first(), up.rest) {
                    Some(one) => match walk_lines(one.graph, back, one.rest) {
                        Some(two) => {
                            assert(seq![change] + up.asked + (one.asked + two.asked) =~= (
                            seq![change] + up.asked + one.asked) + two.asked);
                        },
                        None => {},
                    },
                    None => {},
                }
            },
            None => {},
        }
    }
}

/// The graph and the questions of a walk that used up its answers.
pub open spec fn finished(walk: Option<WalkView>) -> Option<(GraphView, Seq<Seq<char>>)> {
    match walk {
        Some(walk) if walk.rest.len() == 0 => Some((walk.graph, walk.asked)),
        _ => None,
    }
}

impl BuilderView {
    /// Feeding all answers in order: the graph at the end and the changes that were asked about,
    /// provided that the walk is over with the last answer and no sooner.
    pub open spec fn run(self, answers: Seq<Seq<char>>) -> Option<(GraphView, Seq<Seq<char>>)>
        decreases answers.len(),
    {
        if answers.len() == 0 {
            None
        } else {
            match self.feed(answers[0]) {
                (end, None) => if answers.len() == 1 {
                    Some((end.graph, Seq::empty()))
                } else {
                    None
                },
                (next, Some(change)) => match next.run(answers.drop_first()) {
                    Some((graph, asked)) => Some((graph, seq![change] + asked)),
                    None => None,
                },
            }
        }
    }

    proof fn lemma_run(self, answers: Seq<Seq<char>>)
        ensures
            self.run(answers) == finished(
                then_lines(walk_change(self.graph, self.parent, answers), self.pending),
            ),
        decreases answers.len(),
    {
        if answers.len() > 0 {
            let listed = pending_lines(text_lines(answers[0]), self.parent);
            let rest = answers.drop_first();
            let all = listed + self.pending;
            lemma_walk_splits(self.graph, listed, self.pending, rest);
            if all.len() > 0 {
                let (graph, change, parent) = read_line(self.graph, all[0]);
                let next = BuilderView { graph, pending: all.drop_first(), parent };
                next.lemma_run(rest);
                lemma_walk_uses_answers(graph, parent, rest);
                match walk_change(graph, parent, rest) {
                    Some(up) => match walk_lines(up.graph, all.drop_first(), up.rest) {
                        Some(on) => {
                            assert(seq![change] + (up.asked + on.asked) =~= seq![change] + up.asked
                                + on.asked);
                        },
                        None => {},
                    },
                    None => {},
                }
            }
        }
    }
}

proof fn lemma_walk_uses_answers(graph: GraphView, parent: Seq<char>, answers: Seq<Seq<char>>)
    ensures
        walk_change(graph, parent, answers) matches Some(up) ==> up.rest.len() < answers.len(),
    decreases answers.len(), 0nat,
{
    if answers.len() > 0 {
        lemma_lines_use_answers(
            graph,
            pending_lines(text_lines(answers[0]), parent),
            answers.drop_first(),
        );
    }
}

proof fn lemma_lines_use_answers(
    graph: GraphView,
    pending: Seq<PendingView>,
    answers: Seq<Seq<char>>,
)
    ensures
        walk_lines(graph, pending, answers) matches Some(on) ==> on.rest.len() <= answers.len(),
    decreases answers.len(), pending.len() + 1,
{
    if pending.len() > 0 {
        let (read, change, parent) = read_line(graph, pending[0]);
        lemma_walk_uses_answers(read, parent, answers);
        match walk_change(read, parent, answers) {
            Some(up) => {
                lemma_lines_use_answers(up.graph, pending.drop_first(), up.rest);
            },
            None => {},
        }
    }
}

/// Feeding the answers one by one gives the graph, and asks about the changes in the order, of the
/// walk that goes all the way up from each change before it looks at the next.
pub proof fn law_feeding_walks(root: Seq<char>, answers: Seq<Seq<char>>)
    ensures
        BuilderView::start(root).run(answers) == finished(
            walk_change(GraphView::empty(), root, answers),
        ),
{
    let start = BuilderView::start(root);
    start.lemma_run(answers);
    let walk = walk_change(start.graph, root, answers);
    assert(then_lines(walk, Seq::empty()) == walk) by {
        match walk {
            Some(up) => {
                assert(up.asked + Seq::<Seq<char>>::empty() =~= up.asked);
            },
            None => {},
        }
    }
}

/// Whether no branch of a graph is stacked on itself.
pub open spec fn no_loops(graph: GraphView) -> bool {
    forall|i: int| !#[trigger] graph.edges.contains((i, i))
}

proof fn lemma_with_node_wf(graph: GraphView, name: Seq<char>)
    requires
        graph.wf(),
    ensures
        graph.with_node(name).wf(),
        index_of(graph.with_node(name).nodes, name) < graph.with_node(name).nodes.len(),
        graph.with_node(name).edges == graph.edges,
{
    lemma_index_of_meaning(graph.nodes, name);
    lemma_index_of_meaning(graph.with_node(name).nodes, name);
    if index_of(graph.nodes, name) == graph.nodes.len() {
        assert(graph.with_node(name).nodes[graph.nodes.len() as int] == name);
    }
}

/// Whatever is fed, the graph stays in order, nothing is taken out of it, and no branch is ever
/// stacked on itself.
pub proof fn law_feed_keeps_order(builder: BuilderView, output: Seq<char>)
    requires
        builder.graph.wf(),
        no_loops(builder.graph),
    ensures
        builder.feed(output).0.graph.wf(),
        no_loops(builder.feed(output).0.graph),
        builder.graph.nodes.is_prefix_of(builder.feed(output).0.graph.nodes),
        builder.graph.edges.subset_of(builder.feed(output).0.graph.edges),
{
    let graph = builder.graph;
    let pending = pending_lines(text_lines(output), builder.parent) + builder.pending;
    if pending.len() > 0 {
        match change_line(pending[0].line) {
            (_, Some(branch)) => {
                let parent = pending[0].parent;
                if parent != branch {
                    let one = graph.with_node(parent);
                    lemma_with_node_wf(graph, parent);
                    lemma_with_node_wf(one, branch);
                    law_numbers_stay(one, parent, branch);
                    let both = one.with_node(branch);
                    lemma_index_of_meaning(both.nodes, parent);
                    lemma_index_of_meaning(both.nodes, branch);
                }
            },
            _ => {},
        }
    }
}

// What reading a line amounts to.

/// A line about a change is its id, a space and a bookmark, which the mark may surround; the whole may
/// stand between whitespace.
pub proof fn law_bookmark_line(
    front: Seq<char>,
    change: Seq<char>,
    marks: Seq<char>,
    branch: Seq<char>,
    more: Seq<char>,
    back: Seq<char>,
)
    requires
        forall|i: int| 0 <= i < front.len() ==> is_whitespace(#[trigger] front[i]),
        forall|i: int| 0 <= i < back.len() ==> is_whitespace(#[trigger] back[i]),
        forall|i: int| 0 <= i < marks.len() ==> #[trigger] marks[i] == '*',
        forall|i: int| 0 <= i < more.len() ==> #[trigger] more[i] == '*',
        change.len() > 0,
        !change.contains(' '),
        !is_whitespace(change[0]),
        branch.len() > 0,
        branch[0] != '*',
        branch.last() != '*',
        more.len() == 0 ==> !is_whitespace(branch.last()),
    ensures
        change_line(front + change.push(' ') + marks + branch + more + back) == (
            change,
            Some(branch),
        ),
{
    let rest = marks + branch + more;
    let core = change.push(' ') + rest;
    let line = front + change.push(' ') + marks + branch + more + back;
    assert(line =~= front + core + back);
    assert(core[0] == change[0]);
    assert(core.last() == if more.len() > 0 {
        more.last()
    } else {
        branch.last()
    });
    if more.len() > 0 {
        assert(more[more.len() - 1] == '*');
    }
    law_trim_around(front, core, back, CharClass::Whitespace);
    law_split(change, ' ', rest);
    law_trim_around(marks, branch, more, CharClass::Star);
}

/// A line in which no space is left once it is trimmed is the id of a change without a bookmark, as it
/// stands.
pub proof fn law_bare_line(line: Seq<char>)
    requires
        !trimmed(line, CharClass::Whitespace).contains(' '),
    ensures
        change_line(line) == (line, None::<Seq<char>>),
{
    law_split(trimmed(line, CharClass::Whitespace), ' ', Seq::empty());
}

/// What a line with a space in it says: what comes before the first space, and what comes after it
/// without the marks around it.
pub proof fn law_change_line(line: Seq<char>, change: Seq<char>, rest: Seq<char>)
    requires
        trimmed(line, CharClass::Whitespace) == change.push(' ') + rest,
        !change.contains(' '),
    ensures
        change_line(line) == (change, Some(trimmed(rest, CharClass::Star))),
{
    law_split(change, ' ', rest);
}

/// Once a branch is stacked on another, both are in the graph and the one is among the children of the
/// other; every other edge is as it was, and so are the numbers of the branches. A branch that is to be
/// stacked on itself changes nothing.
pub proof fn law_stacked(
    graph: GraphView,
    parent: Seq<char>,
    branch: Seq<char>,
    from: Seq<char>,
    to: Seq<char>,
)
    requires
        graph.wf(),
    ensures
        stacked(graph, parent, branch).wf(),
        graph.nodes.is_prefix_of(stacked(graph, parent, branch).nodes),
        parent != branch ==> stacked(graph, parent, branch).nodes.contains(parent),
        parent != branch ==> stacked(graph, parent, branch).nodes.contains(branch),
        stacked(graph, parent, branch).nodes.contains(from) <==> {
            ||| graph.nodes.contains(from)
            ||| parent != branch && (from == parent || from == branch)
        },
        stacked(graph, parent, branch).children(from).contains(to) <==> {
            ||| graph.children(from).contains(to)
            ||| parent != branch && from == parent && to == branch
        },
{
    if parent != branch {
        let one = graph.with_node(parent);
        let two = one.with_node(branch);
        let end = stacked(graph, parent, branch);
        lemma_with_node_wf(graph, parent);
        lemma_with_node_wf(one, branch);
        law_with_node(graph, parent);
        law_with_node(one, branch);
        law_numbers_stay(one, parent, branch);
        lemma_index_of_meaning(two.nodes, parent);
        lemma_index_of_meaning(two.nodes, branch);
        lemma_index_of_meaning(two.nodes, from);
        lemma_index_of_meaning(two.nodes, to);
        lemma_index_of_meaning(graph.nodes, from);
        lemma_index_of_meaning(graph.nodes, to);
        assert(end.wf());
        law_children_are_edges(graph, from, to);
        law_children_are_edges(end, from, to);
        let p = index_of(two.nodes, parent) as int;
        let b = index_of(two.nodes, branch) as int;
        assert(two.nodes[p] == parent && two.nodes[b] == branch);
        lemma_same_number(graph, two, from);
        lemma_same_number(graph, two, to);
        if two.nodes.contains(from) {
            let k = choose|k: int| 0 <= k < two.nodes.len() && two.nodes[k] == from;
            if k < graph.nodes.len() {
                assert(graph.nodes[k] == from);
            }
        }
        if graph.nodes.contains(from) {
            let k = choose|k: int| 0 <= k < graph.nodes.len() && graph.nodes[k] == from;
            assert(two.nodes[k] == from);
        }
    }
}

/// That a branch which has a number keeps it when others come behind, and that one which has none is
/// on no edge.
proof fn lemma_same_number(graph: GraphView, more: GraphView, name: Seq<char>)
    requires
        graph.wf(),
        more.nodes.no_duplicates(),
        graph.nodes.is_prefix_of(more.nodes),
    ensures
        index_of(graph.nodes, name) < graph.nodes.len() ==> index_of(more.nodes, name) == index_of(
            graph.nodes,
            name,
        ),
        index_of(graph.nodes, name) == graph.nodes.len() ==> index_of(more.nodes, name)
            >= graph.nodes.len(),
{
    lemma_index_of_meaning(graph.nodes, name);
    lemma_index_of_meaning(more.nodes, name);
    let i = index_of(graph.nodes, name) as int;
    let j = index_of(more.nodes, name) as int;
    if i < graph.nodes.len() {
        assert(more.nodes[i] == name);
    } else if j < graph.nodes.len() {
        assert(graph.nodes[j] == more.nodes[j]);
    }
}

/// What a line leads to: the change to ask about next, and the nearest bookmark below what is on top of
/// that. Only a line with a bookmark changes the graph.
pub proof fn law_read_line(graph: GraphView, line: Seq<char>, parent: Seq<char>)
    ensures
        ({
            let (read, change, below) = read_line(graph, PendingView { line, parent });
            let (id, bookmark) = change_line(line);
            &&& change == id
            &&& bookmark matches Some(branch) ==> below == branch && read == stacked(
                graph,
                parent,
                branch,
            )
            &&& bookmark is None ==> below == parent && read == graph
        }),
{
}

/// An answer is read line by line before what was listed earlier: its first line now, and its other
/// lines next, all with the same bookmark below.
pub proof fn law_feed(builder: BuilderView, output: Seq<char>)
    ensures
        ({
            let (after, next) = builder.feed(output);
            let listed = text_lines(output);
            &&& listed.len() > 0 ==> {
                let (graph, change, parent) = read_line(
                    builder.graph,
                    PendingView { line: listed[0], parent: builder.parent },
                );
                &&& next == Some(change)
                &&& after.graph == graph
                &&& after.parent == parent
                &&& after.pending.len() == listed.len() - 1 + builder.pending.len()
                &&& forall|k: int|
                    0 <= k < listed.len() - 1 ==> #[trigger] after.pending[k] == (PendingView {
                        line: listed[k + 1],
                        parent: builder.parent,
                    })
                &&& forall|k: int|
                    #![trigger builder.pending[k]]
                    0 <= k < builder.pending.len() ==> after.pending[listed.len() - 1 + k]
                        == builder.pending[k]
            }
            &&& listed.len() == 0 && builder.pending.len() > 0 ==> {
                let (graph, change, parent) = read_line(builder.graph, builder.pending[0]);
                &&& next == Some(change)
                &&& after.graph == graph
                &&& after.parent == parent
                &&& after.pending == builder.pending.drop_first()
            }
            &&& listed.len() == 0 && builder.pending.len() == 0 ==> {
                &&& next is None
                &&& after.graph == builder.graph
            }
        }),
{
    let listed = text_lines(output);
    let all = pending_lines(listed, builder.parent) + builder.pending;
    if listed.len() > 0 {
        assert(all[0] == PendingView { line: listed[0], parent: builder.parent });
        let rest = all.drop_first();
        assert forall|k: int| 0 <= k < listed.len() - 1 implies #[trigger] rest[k] == (PendingView {
            line: listed[k + 1],
            parent: builder.parent,
        }) by {
            assert(rest[k] == all[k + 1]);
        }
        assert forall|k: int| 0 <= k < builder.pending.len() implies rest[listed.len() - 1 + k]
            == #[trigger] builder.pending[k] by {
            assert(rest[listed.len() - 1 + k] == all[listed.len() + k]);
        }
    } else {
        assert(all =~= builder.pending);
    }
}

/// A walk starts with an empty graph, nothing to be read, and the root below everything.
pub proof fn law_start(root: Seq<char>)
    ensures
        BuilderView::start(root).graph.nodes.len() == 0,
        forall|i: int, j: int| !#[trigger] BuilderView::start(root).graph.edges.contains((i, j)),
        BuilderView::start(root).pending.len() == 0,
        BuilderView::start(root).parent == root,
{
}

/// The bookmarks that a walk reads, each with the nearest one below it, and the answers left over.
pub struct TraceView {
    pub pairs: Seq<(Seq<char>, Seq<char>)>,
    pub rest: Seq<Seq<char>>,
}

/// The bookmarks that are read on the way up from a change, given the answers in order.
pub open spec fn trace_change(parent: Seq<char>, answers: Seq<Seq<char>>) -> Option<TraceView>
    decreases answers.len(), 0nat,
{
    if answers.len() == 0 {
        None
    } else {
        trace_lines(parent, text_lines(answers[0]), answers.drop_first())
    }
}

/// The bookmarks that are read in a list of changes and on the way up from each of them.
pub open spec fn trace_lines(
    parent: Seq<char>,
    lines: Seq<Seq<char>>,
    answers: Seq<Seq<char>>,
) -> Option<TraceView>
    decreases answers.len(), lines.len() + 1,
{
    if lines.len() == 0 {
        Some(TraceView { pairs: Seq::empty(), rest: answers })
    } else {
        let (above, own) = match change_line(lines[0]).1 {
            Some(branch) => (branch, seq![(parent, branch)]),
            None => (parent, Seq::empty()),
        };
        match trace_change(above, answers) {
            Some(up) if up.rest.len() <= answers.len() => match trace_lines(
                parent,
                lines.drop_first(),
                up.rest,
            ) {
                Some(on) => Some(TraceView { pairs: own + up.pairs + on.pairs, rest: on.rest }),
                None => None,
            },
            _ => None,
        }
    }
}

/// Whether the edges of a graph are those of another, and besides one for each pair of different names.
spec fn adds(
    before: GraphView,
    after: GraphView,
    pairs: Seq<(Seq<char>, Seq<char>)>,
) -> bool {
    &&& after.wf()
    &&& forall|from: Seq<char>, to: Seq<char>| #[trigger]
        after.children(from).contains(to) <==> before.children(from).contains(to) || from != to
            && pairs.contains((from, to))
}

proof fn lemma_adds_both(
    one: GraphView,
    two: GraphView,
    three: GraphView,
    front: Seq<(Seq<char>, Seq<char>)>,
    back: Seq<(Seq<char>, Seq<char>)>,
)
    requires
        adds(one, two, front),
        adds(two, three, back),
    ensures
        adds(one, three, front + back),
{
    let all = front + back;
    assert forall|from: Seq<char>, to: Seq<char>| #[trigger]
        three.children(from).contains(to) <==> one.children(from).contains(to) || from != to
            && all.contains((from, to)) by {
        assert(two.children(from).contains(to) <==> one.children(from).contains(to) || from != to
            && front.contains((from, to)));
        assert(all.contains((from, to)) <==> front.contains((from, to)) || back.contains(
            (from, to),
        )) by {
            if all.contains((from, to)) {
                let k = choose|k: int| 0 <= k < all.len() && all[k] == (from, to);
                if k < front.len() {
                    assert(front[k] == (from, to));
                } else {
                    assert(back[k - front.len()] == (from, to));
                }
            }
            if front.contains((from, to)) {
                let k = choose|k: int| 0 <= k < front.len() && front[k] == (from, to);
                assert(all[k] == (from, to));
            }
            if back.contains((from, to)) {
                let k = choose|k: int| 0 <= k < back.len() && back[k] == (from, to);
                assert(all[front.len() + k] == (from, to));
            }
        }
    }
}

proof fn lemma_line_adds(graph: GraphView, line: Seq<char>, parent: Seq<char>)
    requires
        graph.wf(),
    ensures
        adds(
            graph,
            read_line(graph, PendingView { line, parent }).0,
            match change_line(line).1 {
                Some(branch) => seq![(parent, branch)],
                None => Seq::empty(),
            },
        ),
{
    match change_line(line).1 {
        Some(branch) => {
            let pairs = seq![(parent, branch)];
            let after = stacked(graph, parent, branch);
            law_stacked(graph, parent, branch, parent, branch);
            assert forall|from: Seq<char>, to: Seq<char>| #[trigger]
                after.children(from).contains(to) <==> graph.children(from).contains(to) || from
                    != to && pairs.contains((from, to)) by {
                law_stacked(graph, parent, branch, from, to);
                if from == parent && to == branch {
                    assert(pairs[0] == (from, to));
                }
            }
        },
        None => {},
    }
}

proof fn lemma_walk_change_adds(
    graph: GraphView,
    parent: Seq<char>,
    answers: Seq<Seq<char>>,
)
    requires
        graph.wf(),
    ensures
        walk_change(graph, parent, answers) is Some <==> trace_change(parent, answers) is Some,
        walk_change(graph, parent, answers) matches Some(walk) ==> {
            let trace = trace_change(parent, answers)->0;
            &&& walk.rest == trace.rest
            &&& adds(graph, walk.graph, trace.pairs)
        },
    decreases answers.len(), 0nat,
{
    if answers.len() > 0 {
        lemma_walk_lines_adds(graph, parent, text_lines(answers[0]), answers.drop_first());
    }
}

proof fn lemma_walk_lines_adds(
    graph: GraphView,
    parent: Seq<char>,
    lines: Seq<Seq<char>>,
    answers: Seq<Seq<char>>,
)
    requires
        graph.wf(),
    ensures
        walk_lines(graph, pending_lines(lines, parent), answers) is Some <==> trace_lines(
            parent,
            lines,
            answers,
        ) is Some,
        walk_lines(graph, pending_lines(lines, parent), answers) matches Some(walk) ==> {
            let trace = trace_lines(parent, lines, answers)->0;
            &&& walk.rest == trace.rest
            &&& adds(graph, walk.graph, trace.pairs)
        },
    decreases answers.len(), lines.len() + 1,
{
    let pending = pending_lines(lines, parent);
    if lines.len() > 0 {
        let line = lines[0];
        assert(pending[0] == PendingView { line, parent });
        assert(pending.drop_first() =~= pending_lines(lines.drop_first(), parent));
        let (read, change, above) = read_line(graph, pending[0]);
        let own = match change_line(line).1 {
            Some(branch) => seq![(parent, branch)],
            None => Seq::empty(),
        };
        lemma_line_adds(graph, line, parent);
        lemma_walk_uses_answers(read, above, answers);
        lemma_walk_change_adds(read, above, answers);
        match walk_change(read, above, answers) {
            Some(up) => {
                let pairs = trace_change(above, answers)->0.pairs;
                lemma_adds_both(graph, read, up.graph, own, pairs);
                lemma_walk_lines_adds(up.graph, parent, lines.drop_first(), up.rest);
                match walk_lines(up.graph, pending.drop_first(), up.rest) {
                    Some(on) => {
                        let more = trace_lines(parent, lines.drop_first(), up.rest)->0.pairs;
                        lemma_adds_both(graph, up.graph, on.graph, own + pairs, more);
                    },
                    None => {},
                }
            },
            None => {},
        }
    } else {
        assert(pending =~= Seq::empty());
    }
}

/// The graph that a walk builds has an edge exactly for each bookmark that was read with a different
/// one as the nearest below it, and the walk is over exactly when there is nothing left to be read.
pub proof fn law_walk_edges(
    root: Seq<char>,
    answers: Seq<Seq<char>>,
    from: Seq<char>,
    to: Seq<char>,
)
    ensures
        BuilderView::start(root).run(answers) is Some <==> {
            &&& trace_change(root, answers) is Some
            &&& trace_change(root, answers)->0.rest.len() == 0
        },
        BuilderView::start(root).run(answers) matches Some((graph, asked)) ==> {
            &&& graph.wf()
            &&& graph.children(from).contains(to) <==> from != to && trace_change(
                root,
                answers,
            )->0.pairs.contains((from, to))
        },
{
    law_feeding_walks(root, answers);
    lemma_walk_change_adds(GraphView::empty(), root, answers);
}

} // verus!
