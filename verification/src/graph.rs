//! The graph of branches: which branch is stacked on which.

use std::collections::{BTreeMap, BTreeSet};
use vstd::prelude::*;

use crate::links::{add_link, linked, links_from};
use crate::text::{decimal, joined, law_joined, push_decimal, views};

verus! {

/// What a graph of branches is: its branch names, numbered in the order in which they came, and
/// the pairs of numbers that an edge leads from and to.
pub struct GraphView {
    pub nodes: Seq<Seq<char>>,
    pub edges: Set<(int, int)>,
}

/// The first position of a name in a list, or the list's length if the name is not in it.
pub open spec fn index_of(names: Seq<Seq<char>>, name: Seq<char>) -> nat
    decreases names.len(),
{
    if names.len() == 0 || names[0] == name {
        0
    } else {
        1 + index_of(names.drop_first(), name)
    }
}

proof fn lemma_index_of(names: Seq<Seq<char>>, name: Seq<char>, n: int)
    requires
        0 <= n <= names.len(),
        forall|i: int| 0 <= i < n ==> #[trigger] names[i] != name,
        n < names.len() ==> names[n] == name,
    ensures
        index_of(names, name) == n,
    decreases n,
{
    if n > 0 {
        let t = names.drop_first();
        assert forall|i: int| 0 <= i < n - 1 implies #[trigger] t[i] != name by {
            assert(t[i] == names[i + 1]);
        }
        lemma_index_of(t, name, n - 1);
    }
}

/// That `index_of` is the first position of the name, or the length if there is none.
pub proof fn lemma_index_of_meaning(names: Seq<Seq<char>>, name: Seq<char>)
    ensures
        index_of(names, name) <= names.len(),
        forall|i: int| 0 <= i < index_of(names, name) ==> #[trigger] names[i] != name,
        index_of(names, name) < names.len() ==> names[index_of(names, name) as int] == name,
    decreases names.len(),
{
    if names.len() > 0 && names[0] != name {
        let t = names.drop_first();
        lemma_index_of_meaning(t, name);
        assert forall|i: int| 0 <= i < index_of(names, name) implies #[trigger] names[i] != name by {
            if i > 0 {
                assert(t[i - 1] == names[i]);
            }
        }
    }
}

/// A branch keeps its number when another is given one.
pub proof fn law_numbers_stay(graph: GraphView, name: Seq<char>, other: Seq<char>)
    requires
        index_of(graph.nodes, name) < graph.nodes.len(),
    ensures
        index_of(graph.with_node(other).nodes, name) == index_of(graph.nodes, name),
{
    lemma_index_of_meaning(graph.nodes, name);
    let more = graph.with_node(other).nodes;
    assert forall|i: int| 0 <= i < index_of(graph.nodes, name) implies #[trigger] more[i] != name by {
        assert(graph.nodes[i] != name);
    }
    lemma_index_of(more, name, index_of(graph.nodes, name) as int);
}

impl GraphView {
    /// A graph without branches.
    pub open spec fn empty() -> GraphView {
        GraphView { nodes: Seq::empty(), edges: Set::empty() }
    }

    /// Every branch has one number, and every edge joins two of them.
    pub open spec fn wf(self) -> bool {
        &&& self.nodes.no_duplicates()
        &&& forall|i: int, j: int| #[trigger]
            self.edges.contains((i, j)) ==> 0 <= i < self.nodes.len() && 0 <= j < self.nodes.len()
    }

    /// The graph once a branch has a number.
    pub open spec fn with_node(self, name: Seq<char>) -> GraphView {
        if index_of(self.nodes, name) < self.nodes.len() {
            self
        } else {
            GraphView { nodes: self.nodes.push(name), edges: self.edges }
        }
    }

    /// The graph with one more edge.
    pub open spec fn with_edge(self, from: int, to: int) -> GraphView {
        GraphView { nodes: self.nodes, edges: self.edges.insert((from, to)) }
    }

    /// The numbers below `n` that an edge from `i` leads to, in ascending order.
    pub open spec fn child_ids(self, i: int, n: int) -> Seq<int>
        decreases n,
    {
        if n <= 0 {
            Seq::empty()
        } else if self.edges.contains((i, n - 1)) {
            self.child_ids(i, n - 1).push(n - 1)
        } else {
            self.child_ids(i, n - 1)
        }
    }

    /// The branches stacked directly on branch number `i`, in the order of their numbers.
    pub open spec fn children_at(self, i: int) -> Seq<Seq<char>> {
        self.child_ids(i, self.nodes.len() as int).map_values(|j: int| self.nodes[j])
    }

    /// The branches stacked directly on a branch, in the order of their numbers.
    pub open spec fn children(self, name: Seq<char>) -> Seq<Seq<char>> {
        let i = index_of(self.nodes, name);
        if i < self.nodes.len() {
            self.children_at(i as int)
        } else {
            Seq::empty()
        }
    }

    /// The edges from the first `n` branches, as pairs of names.
    pub open spec fn edges_upto(self, n: int) -> Seq<(Seq<char>, Seq<char>)>
        decreases n,
    {
        if n <= 0 {
            Seq::empty()
        } else {
            self.edges_upto(n - 1) + self.children_at(n - 1).map_values(
                |child: Seq<char>| (self.nodes[n - 1], child),
            )
        }
    }

    /// The lines of the dot text that name the first `n` branches.
    pub open spec fn dot_nodes(self, n: int) -> Seq<char>
        decreases n,
    {
        if n <= 0 {
            Seq::empty()
        } else {
            self.dot_nodes(n - 1) + "    "@ + decimal((n - 1) as nat) + " [label=\""@
                + self.nodes[n - 1] + "\"];\n"@
        }
    }

    /// The lines of the dot text for the first edges from branch number `i`.
    pub open spec fn dot_edges_from(i: int, targets: Seq<int>) -> Seq<char>
        decreases targets.len(),
    {
        if targets.len() == 0 {
            Seq::empty()
        } else {
            Self::dot_edges_from(i, targets.drop_last()) + "    "@ + decimal(i as nat)
                + " -> "@ + decimal(targets.last() as nat) + ";\n"@
        }
    }

    /// The lines of the dot text for the edges from the first `n` branches.
    pub open spec fn dot_edges(self, n: int) -> Seq<char>
        decreases n,
    {
        if n <= 0 {
            Seq::empty()
        } else {
            self.dot_edges(n - 1) + Self::dot_edges_from(
                n - 1,
                self.child_ids(n - 1, self.nodes.len() as int),
            )
        }
    }

    /// The graph in the dot language: first the branches by number, then the edges.
    pub open spec fn dot(self) -> Seq<char> {
        let n = self.nodes.len() as int;
        "digraph Branches {\n"@ + self.dot_nodes(n) + self.dot_edges(n) + "}\n"@
    }
}

/// That a row of ascending numbers is `child_ids` if it holds what the edges from `i` lead to.
proof fn lemma_child_ids(graph: GraphView, i: int, row: Seq<int>, n: int)
    requires
        0 <= n,
        forall|a: int, b: int| 0 <= a < b < row.len() ==> row[a] < row[b],
        forall|a: int| 0 <= a < row.len() ==> 0 <= #[trigger] row[a] < n,
        forall|j: int| 0 <= j < n ==> (#[trigger] row.contains(j) <==> graph.edges.contains((i, j))),
    ensures
        row == graph.child_ids(i, n),
    decreases n,
{
    if n == 0 {
        if row.len() > 0 {
            assert(0 <= row[0] < n);
        }
        assert(row =~= Seq::empty());
    } else if graph.edges.contains((i, n - 1)) {
        assert(row.contains(n - 1));
        let at = choose|k: int| 0 <= k < row.len() && row[k] == n - 1;
        assert(at == row.len() - 1) by {
            if at < row.len() - 1 {
                assert(row[at] < row[row.len() - 1]);
            }
        }
        let front = row.drop_last();
        assert forall|a: int| 0 <= a < front.len() implies 0 <= #[trigger] front[a] < n - 1 by {
            assert(row[a] < row[at]);
        }
        assert forall|j: int| 0 <= j < n - 1 implies (#[trigger] front.contains(j)
            <==> graph.edges.contains((i, j))) by {
            if row.contains(j) {
                let k = choose|k: int| 0 <= k < row.len() && row[k] == j;
                assert(front[k] == j);
            }
            if front.contains(j) {
                let k = choose|k: int| 0 <= k < front.len() && front[k] == j;
                assert(row[k] == j);
            }
        }
        lemma_child_ids(graph, i, front, n - 1);
        assert(row =~= front.push(n - 1));
    } else {
        assert forall|a: int| 0 <= a < row.len() implies 0 <= #[trigger] row[a] < n - 1 by {
            assert(row.contains(row[a]));
        }
        lemma_child_ids(graph, i, row, n - 1);
    }
}

/// That `child_ids` holds the numbers below `n` that an edge from `i` leads to, and each one once.
pub proof fn lemma_child_ids_meaning(graph: GraphView, i: int, n: int)
    ensures
        forall|j: int| #[trigger]
            graph.child_ids(i, n).contains(j) <==> 0 <= j < n && graph.edges.contains((i, j)),
        graph.child_ids(i, n).no_duplicates(),
        forall|a: int, b: int|
            0 <= a < b < graph.child_ids(i, n).len() ==> graph.child_ids(i, n)[a]
                < graph.child_ids(i, n)[b],
        forall|k: int|
            0 <= k < graph.child_ids(i, n).len() ==> {
                &&& 0 <= #[trigger] graph.child_ids(i, n)[k] < n
                &&& graph.edges.contains((i, graph.child_ids(i, n)[k]))
            },
    decreases n,
{
    let row = graph.child_ids(i, n);
    if n > 0 {
        lemma_child_ids_meaning(graph, i, n - 1);
        let front = graph.child_ids(i, n - 1);
        assert forall|j: int| #[trigger]
            row.contains(j) <==> 0 <= j < n && graph.edges.contains((i, j)) by {
            if row.contains(j) && j != n - 1 {
                let k = choose|k: int| 0 <= k < row.len() && row[k] == j;
                assert(front[k] == j);
            }
            if front.contains(j) {
                let k = choose|k: int| 0 <= k < front.len() && front[k] == j;
                assert(row[k] == j);
            }
            if graph.edges.contains((i, n - 1)) {
                assert(row[row.len() - 1] == n - 1);
            }
        }
        assert forall|a: int, b: int| 0 <= a < b < row.len() implies row[a] < row[b] by {
            assert(front[a] == row[a]);
            if b < front.len() {
                assert(front[b] == row[b]);
            }
        }
    }
}

/// A branch that has a number is not given another one.
pub proof fn law_one_number(graph: GraphView, name: Seq<char>)
    ensures
        graph.with_node(name).with_node(name) == graph.with_node(name),
{
    lemma_index_of_meaning(graph.nodes, name);
    if index_of(graph.nodes, name) == graph.nodes.len() {
        lemma_index_of(graph.with_node(name).nodes, name, graph.nodes.len() as int);
    }
}

/// Adding an edge a second time changes nothing.
pub proof fn law_one_edge(graph: GraphView, from: int, to: int)
    ensures
        graph.with_edge(from, to).with_edge(from, to) == graph.with_edge(from, to),
{
    assert(graph.with_edge(from, to).with_edge(from, to).edges =~= graph.with_edge(from, to).edges);
}

/// A branch is listed among those stacked on another exactly if there is an edge, and once at most.
pub proof fn law_children_are_edges(graph: GraphView, from: Seq<char>, to: Seq<char>)
    requires
        graph.wf(),
    ensures
        graph.children(from).contains(to) <==> {
            &&& index_of(graph.nodes, from) < graph.nodes.len()
            &&& index_of(graph.nodes, to) < graph.nodes.len()
            &&& graph.edges.contains(
                (index_of(graph.nodes, from) as int, index_of(graph.nodes, to) as int),
            )
        },
        graph.children(from).no_duplicates(),
{
    let n = graph.nodes.len() as int;
    let i = index_of(graph.nodes, from) as int;
    let j = index_of(graph.nodes, to) as int;
    lemma_index_of_meaning(graph.nodes, from);
    lemma_index_of_meaning(graph.nodes, to);
    if i < n {
        lemma_child_ids_meaning(graph, i, n);
        let row = graph.child_ids(i, n);
        let names = graph.children(from);
        if names.contains(to) {
            let k = choose|k: int| 0 <= k < names.len() && names[k] == to;
            assert(graph.nodes[row[k]] == to);
            assert(j == row[k]);
        }
        if j < n && graph.edges.contains((i, j)) {
            assert(row.contains(j));
            let k = choose|k: int| 0 <= k < row.len() && row[k] == j;
            assert(names[k] == to);
        }
        assert forall|a: int, b: int| 0 <= a < b < names.len() implies names[a] != names[b] by {
            assert(row[a] != row[b]);
        }
    }
}

/// A new edge is listed, and changes nothing for the branches that it does not lead from.
pub proof fn law_new_edge(graph: GraphView, from: int, to: int, other: int)
    requires
        graph.wf(),
        0 <= from < graph.nodes.len(),
        0 <= to < graph.nodes.len(),
        other != from,
    ensures
        graph.with_edge(from, to).wf(),
        graph.with_edge(from, to).children_at(from).contains(graph.nodes[to]),
        graph.with_edge(from, to).children_at(other) == graph.children_at(other),
{
    let n = graph.nodes.len() as int;
    let more = graph.with_edge(from, to);
    lemma_child_ids_meaning(more, from, n);
    let row = more.child_ids(from, n);
    assert(row.contains(to));
    let k = choose|k: int| 0 <= k < row.len() && row[k] == to;
    assert(more.children_at(from)[k] == graph.nodes[to]);
    lemma_same_children(graph, more, other, n);
    assert(more.children_at(other) =~= graph.children_at(other));
}

proof fn lemma_same_children(one: GraphView, two: GraphView, i: int, n: int)
    requires
        forall|j: int| #[trigger] one.edges.contains((i, j)) == two.edges.contains((i, j)),
    ensures
        one.child_ids(i, n) == two.child_ids(i, n),
    decreases n,
{
    if n > 0 {
        assert(one.edges.contains((i, n - 1)) == two.edges.contains((i, n - 1)));
        lemma_same_children(one, two, i, n - 1);
    }
}

/// The list of all edges holds a pair of branches exactly if the second is stacked on the first.
pub proof fn law_edges_are_listed(graph: GraphView, from: Seq<char>, to: Seq<char>)
    requires
        graph.wf(),
    ensures
        graph.edges_upto(graph.nodes.len() as int).contains((from, to)) <==> graph.children(
            from,
        ).contains(to),
        graph.edges_upto(graph.nodes.len() as int).no_duplicates(),
{
    lemma_edges_upto(graph, graph.nodes.len() as int);
    let list = graph.edges_upto(graph.nodes.len() as int);
    lemma_index_of_meaning(graph.nodes, from);
    if list.contains((from, to)) {
        let k = choose|k: int| 0 <= k < list.len() && list[k] == (from, to);
        assert(is_edge_upto(graph, list[k], graph.nodes.len() as int));
        let i = choose|i: int|
            0 <= i < graph.nodes.len() && graph.nodes[i] == list[k].0 && #[trigger] graph.children_at(
                i,
            ).contains(list[k].1);
        assert(index_of(graph.nodes, from) == i);
    }
    if graph.children(from).contains(to) {
        let i = index_of(graph.nodes, from) as int;
        assert(graph.children_at(i).contains(to));
    }
}

/// Whether a pair of names is an edge from one of the first `n` branches.
spec fn is_edge_upto(graph: GraphView, pair: (Seq<char>, Seq<char>), n: int) -> bool {
    exists|i: int|
        0 <= i < n && graph.nodes[i] == pair.0 && #[trigger] graph.children_at(i).contains(pair.1)
}

proof fn lemma_edges_upto(graph: GraphView, n: int)
    requires
        graph.wf(),
        0 <= n <= graph.nodes.len(),
    ensures
        graph.edges_upto(n).no_duplicates(),
        forall|k: int|
            0 <= k < graph.edges_upto(n).len() ==> is_edge_upto(
                graph,
                #[trigger] graph.edges_upto(n)[k],
                n,
            ),
        forall|i: int, to: Seq<char>|
            0 <= i < n && #[trigger] graph.children_at(i).contains(to) ==> graph.edges_upto(
                n,
            ).contains((graph.nodes[i], to)),
    decreases n,
{
    if n > 0 {
        let all = graph.edges_upto(n);
        let front = graph.edges_upto(n - 1);
        let names = graph.children_at(n - 1);
        let pairs = names.map_values(|child: Seq<char>| (graph.nodes[n - 1], child));
        lemma_edges_upto(graph, n - 1);
        lemma_index_of_meaning(graph.nodes, graph.nodes[n - 1]);
        assert(index_of(graph.nodes, graph.nodes[n - 1]) == n - 1);
        law_children_are_edges(graph, graph.nodes[n - 1], graph.nodes[n - 1]);
        assert(all =~= front + pairs);
        assert forall|k: int| 0 <= k < all.len() implies is_edge_upto(
            graph,
            #[trigger] all[k],
            n,
        ) by {
            if k < front.len() {
                assert(is_edge_upto(graph, front[k], n - 1));
            } else {
                assert(names[k - front.len()] == all[k].1);
                assert(graph.children_at(n - 1).contains(all[k].1));
            }
        }
        assert forall|i: int, to: Seq<char>|
            0 <= i < n && #[trigger] graph.children_at(i).contains(to) implies all.contains(
            (graph.nodes[i], to),
        ) by {
            if i < n - 1 {
                let k = choose|k: int| 0 <= k < front.len() && front[k] == (graph.nodes[i], to);
                assert(all[k] == front[k]);
            } else {
                let k = choose|k: int| 0 <= k < names.len() && names[k] == to;
                assert(all[front.len() + k] == pairs[k]);
            }
        }
        assert forall|a: int, b: int| 0 <= a < b < all.len() implies all[a] != all[b] by {
            if b < front.len() {
                assert(front[a] != front[b]);
            } else if a < front.len() {
                assert(is_edge_upto(graph, front[a], n - 1));
                let i = choose|i: int|
                    0 <= i < n - 1 && graph.nodes[i] == front[a].0 && #[trigger] graph.children_at(
                        i,
                    ).contains(front[a].1);
                assert(graph.nodes[i] != graph.nodes[n - 1]);
            } else {
                assert(names[a - front.len()] != names[b - front.len()]);
            }
        }
    }
}

/// A branch that is not in a graph yet is put behind the others, and nothing else changes; one that is
/// in it changes nothing.
pub proof fn law_with_node(graph: GraphView, name: Seq<char>)
    ensures
        graph.with_node(name).edges == graph.edges,
        graph.with_node(name).nodes == if graph.nodes.contains(name) {
            graph.nodes
        } else {
            graph.nodes.push(name)
        },
{
    lemma_index_of_meaning(graph.nodes, name);
    if graph.nodes.contains(name) {
        let i = choose|i: int| 0 <= i < graph.nodes.len() && graph.nodes[i] == name;
        assert(i >= index_of(graph.nodes, name));
    }
}

/// An edge is in a graph after another was added exactly if it was in it before or is that one; the
/// branches stay.
pub proof fn law_with_edge(graph: GraphView, from: int, to: int, i: int, j: int)
    ensures
        graph.with_edge(from, to).nodes == graph.nodes,
        graph.with_edge(from, to).edges.contains((i, j)) <==> graph.edges.contains((i, j)) || (i
            == from && j == to),
{
}

/// A graph starts without branches and without edges.
pub proof fn law_empty()
    ensures
        GraphView::empty().nodes.len() == 0,
        forall|i: int, j: int| !#[trigger] GraphView::empty().edges.contains((i, j)),
{
}

/// The branches stacked on another are listed in the order of their numbers.
pub proof fn law_children_in_order(graph: GraphView, from: Seq<char>, a: int, b: int)
    requires
        graph.wf(),
        0 <= a < b < graph.children(from).len(),
    ensures
        index_of(graph.nodes, graph.children(from)[a]) < index_of(
            graph.nodes,
            graph.children(from)[b],
        ),
{
    let n = graph.nodes.len() as int;
    let i = index_of(graph.nodes, from) as int;
    let row = graph.child_ids(i, n);
    lemma_child_ids_meaning(graph, i, n);
    lemma_index_of_meaning(graph.nodes, graph.nodes[row[a]]);
    lemma_index_of_meaning(graph.nodes, graph.nodes[row[b]]);
    assert(row[a] < row[b]);
    assert(index_of(graph.nodes, graph.nodes[row[a]]) == row[a]);
    assert(index_of(graph.nodes, graph.nodes[row[b]]) == row[b]);
}

/// The list of all edges is in the order of the branches that they lead from, and those from the same
/// branch are in the order of the branches that they lead to.
pub proof fn law_edges_in_order(graph: GraphView, a: int, b: int)
    requires
        graph.wf(),
        0 <= a < b < graph.edges_upto(graph.nodes.len() as int).len(),
    ensures
        ({
            let one = graph.edges_upto(graph.nodes.len() as int)[a];
            let two = graph.edges_upto(graph.nodes.len() as int)[b];
            ||| index_of(graph.nodes, one.0) < index_of(graph.nodes, two.0)
            ||| one.0 == two.0 && index_of(graph.nodes, one.1) < index_of(graph.nodes, two.1)
        }),
{
    lemma_edges_in_order(graph, graph.nodes.len() as int, a, b);
}

proof fn lemma_edges_in_order(graph: GraphView, n: int, a: int, b: int)
    requires
        graph.wf(),
        0 <= n <= graph.nodes.len(),
        0 <= a < b < graph.edges_upto(n).len(),
    ensures
        ({
            let one = graph.edges_upto(n)[a];
            let two = graph.edges_upto(n)[b];
            ||| index_of(graph.nodes, one.0) < index_of(graph.nodes, two.0)
            ||| one.0 == two.0 && index_of(graph.nodes, one.1) < index_of(graph.nodes, two.1)
        }),
    decreases n,
{
    let all = graph.edges_upto(n);
    let front = graph.edges_upto(n - 1);
    let from = graph.nodes[n - 1];
    let names = graph.children_at(n - 1);
    lemma_index_of_meaning(graph.nodes, from);
    assert(index_of(graph.nodes, from) == n - 1);
    if b < front.len() {
        lemma_edges_in_order(graph, n - 1, a, b);
    } else {
        assert(all[b] == (from, names[b - front.len()]));
        if a < front.len() {
            assert(all[a] == front[a]);
            lemma_edges_upto(graph, n - 1);
            assert(is_edge_upto(graph, front[a], n - 1));
            let i = choose|i: int|
                0 <= i < n - 1 && graph.nodes[i] == front[a].0 && #[trigger] graph.children_at(
                    i,
                ).contains(front[a].1);
            lemma_index_of_meaning(graph.nodes, front[a].0);
        } else {
            assert(all[a] == (from, names[a - front.len()]));
            law_children_in_order(graph, from, a - front.len(), b - front.len());
        }
    }
}

/// The line of the dot text that names a branch.
spec fn dot_node_line(i: int, name: Seq<char>) -> Seq<char> {
    "    "@ + decimal(i as nat) + " [label=\""@ + name + "\"];"@
}

/// The line of the dot text for an edge.
spec fn dot_edge_line(i: int, j: int) -> Seq<char> {
    "    "@ + decimal(i as nat) + " -> "@ + decimal(j as nat) + ";"@
}

/// The lines of the dot text for several edges.
spec fn dot_edge_lines(edges: Seq<(int, int)>) -> Seq<Seq<char>> {
    edges.map_values(|e: (int, int)| dot_edge_line(e.0, e.1))
}

/// Lines, each with its line feed.
spec fn with_feeds(lines: Seq<Seq<char>>) -> Seq<char> {
    lines.fold_left(Seq::<char>::empty(), |text: Seq<char>, line: Seq<char>| text + line.push('\n'))
}

proof fn lemma_with_feeds(lines: Seq<Seq<char>>, line: Seq<char>)
    ensures
        with_feeds(lines.push(line)) == with_feeds(lines) + line.push('\n'),
        with_feeds(Seq::empty()) == Seq::<char>::empty(),
{
    reveal(Seq::fold_left);
    assert(lines.push(line).drop_last() =~= lines);
}

proof fn lemma_with_feeds_both(front: Seq<Seq<char>>, back: Seq<Seq<char>>)
    ensures
        with_feeds(front + back) == with_feeds(front) + with_feeds(back),
    decreases back.len(),
{
    if back.len() == 0 {
        assert(front + back =~= front);
        assert(back =~= Seq::empty());
        lemma_with_feeds(front, Seq::empty());
        assert(with_feeds(front) + Seq::empty() =~= with_feeds(front));
    } else {
        let less = back.drop_last();
        lemma_with_feeds_both(front, less);
        lemma_with_feeds(front + less, back.last());
        lemma_with_feeds(less, back.last());
        assert((front + less).push(back.last()) =~= front + back);
        assert(less.push(back.last()) =~= back);
        assert(with_feeds(front) + with_feeds(less) + back.last().push('\n') =~= with_feeds(front)
            + (with_feeds(less) + back.last().push('\n')));
    }
}

proof fn lemma_dot_nodes(graph: GraphView, n: int)
    requires
        0 <= n <= graph.nodes.len(),
    ensures
        graph.dot_nodes(n) == with_feeds(
            Seq::new(n as nat, |i: int| dot_node_line(i, graph.nodes[i])),
        ),
    decreases n,
{
    let lines = Seq::new(n as nat, |i: int| dot_node_line(i, graph.nodes[i]));
    if n == 0 {
        assert(lines =~= Seq::empty());
        lemma_with_feeds(Seq::empty(), Seq::empty());
    } else {
        lemma_dot_nodes(graph, n - 1);
        let less = Seq::new((n - 1) as nat, |i: int| dot_node_line(i, graph.nodes[i]));
        let line = dot_node_line(n - 1, graph.nodes[n - 1]);
        assert(lines =~= less.push(line));
        lemma_with_feeds(less, line);
        reveal_strlit("\"];\n");
        reveal_strlit("\"];");
        assert(graph.dot_nodes(n) =~= graph.dot_nodes(n - 1) + line.push('\n'));
    }
}

/// The edges from the first `n` branches, as pairs of numbers.
spec fn edge_ids(graph: GraphView, n: int) -> Seq<(int, int)>
    decreases n,
{
    if n <= 0 {
        Seq::empty()
    } else {
        edge_ids(graph, n - 1) + graph.child_ids(n - 1, graph.nodes.len() as int).map_values(
            |j: int| (n - 1, j),
        )
    }
}

proof fn lemma_edge_ids(graph: GraphView, n: int)
    requires
        graph.wf(),
        0 <= n <= graph.nodes.len(),
    ensures
        forall|i: int, j: int| #[trigger]
            edge_ids(graph, n).contains((i, j)) <==> i < n && graph.edges.contains((i, j)),
        forall|a: int, b: int|
            0 <= a < b < edge_ids(graph, n).len() ==> {
                let one = #[trigger] edge_ids(graph, n)[a];
                let two = #[trigger] edge_ids(graph, n)[b];
                one.0 < two.0 || one.0 == two.0 && one.1 < two.1
            },
        forall|a: int| 0 <= a < edge_ids(graph, n).len() ==> (#[trigger] edge_ids(graph, n)[a]).0 < n,
        graph.dot_edges(n) == with_feeds(dot_edge_lines(edge_ids(graph, n))),
    decreases n,
{
    let all = edge_ids(graph, n);
    if n == 0 {
        assert forall|i: int, j: int| #[trigger]
            all.contains((i, j)) <==> i < n && graph.edges.contains((i, j)) by {
            if graph.edges.contains((i, j)) {
                assert(0 <= i);
            }
        }
        assert(dot_edge_lines(all) =~= Seq::empty());
        lemma_with_feeds(Seq::empty(), Seq::empty());
    } else {
        lemma_edge_ids(graph, n - 1);
        let m = graph.nodes.len() as int;
        let row = graph.child_ids(n - 1, m);
        lemma_child_ids_meaning(graph, n - 1, m);
        let front = edge_ids(graph, n - 1);
        let back = row.map_values(|j: int| (n - 1, j));
        assert(all == front + back);
        assert forall|i: int, j: int| #[trigger]
            all.contains((i, j)) <==> i < n && graph.edges.contains((i, j)) by {
            if all.contains((i, j)) {
                let k = choose|k: int| 0 <= k < all.len() && all[k] == (i, j);
                if k < front.len() {
                    assert(front[k] == (i, j));
                    assert(front.contains((i, j)));
                } else {
                    assert(back[k - front.len()] == (i, j));
                    assert(row[k - front.len()] == j);
                    assert(row.contains(j));
                }
            }
            if i < n && graph.edges.contains((i, j)) {
                assert(0 <= j < m);
                if i < n - 1 {
                    assert(front.contains((i, j)));
                    let k = choose|k: int| 0 <= k < front.len() && front[k] == (i, j);
                    assert(all[k] == (i, j));
                } else {
                    assert(row.contains(j));
                    let k = choose|k: int| 0 <= k < row.len() && row[k] == j;
                    assert(all[front.len() + k] == (i, j));
                }
            }
        }
        assert forall|a: int, b: int| 0 <= a < b < all.len() implies {
            let one = #[trigger] all[a];
            let two = #[trigger] all[b];
            one.0 < two.0 || one.0 == two.0 && one.1 < two.1
        } by {
            if b < front.len() {
                assert(all[a] == front[a] && all[b] == front[b]);
            } else if a < front.len() {
                assert(all[a] == front[a]);
                assert(all[b] == back[b - front.len()]);
            } else {
                assert(row[a - front.len()] < row[b - front.len()]);
            }
        }
        lemma_dot_edges_from(n - 1, row);
        lemma_with_feeds_both(dot_edge_lines(front), dot_edge_lines(back));
        assert(dot_edge_lines(all) =~= dot_edge_lines(front) + dot_edge_lines(back));
        assert(dot_edge_lines(back) =~= row.map_values(|j: int| dot_edge_line(n - 1, j)));
    }
}

proof fn lemma_dot_edges_from(i: int, row: Seq<int>)
    ensures
        GraphView::dot_edges_from(i, row) == with_feeds(
            row.map_values(|j: int| dot_edge_line(i, j)),
        ),
    decreases row.len(),
{
    let line = |j: int| dot_edge_line(i, j);
    if row.len() == 0 {
        assert(row.map_values(line) =~= Seq::empty());
        lemma_with_feeds(Seq::empty(), Seq::empty());
    } else {
        let less = row.drop_last();
        lemma_dot_edges_from(i, less);
        lemma_with_feeds(less.map_values(line), line(row.last()));
        assert(row.map_values(line) =~= less.map_values(line).push(line(row.last())));
        reveal_strlit(";\n");
        reveal_strlit(";");
        assert(GraphView::dot_edges_from(i, row) =~= GraphView::dot_edges_from(i, less) + line(
            row.last(),
        ).push('\n'));
    }
}

proof fn lemma_feeds_joined(lines: Seq<Seq<char>>)
    requires
        lines.len() > 0,
    ensures
        with_feeds(lines) == joined(lines).push('\n'),
    decreases lines.len(),
{
    let less = lines.drop_last();
    let last = lines.last();
    assert(lines =~= less + seq![last]);
    assert(lines =~= less.push(last));
    lemma_with_feeds(less, last);
    law_joined(less, seq![last], last);
    if less.len() > 0 {
        lemma_feeds_joined(less);
        assert(with_feeds(lines) =~= joined(lines).push('\n'));
    } else {
        assert(less =~= Seq::empty());
        assert(lines =~= seq![last]);
        assert(with_feeds(lines) =~= last.push('\n'));
    }
}

/// The dot text of a graph: a line for each branch, in the order of their numbers, then a line for each
/// edge, in the order of the two numbers, within the frame of a directed graph. Gives the edges in
/// that order.
pub proof fn law_dot(graph: GraphView) -> (edges: Seq<(int, int)>)
    requires
        graph.wf(),
    ensures
        forall|i: int, j: int| #[trigger]
            edges.contains((i, j)) <==> graph.edges.contains((i, j)),
        forall|a: int, b: int|
            0 <= a < b < edges.len() ==> (#[trigger] edges[a]).0 < (#[trigger] edges[b]).0
                || edges[a].0 == edges[b].0 && edges[a].1 < edges[b].1,
        graph.dot() == joined(
            seq!["digraph Branches {"@] + Seq::new(
                graph.nodes.len(),
                |i: int|
                    "    "@ + decimal(i as nat) + " [label=\""@ + graph.nodes[i] + "\"];"@,
            ) + edges.map_values(
                |e: (int, int)|
                    "    "@ + decimal(e.0 as nat) + " -> "@ + decimal(e.1 as nat) + ";"@,
            ) + seq!["}"@],
        ).push('\n'),
{
    let n = graph.nodes.len() as int;
    let edges = edge_ids(graph, n);
    lemma_dot_nodes(graph, n);
    lemma_edge_ids(graph, n);
    assert forall|i: int, j: int| #[trigger]
        edges.contains((i, j)) <==> graph.edges.contains((i, j)) by {
        if graph.edges.contains((i, j)) {
            assert(i < n);
        }
    }
    let head = seq!["digraph Branches {"@];
    let tail = seq!["}"@];
    let named = Seq::new(n as nat, |i: int| dot_node_line(i, graph.nodes[i]));
    let joining = dot_edge_lines(edges);
    let lines = head + named + joining + tail;
    lemma_with_feeds_both(head + named + joining, tail);
    lemma_with_feeds_both(head + named, joining);
    lemma_with_feeds_both(head, named);
    lemma_feeds_joined(head);
    lemma_feeds_joined(tail);
    lemma_feeds_joined(lines);
    reveal_strlit("digraph Branches {");
    reveal_strlit("digraph Branches {\n");
    reveal_strlit("}");
    reveal_strlit("}\n");
    assert(with_feeds(head) =~= "digraph Branches {\n"@);
    assert(with_feeds(tail) =~= "}\n"@);
    assert(lines =~= head + Seq::new(
        graph.nodes.len(),
        |i: int| "    "@ + decimal(i as nat) + " [label=\""@ + graph.nodes[i] + "\"];"@,
    ) + edges.map_values(
        |e: (int, int)| "    "@ + decimal(e.0 as nat) + " -> "@ + decimal(e.1 as nat) + ";"@,
    ) + tail);
    edges
}

/// What each string slice of a list holds.
pub open spec fn slice_views(list: Seq<&str>) -> Seq<Seq<char>> {
    list.map_values(|s: &str| s@)
}

/// What each pair of string slices of a list holds.
pub open spec fn pair_views(list: Seq<(&str, &str)>) -> Seq<(Seq<char>, Seq<char>)> {
    list.map_values(|p: (&str, &str)| (p.0@, p.1@))
}

/// Which branch is stacked on which.
#[derive(Debug)]
pub struct Graph {
    nodes: Vec<String>,
    edges: BTreeMap<usize, BTreeSet<usize>>,
}

impl View for Graph {
    type V = GraphView;

    closed spec fn view(&self) -> GraphView {
        GraphView {
            nodes: views(self.nodes@),
            edges: Set::new(
                |p: (int, int)|
                    {
                        &&& 0 <= p.0 <= usize::MAX
                        &&& 0 <= p.1 <= usize::MAX
                        &&& linked(self.edges@, p.0 as usize, p.1 as usize)
                    },
            ),
        }
    }
}

impl Default for Graph {
    /// A graph without branches.
    fn default() -> (graph: Graph)
        ensures
            graph.wf(),
            graph@ == GraphView::empty(),
    {
        let graph = Graph { nodes: Vec::new(), edges: BTreeMap::new() };
        assert(graph@.nodes =~= Seq::empty());
        assert(graph@.edges =~= Set::empty());
        graph
    }
}

impl Graph {
    /// Every branch has one number, and every edge joins two of them.
    pub open spec fn wf(&self) -> bool {
        self@.wf()
    }

    /// How many branches there are.
    pub(crate) fn len(&self) -> (count: usize)
        ensures
            count == self@.nodes.len(),
    {
        self.nodes.len()
    }

    /// Where a branch stands among the branches.
    pub(crate) fn position(&self, node: &str) -> (found: Option<usize>)
        ensures
            match found {
                Some(i) => i == index_of(self@.nodes, node@) && i < self@.nodes.len(),
                None => index_of(self@.nodes, node@) == self@.nodes.len(),
            },
    {
        let wanted = node.to_owned();
        let mut i: usize = 0;
        while i < self.nodes.len()
            invariant
                wanted@ == node@,
                i <= self.nodes@.len(),
                forall|k: int| 0 <= k < i ==> #[trigger] self@.nodes[k] != node@,
            decreases self.nodes.len() - i,
        {
            if self.nodes[i] == wanted {
                proof {
                    lemma_index_of(self@.nodes, node@, i as int);
                }
                return Some(i);
            }
            i += 1;
        }
        proof {
            lemma_index_of(self@.nodes, node@, i as int);
        }
        None
    }

    /// The number of a branch, which it is given now if it has none yet.
    pub fn get_or_insert(&mut self, node: &str) -> (id: usize)
        requires
            old(self).wf(),
        ensures
            final(self).wf(),
            final(self)@ == old(self)@.with_node(node@),
            id == index_of(final(self)@.nodes, node@),
            id < final(self)@.nodes.len(),
            final(self)@.nodes[id as int] == node@,
    {
        proof {
            lemma_index_of_meaning(self@.nodes, node@);
        }
        match self.position(node) {
            Some(i) => i,
            None => {
                self.nodes.push(node.to_owned());
                let ghost before = old(self)@;
                proof {
                    assert(self@.nodes =~= before.nodes.push(node@));
                    assert(self@.edges =~= before.edges);
                    lemma_index_of(self@.nodes, node@, before.nodes.len() as int);
                }
                self.nodes.len() - 1
            },
        }
    }

    /// Adds the edge from one branch to another, given by their numbers.
    pub fn add_edge(&mut self, from: usize, to: usize)
        requires
            old(self).wf(),
            from < old(self)@.nodes.len(),
            to < old(self)@.nodes.len(),
        ensures
            final(self).wf(),
            final(self)@ == old(self)@.with_edge(from as int, to as int),
    {
        let ghost before = self@;
        add_link(&mut self.edges, from, to);
        proof {
            let after = self@;
            assert(after.nodes =~= before.nodes);
            assert(after.edges =~= before.edges.insert((from as int, to as int)));
        }
    }

    /// The numbers that an edge from branch number `i` leads to, in ascending order.
    pub(crate) fn child_indices(&self, i: usize) -> (out: Vec<usize>)
        requires
            self.wf(),
        ensures
            out@.map_values(|j: usize| j as int) == self@.child_ids(
                i as int,
                self@.nodes.len() as int,
            ),
            forall|k: int| 0 <= k < out@.len() ==> #[trigger] out@[k] < self@.nodes.len(),
    {
        let out = links_from(&self.edges, i);
        proof {
            assert(self@.nodes.len() == self.nodes.len());
            let row = out@.map_values(|j: usize| j as int);
            assert forall|k: int| 0 <= k < out@.len() implies #[trigger] out@[k]
                < self@.nodes.len() by {
                assert(out@.contains(out@[k]));
                assert(self@.edges.contains((i as int, out@[k] as int)));
            }
            assert forall|j: int| 0 <= j < self@.nodes.len() implies (#[trigger] row.contains(j)
                <==> self@.edges.contains((i as int, j))) by {
                if row.contains(j) {
                    let k = choose|k: int| 0 <= k < row.len() && row[k] == j;
                    assert(out@[k] == j);
                    assert(out@.contains(j as usize));
                }
                if out@.contains(j as usize) {
                    let k = choose|k: int| 0 <= k < out@.len() && out@[k] == j as usize;
                    assert(row[k] == j);
                }
            }
            lemma_child_ids(self@, i as int, row, self@.nodes.len() as int);
        }
        out
    }

    /// The branches stacked directly on branch number `i`, in the order of their numbers.
    fn children_of(&self, i: usize) -> (out: Vec<&str>)
        requires
            self.wf(),
        ensures
            slice_views(out@) == self@.children_at(i as int),
    {
        let ids = self.child_indices(i);
        let ghost row = ids@.map_values(|j: usize| j as int);
        let mut out: Vec<&str> = Vec::new();
        let mut k: usize = 0;
        while k < ids.len()
            invariant
                k <= ids@.len(),
                forall|k: int| 0 <= k < ids@.len() ==> #[trigger] ids@[k] < self@.nodes.len(),
                out@.len() == k,
                forall|m: int| 0 <= m < k ==> (#[trigger] out@[m])@ == self@.nodes[ids@[m] as int],
            decreases ids.len() - k,
        {
            out.push(self.nodes[ids[k]].as_str());
            k += 1;
        }
        assert forall|m: int| 0 <= m < k implies slice_views(out@)[m] == self@.children_at(
            i as int,
        )[m] by {
            assert(row[m] == ids@[m] as int);
        }
        assert(slice_views(out@) =~= self@.children_at(i as int));
        out
    }

    /// The branches stacked directly on a branch, in the order of their numbers.
    pub fn iter_edges_from(&self, from: &str) -> (out: Vec<&str>)
        requires
            self.wf(),
        ensures
            slice_views(out@) == self@.children(from@),
    {
        match self.position(from) {
            Some(i) => self.children_of(i),
            None => {
                let out: Vec<&str> = Vec::new();
                assert(slice_views(out@) =~= Seq::empty());
                out
            },
        }
    }

    /// All edges as pairs of names: by the number of the branch they lead from, then by that of
    /// the branch they lead to.
    pub fn iter_edges(&self) -> (out: Vec<(&str, &str)>)
        requires
            self.wf(),
        ensures
            pair_views(out@) == self@.edges_upto(self@.nodes.len() as int),
    {
        let mut out: Vec<(&str, &str)> = Vec::new();
        let mut i: usize = 0;
        assert(pair_views(out@) =~= Seq::empty());
        while i < self.nodes.len()
            invariant
                self.wf(),
                i <= self.nodes@.len(),
                self.nodes@.len() == self@.nodes.len(),
                pair_views(out@) == self@.edges_upto(i as int),
            decreases self.nodes.len() - i,
        {
            let children = self.children_of(i);
            let node = self.nodes[i].as_str();
            let ghost before = out@;
            let ghost pairs = self@.children_at(i as int).map_values(
                |child: Seq<char>| (self@.nodes[i as int], child),
            );
            let mut k: usize = 0;
            assert(pair_views(out@) =~= pair_views(before) + pairs.take(0));
            while k < children.len()
                invariant
                    k <= children@.len(),
                    slice_views(children@) == self@.children_at(i as int),
                    pairs == self@.children_at(i as int).map_values(
                        |child: Seq<char>| (self@.nodes[i as int], child),
                    ),
                    node@ == self@.nodes[i as int],
                    pair_views(out@) == pair_views(before) + pairs.take(k as int),
                decreases children.len() - k,
            {
                let ghost earlier = out@;
                out.push((node, children[k]));
                proof {
                    assert(children@[k as int]@ == slice_views(children@)[k as int]);
                    assert(pair_views(out@) =~= pair_views(earlier).push(
                        (node@, children@[k as int]@),
                    ));
                    assert(pairs.take(k as int).push(pairs[k as int]) =~= pairs.take(k + 1));
                }
                k += 1;
            }
            assert(pairs.take(k as int) =~= pairs);
            i += 1;
        }
        out
    }

    /// The graph in the dot language.
    pub fn to_dot(&self) -> (out: String)
        requires
            self.wf(),
        ensures
            out@ == self@.dot(),
    {
        let mut out = String::new();
        let ghost head = "digraph Branches {\n"@;
        let ghost n = self@.nodes.len() as int;
        out.append("digraph Branches {\n");
        assert(out@ =~= head + self@.dot_nodes(0));
        let mut i: usize = 0;
        while i < self.nodes.len()
            invariant
                i <= self.nodes@.len(),
                self.nodes@.len() == self@.nodes.len(),
                out@ == head + self@.dot_nodes(i as int),
            decreases self.nodes.len() - i,
        {
            out.append("    ");
            push_decimal(&mut out, i as u64);
            out.append(" [label=\"");
            out.append(self.nodes[i].as_str());
            out.append("\"];\n");
            assert(out@ =~= head + self@.dot_nodes(i + 1));
            i += 1;
        }
        let ghost body = head + self@.dot_nodes(n);
        assert(out@ =~= body + self@.dot_edges(0));
        i = 0;
        while i < self.nodes.len()
            invariant
                self.wf(),
                i <= self.nodes@.len(),
                n == self@.nodes.len(),
                self.nodes@.len() == self@.nodes.len(),
                out@ == body + self@.dot_edges(i as int),
            decreases self.nodes.len() - i,
        {
            let targets = self.child_indices(i);
            let ghost row = self@.child_ids(i as int, n);
            let ghost before = body + self@.dot_edges(i as int);
            let mut k: usize = 0;
            assert(out@ =~= before + GraphView::dot_edges_from(i as int, row.take(0)));
            while k < targets.len()
                invariant
                    k <= targets@.len(),
                    targets@.map_values(|j: usize| j as int) == row,
                    out@ == before + GraphView::dot_edges_from(i as int, row.take(k as int)),
                decreases targets.len() - k,
            {
                out.append("    ");
                push_decimal(&mut out, i as u64);
                out.append(" -> ");
                push_decimal(&mut out, targets[k] as u64);
                out.append(";\n");
                proof {
                    let upto = row.take(k + 1);
                    assert(upto.drop_last() =~= row.take(k as int));
                    assert(upto.last() == row[k as int]);
                    assert(row[k as int] == targets@[k as int] as int);
                    assert(out@ =~= before + GraphView::dot_edges_from(i as int, upto));
                }
                k += 1;
            }
            assert(row.take(k as int) =~= row);
            assert(out@ =~= body + self@.dot_edges(i + 1));
            i += 1;
        }
        out.append("}\n");
        assert(out@ =~= self@.dot());
        out
    }
}

/// What is looked at in a list of branches or edges are all of them, in their order, and each as it is.
pub proof fn law_list_views(names: Seq<&str>, pairs: Seq<(&str, &str)>, k: int)
    ensures
        slice_views(names).len() == names.len(),
        0 <= k < names.len() ==> slice_views(names)[k] == names[k]@,
        pair_views(pairs).len() == pairs.len(),
        0 <= k < pairs.len() ==> pair_views(pairs)[k] == (pairs[k].0@, pairs[k].1@),
{
}

} // verus!
