//! Stacks: a branch with everything that is stacked on it, visited branch by branch.

use vstd::prelude::*;

use crate::graph::{
    index_of, lemma_child_ids_meaning, lemma_index_of_meaning, Graph, GraphView,
};

verus! {

/// One branch of a stack: the branch that it is stacked on, and how far it is indented below the
/// branch at the bottom of the stack.
pub struct VisitView {
    pub branch: Seq<char>,
    pub target: Seq<char>,
    pub indent: nat,
}

impl GraphView {
    /// Whether no chain of more than `n` branches starts at a branch.
    pub open spec fn ends_within(self, branch: Seq<char>, n: nat) -> bool
        decreases n,
    {
        n > 0 && forall|k: int|
            0 <= k < self.children(branch).len() ==> self.ends_within(
                #[trigger] self.children(branch)[k],
                (n - 1) as nat,
            )
    }

    /// Whether every chain of branches that starts at a branch ends, so that none runs in a circle.
    #[verifier::opaque]
    pub open spec fn ends(self, branch: Seq<char>) -> bool {
        exists|n: nat| self.ends_within(branch, n)
    }

    /// How many branches the longest chain has that starts at a branch.
    #[verifier::opaque]
    pub open spec fn height(self, branch: Seq<char>) -> nat {
        choose|n: nat|
            self.ends_within(branch, n) && forall|m: nat| m < n ==> !self.ends_within(branch, m)
    }

    /// A branch and what is stacked on it, up to chains of `fuel` branches: the branch itself, then
    /// each of its children with what is stacked on that.
    pub open spec fn visits(
        self,
        branch: Seq<char>,
        target: Seq<char>,
        indent: nat,
        fuel: nat,
    ) -> Seq<VisitView>
        decreases fuel, 0nat,
    {
        if fuel == 0 {
            Seq::empty()
        } else {
            seq![VisitView { branch, target, indent }] + self.visits_each(
                self.children(branch),
                branch,
                indent + 2,
                (fuel - 1) as nat,
            )
        }
    }

    /// `visits` of several branches stacked on the same one, one after the other.
    pub open spec fn visits_each(
        self,
        branches: Seq<Seq<char>>,
        target: Seq<char>,
        indent: nat,
        fuel: nat,
    ) -> Seq<VisitView>
        decreases fuel, branches.len() + 1,
    {
        if branches.len() == 0 {
            Seq::empty()
        } else {
            self.visits_each(branches.drop_last(), target, indent, fuel) + self.visits(
                branches.last(),
                target,
                indent,
                fuel,
            )
        }
    }

    /// A branch and everything stacked on it, depth first; each step up indents by two.
    #[verifier::opaque]
    pub open spec fn stack(self, branch: Seq<char>, target: Seq<char>, indent: nat) -> Seq<
        VisitView,
    > {
        self.visits(branch, target, indent, self.height(branch))
    }

    /// Several stacks on the same branch, one after the other.
    pub open spec fn stacks(
        self,
        branches: Seq<Seq<char>>,
        target: Seq<char>,
        indent: nat,
    ) -> Seq<VisitView>
        decreases branches.len(),
    {
        if branches.len() == 0 {
            Seq::empty()
        } else {
            self.stacks(branches.drop_last(), target, indent) + self.stack(
                branches.last(),
                target,
                indent,
            )
        }
    }

    /// That a chain that ends within `n` branches ends within more.
    pub proof fn lemma_ends_within_more(self, branch: Seq<char>, n: nat, m: nat)
        requires
            n <= m,
            self.ends_within(branch, n),
        ensures
            self.ends_within(branch, m),
        decreases n,
    {
        assert forall|k: int| 0 <= k < self.children(branch).len() implies self.ends_within(
            #[trigger] self.children(branch)[k],
            (m - 1) as nat,
        ) by {
            self.lemma_ends_within_more(self.children(branch)[k], (n - 1) as nat, (m - 1) as nat);
        }
    }

    proof fn lemma_least(self, branch: Seq<char>, n: nat)
        requires
            self.ends_within(branch, n),
        ensures
            exists|l: nat|
                self.ends_within(branch, l) && forall|m: nat|
                    m < l ==> !self.ends_within(branch, m),
        decreases n,
    {
        if exists|m: nat| m < n && self.ends_within(branch, m) {
            let m = choose|m: nat| m < n && self.ends_within(branch, m);
            self.lemma_least(branch, m);
        } else {
            assert(self.ends_within(branch, n) && forall|m: nat|
                m < n ==> !self.ends_within(branch, m));
        }
    }

    /// That the height of a branch is the least number within which its chains end.
    pub proof fn lemma_height(self, branch: Seq<char>)
        requires
            self.ends(branch),
        ensures
            self.height(branch) > 0,
            self.ends_within(branch, self.height(branch)),
            forall|n: nat| #[trigger]
                self.ends_within(branch, n) ==> self.height(branch) <= n,
    {
        reveal(GraphView::ends);
        reveal(GraphView::height);
        let n = choose|n: nat| self.ends_within(branch, n);
        self.lemma_least(branch, n);
        assert forall|n: nat| #[trigger] self.ends_within(branch, n) implies self.height(branch)
            <= n by {
            if n < self.height(branch) {
                assert(!self.ends_within(branch, n));
            }
        }
    }

    /// That the children of a branch end where the branch does, and sooner.
    pub proof fn lemma_children_end(self, branch: Seq<char>)
        requires
            self.ends(branch),
        ensures
            forall|k: int|
                0 <= k < self.children(branch).len() ==> {
                    &&& self.ends(#[trigger] self.children(branch)[k])
                    &&& self.height(self.children(branch)[k]) < self.height(branch)
                },
    {
        reveal(GraphView::ends);
        self.lemma_height(branch);
        let n = self.height(branch);
        assert forall|k: int| 0 <= k < self.children(branch).len() implies {
            &&& self.ends(#[trigger] self.children(branch)[k])
            &&& self.height(self.children(branch)[k]) < self.height(branch)
        } by {
            let child = self.children(branch)[k];
            assert(self.ends_within(child, (n - 1) as nat));
            self.lemma_height(child);
        }
    }

    proof fn lemma_visits_fuel(
        self,
        branch: Seq<char>,
        target: Seq<char>,
        indent: nat,
        n: nat,
        m: nat,
    )
        requires
            self.ends_within(branch, n),
            self.ends_within(branch, m),
        ensures
            self.visits(branch, target, indent, n) == self.visits(branch, target, indent, m),
        decreases n, 0nat,
    {
        self.lemma_visits_each_fuel(
            self.children(branch),
            branch,
            indent + 2,
            (n - 1) as nat,
            (m - 1) as nat,
        );
    }

    proof fn lemma_visits_each_fuel(
        self,
        branches: Seq<Seq<char>>,
        target: Seq<char>,
        indent: nat,
        n: nat,
        m: nat,
    )
        requires
            forall|k: int| 0 <= k < branches.len() ==> self.ends_within(#[trigger] branches[k], n),
            forall|k: int| 0 <= k < branches.len() ==> self.ends_within(#[trigger] branches[k], m),
        ensures
            self.visits_each(branches, target, indent, n) == self.visits_each(
                branches,
                target,
                indent,
                m,
            ),
        decreases n, branches.len() + 1,
    {
        if branches.len() > 0 {
            self.lemma_visits_each_fuel(branches.drop_last(), target, indent, n, m);
            self.lemma_visits_fuel(branches.last(), target, indent, n, m);
        }
    }

    proof fn lemma_visits_each_stacks(
        self,
        branches: Seq<Seq<char>>,
        target: Seq<char>,
        indent: nat,
        n: nat,
    )
        requires
            forall|k: int| 0 <= k < branches.len() ==> self.ends_within(#[trigger] branches[k], n),
        ensures
            self.visits_each(branches, target, indent, n) == self.stacks(branches, target, indent),
        decreases branches.len(),
    {
        reveal(GraphView::ends);
        reveal(GraphView::stack);
        if branches.len() > 0 {
            self.lemma_visits_each_stacks(branches.drop_last(), target, indent, n);
            let last = branches.last();
            assert(self.ends_within(last, n));
            self.lemma_height(last);
            self.lemma_visits_fuel(last, target, indent, n, self.height(last));
        }
    }

    /// The stack on a branch is the branch, then the stacks on its children in their order.
    pub proof fn law_stack_unfolds(self, branch: Seq<char>, target: Seq<char>, indent: nat)
        requires
            self.ends(branch),
        ensures
            self.stack(branch, target, indent) == seq![VisitView { branch, target, indent }]
                + self.stacks(self.children(branch), branch, indent + 2),
    {
        reveal(GraphView::ends);
        reveal(GraphView::stack);
        self.lemma_height(branch);
        self.lemma_visits_each_stacks(
            self.children(branch),
            branch,
            indent + 2,
            (self.height(branch) - 1) as nat,
        );
    }
}

// When a stack ends, and what several stacks are.

impl GraphView {
    /// Stacks one after the other are those of the first branches, then those of the others; one branch
    /// has one stack, and no branch has none.
    pub proof fn law_stacks_append(
        self,
        front: Seq<Seq<char>>,
        back: Seq<Seq<char>>,
        branch: Seq<char>,
        target: Seq<char>,
        indent: nat,
    )
        ensures
            self.stacks(front + back, target, indent) == self.stacks(front, target, indent)
                + self.stacks(back, target, indent),
            self.stacks(seq![branch], target, indent) == self.stack(branch, target, indent),
            self.stacks(Seq::empty(), target, indent) == Seq::<VisitView>::empty(),
        decreases back.len(),
    {
        let none = Seq::<Seq<char>>::empty();
        assert(seq![branch].drop_last() =~= none);
        assert(self.stacks(none, target, indent) =~= Seq::empty());
        assert(self.stacks(seq![branch], target, indent) =~= self.stack(branch, target, indent));
        if back.len() == 0 {
            assert(front + back =~= front);
            assert(self.stacks(front, target, indent) + Seq::empty() =~= self.stacks(
                front,
                target,
                indent,
            ));
        } else {
            let all = front + back;
            self.law_stacks_append(front, back.drop_last(), branch, target, indent);
            assert(all.drop_last() =~= front + back.drop_last());
            assert(all.last() == back.last());
            assert(self.stacks(all, target, indent) =~= self.stacks(front, target, indent)
                + self.stacks(back, target, indent));
        }
    }

    proof fn lemma_common_bound(self, branches: Seq<Seq<char>>) -> (n: nat)
        requires
            forall|k: int| 0 <= k < branches.len() ==> self.ends(#[trigger] branches[k]),
        ensures
            forall|k: int| 0 <= k < branches.len() ==> self.ends_within(#[trigger] branches[k], n),
        decreases branches.len(),
    {
        if branches.len() == 0 {
            0
        } else {
            let rest = branches.drop_last();
            assert forall|k: int| 0 <= k < rest.len() implies self.ends(#[trigger] rest[k]) by {
                assert(rest[k] == branches[k]);
            }
            let m = self.lemma_common_bound(rest);
            let last = branches[branches.len() - 1];
            self.lemma_height(last);
            let n = m + self.height(last);
            assert forall|k: int| 0 <= k < branches.len() implies self.ends_within(
                #[trigger] branches[k],
                n,
            ) by {
                if k < rest.len() {
                    assert(rest[k] == branches[k]);
                    self.lemma_ends_within_more(branches[k], m, n);
                } else {
                    self.lemma_ends_within_more(last, self.height(last), n);
                }
            }
            n
        }
    }

    /// A stack ends exactly if everything on its bottom branch does.
    pub proof fn law_ends(self, branch: Seq<char>)
        ensures
            self.ends(branch) <==> forall|k: int|
                0 <= k < self.children(branch).len() ==> self.ends(
                    #[trigger] self.children(branch)[k],
                ),
    {
        if self.ends(branch) {
            self.lemma_children_end(branch);
        }
        if forall|k: int|
            0 <= k < self.children(branch).len() ==> self.ends(#[trigger] self.children(branch)[k]) {
            let n = self.lemma_common_bound(self.children(branch));
            reveal(GraphView::ends);
            assert(self.ends_within(branch, n + 1));
        }
    }

    /// A branch that is stacked on itself, directly or by way of others, has a stack without end.
    pub proof fn law_circle(self, path: Seq<Seq<char>>)
        requires
            path.len() >= 2,
            path[0] == path.last(),
            forall|i: int|
                0 < i < path.len() ==> self.children(path[i - 1]).contains(#[trigger] path[i]),
        ensures
            !self.ends(path[0]),
    {
        if self.ends(path[0]) {
            self.lemma_heights_fall(path, path.len() - 1);
        }
    }

    proof fn lemma_heights_fall(self, path: Seq<Seq<char>>, n: int)
        requires
            0 <= n < path.len(),
            self.ends(path[0]),
            forall|i: int|
                0 < i < path.len() ==> self.children(path[i - 1]).contains(#[trigger] path[i]),
        ensures
            self.ends(path[n]),
            self.height(path[n]) <= self.height(path[0]) - n,
        decreases n,
    {
        if n > 0 {
            self.lemma_heights_fall(path, n - 1);
            self.lemma_children_end(path[n - 1]);
            assert(self.children(path[n - 1]).contains(path[n]));
            let names = self.children(path[n - 1]);
            let k = choose|k: int| 0 <= k < names.len() && names[k] == path[n];
            assert(self.ends(names[k]));
        }
    }

    /// The height of a stack is one more than that of the highest stack on its bottom branch.
    pub proof fn law_height(self, branch: Seq<char>)
        requires
            self.ends(branch),
        ensures
            forall|k: int|
                0 <= k < self.children(branch).len() ==> self.height(
                    #[trigger] self.children(branch)[k],
                ) < self.height(branch),
            self.children(branch).len() == 0 ==> self.height(branch) == 1,
            self.children(branch).len() > 0 ==> exists|k: int|
                0 <= k < self.children(branch).len() && self.height(branch) == self.height(
                    #[trigger] self.children(branch)[k],
                ) + 1,
    {
        let names = self.children(branch);
        let h = self.height(branch);
        self.lemma_children_end(branch);
        self.lemma_height(branch);
        if names.len() == 0 {
            assert(self.ends_within(branch, 1));
        } else if forall|k: int| 0 <= k < names.len() ==> self.height(#[trigger] names[k]) + 1 < h {
            assert(self.height(names[0]) + 1 < h);
            assert forall|k: int| 0 <= k < names.len() implies self.ends_within(
                #[trigger] names[k],
                (h - 2) as nat,
            ) by {
                self.lemma_height(names[k]);
                self.lemma_ends_within_more(names[k], self.height(names[k]), (h - 2) as nat);
            }
            assert(self.ends_within(branch, (h - 1) as nat));
        } else {
            let k = choose|k: int|
                0 <= k < names.len() && !(self.height(#[trigger] names[k]) + 1 < h);
            assert(h == self.height(names[k]) + 1);
        }
    }
}

// Where the branches of a stack rest.

impl GraphView {
    /// Whether the visit at a position comes directly on top of an earlier one: its branch is stacked
    /// on that one's, it is indented by two more, and that branch is not visited again in between.
    pub open spec fn rests_on(self, visits: Seq<VisitView>, at: int, below: int) -> bool {
        &&& 0 <= below < at < visits.len()
        &&& visits[below].branch == visits[at].target
        &&& visits[at].indent == visits[below].indent + 2
        &&& self.children(visits[at].target).contains(visits[at].branch)
        &&& forall|k: int| below < k < at ==> (#[trigger] visits[k]).branch != visits[at].target
    }

    /// Whether the visit at a position comes directly on top of an earlier one.
    pub open spec fn rests(self, visits: Seq<VisitView>, at: int) -> bool {
        exists|below: int| self.rests_on(visits, at, below)
    }

    proof fn lemma_rests_shifted(
        self,
        front: Seq<VisitView>,
        visits: Seq<VisitView>,
        back: Seq<VisitView>,
        at: int,
    )
        requires
            self.rests(visits, at),
        ensures
            self.rests(front + visits + back, front.len() + at),
    {
        let all = front + visits + back;
        let below = choose|below: int| self.rests_on(visits, at, below);
        assert forall|k: int| front.len() + below < k < front.len() + at implies (
        #[trigger] all[k]).branch != all[front.len() + at].target by {
            assert(all[k] == visits[k - front.len()]);
        }
        assert(self.rests_on(all, front.len() + at, front.len() + below));
    }

    /// Every branch of a stack but the one at its bottom is visited after the branch that it is stacked
    /// on, into which its pull request goes, and no branch of it is higher than the bottom.
    pub proof fn law_stack_rests(self, branch: Seq<char>, target: Seq<char>, indent: nat)
        requires
            self.ends(branch),
        ensures
            self.stack(branch, target, indent).len() > 0,
            self.stack(branch, target, indent)[0] == (VisitView { branch, target, indent }),
            forall|at: int|
                0 < at < self.stack(branch, target, indent).len() ==> #[trigger] self.rests(
                    self.stack(branch, target, indent),
                    at,
                ),
            forall|at: int|
                0 <= at < self.stack(branch, target, indent).len() ==> self.height(
                    (#[trigger] self.stack(branch, target, indent)[at]).branch,
                ) <= self.height(branch),
        decreases self.height(branch), 0nat,
    {
        self.law_stack_unfolds(branch, target, indent);
        self.lemma_children_end(branch);
        self.lemma_height(branch);
        let all = self.stack(branch, target, indent);
        let first = seq![VisitView { branch, target, indent }];
        let names = self.children(branch);
        let upper = self.stacks(names, branch, indent + 2);
        self.lemma_stacks_rest(names, branch, indent + 2, (self.height(branch) - 1) as nat);
        assert(all =~= first + upper + Seq::empty());
        assert forall|at: int| 0 < at < all.len() implies #[trigger] self.rests(all, at) by {
            let visit = upper[at - 1];
            if self.rests(upper, at - 1) {
                self.lemma_rests_shifted(first, upper, Seq::empty(), at - 1);
            } else {
                assert(visit.target == branch);
                assert forall|k: int| 0 < k < at implies (#[trigger] all[k]).branch
                    != all[at].target by {
                    assert(all[k] == upper[k - 1]);
                }
                assert(self.rests_on(all, at, 0));
            }
        }
        assert forall|at: int| 0 <= at < all.len() implies self.height(
            (#[trigger] all[at]).branch,
        ) <= self.height(branch) by {
            if at > 0 {
                assert(all[at] == upper[at - 1]);
            }
        }
    }

    proof fn lemma_stacks_rest(
        self,
        branches: Seq<Seq<char>>,
        target: Seq<char>,
        indent: nat,
        bound: nat,
    )
        requires
            forall|k: int|
                0 <= k < branches.len() ==> {
                    &&& self.ends(#[trigger] branches[k])
                    &&& self.height(branches[k]) <= bound
                    &&& self.children(target).contains(branches[k])
                },
        ensures
            forall|at: int|
                #![trigger self.stacks(branches, target, indent)[at]]
                0 <= at < self.stacks(branches, target, indent).len() ==> {
                    let visits = self.stacks(branches, target, indent);
                    let visit = visits[at];
                    &&& self.height(visit.branch) <= bound
                    &&& self.rests(visits, at) || {
                        &&& visit.target == target
                        &&& visit.indent == indent
                        &&& self.children(target).contains(visit.branch)
                    }
                },
        decreases bound, branches.len() + 1,
    {
        if branches.len() > 0 {
            let last = branches.last();
            let rest = branches.drop_last();
            assert(self.ends(branches[branches.len() - 1]));
            assert forall|k: int| 0 <= k < rest.len() implies {
                &&& self.ends(#[trigger] rest[k])
                &&& self.height(rest[k]) <= bound
                &&& self.children(target).contains(rest[k])
            } by {
                assert(rest[k] == branches[k]);
            }
            self.lemma_stacks_rest(rest, target, indent, bound);
            self.law_stack_rests(last, target, indent);
            let front = self.stacks(rest, target, indent);
            let back = self.stack(last, target, indent);
            let all = self.stacks(branches, target, indent);
            assert(all =~= front + back);
            assert forall|at: int| 0 <= at < all.len() implies {
                let visit = #[trigger] all[at];
                &&& self.height(visit.branch) <= bound
                &&& self.rests(all, at) || {
                    &&& visit.target == target
                    &&& visit.indent == indent
                    &&& self.children(target).contains(visit.branch)
                }
            } by {
                if at < front.len() {
                    assert(all[at] == front[at]);
                    if self.rests(front, at) {
                        self.lemma_rests_shifted(Seq::empty(), front, back, at);
                        assert(Seq::empty() + front + back =~= all);
                    }
                } else {
                    let k = at - front.len();
                    assert(all[at] == back[k]);
                    if k > 0 {
                        assert(self.rests(back, k));
                        self.lemma_rests_shifted(front, back, Seq::empty(), k);
                        assert(front + back + Seq::empty() =~= all);
                    }
                }
            }
        }
    }
}

// That a stack is complete.

impl GraphView {
    /// Whether a branch is visited after the visit at a position, on top of that one's branch.
    pub open spec fn comes_after(visits: Seq<VisitView>, at: int, branch: Seq<char>) -> bool {
        exists|k: int|
            at < k < visits.len() && (#[trigger] visits[k]).branch == branch && visits[k].target
                == visits[at].branch
    }

    /// Whether everything stacked on a visited branch is visited after it.
    pub open spec fn complete(self, visits: Seq<VisitView>) -> bool {
        forall|at: int, k: int|
            0 <= at < visits.len() && 0 <= k < self.children(visits[at].branch).len()
                ==> Self::comes_after(
                visits,
                at,
                #[trigger] self.children((#[trigger] visits[at]).branch)[k],
            )
    }

    proof fn lemma_complete_both(self, front: Seq<VisitView>, back: Seq<VisitView>)
        requires
            self.complete(front),
            self.complete(back),
        ensures
            self.complete(front + back),
    {
        let all = front + back;
        assert forall|at: int, k: int|
            0 <= at < all.len() && 0 <= k < self.children(
                all[at].branch,
            ).len() implies Self::comes_after(
            all,
            at,
            #[trigger] self.children((#[trigger] all[at]).branch)[k],
        ) by {
            let child = self.children(all[at].branch)[k];
            if at < front.len() {
                assert(front[at] == all[at]);
                assert(Self::comes_after(front, at, child));
                let m = choose|m: int|
                    at < m < front.len() && (#[trigger] front[m]).branch == child && front[m].target
                        == front[at].branch;
                assert(all[m] == front[m]);
            } else {
                let low = at - front.len();
                assert(back[low] == all[at]);
                assert(Self::comes_after(back, low, child));
                let m = choose|m: int|
                    low < m < back.len() && (#[trigger] back[m]).branch == child && back[m].target
                        == back[low].branch;
                assert(all[front.len() + m] == back[m]);
            }
        }
    }

    /// Everything stacked on a branch of a stack is in the stack too.
    pub proof fn law_stack_complete(self, branch: Seq<char>, target: Seq<char>, indent: nat)
        requires
            self.ends(branch),
        ensures
            self.complete(self.stack(branch, target, indent)),
        decreases self.height(branch), 0nat,
    {
        self.law_stack_unfolds(branch, target, indent);
        self.lemma_children_end(branch);
        self.lemma_height(branch);
        let all = self.stack(branch, target, indent);
        let names = self.children(branch);
        let upper = self.stacks(names, branch, indent + 2);
        self.lemma_stacks_complete(names, branch, indent + 2, (self.height(branch) - 1) as nat);
        assert forall|at: int, k: int|
            0 <= at < all.len() && 0 <= k < self.children(
                all[at].branch,
            ).len() implies Self::comes_after(
            all,
            at,
            #[trigger] self.children((#[trigger] all[at]).branch)[k],
        ) by {
            let child = self.children(all[at].branch)[k];
            if at == 0 {
                let m = choose|m: int|
                    0 <= m < upper.len() && (#[trigger] upper[m]).branch == names[k]
                        && upper[m].target == branch;
                assert(all[m + 1] == upper[m]);
            } else {
                assert(upper[at - 1] == all[at]);
                assert(Self::comes_after(upper, at - 1, child));
                let m = choose|m: int|
                    at - 1 < m < upper.len() && (#[trigger] upper[m]).branch == child
                        && upper[m].target == upper[at - 1].branch;
                assert(all[m + 1] == upper[m]);
            }
        }
    }

    proof fn lemma_stacks_complete(
        self,
        branches: Seq<Seq<char>>,
        target: Seq<char>,
        indent: nat,
        bound: nat,
    )
        requires
            forall|k: int|
                0 <= k < branches.len() ==> {
                    &&& self.ends(#[trigger] branches[k])
                    &&& self.height(branches[k]) <= bound
                },
        ensures
            self.complete(self.stacks(branches, target, indent)),
            forall|k: int|
                #![trigger branches[k]]
                0 <= k < branches.len() ==> exists|m: int|
                    0 <= m < self.stacks(branches, target, indent).len() && (
                    #[trigger] self.stacks(branches, target, indent)[m]).branch == branches[k]
                        && self.stacks(branches, target, indent)[m].target == target,
        decreases bound, branches.len() + 1,
    {
        let all = self.stacks(branches, target, indent);
        if branches.len() > 0 {
            let last = branches.last();
            let rest = branches.drop_last();
            assert(self.ends(branches[branches.len() - 1]));
            self.lemma_stacks_complete(rest, target, indent, bound);
            self.law_stack_complete(last, target, indent);
            self.law_stack_rests(last, target, indent);
            let front = self.stacks(rest, target, indent);
            let back = self.stack(last, target, indent);
            self.lemma_complete_both(front, back);
            assert forall|k: int| 0 <= k < branches.len() implies exists|m: int|
                0 <= m < all.len() && (#[trigger] all[m]).branch == #[trigger] branches[k]
                    && all[m].target == target by {
                if k < rest.len() {
                    assert(rest[k] == branches[k]);
                    let m = choose|m: int|
                        0 <= m < front.len() && (#[trigger] front[m]).branch == rest[k]
                            && front[m].target == target;
                    assert(all[m] == front[m]);
                } else {
                    assert(all[front.len() as int] == back[0]);
                }
            }
        }
    }
}

/// How many entries of a row are not set.
spec fn unset(row: Seq<bool>) -> nat
    decreases row.len(),
{
    if row.len() == 0 {
        0
    } else {
        unset(row.drop_last()) + if row.last() {
            0nat
        } else {
            1nat
        }
    }
}

proof fn lemma_unset_bound(row: Seq<bool>)
    ensures
        unset(row) <= row.len(),
    decreases row.len(),
{
    if row.len() > 0 {
        lemma_unset_bound(row.drop_last());
    }
}

/// That setting more entries leaves fewer unset.
proof fn lemma_unset_shrinks(row: Seq<bool>, next: Seq<bool>)
    requires
        row.len() == next.len(),
        forall|i: int| 0 <= i < row.len() && row[i] ==> #[trigger] next[i],
    ensures
        unset(next) <= unset(row),
        row != next ==> unset(next) < unset(row),
    decreases row.len(),
{
    if row.len() > 0 {
        lemma_unset_shrinks(row.drop_last(), next.drop_last());
        if row.drop_last() == next.drop_last() && row.last() == next.last() {
            assert(row =~= row.drop_last().push(row.last()));
            assert(next =~= next.drop_last().push(next.last()));
        }
        assert(row[row.len() - 1] ==> next[row.len() - 1]);
    } else {
        assert(row =~= next);
    }
}

/// That nothing more ends within any number of branches if nothing more ends within the next one.
proof fn lemma_settled(graph: GraphView, n: nat, m: nat, branch: Seq<char>)
    requires
        graph.wf(),
        n <= m,
        forall|i: int|
            0 <= i < graph.nodes.len() ==> graph.ends_within(#[trigger] graph.nodes[i], n)
                == graph.ends_within(graph.nodes[i], n + 1),
        graph.nodes.contains(branch),
    ensures
        graph.ends_within(branch, n) == graph.ends_within(branch, m),
    decreases m,
{
    let at = choose|i: int| 0 <= i < graph.nodes.len() && graph.nodes[i] == branch;
    assert(graph.ends_within(graph.nodes[at], n) == graph.ends_within(graph.nodes[at], n + 1));
    if m > n + 1 {
        let children = graph.children(branch);
        lemma_children_are_nodes(graph, branch);
        assert forall|k: int| 0 <= k < children.len() implies graph.ends_within(
            #[trigger] children[k],
            n,
        ) == graph.ends_within(children[k], (m - 1) as nat) by {
            lemma_settled(graph, n, (m - 1) as nat, children[k]);
        }
        if graph.ends_within(branch, n + 1) {
            assert forall|k: int| 0 <= k < children.len() implies graph.ends_within(
                #[trigger] children[k],
                (m - 1) as nat,
            ) by {
                assert(graph.ends_within(children[k], n));
            }
        }
        if graph.ends_within(branch, m) {
            assert forall|k: int| 0 <= k < children.len() implies graph.ends_within(
                #[trigger] children[k],
                n,
            ) by {
                assert(graph.ends_within(children[k], (m - 1) as nat));
            }
            assert(graph.ends_within(branch, n + 1));
        }
    }
}

/// That what is stacked on a branch is in the graph.
pub proof fn lemma_children_are_nodes(graph: GraphView, branch: Seq<char>)
    ensures
        forall|k: int|
            0 <= k < graph.children(branch).len() ==> graph.nodes.contains(
                #[trigger] graph.children(branch)[k],
            ),
{
    lemma_index_of_meaning(graph.nodes, branch);
    let i = index_of(graph.nodes, branch) as int;
    lemma_child_ids_meaning(graph, i, graph.nodes.len() as int);
    assert forall|k: int| 0 <= k < graph.children(branch).len() implies graph.nodes.contains(
        #[trigger] graph.children(branch)[k],
    ) by {
        let j = graph.child_ids(i, graph.nodes.len() as int)[k];
        assert(graph.children(branch)[k] == graph.nodes[j]);
    }
}

impl Graph {
    /// Which branches end within one branch more, given those that end within `n`.
    fn next_ending(&self, ending: &Vec<bool>, Ghost(n): Ghost<nat>) -> (next: Vec<bool>)
        requires
            self.wf(),
            ending@.len() == self@.nodes.len(),
            forall|i: int|
                0 <= i < ending@.len() ==> #[trigger] ending@[i] == self@.ends_within(
                    self@.nodes[i],
                    n,
                ),
        ensures
            next@.len() == ending@.len(),
            forall|i: int|
                0 <= i < next@.len() ==> #[trigger] next@[i] == self@.ends_within(
                    self@.nodes[i],
                    n + 1,
                ),
    {
        let mut next: Vec<bool> = Vec::new();
        let mut i: usize = 0;
        while i < ending.len()
            invariant
                self.wf(),
                ending@.len() == self@.nodes.len(),
                forall|i: int|
                    0 <= i < ending@.len() ==> #[trigger] ending@[i] == self@.ends_within(
                        self@.nodes[i],
                        n,
                    ),
                i <= ending@.len(),
                next@.len() == i,
                forall|k: int|
                    0 <= k < i ==> #[trigger] next@[k] == self@.ends_within(self@.nodes[k], n + 1),
            decreases ending.len() - i,
        {
            let ids = self.child_indices(i);
            let ghost branch = self@.nodes[i as int];
            let ghost row = ids@.map_values(|j: usize| j as int);
            let ghost children = self@.children(branch);
            proof {
                lemma_index_of_meaning(self@.nodes, branch);
                assert(index_of(self@.nodes, branch) == i);
                assert(children == self@.children_at(i as int));
                assert(row == self@.child_ids(i as int, self@.nodes.len() as int));
            }
            let mut all = true;
            let mut k: usize = 0;
            while k < ids.len()
                invariant
                    ending@.len() == self@.nodes.len(),
                    forall|i: int|
                        0 <= i < ending@.len() ==> #[trigger] ending@[i] == self@.ends_within(
                            self@.nodes[i],
                            n,
                        ),
                    forall|k: int| 0 <= k < ids@.len() ==> #[trigger] ids@[k] < self@.nodes.len(),
                    row == ids@.map_values(|j: usize| j as int),
                    children == row.map_values(|j: int| self@.nodes[j]),
                    k <= ids@.len(),
                    all == forall|m: int|
                        0 <= m < k ==> self@.ends_within(#[trigger] children[m], n),
                decreases ids.len() - k,
            {
                assert(children[k as int] == self@.nodes[ids@[k as int] as int]);
                all = all && ending[ids[k]];
                k += 1;
            }
            assert(all == self@.ends_within(branch, n + 1));
            next.push(all);
            i += 1;
        }
        next
    }

    /// How many branches the longest chain has that starts at a branch, or nothing if a chain from
    /// it runs in a circle.
    pub fn stack_height(&self, branch: &str) -> (height: Option<usize>)
        requires
            self.wf(),
        ensures
            match height {
                Some(n) => self@.ends(branch@) && n == self@.height(branch@),
                None => !self@.ends(branch@),
            },
    {
        proof {
            lemma_index_of_meaning(self@.nodes, branch@);
        }
        let at = match self.position(branch) {
            Some(at) => at,
            None => {
                proof {
                    reveal(GraphView::ends);
                    assert(self@.ends_within(branch@, 1));
                    self@.lemma_height(branch@);
                }
                return Some(1);
            },
        };
        let count = self.len();
        let mut ending: Vec<bool> = Vec::new();
        let mut i: usize = 0;
        while i < count
            invariant
                i <= count,
                ending@.len() == i,
                forall|k: int| 0 <= k < i ==> !#[trigger] ending@[k],
            decreases count - i,
        {
            ending.push(false);
            i += 1;
        }
        let mut n: usize = 0;
        proof {
            lemma_unset_bound(ending@);
        }
        loop
            invariant
                self.wf(),
                count == self@.nodes.len(),
                ending@.len() == count,
                at < count,
                self@.nodes[at as int] == branch@,
                n + unset(ending@) <= count,
                forall|i: int|
                    0 <= i < ending@.len() ==> #[trigger] ending@[i] == self@.ends_within(
                        self@.nodes[i],
                        n as nat,
                    ),
                !ending@[at as int],
            decreases unset(ending@),
        {
            let next = self.next_ending(&ending, Ghost(n as nat));
            proof {
                assert forall|i: int| 0 <= i < ending@.len() && ending@[i] implies #[trigger] next@[i] by {
                    self@.lemma_ends_within_more(self@.nodes[i], n as nat, (n + 1) as nat);
                }
                lemma_unset_shrinks(ending@, next@);
            }
            if next[at] {
                proof {
                    reveal(GraphView::ends);
                    self@.lemma_height(branch@);
                    if self@.height(branch@) <= n {
                        self@.lemma_ends_within_more(
                            branch@,
                            self@.height(branch@),
                            n as nat,
                        );
                    }
                }
                return Some(n + 1);
            }
            let mut same = true;
            let mut k: usize = 0;
            while k < count
                invariant
                    k <= count,
                    ending@.len() == count,
                    next@.len() == count,
                    same == forall|i: int| 0 <= i < k ==> #[trigger] ending@[i] == next@[i],
                decreases count - k,
            {
                same = same && ending[k] == next[k];
                k += 1;
            }
            if same {
                proof {
                    reveal(GraphView::ends);
                    if self@.ends(branch@) {
                        let m = choose|m: nat| self@.ends_within(branch@, m);
                        assert forall|i: int| 0 <= i < self@.nodes.len() implies self@.ends_within(
                            #[trigger] self@.nodes[i],
                            n as nat,
                        ) == self@.ends_within(self@.nodes[i], (n + 1) as nat) by {
                            assert(ending@[i] == next@[i]);
                        }
                        if m >= n {
                            lemma_settled(self@, n as nat, m, branch@);
                        } else {
                            self@.lemma_ends_within_more(branch@, m, n as nat);
                        }
                    }
                }
                return None;
            }
            assert(ending@ != next@);
            ending = next;
            n += 1;
        }
    }
}

} // verus!
