//! Pull requests, as far as the crate looks at them.

use vstd::prelude::*;

use crate::text::option_view;

verus! {

/// One pull request.
#[derive(Debug, Clone)]
pub struct PullRequestInfo {
    pub number: u64,
    pub head_branch: String,
    pub base_branch: String,
    pub html_url: Option<String>,
    pub title: Option<String>,
    pub body: Option<String>,
}

/// What a pull request holds.
pub struct PullView {
    pub number: u64,
    pub head_branch: Seq<char>,
    pub base_branch: Seq<char>,
    pub html_url: Option<Seq<char>>,
    pub title: Option<Seq<char>>,
    pub body: Option<Seq<char>>,
}

impl View for PullRequestInfo {
    type V = PullView;

    open spec fn view(&self) -> PullView {
        PullView {
            number: self.number,
            head_branch: self.head_branch@,
            base_branch: self.base_branch@,
            html_url: option_view(self.html_url),
            title: option_view(self.title),
            body: option_view(self.body),
        }
    }
}

/// What each pull request of a list holds.
pub open spec fn pull_views(pulls: Seq<PullRequestInfo>) -> Seq<PullView> {
    pulls.map_values(|p: PullRequestInfo| p@)
}

/// The first position of a pull request from a branch, or the list's length if there is none.
pub open spec fn pull_from(pulls: Seq<PullView>, branch: Seq<char>) -> nat
    decreases pulls.len(),
{
    if pulls.len() == 0 || pulls[0].head_branch == branch {
        0
    } else {
        1 + pull_from(pulls.drop_first(), branch)
    }
}

/// That `pull_from` is the first position of a pull request from the branch, or the length.
pub proof fn lemma_pull_from(pulls: Seq<PullView>, branch: Seq<char>, n: int)
    requires
        0 <= n <= pulls.len(),
        forall|i: int| 0 <= i < n ==> (#[trigger] pulls[i]).head_branch != branch,
        n < pulls.len() ==> pulls[n].head_branch == branch,
    ensures
        pull_from(pulls, branch) == n,
    decreases n,
{
    if n > 0 {
        let t = pulls.drop_first();
        assert forall|i: int| 0 <= i < n - 1 implies (#[trigger] t[i]).head_branch != branch by {
            assert(t[i] == pulls[i + 1]);
        }
        lemma_pull_from(t, branch, n - 1);
    }
}

/// That no pull request before position `pull_from` is from the branch, and the one there is.
pub proof fn lemma_pull_from_meaning(pulls: Seq<PullView>, branch: Seq<char>)
    ensures
        pull_from(pulls, branch) <= pulls.len(),
        forall|i: int|
            0 <= i < pull_from(pulls, branch) ==> (#[trigger] pulls[i]).head_branch != branch,
        pull_from(pulls, branch) < pulls.len() ==> pulls[pull_from(
            pulls,
            branch,
        ) as int].head_branch == branch,
    decreases pulls.len(),
{
    if pulls.len() > 0 && pulls[0].head_branch != branch {
        let t = pulls.drop_first();
        lemma_pull_from_meaning(t, branch);
        assert forall|i: int| 0 <= i < pull_from(pulls, branch) implies (
        #[trigger] pulls[i]).head_branch != branch by {
            if i > 0 {
                assert(t[i - 1] == pulls[i]);
            }
        }
    }
}

/// Where the first pull request from a branch stands in a list.
pub fn find_pull(pulls: &[PullRequestInfo], branch: &str) -> (found: Option<usize>)
    ensures
        match found {
            Some(i) => i == pull_from(pull_views(pulls@), branch@) && i < pulls@.len(),
            None => pull_from(pull_views(pulls@), branch@) == pulls@.len(),
        },
{
    let wanted = branch.to_owned();
    let ghost views = pull_views(pulls@);
    let mut i: usize = 0;
    while i < pulls.len()
        invariant
            wanted@ == branch@,
            views == pull_views(pulls@),
            i <= pulls@.len(),
            forall|k: int| 0 <= k < i ==> (#[trigger] views[k]).head_branch != branch@,
        decreases pulls.len() - i,
    {
        assert(views[i as int] == pulls@[i as int]@);
        if pulls[i].head_branch == wanted {
            proof {
                lemma_pull_from(views, branch@, i as int);
            }
            return Some(i);
        }
        i += 1;
    }
    proof {
        lemma_pull_from(views, branch@, i as int);
    }
    None
}

/// What is looked at in a pull request is all that it holds.
pub proof fn law_pull_view(pull: PullRequestInfo, pulls: Seq<PullRequestInfo>, k: int)
    requires
        0 <= k < pulls.len(),
    ensures
        pull@.number == pull.number,
        pull@.head_branch == pull.head_branch@,
        pull@.base_branch == pull.base_branch@,
        pull.html_url is Some <==> pull@.html_url is Some,
        pull.html_url is Some ==> pull@.html_url->0 == pull.html_url->0@,
        pull.title is Some <==> pull@.title is Some,
        pull.title is Some ==> pull@.title->0 == pull.title->0@,
        pull.body is Some <==> pull@.body is Some,
        pull.body is Some ==> pull@.body->0 == pull.body->0@,
        pull_views(pulls).len() == pulls.len(),
        pull_views(pulls)[k] == pulls[k]@,
{
}

} // verus!
