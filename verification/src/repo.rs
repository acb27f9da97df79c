//! The repository that the pull requests are in.

use vstd::prelude::*;

use crate::error::{ErrorView, SyncError};

verus! {

/// A repository by its owner and its name.
#[derive(Debug, Clone)]
pub struct RepoInfo {
    pub owner: String,
    pub name: String,
}

/// What a repository is called.
pub struct RepoView {
    pub owner: Seq<char>,
    pub name: Seq<char>,
}

impl View for RepoInfo {
    type V = RepoView;

    open spec fn view(&self) -> RepoView {
        RepoView { owner: self.owner@, name: self.name@ }
    }
}

/// The owner, as `gh` prints it.
#[derive(Debug)]
pub struct RepoOwner {
    pub login: String,
}

/// The repository, as `gh` prints it.
#[derive(Debug)]
pub struct RepoOutput {
    pub name: String,
    pub owner: RepoOwner,
}

/// Takes the repository from what `gh` printed, if that was understood.
pub fn parse_repo_info_output(output: Option<RepoOutput>) -> (out: Result<RepoInfo, SyncError>)
    ensures
        match (out, output) {
            (Ok(info), Some(output)) => info@ == (RepoView {
                owner: output.owner.login@,
                name: output.name@,
            }),
            (Err(e), None) => e@ == ErrorView::RepoOutput,
            _ => false,
        },
{
    match output {
        Some(output) => Ok(RepoInfo { owner: output.owner.login, name: output.name }),
        None => Err(SyncError::RepoOutput),
    }
}

/// What is looked at in a repository is all that it holds.
pub proof fn law_repo_view(info: RepoInfo)
    ensures
        info@.owner == info.owner@,
        info@.name == info.name@,
{
}

} // verus!
