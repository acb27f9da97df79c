//! What can go wrong with the texts and lists that the crate is handed.

use vstd::prelude::*;

use crate::text::IntError;

verus! {

/// Why a step could not be taken.
#[derive(Debug)]
pub enum SyncError {
    /// The log of changes has no lines.
    NoLines,
    /// There is no pull request, or none with a title and a link, from a branch.
    PullNotFound { branch: String },
    /// A comment could not be written, because a branch that it names has no pull request.
    FinalizeComment { branch: String },
    /// Nothing but whitespace came back from the editor.
    EmptyEditorText,
    /// What `gh` printed about the repository was not understood.
    RepoOutput,
    /// What `jj` printed as a count of changes is no integer.
    Count(IntError),
}

/// What a `SyncError` says.
pub enum ErrorView {
    NoLines,
    PullNotFound { branch: Seq<char> },
    FinalizeComment { branch: Seq<char> },
    EmptyEditorText,
    RepoOutput,
    Count(IntError),
}

impl View for SyncError {
    type V = ErrorView;

    open spec fn view(&self) -> ErrorView {
        match self {
            SyncError::NoLines => ErrorView::NoLines,
            SyncError::PullNotFound { branch } => ErrorView::PullNotFound { branch: branch@ },
            SyncError::FinalizeComment { branch } => ErrorView::FinalizeComment { branch: branch@ },
            SyncError::EmptyEditorText => ErrorView::EmptyEditorText,
            SyncError::RepoOutput => ErrorView::RepoOutput,
            SyncError::Count(e) => ErrorView::Count(*e),
        }
    }
}

impl ErrorView {
    /// The error in words.
    pub open spec fn message(self) -> Seq<char> {
        match self {
            ErrorView::NoLines => "no lines"@,
            ErrorView::PullNotFound { branch } => "PR from "@ + branch + " not found"@,
            ErrorView::FinalizeComment { branch } => "failed to finalize comment: PR from "@
                + branch + " not found"@,
            ErrorView::EmptyEditorText => "empty PR title and description"@,
            ErrorView::RepoOutput => "failed to parse json output from gh"@,
            ErrorView::Count(IntError::Empty) => "cannot parse integer from empty string"@,
            ErrorView::Count(IntError::InvalidDigit) => "invalid digit found in string"@,
            ErrorView::Count(IntError::TooLarge) => "number too large to fit in target type"@,
            ErrorView::Count(IntError::TooSmall) => "number too small to fit in target type"@,
        }
    }
}

impl SyncError {
    /// The error in words.
    pub fn message(&self) -> (out: String)
        ensures
            out@ == self@.message(),
    {
        match self {
            SyncError::NoLines => "no lines".to_owned(),
            SyncError::PullNotFound { branch } => "PR from ".to_owned().concat(
                branch.as_str(),
            ).concat(" not found"),
            SyncError::FinalizeComment { branch } => "failed to finalize comment: PR from ".to_owned().concat(
            branch.as_str()).concat(" not found"),
            SyncError::EmptyEditorText => "empty PR title and description".to_owned(),
            SyncError::RepoOutput => "failed to parse json output from gh".to_owned(),
            SyncError::Count(IntError::Empty) => "cannot parse integer from empty string".to_owned(),
            SyncError::Count(IntError::InvalidDigit) => "invalid digit found in string".to_owned(),
            SyncError::Count(
                IntError::TooLarge,
            ) => "number too large to fit in target type".to_owned(),
            SyncError::Count(
                IntError::TooSmall,
            ) => "number too small to fit in target type".to_owned(),
        }
    }
}

/// Every error in words, to the letter.
pub proof fn law_messages(branch: Seq<char>)
    ensures
        ErrorView::NoLines.message() == "no lines"@,
        (ErrorView::PullNotFound { branch }).message() == "PR from "@ + branch + " not found"@,
        (ErrorView::FinalizeComment { branch }).message()
            == "failed to finalize comment: PR from "@ + branch + " not found"@,
        ErrorView::EmptyEditorText.message() == "empty PR title and description"@,
        ErrorView::RepoOutput.message() == "failed to parse json output from gh"@,
        ErrorView::Count(IntError::Empty).message() == "cannot parse integer from empty string"@,
        ErrorView::Count(IntError::InvalidDigit).message() == "invalid digit found in string"@,
        ErrorView::Count(IntError::TooLarge).message()
            == "number too large to fit in target type"@,
        ErrorView::Count(IntError::TooSmall).message()
            == "number too small to fit in target type"@,
{
}

/// What is looked at in an error tells it apart from every other, and names the same branch.
pub proof fn law_error_view(branch: String, e: IntError)
    ensures
        SyncError::NoLines@ == ErrorView::NoLines,
        (SyncError::PullNotFound { branch })@ == (ErrorView::PullNotFound { branch: branch@ }),
        (SyncError::FinalizeComment { branch })@ == (ErrorView::FinalizeComment {
            branch: branch@,
        }),
        SyncError::EmptyEditorText@ == ErrorView::EmptyEditorText,
        SyncError::RepoOutput@ == ErrorView::RepoOutput,
        SyncError::Count(e)@ == ErrorView::Count(e),
{
}

} // verus!
