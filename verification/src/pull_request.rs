//! Finding or creating one pull request: what is to be done next, step by step.

use vstd::prelude::*;

use crate::command::{
    count_changes, count_command, describe_changes, describe_command, detail_changes,
    detail_command, diff_changes, diff_command, preview, preview_command, Command, CommandView,
};
use crate::draft::{
    draft, editor_text, law_text_gives_title, parse_pr_editor_text, GetPrTitleAndBody,
};
use crate::error::{ErrorView, SyncError};
use crate::github::{
    find_pull, lemma_pull_from, lemma_pull_from_meaning, pull_from, pull_views, PullRequestInfo,
    PullView,
};
use crate::text::{
    decimal, int_value, is_blank, option_view, parse_int, push_decimal, same_text, trim, trimmed,
    CharClass, IntError,
};

verus! {

/// Where the template for new pull requests stands.
pub const TEMPLATE_PATH: &'static str = ".github/pull_request_template.md";

/// What the flow waits for.
#[derive(Debug)]
pub enum Stage {
    /// The pull request at an index is being given another base branch; what to say if that fails.
    Retargeting { index: usize, failure: String },
    /// What the pull request would consist of is being shown.
    Previewing,
    /// The user is being asked whether to create the pull request.
    Confirming,
    /// The changes are being counted.
    Counting,
    /// The descriptions of the changes are being printed.
    Describing { count: i32 },
    /// The repository's template is being read.
    ReadingTemplate { count: i32, descriptions: String },
    /// The difference is being printed.
    Diffing { count: i32, descriptions: String, template: Option<String> },
    /// The changes are being printed in detail.
    Detailing { count: i32, descriptions: String, template: Option<String>, diff: String },
    /// The text is being edited.
    Editing,
    /// The pull request is being created.
    Creating,
    /// Nothing: the flow is over.
    Finished,
}

/// What a stage says.
pub enum StageView {
    Retargeting { index: int, failure: Seq<char> },
    Previewing,
    Confirming,
    Counting,
    Describing { count: int },
    ReadingTemplate { count: int, descriptions: Seq<char> },
    Diffing { count: int, descriptions: Seq<char>, template: Option<Seq<char>> },
    Detailing {
        count: int,
        descriptions: Seq<char>,
        template: Option<Seq<char>>,
        diff: Seq<char>,
    },
    Editing,
    Creating,
    Finished,
}

impl View for Stage {
    type V = StageView;

    open spec fn view(&self) -> StageView {
        match self {
            Stage::Retargeting { index, failure } => StageView::Retargeting {
                index: *index as int,
                failure: failure@,
            },
            Stage::Previewing => StageView::Previewing,
            Stage::Confirming => StageView::Confirming,
            Stage::Counting => StageView::Counting,
            Stage::Describing { count } => StageView::Describing { count: *count as int },
            Stage::ReadingTemplate { count, descriptions } => StageView::ReadingTemplate {
                count: *count as int,
                descriptions: descriptions@,
            },
            Stage::Diffing { count, descriptions, template } => StageView::Diffing {
                count: *count as int,
                descriptions: descriptions@,
                template: option_view(*template),
            },
            Stage::Detailing { count, descriptions, template, diff } => StageView::Detailing {
                count: *count as int,
                descriptions: descriptions@,
                template: option_view(*template),
                diff: diff@,
            },
            Stage::Editing => StageView::Editing,
            Stage::Creating => StageView::Creating,
            Stage::Finished => StageView::Finished,
        }
    }
}

/// What is to be done next.
#[derive(Debug)]
pub enum PrAction {
    /// Say something, then give a pull request another base branch.
    UpdateBase { number: u64, base: String, notice: String },
    /// Run a command whose outcome does not matter.
    Preview(Command),
    /// Ask the user.
    Confirm { prompt: String, default: bool },
    /// Run a command and hand back what it prints.
    Run(Command),
    /// Read a file, if it is there.
    ReadTemplate { path: String },
    /// Let the user edit a text.
    Edit { text: String },
    /// Create a pull request.
    CreatePull { title: String, head: String, base: String, body: Option<String>, draft: bool },
    /// Nothing: it is done. There may be something to say.
    Finish { message: Option<String> },
    /// Give up: what was asked for failed. There may be something to say about it.
    Abort { context: Option<String> },
    /// Give up: what came back is of no use.
    Reject(SyncError),
}

/// What an action says.
pub enum ActionView {
    UpdateBase { number: u64, base: Seq<char>, notice: Seq<char> },
    Preview(CommandView),
    Confirm { prompt: Seq<char>, default: bool },
    Run(CommandView),
    ReadTemplate { path: Seq<char> },
    Edit { text: Seq<char> },
    CreatePull {
        title: Seq<char>,
        head: Seq<char>,
        base: Seq<char>,
        body: Option<Seq<char>>,
        draft: bool,
    },
    Finish { message: Option<Seq<char>> },
    Abort { context: Option<Seq<char>> },
    Reject(ErrorView),
}

impl View for PrAction {
    type V = ActionView;

    open spec fn view(&self) -> ActionView {
        match self {
            PrAction::UpdateBase { number, base, notice } => ActionView::UpdateBase {
                number: *number,
                base: base@,
                notice: notice@,
            },
            PrAction::Preview(command) => ActionView::Preview(command@),
            PrAction::Confirm { prompt, default } => ActionView::Confirm {
                prompt: prompt@,
                default: *default,
            },
            PrAction::Run(command) => ActionView::Run(command@),
            PrAction::ReadTemplate { path } => ActionView::ReadTemplate { path: path@ },
            PrAction::Edit { text } => ActionView::Edit { text: text@ },
            PrAction::CreatePull { title, head, base, body, draft } => ActionView::CreatePull {
                title: title@,
                head: head@,
                base: base@,
                body: option_view(*body),
                draft: *draft,
            },
            PrAction::Finish { message } => ActionView::Finish { message: option_view(*message) },
            PrAction::Abort { context } => ActionView::Abort { context: option_view(*context) },
            PrAction::Reject(error) => ActionView::Reject(error@),
        }
    }
}

/// What came of an action.
#[derive(Debug)]
pub enum PrEvent {
    /// What a command printed.
    Output(String),
    /// What the user answered.
    Answer(bool),
    /// What the template says.
    Template(String),
    /// The edited text, or nothing if the user left the editor without saving.
    Edited(Option<String>),
    /// The pull request as it is now.
    Pull(PullRequestInfo),
    /// The action is done, and there is nothing to hand back.
    Done,
    /// The action failed.
    Failed,
}

/// What an event says.
pub enum EventView {
    Output(Seq<char>),
    Answer(bool),
    Template(Seq<char>),
    Edited(Option<Seq<char>>),
    Pull(PullView),
    Done,
    Failed,
}

impl View for PrEvent {
    type V = EventView;

    open spec fn view(&self) -> EventView {
        match self {
            PrEvent::Output(text) => EventView::Output(text@),
            PrEvent::Answer(yes) => EventView::Answer(*yes),
            PrEvent::Template(text) => EventView::Template(text@),
            PrEvent::Edited(text) => EventView::Edited(option_view(*text)),
            PrEvent::Pull(pull) => EventView::Pull(pull@),
            PrEvent::Done => EventView::Done,
            PrEvent::Failed => EventView::Failed,
        }
    }
}

// What is said.

/// A pull request by its two branches.
pub open spec fn arrow(target: Seq<char>, branch: Seq<char>) -> Seq<char> {
    target + " <- "@ + branch
}

fn arrow_text(target: &str, branch: &str) -> (out: String)
    ensures
        out@ == arrow(target@, branch@),
{
    target.to_owned().concat(" <- ").concat(branch)
}

/// What changes when a pull request is given another base branch.
pub open spec fn retarget_text(
    verb: Seq<char>,
    number: u64,
    previous: Seq<char>,
    target: Seq<char>,
    branch: Seq<char>,
) -> Seq<char> {
    verb + " target of PR #"@ + decimal(number as nat) + " from "@ + arrow(previous, branch)
        + " to "@ + arrow(target, branch)
}

fn describe_retarget(
    verb: &str,
    number: u64,
    previous: &str,
    target: &str,
    branch: &str,
) -> (out: String)
    ensures
        out@ == retarget_text(verb@, number, previous@, target@, branch@),
{
    let mut out = verb.to_owned().concat(" target of PR #");
    push_decimal(&mut out, number);
    out.append(" from ");
    out.append(arrow_text(previous, branch).as_str());
    out.append(" to ");
    out.append(arrow_text(target, branch).as_str());
    out
}

/// The question whether to create a pull request.
pub open spec fn confirm_text(target: Seq<char>, branch: Seq<char>) -> Seq<char> {
    "PR from "@ + arrow(target, branch) + " doesn't exist. Do you want to create it?"@
}

/// What is said once a pull request is created.
pub open spec fn created_text(target: Seq<char>, branch: Seq<char>, url: Option<Seq<char>>) -> Seq<
    char,
> {
    "Created PR from "@ + arrow(target, branch) + match url {
        Some(url) => ": "@ + url,
        None => Seq::empty(),
    }
}

// The flow.

/// What a flow is: the two branches of the pull request, and what it waits for.
pub struct FlowView {
    pub target: Seq<char>,
    pub branch: Seq<char>,
    pub stage: StageView,
}

impl FlowView {
    /// How a flow starts. If there is a pull request from the branch, it is left alone or given the
    /// target as its base branch. If not, what it would consist of is shown first.
    pub open spec fn start(target: Seq<char>, branch: Seq<char>, pulls: Seq<PullView>) -> (
        FlowView,
        ActionView,
    ) {
        let i = pull_from(pulls, branch) as int;
        if i >= pulls.len() {
            (
                FlowView { target, branch, stage: StageView::Previewing },
                ActionView::Preview(preview(target, branch)),
            )
        } else if pulls[i].base_branch == target {
            (
                FlowView { target, branch, stage: StageView::Finished },
                ActionView::Finish { message: None },
            )
        } else {
            let number = pulls[i].number;
            let previous = pulls[i].base_branch;
            (
                FlowView {
                    target,
                    branch,
                    stage: StageView::Retargeting {
                        index: i,
                        failure: retarget_text(
                            "failed updating"@,
                            number,
                            previous,
                            target,
                            branch,
                        ),
                    },
                },
                ActionView::UpdateBase {
                    number,
                    base: target,
                    notice: retarget_text("updating"@, number, previous, target, branch),
                },
            )
        }
    }

    /// The flow, waiting for something else.
    pub open spec fn at(self, stage: StageView) -> FlowView {
        FlowView { target: self.target, branch: self.branch, stage }
    }

    /// The action that creates the pull request: always as a draft, from the branch into the target.
    pub open spec fn create(self, title: Seq<char>, body: Option<Seq<char>>) -> ActionView {
        ActionView::CreatePull { title, head: self.branch, base: self.target, body, draft: true }
    }

    /// The action that gives up.
    pub open spec fn abort(self) -> ActionView {
        ActionView::Abort {
            context: match self.stage {
                StageView::Retargeting { failure, .. } => Some(failure),
                StageView::Creating => Some(
                    "failed to create PR from "@ + arrow(self.target, self.branch),
                ),
                _ => None,
            },
        }
    }

    /// What an event leads to: the next stage, the next action, and the pull requests that are known
    /// afterwards. An event that the stage does not wait for counts as a failure.
    pub open spec fn step(self, event: EventView, pulls: Seq<PullView>) -> (
        FlowView,
        ActionView,
        Seq<PullView>,
    ) {
        let target = self.target;
        let branch = self.branch;
        match (self.stage, event) {
            (StageView::Retargeting { index, .. }, EventView::Pull(pull)) => (
                self.at(StageView::Finished),
                ActionView::Finish { message: None },
                pulls.update(index, pull),
            ),
            (StageView::Previewing, _) => (
                self.at(StageView::Confirming),
                ActionView::Confirm { prompt: confirm_text(target, branch), default: true },
                pulls,
            ),
            (StageView::Confirming, EventView::Answer(true)) => (
                self.at(StageView::Counting),
                ActionView::Run(count_changes(target, branch)),
                pulls,
            ),
            (StageView::Confirming, EventView::Answer(false)) => (
                self.at(StageView::Finished),
                ActionView::Finish {
                    message: Some("skipping creating PR from "@ + arrow(target, branch)),
                },
                pulls,
            ),
            (StageView::Counting, EventView::Output(text)) => match int_value(
                trimmed(text, CharClass::Whitespace),
            ) {
                Ok(count) => (
                    self.at(StageView::Describing { count }),
                    ActionView::Run(describe_changes(target, branch)),
                    pulls,
                ),
                Err(e) => (
                    self.at(StageView::Finished),
                    ActionView::Reject(ErrorView::Count(e)),
                    pulls,
                ),
            },
            (StageView::Describing { count }, EventView::Output(descriptions)) => (
                self.at(StageView::ReadingTemplate { count, descriptions }),
                ActionView::ReadTemplate { path: TEMPLATE_PATH@ },
                pulls,
            ),
            (StageView::ReadingTemplate { count, descriptions }, event) => (
                self.at(
                    StageView::Diffing {
                        count,
                        descriptions,
                        template: match event {
                            EventView::Template(text) => Some(text),
                            _ => None,
                        },
                    },
                ),
                ActionView::Run(diff_changes(target, branch)),
                pulls,
            ),
            (StageView::Diffing { count, descriptions, template }, EventView::Output(diff)) => (
                self.at(StageView::Detailing { count, descriptions, template, diff }),
                ActionView::Run(detail_changes(target, branch)),
                pulls,
            ),
            (
                StageView::Detailing { count, descriptions, template, diff },
                EventView::Output(log),
            ) => (
                self.at(StageView::Editing),
                ActionView::Edit {
                    text: draft(count, descriptions, template, diff, log).template(),
                },
                pulls,
            ),
            (StageView::Editing, EventView::Edited(None)) => (
                self.at(StageView::Creating),
                self.create(branch, None),
                pulls,
            ),
            (StageView::Editing, EventView::Edited(Some(text))) => match editor_text(text) {
                Ok(Some((title, body))) => (
                    self.at(StageView::Creating),
                    self.create(title, Some(body)),
                    pulls,
                ),
                Ok(None) => (self.at(StageView::Creating), self.create(branch, None), pulls),
                Err(e) => (self.at(StageView::Finished), ActionView::Reject(e), pulls),
            },
            (StageView::Creating, EventView::Pull(pull)) => (
                self.at(StageView::Finished),
                ActionView::Finish { message: Some(created_text(target, branch, pull.html_url)) },
                pulls.push(pull),
            ),
            _ => (self.at(StageView::Finished), self.abort(), pulls),
        }
    }

    /// Whether the pull request that the flow is about to change is in a list of that length.
    pub open spec fn fits(self, count: nat) -> bool {
        match self.stage {
            StageView::Retargeting { index, .. } => 0 <= index < count,
            _ => true,
        }
    }
}

/// The finding or creating of one pull request.
#[derive(Debug)]
pub struct PrFlow {
    target: String,
    branch: String,
    stage: Stage,
}

impl View for PrFlow {
    type V = FlowView;

    closed spec fn view(&self) -> FlowView {
        FlowView { target: self.target@, branch: self.branch@, stage: self.stage@ }
    }
}

impl PrFlow {
    /// Starts to find or create the pull request from a branch into a target.
    pub fn start(target: &str, branch: &str, pulls: &[PullRequestInfo]) -> (out: (
        PrFlow,
        PrAction,
    ))
        ensures
            (out.0@, out.1@) == FlowView::start(target@, branch@, pull_views(pulls@)),
            out.0@.fits(pulls@.len()),
    {
        let (stage, action) = match find_pull(pulls, branch) {
            Some(index) => {
                let pull = &pulls[index];
                assert(pull_views(pulls@)[index as int] == pull@);
                let previous = pull.base_branch.as_str();
                if same_text(previous, target) {
                    (Stage::Finished, PrAction::Finish { message: None })
                } else {
                    let failure = describe_retarget(
                        "failed updating",
                        pull.number,
                        previous,
                        target,
                        branch,
                    );
                    let notice = describe_retarget(
                        "updating",
                        pull.number,
                        previous,
                        target,
                        branch,
                    );
                    (
                        Stage::Retargeting { index, failure },
                        PrAction::UpdateBase {
                            number: pull.number,
                            base: target.to_owned(),
                            notice,
                        },
                    )
                }
            },
            None => (Stage::Previewing, PrAction::Preview(preview_command(target, branch))),
        };
        (PrFlow { target: target.to_owned(), branch: branch.to_owned(), stage }, action)
    }

    /// Whether the pull request that the flow is about to change is in a list.
    pub fn fits(&self, pulls: &[PullRequestInfo]) -> (out: bool)
        ensures
            out == self@.fits(pulls@.len()),
    {
        match &self.stage {
            Stage::Retargeting { index, .. } => *index < pulls.len(),
            _ => true,
        }
    }

    fn create(&self, title: String, body: Option<String>) -> (out: PrAction)
        ensures
            out@ == self@.create(title@, option_view(body)),
    {
        PrAction::CreatePull {
            title,
            head: self.branch.clone(),
            base: self.target.clone(),
            body,
            draft: true,
        }
    }

    /// Takes what came of the last action, and says what is to be done next.
    pub fn step(&mut self, event: PrEvent, pulls: &mut Vec<PullRequestInfo>) -> (action: PrAction)
        requires
            old(self)@.fits(old(pulls)@.len()),
        ensures
            (final(self)@, action@, pull_views(final(pulls)@)) == old(self)@.step(
                event@,
                pull_views(old(pulls)@),
            ),
            final(self)@.fits(final(pulls)@.len()),
    {
        let ghost before = self@;
        let ghost known = pull_views(pulls@);
        let mut stage = Stage::Finished;
        std::mem::swap(&mut stage, &mut self.stage);
        let target = self.target.as_str();
        let branch = self.branch.as_str();
        let (next, action) = match stage {
            Stage::Retargeting { index, failure } => match event {
                PrEvent::Pull(pull) => {
                    pulls.set(index, pull);
                    assert(pull_views(pulls@) =~= known.update(index as int, pull@));
                    (Stage::Finished, PrAction::Finish { message: None })
                },
                _ => (Stage::Finished, PrAction::Abort { context: Some(failure) }),
            },
            Stage::Previewing => {
                let prompt = "PR from ".to_owned().concat(
                    arrow_text(target, branch).as_str(),
                ).concat(" doesn't exist. Do you want to create it?");
                (Stage::Confirming, PrAction::Confirm { prompt, default: true })
            },
            Stage::Confirming => match event {
                PrEvent::Answer(true) => (
                    Stage::Counting,
                    PrAction::Run(count_command(target, branch)),
                ),
                PrEvent::Answer(false) => {
                    let notice = "skipping creating PR from ".to_owned().concat(
                        arrow_text(target, branch).as_str(),
                    );
                    (Stage::Finished, PrAction::Finish { message: Some(notice) })
                },
                _ => (Stage::Finished, PrAction::Abort { context: None }),
            },
            Stage::Counting => match event {
                PrEvent::Output(text) => {
                    let number = trim(text.as_str(), CharClass::Whitespace);
                    match parse_int(number.as_str()) {
                        Ok(count) => (
                            Stage::Describing { count },
                            PrAction::Run(describe_command(target, branch)),
                        ),
                        Err(e) => (Stage::Finished, PrAction::Reject(SyncError::Count(e))),
                    }
                },
                _ => (Stage::Finished, PrAction::Abort { context: None }),
            },
            Stage::Describing { count } => match event {
                PrEvent::Output(descriptions) => (
                    Stage::ReadingTemplate { count, descriptions },
                    PrAction::ReadTemplate { path: TEMPLATE_PATH.to_owned() },
                ),
                _ => (Stage::Finished, PrAction::Abort { context: None }),
            },
            Stage::ReadingTemplate { count, descriptions } => {
                let template = match event {
                    PrEvent::Template(text) => Some(text),
                    _ => None,
                };
                (
                    Stage::Diffing { count, descriptions, template },
                    PrAction::Run(diff_command(target, branch)),
                )
            },
            Stage::Diffing { count, descriptions, template } => match event {
                PrEvent::Output(diff) => (
                    Stage::Detailing { count, descriptions, template, diff },
                    PrAction::Run(detail_command(target, branch)),
                ),
                _ => (Stage::Finished, PrAction::Abort { context: None }),
            },
            Stage::Detailing { count, descriptions, template, diff } => match event {
                PrEvent::Output(log) => {
                    let known = GetPrTitleAndBody::get(count, descriptions, template, diff, log);
                    (Stage::Editing, PrAction::Edit { text: known.template() })
                },
                _ => (Stage::Finished, PrAction::Abort { context: None }),
            },
            Stage::Editing => match event {
                PrEvent::Edited(None) => (
                    Stage::Creating,
                    self.create(self.branch.clone(), None),
                ),
                PrEvent::Edited(Some(text)) => match parse_pr_editor_text(text.as_str()) {
                    Ok(Some((title, body))) => (Stage::Creating, self.create(title, Some(body))),
                    Ok(None) => (Stage::Creating, self.create(self.branch.clone(), None)),
                    Err(e) => (Stage::Finished, PrAction::Reject(e)),
                },
                _ => (Stage::Finished, PrAction::Abort { context: None }),
            },
            Stage::Creating => match event {
                PrEvent::Pull(pull) => {
                    let mut notice = "Created PR from ".to_owned().concat(
                        arrow_text(target, branch).as_str(),
                    );
                    if let Some(url) = &pull.html_url {
                        notice.append(": ");
                        notice.append(url.as_str());
                    }
                    assert(notice@ =~= created_text(target@, branch@, pull@.html_url));
                    pulls.push(pull);
                    assert(pull_views(pulls@) =~= known.push(pull@));
                    (Stage::Finished, PrAction::Finish { message: Some(notice) })
                },
                _ => {
                    let context = "failed to create PR from ".to_owned().concat(
                        arrow_text(target, branch).as_str(),
                    );
                    (Stage::Finished, PrAction::Abort { context: Some(context) })
                },
            },
            Stage::Finished => (Stage::Finished, PrAction::Abort { context: None }),
        };
        self.stage = next;
        action
    }
}

// A flow as a whole.

impl FlowView {
    /// A flow after several events: where it is, the actions that came of the events, and the pull
    /// requests that are known.
    pub open spec fn run(self, events: Seq<EventView>, pulls: Seq<PullView>) -> (
        FlowView,
        Seq<ActionView>,
        Seq<PullView>,
    )
        decreases events.len(),
    {
        if events.len() == 0 {
            (self, Seq::empty(), pulls)
        } else {
            let (flow, actions, known) = self.run(events.drop_last(), pulls);
            let (next, action, after) = flow.step(events.last(), known);
            (next, actions.push(action), after)
        }
    }

    proof fn lemma_run_step(self, events: Seq<EventView>, pulls: Seq<PullView>, n: int)
        requires
            0 < n <= events.len(),
        ensures
            ({
                let (flow, actions, known) = self.run(events.take(n - 1), pulls);
                let (next, action, after) = flow.step(events[n - 1], known);
                self.run(events.take(n), pulls) == (next, actions.push(action), after)
            }),
    {
        assert(events.take(n).drop_last() =~= events.take(n - 1));
    }

    proof fn lemma_up_to_template(self, events: Seq<EventView>, pulls: Seq<PullView>, count: int)
        requires
            self.stage is Previewing,
            events.len() >= 4,
            events[1] == EventView::Answer(true),
            events[2] is Output,
            int_value(trimmed(events[2]->Output_0, CharClass::Whitespace)) == Ok::<int, IntError>(
                count,
            ),
            events[3] is Output,
        ensures
            self.run(events.take(4), pulls) == (
                self.at(StageView::ReadingTemplate { count, descriptions: events[3]->Output_0 }),
                seq![
                    ActionView::Confirm {
                        prompt: confirm_text(self.target, self.branch),
                        default: true,
                    },
                    ActionView::Run(count_changes(self.target, self.branch)),
                    ActionView::Run(describe_changes(self.target, self.branch)),
                    ActionView::ReadTemplate { path: TEMPLATE_PATH@ },
                ],
                pulls,
            ),
    {
        self.lemma_run_step(events, pulls, 1);
        self.lemma_run_step(events, pulls, 2);
        self.lemma_run_step(events, pulls, 3);
        self.lemma_run_step(events, pulls, 4);
        assert(events.take(0) =~= Seq::empty());
    }

    proof fn lemma_up_to_editor(self, events: Seq<EventView>, pulls: Seq<PullView>, count: int)
        requires
            events.len() >= 7,
            self.run(events.take(4), pulls).0 == self.at(
                StageView::ReadingTemplate { count, descriptions: events[3]->Output_0 },
            ),
            self.run(events.take(4), pulls).2 == pulls,
            events[5] is Output,
            events[6] is Output,
        ensures
            ({
                let template = match events[4] {
                    EventView::Template(text) => Some(text),
                    _ => None,
                };
                let text = draft(
                    count,
                    events[3]->Output_0,
                    template,
                    events[5]->Output_0,
                    events[6]->Output_0,
                ).template();
                self.run(events.take(7), pulls) == (
                    self.at(StageView::Editing),
                    self.run(events.take(4), pulls).1.push(
                        ActionView::Run(diff_changes(self.target, self.branch)),
                    ).push(ActionView::Run(detail_changes(self.target, self.branch))).push(
                        ActionView::Edit { text },
                    ),
                    pulls,
                )
            }),
    {
        self.lemma_run_step(events, pulls, 5);
        self.lemma_run_step(events, pulls, 6);
        self.lemma_run_step(events, pulls, 7);
    }

    /// How many events lie behind a flow that found no pull request.
    pub open spec fn place(self) -> nat {
        match self.stage {
            StageView::Retargeting { .. } => 0,
            StageView::Previewing => 0,
            StageView::Confirming => 1,
            StageView::Counting => 2,
            StageView::Describing { .. } => 3,
            StageView::ReadingTemplate { .. } => 4,
            StageView::Diffing { .. } => 5,
            StageView::Detailing { .. } => 6,
            StageView::Editing => 7,
            StageView::Creating => 8,
            StageView::Finished => 9,
        }
    }
}

/// What a list of pull requests has become after a flow: the same list, or one in which the first
/// pull request from the branch was replaced, or one with a new pull request at its end.
pub open spec fn changed_by(
    before: Seq<PullView>,
    after: Seq<PullView>,
    branch: Seq<char>,
    target: Seq<char>,
    events: Seq<EventView>,
) -> bool {
    let i = pull_from(before, branch) as int;
    ||| after == before
    ||| {
        &&& i < before.len()
        &&& before[i].base_branch != target
        &&& events[0] is Pull
        &&& after == before.update(i, events[0]->Pull_0)
    }
    ||| {
        &&& i == before.len()
        &&& events.len() >= 9
        &&& events[1] == EventView::Answer(true)
        &&& events[8] is Pull
        &&& after == before.push(events[8]->Pull_0)
    }
}

proof fn lemma_run(
    target: Seq<char>,
    branch: Seq<char>,
    pulls: Seq<PullView>,
    events: Seq<EventView>,
)
    ensures
        ({
            let i = pull_from(pulls, branch) as int;
            let (flow, actions, known) = FlowView::start(target, branch, pulls).0.run(
                events,
                pulls,
            );
            &&& flow.target == target
            &&& flow.branch == branch
            &&& actions.len() == events.len()
            &&& flow.stage !is Finished ==> events.len() == flow.place() && known == pulls
            &&& flow.stage matches StageView::Retargeting { index, .. } ==> {
                &&& index == i
                &&& i < pulls.len()
                &&& pulls[i].base_branch != target
            }
            &&& flow.stage !is Finished && flow.stage !is Retargeting ==> i == pulls.len()
            &&& flow.stage !is Finished && flow.place() >= 2 ==> events[1] == EventView::Answer(
                true,
            )
            &&& changed_by(pulls, known, branch, target, events)
            &&& forall|k: int|
                0 <= k < actions.len() ==> match #[trigger] actions[k] {
                    ActionView::CreatePull { head, base, draft, .. } => {
                        &&& k == 7
                        &&& i == pulls.len()
                        &&& events[1] == EventView::Answer(true)
                        &&& head == branch
                        &&& base == target
                        &&& draft
                    },
                    ActionView::UpdateBase { .. } => false,
                    _ => true,
                }
        }),
    decreases events.len(),
{
    lemma_pull_from_meaning(pulls, branch);
    if events.len() > 0 {
        lemma_run(target, branch, pulls, events.drop_last());
    }
}

/// A pull request is created only if there was none from the branch, and only once the user has said
/// so. It is always a draft, from the branch into the target.
pub proof fn law_creates_only_when_told(
    target: Seq<char>,
    branch: Seq<char>,
    pulls: Seq<PullView>,
    events: Seq<EventView>,
)
    ensures
        FlowView::start(target, branch, pulls).1 !is CreatePull,
        forall|k: int|
            0 <= k < events.len() ==> match #[trigger] FlowView::start(
                target,
                branch,
                pulls,
            ).0.run(events, pulls).1[k] {
                ActionView::CreatePull { head, base, draft, .. } => {
                    &&& pull_from(pulls, branch) == pulls.len()
                    &&& events[1] == EventView::Answer(true)
                    &&& head == branch
                    &&& base == target
                    &&& draft
                },
                _ => true,
            },
{
    lemma_run(target, branch, pulls, events);
}

/// At most one pull request is given another base branch or created, and never both.
pub proof fn law_one_change(
    target: Seq<char>,
    branch: Seq<char>,
    pulls: Seq<PullView>,
    events: Seq<EventView>,
    j: int,
    k: int,
)
    requires
        0 <= j < events.len(),
        0 <= k < events.len(),
    ensures
        ({
            let (start, first) = FlowView::start(target, branch, pulls);
            let actions = start.run(events, pulls).1;
            &&& actions[k] !is UpdateBase
            &&& first is UpdateBase ==> actions[k] !is CreatePull
            &&& actions[j] is CreatePull && actions[k] is CreatePull ==> j == k
        }),
{
    lemma_run(target, branch, pulls, events);
    lemma_pull_from_meaning(pulls, branch);
}

/// What a flow leaves behind: the pull requests as they were, or with the first one from the branch
/// replaced by what the service gave back, or with the one that the service created at the end.
pub proof fn law_flow_changes(
    target: Seq<char>,
    branch: Seq<char>,
    pulls: Seq<PullView>,
    events: Seq<EventView>,
)
    ensures
        changed_by(
            pulls,
            FlowView::start(target, branch, pulls).0.run(events, pulls).2,
            branch,
            target,
            events,
        ),
{
    lemma_run(target, branch, pulls, events);
}

/// A flow is over after nine events at the latest.
pub proof fn law_flow_ends(
    target: Seq<char>,
    branch: Seq<char>,
    pulls: Seq<PullView>,
    events: Seq<EventView>,
)
    requires
        events.len() >= 9,
    ensures
        FlowView::start(target, branch, pulls).0.run(events, pulls).0.stage is Finished,
{
    lemma_run(target, branch, pulls, events);
}

/// Once a flow has changed a pull request, there is nothing left to do for its branch, provided that
/// what the service gave back is a pull request from the branch into the target.
pub proof fn law_synced_stays(
    target: Seq<char>,
    branch: Seq<char>,
    pulls: Seq<PullView>,
    events: Seq<EventView>,
)
    requires
        forall|k: int|
            0 <= k < events.len() ==> (#[trigger] events[k] matches EventView::Pull(pull) ==> {
                &&& pull.head_branch == branch
                &&& pull.base_branch == target
            }),
        FlowView::start(target, branch, pulls).0.run(events, pulls).2 != pulls,
    ensures
        FlowView::start(
            target,
            branch,
            FlowView::start(target, branch, pulls).0.run(events, pulls).2,
        ).1 == (ActionView::Finish { message: None }),
{
    lemma_run(target, branch, pulls, events);
    lemma_pull_from_meaning(pulls, branch);
    let after = FlowView::start(target, branch, pulls).0.run(events, pulls).2;
    let i = pull_from(pulls, branch) as int;
    assert(after[i] == if i < pulls.len() {
        events[0]->Pull_0
    } else {
        events[8]->Pull_0
    });
    assert forall|k: int| 0 <= k < i implies (#[trigger] after[k]).head_branch != branch by {
        assert(after[k] == pulls[k]);
    }
    lemma_pull_from(after, branch, i);
}

/// The flow for a branch does not touch what is to be done for another one, provided that the service
/// gives back pull requests from the branch that it was asked about.
pub proof fn law_other_branches_stay(
    target: Seq<char>,
    branch: Seq<char>,
    pulls: Seq<PullView>,
    events: Seq<EventView>,
    other_target: Seq<char>,
    other: Seq<char>,
)
    requires
        forall|k: int|
            0 <= k < events.len() ==> (#[trigger] events[k] matches EventView::Pull(pull)
                ==> pull.head_branch == branch),
        other != branch,
    ensures
        FlowView::start(
            other_target,
            other,
            FlowView::start(target, branch, pulls).0.run(events, pulls).2,
        ) == FlowView::start(other_target, other, pulls),
{
    lemma_run(target, branch, pulls, events);
    lemma_pull_from_meaning(pulls, branch);
    lemma_pull_from_meaning(pulls, other);
    let after = FlowView::start(target, branch, pulls).0.run(events, pulls).2;
    let i = pull_from(pulls, branch) as int;
    let j = pull_from(pulls, other) as int;
    if after != pulls {
        let given = if i < pulls.len() {
            events[0]->Pull_0
        } else {
            events[8]->Pull_0
        };
        assert(given.head_branch == branch);
        assert(after[i] == given);
        let n = if j < pulls.len() {
            j
        } else {
            after.len() as int
        };
        assert forall|k: int| 0 <= k < n implies (#[trigger] after[k]).head_branch != other by {
            if k != i {
                assert(after[k] == pulls[k]);
            }
        }
        lemma_pull_from(after, other, n);
    }
}

/// What happens to a branch without a pull request if the user wants one and nothing fails: the changes
/// are counted and printed, the draft is edited, and the pull request is created from what the user
/// saved, or under the branch's own name if the user saved nothing.
#[verifier::spinoff_prover]
pub proof fn law_confirmed_flow(
    target: Seq<char>,
    branch: Seq<char>,
    pulls: Seq<PullView>,
    events: Seq<EventView>,
    count: int,
)
    requires
        pull_from(pulls, branch) == pulls.len(),
        events.len() == 8,
        events[1] == EventView::Answer(true),
        events[2] is Output,
        int_value(trimmed(events[2]->Output_0, CharClass::Whitespace)) == Ok::<int, IntError>(
            count,
        ),
        events[3] is Output,
        events[5] is Output,
        events[6] is Output,
        events[7] matches EventView::Edited(edited) && (edited matches Some(text)
            ==> !is_blank(text)),
    ensures
        ({
            let (start, first) = FlowView::start(target, branch, pulls);
            let template = match events[4] {
                EventView::Template(text) => Some(text),
                _ => None,
            };
            let text = draft(
                count,
                events[3]->Output_0,
                template,
                events[5]->Output_0,
                events[6]->Output_0,
            ).template();
            let create = match events[7]->Edited_0 {
                Some(text) => {
                    let read = editor_text(text)->Ok_0->Some_0;
                    start.create(read.0, Some(read.1))
                },
                None => start.create(branch, None),
            };
            &&& first == ActionView::Preview(preview(target, branch))
            &&& start.run(events, pulls).1 == seq![
                ActionView::Confirm { prompt: confirm_text(target, branch), default: true },
                ActionView::Run(count_changes(target, branch)),
                ActionView::Run(describe_changes(target, branch)),
                ActionView::ReadTemplate { path: TEMPLATE_PATH@ },
                ActionView::Run(diff_changes(target, branch)),
                ActionView::Run(detail_changes(target, branch)),
                ActionView::Edit { text },
                create,
            ]
        }),
{
    let start = FlowView::start(target, branch, pulls).0;
    start.lemma_up_to_template(events, pulls, count);
    start.lemma_up_to_editor(events, pulls, count);
    match events[7]->Edited_0 {
        Some(text) => {
            law_text_gives_title(text);
        },
        None => {},
    }
    start.lemma_run_step(events, pulls, 8);
    assert(events.take(8) =~= events);
}

/// A branch without a pull request stays without one if the user does not want it.
pub proof fn law_refused_flow(
    target: Seq<char>,
    branch: Seq<char>,
    pulls: Seq<PullView>,
    shown: EventView,
)
    requires
        pull_from(pulls, branch) == pulls.len(),
    ensures
        ({
            let start = FlowView::start(target, branch, pulls).0;
            let (end, actions, after) = start.run(seq![shown, EventView::Answer(false)], pulls);
            &&& end.stage is Finished
            &&& actions[1] == ActionView::Finish {
                message: Some("skipping creating PR from "@ + arrow(target, branch)),
            }
            &&& after == pulls
        }),
{
    let start = FlowView::start(target, branch, pulls).0;
    let events = seq![shown, EventView::Answer(false)];
    start.lemma_run_step(events, pulls, 1);
    start.lemma_run_step(events, pulls, 2);
    assert(events.take(0) =~= Seq::empty());
    assert(events.take(2) =~= events);
}

// What each step of a flow amounts to.

/// If the first pull request from the branch goes into another branch than the target, that very pull
/// request is to be given the target as its base, whatever else it holds; the user is told what it was
/// and what it will be.
pub proof fn law_start_retargets(
    target: Seq<char>,
    branch: Seq<char>,
    pulls: Seq<PullView>,
    i: int,
)
    requires
        0 <= i < pulls.len(),
        pulls[i].head_branch == branch,
        forall|k: int| 0 <= k < i ==> (#[trigger] pulls[k]).head_branch != branch,
        pulls[i].base_branch != target,
    ensures
        ({
            let (flow, action) = FlowView::start(target, branch, pulls);
            let change = " target of PR #"@ + decimal(pulls[i].number as nat) + " from "@
                + pulls[i].base_branch + " <- "@ + branch + " to "@ + target + " <- "@ + branch;
            &&& action == (ActionView::UpdateBase {
                number: pulls[i].number,
                base: target,
                notice: "updating"@ + change,
            })
            &&& flow.target == target
            &&& flow.branch == branch
            &&& flow.stage == (StageView::Retargeting { index: i, failure: "failed updating"@ + change })
        }),
{
    lemma_pull_from(pulls, branch, i);
    let number = pulls[i].number;
    let previous = pulls[i].base_branch;
    let change = " target of PR #"@ + decimal(number as nat) + " from "@ + previous + " <- "@
        + branch + " to "@ + target + " <- "@ + branch;
    assert(retarget_text("updating"@, number, previous, target, branch) =~= "updating"@ + change);
    assert(retarget_text("failed updating"@, number, previous, target, branch)
        =~= "failed updating"@ + change);
}

/// If the first pull request from the branch goes into the target, nothing is to be done or said.
pub proof fn law_start_is_done(target: Seq<char>, branch: Seq<char>, pulls: Seq<PullView>, i: int)
    requires
        0 <= i < pulls.len(),
        pulls[i].head_branch == branch,
        forall|k: int| 0 <= k < i ==> (#[trigger] pulls[k]).head_branch != branch,
        pulls[i].base_branch == target,
    ensures
        FlowView::start(target, branch, pulls).1 == (ActionView::Finish { message: None }),
        FlowView::start(target, branch, pulls).0 == (FlowView {
            target,
            branch,
            stage: StageView::Finished,
        }),
{
    lemma_pull_from(pulls, branch, i);
}

/// If there is no pull request from the branch, what it would consist of is shown, and then the user is
/// asked about it.
pub proof fn law_start_asks(
    target: Seq<char>,
    branch: Seq<char>,
    pulls: Seq<PullView>,
    shown: EventView,
)
    requires
        forall|k: int| 0 <= k < pulls.len() ==> (#[trigger] pulls[k]).head_branch != branch,
    ensures
        FlowView::start(target, branch, pulls).1 == ActionView::Preview(
            CommandView { program: "jj"@, args: seq!["log"@, "-r"@, target + "::"@ + branch] },
        ),
        FlowView::start(target, branch, pulls).0 == (FlowView {
            target,
            branch,
            stage: StageView::Previewing,
        }),
        FlowView::start(target, branch, pulls).0.step(shown, pulls) == (
            FlowView { target, branch, stage: StageView::Confirming },
            ActionView::Confirm {
                prompt: "PR from "@ + target + " <- "@ + branch
                    + " doesn't exist. Do you want to create it?"@,
                default: true,
            },
            pulls,
        ),
{
    lemma_pull_from(pulls, branch, pulls.len() as int);
    assert(confirm_text(target, branch) =~= "PR from "@ + target + " <- "@ + branch
        + " doesn't exist. Do you want to create it?"@);
}

/// What the service gives back when it has changed a pull request takes the place of that one; if it
/// gives back anything else, nothing is changed and the flow gives up with what was kept for that.
pub proof fn law_retargeting(
    target: Seq<char>,
    branch: Seq<char>,
    index: int,
    failure: Seq<char>,
    event: EventView,
    pulls: Seq<PullView>,
)
    ensures
        ({
            let flow = FlowView {
                target,
                branch,
                stage: StageView::Retargeting { index, failure },
            };
            let (next, action, after) = flow.step(event, pulls);
            &&& next == (FlowView { target, branch, stage: StageView::Finished })
            &&& event matches EventView::Pull(pull) ==> {
                &&& action == (ActionView::Finish { message: None })
                &&& after == pulls.update(index, pull)
            }
            &&& event !is Pull ==> {
                &&& action == (ActionView::Abort { context: Some(failure) })
                &&& after == pulls
            }
        }),
{
}

/// The user's answer decides: a yes has the changes counted, a no ends the flow with a word about it,
/// and anything else is a failure. No pull request changes.
pub proof fn law_confirming(
    target: Seq<char>,
    branch: Seq<char>,
    event: EventView,
    pulls: Seq<PullView>,
)
    ensures
        ({
            let flow = FlowView { target, branch, stage: StageView::Confirming };
            let (next, action, after) = flow.step(event, pulls);
            &&& after == pulls
            &&& next.target == target
            &&& next.branch == branch
            &&& event == EventView::Answer(true) ==> {
                &&& next.stage is Counting
                &&& action == ActionView::Run(
                    CommandView {
                        program: "jj"@,
                        args: seq!["log"@, "--count"@, "-r"@, target + ".."@ + branch],
                    },
                )
            }
            &&& event == EventView::Answer(false) ==> {
                &&& next.stage is Finished
                &&& action == (ActionView::Finish {
                    message: Some("skipping creating PR from "@ + target + " <- "@ + branch),
                })
            }
            &&& event !is Answer ==> {
                &&& next.stage is Finished
                &&& action == (ActionView::Abort { context: None })
            }
        }),
{
    assert("skipping creating PR from "@ + arrow(target, branch) =~= "skipping creating PR from "@
        + target + " <- "@ + branch);
}

/// A count that is an integer has the descriptions printed; one that is none is rejected for its own
/// reason, and no count is a failure.
pub proof fn law_counting(
    target: Seq<char>,
    branch: Seq<char>,
    event: EventView,
    pulls: Seq<PullView>,
)
    ensures
        ({
            let flow = FlowView { target, branch, stage: StageView::Counting };
            let (next, action, after) = flow.step(event, pulls);
            &&& after == pulls
            &&& next.target == target
            &&& next.branch == branch
            &&& event matches EventView::Output(text) ==> match int_value(
                trimmed(text, CharClass::Whitespace),
            ) {
                Ok(count) => {
                    &&& next.stage == (StageView::Describing { count })
                    &&& action == ActionView::Run(
                        CommandView {
                            program: "jj"@,
                            args: seq![
                                "log"@,
                                "--no-graph"@,
                                "-r"@,
                                target + ".."@ + branch,
                                "-T"@,
                                "description ++ \"\\n\""@,
                            ],
                        },
                    )
                },
                Err(e) => {
                    &&& next.stage is Finished
                    &&& action == ActionView::Reject(ErrorView::Count(e))
                },
            }
            &&& event !is Output ==> {
                &&& next.stage is Finished
                &&& action == (ActionView::Abort { context: None })
            }
        }),
{
}

/// The descriptions, the template, the difference and the log are taken as they come, one after the
/// other; only the template may be missing.
pub proof fn law_gathering(
    target: Seq<char>,
    branch: Seq<char>,
    count: int,
    descriptions: Seq<char>,
    template: Option<Seq<char>>,
    diff: Seq<char>,
    event: EventView,
    pulls: Seq<PullView>,
)
    ensures
        ({
            let flow = FlowView { target, branch, stage: StageView::Describing { count } };
            let (next, action, after) = flow.step(event, pulls);
            &&& after == pulls
            &&& next.target == target && next.branch == branch
            &&& event matches EventView::Output(text) ==> {
                &&& next.stage == (StageView::ReadingTemplate { count, descriptions: text })
                &&& action == (ActionView::ReadTemplate {
                    path: ".github/pull_request_template.md"@,
                })
            }
            &&& event !is Output ==> next.stage is Finished && action == (ActionView::Abort {
                context: None,
            })
        }),
        ({
            let flow = FlowView {
                target,
                branch,
                stage: StageView::ReadingTemplate { count, descriptions },
            };
            let (next, action, after) = flow.step(event, pulls);
            &&& after == pulls
            &&& next.target == target && next.branch == branch
            &&& action == ActionView::Run(
                CommandView {
                    program: "jj"@,
                    args: seq!["diff"@, "--git"@, "-r"@, target + ".."@ + branch],
                },
            )
            &&& event matches EventView::Template(text) ==> next.stage == (StageView::Diffing {
                count,
                descriptions,
                template: Some(text),
            })
            &&& event !is Template ==> next.stage == (StageView::Diffing {
                count,
                descriptions,
                template: None,
            })
        }),
        ({
            let flow = FlowView {
                target,
                branch,
                stage: StageView::Diffing { count, descriptions, template },
            };
            let (next, action, after) = flow.step(event, pulls);
            &&& after == pulls
            &&& next.target == target && next.branch == branch
            &&& event matches EventView::Output(text) ==> {
                &&& next.stage == (StageView::Detailing {
                    count,
                    descriptions,
                    template,
                    diff: text,
                })
                &&& action == ActionView::Run(
                    CommandView {
                        program: "jj"@,
                        args: seq![
                            "log"@,
                            "--color"@,
                            "never"@,
                            "-r"@,
                            target + ".."@ + branch,
                            "-T"@,
                            "builtin_log_detailed"@,
                        ],
                    },
                )
            }
            &&& event !is Output ==> next.stage is Finished && action == (ActionView::Abort {
                context: None,
            })
        }),
        ({
            let flow = FlowView {
                target,
                branch,
                stage: StageView::Detailing { count, descriptions, template, diff },
            };
            let (next, action, after) = flow.step(event, pulls);
            &&& after == pulls
            &&& next.target == target && next.branch == branch
            &&& event matches EventView::Output(log) ==> {
                &&& next.stage is Editing
                &&& action == (ActionView::Edit {
                    text: draft(count, descriptions, template, diff, log).template(),
                })
            }
            &&& event !is Output ==> next.stage is Finished && action == (ActionView::Abort {
                context: None,
            })
        }),
{
}

/// What the user saved decides about the new pull request: its title and its description, or the name
/// of the branch without a description if nothing was saved. A text that cannot be read is rejected.
pub proof fn law_editing(
    target: Seq<char>,
    branch: Seq<char>,
    event: EventView,
    pulls: Seq<PullView>,
)
    ensures
        ({
            let flow = FlowView { target, branch, stage: StageView::Editing };
            let (next, action, after) = flow.step(event, pulls);
            &&& after == pulls
            &&& next.target == target
            &&& next.branch == branch
            &&& event == EventView::Edited(None) ==> {
                &&& next.stage is Creating
                &&& action == (ActionView::CreatePull {
                    title: branch,
                    head: branch,
                    base: target,
                    body: None,
                    draft: true,
                })
            }
            &&& event matches EventView::Edited(Some(text)) ==> match editor_text(text) {
                Ok(Some((title, body))) => {
                    &&& next.stage is Creating
                    &&& action == (ActionView::CreatePull {
                        title,
                        head: branch,
                        base: target,
                        body: Some(body),
                        draft: true,
                    })
                },
                Ok(None) => false,
                Err(e) => next.stage is Finished && action == ActionView::Reject(e),
            }
            &&& event !is Edited ==> {
                &&& next.stage is Finished
                &&& action == (ActionView::Abort { context: None })
            }
        }),
{
    match event {
        EventView::Edited(Some(text)) => {
            law_text_gives_title(text);
        },
        _ => {},
    }
}

/// The pull request that the service created comes behind the others, and the user is told, with its
/// link if it has one. If there is none, nothing is changed and the flow gives up.
pub proof fn law_creating(
    target: Seq<char>,
    branch: Seq<char>,
    event: EventView,
    pulls: Seq<PullView>,
)
    ensures
        ({
            let flow = FlowView { target, branch, stage: StageView::Creating };
            let (next, action, after) = flow.step(event, pulls);
            &&& next == (FlowView { target, branch, stage: StageView::Finished })
            &&& event matches EventView::Pull(pull) ==> {
                &&& after == pulls.push(pull)
                &&& action == (ActionView::Finish {
                    message: Some(
                        match pull.html_url {
                            Some(url) => "Created PR from "@ + target + " <- "@ + branch + ": "@
                                + url,
                            None => "Created PR from "@ + target + " <- "@ + branch,
                        },
                    ),
                })
            }
            &&& event !is Pull ==> {
                &&& after == pulls
                &&& action == (ActionView::Abort {
                    context: Some("failed to create PR from "@ + target + " <- "@ + branch),
                })
            }
        }),
{
    assert("failed to create PR from "@ + arrow(target, branch) =~= "failed to create PR from "@
        + target + " <- "@ + branch);
    match event {
        EventView::Pull(pull) => match pull.html_url {
            Some(url) => {
                assert(created_text(target, branch, pull.html_url) =~= "Created PR from "@ + target
                    + " <- "@ + branch + ": "@ + url);
            },
            None => {
                assert(created_text(target, branch, pull.html_url) =~= "Created PR from "@ + target
                    + " <- "@ + branch);
            },
        },
        _ => {},
    }
}

/// A flow that is over stays over and changes nothing.
pub proof fn law_finished(
    target: Seq<char>,
    branch: Seq<char>,
    event: EventView,
    pulls: Seq<PullView>,
)
    ensures
        (FlowView { target, branch, stage: StageView::Finished }).step(event, pulls) == (
            FlowView { target, branch, stage: StageView::Finished },
            ActionView::Abort { context: None },
            pulls,
        ),
{
}

/// What is looked at in an action is all that it holds.
pub proof fn law_action_views(
    number: u64,
    a: String,
    b: String,
    c: String,
    d: Option<String>,
    flag: bool,
    command: Command,
    error: SyncError,
)
    ensures
        (PrAction::UpdateBase { number, base: a, notice: b })@ == (ActionView::UpdateBase {
            number,
            base: a@,
            notice: b@,
        }),
        PrAction::Preview(command)@ == ActionView::Preview(command@),
        (PrAction::Confirm { prompt: a, default: flag })@ == (ActionView::Confirm {
            prompt: a@,
            default: flag,
        }),
        PrAction::Run(command)@ == ActionView::Run(command@),
        (PrAction::ReadTemplate { path: a })@ == (ActionView::ReadTemplate { path: a@ }),
        (PrAction::Edit { text: a })@ == (ActionView::Edit { text: a@ }),
        (PrAction::CreatePull { title: a, head: b, base: c, body: d, draft: flag })@ == (
        ActionView::CreatePull {
            title: a@,
            head: b@,
            base: c@,
            body: match d {
                Some(d) => Some(d@),
                None => None,
            },
            draft: flag,
        }),
        (PrAction::Finish { message: d })@ == (ActionView::Finish {
            message: match d {
                Some(d) => Some(d@),
                None => None,
            },
        }),
        (PrAction::Abort { context: d })@ == (ActionView::Abort {
            context: match d {
                Some(d) => Some(d@),
                None => None,
            },
        }),
        PrAction::Reject(error)@ == ActionView::Reject(error@),
{
}

/// What is looked at in an event is all that it holds.
pub proof fn law_event_views(text: String, edited: Option<String>, yes: bool, pull: PullRequestInfo)
    ensures
        PrEvent::Output(text)@ == EventView::Output(text@),
        PrEvent::Answer(yes)@ == EventView::Answer(yes),
        PrEvent::Template(text)@ == EventView::Template(text@),
        PrEvent::Edited(edited)@ == EventView::Edited(
            match edited {
                Some(text) => Some(text@),
                None => None,
            },
        ),
        PrEvent::Pull(pull)@ == EventView::Pull(pull@),
        PrEvent::Done@ == EventView::Done,
        PrEvent::Failed@ == EventView::Failed,
{
}

/// Only a flow that is about to replace a pull request asks for anything of the list: that it holds the
/// place of that one.
pub proof fn law_fits(
    target: Seq<char>,
    branch: Seq<char>,
    index: int,
    failure: Seq<char>,
    stage: StageView,
    count: nat,
)
    ensures
        (FlowView { target, branch, stage: StageView::Retargeting { index, failure } }).fits(count)
            <==> 0 <= index < count,
        stage !is Retargeting ==> (FlowView { target, branch, stage }).fits(count),
{
}

} // verus!
