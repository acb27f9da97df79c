//! The comment about its stack that ends the description of a pull request.

use vstd::prelude::*;

use crate::error::{ErrorView, SyncError};
use crate::github::{find_pull, lemma_pull_from, pull_from, pull_views, PullRequestInfo, PullView};
use crate::graph::{slice_views, Graph, GraphView};
use crate::stack::VisitView;
use crate::text::{
    decimal, has_text, join_before, joined, law_joined_lines, law_lines_append,
    law_lines_are_single, law_lines_before, law_lines_before_cut, lemma_one_line,
    lemma_until_text, lemma_until_text_meaning, lines, lines_before, plain_line, push_decimal,
    same_text, stands_at, text_lines, views,
};

verus! {

/// What the first line of a comment is known by.
pub const ID: &'static str = "e39f85cc-4589-41f7-9bae-d491c1ee2eda";

/// One line of the list in a comment: a branch, and how far it is indented.
#[derive(Debug, Clone)]
pub struct CommentLine {
    pub branch: String,
    pub indent: usize,
}

/// What a line of the list says.
pub struct LineView {
    pub branch: Seq<char>,
    pub indent: nat,
}

impl View for CommentLine {
    type V = LineView;

    open spec fn view(&self) -> LineView {
        LineView { branch: self.branch@, indent: self.indent as nat }
    }
}

/// What each line of a list says.
pub open spec fn line_views(lines: Seq<CommentLine>) -> Seq<LineView> {
    lines.map_values(|l: CommentLine| l@)
}

/// A row of spaces.
pub open spec fn spaces(n: nat) -> Seq<char> {
    Seq::new(n, |i: int| ' ')
}

/// A line of the list in words: a link to the first pull request from the branch, and a pointer if
/// that is the pull request which the comment is in. There is no line where that pull request, its
/// title or its link is missing.
pub open spec fn line_text(line: LineView, head_branch: Seq<char>, pulls: Seq<PullView>) -> Result<
    Seq<char>,
    ErrorView,
> {
    let i = pull_from(pulls, line.branch);
    let missing = ErrorView::PullNotFound { branch: line.branch };
    if i < pulls.len() {
        match (pulls[i as int].html_url, pulls[i as int].title) {
            (Some(url), Some(title)) => Ok(
                spaces(line.indent) + "- ["@ + title + "]("@ + url + ")"@ + if head_branch
                    == line.branch {
                    " 👈 you are here"@
                } else {
                    Seq::empty()
                },
            ),
            _ => Err(missing),
        }
    } else {
        Err(missing)
    }
}

impl CommentLine {
    /// Appends the line in words.
    pub fn format(&self, head_branch: &str, pulls: &[PullRequestInfo], out: &mut String) -> (done:
        Result<(), SyncError>)
        ensures
            match (done, line_text(self@, head_branch@, pull_views(pulls@))) {
                (Ok(_), Ok(text)) => final(out)@ == old(out)@ + text,
                (Err(e), Err(error)) => e@ == error && final(out)@ == old(out)@,
                _ => false,
            },
    {
        let ghost views = pull_views(pulls@);
        if let Some(i) = find_pull(pulls, self.branch.as_str()) {
            let pull = &pulls[i];
            assert(views[i as int] == pull@);
            if let (Some(url), Some(title)) = (&pull.html_url, &pull.title) {
                let ghost start = out@;
                let mut n: usize = 0;
                assert(out@ =~= start + spaces(0));
                while n < self.indent
                    invariant
                        n <= self.indent,
                        out@ == start + spaces(n as nat),
                    decreases self.indent - n,
                {
                    out.push(' ');
                    n += 1;
                    assert(out@ =~= start + spaces(n as nat));
                }
                out.append("- [");
                out.append(title.as_str());
                out.append("](");
                out.append(url.as_str());
                out.append(")");
                if same_text(head_branch, self.branch.as_str()) {
                    out.append(" 👈 you are here");
                }
                proof {
                    let text = line_text(self@, head_branch@, views)->Ok_0;
                    assert(out@ =~= start + text);
                }
                return Ok(());
            }
        }
        Err(SyncError::PullNotFound { branch: self.branch.clone() })
    }
}

/// What a comment starts with, up to its list.
pub open spec fn comment_head() -> Seq<char> {
    "<!-- jj-sync-prs: "@ + ID@ + " -->\n---\n> [!NOTE]\n> This pull request is part of a stack:\n"@
}

/// The list in a comment.
pub open spec fn comment_list(
    head_branch: Seq<char>,
    lines: Seq<LineView>,
    pulls: Seq<PullView>,
) -> Result<Seq<char>, ErrorView>
    decreases lines.len(),
{
    if lines.len() == 0 {
        Ok(Seq::empty())
    } else {
        match (
            comment_list(head_branch, lines.drop_last(), pulls),
            line_text(lines.last(), head_branch, pulls),
        ) {
            (Err(e), _) => Err(e),
            (Ok(_), Err(e)) => Err(e),
            (Ok(list), Ok(text)) => Ok(list + "> "@ + text + "\n"@),
        }
    }
}

/// A comment, or the error of the first line of its list that cannot be written.
pub open spec fn comment_text(
    head_branch: Seq<char>,
    lines: Seq<LineView>,
    pulls: Seq<PullView>,
) -> Result<Seq<char>, ErrorView> {
    match comment_list(head_branch, lines, pulls) {
        Ok(list) => Ok(comment_head() + list + ">\n>\n"@),
        Err(e) => Err(e),
    }
}

proof fn lemma_list_stuck(
    head_branch: Seq<char>,
    lines: Seq<LineView>,
    pulls: Seq<PullView>,
    n: int,
)
    requires
        0 <= n <= lines.len(),
        comment_list(head_branch, lines.take(n), pulls) is Err,
    ensures
        comment_list(head_branch, lines, pulls) == comment_list(head_branch, lines.take(n), pulls),
    decreases lines.len() - n,
{
    if n < lines.len() {
        assert(lines.take(n + 1).drop_last() =~= lines.take(n));
        lemma_list_stuck(head_branch, lines, pulls, n + 1);
    } else {
        assert(lines.take(n) =~= lines);
    }
}

/// Writes the comment for the pull request from a branch.
pub fn finalize_comment(
    branch: &str,
    comment_lines: &[CommentLine],
    pulls: &[PullRequestInfo],
) -> (out: Result<String, SyncError>)
    ensures
        match (out, comment_text(branch@, line_views(comment_lines@), pull_views(pulls@))) {
            (Ok(comment), Ok(text)) => comment@ == text,
            (Err(e), Err(error)) => e@ == error,
            _ => false,
        },
{
    let mut comment = String::new();
    comment.append("<!-- jj-sync-prs: ");
    comment.append(ID);
    comment.append(
        " -->\n---\n> [!NOTE]\n> This pull request is part of a stack:\n",
    );
    let ghost views = line_views(comment_lines@);
    let ghost all = pull_views(pulls@);
    assert(comment@ =~= comment_head());
    assert(views.take(0) =~= Seq::empty());
    let mut i: usize = 0;
    while i < comment_lines.len()
        invariant
            views == line_views(comment_lines@),
            all == pull_views(pulls@),
            i <= comment_lines@.len(),
            comment_list(branch@, views.take(i as int), all) is Ok,
            comment@ == comment_head() + comment_list(branch@, views.take(i as int), all)->Ok_0,
        decreases comment_lines.len() - i,
    {
        let ghost upto = views.take(i + 1);
        assert(upto.drop_last() =~= views.take(i as int));
        assert(upto.last() == comment_lines@[i as int]@);
        comment.append("> ");
        match comment_lines[i].format(branch, pulls, &mut comment) {
            Ok(_) => {},
            Err(e) => {
                proof {
                    lemma_list_stuck(branch@, views, all, i + 1);
                }
                return Err(e);
            },
        }
        comment.append("\n");
        assert(comment@ =~= comment_head() + comment_list(branch@, upto, all)->Ok_0);
        i += 1;
    }
    assert(views.take(i as int) =~= views);
    comment.append(">\n>\n");
    Ok(comment)
}

/// What a description says before the comment that it was given earlier: its lines up to the first
/// one that holds the mark of a comment.
pub open spec fn kept_text(body: Seq<char>) -> Seq<char> {
    joined(lines_before(text_lines(body), ID@))
}

/// A description with a comment at its end, in place of the one that it may have had.
pub open spec fn body_with_comment(body: Option<Seq<char>>, comment: Seq<char>) -> Seq<char> {
    match body {
        Some(body) => kept_text(body) + "\n\n"@ + comment,
        None => comment,
    }
}

/// The description that a pull request is to be given.
#[derive(Debug)]
pub struct IssueUpdate {
    pub number: u64,
    pub body: String,
}

/// What an update says.
pub struct UpdateView {
    pub number: u64,
    pub body: Seq<char>,
}

impl View for IssueUpdate {
    type V = UpdateView;

    open spec fn view(&self) -> UpdateView {
        UpdateView { number: self.number, body: self.body@ }
    }
}

impl UpdateView {
    /// What is said if the update fails.
    pub open spec fn failure(self) -> Seq<char> {
        "failed to update comment on #"@ + decimal(self.number as nat)
    }
}

impl IssueUpdate {
    /// What is said if the update fails.
    pub fn failure(&self) -> (out: String)
        ensures
            out@ == self@.failure(),
    {
        let mut out = "failed to update comment on #".to_owned();
        push_decimal(&mut out, self.number);
        out
    }
}

/// The update that puts the comment into the description of the first pull request from a branch.
pub open spec fn comment_update(
    lines: Seq<LineView>,
    branch: Seq<char>,
    pulls: Seq<PullView>,
) -> Result<UpdateView, ErrorView> {
    let i = pull_from(pulls, branch);
    if i >= pulls.len() {
        Err(ErrorView::PullNotFound { branch })
    } else {
        match comment_text(branch, lines, pulls) {
            Ok(comment) => Ok(
                UpdateView {
                    number: pulls[i as int].number,
                    body: body_with_comment(pulls[i as int].body, comment),
                },
            ),
            Err(ErrorView::PullNotFound { branch: named }) => Err(
                ErrorView::FinalizeComment { branch: named },
            ),
            Err(e) => Err(e),
        }
    }
}

/// What the outcome for one pull request says.
pub open spec fn outcome_view(out: Result<IssueUpdate, SyncError>) -> Result<UpdateView, ErrorView> {
    match out {
        Ok(update) => Ok(update@),
        Err(error) => Err(error@),
    }
}

/// Works out the new description of the pull request from a branch.
pub fn create_or_update_comment(
    comment_lines: &[CommentLine],
    branch: &str,
    pulls: &[PullRequestInfo],
) -> (out: Result<IssueUpdate, SyncError>)
    ensures
        outcome_view(out) == comment_update(
            line_views(comment_lines@),
            branch@,
            pull_views(pulls@),
        ),
{
    let i = match find_pull(pulls, branch) {
        Some(i) => i,
        None => {
            return Err(SyncError::PullNotFound { branch: branch.to_owned() });
        },
    };
    assert(pull_views(pulls@)[i as int] == pulls@[i as int]@);
    let pull = &pulls[i];
    let comment = match finalize_comment(branch, comment_lines, pulls) {
        Ok(comment) => comment,
        Err(SyncError::PullNotFound { branch: named }) => {
            return Err(SyncError::FinalizeComment { branch: named });
        },
        Err(e) => {
            return Err(e);
        },
    };
    let body = match &pull.body {
        Some(body) => {
            let body_lines = lines(body.as_str());
            assert(views(body_lines@).skip(0) =~= views(body_lines@));
            join_before(&body_lines, 0, ID).concat("\n\n").concat(comment.as_str())
        },
        None => comment,
    };
    Ok(IssueUpdate { number: pull.number, body })
}

/// The first line of every comment.
pub open spec fn mark_line() -> Seq<char> {
    "<!-- jj-sync-prs: "@ + ID@ + " -->"@
}

proof fn lemma_mark()
    ensures
        plain_line(mark_line()),
        has_text(mark_line(), ID@),
        !has_text(Seq::empty(), ID@),
        comment_head() == mark_line().push('\n')
            + "---\n> [!NOTE]\n> This pull request is part of a stack:\n"@,
{
    reveal_strlit("<!-- jj-sync-prs: ");
    reveal_strlit("e39f85cc-4589-41f7-9bae-d491c1ee2eda");
    reveal_strlit(" -->");
    reveal_strlit(" -->\n---\n> [!NOTE]\n> This pull request is part of a stack:\n");
    reveal_strlit("---\n> [!NOTE]\n> This pull request is part of a stack:\n");
    let line = mark_line();
    let start = "<!-- jj-sync-prs: "@.len() as int;
    assert(line.subrange(start, start + ID@.len()) =~= ID@);
    assert(stands_at(line, ID@, start));
    assert(comment_head() =~= line.push('\n')
        + "---\n> [!NOTE]\n> This pull request is part of a stack:\n"@);
    assert forall|i: int| 0 <= i < line.len() implies line[i] != '\n' by {
        if i >= start + ID@.len() {
            assert(line[i] == " -->"@[i - start - ID@.len()]);
        } else if i >= start {
            assert(line[i] == ID@[i - start]);
        }
    }
}

/// The lines of a text that starts with a comment: the mark comes first.
proof fn lemma_comment_lines(rest: Seq<char>)
    ensures
        text_lines(comment_head() + rest) == seq![mark_line()] + text_lines(
            "---\n> [!NOTE]\n> This pull request is part of a stack:\n"@ + rest,
        ),
{
    lemma_mark();
    let more = "---\n> [!NOTE]\n> This pull request is part of a stack:\n"@ + rest;
    assert(comment_head() + rest =~= mark_line().push('\n') + more);
    law_lines_append(mark_line().push('\n'), more);
    lemma_one_line(mark_line());
}

/// Every comment starts with the head that it is known by.
pub proof fn law_comment_is_marked(
    head_branch: Seq<char>,
    lines: Seq<LineView>,
    pulls: Seq<PullView>,
)
    ensures
        comment_text(head_branch, lines, pulls) matches Ok(text) ==> comment_head().is_prefix_of(
            text,
        ),
{
}

/// A comment can be written exactly if every line of its list can.
pub proof fn law_comment_needs_every_line(
    head_branch: Seq<char>,
    lines: Seq<LineView>,
    pulls: Seq<PullView>,
)
    ensures
        comment_text(head_branch, lines, pulls) is Ok <==> forall|k: int|
            0 <= k < lines.len() ==> line_text(#[trigger] lines[k], head_branch, pulls) is Ok,
    decreases lines.len(),
{
    if lines.len() > 0 {
        let front = lines.drop_last();
        law_comment_needs_every_line(head_branch, front, pulls);
        if comment_text(head_branch, lines, pulls) is Ok {
            assert forall|k: int| 0 <= k < lines.len() implies line_text(
                #[trigger] lines[k],
                head_branch,
                pulls,
            ) is Ok by {
                if k < front.len() {
                    assert(front[k] == lines[k]);
                }
            }
        } else if forall|k: int|
            0 <= k < lines.len() ==> line_text(#[trigger] lines[k], head_branch, pulls) is Ok {
            assert forall|k: int| 0 <= k < front.len() implies line_text(
                #[trigger] front[k],
                head_branch,
                pulls,
            ) is Ok by {
                assert(front[k] == lines[k]);
            }
            assert(line_text(lines[lines.len() - 1], head_branch, pulls) is Ok);
        }
    }
}

/// A description in which no line holds the mark is kept line by line.
pub proof fn law_own_text_is_kept(body: Seq<char>)
    requires
        forall|k: int|
            0 <= k < text_lines(body).len() ==> !has_text(#[trigger] text_lines(body)[k], ID@),
    ensures
        kept_text(body) == joined(text_lines(body)),
{
    let rows = text_lines(body);
    lemma_until_text(rows, ID@, rows.len() as int);
    assert(rows.take(rows.len() as int) =~= rows);
}

/// A comment that a description was given is gone from it when it is given the next one. What was kept
/// before is kept again, with one line feed more.
pub proof fn law_comment_is_replaced(body: Seq<char>, comment: Seq<char>, next: Seq<char>)
    requires
        comment_head().is_prefix_of(comment),
        forall|k: int|
            0 <= k < lines_before(text_lines(body), ID@).len() ==> {
                let line = #[trigger] lines_before(text_lines(body), ID@)[k];
                line.len() > 0 ==> line.last() != '\r'
            },
    ensures
        kept_text(body_with_comment(Some(body), comment)) == kept_text(body) + "\n"@,
        body_with_comment(Some(body_with_comment(Some(body), comment)), next) == kept_text(body)
            + "\n"@ + "\n\n"@ + next,
{
    let rest = comment.skip(comment_head().len() as int);
    assert(comment =~= comment_head() + rest);
    reveal_strlit("\n");
    reveal_strlit("\n\n");
    lemma_mark();
    lemma_comment_lines(rest);
    let kept = lines_before(text_lines(body), ID@);
    lemma_until_text_meaning(text_lines(body), ID@);
    law_lines_are_single(body);
    let blank = Seq::<char>::empty();
    let text = body_with_comment(Some(body), comment);
    let tail = blank.push('\n') + comment;
    let rows = if kept.len() == 0 {
        seq![blank]
    } else {
        kept
    };
    assert(joined(rows) =~= joined(kept));
    assert(plain_line(blank));
    assert forall|k: int| 0 <= k < rows.len() implies plain_line(#[trigger] rows[k]) by {
        if kept.len() > 0 {
            assert(kept[k] == text_lines(body)[k]);
        }
    }
    law_joined_lines(rows);
    let front = joined(rows).push('\n');
    assert(text =~= front + tail);
    law_lines_append(front, tail);
    law_lines_append(blank.push('\n'), comment);
    lemma_one_line(blank);
    let back = text_lines("---\n> [!NOTE]\n> This pull request is part of a stack:\n"@ + rest);
    let again = rows.push(blank);
    assert(text_lines(text) =~= again + seq![mark_line()] + back);
    law_lines_before_cut(again, mark_line(), back, ID@);
    assert forall|i: int| 0 <= i < again.len() implies !has_text(#[trigger] again[i], ID@) by {
        if i < kept.len() {
            assert(again[i] == text_lines(body)[i]);
        }
    }
    lemma_until_text(again, ID@, again.len() as int);
    assert(again.take(again.len() as int) =~= again);
    assert(again.drop_last() =~= rows);
    assert(joined(again) =~= joined(rows) + "\n"@);
}

/// Of a description that was nothing but a comment, nothing is kept.
pub proof fn law_bare_comment_is_replaced(comment: Seq<char>)
    requires
        comment_head().is_prefix_of(comment),
    ensures
        kept_text(body_with_comment(None, comment)) == Seq::<char>::empty(),
{
    let rest = comment.skip(comment_head().len() as int);
    assert(comment =~= comment_head() + rest);
    lemma_mark();
    lemma_comment_lines(rest);
    let rows = text_lines(comment);
    lemma_until_text(rows, ID@, 0);
    assert(rows.take(0) =~= Seq::empty());
}

impl GraphView {
    /// The list for the stack on a branch.
    pub open spec fn stack_lines(self, branch: Seq<char>, indent: nat) -> Seq<LineView> {
        self.stack(branch, branch, indent).map_values(
            |v: VisitView| LineView { branch: v.branch, indent: v.indent },
        )
    }

    /// The lists for several stacks, one after the other.
    pub open spec fn stacks_lines(self, branches: Seq<Seq<char>>, indent: nat) -> Seq<LineView>
        decreases branches.len(),
    {
        if branches.len() == 0 {
            Seq::empty()
        } else {
            self.stacks_lines(branches.drop_last(), indent) + self.stack_lines(
                branches.last(),
                indent,
            )
        }
    }

    /// The list of a stack does not depend on what the bottom of the stack is stacked on.
    pub proof fn law_lines_of_stack(self, branch: Seq<char>, target: Seq<char>, indent: nat)
        requires
            self.ends(branch),
        ensures
            self.stack(branch, target, indent).map_values(
                |v: VisitView| LineView { branch: v.branch, indent: v.indent },
            ) == self.stack_lines(branch, indent),
    {
        let line = |v: VisitView| LineView { branch: v.branch, indent: v.indent };
        self.law_stack_unfolds(branch, target, indent);
        self.law_stack_unfolds(branch, branch, indent);
        assert(self.stack(branch, target, indent).map_values(line) =~= self.stack_lines(
            branch,
            indent,
        ));
    }

    proof fn lemma_lines_of_stacks(
        self,
        branches: Seq<Seq<char>>,
        target: Seq<char>,
        indent: nat,
    )
        requires
            forall|k: int| 0 <= k < branches.len() ==> self.ends(#[trigger] branches[k]),
        ensures
            self.stacks(branches, target, indent).map_values(
                |v: VisitView| LineView { branch: v.branch, indent: v.indent },
            ) == self.stacks_lines(branches, indent),
        decreases branches.len(),
    {
        let line = |v: VisitView| LineView { branch: v.branch, indent: v.indent };
        if branches.len() > 0 {
            self.lemma_lines_of_stacks(branches.drop_last(), target, indent);
            self.law_lines_of_stack(branches.last(), target, indent);
            assert(self.stacks(branches, target, indent).map_values(line) =~= self.stacks(
                branches.drop_last(),
                target,
                indent,
            ).map_values(line) + self.stack(branches.last(), target, indent).map_values(line));
        } else {
            assert(self.stacks(branches, target, indent).map_values(line) =~= Seq::empty());
        }
    }

    /// The list for a stack is a line for the branch, then the lists for the stacks on its children,
    /// two further in.
    pub proof fn law_stack_lines_unfold(self, branch: Seq<char>, indent: nat)
        requires
            self.ends(branch),
        ensures
            self.stack_lines(branch, indent) == seq![LineView { branch, indent }]
                + self.stacks_lines(self.children(branch), indent + 2),
    {
        self.law_stack_unfolds(branch, branch, indent);
        self.lemma_children_end(branch);
        self.lemma_lines_of_stacks(self.children(branch), branch, indent + 2);
        assert(self.stack_lines(branch, indent) =~= seq![LineView { branch, indent }]
            + self.stacks_lines(self.children(branch), indent + 2));
    }
}

/// Appends the list for the stack on a branch: the branch, then what is stacked on it, two further in.
pub fn write_pr_comment(graph: &Graph, branch: &str, indent: usize, out: &mut Vec<CommentLine>)
    requires
        graph.wf(),
        graph@.ends(branch@),
        indent + 2 * (graph@.height(branch@) - 1) <= usize::MAX,
    ensures
        line_views(final(out)@) == line_views(old(out)@) + graph@.stack_lines(
            branch@,
            indent as nat,
        ),
    decreases graph@.height(branch@),
{
    let ghost start = line_views(out@);
    let ghost first = seq![LineView { branch: branch@, indent: indent as nat }];
    proof {
        graph@.lemma_height(branch@);
        graph@.lemma_children_end(branch@);
        graph@.law_stack_lines_unfold(branch@, indent as nat);
    }
    out.push(CommentLine { branch: branch.to_owned(), indent });
    let children = graph.iter_edges_from(branch);
    let ghost names = graph@.children(branch@);
    assert(line_views(out@) =~= start + first + graph@.stacks_lines(
        names.take(0),
        (indent + 2) as nat,
    ));
    let mut k: usize = 0;
    while k < children.len()
        invariant
            graph.wf(),
            k <= children@.len(),
            slice_views(children@) == names,
            forall|k: int|
                0 <= k < names.len() ==> {
                    &&& graph@.ends(#[trigger] names[k])
                    &&& graph@.height(names[k]) < graph@.height(branch@)
                },
            indent + 2 * (graph@.height(branch@) - 1) <= usize::MAX,
            line_views(out@) == start + first + graph@.stacks_lines(
                names.take(k as int),
                (indent + 2) as nat,
            ),
        decreases children.len() - k,
    {
        let child = children[k];
        assert(names[k as int] == child@);
        proof {
            graph@.lemma_height(child@);
        }
        write_pr_comment(graph, child, indent + 2, out);
        proof {
            let upto = names.take(k + 1);
            assert(upto.drop_last() =~= names.take(k as int));
            assert(line_views(out@) =~= start + first + graph@.stacks_lines(
                upto,
                (indent + 2) as nat,
            ));
        }
        k += 1;
    }
    assert(names.take(k as int) =~= names);
    assert(line_views(out@) =~= start + (first + graph@.stacks_lines(names, (indent + 2) as nat)));
}

// What lines, comments and descriptions amount to.

/// A line of the list is the indentation, a dash, the title of the first pull request from the branch
/// and its link; the pull request that the comment is in is pointed at.
pub proof fn law_line_text(
    line: LineView,
    head_branch: Seq<char>,
    pulls: Seq<PullView>,
    i: int,
    title: Seq<char>,
    url: Seq<char>,
)
    requires
        0 <= i < pulls.len(),
        pulls[i].head_branch == line.branch,
        forall|k: int| 0 <= k < i ==> (#[trigger] pulls[k]).head_branch != line.branch,
        pulls[i].title == Some(title),
        pulls[i].html_url == Some(url),
    ensures
        ({
            let link = Seq::new(line.indent, |k: int| ' ') + "- ["@ + title + "]("@ + url + ")"@;
            line_text(line, head_branch, pulls) == Ok::<Seq<char>, ErrorView>(
                if head_branch == line.branch {
                    link + " 👈 you are here"@
                } else {
                    link
                },
            )
        }),
{
    lemma_pull_from(pulls, line.branch, i);
    let link = Seq::new(line.indent, |k: int| ' ') + "- ["@ + title + "]("@ + url + ")"@;
    assert(spaces(line.indent) =~= Seq::new(line.indent, |k: int| ' '));
    assert(link + Seq::empty() =~= link);
}

/// A line cannot be written without a pull request from its branch, nor if the first one has no title
/// or no link; the branch is named then.
pub proof fn law_line_missing(line: LineView, head_branch: Seq<char>, pulls: Seq<PullView>, i: int)
    requires
        0 <= i <= pulls.len(),
        forall|k: int| 0 <= k < i ==> (#[trigger] pulls[k]).head_branch != line.branch,
        i < pulls.len() ==> {
            &&& pulls[i].head_branch == line.branch
            &&& pulls[i].title is None || pulls[i].html_url is None
        },
    ensures
        line_text(line, head_branch, pulls) == Err::<Seq<char>, ErrorView>(
            ErrorView::PullNotFound { branch: line.branch },
        ),
{
    lemma_pull_from(pulls, line.branch, i);
}

/// A comment without a list.
pub proof fn law_empty_comment(head_branch: Seq<char>, pulls: Seq<PullView>)
    ensures
        comment_text(head_branch, Seq::empty(), pulls) == Ok::<Seq<char>, ErrorView>(
            "<!-- jj-sync-prs: e39f85cc-4589-41f7-9bae-d491c1ee2eda -->\n---\n> [!NOTE]\n> This pull request is part of a stack:\n>\n>\n"@,
        ),
{
    reveal_strlit("<!-- jj-sync-prs: ");
    reveal_strlit("e39f85cc-4589-41f7-9bae-d491c1ee2eda");
    reveal_strlit(" -->\n---\n> [!NOTE]\n> This pull request is part of a stack:\n");
    reveal_strlit(">\n>\n");
    reveal_strlit(
        "<!-- jj-sync-prs: e39f85cc-4589-41f7-9bae-d491c1ee2eda -->\n---\n> [!NOTE]\n> This pull request is part of a stack:\n>\n>\n",
    );
    assert(comment_head() + Seq::empty() + ">\n>\n"@
        =~= "<!-- jj-sync-prs: e39f85cc-4589-41f7-9bae-d491c1ee2eda -->\n---\n> [!NOTE]\n> This pull request is part of a stack:\n>\n>\n"@);
}

/// A comment with one line more in its list has that line before its end, and is otherwise the same.
/// The first line that cannot be written is what is wrong with a comment.
pub proof fn law_comment_grows(
    head_branch: Seq<char>,
    lines: Seq<LineView>,
    line: LineView,
    pulls: Seq<PullView>,
    front: Seq<char>,
)
    ensures
        comment_text(head_branch, lines, pulls) == Ok::<Seq<char>, ErrorView>(front + ">\n>\n"@)
            ==> match line_text(line, head_branch, pulls) {
            Ok(text) => comment_text(head_branch, lines.push(line), pulls) == Ok::<
                Seq<char>,
                ErrorView,
            >(front + "> "@ + text + "\n"@ + ">\n>\n"@),
            Err(e) => comment_text(head_branch, lines.push(line), pulls) == Err::<
                Seq<char>,
                ErrorView,
            >(e),
        },
        comment_text(head_branch, lines, pulls) matches Err(e) ==> comment_text(
            head_branch,
            lines.push(line),
            pulls,
        ) == Err::<Seq<char>, ErrorView>(e),
{
    let more = lines.push(line);
    assert(more.drop_last() =~= lines);
    if comment_text(head_branch, lines, pulls) == Ok::<Seq<char>, ErrorView>(front + ">\n>\n"@) {
        let list = comment_list(head_branch, lines, pulls)->Ok_0;
        let end = ">\n>\n"@;
        let whole = comment_head() + list + end;
        assert(whole == front + end);
        assert(front =~= whole.take(front.len() as int));
        assert(comment_head() + list =~= whole.take((comment_head() + list).len() as int));
        assert(front == comment_head() + list);
        match line_text(line, head_branch, pulls) {
            Ok(text) => {
                assert(comment_head() + (list + "> "@ + text + "\n"@) + end =~= front + "> "@ + text
                    + "\n"@ + end);
            },
            Err(_) => {},
        }
    }
}

/// What is kept of a description are its lines before the first one that holds the mark.
pub proof fn law_kept_text(body: Seq<char>, kept: Seq<Seq<char>>, rest: Seq<Seq<char>>)
    requires
        text_lines(body) == kept + rest,
        forall|k: int|
            0 <= k < kept.len() ==> !has_text(
                #[trigger] kept[k],
                "e39f85cc-4589-41f7-9bae-d491c1ee2eda"@,
            ),
        rest.len() > 0 ==> has_text(rest[0], "e39f85cc-4589-41f7-9bae-d491c1ee2eda"@),
    ensures
        kept_text(body) == joined(kept),
{
    law_lines_before(kept, rest, ID@);
}

/// A comment comes behind what is kept of a description, after an empty line, or alone if there was no
/// description.
pub proof fn law_body_with_comment(body: Seq<char>, comment: Seq<char>)
    ensures
        body_with_comment(Some(body), comment) == kept_text(body) + "\n\n"@ + comment,
        body_with_comment(None, comment) == comment,
{
}

/// The first pull request from a branch is the one whose description is updated, with the comment about
/// it behind what is kept. Without such a pull request, or without the comment, there is no update but
/// an error that names the branch which is missing.
pub proof fn law_comment_update(
    lines: Seq<LineView>,
    branch: Seq<char>,
    pulls: Seq<PullView>,
    i: int,
)
    requires
        0 <= i <= pulls.len(),
        forall|k: int| 0 <= k < i ==> (#[trigger] pulls[k]).head_branch != branch,
        i < pulls.len() ==> pulls[i].head_branch == branch,
    ensures
        i == pulls.len() ==> comment_update(lines, branch, pulls) == Err::<UpdateView, ErrorView>(
            ErrorView::PullNotFound { branch },
        ),
        i < pulls.len() ==> match comment_text(branch, lines, pulls) {
            Ok(comment) => comment_update(lines, branch, pulls) == Ok::<UpdateView, ErrorView>(
                UpdateView {
                    number: pulls[i].number,
                    body: match pulls[i].body {
                        Some(body) => kept_text(body) + "\n\n"@ + comment,
                        None => comment,
                    },
                },
            ),
            Err(ErrorView::PullNotFound { branch: missing }) => comment_update(
                lines,
                branch,
                pulls,
            ) == Err::<UpdateView, ErrorView>(ErrorView::FinalizeComment { branch: missing }),
            Err(_) => false,
        },
{
    lemma_pull_from(pulls, branch, i);
    lemma_only_missing(branch, lines, pulls);
}

/// That nothing but a missing pull request keeps a comment from being written.
proof fn lemma_only_missing(head_branch: Seq<char>, lines: Seq<LineView>, pulls: Seq<PullView>)
    ensures
        comment_list(head_branch, lines, pulls) matches Err(e) ==> e is PullNotFound,
    decreases lines.len(),
{
    if lines.len() > 0 {
        lemma_only_missing(head_branch, lines.drop_last(), pulls);
    }
}

/// What is said if a description could not be updated.
pub proof fn law_update_failure(update: UpdateView)
    ensures
        update.failure() == "failed to update comment on #"@ + decimal(update.number as nat),
{
}

/// What is looked at in a line and in an update is all that they hold.
pub proof fn law_comment_views(line: CommentLine, update: IssueUpdate)
    ensures
        line@.branch == line.branch@,
        line@.indent == line.indent,
        update@.number == update.number,
        update@.body == update.body@,
        outcome_view(Ok(update)) == Ok::<UpdateView, ErrorView>(update@),
{
}

/// What is looked at in a list are all of its lines, in their order, and each as it is.
pub proof fn law_line_views(lines: Seq<CommentLine>, k: int)
    requires
        0 <= k < lines.len(),
    ensures
        line_views(lines).len() == lines.len(),
        line_views(lines)[k].branch == lines[k].branch@,
        line_views(lines)[k].indent == lines[k].indent,
{
}

} // verus!
