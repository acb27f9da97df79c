//! The title and the description of a new pull request: the text that is put into the editor, and
//! what is read from it afterwards.

use vstd::prelude::*;

use crate::error::{ErrorView, SyncError};
use crate::text::{
    blank, has_text, is_blank, is_whitespace, join, join_before, joined, law_blank,
    law_line_between, law_lines_append, law_lines_before, law_lines_before_cut, law_lines_joined,
    law_not_blank, lemma_lines_stand, lemma_one_line, lemma_stands_within, lemma_until_text,
    lines, lines_before, no_returns, option_view, plain_line, stands_at, text_lines, trimmed,
    views, CharClass,
};

verus! {

/// What the line says from which on the text in the editor is ignored.
pub const IGNORED_MARKER: &'static str = "Everything below this line will be ignored";

/// What is known about a new pull request before its text is edited.
#[derive(Debug)]
pub struct GetPrTitleAndBody {
    pub title: Option<String>,
    pub message: Option<String>,
    pub additional: Option<String>,
    pub diff: Option<String>,
    pub log: String,
}

/// What a draft says.
pub struct DraftView {
    pub title: Option<Seq<char>>,
    pub message: Option<Seq<char>>,
    pub additional: Option<Seq<char>>,
    pub diff: Option<Seq<char>>,
    pub log: Seq<char>,
}

impl View for GetPrTitleAndBody {
    type V = DraftView;

    open spec fn view(&self) -> DraftView {
        DraftView {
            title: option_view(self.title),
            message: option_view(self.message),
            additional: option_view(self.additional),
            diff: option_view(self.diff),
            log: self.log@,
        }
    }
}

/// The first line of a list, if it has one.
pub open spec fn first_line(lines: Seq<Seq<char>>) -> Option<Seq<char>> {
    if lines.len() > 0 {
        Some(lines[0])
    } else {
        None
    }
}

/// The lines after the first one.
pub open spec fn other_lines(lines: Seq<Seq<char>>) -> Seq<Seq<char>> {
    if lines.len() > 0 {
        lines.drop_first()
    } else {
        lines
    }
}

/// The draft for a number of changes with their descriptions, the repository's template, the
/// difference and the log. One change gives the pull request its title, and its message too if
/// there is no template; the descriptions that are used for neither are shown for reading only.
pub open spec fn draft(
    count: int,
    descriptions: Seq<char>,
    template: Option<Seq<char>>,
    diff: Seq<char>,
    log: Seq<char>,
) -> DraftView {
    let described = text_lines(descriptions);
    let title = if count == 1 {
        first_line(described)
    } else {
        None
    };
    let rest = if count == 1 {
        joined(other_lines(described))
    } else {
        joined(described)
    };
    DraftView {
        title,
        message: match template {
            Some(template) => Some(template),
            None => if count == 1 {
                Some(rest)
            } else {
                None
            },
        },
        additional: match template {
            Some(_) => Some(rest),
            None => if count == 1 {
                None
            } else {
                Some(descriptions)
            },
        },
        diff: if is_blank(diff) {
            None
        } else {
            Some(diff)
        },
        log,
    }
}

/// A part of the text in the editor with what follows it, or nothing if there is no such part.
pub open spec fn part(text: Option<Seq<char>>, end: Seq<char>) -> Seq<char> {
    match text {
        Some(text) => text + end,
        None => Seq::empty(),
    }
}

impl DraftView {
    /// The text that is put into the editor.
    pub open spec fn template(self) -> Seq<char> {
        (match self.title {
            Some(title) => title,
            None => "Enter PR title..."@,
        }) + "\n\n"@ + part(self.message, "\n\n"@) + "JJ: "@ + IGNORED_MARKER@ + "\n\n"@ + self.log
            + "\n"@ + part(self.additional, "\n\n"@) + part(self.diff, "\n"@)
    }
}

impl GetPrTitleAndBody {
    /// Puts the draft together.
    pub fn get(
        count: i32,
        descriptions: String,
        template: Option<String>,
        diff: String,
        log: String,
    ) -> (out: GetPrTitleAndBody)
        ensures
            out@ == draft(count as int, descriptions@, option_view(template), diff@, log@),
    {
        let described = lines(descriptions.as_str());
        let ghost rows = views(described@);
        assert(rows.len() == described@.len());
        let one = count == 1;
        let title = if one && described.len() > 0 {
            Some(described[0].clone())
        } else {
            None
        };
        let from: usize = if one && described.len() > 0 {
            1
        } else {
            0
        };
        let rest = join(&described, from, described.len());
        proof {
            assert(rows.subrange(from as int, rows.len() as int) =~= if one {
                other_lines(rows)
            } else {
                rows
            });
        }
        let diff = if blank(diff.as_str()) {
            None
        } else {
            Some(diff)
        };
        match template {
            Some(template) => GetPrTitleAndBody {
                title,
                message: Some(template),
                additional: Some(rest),
                diff,
                log,
            },
            None => {
                if one {
                    GetPrTitleAndBody { title, message: Some(rest), additional: None, diff, log }
                } else {
                    GetPrTitleAndBody {
                        title,
                        message: None,
                        additional: Some(descriptions),
                        diff,
                        log,
                    }
                }
            },
        }
    }

    /// The text that is put into the editor.
    pub fn template(&self) -> (out: String)
        ensures
            out@ == self@.template(),
    {
        let mut out = String::new();
        match &self.title {
            Some(title) => out.append(title.as_str()),
            None => out.append("Enter PR title..."),
        }
        out.append("\n\n");
        let ghost head = out@;
        if let Some(message) = &self.message {
            out.append(message.as_str());
            out.append("\n\n");
        }
        assert(out@ =~= head + part(self@.message, "\n\n"@));
        out.append("JJ: ");
        out.append(IGNORED_MARKER);
        out.append("\n\n");
        out.append(self.log.as_str());
        out.append("\n");
        let ghost body = out@;
        if let Some(additional) = &self.additional {
            out.append(additional.as_str());
            out.append("\n\n");
        }
        assert(out@ =~= body + part(self@.additional, "\n\n"@));
        let ghost more = out@;
        if let Some(diff) = &self.diff {
            out.append(diff.as_str());
            out.append("\n");
        }
        assert(out@ =~= more + part(self@.diff, "\n"@));
        assert(out@ =~= self@.template());
        out
    }
}

/// The title and the description that an edited text gives: its first line, and the lines from the
/// third on up to the one from which on the text is ignored. A blank text gives neither.
pub open spec fn editor_text(text: Seq<char>) -> Result<
    Option<(Seq<char>, Seq<char>)>,
    ErrorView,
> {
    let rows = text_lines(text);
    if is_blank(text) {
        Err(ErrorView::EmptyEditorText)
    } else if rows.len() == 0 {
        Ok(None)
    } else {
        Ok(
            Some(
                (
                    rows[0],
                    joined(
                        lines_before(
                            if rows.len() < 2 {
                                Seq::empty()
                            } else {
                                rows.skip(2)
                            },
                            IGNORED_MARKER@,
                        ),
                    ),
                ),
            ),
        )
    }
}

/// What a title with a description holds.
pub open spec fn pair_view(pair: Option<(String, String)>) -> Option<(Seq<char>, Seq<char>)> {
    match pair {
        Some(pair) => Some((pair.0@, pair.1@)),
        None => None,
    }
}

/// Reads the title and the description from an edited text.
pub fn parse_pr_editor_text(text: &str) -> (out: Result<Option<(String, String)>, SyncError>)
    ensures
        match (out, editor_text(text@)) {
            (Ok(pair), Ok(read)) => pair_view(pair) == read,
            (Err(e), Err(error)) => e@ == error,
            _ => false,
        },
{
    if blank(text) {
        return Err(SyncError::EmptyEditorText);
    }
    let rows = lines(text);
    let ghost all = views(rows@);
    assert(all.len() == rows@.len());
    if rows.len() == 0 {
        return Ok(None);
    }
    let from: usize = if rows.len() < 2 {
        rows.len()
    } else {
        2
    };
    let body = join_before(&rows, from, IGNORED_MARKER);
    proof {
        if all.len() < 2 {
            assert(all.skip(from as int) =~= Seq::empty());
        }
    }
    let title = rows[0].clone();
    Ok(Some((title, body)))
}

/// The line from which on the text in the editor is ignored.
pub open spec fn marker_line() -> Seq<char> {
    "JJ: "@ + IGNORED_MARKER@
}

proof fn lemma_marker_line()
    ensures
        plain_line(marker_line()),
        has_text(marker_line(), IGNORED_MARKER@),
        marker_line().len() > 0,
        marker_line()[0] == 'J',
{
    reveal_strlit("JJ: ");
    reveal_strlit("Everything below this line will be ignored");
    let line = marker_line();
    assert(line.subrange(4, 4 + IGNORED_MARKER@.len() as int) =~= IGNORED_MARKER@);
    assert(stands_at(line, IGNORED_MARKER@, 4));
    assert forall|i: int| 0 <= i < line.len() implies line[i] != '\n' by {
        if i >= 4 {
            assert(line[i] == IGNORED_MARKER@[i - 4]);
        }
    }
}

/// Nothing from the marked line on is read: the title and the description come from the lines above
/// it, of which there are at least two.
#[verifier::spinoff_prover]
pub proof fn law_below_marker_is_ignored(above: Seq<char>, below: Seq<char>)
    requires
        above.len() > 0,
        above.last() == '\n',
        text_lines(above).len() >= 2,
    ensures
        editor_text(above + marker_line() + "\n"@ + below) == Ok::<
            Option<(Seq<char>, Seq<char>)>,
            ErrorView,
        >(
            Some(
                (
                    text_lines(above)[0],
                    joined(lines_before(text_lines(above).skip(2), IGNORED_MARKER@)),
                ),
            ),
        ),
{
    lemma_marker_line();
    reveal_strlit("\n");
    let text = above + marker_line() + "\n"@ + below;
    assert(text =~= above + marker_line().push('\n') + below);
    law_line_between(above, marker_line(), below);
    let top = text_lines(above);
    let tail = text_lines(below);
    assert(text_lines(text).skip(2) =~= top.skip(2) + seq![marker_line()] + tail);
    law_lines_before_cut(top.skip(2), marker_line(), tail, IGNORED_MARKER@);
    assert(!is_blank(text)) by {
        assert(text[above.len() as int] == 'J');
        law_not_blank(text, above.len() as int);
    }
}

/// A draft that is saved as it is gives its title, or the placeholder for one, and its message; the
/// log, the other descriptions and the difference never become part of the pull request.
pub proof fn law_saved_draft(draft: DraftView)
    requires
        draft.title matches Some(title) ==> plain_line(title),
    ensures
        editor_text(draft.template()) == Ok::<Option<(Seq<char>, Seq<char>)>, ErrorView>(
            Some(
                (
                    match draft.title {
                        Some(title) => title,
                        None => "Enter PR title..."@,
                    },
                    joined(
                        lines_before(
                            text_lines(part(draft.message, "\n\n"@)),
                            IGNORED_MARKER@,
                        ),
                    ),
                ),
            ),
        ),
{
    reveal_strlit("\n");
    reveal_strlit("\n\n");
    reveal_strlit("Enter PR title...");
    let title = match draft.title {
        Some(title) => title,
        None => "Enter PR title..."@,
    };
    assert(plain_line(title));
    let message = part(draft.message, "\n\n"@);
    let above = title + "\n\n"@ + message;
    let below = "\n"@ + draft.log + "\n"@ + part(draft.additional, "\n\n"@) + part(
        draft.diff,
        "\n"@,
    );
    assert(draft.template() =~= above + marker_line() + "\n"@ + below);
    let first = title.push('\n');
    let second = Seq::<char>::empty().push('\n');
    assert(above =~= first + (second + message));
    law_lines_append(first, second + message);
    law_lines_append(second, message);
    lemma_one_line(title);
    lemma_one_line(Seq::empty());
    assert(text_lines(above) =~= seq![title] + (seq![Seq::empty()] + text_lines(message)));
    assert(text_lines(above).skip(2) =~= text_lines(message));
    law_below_marker_is_ignored(above, below);
}

/// A draft that is saved as it is gives its message to the letter, with one line feed behind it, or
/// nothing if it has none; provided that no line of the message ends with a carriage return, and that
/// the message does not hold the marker.
pub proof fn law_saved_message(draft: DraftView)
    requires
        draft.title matches Some(title) ==> plain_line(title),
        draft.message matches Some(message) ==> {
            &&& no_returns(message)
            &&& !has_text(message, IGNORED_MARKER@)
        },
    ensures
        editor_text(draft.template()) == Ok::<Option<(Seq<char>, Seq<char>)>, ErrorView>(
            Some(
                (
                    match draft.title {
                        Some(title) => title,
                        None => "Enter PR title..."@,
                    },
                    part(draft.message, "\n"@),
                ),
            ),
        ),
{
    law_saved_draft(draft);
    match draft.message {
        Some(message) => {
            lemma_message_is_read(message);
        },
        None => {
            let rows = text_lines(Seq::empty());
            assert(rows =~= Seq::empty());
            assert(lines_before(rows, IGNORED_MARKER@) =~= Seq::empty());
        },
    }
}

proof fn lemma_message_is_read(message: Seq<char>)
    requires
        no_returns(message),
        !has_text(message, IGNORED_MARKER@),
    ensures
        joined(lines_before(text_lines(message + "\n\n"@), IGNORED_MARKER@)) == message + "\n"@,
{
    reveal_strlit("\n");
    reveal_strlit("\n\n");
    let body = message + "\n"@;
    let text = message + "\n\n"@;
    assert(text =~= body.push('\n'));
    assert(no_returns(body)) by {
        assert forall|i: int| 0 <= i < body.len() && #[trigger] body[i] == '\r' implies i + 1
            < body.len() && body[i + 1] != '\n' by {
            assert(message[i] == '\r');
        }
    }
    law_lines_joined(body);
    assert(!has_text(text, IGNORED_MARKER@)) by {
        lemma_marker_stays(message);
    }
    let rows = text_lines(text);
    lemma_lines_stand(text);
    assert forall|k: int| 0 <= k < rows.len() implies !has_text(
        #[trigger] rows[k],
        IGNORED_MARKER@,
    ) by {
        if has_text(rows[k], IGNORED_MARKER@) {
            lemma_stands_within(text, rows[k], IGNORED_MARKER@);
        }
    }
    lemma_until_text(rows, IGNORED_MARKER@, rows.len() as int);
    assert(rows.take(rows.len() as int) =~= rows);
}

/// That the marker does not come into a text with the line feeds behind it.
proof fn lemma_marker_stays(message: Seq<char>)
    requires
        !has_text(message, IGNORED_MARKER@),
    ensures
        !has_text(message + "\n\n"@, IGNORED_MARKER@),
{
    reveal_strlit("\n\n");
    reveal_strlit("Everything below this line will be ignored");
    let text = message + "\n\n"@;
    let n = IGNORED_MARKER@.len() as int;
    if has_text(text, IGNORED_MARKER@) {
        let at = choose|at: int| stands_at(text, IGNORED_MARKER@, at);
        assert(text.subrange(at, at + n)[n - 1] == IGNORED_MARKER@[n - 1]);
        assert(text[at + n - 1] != '\n');
        assert(message.subrange(at, at + n) =~= text.subrange(at, at + n));
        assert(stands_at(message, IGNORED_MARKER@, at));
    }
}

/// An edited text gives a title whenever it is not blank.
pub proof fn law_text_gives_title(text: Seq<char>)
    ensures
        match editor_text(text) {
            Ok(read) => read is Some && !is_blank(text),
            Err(e) => is_blank(text) && e == ErrorView::EmptyEditorText,
        },
{
    assert(trimmed(Seq::empty(), CharClass::Whitespace).len() == 0);
    if !is_blank(text) {
        assert(text.len() > 0) by {
            if text.len() == 0 {
                assert(text =~= Seq::empty());
            }
        }
    }
}

// What a draft is made of.

/// Only a single change gives a pull request its title: the first line of its description, if it has
/// one.
pub proof fn law_draft_title(
    count: int,
    descriptions: Seq<char>,
    template: Option<Seq<char>>,
    diff: Seq<char>,
    log: Seq<char>,
)
    ensures
        draft(count, descriptions, template, diff, log).title == if count == 1 && text_lines(
            descriptions,
        ).len() > 0 {
            Some(text_lines(descriptions)[0])
        } else {
            None
        },
{
}

/// Without a template, a single change gives the lines after its first one as the message and nothing
/// besides. Any other number of changes gives no message, and the descriptions as they are.
pub proof fn law_draft_without_template(
    count: int,
    descriptions: Seq<char>,
    diff: Seq<char>,
    log: Seq<char>,
    first: Seq<char>,
    others: Seq<Seq<char>>,
)
    ensures
        ({
            let made = draft(count, descriptions, None, diff, log);
            &&& count == 1 <==> made.message is Some
            &&& count == 1 <==> made.additional is None
            &&& count != 1 ==> made.additional == Some(descriptions)
            &&& count == 1 && text_lines(descriptions) == seq![first] + others ==> made.message
                == Some(joined(others))
            &&& count == 1 && text_lines(descriptions).len() == 0 ==> made.message == Some(
                Seq::<char>::empty(),
            )
        }),
{
    if text_lines(descriptions) == seq![first] + others {
        assert(text_lines(descriptions).drop_first() =~= others);
    }
}

/// With a template, the template is the message whatever the changes are, and the descriptions are kept
/// besides, line by line: those of a single change without the line that became the title.
pub proof fn law_draft_with_template(
    count: int,
    descriptions: Seq<char>,
    template: Seq<char>,
    diff: Seq<char>,
    log: Seq<char>,
    first: Seq<char>,
    others: Seq<Seq<char>>,
)
    ensures
        ({
            let made = draft(count, descriptions, Some(template), diff, log);
            &&& made.message == Some(template)
            &&& count != 1 ==> made.additional == Some(joined(text_lines(descriptions)))
            &&& count == 1 && text_lines(descriptions) == seq![first] + others ==> made.additional
                == Some(joined(others))
            &&& count == 1 && text_lines(descriptions).len() == 0 ==> made.additional == Some(
                Seq::<char>::empty(),
            )
        }),
{
    if text_lines(descriptions) == seq![first] + others {
        assert(text_lines(descriptions).drop_first() =~= others);
    }
}

/// The difference is shown as it is unless it consists of whitespace, and the log is always shown as it
/// is.
pub proof fn law_draft_shows(
    count: int,
    descriptions: Seq<char>,
    template: Option<Seq<char>>,
    diff: Seq<char>,
    log: Seq<char>,
)
    ensures
        ({
            let made = draft(count, descriptions, template, diff, log);
            &&& made.log == log
            &&& made.diff == if forall|i: int|
                0 <= i < diff.len() ==> is_whitespace(#[trigger] diff[i]) {
                None
            } else {
                Some(diff)
            }
        }),
{
    law_blank(diff);
}

/// The text in the editor: the title or a placeholder, the message, the marked line, the log, the other
/// descriptions and the difference, each where there is one and each with its line feeds.
pub proof fn law_template(made: DraftView)
    ensures
        ({
            let title = match made.title {
                Some(title) => title,
                None => "Enter PR title..."@,
            };
            let message = match made.message {
                Some(message) => message + "\n\n"@,
                None => Seq::empty(),
            };
            let additional = match made.additional {
                Some(additional) => additional + "\n\n"@,
                None => Seq::empty(),
            };
            let diff = match made.diff {
                Some(diff) => diff + "\n"@,
                None => Seq::empty(),
            };
            made.template() == title + "\n\n"@ + message
                + "JJ: Everything below this line will be ignored\n\n"@ + made.log + "\n"@
                + additional + diff
        }),
{
    reveal_strlit("JJ: ");
    reveal_strlit("Everything below this line will be ignored");
    reveal_strlit("\n\n");
    reveal_strlit("JJ: Everything below this line will be ignored\n\n");
    assert("JJ: Everything below this line will be ignored\n\n"@ =~= "JJ: "@ + IGNORED_MARKER@
        + "\n\n"@);
    let title = match made.title {
        Some(title) => title,
        None => "Enter PR title..."@,
    };
    assert(made.template() =~= title + "\n\n"@ + part(made.message, "\n\n"@)
        + "JJ: Everything below this line will be ignored\n\n"@ + made.log + "\n"@ + part(
        made.additional,
        "\n\n"@,
    ) + part(made.diff, "\n"@));
}

/// What is read from the editor: the first line as the title, and of the lines from the third on those
/// that come before the first marked one, as the description. The second line is never read.
pub proof fn law_editor_text(
    text: Seq<char>,
    title: Seq<char>,
    skipped: Seq<char>,
    kept: Seq<Seq<char>>,
    rest: Seq<Seq<char>>,
)
    requires
        text_lines(text) == seq![title, skipped] + kept + rest,
        exists|i: int| 0 <= i < text.len() && !is_whitespace(#[trigger] text[i]),
        forall|k: int|
            0 <= k < kept.len() ==> !has_text(
                #[trigger] kept[k],
                "Everything below this line will be ignored"@,
            ),
        rest.len() > 0 ==> has_text(rest[0], "Everything below this line will be ignored"@),
    ensures
        editor_text(text) == Ok::<Option<(Seq<char>, Seq<char>)>, ErrorView>(
            Some((title, joined(kept))),
        ),
{
    law_blank(text);
    assert(text_lines(text).skip(2) =~= kept + rest);
    law_lines_before(kept, rest, IGNORED_MARKER@);
}

/// A single line, or two, are a title without a description; whitespace alone is an error.
pub proof fn law_short_text(text: Seq<char>)
    ensures
        (forall|i: int| 0 <= i < text.len() ==> is_whitespace(#[trigger] text[i])) ==> editor_text(
            text,
        ) == Err::<Option<(Seq<char>, Seq<char>)>, ErrorView>(ErrorView::EmptyEditorText),
        !is_blank(text) && 1 <= text_lines(text).len() <= 2 ==> editor_text(text) == Ok::<
            Option<(Seq<char>, Seq<char>)>,
            ErrorView,
        >(Some((text_lines(text)[0], Seq::empty()))),
{
    law_blank(text);
    let none = Seq::<Seq<char>>::empty();
    law_lines_before(none, none, IGNORED_MARKER@);
    assert(none + none =~= none);
    if text_lines(text).len() == 2 {
        assert(text_lines(text).skip(2) =~= none);
    }
}

/// What is looked at in a draft is all that it holds.
pub proof fn law_draft_view(made: GetPrTitleAndBody)
    ensures
        made.title is Some <==> made@.title is Some,
        made.title is Some ==> made@.title->0 == made.title->0@,
        made.message is Some <==> made@.message is Some,
        made.message is Some ==> made@.message->0 == made.message->0@,
        made.additional is Some <==> made@.additional is Some,
        made.additional is Some ==> made@.additional->0 == made.additional->0@,
        made.diff is Some <==> made@.diff is Some,
        made.diff is Some ==> made@.diff->0 == made.diff->0@,
        made@.log == made.log@,
{
}

/// What is looked at in a title with its description is all that they hold.
pub proof fn law_pair_view(title: String, body: String)
    ensures
        pair_view(Some((title, body))) == Some((title@, body@)),
        pair_view(None) is None,
{
}

} // verus!
