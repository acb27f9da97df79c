//! Finding the branch at the root of all stacks.

use vstd::prelude::*;

use crate::command::{show, show_command, show_trunk, show_trunk_command, Command, CommandView};
use crate::text::{
    is_whitespace, lemma_until_class_meaning, option_view, text_words, trim, trimmed, trimmed_back,
    trimmed_front, until_class, views, words, CharClass,
};

verus! {

/// A bookmark's name, without the mark that it is out of step.
pub open spec fn bookmark_name(word: Seq<char>) -> Seq<char> {
    trimmed(trimmed(word, CharClass::Star), CharClass::Whitespace)
}

/// The names among a row of words, in order.
pub open spec fn bookmark_names(words: Seq<Seq<char>>) -> Seq<Seq<char>>
    decreases words.len(),
{
    if words.len() == 0 {
        Seq::empty()
    } else {
        let names = bookmark_names(words.drop_last());
        let name = bookmark_name(words.last());
        if name.len() > 0 {
            names.push(name)
        } else {
            names
        }
    }
}

/// The one name that the bookmarks of the trunk have, if they have one and no two differ.
pub open spec fn trunk_bookmark(output: Seq<char>) -> Option<Seq<char>> {
    let names = bookmark_names(text_words(output));
    if names.len() > 0 && forall|i: int| 0 <= i < names.len() ==> #[trigger] names[i] == names[0] {
        Some(names[0])
    } else {
        None
    }
}

/// The one name that the bookmarks of the trunk have.
pub fn parse_trunk_bookmark_output(output: &str) -> (out: Option<String>)
    ensures
        option_view(out) == trunk_bookmark(output@),
{
    let all = words(output);
    let ghost row = views(all@);
    let mut found: Option<String> = None;
    let mut differ = false;
    let mut i: usize = 0;
    assert(row.take(0) =~= Seq::empty());
    while i < all.len()
        invariant
            row == views(all@),
            i <= all@.len(),
            ({
                let names = bookmark_names(row.take(i as int));
                &&& found is Some <==> names.len() > 0
                &&& found is Some ==> found->0@ == names[0]
                &&& differ <==> exists|k: int| 0 <= k < names.len() && #[trigger] names[k] != names[0]
            }),
        decreases all.len() - i,
    {
        let ghost before = bookmark_names(row.take(i as int));
        proof {
            assert(row.take(i + 1).drop_last() =~= row.take(i as int));
            assert(row.take(i + 1).last() == all@[i as int]@);
        }
        let name = trim(trim(all[i].as_str(), CharClass::Star).as_str(), CharClass::Whitespace);
        if !name.as_str().is_empty() {
            let ghost after = before.push(name@);
            assert(bookmark_names(row.take(i + 1)) == after);
            match &found {
                Some(first) => {
                    let same = *first == name;
                    proof {
                        if !same {
                            assert(after[before.len() as int] != after[0]);
                        }
                        if differ {
                            let k = choose|k: int|
                                0 <= k < before.len() && #[trigger] before[k] != before[0];
                            assert(after[k] != after[0]);
                        }
                        if exists|k: int| 0 <= k < after.len() && #[trigger] after[k] != after[0] {
                            let k = choose|k: int|
                                0 <= k < after.len() && #[trigger] after[k] != after[0];
                            if k < before.len() {
                                assert(before[k] != before[0]);
                            }
                        }
                    }
                    differ = differ || !same;
                },
                None => {
                    found = Some(name);
                },
            }
        }
        i += 1;
    }
    assert(row.take(i as int) =~= row);
    if differ {
        None
    } else {
        found
    }
}

/// How far the search for the branch at the root has come: what it asks about now.
#[derive(Clone, Copy, Debug, PartialEq, Eq, Structural)]
pub enum RootSearch {
    /// The bookmarks of the trunk.
    Trunk,
    /// A branch named `main`.
    Main,
    /// A branch named `master`.
    Master,
}

/// What an answer leads to.
#[derive(Debug)]
pub enum RootStep {
    /// The next thing to ask about.
    Ask(RootSearch),
    /// The branch at the root.
    Found(String),
}

/// What a step of the search says.
pub enum RootStepView {
    Ask(RootSearch),
    Found(Seq<char>),
}

impl View for RootStep {
    type V = RootStepView;

    open spec fn view(&self) -> RootStepView {
        match self {
            RootStep::Ask(search) => RootStepView::Ask(*search),
            RootStep::Found(branch) => RootStepView::Found(branch@),
        }
    }
}

impl RootSearch {
    /// The command that asks.
    pub open spec fn asks(self) -> CommandView {
        match self {
            RootSearch::Trunk => show_trunk(),
            RootSearch::Main => show("main"@),
            RootSearch::Master => show("master"@),
        }
    }

    /// Where what the command printed leads, or that it failed.
    pub open spec fn leads_to(self, output: Option<Seq<char>>) -> RootStepView {
        match self {
            RootSearch::Trunk => match output {
                Some(output) => match trunk_bookmark(output) {
                    Some(branch) => RootStepView::Found(branch),
                    None => RootStepView::Ask(RootSearch::Main),
                },
                None => RootStepView::Ask(RootSearch::Main),
            },
            RootSearch::Main => if output is Some {
                RootStepView::Found("main"@)
            } else {
                RootStepView::Ask(RootSearch::Master)
            },
            RootSearch::Master => RootStepView::Found(
                if output is Some {
                    "master"@
                } else {
                    "main"@
                },
            ),
        }
    }

    /// The command that asks.
    pub fn command(self) -> (out: Command)
        ensures
            out@ == self.asks(),
    {
        match self {
            RootSearch::Trunk => show_trunk_command(),
            RootSearch::Main => show_command("main"),
            RootSearch::Master => show_command("master"),
        }
    }

    /// Takes what the command printed, or that it failed.
    pub fn step(self, output: Option<&str>) -> (out: RootStep)
        ensures
            out@ == self.leads_to(
                match output {
                    Some(output) => Some(output@),
                    None => None,
                },
            ),
    {
        match self {
            RootSearch::Trunk => {
                if let Some(output) = output {
                    if let Some(branch) = parse_trunk_bookmark_output(output) {
                        return RootStep::Found(branch);
                    }
                }
                RootStep::Ask(RootSearch::Main)
            },
            RootSearch::Main => {
                if output.is_some() {
                    RootStep::Found("main".to_owned())
                } else {
                    RootStep::Ask(RootSearch::Master)
                }
            },
            RootSearch::Master => {
                if output.is_some() {
                    RootStep::Found("master".to_owned())
                } else {
                    RootStep::Found("main".to_owned())
                }
            },
        }
    }
}

impl RootSearch {
    /// The outcome of the search, given what each command printed or that it failed.
    pub open spec fn run(self, answers: Seq<Option<Seq<char>>>) -> Option<Seq<char>>
        decreases answers.len(),
    {
        if answers.len() == 0 {
            None
        } else {
            match self.leads_to(answers[0]) {
                RootStepView::Found(branch) => Some(branch),
                RootStepView::Ask(next) => next.run(answers.drop_first()),
            }
        }
    }
}

/// The search always finds a branch, and asks three times at most: it is the bookmark of the trunk if
/// there is exactly one, else `main` if that exists, else `master` if that exists, else `main`.
pub proof fn law_root_branch(
    trunk: Option<Seq<char>>,
    main: Option<Seq<char>>,
    master: Option<Seq<char>>,
)
    ensures
        RootSearch::Trunk.run(seq![trunk, main, master]) == Some(
            if trunk is Some && trunk_bookmark(trunk->0) is Some {
                trunk_bookmark(trunk->0)->0
            } else if main is None && master is Some {
                "master"@
            } else {
                "main"@
            },
        ),
{
    let answers = seq![trunk, main, master];
    assert(answers.drop_first() =~= seq![main, master]);
    assert(seq![main, master].drop_first() =~= seq![master]);
    reveal_with_fuel(RootSearch::run, 4);
}

proof fn lemma_trimmed(s: Seq<char>, class: CharClass)
    ensures
        trimmed_front(s, class).len() > 0 ==> !class.holds(trimmed_front(s, class)[0]),
        forall|c: char| #[trigger] trimmed_front(s, class).contains(c) ==> s.contains(c),
    decreases s.len(),
{
    if s.len() > 0 && class.holds(s[0]) {
        let t = s.drop_first();
        lemma_trimmed(t, class);
        assert forall|c: char| #[trigger] trimmed_front(s, class).contains(c) implies s.contains(
            c,
        ) by {
            assert(t.contains(c));
            let k = choose|k: int| 0 <= k < t.len() && t[k] == c;
            assert(s[k + 1] == c);
        }
    }
}

proof fn lemma_trimmed_back(s: Seq<char>, class: CharClass)
    ensures
        trimmed_back(s, class).len() > 0 ==> {
            &&& !class.holds(trimmed_back(s, class).last())
            &&& trimmed_back(s, class)[0] == s[0]
        },
        forall|c: char| #[trigger] trimmed_back(s, class).contains(c) ==> s.contains(c),
    decreases s.len(),
{
    if s.len() > 0 && class.holds(s.last()) {
        let t = s.drop_last();
        lemma_trimmed_back(t, class);
        assert forall|c: char| #[trigger] trimmed_back(s, class).contains(c) implies s.contains(
            c,
        ) by {
            assert(t.contains(c));
            let k = choose|k: int| 0 <= k < t.len() && t[k] == c;
            assert(s[k] == c);
        }
    }
}

/// Whether a text has no whitespace in it.
pub open spec fn unbroken(s: Seq<char>) -> bool {
    forall|c: char| #[trigger] s.contains(c) ==> !is_whitespace(c)
}

/// A bookmark's name is one word, with no mark at either end.
pub open spec fn clean_name(name: Seq<char>) -> bool {
    &&& name.len() > 0
    &&& unbroken(name)
    &&& name[0] != '*'
    &&& name.last() != '*'
}

proof fn lemma_name(word: Seq<char>)
    requires
        unbroken(word),
    ensures
        bookmark_name(word).len() > 0 ==> clean_name(bookmark_name(word)),
{
    let front = trimmed_front(word, CharClass::Star);
    let bare = trimmed(word, CharClass::Star);
    lemma_trimmed(word, CharClass::Star);
    lemma_trimmed_back(front, CharClass::Star);
    if bare.len() > 0 {
        assert(bare.contains(bare[0]));
        assert(bare.contains(bare.last()));
        assert(trimmed_front(bare, CharClass::Whitespace) == bare);
        assert(trimmed_back(bare, CharClass::Whitespace) == bare);
    } else {
        assert(trimmed_front(bare, CharClass::Whitespace) == bare);
    }
}

proof fn lemma_words_unbroken(s: Seq<char>)
    ensures
        forall|k: int| 0 <= k < text_words(s).len() ==> unbroken(#[trigger] text_words(s)[k]),
    decreases s.len(),
{
    if s.len() > 0 {
        if is_whitespace(s[0]) {
            lemma_words_unbroken(s.drop_first());
            assert(text_words(s) == text_words(s.drop_first()));
        } else {
            let t = s.drop_first();
            let n = 1 + until_class(t, CharClass::Whitespace) as int;
            lemma_until_class_meaning(t, CharClass::Whitespace);
            let word = s.take(n);
            let rest = s.skip(n);
            lemma_words_unbroken(rest);
            assert(unbroken(word)) by {
                assert forall|c: char| #[trigger] word.contains(c) implies !is_whitespace(c) by {
                    let k = choose|k: int| 0 <= k < word.len() && word[k] == c;
                    if k > 0 {
                        assert(t[k - 1] == c);
                    }
                }
            }
            let all = text_words(s);
            assert(all == seq![word] + text_words(rest));
            assert forall|k: int| 0 <= k < all.len() implies unbroken(#[trigger] all[k]) by {
                if k > 0 {
                    assert(all[k] == text_words(rest)[k - 1]);
                }
            }
        }
    }
}

proof fn lemma_names_clean(words: Seq<Seq<char>>)
    requires
        forall|k: int| 0 <= k < words.len() ==> unbroken(#[trigger] words[k]),
    ensures
        forall|k: int|
            0 <= k < bookmark_names(words).len() ==> clean_name(#[trigger] bookmark_names(words)[k]),
    decreases words.len(),
{
    if words.len() > 0 {
        lemma_names_clean(words.drop_last());
        assert(unbroken(words[words.len() - 1]));
        lemma_name(words.last());
        let front = bookmark_names(words.drop_last());
        let names = bookmark_names(words);
        assert forall|k: int| 0 <= k < names.len() implies clean_name(#[trigger] names[k]) by {
            if k < front.len() {
                assert(names[k] == front[k]);
            }
        }
    }
}

/// The bookmark of the trunk is given without marks and whitespace, and is never empty.
pub proof fn law_bookmark_is_clean(output: Seq<char>)
    ensures
        trunk_bookmark(output) matches Some(branch) ==> clean_name(branch),
{
    lemma_words_unbroken(output);
    lemma_names_clean(text_words(output));
}

/// The bookmark of the trunk is the one name that all words give once their marks are off, if there is
/// one; words that are nothing but marks do not count.
pub proof fn law_trunk_bookmark(output: Seq<char>, branch: Seq<char>)
    ensures
        trunk_bookmark(output) == Some(branch) <==> {
            &&& branch.len() > 0
            &&& exists|k: int|
                0 <= k < text_words(output).len() && trimmed(
                    #[trigger] text_words(output)[k],
                    CharClass::Star,
                ) == branch
            &&& forall|k: int|
                0 <= k < text_words(output).len() ==> {
                    let name = trimmed(#[trigger] text_words(output)[k], CharClass::Star);
                    name.len() == 0 || name == branch
                }
        },
{
    let words = text_words(output);
    let names = bookmark_names(words);
    lemma_words_unbroken(output);
    lemma_names(words);
    if trunk_bookmark(output) == Some(branch) {
        assert(names[0] == branch);
        assert(names.contains(names[0]));
        let k = choose|k: int|
            0 <= k < words.len() && trimmed(#[trigger] words[k], CharClass::Star) == branch
                && branch.len() > 0;
        assert(trimmed(words[k], CharClass::Star) == branch);
        assert forall|k: int| 0 <= k < words.len() implies {
            let name = trimmed(#[trigger] words[k], CharClass::Star);
            name.len() == 0 || name == branch
        } by {
            let name = trimmed(words[k], CharClass::Star);
            if name.len() > 0 {
                assert(names.contains(name));
                let m = choose|m: int| 0 <= m < names.len() && names[m] == name;
                assert(names[m] == names[0]);
            }
        }
    }
    if branch.len() > 0 && (exists|k: int|
        0 <= k < words.len() && trimmed(#[trigger] words[k], CharClass::Star) == branch) && (forall|
        k: int,
    |
        0 <= k < words.len() ==> {
            let name = trimmed(#[trigger] words[k], CharClass::Star);
            name.len() == 0 || name == branch
        }) {
        let k = choose|k: int|
            0 <= k < words.len() && trimmed(#[trigger] words[k], CharClass::Star) == branch;
        assert(names.contains(trimmed(words[k], CharClass::Star)));
        assert forall|i: int| 0 <= i < names.len() implies #[trigger] names[i] == branch by {
            assert(names.contains(names[i]));
            let m = choose|m: int|
                0 <= m < words.len() && trimmed(#[trigger] words[m], CharClass::Star) == names[i]
                    && names[i].len() > 0;
            assert(trimmed(words[m], CharClass::Star).len() > 0);
        }
    }
}

/// That the names are what the words give once their marks are off, without those that give nothing.
proof fn lemma_names(words: Seq<Seq<char>>)
    requires
        forall|k: int| 0 <= k < words.len() ==> unbroken(#[trigger] words[k]),
    ensures
        forall|name: Seq<char>| #[trigger]
            bookmark_names(words).contains(name) ==> exists|k: int|
                0 <= k < words.len() && trimmed(#[trigger] words[k], CharClass::Star) == name
                    && name.len() > 0,
        forall|k: int|
            0 <= k < words.len() && trimmed(#[trigger] words[k], CharClass::Star).len() > 0
                ==> bookmark_names(words).contains(trimmed(words[k], CharClass::Star)),
    decreases words.len(),
{
    let names = bookmark_names(words);
    if words.len() > 0 {
        let rest = words.drop_last();
        let front = bookmark_names(rest);
        let last = words[words.len() - 1];
        assert forall|k: int| 0 <= k < rest.len() implies unbroken(#[trigger] rest[k]) by {
            assert(rest[k] == words[k]);
        }
        lemma_names(rest);
        assert(unbroken(last));
        lemma_bare_name(last);
        assert forall|name: Seq<char>| #[trigger] names.contains(name) implies exists|k: int|
            0 <= k < words.len() && trimmed(#[trigger] words[k], CharClass::Star) == name
                && name.len() > 0 by {
            let i = choose|i: int| 0 <= i < names.len() && names[i] == name;
            if i < front.len() {
                assert(front[i] == name);
                assert(front.contains(name));
                let k = choose|k: int|
                    0 <= k < rest.len() && trimmed(#[trigger] rest[k], CharClass::Star) == name
                        && name.len() > 0;
                assert(words[k] == rest[k]);
            } else {
                assert(trimmed(words[words.len() - 1], CharClass::Star) == name);
            }
        }
        assert forall|k: int|
            0 <= k < words.len() && trimmed(#[trigger] words[k], CharClass::Star).len()
                > 0 implies names.contains(trimmed(words[k], CharClass::Star)) by {
            let name = trimmed(words[k], CharClass::Star);
            if k < rest.len() {
                assert(rest[k] == words[k]);
                assert(front.contains(name));
                let i = choose|i: int| 0 <= i < front.len() && front[i] == name;
                assert(names[i] == name);
            } else {
                assert(names[names.len() - 1] == name);
            }
        }
    }
}

/// That a word has no whitespace that could be trimmed once its marks are off.
proof fn lemma_bare_name(word: Seq<char>)
    requires
        unbroken(word),
    ensures
        bookmark_name(word) == trimmed(word, CharClass::Star),
{
    let front = trimmed_front(word, CharClass::Star);
    let bare = trimmed(word, CharClass::Star);
    lemma_trimmed(word, CharClass::Star);
    lemma_trimmed_back(front, CharClass::Star);
    if bare.len() > 0 {
        assert(bare.contains(bare[0]));
        assert(bare.contains(bare.last()));
    }
    assert(trimmed_front(bare, CharClass::Whitespace) == bare);
    assert(trimmed_back(bare, CharClass::Whitespace) == bare);
}

/// What each question of the search is, and where its answer leads.
pub proof fn law_search_steps(output: Seq<char>)
    ensures
        RootSearch::Trunk.asks() == (CommandView {
            program: "jj"@,
            args: seq!["show"@, "-r"@, "trunk()"@, "-T"@, "local_bookmarks"@],
        }),
        RootSearch::Main.asks() == (CommandView { program: "jj"@, args: seq!["show"@, "main"@] }),
        RootSearch::Master.asks() == (CommandView { program: "jj"@, args: seq!["show"@, "master"@] }),
        RootSearch::Trunk.leads_to(None) == RootStepView::Ask(RootSearch::Main),
        RootSearch::Trunk.leads_to(Some(output)) == match trunk_bookmark(output) {
            Some(branch) => RootStepView::Found(branch),
            None => RootStepView::Ask(RootSearch::Main),
        },
        RootSearch::Main.leads_to(None) == RootStepView::Ask(RootSearch::Master),
        RootSearch::Main.leads_to(Some(output)) == RootStepView::Found("main"@),
        RootSearch::Master.leads_to(None) == RootStepView::Found("main"@),
        RootSearch::Master.leads_to(Some(output)) == RootStepView::Found("master"@),
{
}

/// What is looked at in a step of the search is all that it holds.
pub proof fn law_step_view(search: RootSearch, branch: String)
    ensures
        RootStep::Ask(search)@ == RootStepView::Ask(search),
        RootStep::Found(branch)@ == RootStepView::Found(branch@),
{
}

} // verus!
