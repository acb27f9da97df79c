//! Text as the rest of the crate reads and writes it: characters, lines, words and numbers.

use vstd::prelude::*;

verus! {

/// Appends one character.
///
/// Specifies `String::push`: the string keeps what it held and gains the character at its end.
pub assume_specification[ String::push ](s: &mut String, c: char)
    ensures
        final(s)@ == old(s)@.push(c),
;

/// What each string of a list holds.
pub open spec fn views(list: Seq<String>) -> Seq<Seq<char>> {
    list.map_values(|s: String| s@)
}

/// What an optional string holds.
pub open spec fn option_view(s: Option<String>) -> Option<Seq<char>> {
    match s {
        Some(s) => Some(s@),
        None => None,
    }
}

/// The characters of a string, in order.
pub fn chars_of(s: &str) -> (out: Vec<char>)
    ensures
        out@ == s@,
{
    let mut out: Vec<char> = Vec::new();
    for c in it: s.chars()
        invariant
            out@ == it.seq().take(it.index() as int),
            it.seq() == s@,
    {
        out.push(c);
    }
    out
}

/// The characters from one position up to another, as a string.
pub fn text_between(chars: &Vec<char>, from: usize, to: usize) -> (out: String)
    requires
        from <= to <= chars@.len(),
    ensures
        out@ == chars@.subrange(from as int, to as int),
{
    let mut out = String::new();
    let mut i: usize = from;
    while i < to
        invariant
            from <= i <= to <= chars@.len(),
            out@ == chars@.subrange(from as int, i as int),
        decreases to - i,
    {
        out.push(chars[i]);
        i += 1;
    }
    out
}

/// Whether two strings hold the same characters.
pub fn same_text(a: &str, b: &str) -> (same: bool)
    ensures
        same == (a@ == b@),
{
    a.to_owned() == b.to_owned()
}

// Trimming.

/// A kind of character that is trimmed from the ends of a text.
#[derive(Clone, Copy, Debug, PartialEq, Eq, Structural)]
pub enum CharClass {
    /// The characters with the Unicode property `White_Space`.
    Whitespace,
    /// The `*` that marks a bookmark as out of step with its remote.
    Star,
}

/// Whether a character has the Unicode property `White_Space`.
pub open spec fn is_whitespace(c: char) -> bool {
    let n = c as u32;
    ||| 0x9 <= n <= 0xd
    ||| n == 0x20
    ||| n == 0x85
    ||| n == 0xa0
    ||| n == 0x1680
    ||| 0x2000 <= n <= 0x200a
    ||| n == 0x2028
    ||| n == 0x2029
    ||| n == 0x202f
    ||| n == 0x205f
    ||| n == 0x3000
}

impl CharClass {
    /// Whether the class holds a character.
    pub open spec fn holds(self, c: char) -> bool {
        match self {
            CharClass::Whitespace => is_whitespace(c),
            CharClass::Star => c == '*',
        }
    }

    /// Whether the class holds a character.
    pub fn has(self, c: char) -> (held: bool)
        ensures
            held == self.holds(c),
    {
        match self {
            CharClass::Whitespace => {
                let n: u32 = c as u32;
                (0x9 <= n && n <= 0xd) || n == 0x20 || n == 0x85 || n == 0xa0 || n == 0x1680 || (
                0x2000 <= n && n <= 0x200a) || n == 0x2028 || n == 0x2029 || n == 0x202f || n
                    == 0x205f || n == 0x3000
            },
            CharClass::Star => c == '*',
        }
    }
}

/// A text without the characters of a class at its front.
pub open spec fn trimmed_front(s: Seq<char>, class: CharClass) -> Seq<char>
    decreases s.len(),
{
    if s.len() > 0 && class.holds(s[0]) {
        trimmed_front(s.drop_first(), class)
    } else {
        s
    }
}

/// A text without the characters of a class at its back.
pub open spec fn trimmed_back(s: Seq<char>, class: CharClass) -> Seq<char>
    decreases s.len(),
{
    if s.len() > 0 && class.holds(s.last()) {
        trimmed_back(s.drop_last(), class)
    } else {
        s
    }
}

/// A text without the characters of a class at either end.
pub open spec fn trimmed(s: Seq<char>, class: CharClass) -> Seq<char> {
    trimmed_back(trimmed_front(s, class), class)
}

proof fn lemma_trimmed_front(s: Seq<char>, class: CharClass, n: int)
    requires
        0 <= n <= s.len(),
        forall|i: int| 0 <= i < n ==> class.holds(#[trigger] s[i]),
        n < s.len() ==> !class.holds(s[n]),
    ensures
        trimmed_front(s, class) == s.skip(n),
    decreases n,
{
    if n > 0 {
        let t = s.drop_first();
        assert forall|i: int| 0 <= i < n - 1 implies class.holds(#[trigger] t[i]) by {
            assert(t[i] == s[i + 1]);
        }
        lemma_trimmed_front(t, class, n - 1);
        assert(t.skip(n - 1) =~= s.skip(n));
    } else {
        assert(s.skip(0) =~= s);
    }
}

proof fn lemma_trimmed_back(s: Seq<char>, class: CharClass, n: int)
    requires
        0 <= n <= s.len(),
        forall|i: int| n <= i < s.len() ==> class.holds(#[trigger] s[i]),
        n > 0 ==> !class.holds(s[n - 1]),
    ensures
        trimmed_back(s, class) == s.take(n),
    decreases s.len() - n,
{
    if n < s.len() {
        lemma_trimmed_back(s.drop_last(), class, n);
        assert(s.drop_last().take(n) =~= s.take(n));
    } else {
        assert(s.take(n) =~= s);
    }
}

/// Cuts the characters of a class off both ends of a text.
pub fn trim(s: &str, class: CharClass) -> (out: String)
    ensures
        out@ == trimmed(s@, class),
{
    let chars = chars_of(s);
    let mut from: usize = 0;
    while from < chars.len() && class.has(chars[from])
        invariant
            from <= chars@.len(),
            forall|i: int| 0 <= i < from ==> class.holds(#[trigger] chars@[i]),
        decreases chars.len() - from,
    {
        from += 1;
    }
    let mut to: usize = chars.len();
    while to > from && class.has(chars[to - 1])
        invariant
            from <= to <= chars@.len(),
            forall|i: int| to <= i < chars@.len() ==> class.holds(#[trigger] chars@[i]),
        decreases to,
    {
        to -= 1;
    }
    proof {
        lemma_trimmed_front(chars@, class, from as int);
        let t = chars@.skip(from as int);
        lemma_trimmed_back(t, class, to - from);
        assert(t.take(to - from) =~= chars@.subrange(from as int, to as int));
    }
    text_between(&chars, from, to)
}

/// Whether a text is empty once its whitespace is trimmed.
pub open spec fn is_blank(s: Seq<char>) -> bool {
    trimmed(s, CharClass::Whitespace).len() == 0
}

/// Whether a text is empty once its whitespace is trimmed.
pub fn blank(s: &str) -> (out: bool)
    ensures
        out == is_blank(s@),
{
    trim(s, CharClass::Whitespace).as_str().is_empty()
}

/// A text with a character that is no whitespace is not blank.
pub proof fn law_not_blank(s: Seq<char>, i: int)
    requires
        0 <= i < s.len(),
        !is_whitespace(s[i]),
    ensures
        !is_blank(s),
{
    lemma_front_keeps(s, i);
    let t = trimmed_front(s, CharClass::Whitespace);
    let j = choose|j: int| 0 <= j < t.len() && t[j] == s[i];
    lemma_back_keeps(t, j);
}

proof fn lemma_front_keeps(s: Seq<char>, i: int)
    requires
        0 <= i < s.len(),
        !is_whitespace(s[i]),
    ensures
        trimmed_front(s, CharClass::Whitespace).contains(s[i]),
    decreases s.len(),
{
    if is_whitespace(s[0]) {
        assert(s.drop_first()[i - 1] == s[i]);
        lemma_front_keeps(s.drop_first(), i - 1);
    }
}

proof fn lemma_back_keeps(s: Seq<char>, i: int)
    requires
        0 <= i < s.len(),
        !is_whitespace(s[i]),
    ensures
        trimmed_back(s, CharClass::Whitespace).len() > 0,
    decreases s.len(),
{
    if is_whitespace(s.last()) {
        lemma_back_keeps(s.drop_last(), i);
    }
}

// Words.

/// How many characters come before the first one of a class.
pub open spec fn until_class(s: Seq<char>, class: CharClass) -> nat
    decreases s.len(),
{
    if s.len() == 0 || class.holds(s[0]) {
        0
    } else {
        1 + until_class(s.drop_first(), class)
    }
}

/// The words of a text: the longest stretches without whitespace, in order.
pub open spec fn text_words(s: Seq<char>) -> Seq<Seq<char>>
    decreases s.len(),
{
    if s.len() == 0 {
        Seq::empty()
    } else if is_whitespace(s[0]) {
        text_words(s.drop_first())
    } else {
        let n = 1 + until_class(s.drop_first(), CharClass::Whitespace);
        proof {
            lemma_until_class_meaning(s.drop_first(), CharClass::Whitespace);
        }
        seq![s.take(n as int)] + text_words(s.skip(n as int))
    }
}

/// That `until_class` counts characters outside the class, up to one in it or to the end.
pub proof fn lemma_until_class_meaning(s: Seq<char>, class: CharClass)
    ensures
        until_class(s, class) <= s.len(),
        forall|i: int| 0 <= i < until_class(s, class) ==> !class.holds(#[trigger] s[i]),
        until_class(s, class) < s.len() ==> class.holds(s[until_class(s, class) as int]),
    decreases s.len(),
{
    if s.len() > 0 && !class.holds(s[0]) {
        let t = s.drop_first();
        lemma_until_class_meaning(t, class);
        assert forall|i: int| 0 <= i < until_class(s, class) implies !class.holds(
            #[trigger] s[i],
        ) by {
            if i > 0 {
                assert(t[i - 1] == s[i]);
            }
        }
    }
}

proof fn lemma_until_class(s: Seq<char>, class: CharClass, n: int)
    requires
        0 <= n <= s.len(),
        forall|i: int| 0 <= i < n ==> !class.holds(#[trigger] s[i]),
        n < s.len() ==> class.holds(s[n]),
    ensures
        until_class(s, class) == n,
    decreases n,
{
    if n > 0 {
        let t = s.drop_first();
        assert forall|i: int| 0 <= i < n - 1 implies !class.holds(#[trigger] t[i]) by {
            assert(t[i] == s[i + 1]);
        }
        lemma_until_class(t, class, n - 1);
    }
}

/// The words of a text, in order.
pub fn words(s: &str) -> (out: Vec<String>)
    ensures
        views(out@) == text_words(s@),
{
    let chars = chars_of(s);
    let mut out: Vec<String> = Vec::new();
    let mut i: usize = 0;
    assert(chars@.skip(0) =~= chars@);
    assert(views(out@) + text_words(chars@) =~= text_words(chars@));
    while i < chars.len()
        invariant
            i <= chars@.len(),
            views(out@) + text_words(chars@.skip(i as int)) == text_words(chars@),
        decreases chars.len() - i,
    {
        let ghost rest = chars@.skip(i as int);
        let class = CharClass::Whitespace;
        if class.has(chars[i]) {
            assert(rest.drop_first() =~= chars@.skip(i + 1));
            i += 1;
        } else {
            let start = i;
            i += 1;
            while i < chars.len() && !class.has(chars[i])
                invariant
                    class == CharClass::Whitespace,
                    start < i <= chars@.len(),
                    forall|k: int| start <= k < i ==> !class.holds(#[trigger] chars@[k]),
                decreases chars.len() - i,
            {
                i += 1;
            }
            let word = text_between(&chars, start, i);
            proof {
                let t = rest.drop_first();
                lemma_until_class(t, class, i - start - 1);
                assert(word@ =~= rest.take(i - start));
                assert(rest.skip(i - start) =~= chars@.skip(i as int));
                assert(views(out@.push(word)) =~= views(out@).push(word@));
                assert(views(out@).push(word@) + text_words(chars@.skip(i as int)) =~= views(out@)
                    + (seq![word@] + text_words(chars@.skip(i as int))));
            }
            out.push(word);
        }
    }
    assert(chars@.skip(i as int) =~= Seq::<char>::empty());
    assert(views(out@) + Seq::<Seq<char>>::empty() =~= views(out@));
    out
}

// Splitting at a character.

/// How many characters come before the first `c`.
pub open spec fn until_char(s: Seq<char>, c: char) -> nat
    decreases s.len(),
{
    if s.len() == 0 || s[0] == c {
        0
    } else {
        1 + until_char(s.drop_first(), c)
    }
}

/// That `until_char` is the one position with no `c` before it and none or a `c` at it.
pub proof fn lemma_until_char(s: Seq<char>, c: char, n: int)
    requires
        0 <= n <= s.len(),
        forall|i: int| 0 <= i < n ==> #[trigger] s[i] != c,
        n < s.len() ==> s[n] == c,
    ensures
        until_char(s, c) == n,
    decreases n,
{
    if n > 0 {
        let t = s.drop_first();
        assert forall|i: int| 0 <= i < n - 1 implies #[trigger] t[i] != c by {
            assert(t[i] == s[i + 1]);
        }
        lemma_until_char(t, c, n - 1);
    }
}

/// The parts of a text before and after its first `c`, if it has one.
pub open spec fn split_at_first(s: Seq<char>, c: char) -> Option<(Seq<char>, Seq<char>)> {
    let n = until_char(s, c);
    if n < s.len() {
        Some((s.take(n as int), s.skip(n as int + 1)))
    } else {
        None
    }
}

/// Splits a text at its first `c`.
pub fn split_once(s: &str, c: char) -> (out: Option<(String, String)>)
    ensures
        match out {
            Some(parts) => split_at_first(s@, c) == Some((parts.0@, parts.1@)),
            None => split_at_first(s@, c) is None,
        },
{
    let chars = chars_of(s);
    let mut n: usize = 0;
    while n < chars.len() && chars[n] != c
        invariant
            n <= chars@.len(),
            forall|i: int| 0 <= i < n ==> #[trigger] chars@[i] != c,
        decreases chars.len() - n,
    {
        n += 1;
    }
    proof {
        lemma_until_char(chars@, c, n as int);
    }
    if n < chars.len() {
        let before = text_between(&chars, 0, n);
        let after = text_between(&chars, n + 1, chars.len());
        assert(before@ =~= s@.take(n as int));
        assert(after@ =~= s@.skip(n + 1));
        Some((before, after))
    } else {
        None
    }
}

// Lines.

/// A line without the carriage return that stood before its line feed.
pub open spec fn without_return(s: Seq<char>) -> Seq<char> {
    if s.len() > 0 && s.last() == '\r' {
        s.drop_last()
    } else {
        s
    }
}

/// The lines of a text. A line ends at a line feed, which a carriage return may precede; neither
/// is part of it. The last line may go without a line feed, and then keeps all its characters.
pub open spec fn text_lines(s: Seq<char>) -> Seq<Seq<char>>
    decreases s.len(),
{
    let n = until_char(s, '\n');
    if s.len() == 0 {
        Seq::empty()
    } else if n >= s.len() {
        seq![s]
    } else {
        seq![without_return(s.take(n as int))] + text_lines(s.skip(n as int + 1))
    }
}

/// The lines of a text, in order.
pub fn lines(s: &str) -> (out: Vec<String>)
    ensures
        views(out@) == text_lines(s@),
{
    let chars = chars_of(s);
    let mut out: Vec<String> = Vec::new();
    let mut start: usize = 0;
    let mut i: usize = 0;
    assert(chars@.skip(0) =~= chars@);
    assert(views(out@) + text_lines(chars@) =~= text_lines(chars@));
    while i < chars.len()
        invariant
            start <= i <= chars@.len(),
            forall|k: int| start <= k < i ==> #[trigger] chars@[k] != '\n',
            views(out@) + text_lines(chars@.skip(start as int)) == text_lines(chars@),
        decreases chars.len() - i,
    {
        if chars[i] == '\n' {
            let ghost rest = chars@.skip(start as int);
            let end = if i > start && chars[i - 1] == '\r' {
                i - 1
            } else {
                i
            };
            let line = text_between(&chars, start, end);
            proof {
                lemma_until_char(rest, '\n', i - start);
                assert(without_return(rest.take(i - start)) =~= line@);
                assert(rest.skip(i - start + 1) =~= chars@.skip(i + 1));
                assert(views(out@.push(line)) =~= views(out@).push(line@));
                assert(views(out@).push(line@) + text_lines(chars@.skip(i + 1)) =~= views(out@) + (
                seq![line@] + text_lines(chars@.skip(i + 1))));
            }
            out.push(line);
            start = i + 1;
        }
        i += 1;
    }
    let ghost rest = chars@.skip(start as int);
    if start < chars.len() {
        let line = text_between(&chars, start, chars.len());
        proof {
            lemma_until_char(rest, '\n', i - start);
            assert(line@ =~= rest);
            assert(views(out@.push(line)) =~= views(out@) + seq![line@]);
        }
        out.push(line);
    } else {
        assert(rest =~= Seq::<char>::empty());
        assert(views(out@) + Seq::<Seq<char>>::empty() =~= views(out@));
    }
    out
}

/// Whether a line can stand between two line feeds and be read as it is.
pub open spec fn plain_line(line: Seq<char>) -> bool {
    &&& !line.contains('\n')
    &&& line.len() > 0 ==> line.last() != '\r'
}

/// The lines of a text that ends with a line feed come before those of what is put behind it.
pub proof fn law_lines_append(front: Seq<char>, back: Seq<char>)
    requires
        front.len() > 0 ==> front.last() == '\n',
    ensures
        text_lines(front + back) == text_lines(front) + text_lines(back),
    decreases front.len(),
{
    let all = front + back;
    if front.len() == 0 {
        assert(all =~= back);
        assert(text_lines(front) + text_lines(back) =~= text_lines(back));
    } else {
        let n = until_char(front, '\n') as int;
        lemma_until_char_meaning(front, '\n');
        assert(n < front.len()) by {
            if n == front.len() {
                assert(front[front.len() - 1] != '\n');
            }
        }
        assert forall|i: int| 0 <= i < n implies #[trigger] all[i] != '\n' by {
            assert(front[i] != '\n');
        }
        lemma_until_char(all, '\n', n);
        assert(all.take(n) =~= front.take(n));
        let rest = front.skip(n + 1);
        assert(all.skip(n + 1) =~= rest + back);
        law_lines_append(rest, back);
        assert(text_lines(all) =~= text_lines(front) + text_lines(back));
    }
}

/// That `until_char` is the first position of the character, or the length if there is none.
pub proof fn lemma_until_char_meaning(s: Seq<char>, c: char)
    ensures
        until_char(s, c) <= s.len(),
        forall|i: int| 0 <= i < until_char(s, c) ==> #[trigger] s[i] != c,
        until_char(s, c) < s.len() ==> s[until_char(s, c) as int] == c,
    decreases s.len(),
{
    if s.len() > 0 && s[0] != c {
        let t = s.drop_first();
        lemma_until_char_meaning(t, c);
        assert forall|i: int| 0 <= i < until_char(s, c) implies #[trigger] s[i] != c by {
            if i > 0 {
                assert(t[i - 1] == s[i]);
            }
        }
    }
}

/// That a line with its line feed is read as that line.
pub proof fn lemma_one_line(line: Seq<char>)
    requires
        plain_line(line),
    ensures
        text_lines(line.push('\n')) == seq![line],
{
    let s = line.push('\n');
    assert forall|i: int| 0 <= i < line.len() implies #[trigger] s[i] != '\n' by {
        assert(line.contains(line[i]));
    }
    lemma_until_char(s, '\n', line.len() as int);
    assert(s.take(line.len() as int) =~= line);
    assert(s.skip(line.len() as int + 1) =~= Seq::empty());
    assert(text_lines(s.skip(line.len() as int + 1)) =~= Seq::empty());
    assert(text_lines(s) =~= seq![line]);
}

/// The lines of a text in which a line stands between two others: those before it, itself, and those
/// after it.
pub proof fn law_line_between(front: Seq<char>, line: Seq<char>, back: Seq<char>)
    requires
        front.len() > 0 ==> front.last() == '\n',
        plain_line(line),
    ensures
        text_lines(front + line.push('\n') + back) == text_lines(front) + seq![line] + text_lines(
            back,
        ),
{
    lemma_one_line(line);
    law_lines_append(front, line.push('\n'));
    law_lines_append(front + line.push('\n'), back);
}

/// No line of a text holds a line feed.
pub proof fn law_lines_are_single(s: Seq<char>)
    ensures
        forall|k: int| 0 <= k < text_lines(s).len() ==> !(#[trigger] text_lines(s)[k]).contains('\n'),
    decreases s.len(),
{
    if s.len() > 0 {
        let n = until_char(s, '\n') as int;
        lemma_until_char_meaning(s, '\n');
        if n < s.len() {
            let rest = s.skip(n + 1);
            law_lines_are_single(rest);
            assert forall|k: int| 0 <= k < text_lines(s).len() implies !(
            #[trigger] text_lines(s)[k]).contains('\n') by {
                if k > 0 {
                    assert(text_lines(s)[k] == text_lines(rest)[k - 1]);
                } else {
                    let first = without_return(s.take(n));
                    if first.contains('\n') {
                        let i = choose|i: int| 0 <= i < first.len() && first[i] == '\n';
                        assert(s[i] == '\n');
                    }
                }
            }
        }
    }
}

/// Lines put together again, with a line feed at the end, are read as the same lines.
pub proof fn law_joined_lines(lines: Seq<Seq<char>>)
    requires
        lines.len() > 0,
        forall|k: int| 0 <= k < lines.len() ==> plain_line(#[trigger] lines[k]),
    ensures
        text_lines(joined(lines).push('\n')) == lines,
    decreases lines.len(),
{
    let last = lines.last();
    lemma_one_line(last);
    if lines.len() > 1 {
        let front = lines.drop_last();
        law_joined_lines(front);
        reveal_strlit("\n");
        let head = joined(front).push('\n');
        assert(joined(lines).push('\n') =~= head + last.push('\n'));
        law_lines_append(head, last.push('\n'));
        assert(lines =~= front + seq![last]);
    } else {
        assert(lines =~= seq![last]);
    }
}

/// Lines put together again, with a line feed between each two.
pub open spec fn joined(lines: Seq<Seq<char>>) -> Seq<char>
    decreases lines.len(),
{
    if lines.len() == 0 {
        Seq::empty()
    } else if lines.len() == 1 {
        lines[0]
    } else {
        joined(lines.drop_last()) + "\n"@ + lines.last()
    }
}

/// Whether no line of a text ends with a carriage return.
pub open spec fn no_returns(s: Seq<char>) -> bool {
    forall|i: int|
        0 <= i < s.len() && #[trigger] s[i] == '\r' ==> i + 1 < s.len() && s[i + 1] != '\n'
}

proof fn lemma_joined_first(first: Seq<char>, rest: Seq<Seq<char>>)
    requires
        rest.len() > 0,
    ensures
        joined(seq![first] + rest) == first + "\n"@ + joined(rest),
    decreases rest.len(),
{
    let all = seq![first] + rest;
    assert(all.drop_last() =~= seq![first] + rest.drop_last());
    assert(all.last() == rest.last());
    if rest.len() > 1 {
        lemma_joined_first(first, rest.drop_last());
        assert(joined(all) =~= first + "\n"@ + joined(rest));
    } else {
        assert(all.drop_last() =~= seq![first]);
        assert(joined(seq![first]) == first);
        assert(joined(rest) == rest[0]);
    }
}

/// The lines of a text, with a line feed behind it, give the text when they are put together again.
pub proof fn law_lines_joined(s: Seq<char>)
    requires
        no_returns(s),
    ensures
        joined(text_lines(s.push('\n'))) == s,
    decreases s.len(),
{
    let n = until_char(s, '\n') as int;
    lemma_until_char_meaning(s, '\n');
    let line = s.take(n);
    assert(plain_line(line)) by {
        if line.contains('\n') {
            let k = choose|k: int| 0 <= k < line.len() && line[k] == '\n';
            assert(s[k] == '\n');
        }
        if n > 0 {
            assert(line.last() == s[n - 1]);
        }
    }
    lemma_one_line(line);
    if n == s.len() {
        assert(line =~= s);
    } else {
        reveal_strlit("\n");
        let rest = s.skip(n + 1);
        assert forall|i: int| 0 <= i < rest.len() && #[trigger] rest[i] == '\r' implies i + 1
            < rest.len() && rest[i + 1] != '\n' by {
            assert(s[n + 1 + i] == '\r');
        }
        law_lines_joined(rest);
        assert(s.push('\n') =~= line.push('\n') + rest.push('\n'));
        law_lines_append(line.push('\n'), rest.push('\n'));
        lemma_joined_first(line, text_lines(rest.push('\n')));
        assert(s =~= line + "\n"@ + rest);
    }
}

/// That every line of a text stands in it.
pub proof fn lemma_lines_stand(s: Seq<char>)
    ensures
        forall|k: int| 0 <= k < text_lines(s).len() ==> has_text(s, #[trigger] text_lines(s)[k]),
    decreases s.len(),
{
    let rows = text_lines(s);
    let n = until_char(s, '\n') as int;
    lemma_until_char_meaning(s, '\n');
    if s.len() > 0 && n < s.len() {
        let rest = s.skip(n + 1);
        lemma_lines_stand(rest);
        assert forall|k: int| 0 <= k < rows.len() implies has_text(s, #[trigger] rows[k]) by {
            if k > 0 {
                let line = text_lines(rest)[k - 1];
                assert(rows[k] == line);
                let at = choose|at: int| stands_at(rest, line, at);
                assert(s.subrange(n + 1 + at, n + 1 + at + line.len()) =~= line);
                assert(stands_at(s, line, n + 1 + at));
            } else {
                let line = rows[0];
                assert(s.subrange(0, line.len() as int) =~= line);
                assert(stands_at(s, line, 0));
            }
        }
    } else if s.len() > 0 {
        assert(s.subrange(0, s.len() as int) =~= s);
        assert(stands_at(s, s, 0));
        assert(rows =~= seq![s]);
    }
}

/// That a text stands wherever a text stands that it stands in.
pub proof fn lemma_stands_within(s: Seq<char>, line: Seq<char>, part: Seq<char>)
    requires
        has_text(s, line),
        has_text(line, part),
    ensures
        has_text(s, part),
{
    let a = choose|at: int| stands_at(s, line, at);
    let b = choose|at: int| stands_at(line, part, at);
    assert(s.subrange(a + b, a + b + part.len()) =~= line.subrange(b, b + part.len()));
    assert(stands_at(s, part, a + b));
}

/// Puts the lines from one position up to another together, with a line feed between each two.
pub fn join(lines: &Vec<String>, from: usize, to: usize) -> (out: String)
    requires
        from <= to <= lines@.len(),
    ensures
        out@ == joined(views(lines@).subrange(from as int, to as int)),
{
    let mut out = String::new();
    let mut i: usize = from;
    while i < to
        invariant
            from <= i <= to <= lines@.len(),
            out@ == joined(views(lines@).subrange(from as int, i as int)),
        decreases to - i,
    {
        let ghost done = views(lines@).subrange(from as int, i as int);
        let ghost next = views(lines@).subrange(from as int, i + 1);
        assert(next.drop_last() =~= done);
        if i > from {
            out.append("\n");
        }
        let ghost before = out@;
        out.append(lines[i].as_str());
        assert(next.last() == lines@[i as int]@);
        assert(before.len() == 0 ==> before + lines@[i as int]@ =~= lines@[i as int]@);
        i += 1;
    }
    out
}

// Searching.

/// Whether a text stands in another at a position.
pub open spec fn stands_at(s: Seq<char>, part: Seq<char>, at: int) -> bool {
    0 <= at && at + part.len() <= s.len() && s.subrange(at, at + part.len()) == part
}

/// Whether a text stands somewhere in another.
pub open spec fn has_text(s: Seq<char>, part: Seq<char>) -> bool {
    exists|at: int| #[trigger] stands_at(s, part, at)
}

/// Whether a text stands somewhere in another.
pub fn contains(s: &str, part: &str) -> (out: bool)
    ensures
        out == has_text(s@, part@),
{
    let chars = chars_of(s);
    let wanted = chars_of(part);
    if wanted.len() > chars.len() {
        return false;
    }
    let last: usize = chars.len() - wanted.len();
    let mut at: usize = 0;
    loop
        invariant
            chars@ == s@,
            wanted@ == part@,
            last + wanted@.len() == chars@.len(),
            at <= last,
            forall|k: int| 0 <= k < at ==> !#[trigger] stands_at(s@, part@, k),
        decreases last - at,
    {
        let mut n: usize = 0;
        while n < wanted.len() && chars[at + n] == wanted[n]
            invariant
                chars@.len() == chars.len(),
                at + wanted@.len() <= chars@.len(),
                n <= wanted@.len(),
                forall|k: int| 0 <= k < n ==> chars@[at + k] == #[trigger] wanted@[k],
            decreases wanted.len() - n,
        {
            n += 1;
        }
        if n == wanted.len() {
            assert(s@.subrange(at as int, at + part@.len()) =~= part@);
            assert(stands_at(s@, part@, at as int));
            return true;
        }
        assert(!stands_at(s@, part@, at as int)) by {
            if stands_at(s@, part@, at as int) {
                assert(s@.subrange(at as int, at + part@.len())[n as int] == part@[n as int]);
            }
        }
        if at == last {
            return false;
        }
        at += 1;
    }
}

/// How many lines come before the first one in which a text stands.
pub open spec fn until_text(lines: Seq<Seq<char>>, part: Seq<char>) -> nat
    decreases lines.len(),
{
    if lines.len() == 0 || has_text(lines[0], part) {
        0
    } else {
        1 + until_text(lines.drop_first(), part)
    }
}

/// That `until_text` is the one position with the text in no line before it and in the line at it.
pub proof fn lemma_until_text(lines: Seq<Seq<char>>, part: Seq<char>, n: int)
    requires
        0 <= n <= lines.len(),
        forall|i: int| 0 <= i < n ==> !has_text(#[trigger] lines[i], part),
        n < lines.len() ==> has_text(lines[n], part),
    ensures
        until_text(lines, part) == n,
    decreases n,
{
    if n > 0 {
        let t = lines.drop_first();
        assert forall|i: int| 0 <= i < n - 1 implies !has_text(#[trigger] t[i], part) by {
            assert(t[i] == lines[i + 1]);
        }
        lemma_until_text(t, part, n - 1);
    }
}

/// That `until_text` counts lines without the text, up to one with it or to the end.
pub proof fn lemma_until_text_meaning(lines: Seq<Seq<char>>, part: Seq<char>)
    ensures
        until_text(lines, part) <= lines.len(),
        forall|i: int| 0 <= i < until_text(lines, part) ==> !has_text(#[trigger] lines[i], part),
        until_text(lines, part) < lines.len() ==> has_text(
            lines[until_text(lines, part) as int],
            part,
        ),
    decreases lines.len(),
{
    if lines.len() > 0 && !has_text(lines[0], part) {
        let t = lines.drop_first();
        lemma_until_text_meaning(t, part);
        assert forall|i: int| 0 <= i < until_text(lines, part) implies !has_text(
            #[trigger] lines[i],
            part,
        ) by {
            if i > 0 {
                assert(t[i - 1] == lines[i]);
            }
        }
    }
}

/// What follows a line in which a text stands does not count among the lines before such a line.
pub proof fn law_lines_before_cut(
    front: Seq<Seq<char>>,
    marked: Seq<char>,
    back: Seq<Seq<char>>,
    part: Seq<char>,
)
    requires
        has_text(marked, part),
    ensures
        lines_before(front + seq![marked] + back, part) == lines_before(front, part),
{
    let all = front + seq![marked] + back;
    let n = until_text(front, part) as int;
    lemma_until_text_meaning(front, part);
    assert forall|i: int| 0 <= i < n implies !has_text(#[trigger] all[i], part) by {
        assert(all[i] == front[i]);
    }
    assert(all[front.len() as int] == marked);
    lemma_until_text(all, part, n);
    assert(all.take(n) =~= front.take(n));
}

/// The lines before the first one in which a text stands.
pub open spec fn lines_before(lines: Seq<Seq<char>>, part: Seq<char>) -> Seq<Seq<char>> {
    lines.take(until_text(lines, part) as int)
}

/// Puts together the lines from a position on that come before the first one in which a text stands.
pub fn join_before(lines: &Vec<String>, from: usize, part: &str) -> (out: String)
    requires
        from <= lines@.len(),
    ensures
        out@ == joined(lines_before(views(lines@).skip(from as int), part@)),
{
    let ghost rest = views(lines@).skip(from as int);
    let mut to: usize = from;
    while to < lines.len() && !contains(lines[to].as_str(), part)
        invariant
            rest == views(lines@).skip(from as int),
            from <= to <= lines@.len(),
            forall|i: int| 0 <= i < to - from ==> !has_text(#[trigger] rest[i], part@),
        decreases lines.len() - to,
    {
        assert(rest[to - from] == lines@[to as int]@);
        to += 1;
    }
    proof {
        if to < lines@.len() {
            assert(rest[to - from] == lines@[to as int]@);
        }
        lemma_until_text(rest, part@, to - from);
        assert(views(lines@).subrange(from as int, to as int) =~= rest.take(to - from));
    }
    join(lines, from, to)
}

// Numbers.

/// The character of a digit.
pub open spec fn digit(d: nat) -> char {
    (48 + d) as char
}

/// A number in decimal digits, without leading zeros.
pub open spec fn decimal(n: nat) -> Seq<char>
    decreases n,
{
    if n < 10 {
        seq![digit(n)]
    } else {
        decimal(n / 10).push(digit(n % 10))
    }
}

/// Appends a number in decimal digits.
pub fn push_decimal(out: &mut String, n: u64)
    ensures
        final(out)@ == old(out)@ + decimal(n as nat),
    decreases n,
{
    if n >= 10 {
        push_decimal(out, n / 10);
    }
    let ghost before = out@;
    let c = (48u8 + (n % 10) as u8) as char;
    assert(c == digit((n % 10) as nat));
    out.push(c);
    assert(before.push(c) =~= old(out)@ + decimal(n as nat));
}

/// Why a text is no 32-bit integer.
#[derive(Clone, Copy, Debug, PartialEq, Eq, Structural)]
pub enum IntError {
    /// There are no characters.
    Empty,
    /// A character is no digit, or a sign stands alone.
    InvalidDigit,
    /// The number is above the largest 32-bit integer.
    TooLarge,
    /// The number is below the smallest 32-bit integer.
    TooSmall,
}

/// The value of a digit character, if it is one.
pub open spec fn digit_value(c: char) -> Option<int> {
    if '0' <= c && c <= '9' {
        Some(c as int - 48)
    } else {
        None
    }
}

/// The value of a row of digits, read from the left, or the first thing wrong with it.
pub open spec fn digits_value(s: Seq<char>, negative: bool) -> Result<int, IntError>
    decreases s.len(),
{
    if s.len() == 0 {
        Ok(0)
    } else {
        match (digits_value(s.drop_last(), negative), digit_value(s.last())) {
            (Err(e), _) => Err(e),
            (Ok(_), None) => Err(IntError::InvalidDigit),
            (Ok(v), Some(d)) => {
                let w = if negative {
                    v * 10 - d
                } else {
                    v * 10 + d
                };
                if w > i32::MAX {
                    Err(IntError::TooLarge)
                } else if w < i32::MIN {
                    Err(IntError::TooSmall)
                } else {
                    Ok(w)
                }
            },
        }
    }
}

/// The 32-bit integer that a text spells: digits, which one sign may precede.
pub open spec fn int_value(s: Seq<char>) -> Result<int, IntError> {
    if s.len() == 0 {
        Err(IntError::Empty)
    } else if s[0] == '-' || s[0] == '+' {
        if s.len() == 1 {
            Err(IntError::InvalidDigit)
        } else {
            digits_value(s.drop_first(), s[0] == '-')
        }
    } else {
        digits_value(s, false)
    }
}

proof fn lemma_digits_stuck(s: Seq<char>, negative: bool, n: int)
    requires
        0 <= n <= s.len(),
        digits_value(s.take(n), negative) is Err,
    ensures
        digits_value(s, negative) == digits_value(s.take(n), negative),
    decreases s.len() - n,
{
    if n < s.len() {
        assert(s.take(n + 1).drop_last() =~= s.take(n));
        lemma_digits_stuck(s, negative, n + 1);
    } else {
        assert(s.take(n) =~= s);
    }
}

/// Reads a 32-bit integer.
pub fn parse_int(s: &str) -> (out: Result<i32, IntError>)
    ensures
        match out {
            Ok(v) => int_value(s@) == Ok::<int, IntError>(v as int),
            Err(e) => int_value(s@) == Err::<int, IntError>(e),
        },
{
    let chars = chars_of(s);
    if chars.len() == 0 {
        return Err(IntError::Empty);
    }
    let signed = chars[0] == '-' || chars[0] == '+';
    if signed && chars.len() == 1 {
        return Err(IntError::InvalidDigit);
    }
    let negative = chars[0] == '-';
    let first: usize = if signed {
        1
    } else {
        0
    };
    let ghost digits = chars@.skip(first as int);
    assert(int_value(s@) == digits_value(digits, negative)) by {
        if signed {
            assert(digits =~= s@.drop_first());
        } else {
            assert(digits =~= s@);
        }
    }
    let mut value: i64 = 0;
    let mut i: usize = first;
    assert(digits.take(0) =~= Seq::<char>::empty());
    while i < chars.len()
        invariant
            first <= i <= chars@.len(),
            digits == chars@.skip(first as int),
            int_value(s@) == digits_value(digits, negative),
            i32::MIN <= value <= i32::MAX,
            digits_value(digits.take(i - first), negative) == Ok::<int, IntError>(value as int),
        decreases chars.len() - i,
    {
        let c = chars[i];
        let ghost upto = digits.take(i - first + 1);
        assert(upto.drop_last() =~= digits.take(i - first));
        assert(upto.last() == c);
        if !('0' <= c && c <= '9') {
            proof {
                lemma_digits_stuck(digits, negative, i - first + 1);
            }
            return Err(IntError::InvalidDigit);
        }
        let d = (c as u32 - 48) as i64;
        let next = if negative {
            value * 10 - d
        } else {
            value * 10 + d
        };
        if next > 2147483647 {
            proof {
                lemma_digits_stuck(digits, negative, i - first + 1);
            }
            return Err(IntError::TooLarge);
        }
        if next < -2147483648 {
            proof {
                lemma_digits_stuck(digits, negative, i - first + 1);
            }
            return Err(IntError::TooSmall);
        }
        value = next;
        i += 1;
    }
    assert(digits.take(i - first) =~= digits);
    Ok(value as i32)
}

// What trimming, splitting, joining and searching amount to.

/// Trimming takes off whatever stands around a text and is of the class, and nothing else: the text
/// that is left is empty, or neither starts nor ends with a character of the class.
pub proof fn law_trim_around(
    front: Seq<char>,
    core: Seq<char>,
    back: Seq<char>,
    class: CharClass,
)
    requires
        forall|i: int| 0 <= i < front.len() ==> class.holds(#[trigger] front[i]),
        forall|i: int| 0 <= i < back.len() ==> class.holds(#[trigger] back[i]),
        core.len() > 0 ==> !class.holds(core[0]) && !class.holds(core.last()),
    ensures
        trimmed(front + core + back, class) == core,
{
    let s = front + core + back;
    let n = if core.len() > 0 {
        front.len() as int
    } else {
        s.len() as int
    };
    assert forall|i: int| 0 <= i < n implies class.holds(#[trigger] s[i]) by {
        if i < front.len() {
            assert(s[i] == front[i]);
        } else {
            assert(s[i] == back[i - front.len()]);
        }
    }
    if core.len() > 0 {
        assert(s[n] == core[0]);
    }
    lemma_trimmed_front(s, class, n);
    let t = s.skip(n);
    assert forall|i: int| core.len() <= i < t.len() implies class.holds(#[trigger] t[i]) by {
        assert(t[i] == back[i - core.len()]);
    }
    if core.len() > 0 {
        assert(t[core.len() - 1] == core.last());
    }
    lemma_trimmed_back(t, class, core.len() as int);
    assert(t.take(core.len() as int) =~= core);
}

/// The mark of a bookmark is the star alone, and whitespace is whitespace.
pub proof fn law_classes(c: char)
    ensures
        CharClass::Star.holds(c) <==> c == '*',
        CharClass::Whitespace.holds(c) <==> is_whitespace(c),
{
}

/// A text is blank exactly if it consists of whitespace.
pub proof fn law_blank(s: Seq<char>)
    ensures
        is_blank(s) <==> forall|i: int| 0 <= i < s.len() ==> is_whitespace(#[trigger] s[i]),
{
    if forall|i: int| 0 <= i < s.len() ==> is_whitespace(#[trigger] s[i]) {
        law_trim_around(s, Seq::empty(), Seq::empty(), CharClass::Whitespace);
        assert(s + Seq::empty() + Seq::empty() =~= s);
    } else {
        let i = choose|i: int| 0 <= i < s.len() && !is_whitespace(#[trigger] s[i]);
        law_not_blank(s, i);
    }
}

/// Whitespace ends a word: the words before it and the words after it are the words of the whole.
pub proof fn law_words_split(front: Seq<char>, c: char, back: Seq<char>)
    requires
        is_whitespace(c),
    ensures
        text_words(front.push(c) + back) == text_words(front) + text_words(back),
    decreases front.len(),
{
    let s = front.push(c) + back;
    let class = CharClass::Whitespace;
    if front.len() == 0 {
        assert(s[0] == c);
        assert(s.drop_first() =~= back);
        assert(text_words(front) + text_words(back) =~= text_words(back));
    } else if is_whitespace(front[0]) {
        assert(s[0] == front[0]);
        assert(s.drop_first() =~= front.drop_first().push(c) + back);
        law_words_split(front.drop_first(), c, back);
    } else {
        let f = front.drop_first();
        let t = s.drop_first();
        let n = until_class(f, class) as int;
        lemma_until_class_meaning(f, class);
        assert forall|i: int| 0 <= i < n implies !class.holds(#[trigger] t[i]) by {
            assert(t[i] == f[i]);
        }
        assert(t[n] == if n < f.len() {
            f[n]
        } else {
            c
        });
        lemma_until_class(t, class, n);
        let rest = front.skip(n + 1);
        law_words_split(rest, c, back);
        assert(s.skip(n + 1) =~= rest.push(c) + back);
        assert(s.take(n + 1) =~= front.take(n + 1));
        assert(text_words(s) =~= text_words(front) + text_words(back));
    }
}

/// A text without whitespace is one word, and nothing has no words.
pub proof fn law_one_word(word: Seq<char>)
    requires
        forall|i: int| 0 <= i < word.len() ==> !is_whitespace(#[trigger] word[i]),
    ensures
        text_words(word) == if word.len() > 0 {
            seq![word]
        } else {
            Seq::empty()
        },
{
    if word.len() > 0 {
        let t = word.drop_first();
        assert forall|i: int| 0 <= i < t.len() implies !CharClass::Whitespace.holds(
            #[trigger] t[i],
        ) by {
            assert(t[i] == word[i + 1]);
        }
        lemma_until_class(t, CharClass::Whitespace, t.len() as int);
        let n = word.len() as int;
        assert(word.take(n) =~= word);
        assert(word.skip(n) =~= Seq::empty());
        assert(text_words(word.skip(n)) =~= Seq::empty());
        assert(text_words(word) =~= seq![word]);
    }
}

/// A text is split at the first occurrence of a character, and not split if there is none.
pub proof fn law_split(front: Seq<char>, c: char, back: Seq<char>)
    requires
        !front.contains(c),
    ensures
        split_at_first(front.push(c) + back, c) == Some((front, back)),
        split_at_first(front, c) is None,
{
    let s = front.push(c) + back;
    let n = front.len() as int;
    assert forall|i: int| 0 <= i < n implies #[trigger] front[i] != c by {
        assert(front.contains(front[i]));
    }
    assert forall|i: int| 0 <= i < n implies #[trigger] s[i] != c by {
        assert(s[i] == front[i]);
    }
    assert(s[n] == c);
    lemma_until_char(s, c, n);
    lemma_until_char(front, c, n);
    assert(s.take(n) =~= front);
    assert(s.skip(n + 1) =~= back);
}

/// A line feed ends a line, and takes one carriage return before it along. What follows the last line
/// feed is a line to the letter, and nothing has no lines.
pub proof fn law_one_line(line: Seq<char>)
    requires
        !line.contains('\n'),
    ensures
        text_lines(line.push('\n')) == seq![line] || line.len() > 0 && line.last() == '\r',
        text_lines(line.push('\r').push('\n')) == seq![line],
        text_lines(line) == if line.len() > 0 {
            seq![line]
        } else {
            Seq::empty()
        },
{
    if !(line.len() > 0 && line.last() == '\r') {
        lemma_one_line(line);
    }
    let s = line.push('\r').push('\n');
    let n = line.len() as int + 1;
    assert forall|i: int| 0 <= i < n implies #[trigger] s[i] != '\n' by {
        if i < line.len() {
            assert(line.contains(line[i]));
        }
    }
    lemma_until_char(s, '\n', n);
    assert(s.take(n) =~= line.push('\r'));
    assert(without_return(line.push('\r')) =~= line);
    assert(s.skip(n + 1) =~= Seq::empty());
    assert(text_lines(s.skip(n + 1)) =~= Seq::empty());
    assert(text_lines(s) =~= seq![line]);
    assert forall|i: int| 0 <= i < line.len() implies #[trigger] line[i] != '\n' by {
        assert(line.contains(line[i]));
    }
    lemma_until_char(line, '\n', line.len() as int);
}

/// Lines are joined with one line feed between each two, and nothing else.
pub proof fn law_joined(front: Seq<Seq<char>>, back: Seq<Seq<char>>, line: Seq<char>)
    ensures
        joined(Seq::empty()) == Seq::<char>::empty(),
        joined(seq![line]) == line,
        front.len() > 0 && back.len() > 0 ==> joined(front + back) == joined(front).push('\n')
            + joined(back),
    decreases back.len(),
{
    reveal_strlit("\n");
    if front.len() > 0 && back.len() > 0 {
        let all = front + back;
        assert(all.last() == back.last());
        assert(all.drop_last() =~= front + back.drop_last());
        if back.len() > 1 {
            law_joined(front, back.drop_last(), line);
        } else {
            assert(all.drop_last() =~= front);
        }
        assert(joined(all) =~= joined(front).push('\n') + joined(back));
    }
}

/// A text stands in another exactly if the other is made of it and of what is around it.
pub proof fn law_has_text(s: Seq<char>, part: Seq<char>)
    ensures
        has_text(s, part) <==> exists|front: Seq<char>, back: Seq<char>| s == #[trigger] (front
            + part + back),
{
    if has_text(s, part) {
        let at = choose|at: int| stands_at(s, part, at);
        let front = s.take(at);
        let back = s.skip(at + part.len());
        assert(s =~= front + part + back);
    }
    if exists|front: Seq<char>, back: Seq<char>| s == #[trigger] (front + part + back) {
        let (front, back) = choose|front: Seq<char>, back: Seq<char>|
            s == #[trigger] (front + part + back);
        let at = front.len() as int;
        assert(s.subrange(at, at + part.len()) =~= part);
        assert(stands_at(s, part, at));
    }
}

/// The lines before a text are all those in front of the first line that it stands in.
pub proof fn law_lines_before(front: Seq<Seq<char>>, back: Seq<Seq<char>>, part: Seq<char>)
    requires
        forall|i: int| 0 <= i < front.len() ==> !has_text(#[trigger] front[i], part),
        back.len() > 0 ==> has_text(back[0], part),
    ensures
        lines_before(front + back, part) == front,
{
    let all = front + back;
    let n = front.len() as int;
    assert forall|i: int| 0 <= i < n implies !has_text(#[trigger] all[i], part) by {
        assert(all[i] == front[i]);
    }
    if back.len() > 0 {
        assert(all[n] == back[0]);
    }
    lemma_until_text(all, part, n);
    assert(all.take(n) =~= front);
}

/// A number in decimal digits is the number without its last digit, then that digit.
pub proof fn law_decimal(n: nat, d: nat)
    requires
        d < 10,
    ensures
        decimal(d) == seq![(48 + d) as char],
        n > 0 ==> decimal(10 * n + d) == decimal(n).push((48 + d) as char),
{
    if n > 0 {
        assert((10 * n + d) / 10 == n);
        assert((10 * n + d) % 10 == d);
    }
}

/// The number that a row of digits means.
pub open spec fn digits_mean(digits: Seq<char>) -> int {
    digits.fold_left(0int, |value: int, c: char| value * 10 + (c as int - 48))
}

proof fn lemma_digits(digits: Seq<char>, negative: bool)
    requires
        forall|i: int| 0 <= i < digits.len() ==> '0' <= #[trigger] digits[i] <= '9',
    ensures
        digits_mean(digits) >= 0,
        digits_value(digits, negative) == if negative {
            if digits_mean(digits) <= 2147483648 {
                Ok::<int, IntError>(-digits_mean(digits))
            } else {
                Err(IntError::TooSmall)
            }
        } else {
            if digits_mean(digits) <= 2147483647 {
                Ok(digits_mean(digits))
            } else {
                Err(IntError::TooLarge)
            }
        },
    decreases digits.len(),
{
    reveal(Seq::fold_left);
    if digits.len() > 0 {
        let front = digits.drop_last();
        assert forall|i: int| 0 <= i < front.len() implies '0' <= #[trigger] front[i] <= '9' by {
            assert(front[i] == digits[i]);
        }
        lemma_digits(front, negative);
        let c = digits[digits.len() - 1];
        assert('0' <= c <= '9');
        assert(digits_mean(digits) == digits_mean(front) * 10 + (c as int - 48));
    }
}

/// A row of digits, with or without a sign, is read as the number that it means, if that fits.
pub proof fn law_integer(digits: Seq<char>)
    requires
        digits.len() > 0,
        forall|i: int| 0 <= i < digits.len() ==> '0' <= #[trigger] digits[i] <= '9',
    ensures
        int_value(digits) == if digits_mean(digits) <= 2147483647 {
            Ok::<int, IntError>(digits_mean(digits))
        } else {
            Err(IntError::TooLarge)
        },
        int_value(seq!['+'] + digits) == int_value(digits),
        int_value(seq!['-'] + digits) == if digits_mean(digits) <= 2147483648 {
            Ok::<int, IntError>(-digits_mean(digits))
        } else {
            Err(IntError::TooSmall)
        },
{
    lemma_digits(digits, false);
    lemma_digits(digits, true);
    assert('0' <= digits[0] <= '9');
    assert((seq!['+'] + digits).drop_first() =~= digits);
    assert((seq!['-'] + digits).drop_first() =~= digits);
}

/// A row of digits that is cut short by another character is no integer: it is out of range if the
/// digits are already, and else the character is to blame.
pub proof fn law_no_integer(digits: Seq<char>, bad: char, rest: Seq<char>)
    requires
        forall|i: int| 0 <= i < digits.len() ==> '0' <= #[trigger] digits[i] <= '9',
        !('0' <= bad <= '9'),
    ensures
        digits.len() > 0 || bad != '+' && bad != '-' ==> int_value(digits.push(bad) + rest) == if
        digits_mean(digits) <= 2147483647 {
            Err::<int, IntError>(IntError::InvalidDigit)
        } else {
            Err(IntError::TooLarge)
        },
        int_value(seq!['+'] + digits.push(bad) + rest) == if digits_mean(digits) <= 2147483647 {
            Err::<int, IntError>(IntError::InvalidDigit)
        } else {
            Err(IntError::TooLarge)
        },
        int_value(seq!['-'] + digits.push(bad) + rest) == if digits_mean(digits) <= 2147483648 {
            Err::<int, IntError>(IntError::InvalidDigit)
        } else {
            Err(IntError::TooSmall)
        },
        int_value(Seq::empty()) == Err::<int, IntError>(IntError::Empty),
        int_value(seq!['+']) == Err::<int, IntError>(IntError::InvalidDigit),
        int_value(seq!['-']) == Err::<int, IntError>(IntError::InvalidDigit),
{
    let s = digits.push(bad) + rest;
    let n = digits.len() as int + 1;
    assert(s.take(n) =~= digits.push(bad));
    assert(digits.push(bad).drop_last() =~= digits);
    lemma_digits(digits, false);
    lemma_digits(digits, true);
    lemma_digits_stuck(s, false, n);
    lemma_digits_stuck(s, true, n);
    if digits.len() > 0 {
        assert(s[0] == digits[0]);
    } else {
        assert(s[0] == bad);
    }
    assert((seq!['+'] + digits.push(bad) + rest).drop_first() =~= s);
    assert((seq!['-'] + digits.push(bad) + rest).drop_first() =~= s);
}

/// What is looked at in a list of strings are all of them, in their order, and each as it is.
pub proof fn law_views(list: Seq<String>, k: int, one: Option<String>)
    requires
        0 <= k < list.len(),
    ensures
        views(list).len() == list.len(),
        views(list)[k] == list[k]@,
        option_view(one) is Some <==> one is Some,
        one is Some ==> option_view(one)->0 == one->0@,
{
}

} // verus!
