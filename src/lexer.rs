use vstd::prelude::*;
use vstd::string::*;

verus! {

/// A place in a source text, counted in characters from its start.
#[derive(Debug, Clone, Copy, PartialEq, Eq, Structural)]
pub struct Position {
    pub offset: usize,
}

/// What went wrong while parsing.
#[derive(Debug, Clone, Copy, PartialEq, Eq, Structural)]
pub enum ParseErrorKind {
    UnexpectedEnd,
    UnexpectedChar(char),
    IntegerOverflow,
    /// A float literal, or a name where a literal value is needed.
    UnsupportedLiteral,
}

/// A syntax error, with the place where it was found.
#[derive(Debug, Clone, Copy, PartialEq, Eq, Structural)]
pub struct ParseError {
    pub position: Position,
    pub kind: ParseErrorKind,
}

pub open spec fn is_ident_char(c: char) -> bool {
    ('a' <= c && c <= 'z') || ('A' <= c && c <= 'Z') || ('0' <= c && c <= '9') || c == '_'
}

pub open spec fn is_digit(c: char) -> bool {
    '0' <= c && c <= '9'
}

pub open spec fn is_space(c: char) -> bool {
    c == ' ' || c == '\t' || c == '\n' || c == '\r'
}

pub open spec fn digit_value(c: char) -> int {
    c as int - '0' as int
}

/// The number that a run of decimal digits denotes.
pub open spec fn digits_value(s: Seq<char>) -> int
    decreases s.len(),
{
    if s.len() == 0 {
        0
    } else {
        digits_value(s.drop_last()) * 10 + digit_value(s.last())
    }
}

/// All characters of `s` in `[i, j)` satisfy `p`.
pub open spec fn all_in(s: Seq<char>, i: int, j: int, p: spec_fn(char) -> bool) -> bool {
    forall|k: int| i <= k < j ==> #[trigger] p(s[k])
}

/// `j` ends the longest run from `i` whose characters satisfy `p`.
pub open spec fn run_end(s: Seq<char>, i: int, j: int, p: spec_fn(char) -> bool) -> bool {
    &&& i <= j <= s.len()
    &&& all_in(s, i, j, p)
    &&& (j == s.len() || !p(s[j]))
}

/// Where the run of characters satisfying `p` from `i` ends.
pub open spec fn run_to(s: Seq<char>, i: int, p: spec_fn(char) -> bool) -> int
    decreases s.len() - i,
{
    if 0 <= i < s.len() && p(s[i]) {
        run_to(s, i + 1, p)
    } else {
        i
    }
}

pub proof fn lemma_run_to(s: Seq<char>, i: int, j: int, p: spec_fn(char) -> bool)
    requires
        0 <= i,
        run_end(s, i, j, p),
    ensures
        run_to(s, i, p) == j,
    decreases j - i,
{
    if i < j {
        assert(p(s[i]));
        lemma_run_to(s, i + 1, j, p);
    }
}

pub(crate) fn char_is_ident(c: char) -> (r: bool)
    ensures
        r == is_ident_char(c),
{
    ('a' <= c && c <= 'z') || ('A' <= c && c <= 'Z') || ('0' <= c && c <= '9') || c == '_'
}

pub(crate) fn char_is_digit(c: char) -> (r: bool)
    ensures
        r == is_digit(c),
{
    '0' <= c && c <= '9'
}

pub(crate) fn char_is_space(c: char) -> (r: bool)
    ensures
        r == is_space(c),
{
    c == ' ' || c == '\t' || c == '\n' || c == '\r'
}

/// A source text, with its characters at hand by index.
pub(crate) struct Source {
    pub text: String,
    pub chars: Vec<char>,
}

impl Source {
    pub(crate) open spec fn wf(&self) -> bool {
        self.chars@ == self.text@
    }

    pub(crate) fn new(text: &str) -> (r: Source)
        ensures
            r.wf(),
            r.text@ == text@,
    {
        let n = text.unicode_len();
        let mut chars: Vec<char> = Vec::new();
        let mut i: usize = 0;
        while i < n
            invariant
                n == text@.len(),
                i <= n,
                chars@ == text@.subrange(0, i as int),
            decreases n - i,
        {
            chars.push(text.get_char(i));
            i += 1;
            assert(chars@ =~= text@.subrange(0, i as int));
        }
        assert(chars@ =~= text@);
        Source { text: String::from_str(text), chars }
    }

    /// The string made of the characters in `[i, j)`.
    pub(crate) fn slice(&self, i: usize, j: usize) -> (r: String)
        requires
            self.wf(),
            i <= j <= self.chars@.len(),
        ensures
            r@ == self.chars@.subrange(i as int, j as int),
    {
        String::from_str(self.text.as_str().substring_char(i, j))
    }
}

/// Skips spaces from `i`.
pub(crate) fn skip_spaces(s: &Vec<char>, i: usize) -> (j: usize)
    requires
        i <= s@.len(),
    ensures
        run_end(s@, i as int, j as int, |c: char| is_space(c)),
{
    let mut j = i;
    while j < s.len() && char_is_space(s[j])
        invariant
            i <= j <= s@.len(),
            all_in(s@, i as int, j as int, |c: char| is_space(c)),
        decreases s@.len() - j,
    {
        j += 1;
    }
    j
}

/// The end of the line that holds `i`: the index of the next `'\n'`, or the end.
pub(crate) fn line_end(s: &Vec<char>, i: usize) -> (j: usize)
    requires
        i <= s@.len(),
    ensures
        run_end(s@, i as int, j as int, |c: char| c != '\n'),
{
    let mut j = i;
    while j < s.len() && s[j] != '\n'
        invariant
            i <= j <= s@.len(),
            all_in(s@, i as int, j as int, |c: char| c != '\n'),
        decreases s@.len() - j,
    {
        j += 1;
    }
    j
}

pub open spec fn starts_comment(s: Seq<char>, i: int) -> bool {
    i + 1 < s.len() && s[i] == '/' && s[i + 1] == '/'
}

/// The end of the line that holds `i`: the index of the next line break, or the end.
pub open spec fn line_end_spec(s: Seq<char>, i: int) -> int
    decreases s.len() - i,
{
    if i >= s.len() || s[i] == '\n' {
        if i >= s.len() { s.len() as int } else { i }
    } else {
        line_end_spec(s, i + 1)
    }
}

/// Where the blanks from `i` end: spaces and `//` comments (to the end of their
/// line) are skipped.
pub open spec fn blank_end(s: Seq<char>, i: int) -> int
    decreases s.len() - i,
{
    if i < 0 || i >= s.len() {
        i
    } else if is_space(s[i]) {
        blank_end(s, i + 1)
    } else if starts_comment(s, i) {
        if i < line_end_spec(s, i + 2) <= s.len() {
            blank_end(s, line_end_spec(s, i + 2))
        } else {
            i
        }
    } else {
        i
    }
}

proof fn lemma_line_end(s: Seq<char>, i: int, j: int)
    requires
        0 <= i <= s.len(),
        run_end(s, i, j, |c: char| c != '\n'),
    ensures
        line_end_spec(s, i) == j,
    decreases s.len() - i,
{
    if i < j {
        assert((|c: char| c != '\n')(s[i]));
        lemma_line_end(s, i + 1, j);
    }
}

proof fn lemma_blank_spaces(s: Seq<char>, i: int, j: int)
    requires
        0 <= i <= j <= s.len(),
        all_in(s, i, j, |c: char| is_space(c)),
    ensures
        blank_end(s, i) == blank_end(s, j),
    decreases j - i,
{
    if i < j {
        assert((|c: char| is_space(c))(s[i]));
        lemma_blank_spaces(s, i + 1, j);
    }
}

/// Skips spaces and `//` comments from `i`.
pub(crate) fn skip_blank(s: &Vec<char>, i: usize) -> (j: usize)
    requires
        i <= s@.len(),
    ensures
        j == blank_end(s@, i as int),
        i <= j <= s@.len(),
        j == s@.len() || !is_space(s@[j as int]),
        !starts_comment(s@, j as int),
{
    let mut j = skip_spaces(s, i);
    proof {
        lemma_blank_spaces(s@, i as int, j as int);
    }
    while j < s.len() && s.len() - j > 1 && s[j] == '/' && s[j + 1] == '/'
        invariant
            i <= j <= s@.len(),
            j == s@.len() || !is_space(s@[j as int]),
            blank_end(s@, i as int) == blank_end(s@, j as int),
        decreases s@.len() - j,
    {
        let e = line_end(s, j + 2);
        proof {
            lemma_line_end(s@, j + 2, e as int);
        }
        let j2 = skip_spaces(s, e);
        proof {
            lemma_blank_spaces(s@, e as int, j2 as int);
        }
        j = j2;
    }
    j
}

/// Reads the identifier that starts at `i`: the longest run of letters, digits and `_`.
pub(crate) fn ident(src: &Source, i: usize) -> (r: Option<(String, usize)>)
    requires
        src.wf(),
        i <= src.chars@.len(),
    ensures
        match r {
            Some((name, j)) => i < j && run_end(src.chars@, i as int, j as int, |c: char| is_ident_char(c))
                && name@ == src.chars@.subrange(i as int, j as int),
            None => i == src.chars@.len() || !is_ident_char(src.chars@[i as int]),
        },
        match r {
            Some((_, j)) => j == run_to(src.chars@, i as int, |c: char| is_ident_char(c)),
            None => run_to(src.chars@, i as int, |c: char| is_ident_char(c)) == i,
        },
{
    let s = &src.chars;
    let mut j = i;
    while j < s.len() && char_is_ident(s[j])
        invariant
            i <= j <= s@.len(),
            all_in(s@, i as int, j as int, |c: char| is_ident_char(c)),
        decreases s@.len() - j,
    {
        j += 1;
    }
    proof {
        lemma_run_to(s@, i as int, j as int, |c: char| is_ident_char(c));
    }
    if j == i {
        None
    } else {
        Some((src.slice(i, j), j))
    }
}

/// The number of line breaks in `s`.
pub open spec fn count_newlines(s: Seq<char>) -> nat
    decreases s.len(),
{
    if s.len() == 0 {
        0
    } else {
        count_newlines(s.drop_last()) + if s.last() == '\n' { 1nat } else { 0nat }
    }
}

/// The number of characters after the last line break of `s` (all of them where there is none).
pub open spec fn chars_since_newline(s: Seq<char>) -> nat
    decreases s.len(),
{
    if s.len() == 0 {
        0
    } else if s.last() == '\n' {
        0
    } else {
        chars_since_newline(s.drop_last()) + 1
    }
}

/// The line and column (both from 1) of a place in a text, for messages.
pub fn line_column(text: &str, position: Position) -> (r: (usize, usize))
    requires
        position.offset <= text@.len(),
        position.offset < usize::MAX,
    ensures
        r.0 == count_newlines(text@.subrange(0, position.offset as int)) + 1,
        r.1 == chars_since_newline(text@.subrange(0, position.offset as int)) + 1,
{
    let mut lines: usize = 0;
    let mut since: usize = 0;
    let mut i: usize = 0;
    while i < position.offset
        invariant
            i <= position.offset <= text@.len(),
            position.offset < usize::MAX,
            lines == count_newlines(text@.subrange(0, i as int)),
            since == chars_since_newline(text@.subrange(0, i as int)),
            lines <= i,
            since <= i,
        decreases position.offset - i,
    {
        assert(text@.subrange(0, i + 1).drop_last() =~= text@.subrange(0, i as int));
        if text.get_char(i) == '\n' {
            lines += 1;
            since = 0;
        } else {
            since += 1;
        }
        i += 1;
    }
    (lines + 1, since + 1)
}

} // verus!
