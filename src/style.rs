//! The style language: a document is a list of rules, a rule a chain of
//! matchers and a block of `name = expression` properties.
//!
//! ```text
//! // Comments (only single line)
//! root > panel > image(width=width, height=height) {
//!     width = width,
//!     height = height,
//! }
//! panel > @text {
//!     color = "#0050AA",
//! }
//! ```
use vstd::prelude::*;
use vstd::string::*;
use crate::lexer::{
    all_in, blank_end, char_is_digit, char_is_ident, digit_value, digits_value, ident, is_digit, is_ident_char,
    lemma_run_to, run_end, run_to,
    skip_blank, ParseError, ParseErrorKind, Position, Source,
};

verus! {

/// A name, with the place where it was written.
#[derive(Debug, Clone)]
pub struct Ident {
    pub name: String,
    pub position: Position,
}

/// A literal or a variable name.
#[derive(Debug, Clone)]
pub enum Value {
    Boolean(bool),
    Integer(i32),
    /// A float literal (`d.d`, with an optional sign), as written.
    Float(String),
    String(String),
    Variable(Ident),
}

/// A value with the place where it was written.
#[derive(Debug, Clone)]
pub struct ValueType {
    pub value: Value,
    pub position: Position,
}

#[derive(Debug)]
pub enum Expr {
    Value(Value),
    Neg(Box<ExprType>),
    Add(Box<ExprType>, Box<ExprType>),
    Sub(Box<ExprType>, Box<ExprType>),
    Mul(Box<ExprType>, Box<ExprType>),
    Div(Box<ExprType>, Box<ExprType>),
    Call(Ident, Vec<ExprType>),
}

/// An expression with the place where it was written.
#[derive(Debug)]
pub struct ExprType {
    pub expr: Expr,
    pub position: Position,
}

/// An element name in a matcher.
#[derive(Debug, Clone)]
pub struct Element {
    pub name: Ident,
}

#[derive(Debug, Clone)]
pub enum Matcher {
    Element(Element),
    Text,
}

/// A matcher with its attribute predicates, in the order written.
#[derive(Debug, Clone)]
pub struct MatcherStep {
    pub matcher: Matcher,
    pub predicates: Vec<(Ident, ValueType)>,
}

/// A matcher chain (outermost first) and its properties.
///
/// No two properties share a name: where a block names one twice the later wins.
#[derive(Debug)]
pub struct Rule {
    pub matchers: Vec<MatcherStep>,
    pub styles: Vec<(Ident, ExprType)>,
}

/// A style document: its rules in the order written.
#[derive(Debug)]
pub struct Document {
    pub rules: Vec<Rule>,
}

/// What a literal is, with its strings as sequences of characters.
pub enum LiteralView {
    Boolean(bool),
    Integer(i32),
    Float(Seq<char>),
    String(Seq<char>),
    Variable(Seq<char>, Position),
}

impl View for Value {
    type V = LiteralView;

    open spec fn view(&self) -> LiteralView {
        match *self {
            Value::Boolean(b) => LiteralView::Boolean(b),
            Value::Integer(i) => LiteralView::Integer(i),
            Value::Float(t) => LiteralView::Float(t@),
            Value::String(t) => LiteralView::String(t@),
            Value::Variable(id) => LiteralView::Variable(id.name@, id.position),
        }
    }
}

pub open spec fn digit_run(s: Seq<char>, i: int) -> int {
    run_to(s, i, |c: char| is_digit(c))
}

pub open spec fn ident_run(s: Seq<char>, i: int) -> int {
    run_to(s, i, |c: char| is_ident_char(c))
}

/// The integer literal at `i` (an optional `-`, then digits) and where it ends,
/// where it is in the range of `i32`.
pub open spec fn int_lit(s: Seq<char>, i: int) -> Option<(i32, int)> {
    let neg = at(s, i, '-');
    let d = if neg { i + 1 } else { i };
    let j = digit_run(s, d);
    let v = digits_value(s.subrange(d, j));
    if j > d && (if neg { v <= 0x8000_0000 } else { v <= 0x7fff_ffff }) {
        Some(((if neg { -v } else { v }) as i32, j))
    } else {
        None
    }
}

/// Where the float literal at `i` ends: an optional `-`, digits, `.`, digits.
pub open spec fn float_end(s: Seq<char>, i: int) -> Option<int> {
    let d = if at(s, i, '-') { i + 1 } else { i };
    let p = digit_run(s, d);
    if p > d && at(s, p, '.') && digit_run(s, p + 1) > p + 1 {
        Some(digit_run(s, p + 1))
    } else {
        None
    }
}

/// The word `w` stands at `i`.
pub open spec fn word_at(s: Seq<char>, i: int, w: Seq<char>) -> bool {
    0 <= i && i + w.len() <= s.len() && s.subrange(i, i + w.len()) == w
}

/// The word `w` stands at `i` and is not the start of a longer name.
pub open spec fn keyword_at(s: Seq<char>, i: int, w: Seq<char>) -> bool {
    word_at(s, i, w) && (i + w.len() == s.len() || !is_ident_char(s[i + w.len()]))
}

/// The literal or variable at `i` and where it ends: `true`/`false`, a float, an
/// integer (a `-` or a digit starts one), a quoted string, or a name.
pub open spec fn literal_spec(s: Seq<char>, i: int) -> Option<(LiteralView, int)> {
    if keyword_at(s, i, "true"@) {
        Some((LiteralView::Boolean(true), i + 4))
    } else if keyword_at(s, i, "false"@) {
        Some((LiteralView::Boolean(false), i + 5))
    } else if float_end(s, i) is Some {
        Some((LiteralView::Float(s.subrange(i, float_end(s, i).unwrap())), float_end(s, i).unwrap()))
    } else if at(s, i, '-') || (0 <= i < s.len() && is_digit(s[i])) {
        match int_lit(s, i) {
            Some((v, j)) => Some((LiteralView::Integer(v), j)),
            None => None,
        }
    } else if at(s, i, '"') && quoted_body(s, i + 1) is Some {
        Some((LiteralView::String(quoted_body(s, i + 1).unwrap().0), quoted_body(s, i + 1).unwrap().1 + 1))
    } else if ident_run(s, i) > i {
        Some((LiteralView::Variable(s.subrange(i, ident_run(s, i)), Position { offset: i as usize }), ident_run(s, i)))
    } else {
        None
    }
}

proof fn lemma_digits_value_grows(s: Seq<char>, t: Seq<char>)
    requires
        forall|k: int| 0 <= k < s.len() + t.len() ==> is_digit(#[trigger] (s + t)[k]),
    ensures
        digits_value(s) <= digits_value(s + t),
        digits_value(s) >= 0,
    decreases t.len(),
{
    if t.len() == 0 {
        assert(s + t =~= s);
        lemma_digits_nonneg(s);
    } else {
        assert((s + t).drop_last() =~= s + t.drop_last());
        lemma_digits_value_grows(s, t.drop_last());
        assert(is_digit((s + t)[s.len() + t.len() - 1]));
    }
}

proof fn lemma_digits_nonneg(s: Seq<char>)
    requires
        forall|k: int| 0 <= k < s.len() ==> is_digit(#[trigger] s[k]),
    ensures
        digits_value(s) >= 0,
    decreases s.len(),
{
    if s.len() > 0 {
        assert forall|k: int| 0 <= k < s.drop_last().len() implies is_digit(#[trigger] s.drop_last()[k]) by {
            assert(s.drop_last()[k] == s[k]);
        }
        lemma_digits_nonneg(s.drop_last());
        assert(is_digit(s[s.len() - 1]));
    }
}

pub open spec fn at(s: Seq<char>, i: int, c: char) -> bool {
    0 <= i < s.len() && s[i] == c
}

pub(crate) fn char_at(s: &Vec<char>, i: usize, c: char) -> (r: bool)
    ensures
        r == at(s@, i as int, c),
        r ==> i < s@.len() && i + 1 <= usize::MAX,
{
    i < s.len() && s[i] == c
}

pub(crate) fn error_at(s: &Vec<char>, i: usize) -> (e: ParseError)
    requires
        i <= s@.len(),
    ensures
        e.position.offset == i,
        e.kind == (if i == s@.len() {
            ParseErrorKind::UnexpectedEnd
        } else {
            ParseErrorKind::UnexpectedChar(s@[i as int])
        }),
{
    let kind = if i == s.len() {
        ParseErrorKind::UnexpectedEnd
    } else {
        ParseErrorKind::UnexpectedChar(s[i])
    };
    ParseError { position: Position { offset: i }, kind }
}

/// Reads a run of decimal digits at `i` as a number below 2^31 plus `extra`
/// (`extra` is 1 where a minus sign allows `-2^31`).
pub(crate) fn digits(s: &Vec<char>, i: usize, extra: u64) -> (r: Result<(u64, usize), ParseError>)
    requires
        i <= s@.len(),
        extra <= 1,
    ensures
        match r {
            Ok((v, j)) => i < j && run_end(s@, i as int, j as int, |c: char| is_digit(c))
                && v == digits_value(s@.subrange(i as int, j as int))
                && v <= 0x7fff_ffff + extra,
            Err(e) => e.position.offset >= i,
        },
        r is Ok <==> (digit_run(s@, i as int) > i && digits_value(s@.subrange(i as int, digit_run(s@, i as int)))
            <= 0x7fff_ffff + extra),
        r matches Ok((_, j)) ==> j == digit_run(s@, i as int),
{
    let mut j = i;
    let mut v: u64 = 0;
    while j < s.len() && char_is_digit(s[j])
        invariant
            i <= j <= s@.len(),
            all_in(s@, i as int, j as int, |c: char| is_digit(c)),
            v == digits_value(s@.subrange(i as int, j as int)),
            v <= 0x7fff_ffff + extra,
            extra <= 1,
        decreases s@.len() - j,
    {
        let d = (s[j] as u32 - '0' as u32) as u64;
        assert(d <= 9 && d == digit_value(s@[j as int]));
        assert(s@.subrange(i as int, j + 1).drop_last() =~= s@.subrange(i as int, j as int));
        if v > (0x7fff_ffff + extra - d) / 10 {
            proof {
                let bound = 0x7fff_ffff + extra;
                assert(v * 10 + d > bound) by (nonlinear_arith)
                    requires v > (bound - d) / 10, d <= 9, bound >= 9;
                let e = run_to(s@, j + 1, |c: char| is_digit(c));
                lemma_run_to_end(s@, j as int, |c: char| is_digit(c));
                let a = s@.subrange(i as int, j + 1);
                let b = s@.subrange(i as int, digit_run(s@, i as int));
                lemma_run_prefix(s@, i as int, j + 1);
                assert(a + s@.subrange(j + 1, digit_run(s@, i as int)) =~= b);
                lemma_digits_value_grows(a, s@.subrange(j + 1, digit_run(s@, i as int)));
                assert(digits_value(a) == v * 10 + d);
            }
            return Err(ParseError { position: Position { offset: j }, kind: ParseErrorKind::IntegerOverflow });
        }
        v = v * 10 + d;
        j += 1;
    }
    proof {
        lemma_run_to(s@, i as int, j as int, |c: char| is_digit(c));
    }
    if j == i {
        Err(error_at(s, i))
    } else {
        Ok((v, j))
    }
}

/// Where the run from `i` ends is where the run from any place inside it ends.
proof fn lemma_run_to_end(s: Seq<char>, i: int, p: spec_fn(char) -> bool)
    requires
        0 <= i < s.len(),
        p(s[i]),
    ensures
        run_to(s, i, p) == run_to(s, i + 1, p),
{
}

/// The characters from `i` up to a place `j` inside the run are all digits, and the
/// run reaches at least `j`.
proof fn lemma_run_prefix(s: Seq<char>, i: int, j: int)
    requires
        0 <= i <= j <= s.len(),
        all_in(s, i, j, |c: char| is_digit(c)),
    ensures
        j <= digit_run(s, i) <= s.len(),
        forall|k: int| i <= k < digit_run(s, i) ==> is_digit(#[trigger] s[k]),
    decreases s.len() - i,
{
    if i < s.len() && is_digit(s[i]) {
        lemma_run_prefix(s, i + 1, if j > i { j } else { i + 1 });
    }
}

/// Reads an integer at `i`: an optional `-` and decimal digits, in the range of `i32`.
pub(crate) fn integer(s: &Vec<char>, i: usize) -> (r: Result<(i32, usize), ParseError>)
    requires
        i <= s@.len(),
    ensures
        match r {
            Ok((v, j)) => {
                let neg = at(s@, i as int, '-');
                let d = if neg { i + 1 } else { i as int };
                &&& d < j
                &&& run_end(s@, d, j as int, |c: char| is_digit(c))
                &&& v == (if neg { -digits_value(s@.subrange(d, j as int)) } else { digits_value(s@.subrange(d, j as int)) })
            },
            Err(e) => e.position.offset >= i,
        },
        match int_lit(s@, i as int) {
            Some((v, j)) => r matches Ok((v2, j2)) && v2 == v && j2 == j,
            None => r is Err,
        },
{
    let neg = char_at(s, i, '-');
    let d = if neg { i + 1 } else { i };
    let extra: u64 = if neg { 1 } else { 0 };
    match digits(s, d, extra) {
        Ok((v, j)) => {
            let r: i32 = if neg {
                if v == 0x8000_0000 {
                    i32::MIN
                } else {
                    -(v as i32)
                }
            } else {
                v as i32
            };
            Ok((r, j))
        },
        Err(e) => Err(e),
    }
}

/// Reads a float literal at `i`: an optional `-`, digits, `.`, digits; gives its text.
pub(crate) fn float(src: &Source, i: usize) -> (r: Option<(String, usize)>)
    requires
        src.wf(),
        i <= src.chars@.len(),
    ensures
        match r {
            Some((text, j)) => {
                let s = src.chars@;
                let d = if at(s, i as int, '-') { i + 1 } else { i as int };
                &&& i < j <= s.len()
                &&& text@ == s.subrange(i as int, j as int)
                &&& exists|p: int| d < p && p + 1 < j && run_end(s, d, p, |c: char| is_digit(c))
                    && s[p] == '.' && run_end(s, p + 1, j as int, |c: char| is_digit(c))
            },
            None => true,
        },
        match float_end(src.chars@, i as int) {
            Some(j) => r matches Some((t, j2)) && j2 == j && t@ == src.chars@.subrange(i as int, j),
            None => r is None,
        },
{
    let s = &src.chars;
    let d = if char_at(s, i, '-') { i + 1 } else { i };
    let mut p = d;
    while p < s.len() && char_is_digit(s[p])
        invariant
            d <= p <= s@.len(),
            all_in(s@, d as int, p as int, |c: char| is_digit(c)),
        decreases s@.len() - p,
    {
        p += 1;
    }
    proof {
        lemma_run_to(s@, d as int, p as int, |c: char| is_digit(c));
    }
    if p == d || !char_at(s, p, '.') {
        return None;
    }
    let mut j = p + 1;
    while j < s.len() && char_is_digit(s[j])
        invariant
            p + 1 <= j <= s@.len(),
            all_in(s@, p + 1, j as int, |c: char| is_digit(c)),
        decreases s@.len() - j,
    {
        j += 1;
    }
    proof {
        lemma_run_to(s@, p + 1, j as int, |c: char| is_digit(c));
    }
    if j == p + 1 {
        return None;
    }
    Some((src.slice(i, j), j))
}

pub open spec fn escape_of(c: char) -> Option<char> {
    if c == '"' {
        Some('"')
    } else if c == 't' {
        Some('\t')
    } else if c == 'n' {
        Some('\n')
    } else if c == 'r' {
        Some('\r')
    } else if c == '\\' {
        Some('\\')
    } else {
        None
    }
}

pub open spec fn prepend(p: Seq<char>, r: Option<(Seq<char>, int)>) -> Option<(Seq<char>, int)> {
    match r {
        Some((t, e)) => Some((p + t, e)),
        None => None,
    }
}

/// The body of a quoted string from `k`: the text it denotes and the index of
/// the closing quote, or `None` where the input ends first.
pub open spec fn quoted_body(s: Seq<char>, k: int) -> Option<(Seq<char>, int)>
    decreases s.len() - k,
{
    if k < 0 || k >= s.len() {
        None
    } else if s[k] == '"' {
        Some((Seq::empty(), k))
    } else if s[k] == '\\' && k + 1 < s.len() && escape_of(s[k + 1]).is_some() {
        prepend(seq![escape_of(s[k + 1]).unwrap()], quoted_body(s, k + 2))
    } else {
        prepend(seq![s[k]], quoted_body(s, k + 1))
    }
}

proof fn lemma_prepend_twice(a: Seq<char>, b: Seq<char>, r: Option<(Seq<char>, int)>)
    ensures
        prepend(a, prepend(b, r)) == prepend(a + b, r),
{
    if let Some((t, e)) = r {
        assert(a + (b + t) =~= (a + b) + t);
    }
}

fn escaped(c: char) -> (r: Option<&'static str>)
    ensures
        match escape_of(c) {
            Some(e) => r.is_some() && r.unwrap()@ == seq![e],
            None => r.is_none(),
        },
{
    if c == '"' {
        proof {
            reveal_strlit("\"");
        }
        Some("\"")
    } else if c == 't' {
        proof {
            reveal_strlit("\t");
        }
        Some("\t")
    } else if c == 'n' {
        proof {
            reveal_strlit("\n");
        }
        Some("\n")
    } else if c == 'r' {
        proof {
            reveal_strlit("\r");
        }
        Some("\r")
    } else if c == '\\' {
        proof {
            reveal_strlit("\\");
        }
        Some("\\")
    } else {
        None
    }
}

/// Reads a quoted string at `i`, with the escapes `\"`, `\t`, `\n`, `\r` and `\\`.
pub(crate) fn string(src: &Source, i: usize) -> (r: Option<(String, usize)>)
    requires
        src.wf(),
        i <= src.chars@.len(),
    ensures
        match r {
            Some((text, j)) => at(src.chars@, i as int, '"') && quoted_body(src.chars@, i + 1)
                == Some((text@, j - 1)) && i + 2 <= j <= src.chars@.len(),
            None => !at(src.chars@, i as int, '"') || quoted_body(src.chars@, i + 1) is None,
        },
{
    let s = &src.chars;
    if !char_at(s, i, '"') {
        return None;
    }
    assert(i + 1 <= usize::MAX);
    let mut out = String::new();
    let mut k = i + 1;
    while k < s.len() && s[k] != '"'
        invariant
            i + 1 <= k <= s@.len(),
            src.wf(),
            s@ == src.chars@,
            quoted_body(s@, i + 1) == prepend(out@, quoted_body(s@, k as int)),
        decreases s@.len() - k,
    {
        let esc = if s[k] == '\\' && k + 1 < s.len() {
            escaped(s[k + 1])
        } else {
            None
        };
        match esc {
            Some(e) => {
                proof {
                    lemma_prepend_twice(out@, e@, quoted_body(s@, k + 2));
                }
                out.append(e);
                k += 2;
            },
            None => {
                let c = src.text.as_str().substring_char(k, k + 1);
                assert(c@ =~= seq![s@[k as int]]);
                proof {
                    lemma_prepend_twice(out@, c@, quoted_body(s@, k + 1));
                }
                out.append(c);
                k += 1;
            },
        }
    }
    if k == s.len() {
        return None;
    }
    assert(out@ + Seq::<char>::empty() =~= out@);
    Some((out, k + 1))
}

pub open spec fn parsed<T>(r: Result<(T, usize), ParseError>, i: int, n: int) -> bool {
    match r {
        Ok((_, j)) => i < j <= n,
        Err(_) => true,
    }
}

fn word(s: &Vec<char>, i: usize, w: &str) -> (r: bool)
    requires
        i <= s@.len(),
    ensures
        r == (i + w@.len() <= s@.len() && s@.subrange(i as int, i + w@.len()) == w@),
{
    let n = w.unicode_len();
    let len = s.len();
    if n > len - i {
        return false;
    }
    let mut k: usize = 0;
    while k < n
        invariant
            n == w@.len(),
            len == s@.len(),
            i + n <= len,
            k <= n,
            s@.subrange(i as int, i + k) == w@.subrange(0, k as int),
        decreases n - k,
    {
        if s[i + k] != w.get_char(k) {
            assert(s@.subrange(i as int, i + n)[k as int] != w@[k as int]);
            return false;
        }
        k += 1;
        assert(s@.subrange(i as int, i + k) =~= w@.subrange(0, k as int));
    }
    assert(w@.subrange(0, n as int) =~= w@);
    true
}

/// Reads a literal or a variable name at `i`.
pub(crate) fn value(src: &Source, i: usize) -> (r: Result<(ValueType, usize), ParseError>)
    requires
        src.wf(),
        i <= src.chars@.len(),
    ensures
        parsed(r, i as int, src.chars@.len() as int),
        r matches Ok((v, _)) ==> v.position.offset == i,
        match literal_spec(src.chars@, i as int) {
            Some((lv, j)) => r matches Ok((v, j2)) && j2 == j && v.value@ == lv,
            None => r is Err,
        },
{
    let s = &src.chars;
    let position = Position { offset: i };
    proof {
        reveal_strlit("true");
        reveal_strlit("false");
    }
    let len = s.len();
    if word(s, i, "true") && (i + 4 == len || !char_is_ident(s[i + 4])) {
        return Ok((ValueType { value: Value::Boolean(true), position }, i + 4));
    }
    if word(s, i, "false") && (i + 5 == len || !char_is_ident(s[i + 5])) {
        return Ok((ValueType { value: Value::Boolean(false), position }, i + 5));
    }
    if let Some((text, j)) = float(src, i) {
        return Ok((ValueType { value: Value::Float(text), position }, j));
    }
    if char_at(s, i, '-') || (i < s.len() && char_is_digit(s[i])) {
        return match integer(s, i) {
            Ok((v, j)) => Ok((ValueType { value: Value::Integer(v), position }, j)),
            Err(e) => Err(e),
        };
    }
    if let Some((text, j)) = string(src, i) {
        return Ok((ValueType { value: Value::String(text), position }, j));
    }
    match ident(src, i) {
        Some((name, j)) => Ok((ValueType { value: Value::Variable(Ident { name, position }), position }, j)),
        None => Err(error_at(s, i)),
    }
}

/// What an expression is, with its names as sequences of characters.
pub enum ExprView {
    Value(LiteralView, Position),
    Neg(Box<ExprView>, Position),
    Add(Box<ExprView>, Box<ExprView>, Position),
    Sub(Box<ExprView>, Box<ExprView>, Position),
    Mul(Box<ExprView>, Box<ExprView>, Position),
    Div(Box<ExprView>, Box<ExprView>, Position),
    /// A call: the function's name, the place of the call, the arguments.
    Call(Seq<char>, Position, Seq<ExprView>),
}

/// The expression `e` is the tree `v`.
pub open spec fn expr_is(e: ExprType, v: ExprView) -> bool
    decreases e,
{
    match e.expr {
        Expr::Value(l) => v == ExprView::Value(l@, e.position),
        Expr::Neg(x) => v matches ExprView::Neg(xv, p) && p == e.position && expr_is(*x, *xv),
        Expr::Add(a, b) => v matches ExprView::Add(av, bv, p) && p == e.position && expr_is(*a, *av) && expr_is(*b, *bv),
        Expr::Sub(a, b) => v matches ExprView::Sub(av, bv, p) && p == e.position && expr_is(*a, *av) && expr_is(*b, *bv),
        Expr::Mul(a, b) => v matches ExprView::Mul(av, bv, p) && p == e.position && expr_is(*a, *av) && expr_is(*b, *bv),
        Expr::Div(a, b) => v matches ExprView::Div(av, bv, p) && p == e.position && expr_is(*a, *av) && expr_is(*b, *bv),
        Expr::Call(id, args) => v matches ExprView::Call(n, p, avs) && n == id.name@ && p == id.position
            && p == e.position && avs.len() == args@.len() && forall|k: int|
            #![trigger args@[k]]
            0 <= k < args@.len() ==> expr_is(args@[k], avs[k]),
    }
}

/// An expression at `i` (after blanks): terms joined by `+` and `-`, left to right.
pub open spec fn expr_spec(s: Seq<char>, i: int) -> Option<(ExprView, int)>
    decreases s.len() - i, 4int,
{
    match term_spec(s, i) {
        None => None,
        Some((l, j)) => if i < j <= s.len() {
            expr_rest(s, l, j)
        } else {
            None
        },
    }
}

/// The rest of a sum after the terms so far (`left`, ending at `j`).
pub open spec fn expr_rest(s: Seq<char>, left: ExprView, j: int) -> Option<(ExprView, int)>
    decreases s.len() - j, 5int,
{
    let k = blank_end(s, j);
    if !(j <= k <= s.len()) {
        None
    } else if at(s, k, '+') || at(s, k, '-') {
        match term_spec(s, k + 1) {
            None => None,
            Some((r, n)) => if k + 1 < n <= s.len() {
                let p = Position { offset: k as usize };
                expr_rest(s, if at(s, k, '+') { ExprView::Add(Box::new(left), Box::new(r), p) } else {
                    ExprView::Sub(Box::new(left), Box::new(r), p)
                }, n)
            } else {
                None
            },
        }
    } else {
        Some((left, j))
    }
}

/// A term at `i` (after blanks): factors joined by `*` and `/`, left to right.
pub open spec fn term_spec(s: Seq<char>, i: int) -> Option<(ExprView, int)>
    decreases s.len() - i, 2int,
{
    match factor_spec(s, i) {
        None => None,
        Some((l, j)) => if i < j <= s.len() {
            term_rest(s, l, j)
        } else {
            None
        },
    }
}

/// `/` followed by a second `/` starts a comment, not a division.
pub open spec fn mul_op_at(s: Seq<char>, k: int) -> bool {
    at(s, k, '*') || (at(s, k, '/') && !at(s, k + 1, '/'))
}

/// The rest of a product after the factors so far (`left`, ending at `j`).
pub open spec fn term_rest(s: Seq<char>, left: ExprView, j: int) -> Option<(ExprView, int)>
    decreases s.len() - j, 3int,
{
    let k = blank_end(s, j);
    if !(j <= k <= s.len()) {
        None
    } else if mul_op_at(s, k) {
        match factor_spec(s, k + 1) {
            None => None,
            Some((r, n)) => if k + 1 < n <= s.len() {
                let p = Position { offset: k as usize };
                term_rest(s, if at(s, k, '*') { ExprView::Mul(Box::new(left), Box::new(r), p) } else {
                    ExprView::Div(Box::new(left), Box::new(r), p)
                }, n)
            } else {
                None
            },
        }
    } else {
        Some((left, j))
    }
}

/// A factor at `i` (after blanks): `-` before a factor, or a primary.
pub open spec fn factor_spec(s: Seq<char>, i: int) -> Option<(ExprView, int)>
    decreases s.len() - i, 1int,
{
    let k = blank_end(s, i);
    if !(0 <= i <= k <= s.len()) {
        None
    } else if at(s, k, '-') {
        match factor_spec(s, k + 1) {
            None => None,
            Some((x, j)) => Some((ExprView::Neg(Box::new(x), Position { offset: k as usize }), j)),
        }
    } else {
        primary_spec(s, k)
    }
}

/// A primary at `i`: a parenthesised expression, a call `name(args)` (not of
/// `true` or `false`), or a literal.
pub open spec fn primary_spec(s: Seq<char>, i: int) -> Option<(ExprView, int)>
    decreases s.len() - i, 0int,
{
    if !(0 <= i <= s.len()) {
        None
    } else if at(s, i, '(') {
        match expr_spec(s, i + 1) {
            None => None,
            Some((e, j)) => {
                let b = blank_end(s, j);
                if j <= b && at(s, b, ')') {
                    Some((e, b + 1))
                } else {
                    None
                }
            },
        }
    } else if ident_run(s, i) > i && at(s, ident_run(s, i), '(') && !word_at(s, i, "true"@) && !word_at(
        s,
        i,
        "false"@,
    ) {
        match args_spec(s, ident_run(s, i) + 1, Seq::empty()) {
            None => None,
            Some((args, k)) => Some(
                (ExprView::Call(s.subrange(i, ident_run(s, i)), Position { offset: i as usize }, args), k),
            ),
        }
    } else {
        match literal_spec(s, i) {
            None => None,
            Some((lv, j)) => Some((ExprView::Value(lv, Position { offset: i as usize }), j)),
        }
    }
}

/// Call arguments from `k` up to the closing `)`: expressions separated by
/// commas, a trailing comma allowed; `acc` holds those read so far.
pub open spec fn args_spec(s: Seq<char>, k: int, acc: Seq<ExprView>) -> Option<(Seq<ExprView>, int)>
    decreases s.len() - k, 6int,
{
    let b = blank_end(s, k);
    if !(0 <= k <= b <= s.len()) {
        None
    } else if at(s, b, ')') {
        Some((acc, b + 1))
    } else {
        match expr_spec(s, b) {
            None => None,
            Some((a, n)) => {
                let b2 = blank_end(s, n);
                if !(b < n <= b2 <= s.len()) {
                    None
                } else if at(s, b2, ',') {
                    args_spec(s, b2 + 1, acc.push(a))
                } else if at(s, b2, ')') {
                    Some((acc.push(a), b2 + 1))
                } else {
                    None
                }
            },
        }
    }
}

/// A parse result matches the spec's.
pub open spec fn parsed_as(r: Result<(ExprType, usize), ParseError>, spec: Option<(ExprView, int)>) -> bool {
    match spec {
        Some((v, j)) => r matches Ok((e, j2)) && j2 == j && expr_is(e, v),
        None => r is Err,
    }
}

/// Expects the character `c` at the first non-blank place from `i`; gives the place after it.
fn expect(s: &Vec<char>, i: usize, c: char) -> (r: Result<usize, ParseError>)
    requires
        i <= s@.len(),
    ensures
        match r {
            Ok(j) => i < j <= s@.len() && s@[j - 1] == c,
            Err(_) => true,
        },
        r is Ok <==> at(s@, blank_end(s@, i as int), c),
        r matches Ok(j) ==> j == blank_end(s@, i as int) + 1,
{
    let k = skip_blank(s, i);
    if char_at(s, k, c) {
        Ok(k + 1)
    } else {
        Err(error_at(s, k))
    }
}

/// Reads an expression at `i`: sums and differences of terms, left to right.
pub(crate) fn expr(src: &Source, i: usize) -> (r: Result<(ExprType, usize), ParseError>)
    requires
        src.wf(),
        i <= src.chars@.len(),
    ensures
        parsed(r, i as int, src.chars@.len() as int),
        parsed_as(r, expr_spec(src.chars@, i as int)),
    decreases src.chars@.len() - i, 3int,
{
    let s = &src.chars;
    let (mut left, mut j) = term(src, i)?;
    let ghost mut lv = term_spec(s@, i as int).unwrap().0;
    loop
        invariant
            src.wf(),
            s@ == src.chars@,
            i < j <= s@.len(),
            expr_spec(s@, i as int) == expr_rest(s@, lv, j as int),
            expr_is(left, lv),
        ensures
            i < j <= s@.len(),
            expr_spec(s@, i as int) == Some((lv, j as int)),
            expr_is(left, lv),
        decreases s@.len() - j,
    {
        let k = skip_blank(s, j);
        let op = if char_at(s, k, '+') {
            1u8
        } else if char_at(s, k, '-') {
            2u8
        } else {
            break;
        };
        let (right, next) = term(src, k + 1)?;
        let ghost rv = term_spec(s@, k + 1).unwrap().0;
        let position = Position { offset: k };
        proof {
            lv = if op == 1 {
                ExprView::Add(Box::new(lv), Box::new(rv), position)
            } else {
                ExprView::Sub(Box::new(lv), Box::new(rv), position)
            };
        }
        left = if op == 1 {
            ExprType { expr: Expr::Add(Box::new(left), Box::new(right)), position }
        } else {
            ExprType { expr: Expr::Sub(Box::new(left), Box::new(right)), position }
        };
        j = next;
    }
    Ok((left, j))
}

/// Reads a term at `i`: products and quotients of factors, left to right.
pub(crate) fn term(src: &Source, i: usize) -> (r: Result<(ExprType, usize), ParseError>)
    requires
        src.wf(),
        i <= src.chars@.len(),
    ensures
        parsed(r, i as int, src.chars@.len() as int),
        parsed_as(r, term_spec(src.chars@, i as int)),
    decreases src.chars@.len() - i, 2int,
{
    let s = &src.chars;
    let (mut left, mut j) = factor(src, i)?;
    let ghost mut lv = factor_spec(s@, i as int).unwrap().0;
    loop
        invariant
            src.wf(),
            s@ == src.chars@,
            i < j <= s@.len(),
            term_spec(s@, i as int) == term_rest(s@, lv, j as int),
            expr_is(left, lv),
        ensures
            i < j <= s@.len(),
            term_spec(s@, i as int) == Some((lv, j as int)),
            expr_is(left, lv),
        decreases s@.len() - j,
    {
        let k = skip_blank(s, j);
        let op = if char_at(s, k, '*') {
            1u8
        } else if char_at(s, k, '/') && !char_at(s, k + 1, '/') {
            2u8
        } else {
            break;
        };
        let (right, next) = factor(src, k + 1)?;
        let ghost rv = factor_spec(s@, k + 1).unwrap().0;
        let position = Position { offset: k };
        proof {
            lv = if op == 1 {
                ExprView::Mul(Box::new(lv), Box::new(rv), position)
            } else {
                ExprView::Div(Box::new(lv), Box::new(rv), position)
            };
        }
        left = if op == 1 {
            ExprType { expr: Expr::Mul(Box::new(left), Box::new(right)), position }
        } else {
            ExprType { expr: Expr::Div(Box::new(left), Box::new(right)), position }
        };
        j = next;
    }
    Ok((left, j))
}

/// Reads a factor at `i`: an optional `-` before a parenthesised expression,
/// a call or a literal.
pub(crate) fn factor(src: &Source, i: usize) -> (r: Result<(ExprType, usize), ParseError>)
    requires
        src.wf(),
        i <= src.chars@.len(),
    ensures
        parsed(r, i as int, src.chars@.len() as int),
        parsed_as(r, factor_spec(src.chars@, i as int)),
    decreases src.chars@.len() - i, 1int,
{
    let s = &src.chars;
    let k = skip_blank(s, i);
    if char_at(s, k, '-') {
        let (inner, j) = factor(src, k + 1)?;
        return Ok((ExprType { expr: Expr::Neg(Box::new(inner)), position: Position { offset: k } }, j));
    }
    primary(src, k)
}

/// Reads a parenthesised expression, a call or a literal at `i`.
pub(crate) fn primary(src: &Source, i: usize) -> (r: Result<(ExprType, usize), ParseError>)
    requires
        src.wf(),
        i <= src.chars@.len(),
    ensures
        parsed(r, i as int, src.chars@.len() as int),
        parsed_as(r, primary_spec(src.chars@, i as int)),
    decreases src.chars@.len() - i, 0int,
{
    let s = &src.chars;
    let position = Position { offset: i };
    proof {
        reveal_strlit("true");
        reveal_strlit("false");
    }
    if char_at(s, i, '(') {
        let (inner, j) = expr(src, i + 1)?;
        let j = expect(s, j, ')')?;
        return Ok((inner, j));
    }
    if let Some((name, j)) = ident(src, i) {
        if char_at(s, j, '(') && !word(s, i, "true") && !word(s, i, "false") {
            let mut args: Vec<ExprType> = Vec::new();
            let mut k = j + 1;
            let ghost mut avs: Seq<ExprView> = Seq::empty();
            loop
                invariant_except_break
                    args_spec(s@, j + 1, Seq::empty()) == args_spec(s@, k as int, avs),
                invariant
                    src.wf(),
                    s@ == src.chars@,
                    i < k <= s@.len(),
                    j as int == ident_run(s@, i as int),
                    i < j,
                    at(s@, j as int, '('),
                    !word_at(s@, i as int, "true"@),
                    !word_at(s@, i as int, "false"@),
                    args@.len() == avs.len(),
                    forall|m: int| #![trigger args@[m]] 0 <= m < args@.len() ==> expr_is(args@[m], avs[m]),
                ensures
                    i < k <= s@.len(),
                    args_spec(s@, j + 1, Seq::empty()) == Some((avs, k as int)),
                    args@.len() == avs.len(),
                    forall|m: int| #![trigger args@[m]] 0 <= m < args@.len() ==> expr_is(args@[m], avs[m]),
                decreases s@.len() - k,
            {
                let b = skip_blank(s, k);
                if char_at(s, b, ')') {
                    k = b + 1;
                    break;
                }
                let (arg, next) = expr(src, b)?;
                let ghost av = expr_spec(s@, b as int).unwrap().0;
                let ghost before = args@;
                args.push(arg);
                proof {
                    avs = avs.push(av);
                    assert forall|m: int| #![trigger args@[m]] 0 <= m < args@.len() implies expr_is(args@[m], avs[m]) by {
                        if m < before.len() {
                            assert(args@[m] == before[m]);
                        }
                    }
                }
                let b2 = skip_blank(s, next);
                if char_at(s, b2, ',') {
                    k = b2 + 1;
                } else if char_at(s, b2, ')') {
                    k = b2 + 1;
                    break;
                } else {
                    return Err(error_at(s, b2));
                }
            }
            let name = Ident { name, position };
            return Ok((ExprType { expr: Expr::Call(name, args), position }, k));
        }
    }
    match value(src, i) {
        Ok((v, j)) => Ok((ExprType { expr: Expr::Value(v.value), position }, j)),
        Err(e) => Err(e),
    }
}

/// A predicate: the property's name and place, the literal and its place.
pub type PredicateView = (Seq<char>, Position, LiteralView, Position);

pub open spec fn pred_view(p: (Ident, ValueType)) -> PredicateView {
    (p.0.name@, p.0.position, p.1.value@, p.1.position)
}

pub open spec fn preds_view(ps: Seq<(Ident, ValueType)>) -> Seq<PredicateView> {
    ps.map_values(|p: (Ident, ValueType)| pred_view(p))
}

/// Predicates from `k` (after `(`) up to `)`: `name = literal`, separated by
/// commas, a trailing comma allowed.
pub open spec fn preds_rest(s: Seq<char>, k: int, acc: Seq<PredicateView>) -> Option<(Seq<PredicateView>, int)>
    decreases s.len() - k,
{
    let b = blank_end(s, k);
    if !(0 <= k <= b <= s.len()) {
        None
    } else if at(s, b, ')') {
        Some((acc, b + 1))
    } else {
        let j = ident_run(s, b);
        let e1 = blank_end(s, j);
        let b2 = blank_end(s, e1 + 1);
        if !(b < j <= e1 < b2 + 1 <= s.len() + 1 && at(s, e1, '=')) {
            None
        } else {
            match literal_spec(s, b2) {
                None => None,
                Some((lv, j2)) => {
                    let acc2 = acc.push((s.subrange(b, j), Position { offset: b as usize }, lv, Position { offset: b2 as usize }));
                    let b3 = blank_end(s, j2);
                    if !(b2 < j2 <= b3 <= s.len()) {
                        None
                    } else if at(s, b3, ',') {
                        preds_rest(s, b3 + 1, acc2)
                    } else if at(s, b3, ')') {
                        Some((acc2, b3 + 1))
                    } else {
                        None
                    }
                },
            }
        }
    }
}

pub enum MatcherView {
    Element(Seq<char>, Position),
    Text,
}

/// A matcher with its predicates.
pub type StepView = (MatcherView, Seq<PredicateView>);

pub open spec fn step_view(m: MatcherStep) -> StepView {
    (
        match m.matcher {
            Matcher::Element(e) => MatcherView::Element(e.name.name@, e.name.position),
            Matcher::Text => MatcherView::Text,
        },
        preds_view(m.predicates@),
    )
}

/// A matcher after blanks at `i`: `@text` or a name, then optional predicates.
pub open spec fn matcher_spec(s: Seq<char>, i: int) -> Option<(StepView, int)> {
    let b = blank_end(s, i);
    if !(0 <= i <= b <= s.len()) {
        None
    } else {
        let text = word_at(s, b, "@text"@);
        let jj = ident_run(s, b);
        if !text && jj <= b {
            None
        } else {
            let mv = if text { MatcherView::Text } else { MatcherView::Element(s.subrange(b, jj), Position { offset: b as usize }) };
            let j = if text { b + 5 } else { jj };
            if at(s, j, '(') {
                match preds_rest(s, j + 1, Seq::empty()) {
                    None => None,
                    Some((ps, k)) => Some(((mv, ps), k)),
                }
            } else {
                Some(((mv, Seq::empty()), j))
            }
        }
    }
}

/// A property: its name and place, and its expression.
pub type StyleView = (Seq<char>, Position, ExprView);

/// The property list `styles` is `v`.
pub open spec fn styles_is(styles: Seq<(Ident, ExprType)>, v: Seq<StyleView>) -> bool {
    &&& styles.len() == v.len()
    &&& forall|k: int| #![trigger styles[k]] 0 <= k < styles.len() ==> styles[k].0.name@ == v[k].0
        && styles[k].0.position == v[k].1 && expr_is(styles[k].1, v[k].2)
}

/// Sets a property in a list: replaces the one of that name, or appends.
pub open spec fn set_entry(acc: Seq<StyleView>, e: StyleView) -> Seq<StyleView> {
    if exists|k: int| 0 <= k < acc.len() && acc[k].0 == e.0 {
        acc.update(choose|k: int| 0 <= k < acc.len() && acc[k].0 == e.0, e)
    } else {
        acc.push(e)
    }
}

/// Properties from `k` (after `{`) up to `}`: `name = expression`, separated by
/// commas, the comma after the last one optional; a later name replaces an earlier.
pub open spec fn block_rest(s: Seq<char>, k: int, acc: Seq<StyleView>) -> Option<(Seq<StyleView>, int)>
    decreases s.len() - k,
{
    let b = blank_end(s, k);
    if !(0 <= k <= b <= s.len()) {
        None
    } else if at(s, b, '}') {
        Some((acc, b + 1))
    } else {
        let j = ident_run(s, b);
        let e1 = blank_end(s, j);
        if !(b < j <= e1 <= s.len() && at(s, e1, '=')) {
            None
        } else {
            match expr_spec(s, e1 + 1) {
                None => None,
                Some((ev, n)) => {
                    let acc2 = set_entry(acc, (s.subrange(b, j), Position { offset: b as usize }, ev));
                    let b2 = blank_end(s, n);
                    if !(e1 + 1 < n <= b2 <= s.len()) {
                        None
                    } else if at(s, b2, ',') {
                        block_rest(s, b2 + 1, acc2)
                    } else if at(s, b2, '}') {
                        Some((acc2, b2 + 1))
                    } else {
                        None
                    }
                },
            }
        }
    }
}

/// A property block after blanks at `i`.
pub open spec fn block_spec(s: Seq<char>, i: int) -> Option<(Seq<StyleView>, int)> {
    let k = blank_end(s, i);
    if 0 <= i <= k && at(s, k, '{') {
        block_rest(s, k + 1, Seq::empty())
    } else {
        None
    }
}

/// A rule: its matchers (outermost first) and its properties.
pub type RuleView = (Seq<StepView>, Seq<StyleView>);

pub open spec fn rule_is(r: Rule, v: RuleView) -> bool {
    r.matchers@.map_values(|m: MatcherStep| step_view(m)) == v.0 && styles_is(r.styles@, v.1)
}

/// The rest of a rule after the matchers so far (ending at `k`): `>` and another
/// matcher, or the property block.
pub open spec fn rule_rest(s: Seq<char>, ms: Seq<StepView>, k: int) -> Option<(RuleView, int)>
    decreases s.len() - k,
{
    let b = blank_end(s, k);
    if !(0 <= k <= b <= s.len()) {
        None
    } else if at(s, b, '>') {
        match matcher_spec(s, b + 1) {
            None => None,
            Some((m, j)) => if b + 1 < j <= s.len() {
                rule_rest(s, ms.push(m), j)
            } else {
                None
            },
        }
    } else {
        match block_spec(s, k) {
            None => None,
            Some((st, j)) => Some(((ms, st), j)),
        }
    }
}

/// A rule at `i`: matchers joined by `>`, then a property block.
pub open spec fn rule_spec(s: Seq<char>, i: int) -> Option<(RuleView, int)> {
    match matcher_spec(s, i) {
        None => None,
        Some((m, j)) => if i < j <= s.len() {
            rule_rest(s, seq![m], j)
        } else {
            None
        },
    }
}

/// Rules from `k` to the end of the text, blanks and comments between them.
pub open spec fn doc_rest(s: Seq<char>, k: int, acc: Seq<RuleView>) -> Option<Seq<RuleView>>
    decreases s.len() - k,
{
    let b = blank_end(s, k);
    if !(0 <= k <= b <= s.len()) {
        None
    } else if b == s.len() {
        Some(acc)
    } else {
        match rule_spec(s, b) {
            None => None,
            Some((rv, j)) => if b < j <= s.len() {
                doc_rest(s, j, acc.push(rv))
            } else {
                None
            },
        }
    }
}

/// The document has the rules `rvs`.
pub open spec fn doc_is(doc: Document, rvs: Seq<RuleView>) -> bool {
    doc.rules@.len() == rvs.len() && forall|k: int| #![trigger doc.rules@[k]] 0 <= k < rvs.len() ==> rule_is(doc.rules@[k], rvs[k])
}

/// The rules of a style document, where the text is one.
pub open spec fn doc_spec(s: Seq<char>) -> Option<Seq<RuleView>> {
    doc_rest(s, 0, Seq::empty())
}

/// Reads `( name = value, ... )` at `i`, a trailing comma allowed.
fn predicates(src: &Source, i: usize) -> (r: Result<(Vec<(Ident, ValueType)>, usize), ParseError>)
    requires
        src.wf(),
        i < src.chars@.len(),
        src.chars@[i as int] == '(',
    ensures
        parsed(r, i as int, src.chars@.len() as int),
        match preds_rest(src.chars@, i + 1, Seq::empty()) {
            Some((pv, j)) => r matches Ok((ps, j2)) && j2 == j && preds_view(ps@) == pv,
            None => r is Err,
        },
{
    let s = &src.chars;
    let mut list: Vec<(Ident, ValueType)> = Vec::new();
    let len = s.len();
    let mut k = i + 1;
    assert(preds_view(list@) =~= Seq::<PredicateView>::empty());
    loop
        invariant_except_break
            preds_rest(s@, i + 1, Seq::empty()) == preds_rest(s@, k as int, preds_view(list@)),
        invariant
            src.wf(),
            s@ == src.chars@,
            i < k <= s@.len(),
        ensures
            preds_rest(s@, i + 1, Seq::empty()) == Some((preds_view(list@), k as int)),
        decreases s@.len() - k,
    {
        let b = skip_blank(s, k);
        if char_at(s, b, ')') {
            k = b + 1;
            break;
        }
        let (name, j) = match ident(src, b) {
            Some(x) => x,
            None => {
                return Err(error_at(s, b));
            },
        };
        let j = expect(s, j, '=')?;
        let b2 = skip_blank(s, j);
        let (v, j) = value(src, b2)?;
        let ghost before = preds_view(list@);
        let entry = (Ident { name, position: Position { offset: b } }, v);
        let ghost ev = pred_view(entry);
        list.push(entry);
        assert(preds_view(list@) =~= before.push(ev));
        let b3 = skip_blank(s, j);
        if char_at(s, b3, ',') {
            k = b3 + 1;
        } else if char_at(s, b3, ')') {
            k = b3 + 1;
            break;
        } else {
            return Err(error_at(s, b3));
        }
    }
    Ok((list, k))
}

/// Reads a matcher at the first non-blank place from `i`: `@text` or an element name,
/// with optional predicates.
fn matcher(src: &Source, i: usize) -> (r: Result<(MatcherStep, usize), ParseError>)
    requires
        src.wf(),
        i <= src.chars@.len(),
    ensures
        parsed(r, i as int, src.chars@.len() as int),
        r matches Ok((m, _)) ==> matcher_grounded(src.chars@, m),
        match matcher_spec(src.chars@, i as int) {
            Some((mv, j)) => r matches Ok((m, j2)) && j2 == j && step_view(m) == mv,
            None => r is Err,
        },
{
    let s = &src.chars;
    let b = skip_blank(s, i);
    let len = s.len();
    proof {
        reveal_strlit("@text");
    }
    let (m, j) = if word(s, b, "@text") {
        (Matcher::Text, b + 5)
    } else {
        match ident(src, b) {
            Some((name, j)) => (Matcher::Element(Element { name: Ident { name, position: Position { offset: b } } }), j),
            None => {
                return Err(error_at(s, b));
            },
        }
    };
    if char_at(s, j, '(') {
        let (predicates, k) = predicates(src, j)?;
        Ok((MatcherStep { matcher: m, predicates }, k))
    } else {
        let none: Vec<(Ident, ValueType)> = Vec::new();
        assert(preds_view(none@) =~= Seq::<PredicateView>::empty());
        Ok((MatcherStep { matcher: m, predicates: none }, j))
    }
}

/// The name was read from the text at its position: a run of identifier characters.
pub open spec fn ident_ok(s: Seq<char>, id: Ident) -> bool {
    let p = id.position.offset as int;
    &&& id.name@.len() > 0
    &&& p + id.name@.len() <= s.len()
    &&& s.subrange(p, p + id.name@.len()) == id.name@
}

pub open spec fn matcher_grounded(s: Seq<char>, m: MatcherStep) -> bool {
    match m.matcher {
        Matcher::Element(e) => ident_ok(s, e.name),
        Matcher::Text => true,
    }
}

/// Every element name and property name of a rule was read from the text.
pub open spec fn rule_grounded(s: Seq<char>, r: Rule) -> bool {
    &&& forall|k: int| 0 <= k < r.matchers@.len() ==> matcher_grounded(s, #[trigger] r.matchers@[k])
    &&& forall|k: int| 0 <= k < r.styles@.len() ==> ident_ok(s, (#[trigger] r.styles@[k]).0)
}

pub open spec fn names_unique(styles: Seq<(Ident, ExprType)>) -> bool {
    forall|a: int, b: int| 0 <= a < b < styles.len() ==> styles[a].0.name@ != styles[b].0.name@
}

/// Sets `name` to `e` in a property list: replaces the one of that name, or appends.
/// A property list with `name` set to `e`: the entry of that name replaced, or one appended.
pub open spec fn set_in(list: Seq<(Ident, ExprType)>, name: Ident, e: ExprType) -> Seq<(Ident, ExprType)> {
    if exists|k: int| 0 <= k < list.len() && list[k].0.name@ == name.name@ {
        list.update(choose|k: int| 0 <= k < list.len() && list[k].0.name@ == name.name@, (name, e))
    } else {
        list.push((name, e))
    }
}

proof fn lemma_set_entry(list: Seq<(Ident, ExprType)>, sv: Seq<StyleView>, name: Ident, e: ExprType, ev: ExprView)
    requires
        styles_is(list, sv),
        names_unique(list),
        expr_is(e, ev),
    ensures
        styles_is(set_in(list, name, e), set_entry(sv, (name.name@, name.position, ev))),
{
    let entry = (name.name@, name.position, ev);
    if exists|k: int| 0 <= k < list.len() && list[k].0.name@ == name.name@ {
        let ks = choose|k: int| 0 <= k < list.len() && list[k].0.name@ == name.name@;
        assert(list[ks].0.name@ == sv[ks].0);
        assert(exists|k: int| 0 <= k < sv.len() && sv[k].0 == entry.0);
        let kv = choose|k: int| 0 <= k < sv.len() && sv[k].0 == entry.0;
        assert(list[kv].0.name@ == sv[kv].0);
        if ks != kv {
            if ks < kv {
                assert(list[ks].0.name@ != list[kv].0.name@);
            } else {
                assert(list[kv].0.name@ != list[ks].0.name@);
            }
        }
        let l2 = set_in(list, name, e);
        let v2 = set_entry(sv, entry);
        assert forall|k: int| #![trigger l2[k]] 0 <= k < l2.len() implies l2[k].0.name@ == v2[k].0
            && l2[k].0.position == v2[k].1 && expr_is(l2[k].1, v2[k].2) by {
            if k != ks {
                assert(l2[k] == list[k]);
                assert(v2[k] == sv[k]);
            }
        }
    } else {
        assert forall|k: int| 0 <= k < sv.len() implies sv[k].0 != entry.0 by {
            assert(list[k].0.name@ == sv[k].0);
        }
        let l2 = set_in(list, name, e);
        let v2 = set_entry(sv, entry);
        assert forall|k: int| #![trigger l2[k]] 0 <= k < l2.len() implies l2[k].0.name@ == v2[k].0
            && l2[k].0.position == v2[k].1 && expr_is(l2[k].1, v2[k].2) by {
            if k < list.len() {
                assert(l2[k] == list[k]);
                assert(v2[k] == sv[k]);
            }
        }
    }
}

fn set_style(styles: &mut Vec<(Ident, ExprType)>, name: Ident, e: ExprType)
    requires
        names_unique(old(styles)@),
    ensures
        final(styles)@ == set_in(old(styles)@, name, e),
        names_unique(final(styles)@),
        exists|k: int| 0 <= k < final(styles)@.len() && final(styles)@[k] == (name, e),
        forall|k: int| 0 <= k < old(styles)@.len() && old(styles)@[k].0.name@ != name.name@
            ==> final(styles)@.contains(old(styles)@[k]),
        forall|k: int| 0 <= k < final(styles)@.len() && final(styles)@[k].0.name@ != name.name@
            ==> old(styles)@.contains(final(styles)@[k]),
{
    let mut k: usize = 0;
    while k < styles.len()
        invariant
            k <= styles@.len(),
            styles@ == old(styles)@,
            names_unique(old(styles)@),
            forall|m: int| 0 <= m < k ==> styles@[m].0.name@ != name.name@,
        decreases styles@.len() - k,
    {
        if styles[k].0.name == name.name {
            let ghost before = styles@;
            styles.set(k, (name, e));
            assert(styles@[k as int] == (name, e));
            assert(before[k as int].0.name@ == name.name@);
            assert forall|x: int| 0 <= x < styles@.len() implies styles@[x].0.name@ == before[x].0.name@ by {
                if x != k {
                    assert(styles@[x] == before[x]);
                }
            }
            assert forall|a: int, b: int| 0 <= a < b < styles@.len()
                implies styles@[a].0.name@ != styles@[b].0.name@ by {
                assert(styles@[a].0.name@ == before[a].0.name@);
                assert(styles@[b].0.name@ == before[b].0.name@);
            }
            assert forall|m: int| 0 <= m < before.len() && before[m].0.name@ != name.name@
                implies styles@.contains(before[m]) by {
                assert(styles@[m] == before[m]);
            }
            assert forall|m: int| 0 <= m < styles@.len() && styles@[m].0.name@ != name.name@
                implies before.contains(styles@[m]) by {
                assert(before[m] == styles@[m]);
            }
            proof {
                let c = choose|c: int| 0 <= c < before.len() && before[c].0.name@ == name.name@;
                let ki = k as int;
                if c != ki {
                    if c < ki {
                        assert(before[c].0.name@ != before[ki].0.name@);
                    } else {
                        assert(before[ki].0.name@ != before[c].0.name@);
                    }
                }
                assert(styles@ =~= before.update(ki, (name, e)));
            }
            return;
        }
        k += 1;
    }
    let ghost before = styles@;
    styles.push((name, e));
    assert(styles@[before.len() as int] == (name, e));
    assert forall|m: int| 0 <= m < before.len() && before[m].0.name@ != name.name@
        implies styles@.contains(before[m]) by {
        assert(styles@[m] == before[m]);
    }
    assert forall|m: int| 0 <= m < styles@.len() && styles@[m].0.name@ != name.name@
        implies before.contains(styles@[m]) by {
        assert(before[m] == styles@[m]);
    }
}

/// Reads `{ name = expr, ... }` at the first non-blank place from `i`; the comma
/// after the last property may be left out.
fn style_block(src: &Source, i: usize) -> (r: Result<(Vec<(Ident, ExprType)>, usize), ParseError>)
    requires
        src.wf(),
        i <= src.chars@.len(),
    ensures
        parsed(r, i as int, src.chars@.len() as int),
        r matches Ok((styles, _)) ==> names_unique(styles@),
        r matches Ok((styles, _)) ==> forall|k: int| 0 <= k < styles@.len() ==> ident_ok(src.chars@, (#[trigger] styles@[k]).0),
        match block_spec(src.chars@, i as int) {
            Some((sv, j)) => r matches Ok((styles, j2)) && j2 == j && styles_is(styles@, sv),
            None => r is Err,
        },
{
    let s = &src.chars;
    let mut k = expect(s, i, '{')?;
    let mut styles: Vec<(Ident, ExprType)> = Vec::new();
    let ghost mut sv: Seq<StyleView> = Seq::empty();
    loop
        invariant_except_break
            block_spec(s@, i as int) == block_rest(s@, k as int, sv),
        invariant
            src.wf(),
            s@ == src.chars@,
            i < k <= s@.len(),
            names_unique(styles@),
            forall|m: int| 0 <= m < styles@.len() ==> ident_ok(s@, (#[trigger] styles@[m]).0),
            styles_is(styles@, sv),
        ensures
            block_spec(s@, i as int) == Some((sv, k as int)),
        decreases s@.len() - k,
    {
        let b = skip_blank(s, k);
        if char_at(s, b, '}') {
            k = b + 1;
            break;
        }
        let (name, j) = match ident(src, b) {
            Some(x) => x,
            None => {
                return Err(error_at(s, b));
            },
        };
        let j = expect(s, j, '=')?;
        let je = j;
        let (e, j) = expr(src, j)?;
        let id = Ident { name, position: Position { offset: b } };
        assert(ident_ok(s@, id));
        let ghost before = styles@;
        let ghost entry = (id, e);
        let ghost ev = expr_spec(s@, je as int).unwrap().0;
        proof {
            lemma_set_entry(before, sv, id, e, ev);
            sv = set_entry(sv, (id.name@, id.position, ev));
        }
        set_style(&mut styles, id, e);
        assert forall|m: int| 0 <= m < styles@.len() implies ident_ok(s@, (#[trigger] styles@[m]).0) by {
            if styles@[m].0.name@ == entry.0.name@ {
                let w = choose|w: int| 0 <= w < styles@.len() && styles@[w] == entry;
                if w != m {
                    assert(styles@[w].0.name@ == styles@[m].0.name@);
                }
            } else {
                assert(before.contains(styles@[m]));
                let w = choose|w: int| 0 <= w < before.len() && before[w] == styles@[m];
                assert(ident_ok(s@, before[w].0));
            }
        }
        let b2 = skip_blank(s, j);
        if char_at(s, b2, ',') {
            k = b2 + 1;
        } else {
            k = expect(s, j, '}')?;
            break;
        }
    }
    Ok((styles, k))
}

/// Reads a rule at `i`: matchers joined by `>`, then a property block.
fn rule(src: &Source, i: usize) -> (r: Result<(Rule, usize), ParseError>)
    requires
        src.wf(),
        i <= src.chars@.len(),
    ensures
        parsed(r, i as int, src.chars@.len() as int),
        r matches Ok((rule, _)) ==> rule.wf() && rule_grounded(src.chars@, rule),
        match rule_spec(src.chars@, i as int) {
            Some((rv, j)) => r matches Ok((rule, j2)) && j2 == j && rule_is(rule, rv),
            None => r is Err,
        },
{
    let s = &src.chars;
    let (first, mut k) = matcher(src, i)?;
    let mut matchers: Vec<MatcherStep> = Vec::new();
    matchers.push(first);
    assert(matchers@.map_values(|m: MatcherStep| step_view(m)) =~= seq![step_view(first)]);
    loop
        invariant
            src.wf(),
            s@ == src.chars@,
            i < k <= s@.len(),
            matchers@.len() >= 1,
            forall|m: int| 0 <= m < matchers@.len() ==> matcher_grounded(s@, #[trigger] matchers@[m]),
            rule_spec(s@, i as int) == rule_rest(s@, matchers@.map_values(|m: MatcherStep| step_view(m)), k as int),
        ensures
            i < k <= s@.len(),
            matchers@.len() >= 1,
            forall|m: int| 0 <= m < matchers@.len() ==> matcher_grounded(s@, #[trigger] matchers@[m]),
            rule_spec(s@, i as int) == rule_rest(s@, matchers@.map_values(|m: MatcherStep| step_view(m)), k as int),
            !at(s@, blank_end(s@, k as int), '>'),
        decreases s@.len() - k,
    {
        let b = skip_blank(s, k);
        if !char_at(s, b, '>') {
            break;
        }
        let (m, j) = matcher(src, b + 1)?;
        let ghost before = matchers@;
        let ghost bv = matchers@.map_values(|m: MatcherStep| step_view(m));
        matchers.push(m);
        assert(matchers@.map_values(|m: MatcherStep| step_view(m)) =~= bv.push(step_view(m)));
        assert forall|w: int| 0 <= w < matchers@.len() implies matcher_grounded(s@, #[trigger] matchers@[w]) by {
            if w < before.len() {
                assert(matchers@[w] == before[w]);
            }
        }
        k = j;
    }
    let (styles, k) = style_block(src, k)?;
    Ok((Rule { matchers, styles }, k))
}

impl Rule {
    /// A rule has at least one matcher and no two properties of one name.
    pub open spec fn wf(&self) -> bool {
        self.matchers@.len() >= 1 && names_unique(self.styles@)
    }
}

impl Document {
    pub open spec fn wf(&self) -> bool {
        forall|k: int| 0 <= k < self.rules@.len() ==> #[trigger] self.rules@[k].wf()
    }

    /// Parses a style document: rules one after another, with blanks and `//`
    /// comments between them, up to the end of the text.
    pub fn parse(source: &str) -> (r: Result<Document, ParseError>)
        ensures
            r matches Ok(doc) ==> doc.wf(),
            r matches Ok(doc) ==> forall|k: int| 0 <= k < doc.rules@.len() ==> rule_grounded(source@, #[trigger] doc.rules@[k]),
            r matches Ok(doc) ==> (doc.rules@.len() == 0 <==> blank_end(source@, 0) == source@.len()),
            blank_end(source@, 0) == source@.len() ==> (r matches Ok(doc) && doc.rules@.len() == 0),
            r matches Err(e) ==> e.position.offset <= source@.len(),
            match doc_spec(source@) {
                Some(rvs) => r matches Ok(doc) && doc_is(doc, rvs),
                None => r is Err,
            },
    {
        let src = Source::new(source);
        let s = &src.chars;
        let mut rules: Vec<Rule> = Vec::new();
        let mut k: usize = 0;
        let ghost mut rvs: Seq<RuleView> = Seq::empty();
        loop
            invariant
                src.wf(),
                s@ == src.chars@,
                s@ == source@,
                k <= s@.len(),
                forall|m: int| 0 <= m < rules@.len() ==> #[trigger] rules@[m].wf(),
                forall|m: int| 0 <= m < rules@.len() ==> rule_grounded(s@, #[trigger] rules@[m]),
                rules@.len() == 0 ==> k == 0,
                blank_end(s@, 0) == s@.len() ==> rules@.len() == 0,
                doc_spec(s@) == doc_rest(s@, k as int, rvs),
                rules@.len() == rvs.len(),
                forall|m: int| #![trigger rules@[m]] 0 <= m < rules@.len() ==> rule_is(rules@[m], rvs[m]),
            ensures
                doc_spec(s@) == Some(rvs),
                rules@.len() == rvs.len(),
                forall|m: int| #![trigger rules@[m]] 0 <= m < rules@.len() ==> rule_is(rules@[m], rvs[m]),
                rules@.len() == 0 ==> blank_end(s@, 0) == s@.len(),
                forall|m: int| 0 <= m < rules@.len() ==> #[trigger] rules@[m].wf(),
                forall|m: int| 0 <= m < rules@.len() ==> rule_grounded(s@, #[trigger] rules@[m]),
                blank_end(s@, 0) == s@.len() ==> rules@.len() == 0,
            decreases s@.len() - k,
        {
            let b = skip_blank(s, k);
            if b == s.len() {
                break;
            }
            match rule(&src, b) {
                Ok((r, j)) => {
                    let ghost before = rules@;
                    let ghost rv = rule_spec(s@, b as int).unwrap().0;
                    rules.push(r);
                    proof {
                        rvs = rvs.push(rv);
                    }
                    assert forall|m: int| 0 <= m < rules@.len() implies rule_grounded(s@, #[trigger] rules@[m]) && rules@[m].wf() by {
                        if m < before.len() {
                            assert(rules@[m] == before[m]);
                        }
                    }
                    assert forall|m: int| #![trigger rules@[m]] 0 <= m < rules@.len() implies rule_is(rules@[m], rvs[m]) by {
                        if m < before.len() {
                            assert(rules@[m] == before[m]);
                        }
                    }
                    k = j;
                },
                Err(e) => {
                    return Err(clamp_error(e, s.len()));
                },
            }
        }
        Ok(Document { rules })
    }
}

/// The error with its offset brought within the text.
fn clamp_error(e: ParseError, n: usize) -> (r: ParseError)
    ensures
        r.position.offset <= n,
        r.kind == e.kind,
        e.position.offset <= n ==> r == e,
{
    if e.position.offset <= n {
        e
    } else {
        ParseError { position: Position { offset: n }, kind: e.kind }
    }
}

} // verus!
