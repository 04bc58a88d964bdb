//! Reading hunkset expressions.
//!
//! ```text
//! union        = intersection ( "|" intersection )*
//! intersection = difference ( "&" difference )*
//! difference   = negation ( "~" negation )?
//! negation     = "~" negation | atom
//! atom         = "(" union ")" | "all" | "none" | name "(" arguments ")"
//! ```
//!
//! Difference does not chain: `a ~ b ~ c` is an error, and `(a ~ b) ~ c` is not.

use crate::diff::{slash_path, slashed};
use crate::hunkset::ast::{Arg, ArgView, Expr, ExprView, PatternKind, PatternView, StringPattern};
use crate::hunkset::error::{Failure, HunksetError};
use crate::schema::kind_word;
use crate::text::{
    chars_of, concat2, concat3, decimal, deep, group_deep, is_space, next_at, number, reversed, same,
    space, string_of,
};
use vstd::prelude::*;

verus! {

// ---------------------------------------------------------------------------
// Tokens
// ---------------------------------------------------------------------------

#[derive(Debug, Clone, PartialEq, Eq)]
pub enum TokenKind {
    LParen,
    RParen,
    Pipe,
    Ampersand,
    Tilde,
    Comma,
    DotDot,
    Ident(String),
    Str(String),
    Number(usize),
    Colon,
}

#[verifier::ext_equal]
pub enum KindView {
    LParen,
    RParen,
    Pipe,
    Ampersand,
    Tilde,
    Comma,
    DotDot,
    Ident(Seq<char>),
    Str(Seq<char>),
    Number(usize),
    Colon,
}

/// A token and the position it starts at.
#[derive(Debug, Clone, PartialEq, Eq)]
pub struct Token {
    pub kind: TokenKind,
    pub pos: usize,
}

impl DeepView for TokenKind {
    type V = KindView;

    open spec fn deep_view(&self) -> KindView {
        match self {
            TokenKind::LParen => KindView::LParen,
            TokenKind::RParen => KindView::RParen,
            TokenKind::Pipe => KindView::Pipe,
            TokenKind::Ampersand => KindView::Ampersand,
            TokenKind::Tilde => KindView::Tilde,
            TokenKind::Comma => KindView::Comma,
            TokenKind::DotDot => KindView::DotDot,
            TokenKind::Ident(name) => KindView::Ident(name@),
            TokenKind::Str(value) => KindView::Str(value@),
            TokenKind::Number(n) => KindView::Number(*n),
            TokenKind::Colon => KindView::Colon,
        }
    }
}

impl DeepView for Token {
    type V = (KindView, int);

    open spec fn deep_view(&self) -> (KindView, int) {
        (self.kind.deep_view(), self.pos as int)
    }
}

/// How a token looks in the input.
pub open spec fn described(kind: KindView) -> Seq<char> {
    match kind {
        KindView::LParen => "'('"@,
        KindView::RParen => "')'"@,
        KindView::Pipe => "'|'"@,
        KindView::Ampersand => "'&'"@,
        KindView::Tilde => "'~'"@,
        KindView::Comma => "','"@,
        KindView::DotDot => "'..'"@,
        KindView::Colon => "':'"@,
        KindView::Ident(name) => "'"@ + name + "'"@,
        KindView::Str(value) => "string \""@ + value + "\""@,
        KindView::Number(n) => "number "@ + decimal(n as nat),
    }
}

impl TokenKind {
    /// How this token looks in the input.
    pub fn describe(&self) -> (r: String)
        ensures
            r@ == described(self.deep_view()),
    {
        match self {
            TokenKind::LParen => "'('".to_owned(),
            TokenKind::RParen => "')'".to_owned(),
            TokenKind::Pipe => "'|'".to_owned(),
            TokenKind::Ampersand => "'&'".to_owned(),
            TokenKind::Tilde => "'~'".to_owned(),
            TokenKind::Comma => "','".to_owned(),
            TokenKind::DotDot => "'..'".to_owned(),
            TokenKind::Colon => "':'".to_owned(),
            TokenKind::Ident(name) => concat3("'", name.as_str(), "'"),
            TokenKind::Str(value) => concat3("string \"", value.as_str(), "\""),
            TokenKind::Number(n) => concat2("number ", number(*n).as_str()),
        }
    }
}

/// What is wrong with an input, and where.
#[verifier::ext_equal]
pub struct Complaint {
    pub message: Seq<char>,
    pub position: int,
}

pub open spec fn complaint<T>(position: int, message: Seq<char>) -> Result<T, Complaint> {
    Err(Complaint { message, position })
}

#[derive(Debug)]
pub struct TokenizeError {
    pub message: String,
    pub position: usize,
}

impl DeepView for TokenizeError {
    type V = Complaint;

    open spec fn deep_view(&self) -> Complaint {
        Complaint { message: self.message@, position: self.position as int }
    }
}

pub open spec fn is_digit(c: char) -> bool {
    '0' <= c <= '9'
}

pub open spec fn is_ident_start(c: char) -> bool {
    'a' <= c <= 'z' || 'A' <= c <= 'Z' || c == '_'
}

pub open spec fn is_ident_char(c: char) -> bool {
    is_ident_start(c) || is_digit(c) || c == '-'
}

fn digit_char(c: char) -> (r: bool)
    ensures
        r == is_digit(c),
{
    '0' <= c && c <= '9'
}

fn ident_start(c: char) -> (r: bool)
    ensures
        r == is_ident_start(c),
{
    ('a' <= c && c <= 'z') || ('A' <= c && c <= 'Z') || c == '_'
}

fn ident_char(c: char) -> (r: bool)
    ensures
        r == is_ident_char(c),
{
    ident_start(c) || digit_char(c) || c == '-'
}

/// Where the white space at `at` ends.
pub open spec fn space_end(s: Seq<char>, at: int) -> int
    decreases s.len() - at,
{
    if 0 <= at < s.len() && is_space(s[at]) {
        space_end(s, at + 1)
    } else {
        at
    }
}

/// Where the digits at `at` end.
pub open spec fn digits_end(s: Seq<char>, at: int) -> int
    decreases s.len() - at,
{
    if 0 <= at < s.len() && is_digit(s[at]) {
        digits_end(s, at + 1)
    } else {
        at
    }
}

/// Where the name at `at` ends.
pub open spec fn ident_end(s: Seq<char>, at: int) -> int
    decreases s.len() - at,
{
    if 0 <= at < s.len() && is_ident_char(s[at]) {
        ident_end(s, at + 1)
    } else {
        at
    }
}

/// The number that digits spell.
pub open spec fn digits_value(s: Seq<char>) -> nat
    decreases s.len(),
{
    if s.len() == 0 {
        0
    } else {
        10 * digits_value(s.drop_last()) + (s.last() as u32 - 48) as nat
    }
}

/// The number that digits spell, where a `usize` holds it.
pub fn parse_digits(chars: &Vec<char>, from: usize, to: usize) -> (r: Option<usize>)
    requires
        from <= to <= chars.len(),
        forall|i: int| from <= i < to ==> is_digit(#[trigger] chars@[i]),
    ensures
        match r {
            Some(n) => n == digits_value(chars@.subrange(from as int, to as int)),
            None => digits_value(chars@.subrange(from as int, to as int)) > usize::MAX,
        },
{
    let mut n: usize = 0;
    let mut i: usize = from;
    while i < to
        invariant
            from <= i <= to <= chars.len(),
            forall|j: int| from <= j < to ==> is_digit(#[trigger] chars@[j]),
            n == digits_value(chars@.subrange(from as int, i as int)),
        decreases to - i,
    {
        let ghost now = chars@.subrange(from as int, i as int + 1);
        assert(now.drop_last() =~= chars@.subrange(from as int, i as int));
        assert(is_digit(chars@[i as int]));
        let d: usize = (chars[i] as u32 - 48) as usize;
        assert(d == now.last() as u32 - 48);
        let grown = match n.checked_mul(10) {
            Some(tens) => tens.checked_add(d),
            None => None,
        };
        match grown {
            Some(m) => {
                n = m;
            },
            None => {
                proof {
                    assert(digits_value(now) > usize::MAX);
                    lemma_digits_monotonic(chars@, from as int, i as int + 1, to as int);
                }
                return None;
            },
        }
        i += 1;
    }
    Some(n)
}

proof fn lemma_digits_monotonic(s: Seq<char>, from: int, mid: int, to: int)
    requires
        0 <= from <= mid <= to <= s.len(),
        forall|i: int| from <= i < to ==> is_digit(#[trigger] s[i]),
    ensures
        digits_value(s.subrange(from, mid)) <= digits_value(s.subrange(from, to)),
    decreases to - mid,
{
    if mid < to {
        lemma_digits_monotonic(s, from, mid, to - 1);
        assert(s.subrange(from, to).drop_last() =~= s.subrange(from, to - 1));
        assert(is_digit(s[to - 1]));
    }
}

/// Read the inside of a string literal whose quote stands at `start`, from
/// position `at`: what it says, and where it ends.
pub open spec fn string_body(s: Seq<char>, start: int, at: int, read: Seq<char>) -> Result<
    (Seq<char>, int),
    Complaint,
>
    decreases s.len() - at,
{
    if at < 0 || at >= s.len() {
        complaint(start, "unterminated string literal"@)
    } else if s[at] == '"' {
        Ok((read, at + 1))
    } else if s[at] == '\\' {
        if at + 1 >= s.len() {
            complaint(start, "unterminated string escape"@)
        } else {
            let c = s[at + 1];
            let said = if c == 'n' {
                seq!['\n']
            } else if c == 't' {
                seq!['\t']
            } else if c == '\\' {
                seq!['\\']
            } else if c == '"' {
                seq!['"']
            } else {
                seq!['\\', c]
            };
            string_body(s, start, at + 2, read + said)
        }
    } else {
        string_body(s, start, at + 1, read.push(s[at]))
    }
}

/// Read the token at `at`, which is no white space: what it is, and where it
/// ends.
pub open spec fn token_at(s: Seq<char>, at: int) -> Result<(KindView, int), Complaint> {
    let c = s[at];
    if c == '(' {
        Ok((KindView::LParen, at + 1))
    } else if c == ')' {
        Ok((KindView::RParen, at + 1))
    } else if c == '|' {
        Ok((KindView::Pipe, at + 1))
    } else if c == '&' {
        Ok((KindView::Ampersand, at + 1))
    } else if c == '~' {
        Ok((KindView::Tilde, at + 1))
    } else if c == ',' {
        Ok((KindView::Comma, at + 1))
    } else if c == ':' {
        Ok((KindView::Colon, at + 1))
    } else if c == '.' {
        if at + 1 < s.len() && s[at + 1] == '.' {
            Ok((KindView::DotDot, at + 2))
        } else {
            complaint(
                at,
                "unexpected '.' -- a range is written '..', as in lines(10..20)"@,
            )
        }
    } else if c == '!' {
        complaint(
            at,
            "'!' is not an operator -- use '~' for negation ('~x') and for difference ('x ~ y')"@,
        )
    } else if c == '"' {
        match string_body(s, at, at + 1, Seq::empty()) {
            Ok((value, next)) => Ok((KindView::Str(value), next)),
            Err(e) => Err(e),
        }
    } else if is_digit(c) {
        let end = digits_end(s, at);
        let digits = s.subrange(at, end);
        if digits_value(digits) <= usize::MAX {
            Ok((KindView::Number(digits_value(digits) as usize), end))
        } else {
            complaint(at, "number '"@ + digits + "' is too large"@)
        }
    } else if is_ident_start(c) {
        let end = ident_end(s, at);
        Ok((KindView::Ident(s.subrange(at, end)), end))
    } else {
        complaint(at, "unexpected character '"@ + seq![c] + "'"@)
    }
}

/// The tokens of an input from position `at` on.
pub open spec fn tokens_from(s: Seq<char>, at: int) -> Result<Seq<(KindView, int)>, Complaint>
    decreases s.len() - at,
{
    let start = space_end(s, at);
    if at < 0 || start < at || start >= s.len() {
        Ok(Seq::empty())
    } else {
        match token_at(s, start) {
            Err(e) => Err(e),
            Ok((kind, next)) => if start < next <= s.len() {
                match tokens_from(s, next) {
                    Err(e) => Err(e),
                    Ok(rest) => Ok(seq![(kind, start)] + rest),
                }
            } else {
                Ok(Seq::empty())
            },
        }
    }
}

/// Tokens read already, in front of the outcome of reading the rest.
pub open spec fn then_tokens(
    read: Seq<(KindView, int)>,
    rest: Result<Seq<(KindView, int)>, Complaint>,
) -> Result<Seq<(KindView, int)>, Complaint> {
    match rest {
        Ok(more) => Ok(read + more),
        Err(e) => Err(e),
    }
}

fn read_string(chars: &Vec<char>, start: usize) -> (r: Result<(String, usize), TokenizeError>)
    requires
        start < chars.len(),
    ensures
        match r {
            Ok((value, next)) => string_body(chars@, start as int, start + 1, Seq::empty()) == Ok::<
                (Seq<char>, int),
                Complaint,
            >((value@, next as int)) && start < next <= chars.len(),
            Err(e) => string_body(chars@, start as int, start + 1, Seq::empty()) == Err::<
                (Seq<char>, int),
                Complaint,
            >(e.deep_view()),
        },
{
    let mut value = String::new();
    let mut at: usize = start + 1;
    assert(value@ =~= Seq::<char>::empty());
    loop
        invariant
            start < at <= chars.len(),
            string_body(chars@, start as int, start + 1, Seq::empty()) == string_body(
                chars@,
                start as int,
                at as int,
                value@,
            ),
        decreases chars.len() - at,
    {
        if at >= chars.len() {
            return Err(
                TokenizeError {
                    message: "unterminated string literal".to_owned(),
                    position: start,
                },
            );
        }
        let c = chars[at];
        let ghost read = value@;
        if c == '"' {
            return Ok((value, at + 1));
        }
        if c == '\\' {
            if chars.len() - at < 2 {
                return Err(
                    TokenizeError {
                        message: "unterminated string escape".to_owned(),
                        position: start,
                    },
                );
            }
            let d = chars[at + 1];
            if d == 'n' {
                value.push('\n');
                assert(value@ =~= read + seq!['\n']);
            } else if d == 't' {
                value.push('\t');
                assert(value@ =~= read + seq!['\t']);
            } else if d == '\\' {
                value.push('\\');
                assert(value@ =~= read + seq!['\\']);
            } else if d == '"' {
                value.push('"');
                assert(value@ =~= read + seq!['"']);
            } else {
                value.push('\\');
                value.push(d);
                assert(value@ =~= read + seq!['\\', d]);
            }
            at += 2;
        } else {
            value.push(c);
            at += 1;
        }
    }
}

fn read_number(chars: &Vec<char>, start: usize) -> (r: Result<(usize, usize), TokenizeError>)
    requires
        start < chars.len(),
        is_digit(chars@[start as int]),
        token_at(chars@, start as int) == ({
            let end = digits_end(chars@, start as int);
            let digits = chars@.subrange(start as int, end);
            if digits_value(digits) <= usize::MAX {
                Ok((KindView::Number(digits_value(digits) as usize), end))
            } else {
                complaint(start as int, "number '"@ + digits + "' is too large"@)
            }
        }),
    ensures
        match r {
            Ok((n, next)) => token_at(chars@, start as int) == Ok::<(KindView, int), Complaint>(
                (KindView::Number(n), next as int),
            ) && start < next <= chars.len(),
            Err(e) => token_at(chars@, start as int) == Err::<(KindView, int), Complaint>(
                e.deep_view(),
            ),
        },
{
    let mut end: usize = start;
    while end < chars.len() && digit_char(chars[end])
        invariant
            start <= end <= chars.len(),
            forall|i: int| start <= i < end ==> is_digit(#[trigger] chars@[i]),
            digits_end(chars@, start as int) == digits_end(chars@, end as int),
        decreases chars.len() - end,
    {
        end += 1;
    }
    assert(digits_end(chars@, end as int) == end);
    assert(end > start);
    match parse_digits(chars, start, end) {
        Some(n) => Ok((n, end)),
        None => {
            let digits = string_of(chars, start, end);
            Err(
                TokenizeError {
                    message: concat3("number '", digits.as_str(), "' is too large"),
                    position: start,
                },
            )
        },
    }
}

fn read_ident(chars: &Vec<char>, start: usize) -> (r: (String, usize))
    requires
        start < chars.len(),
        is_ident_start(chars@[start as int]),
    ensures
        r.1 == ident_end(chars@, start as int),
        r.0@ == chars@.subrange(start as int, r.1 as int),
        start < r.1 <= chars.len(),
{
    let mut end: usize = start;
    while end < chars.len() && ident_char(chars[end])
        invariant
            start <= end <= chars.len(),
            ident_end(chars@, start as int) == ident_end(chars@, end as int),
        decreases chars.len() - end,
    {
        end += 1;
    }
    assert(ident_end(chars@, end as int) == end);
    assert(end > start);
    (string_of(chars, start, end), end)
}

fn complain(position: usize, message: &str) -> (r: TokenizeError)
    ensures
        r.deep_view() == (Complaint { message: message@, position: position as int }),
{
    TokenizeError { message: message.to_owned(), position }
}

fn read_token(chars: &Vec<char>, start: usize) -> (r: Result<(TokenKind, usize), TokenizeError>)
    requires
        start < chars.len(),
    ensures
        match r {
            Ok((kind, next)) => token_at(chars@, start as int) == Ok::<(KindView, int), Complaint>(
                (kind.deep_view(), next as int),
            ) && start < next <= chars.len(),
            Err(e) => token_at(chars@, start as int) == Err::<(KindView, int), Complaint>(
                e.deep_view(),
            ),
        },
{
    let c = chars[start];
    if c == '(' {
        Ok((TokenKind::LParen, start + 1))
    } else if c == ')' {
        Ok((TokenKind::RParen, start + 1))
    } else if c == '|' {
        Ok((TokenKind::Pipe, start + 1))
    } else if c == '&' {
        Ok((TokenKind::Ampersand, start + 1))
    } else if c == '~' {
        Ok((TokenKind::Tilde, start + 1))
    } else if c == ',' {
        Ok((TokenKind::Comma, start + 1))
    } else if c == ':' {
        Ok((TokenKind::Colon, start + 1))
    } else if c == '.' {
        if chars.len() - start >= 2 && chars[start + 1] == '.' {
            Ok((TokenKind::DotDot, start + 2))
        } else {
            Err(
                complain(
                    start,
                    "unexpected '.' -- a range is written '..', as in lines(10..20)",
                ),
            )
        }
    } else if c == '!' {
        Err(
            complain(
                start,
                "'!' is not an operator -- use '~' for negation ('~x') and for difference ('x ~ y')",
            ),
        )
    } else if c == '"' {
        match read_string(chars, start) {
            Ok((value, next)) => Ok((TokenKind::Str(value), next)),
            Err(e) => Err(e),
        }
    } else if digit_char(c) {
        match read_number(chars, start) {
            Ok((n, next)) => Ok((TokenKind::Number(n), next)),
            Err(e) => Err(e),
        }
    } else if ident_start(c) {
        let (name, next) = read_ident(chars, start);
        Ok((TokenKind::Ident(name), next))
    } else {
        let mut shown = String::new();
        shown.push(c);
        assert(shown@ =~= seq![c]);
        Err(
            TokenizeError {
                message: concat3("unexpected character '", shown.as_str(), "'"),
                position: start,
            },
        )
    }
}

/// Split an input into tokens.
pub fn tokenize(input: &str) -> (r: Result<Vec<Token>, TokenizeError>)
    ensures
        match r {
            Ok(tokens) => tokens_from(input@, 0) == Ok::<Seq<(KindView, int)>, Complaint>(
                deep(tokens@),
            ),
            Err(e) => tokens_from(input@, 0) == Err::<Seq<(KindView, int)>, Complaint>(
                e.deep_view(),
            ),
        },
{
    broadcast use group_deep;

    let chars = chars_of(input);
    let mut tokens: Vec<Token> = Vec::new();
    let mut at: usize = 0;
    proof {
        if let Ok(all) = tokens_from(input@, 0) {
            assert(deep(tokens@) + all =~= all);
        }
    }
    loop
        invariant
            chars@ == input@,
            at <= chars.len(),
            tokens_from(input@, 0) == then_tokens(deep(tokens@), tokens_from(input@, at as int)),
        decreases chars.len() - at,
    {
        let ghost from = at as int;
        let mut start: usize = at;
        while start < chars.len() && space(chars[start])
            invariant
                chars@ == input@,
                from <= start <= chars.len(),
                space_end(input@, from) == space_end(input@, start as int),
            decreases chars.len() - start,
        {
            start += 1;
        }
        assert(space_end(input@, start as int) == start);
        if start >= chars.len() {
            assert(deep(tokens@) + Seq::<(KindView, int)>::empty() =~= deep(tokens@));
            return Ok(tokens);
        }
        let ghost before = deep(tokens@);
        match read_token(&chars, start) {
            Err(e) => {
                return Err(e);
            },
            Ok((kind, next)) => {
                let ghost one = (kind.deep_view(), start as int);
                tokens.push(Token { kind, pos: start });
                proof {
                    assert(deep(tokens@) =~= before.push(one));
                    if let Ok(rest) = tokens_from(input@, next as int) {
                        assert(before + (seq![one] + rest) =~= before.push(one) + rest);
                    }
                }
                at = next;
            },
        }
    }
}

// ---------------------------------------------------------------------------
// Grammar
// ---------------------------------------------------------------------------

/// How many levels of `(` / `~` nesting the parser descends through.
///
/// The descent is recursive, so a long enough run of `(` or `~` would exhaust
/// the stack. Chains of `|` and `&` are read in a loop and cost no level.
pub const MAX_DEPTH: usize = 128;

/// What is read: the text of an expression, and the character that the platform
/// separates the components of a path with.
pub struct Source {
    pub text: Seq<char>,
    pub separator: char,
}

/// Whether an argument of a call is a path or a path pattern.
pub open spec fn spells_path(name: Seq<char>, p: PatternView) -> bool {
    p.kind == PatternKind::Glob || ((name == "file"@ || name == "glob"@) && p.kind
        != PatternKind::Regex)
}

/// An argument with `/` between the components of a path.
pub open spec fn respelled(name: Seq<char>, arg: ArgView, separator: char) -> ArgView {
    match arg {
        ArgView::Pattern(p) => if spells_path(name, p) {
            ArgView::Pattern(PatternView { value: slashed(p.value, separator), ..p })
        } else {
            arg
        },
        ArgView::Range(_, _) => arg,
    }
}

pub open spec fn respelled_args(
    name: Seq<char>,
    args: Seq<ArgView>,
    separator: char,
) -> Seq<ArgView> {
    Seq::new(args.len(), |i: int| respelled(name, args[i], separator))
}

/// Where a `/` separates the components of a path already, every argument stays
/// as it is written.
pub proof fn a_slash_respells_nothing(name: Seq<char>, args: Seq<ArgView>)
    ensures
        respelled_args(name, args, '/') == args,
{
    assert forall|i: int| 0 <= i < args.len() implies respelled(name, #[trigger] args[i], '/')
        == args[i] by {
        if let ArgView::Pattern(p) = args[i] {
            assert(slashed(p.value, '/') =~= p.value);
        }
    }
    assert(respelled_args(name, args, '/') =~= args);
}

/// The position of a token, or the end of the input.
pub open spec fn position_of(ts: Seq<(KindView, int)>, input: Source, at: int) -> int {
    if 0 <= at < ts.len() {
        ts[at].1
    } else {
        input.text.len() as int
    }
}

/// Whether the token at `at` is of this kind.
pub open spec fn token_is(ts: Seq<(KindView, int)>, at: int, kind: KindView) -> bool {
    0 <= at < ts.len() && ts[at].0 == kind
}

/// One token further, or at the end.
pub open spec fn one_on(ts: Seq<(KindView, int)>, at: int) -> int {
    if at < ts.len() {
        at + 1
    } else {
        at
    }
}

pub open spec fn too_deep(ts: Seq<(KindView, int)>, input: Source, at: int) -> Complaint {
    Complaint {
        message: "expression is too deeply nested (limit is "@ + decimal(MAX_DEPTH as nat) + ")"@,
        position: position_of(ts, input, at),
    }
}

/// Read a closing parenthesis at `at`.
pub open spec fn close_at(ts: Seq<(KindView, int)>, input: Source, at: int) -> Result<int, Complaint> {
    if token_is(ts, at, KindView::RParen) {
        Ok(at + 1)
    } else if 0 <= at < ts.len() {
        complaint(
            ts[at].1,
            "expected "@ + described(KindView::RParen) + ", got "@ + described(ts[at].0),
        )
    } else {
        complaint(input.text.len() as int, "expected "@ + described(KindView::RParen) + ", got end of input"@)
    }
}

/// The kind that a pattern prefix asks for.
pub open spec fn kind_named(name: Seq<char>) -> Option<PatternKind> {
    if name == "exact"@ {
        Some(PatternKind::Exact)
    } else if name == "substring"@ {
        Some(PatternKind::Substring)
    } else if name == "glob"@ {
        Some(PatternKind::Glob)
    } else if name == "regex"@ {
        Some(PatternKind::Regex)
    } else {
        None
    }
}

pub open spec fn inferred_arg(kind: PatternKind, value: Seq<char>) -> ArgView {
    ArgView::Pattern(PatternView { kind, value, explicit: false })
}

/// What stands in a text in front of its first colon, where it has one.
pub open spec fn before_colon(value: Seq<char>) -> Option<Seq<char>> {
    let at = next_at(value, ':', 0);
    if at < value.len() {
        Some(value.subrange(0, at))
    } else {
        None
    }
}

/// The digits at `at`, as they are written.
pub open spec fn digits_at(s: Seq<char>, at: int) -> Seq<char> {
    if 0 <= at <= s.len() {
        s.subrange(at, digits_end(s, at))
    } else {
        Seq::empty()
    }
}

/// Read one argument at `at`.
pub open spec fn arg_at(ts: Seq<(KindView, int)>, input: Source, at: int) -> Result<
    (ArgView, int),
    Complaint,
> {
    if at < 0 || at >= ts.len() {
        complaint(position_of(ts, input, at), "expected argument"@)
    } else {
        match ts[at].0 {
            KindView::Number(first) => if token_is(ts, at + 1, KindView::DotDot) {
                if at + 2 < ts.len() && ts[at + 2].0 is Number {
                    Ok((ArgView::Range(first, ts[at + 2].0->Number_0), at + 3))
                } else {
                    complaint(
                        position_of(ts, input, one_on(ts, at + 2)),
                        "expected number after '..'"@,
                    )
                }
            } else {
                Ok((inferred_arg(PatternKind::Exact, digits_at(input.text, ts[at].1)), at + 1))
            },
            KindView::Str(value) => match before_colon(value) {
                Some(prefix) => if kind_named(prefix) is Some {
                    complaint(
                        position_of(ts, input, at + 1),
                        "pattern prefix '"@ + prefix + ":' must go outside the quotes -- write "@
                            + prefix + ":\"...\" instead of \""@ + prefix + ":...\""@,
                    )
                } else {
                    Ok((inferred_arg(PatternKind::Substring, value), at + 1))
                },
                None => Ok((inferred_arg(PatternKind::Substring, value), at + 1)),
            },
            KindView::Ident(name) => if token_is(ts, at + 1, KindView::Colon) {
                match kind_named(name) {
                    None => complaint(
                        position_of(ts, input, at + 1),
                        "unknown pattern kind '"@ + name + "'"@,
                    ),
                    Some(kind) => if at + 2 < ts.len() && ts[at + 2].0 is Str {
                        Ok(
                            (
                                ArgView::Pattern(
                                    PatternView {
                                        kind,
                                        value: ts[at + 2].0->Str_0,
                                        explicit: true,
                                    },
                                ),
                                at + 3,
                            ),
                        )
                    } else if at + 2 < ts.len() && ts[at + 2].0 is Ident {
                        Ok(
                            (
                                ArgView::Pattern(
                                    PatternView {
                                        kind,
                                        value: ts[at + 2].0->Ident_0,
                                        explicit: true,
                                    },
                                ),
                                at + 3,
                            ),
                        )
                    } else {
                        complaint(
                            position_of(ts, input, one_on(ts, at + 2)),
                            "expected string after '"@ + name + ":'"@,
                        )
                    },
                }
            } else {
                Ok((inferred_arg(PatternKind::Exact, name), at + 1))
            },
            _ => complaint(position_of(ts, input, at), "expected argument"@),
        }
    }
}

/// Read the arguments that follow on commas, behind those read already.
pub open spec fn more_args(
    ts: Seq<(KindView, int)>,
    input: Source,
    at: int,
    read: Seq<ArgView>,
) -> Result<(Seq<ArgView>, int), Complaint>
    decreases ts.len() - at,
{
    if token_is(ts, at, KindView::Comma) {
        match arg_at(ts, input, at + 1) {
            Err(e) => Err(e),
            Ok((arg, next)) => if at < next <= ts.len() {
                more_args(ts, input, next, read.push(arg))
            } else {
                Ok((read, at))
            },
        }
    } else {
        Ok((read, at))
    }
}

/// Read the arguments of a call and its closing parenthesis.
pub open spec fn args_at(ts: Seq<(KindView, int)>, input: Source, at: int) -> Result<
    (Seq<ArgView>, int),
    Complaint,
> {
    let read = if token_is(ts, at, KindView::RParen) {
        Ok((Seq::empty(), at))
    } else {
        match arg_at(ts, input, at) {
            Err(e) => Err(e),
            Ok((arg, next)) => more_args(ts, input, next, seq![arg]),
        }
    };
    match read {
        Err(e) => Err(e),
        Ok((args, next)) => match close_at(ts, input, next) {
            Err(e) => Err(e),
            Ok(end) => Ok((args, end)),
        },
    }
}

/// Read a call, or one of the two constants, whose name stands at `at`.
pub open spec fn call_at(ts: Seq<(KindView, int)>, input: Source, at: int) -> Result<
    (ExprView, int),
    Complaint,
> {
    let name = ts[at].0->Ident_0;
    let constant = if name == "all"@ {
        Some(ExprView::All)
    } else if name == "none"@ {
        Some(ExprView::Nothing)
    } else {
        None
    };
    if !token_is(ts, at + 1, KindView::LParen) {
        match constant {
            Some(expr) => Ok((expr, at + 1)),
            None => complaint(
                position_of(ts, input, at + 1),
                "expected '(' after '"@ + name + "'"@,
            ),
        }
    } else {
        match constant {
            Some(expr) => match close_at(ts, input, at + 2) {
                Ok(end) => Ok((expr, end)),
                Err(e) => Err(e),
            },
            None => match args_at(ts, input, at + 2) {
                Ok((args, end)) => Ok(
                    (ExprView::Function(name, respelled_args(name, args, input.separator)), end),
                ),
                Err(e) => Err(e),
            },
        }
    }
}

/// Read a parenthesised expression, a constant or a call at `at`.
pub open spec fn atom_at(ts: Seq<(KindView, int)>, input: Source, at: int, depth: int) -> Result<
    (ExprView, int),
    Complaint,
>
    decreases ts.len() - at, 1int,
{
    if token_is(ts, at, KindView::LParen) {
        if depth >= MAX_DEPTH {
            Err(too_deep(ts, input, at + 1))
        } else {
            match union_at(ts, input, at + 1, depth + 1) {
                Err(e) => Err(e),
                Ok((expr, next)) => match close_at(ts, input, next) {
                    Err(e) => Err(e),
                    Ok(end) => Ok((expr, end)),
                },
            }
        }
    } else if 0 <= at < ts.len() && ts[at].0 is Ident {
        call_at(ts, input, at)
    } else {
        complaint(position_of(ts, input, at), "expected function or '('"@)
    }
}

/// Read a negation at `at`: `~~x` is `~(~x)`.
pub open spec fn negation_at(ts: Seq<(KindView, int)>, input: Source, at: int, depth: int) -> Result<
    (ExprView, int),
    Complaint,
>
    decreases ts.len() - at, 2int,
{
    if token_is(ts, at, KindView::Tilde) {
        if depth >= MAX_DEPTH {
            Err(too_deep(ts, input, at + 1))
        } else {
            match negation_at(ts, input, at + 1, depth + 1) {
                Err(e) => Err(e),
                Ok((inner, next)) => Ok((ExprView::Negation(Box::new(inner)), next)),
            }
        }
    } else {
        atom_at(ts, input, at, depth)
    }
}

/// Read a difference at `at`. It does not chain.
pub open spec fn difference_at(ts: Seq<(KindView, int)>, input: Source, at: int, depth: int) -> Result<
    (ExprView, int),
    Complaint,
>
    decreases ts.len() - at, 3int,
{
    match negation_at(ts, input, at, depth) {
        Err(e) => Err(e),
        Ok((left, next)) => if token_is(ts, next, KindView::Tilde) && next >= at {
            match negation_at(ts, input, next + 1, depth) {
                Err(e) => Err(e),
                Ok((right, end)) => Ok(
                    (ExprView::Difference(Box::new(left), Box::new(right)), end),
                ),
            }
        } else {
            Ok((left, next))
        },
    }
}

/// Read the rest of an intersection, behind what was read already.
pub open spec fn more_intersection(
    ts: Seq<(KindView, int)>,
    input: Source,
    at: int,
    depth: int,
    left: ExprView,
) -> Result<(ExprView, int), Complaint>
    decreases ts.len() - at, 4int,
{
    if token_is(ts, at, KindView::Ampersand) {
        match difference_at(ts, input, at + 1, depth) {
            Err(e) => Err(e),
            Ok((right, next)) => if at < next <= ts.len() {
                more_intersection(
                    ts,
                    input,
                    next,
                    depth,
                    ExprView::Intersection(Box::new(left), Box::new(right)),
                )
            } else {
                Ok((left, at))
            },
        }
    } else {
        Ok((left, at))
    }
}

/// Read an intersection at `at`.
pub open spec fn intersection_at(ts: Seq<(KindView, int)>, input: Source, at: int, depth: int) -> Result<
    (ExprView, int),
    Complaint,
>
    decreases ts.len() - at, 5int,
{
    match difference_at(ts, input, at, depth) {
        Err(e) => Err(e),
        Ok((left, next)) => if at < next <= ts.len() {
            more_intersection(ts, input, next, depth, left)
        } else {
            Ok((left, at))
        },
    }
}

/// Read the rest of a union, behind what was read already.
pub open spec fn more_union(
    ts: Seq<(KindView, int)>,
    input: Source,
    at: int,
    depth: int,
    left: ExprView,
) -> Result<(ExprView, int), Complaint>
    decreases ts.len() - at, 6int,
{
    if token_is(ts, at, KindView::Pipe) {
        match intersection_at(ts, input, at + 1, depth) {
            Err(e) => Err(e),
            Ok((right, next)) => if at < next <= ts.len() {
                more_union(ts, input, next, depth, ExprView::Union(Box::new(left), Box::new(right)))
            } else {
                Ok((left, at))
            },
        }
    } else {
        Ok((left, at))
    }
}

/// Read a union at `at`.
pub open spec fn union_at(ts: Seq<(KindView, int)>, input: Source, at: int, depth: int) -> Result<
    (ExprView, int),
    Complaint,
>
    decreases ts.len() - at, 7int,
{
    match intersection_at(ts, input, at, depth) {
        Err(e) => Err(e),
        Ok((left, next)) => if at < next <= ts.len() {
            more_union(ts, input, next, depth, left)
        } else {
            Ok((left, at))
        },
    }
}

/// Read a whole input.
pub open spec fn expression_of(ts: Seq<(KindView, int)>, input: Source) -> Result<ExprView, Complaint> {
    if ts.len() == 0 {
        complaint(0, "empty expression"@)
    } else {
        match union_at(ts, input, 0, 0) {
            Err(e) => Err(e),
            Ok((expr, next)) => if next < ts.len() {
                complaint(
                    ts[next].1,
                    "unexpected "@ + described(ts[next].0) + if ts[next].0 is Tilde {
                        " -- difference does not chain; add parentheses, as in '(a ~ b) ~ c'"@
                    } else {
                        Seq::empty()
                    },
                )
            } else {
                Ok(expr)
            },
        }
    }
}

/// The expression that an input spells, or what is wrong with it, where
/// `separator` is what the platform separates the components of a path with.
pub open spec fn parsed_with(input: Seq<char>, separator: char) -> Result<ExprView, Complaint> {
    match tokens_from(input, 0) {
        Err(e) => Err(e),
        Ok(ts) => expression_of(ts, Source { text: input, separator }),
    }
}

/// The expression that an input spells, or what is wrong with it.
pub open spec fn parsed(input: Seq<char>) -> Result<ExprView, Complaint> {
    parsed_with(input, '/')
}

pub open spec fn parse_failure(input: Seq<char>, e: Complaint) -> Failure {
    Failure::Parse { message: e.message, input, position: e.position }
}

/// Whether `r` is what reading should give: the same expression and end, or the
/// same complaint about the same input.
pub open spec fn reads(
    input: Seq<char>,
    r: Result<(Expr, usize), HunksetError>,
    expected: Result<(ExprView, int), Complaint>,
) -> bool {
    match r {
        Ok((expr, next)) => expected == Ok::<(ExprView, int), Complaint>(
            (expr.shape(), next as int),
        ),
        Err(e) => expected is Err && e.deep_view() == parse_failure(input, expected->Err_0),
    }
}

/// Put `/` between the components of the paths among the arguments of a call.
fn respell(name: &str, args: Vec<Arg>, separator: char) -> (out: Vec<Arg>)
    ensures
        deep(out@) == respelled_args(name@, deep(args@), separator),
{
    broadcast use group_deep;

    let ghost views = deep(args@);
    let about_paths = same(name, "file") || same(name, "glob");
    let ghost held = args@;
    let mut pending = reversed(args);
    assert(pending@ =~= held.reverse().take(held.len() as int));
    let mut out: Vec<Arg> = Vec::new();
    while pending.len() > 0
        invariant
            views == deep(held),
            about_paths == (name@ == "file"@ || name@ == "glob"@),
            pending@.len() + out@.len() == held.len(),
            pending@ == held.reverse().take(pending@.len() as int),
            deep(out@) == respelled_args(name@, views, separator).take(out@.len() as int),
        decreases pending.len(),
    {
        let ghost at = out@.len() as int;
        let ghost rest = pending@;
        let arg = pending.pop().unwrap();
        assert(arg == held[at]);
        assert(arg.deep_view() == views[at]);
        let spelled = match arg {
            Arg::Pattern(p) => {
                let path = match p.kind {
                    PatternKind::Glob => true,
                    PatternKind::Regex => false,
                    _ => about_paths,
                };
                if path {
                    Arg::Pattern(
                        StringPattern {
                            kind: p.kind,
                            value: slash_path(p.value.as_str(), separator),
                            explicit: p.explicit,
                        },
                    )
                } else {
                    Arg::Pattern(p)
                }
            },
            Arg::Range(start, end) => Arg::Range(start, end),
        };
        let ghost shown = deep(out@);
        assert(spelled.deep_view() == respelled(name@, views[at], separator));
        out.push(spelled);
        assert(deep(out@) =~= respelled_args(name@, views, separator).take(at + 1));
    }
    assert(deep(out@) =~= respelled_args(name@, views, separator));
    out
}

struct Parser<'a> {
    input: &'a str,
    /// The characters of `input`.
    chars: Vec<char>,
    tokens: Vec<Token>,
    separator: char,
}

impl Parser<'_> {
    spec fn source(&self) -> Source {
        Source { text: self.input@, separator: self.separator }
    }

    spec fn ts(&self) -> Seq<(KindView, int)> {
        deep(self.tokens@)
    }

    /// Whether the characters are those of the input.
    spec fn reads_input(&self) -> bool {
        self.chars@ == self.input@
    }

    fn error_at(&self, position: usize, message: String) -> (r: HunksetError)
        ensures
            r.deep_view() == parse_failure(
                self.input@,
                Complaint { message: message@, position: position as int },
            ),
    {
        HunksetError::Parse { message, input: self.input.to_owned(), position }
    }

    fn position(&self, at: usize) -> (r: usize)
        requires
            self.reads_input(),
        ensures
            r == position_of(self.ts(), self.source(), at as int),
    {
        if at < self.tokens.len() {
            self.tokens[at].pos
        } else {
            self.chars.len()
        }
    }

    /// The digits at a position, as they are written.
    fn digits(&self, pos: usize) -> (r: String)
        requires
            self.reads_input(),
        ensures
            r@ == digits_at(self.input@, pos as int),
    {
        if pos > self.chars.len() {
            return String::new();
        }
        let mut end: usize = pos;
        while end < self.chars.len() && digit_char(self.chars[end])
            invariant
               self.reads_input(),
                self.reads_input(),
                pos <= end <= self.chars.len(),
                digits_end(self.input@, pos as int) == digits_end(self.input@, end as int),
            decreases self.chars.len() - end,
        {
            end += 1;
        }
        string_of(&self.chars, pos, end)
    }

    /// Whether the token at `at` is one of those without contents.
    fn is_plain(&self, at: usize, kind: &TokenKind) -> (r: bool)
        requires
            !(kind is Ident) && !(kind is Str) && !(kind is Number),
        ensures
            r == token_is(self.ts(), at as int, kind.deep_view()),
            r ==> at < usize::MAX,
    {
        if at >= self.tokens.len() {
            return false;
        }
        assert(self.ts()[at as int].0 == self.tokens@[at as int].kind.deep_view());
        match (&self.tokens[at].kind, kind) {
            (TokenKind::LParen, TokenKind::LParen) => true,
            (TokenKind::RParen, TokenKind::RParen) => true,
            (TokenKind::Pipe, TokenKind::Pipe) => true,
            (TokenKind::Ampersand, TokenKind::Ampersand) => true,
            (TokenKind::Tilde, TokenKind::Tilde) => true,
            (TokenKind::Comma, TokenKind::Comma) => true,
            (TokenKind::DotDot, TokenKind::DotDot) => true,
            (TokenKind::Colon, TokenKind::Colon) => true,
            _ => false,
        }
    }

    /// Read a closing parenthesis.
    fn expect_close(&self, at: usize) -> (r: Result<usize, HunksetError>)
        requires
            self.reads_input(),
            at <= self.tokens@.len(),
        ensures
            match r {
                Ok(next) => close_at(self.ts(), self.source(), at as int) == Ok::<int, Complaint>(
                    next as int,
                ) && at < next <= self.tokens@.len(),
                Err(e) => close_at(self.ts(), self.source(), at as int) is Err && e.deep_view()
                    == parse_failure(
                    self.input@,
                    close_at(self.ts(), self.source(), at as int)->Err_0,
                ),
            },
    {
        if self.is_plain(at, &TokenKind::RParen) {
            return Ok(at + 1);
        }
        let wanted = TokenKind::RParen.describe();
        if at < self.tokens.len() {
            assert(self.ts()[at as int] == self.tokens@[at as int].deep_view());
            let mut message = concat3("expected ", wanted.as_str(), ", got ");
            message.append(self.tokens[at].kind.describe().as_str());
            Err(self.error_at(self.tokens[at].pos, message))
        } else {
            let message = concat3("expected ", wanted.as_str(), ", got end of input");
            Err(self.error_at(self.chars.len(), message))
        }
    }

    /// The kind that a pattern prefix asks for.
    fn named_kind(name: &str) -> (r: Option<PatternKind>)
        ensures
            r == kind_named(name@),
    {
        if same(name, "exact") {
            Some(PatternKind::Exact)
        } else if same(name, "substring") {
            Some(PatternKind::Substring)
        } else if same(name, "glob") {
            Some(PatternKind::Glob)
        } else if same(name, "regex") {
            Some(PatternKind::Regex)
        } else {
            None
        }
    }

    fn prefix_of(value: &str) -> (r: Option<String>)
        ensures
            r.deep_view() == before_colon(value@),
    {
        let chars = chars_of(value);
        let at = crate::text::find_char(&chars, ':', 0);
        if at < chars.len() {
            Some(string_of(&chars, 0, at))
        } else {
            None
        }
    }

    fn parse_arg(&self, at: usize) -> (r: Result<(Arg, usize), HunksetError>)
        requires
            self.reads_input(),
            at <= self.tokens@.len(),
        ensures
            match r {
                Ok((arg, next)) => arg_at(self.ts(), self.source(), at as int) == Ok::<
                    (ArgView, int),
                    Complaint,
                >((arg.deep_view(), next as int)) && at < next <= self.tokens@.len(),
                Err(e) => arg_at(self.ts(), self.source(), at as int) is Err && e.deep_view()
                    == parse_failure(
                    self.input@,
                    arg_at(self.ts(), self.source(), at as int)->Err_0,
                ),
            },
    {
        let ghost ts = self.ts();
        let len = self.tokens.len();
        if at >= len {
            return Err(self.error_at(self.position(at), "expected argument".to_owned()));
        }
        assert(forall|i: int| 0 <= i < len ==> ts[i] == #[trigger] self.tokens@[i].deep_view());
        assert(ts[at as int] == self.tokens@[at as int].deep_view());
        match &self.tokens[at].kind {
            TokenKind::Number(first) => {
                if self.is_plain(at + 1, &TokenKind::DotDot) {
                    let third: usize = at + 2;
                    if third < len {
                        assert(ts[third as int] == self.tokens@[third as int].deep_view());
                        if let TokenKind::Number(last) = &self.tokens[third].kind {
                            return Ok((Arg::Range(*first, *last), third + 1));
                        }
                        return Err(
                            self.error_at(
                                self.position(third + 1),
                                "expected number after '..'".to_owned(),
                            ),
                        );
                    }
                    Err(
                        self.error_at(
                            self.position(third),
                            "expected number after '..'".to_owned(),
                        ),
                    )
                } else {
                    Ok(
                        (
                            Arg::Pattern(
                                StringPattern::inferred(PatternKind::Exact, self.digits(self.tokens[at].pos)),
                            ),
                            at + 1,
                        ),
                    )
                }
            },
            TokenKind::Str(value) => {
                // A prefix written inside the quotes would be matched as literal
                // text and quietly find nothing.
                if let Some(prefix) = Self::prefix_of(value.as_str()) {
                    if let Some(_) = Self::named_kind(prefix.as_str()) {
                        let mut message = concat3(
                            "pattern prefix '",
                            prefix.as_str(),
                            ":' must go outside the quotes -- write ",
                        );
                        message.append(prefix.as_str());
                        message.append(":\"...\" instead of \"");
                        message.append(prefix.as_str());
                        message.append(":...\"");
                        return Err(self.error_at(self.position(at + 1), message));
                    }
                }
                Ok(
                    (
                        Arg::Pattern(StringPattern::inferred(PatternKind::Substring, value.clone())),
                        at + 1,
                    ),
                )
            },
            TokenKind::Ident(name) => {
                if self.is_plain(at + 1, &TokenKind::Colon) {
                    let kind = match Self::named_kind(name.as_str()) {
                        Some(kind) => kind,
                        None => {
                            return Err(
                                self.error_at(
                                    self.position(at + 1),
                                    concat3("unknown pattern kind '", name.as_str(), "'"),
                                ),
                            );
                        },
                    };
                    let third: usize = at + 2;
                    if third < len {
                        assert(ts[third as int] == self.tokens@[third as int].deep_view());
                        match &self.tokens[third].kind {
                            TokenKind::Str(value) => {
                                return Ok(
                                    (
                                        Arg::Pattern(
                                            StringPattern {
                                                kind,
                                                value: value.clone(),
                                                explicit: true,
                                            },
                                        ),
                                        third + 1,
                                    ),
                                );
                            },
                            TokenKind::Ident(value) => {
                                return Ok(
                                    (
                                        Arg::Pattern(
                                            StringPattern {
                                                kind,
                                                value: value.clone(),
                                                explicit: true,
                                            },
                                        ),
                                        third + 1,
                                    ),
                                );
                            },
                            _ => {
                                return Err(
                                    self.error_at(
                                        self.position(third + 1),
                                        concat3("expected string after '", name.as_str(), ":'"),
                                    ),
                                );
                            },
                        }
                    }
                    Err(
                        self.error_at(
                            self.position(third),
                            concat3("expected string after '", name.as_str(), ":'"),
                        ),
                    )
                } else {
                    Ok(
                        (
                            Arg::Pattern(StringPattern::inferred(PatternKind::Exact, name.clone())),
                            at + 1,
                        ),
                    )
                }
            },
            _ => Err(self.error_at(self.position(at), "expected argument".to_owned())),
        }
    }

    /// Read the arguments of a call and its closing parenthesis.
    fn parse_args(&self, at: usize) -> (r: Result<(Vec<Arg>, usize), HunksetError>)
        requires
            self.reads_input(),
            at <= self.tokens@.len(),
        ensures
            match r {
                Ok((args, next)) => args_at(self.ts(), self.source(), at as int) == Ok::<
                    (Seq<ArgView>, int),
                    Complaint,
                >((deep(args@), next as int)) && at < next <= self.tokens@.len(),
                Err(e) => args_at(self.ts(), self.source(), at as int) is Err && e.deep_view()
                    == parse_failure(
                    self.input@,
                    args_at(self.ts(), self.source(), at as int)->Err_0,
                ),
            },
    {
        broadcast use group_deep;

        let mut args: Vec<Arg> = Vec::new();
        let mut next: usize = at;
        if !self.is_plain(at, &TokenKind::RParen) {
            match self.parse_arg(at) {
                Err(e) => {
                    return Err(e);
                },
                Ok((arg, end)) => {
                    let ghost one = arg.deep_view();
                    args.push(arg);
                    next = end;
                    assert(deep(args@) =~= seq![one]);
                },
            }
            let ghost outcome = more_args(self.ts(), self.source(), next as int, deep(args@));
            while self.is_plain(next, &TokenKind::Comma)
                invariant
                    self.reads_input(),
                    at < next <= self.tokens@.len(),
                    outcome == more_args(self.ts(), self.source(), next as int, deep(args@)),
                    outcome is Err ==> args_at(self.ts(), self.source(), at as int) == Err::<
                        (Seq<ArgView>, int),
                        Complaint,
                    >(outcome->Err_0),
                decreases self.tokens@.len() - next,
            {
                match self.parse_arg(next + 1) {
                    Err(e) => {
                        return Err(e);
                    },
                    Ok((arg, end)) => {
                        let ghost read = deep(args@);
                        let ghost one = arg.deep_view();
                        args.push(arg);
                        assert(deep(args@) =~= read.push(one));
                        next = end;
                    },
                }
            }
        } else {
            assert(deep(args@) =~= Seq::<ArgView>::empty());
        }
        match self.expect_close(next) {
            Ok(end) => Ok((args, end)),
            Err(e) => Err(e),
        }
    }

    fn parse_function_call(&self, at: usize) -> (r: Result<(Expr, usize), HunksetError>)
        requires
            self.reads_input(),
            at < self.tokens@.len(),
            self.ts()[at as int].0 is Ident,
        ensures
            reads(self.input@, r, call_at(self.ts(), self.source(), at as int)),
            r matches Ok((_, next)) ==> at < next <= self.tokens@.len(),
    {
        assert(self.ts()[at as int] == self.tokens@[at as int].deep_view());
        assert(at < self.tokens.len());
        let name = match &self.tokens[at].kind {
            TokenKind::Ident(name) => name,
            _ => {
                return Err(self.error_at(self.position(at), "expected function name".to_owned()));
            },
        };
        let is_all = same(name.as_str(), "all");
        let is_none = same(name.as_str(), "none");
        if !self.is_plain(at + 1, &TokenKind::LParen) {
            if is_all {
                return Ok((Expr::All, at + 1));
            }
            if is_none {
                return Ok((Expr::Nothing, at + 1));
            }
            return Err(
                self.error_at(
                    self.position(at + 1),
                    concat3("expected '(' after '", name.as_str(), "'"),
                ),
            );
        }
        if is_all || is_none {
            return match self.expect_close(at + 2) {
                Ok(end) => Ok(
                    (
                        if is_all {
                            Expr::All
                        } else {
                            Expr::Nothing
                        },
                        end,
                    ),
                ),
                Err(e) => Err(e),
            };
        }
        match self.parse_args(at + 2) {
            Ok((args, end)) => Ok(
                (Expr::Function(name.clone(), respell(name.as_str(), args, self.separator)), end),
            ),
            Err(e) => Err(e),
        }
    }

    fn deep_error(&self, at: usize) -> (r: HunksetError)
        requires
            self.reads_input(),
        ensures
            r.deep_view() == parse_failure(self.input@, too_deep(self.ts(), self.source(), at as int)),
    {
        self.error_at(
            self.position(at),
            concat3(
                "expression is too deeply nested (limit is ",
                number(MAX_DEPTH).as_str(),
                ")",
            ),
        )
    }

    fn parse_atom(&self, at: usize, depth: usize) -> (r: Result<(Expr, usize), HunksetError>)
        requires
            self.reads_input(),
            at <= self.tokens@.len(),
            depth <= MAX_DEPTH,
        ensures
            reads(self.input@, r, atom_at(self.ts(), self.source(), at as int, depth as int)),
            r matches Ok((_, next)) ==> at < next <= self.tokens@.len(),
        decreases self.tokens@.len() - at, 1int,
    {
        if self.is_plain(at, &TokenKind::LParen) {
            if depth >= MAX_DEPTH {
                return Err(self.deep_error(at + 1));
            }
            return match self.parse_union(at + 1, depth + 1) {
                Err(e) => Err(e),
                Ok((expr, next)) => match self.expect_close(next) {
                    Ok(end) => Ok((expr, end)),
                    Err(e) => Err(e),
                },
            };
        }
        if at < self.tokens.len() {
            assert(self.ts()[at as int] == self.tokens@[at as int].deep_view());
            if let TokenKind::Ident(_) = &self.tokens[at].kind {
                return self.parse_function_call(at);
            }
        }
        Err(self.error_at(self.position(at), "expected function or '('".to_owned()))
    }

    fn parse_negation(&self, at: usize, depth: usize) -> (r: Result<(Expr, usize), HunksetError>)
        requires
            self.reads_input(),
            at <= self.tokens@.len(),
            depth <= MAX_DEPTH,
        ensures
            reads(self.input@, r, negation_at(self.ts(), self.source(), at as int, depth as int)),
            r matches Ok((_, next)) ==> at < next <= self.tokens@.len(),
        decreases self.tokens@.len() - at, 2int,
    {
        if self.is_plain(at, &TokenKind::Tilde) {
            if depth >= MAX_DEPTH {
                return Err(self.deep_error(at + 1));
            }
            match self.parse_negation(at + 1, depth + 1) {
                Err(e) => Err(e),
                Ok((inner, next)) => Ok((Expr::Negation(Box::new(inner)), next)),
            }
        } else {
            self.parse_atom(at, depth)
        }
    }

    fn parse_difference(&self, at: usize, depth: usize) -> (r: Result<(Expr, usize), HunksetError>)
        requires
            self.reads_input(),
            at <= self.tokens@.len(),
            depth <= MAX_DEPTH,
        ensures
            reads(self.input@, r, difference_at(self.ts(), self.source(), at as int, depth as int)),
            r matches Ok((_, next)) ==> at < next <= self.tokens@.len(),
        decreases self.tokens@.len() - at, 3int,
    {
        let (left, next) = match self.parse_negation(at, depth) {
            Ok(read) => read,
            Err(e) => {
                return Err(e);
            },
        };
        if self.is_plain(next, &TokenKind::Tilde) {
            match self.parse_negation(next + 1, depth) {
                Err(e) => Err(e),
                Ok((right, end)) => Ok((Expr::Difference(Box::new(left), Box::new(right)), end)),
            }
        } else {
            Ok((left, next))
        }
    }

    fn parse_intersection(&self, at: usize, depth: usize) -> (r: Result<
        (Expr, usize),
        HunksetError,
    >)
        requires
            self.reads_input(),
            at <= self.tokens@.len(),
            depth <= MAX_DEPTH,
        ensures
            reads(self.input@, r, intersection_at(self.ts(), self.source(), at as int, depth as int)),
            r matches Ok((_, next)) ==> at < next <= self.tokens@.len(),
        decreases self.tokens@.len() - at, 5int,
    {
        let (mut left, mut next) = match self.parse_difference(at, depth) {
            Ok(read) => read,
            Err(e) => {
                return Err(e);
            },
        };
        let ghost outcome = intersection_at(self.ts(), self.source(), at as int, depth as int);
        while self.is_plain(next, &TokenKind::Ampersand)
            invariant
                self.reads_input(),
                at < next <= self.tokens@.len(),
                depth <= MAX_DEPTH,
                outcome == intersection_at(self.ts(), self.source(), at as int, depth as int),
                outcome == more_intersection(
                    self.ts(),
                    self.source(),
                    next as int,
                    depth as int,
                    left.shape(),
                ),
            decreases self.tokens@.len() - next,
        {
            match self.parse_difference(next + 1, depth) {
                Err(e) => {
                    return Err(e);
                },
                Ok((right, end)) => {
                    left = Expr::Intersection(Box::new(left), Box::new(right));
                    next = end;
                },
            }
        }
        Ok((left, next))
    }

    fn parse_union(&self, at: usize, depth: usize) -> (r: Result<(Expr, usize), HunksetError>)
        requires
            self.reads_input(),
            at <= self.tokens@.len(),
            depth <= MAX_DEPTH,
        ensures
            reads(self.input@, r, union_at(self.ts(), self.source(), at as int, depth as int)),
            r matches Ok((_, next)) ==> at < next <= self.tokens@.len(),
        decreases self.tokens@.len() - at, 7int,
    {
        let (mut left, mut next) = match self.parse_intersection(at, depth) {
            Ok(read) => read,
            Err(e) => {
                return Err(e);
            },
        };
        let ghost outcome = union_at(self.ts(), self.source(), at as int, depth as int);
        while self.is_plain(next, &TokenKind::Pipe)
            invariant
                self.reads_input(),
                at < next <= self.tokens@.len(),
                depth <= MAX_DEPTH,
                outcome == union_at(self.ts(), self.source(), at as int, depth as int),
                outcome == more_union(
                    self.ts(),
                    self.source(),
                    next as int,
                    depth as int,
                    left.shape(),
                ),
            decreases self.tokens@.len() - next,
        {
            match self.parse_intersection(next + 1, depth) {
                Err(e) => {
                    return Err(e);
                },
                Ok((right, end)) => {
                    left = Expr::Union(Box::new(left), Box::new(right));
                    next = end;
                },
            }
        }
        Ok((left, next))
    }

    fn parse(&self) -> (r: Result<Expr, HunksetError>)
        requires
            self.reads_input(),
            self.tokens@.len() > 0,
        ensures
            match r {
                Ok(expr) => expression_of(self.ts(), self.source()) == Ok::<ExprView, Complaint>(
                    expr.shape(),
                ),
                Err(e) => expression_of(self.ts(), self.source()) is Err && e.deep_view()
                    == parse_failure(self.input@, expression_of(self.ts(), self.source())->Err_0),
            },
    {
        let (expr, next) = match self.parse_union(0, 0) {
            Ok(read) => read,
            Err(e) => {
                return Err(e);
            },
        };
        if next < self.tokens.len() {
            assert(self.ts()[next as int] == self.tokens@[next as int].deep_view());
            let token = &self.tokens[next];
            let mut message = concat2("unexpected ", token.kind.describe().as_str());
            let ghost head = message@;
            if let TokenKind::Tilde = &token.kind {
                message.append(
                    " -- difference does not chain; add parentheses, as in '(a ~ b) ~ c'",
                );
            } else {
                assert(head + Seq::<char>::empty() =~= head);
            }
            return Err(self.error_at(token.pos, message));
        }
        Ok(expr)
    }
}

/// Parse a hunkset expression, where `separator` is what the platform separates the
/// components of a path with: paths and path patterns come out with `/`.
pub fn parse_with(input: &str, separator: char) -> (r: Result<Expr, HunksetError>)
    ensures
        match r {
            Ok(expr) => parsed_with(input@, separator) == Ok::<ExprView, Complaint>(expr.shape()),
            Err(e) => parsed_with(input@, separator) is Err && e.deep_view() == parse_failure(
                input@,
                parsed_with(input@, separator)->Err_0,
            ),
        },
{
    let tokens = match tokenize(input) {
        Ok(tokens) => tokens,
        Err(e) => {
            return Err(
                HunksetError::Parse {
                    message: e.message,
                    input: input.to_owned(),
                    position: e.position,
                },
            );
        },
    };
    if tokens.len() == 0 {
        return Err(
            HunksetError::Parse {
                message: "empty expression".to_owned(),
                input: input.to_owned(),
                position: 0,
            },
        );
    }
    let chars = chars_of(input);
    let parser = Parser { input, chars, tokens, separator };
    parser.parse()
}

/// Parse a hunkset expression.
pub fn parse(input: &str) -> (r: Result<Expr, HunksetError>)
    ensures
        match r {
            Ok(expr) => parsed(input@) == Ok::<ExprView, Complaint>(expr.shape()),
            Err(e) => parsed(input@) is Err && e.deep_view() == parse_failure(
                input@,
                parsed(input@)->Err_0,
            ),
        },
{
    parse_with(input, '/')
}

// ---------------------------------------------------------------------------
// How expressions read
// ---------------------------------------------------------------------------

/// Whether no operator stands at a position.
pub open spec fn ends_operand(ts: Seq<(KindView, int)>, at: int) -> bool {
    !token_is(ts, at, KindView::Tilde) && !token_is(ts, at, KindView::Ampersand) && !token_is(
        ts,
        at,
        KindView::Pipe,
    )
}

/// Whether an operand stands at a position and ends at another.
pub open spec fn is_operand(
    ts: Seq<(KindView, int)>,
    input: Source,
    at: int,
    depth: int,
    expr: ExprView,
    end: int,
) -> bool {
    &&& 0 <= at < end <= ts.len()
    &&& negation_at(ts, input, at, depth) == Ok::<(ExprView, int), Complaint>((expr, end))
}

/// What an operator makes of two sides.
pub open spec fn operation(kind: KindView, a: ExprView, b: ExprView) -> ExprView {
    match kind {
        KindView::Tilde => ExprView::Difference(Box::new(a), Box::new(b)),
        KindView::Ampersand => ExprView::Intersection(Box::new(a), Box::new(b)),
        _ => ExprView::Union(Box::new(a), Box::new(b)),
    }
}

/// How tightly an operator binds.
pub open spec fn binding(kind: KindView) -> int {
    match kind {
        KindView::Tilde => 3,
        KindView::Ampersand => 2,
        _ => 1,
    }
}

/// An operand alone reads as itself.
pub proof fn an_operand_reads_as_itself(
    ts: Seq<(KindView, int)>,
    input: Source,
    at: int,
    depth: int,
    a: ExprView,
    i: int,
)
    requires
        is_operand(ts, input, at, depth, a, i),
        ends_operand(ts, i),
    ensures
        union_at(ts, input, at, depth) == Ok::<(ExprView, int), Complaint>((a, i)),
{
    assert(difference_at(ts, input, at, depth) == Ok::<(ExprView, int), Complaint>((a, i)));
    assert(more_intersection(ts, input, i, depth, a) == Ok::<(ExprView, int), Complaint>((a, i)));
    assert(intersection_at(ts, input, at, depth) == Ok::<(ExprView, int), Complaint>((a, i)));
    assert(more_union(ts, input, i, depth, a) == Ok::<(ExprView, int), Complaint>((a, i)));
}

proof fn lemma_difference(
    ts: Seq<(KindView, int)>,
    input: Source,
    at: int,
    depth: int,
    a: ExprView,
    i: int,
    b: ExprView,
    j: int,
)
    requires
        is_operand(ts, input, at, depth, a, i),
        token_is(ts, i, KindView::Tilde),
        is_operand(ts, input, i + 1, depth, b, j),
    ensures
        difference_at(ts, input, at, depth) == Ok::<(ExprView, int), Complaint>(
            (operation(KindView::Tilde, a, b), j),
        ),
{
}

proof fn lemma_operand(
    ts: Seq<(KindView, int)>,
    input: Source,
    at: int,
    depth: int,
    a: ExprView,
    i: int,
)
    requires
        is_operand(ts, input, at, depth, a, i),
        !token_is(ts, i, KindView::Tilde),
    ensures
        difference_at(ts, input, at, depth) == Ok::<(ExprView, int), Complaint>((a, i)),
        !token_is(ts, i, KindView::Ampersand) ==> intersection_at(ts, input, at, depth) == Ok::<
            (ExprView, int),
            Complaint,
        >((a, i)),
{
    assert(!token_is(ts, i, KindView::Ampersand) ==> more_intersection(ts, input, i, depth, a)
        == Ok::<(ExprView, int), Complaint>((a, i)));
}

/// Two operands with an operator between them read as what the operator makes of
/// them: `|` either, `&` both, `~` the first without the second.
pub proof fn two_operands_read_by_their_operator(
    ts: Seq<(KindView, int)>,
    input: Source,
    at: int,
    depth: int,
    a: ExprView,
    i: int,
    b: ExprView,
    j: int,
)
    requires
        is_operand(ts, input, at, depth, a, i),
        !ends_operand(ts, i),
        is_operand(ts, input, i + 1, depth, b, j),
        ends_operand(ts, j),
    ensures
        union_at(ts, input, at, depth) == Ok::<(ExprView, int), Complaint>(
            (operation(ts[i].0, a, b), j),
        ),
{
    let both = operation(ts[i].0, a, b);
    lemma_operand(ts, input, i + 1, depth, b, j);
    assert(more_intersection(ts, input, j, depth, both) == Ok::<(ExprView, int), Complaint>(
        (both, j),
    ));
    assert(more_union(ts, input, j, depth, both) == Ok::<(ExprView, int), Complaint>((both, j)));
    if token_is(ts, i, KindView::Tilde) {
        lemma_difference(ts, input, at, depth, a, i, b, j);
        assert(intersection_at(ts, input, at, depth) == Ok::<(ExprView, int), Complaint>(
            (both, j),
        ));
    } else {
        lemma_operand(ts, input, at, depth, a, i);
        if token_is(ts, i, KindView::Ampersand) {
            assert(more_intersection(ts, input, i, depth, a) == Ok::<(ExprView, int), Complaint>(
                (both, j),
            ));
            assert(intersection_at(ts, input, at, depth) == Ok::<(ExprView, int), Complaint>(
                (both, j),
            ));
        } else {
            assert(more_union(ts, input, i, depth, a) == Ok::<(ExprView, int), Complaint>(
                (both, j),
            ));
        }
    }
}

/// Of three operands the two with the operator that binds tighter go together:
/// `~` binds tighter than `&`, and `&` tighter than `|`. Where both bind as
/// tightly, the first two do. A difference does not chain: behind two operands
/// the second `~` is left over.
pub proof fn the_tighter_operator_binds_first(
    ts: Seq<(KindView, int)>,
    input: Source,
    at: int,
    depth: int,
    a: ExprView,
    i: int,
    b: ExprView,
    j: int,
    c: ExprView,
    k: int,
)
    requires
        is_operand(ts, input, at, depth, a, i),
        !ends_operand(ts, i),
        is_operand(ts, input, i + 1, depth, b, j),
        !ends_operand(ts, j),
        is_operand(ts, input, j + 1, depth, c, k),
        ends_operand(ts, k),
    ensures
        ({
            let first = ts[i].0;
            let second = ts[j].0;
            union_at(ts, input, at, depth) == Ok::<(ExprView, int), Complaint>(
                if first is Tilde && second is Tilde {
                    (operation(first, a, b), j)
                } else if binding(first) >= binding(second) {
                    (operation(second, operation(first, a, b), c), k)
                } else {
                    (operation(first, a, operation(second, b, c)), k)
                },
            )
        }),
{
    let first = ts[i].0;
    let second = ts[j].0;
    let front = operation(first, a, b);
    let back = operation(second, b, c);
    let whole = if binding(first) >= binding(second) {
        operation(second, front, c)
    } else {
        operation(first, a, back)
    };
    lemma_operand(ts, input, j + 1, depth, c, k);
    assert(more_intersection(ts, input, k, depth, whole) == Ok::<(ExprView, int), Complaint>(
        (whole, k),
    ));
    assert(more_union(ts, input, k, depth, whole) == Ok::<(ExprView, int), Complaint>((whole, k)));
    if first is Tilde {
        lemma_difference(ts, input, at, depth, a, i, b, j);
        if second is Tilde {
            assert(more_intersection(ts, input, j, depth, front) == Ok::<
                (ExprView, int),
                Complaint,
            >((front, j)));
            assert(intersection_at(ts, input, at, depth) == Ok::<(ExprView, int), Complaint>(
                (front, j),
            ));
            assert(more_union(ts, input, j, depth, front) == Ok::<(ExprView, int), Complaint>(
                (front, j),
            ));
        } else if second is Ampersand {
            assert(more_intersection(ts, input, j, depth, front) == Ok::<
                (ExprView, int),
                Complaint,
            >((whole, k)));
            assert(intersection_at(ts, input, at, depth) == Ok::<(ExprView, int), Complaint>(
                (whole, k),
            ));
        } else {
            assert(more_intersection(ts, input, j, depth, front) == Ok::<
                (ExprView, int),
                Complaint,
            >((front, j)));
            assert(intersection_at(ts, input, at, depth) == Ok::<(ExprView, int), Complaint>(
                (front, j),
            ));
            assert(more_union(ts, input, j, depth, front) == Ok::<(ExprView, int), Complaint>(
                (whole, k),
            ));
        }
    } else {
        lemma_operand(ts, input, at, depth, a, i);
        if second is Tilde {
            lemma_difference(ts, input, i + 1, depth, b, j, c, k);
            assert(more_intersection(ts, input, k, depth, back) == Ok::<
                (ExprView, int),
                Complaint,
            >((back, k)));
            assert(intersection_at(ts, input, i + 1, depth) == Ok::<(ExprView, int), Complaint>(
                (back, k),
            ));
            if first is Ampersand {
                assert(more_intersection(ts, input, i, depth, a) == Ok::<
                    (ExprView, int),
                    Complaint,
                >((whole, k)));
                assert(intersection_at(ts, input, at, depth) == Ok::<(ExprView, int), Complaint>(
                    (whole, k),
                ));
            } else {
                assert(more_union(ts, input, i, depth, a) == Ok::<(ExprView, int), Complaint>(
                    (whole, k),
                ));
            }
        } else {
            lemma_operand(ts, input, i + 1, depth, b, j);
            if first is Ampersand {
                if second is Ampersand {
                    assert(more_intersection(ts, input, j, depth, front) == Ok::<
                        (ExprView, int),
                        Complaint,
                    >((whole, k)));
                    assert(more_intersection(ts, input, i, depth, a) == Ok::<
                        (ExprView, int),
                        Complaint,
                    >((whole, k)));
                    assert(intersection_at(ts, input, at, depth) == Ok::<
                        (ExprView, int),
                        Complaint,
                    >((whole, k)));
                } else {
                    assert(more_intersection(ts, input, j, depth, front) == Ok::<
                        (ExprView, int),
                        Complaint,
                    >((front, j)));
                    assert(more_intersection(ts, input, i, depth, a) == Ok::<
                        (ExprView, int),
                        Complaint,
                    >((front, j)));
                    assert(intersection_at(ts, input, at, depth) == Ok::<
                        (ExprView, int),
                        Complaint,
                    >((front, j)));
                    assert(more_union(ts, input, j, depth, front) == Ok::<
                        (ExprView, int),
                        Complaint,
                    >((whole, k)));
                }
            } else {
                if second is Ampersand {
                    assert(more_intersection(ts, input, k, depth, back) == Ok::<
                        (ExprView, int),
                        Complaint,
                    >((back, k)));
                    assert(more_intersection(ts, input, j, depth, b) == Ok::<
                        (ExprView, int),
                        Complaint,
                    >((back, k)));
                    assert(intersection_at(ts, input, i + 1, depth) == Ok::<
                        (ExprView, int),
                        Complaint,
                    >((back, k)));
                    assert(more_union(ts, input, i, depth, a) == Ok::<(ExprView, int), Complaint>(
                        (whole, k),
                    ));
                } else {
                    assert(more_union(ts, input, j, depth, front) == Ok::<
                        (ExprView, int),
                        Complaint,
                    >((whole, k)));
                    assert(more_union(ts, input, i, depth, a) == Ok::<(ExprView, int), Complaint>(
                        (whole, k),
                    ));
                }
            }
        }
    }
}

/// `~` in front of an operand negates it, and parentheses around an expression
/// make an operand of it, as long as they are not nested too deep.
pub proof fn an_operand_is_negated_or_in_parentheses(
    ts: Seq<(KindView, int)>,
    input: Source,
    at: int,
    depth: int,
    inner: ExprView,
    end: int,
)
    requires
        0 <= at < end <= ts.len(),
        0 <= depth < MAX_DEPTH,
    ensures
        token_is(ts, at, KindView::Tilde) && is_operand(ts, input, at + 1, depth + 1, inner, end)
            ==> is_operand(
            ts,
            input,
            at,
            depth,
            ExprView::Negation(Box::new(inner)),
            end,
        ),
        token_is(ts, at, KindView::LParen) && union_at(ts, input, at + 1, depth + 1) == Ok::<
            (ExprView, int),
            Complaint,
        >((inner, end)) && token_is(ts, end, KindView::RParen) ==> is_operand(
            ts,
            input,
            at,
            depth,
            inner,
            end + 1,
        ),
        token_is(ts, at, KindView::Tilde) || token_is(ts, at, KindView::LParen) ==> negation_at(
            ts,
            input,
            at,
            MAX_DEPTH as int,
        ) is Err,
{
    if token_is(ts, at, KindView::LParen) {
        assert(atom_at(ts, input, at, MAX_DEPTH as int) is Err);
        if union_at(ts, input, at + 1, depth + 1) == Ok::<(ExprView, int), Complaint>((inner, end))
            && token_is(ts, end, KindView::RParen) {
            assert(close_at(ts, input, end) == Ok::<int, Complaint>(end + 1));
            assert(atom_at(ts, input, at, depth) == Ok::<(ExprView, int), Complaint>(
                (inner, end + 1),
            ));
            assert(negation_at(ts, input, at, depth) == atom_at(ts, input, at, depth));
        }
        assert(negation_at(ts, input, at, MAX_DEPTH as int) == atom_at(
            ts,
            input,
            at,
            MAX_DEPTH as int,
        ));
    }
}

/// An input that is read is read whole.
pub proof fn an_input_is_read_whole(ts: Seq<(KindView, int)>, input: Source, expr: ExprView)
    ensures
        expression_of(ts, input) == Ok::<ExprView, Complaint>(expr) <==> ts.len() > 0 && (union_at(
            ts,
            input,
            0,
            0,
        ) matches Ok(read) && read.0 == expr && read.1 >= ts.len()),
{
}

/// A text as it is written between quotes: with a backslash in front of every
/// quote and every backslash.
pub open spec fn between_quotes(text: Seq<char>) -> Seq<char>
    decreases text.len(),
{
    if text.len() == 0 {
        Seq::empty()
    } else if text[0] == '"' || text[0] == '\\' {
        seq!['\\', text[0]] + between_quotes(text.drop_first())
    } else {
        seq![text[0]] + between_quotes(text.drop_first())
    }
}

proof fn lemma_string_body(
    s: Seq<char>,
    start: int,
    at: int,
    read: Seq<char>,
    text: Seq<char>,
)
    requires
        0 <= at,
        at + between_quotes(text).len() < s.len(),
        s.subrange(at, at + between_quotes(text).len()) == between_quotes(text),
        s[at + between_quotes(text).len()] == '"',
    ensures
        string_body(s, start, at, read) == Ok::<(Seq<char>, int), Complaint>(
            (read + text, at + between_quotes(text).len() + 1),
        ),
    decreases text.len(),
{
    let written = between_quotes(text);
    if text.len() == 0 {
        assert(read + text =~= read);
    } else {
        let rest = text.drop_first();
        let more = between_quotes(rest);
        let here = s.subrange(at, at + written.len());
        if text[0] == '"' || text[0] == '\\' {
            assert(here[0] == '\\' && here[1] == text[0]);
            assert(s[at] == '\\' && s[at + 1] == text[0]);
            assert(s.subrange(at + 2, at + 2 + more.len()) =~= more) by {
                assert forall|i: int| 0 <= i < more.len() implies s[at + 2 + i] == #[trigger] more[i] by {
                    assert(here[2 + i] == written[2 + i]);
                }
            }
            lemma_string_body(s, start, at + 2, read + seq![text[0]], rest);
            assert(read + seq![text[0]] + rest =~= read + text);
        } else {
            assert(here[0] == text[0]);
            assert(s.subrange(at + 1, at + 1 + more.len()) =~= more) by {
                assert forall|i: int| 0 <= i < more.len() implies s[at + 1 + i] == #[trigger] more[i] by {
                    assert(here[1 + i] == written[1 + i]);
                }
            }
            lemma_string_body(s, start, at + 1, read.push(text[0]), rest);
            assert(read.push(text[0]) + rest =~= read + text);
        }
    }
}

/// Every text can be written between quotes, and reads as itself there.
pub proof fn every_text_can_be_quoted(front: Seq<char>, text: Seq<char>, back: Seq<char>)
    ensures
        token_at(front + seq!['"'] + between_quotes(text) + seq!['"'] + back, front.len() as int)
            == Ok::<(KindView, int), Complaint>(
            (KindView::Str(text), (front.len() + between_quotes(text).len() + 2) as int),
        ),
{
    let written = between_quotes(text);
    let s = front + seq!['"'] + written + seq!['"'] + back;
    let at = front.len() as int;
    assert(s[at] == '"');
    assert(s.subrange(at + 1, at + 1 + written.len()) =~= written);
    assert(s[at + 1 + written.len()] == '"');
    lemma_string_body(s, at, at + 1, Seq::empty(), text);
    assert(Seq::<char>::empty() + text =~= text);
}

proof fn lemma_digit(n: nat)
    ensures
        is_digit(crate::text::digit(n)),
        crate::text::digit(n) as u32 - 48 == n % 10,
{
}

/// A number in decimal is digits that spell it, and none of them is a leading
/// zero.
pub proof fn digits_spell_the_number(n: nat)
    ensures
        decimal(n).len() > 0,
        digits_value(decimal(n)) == n,
        forall|i: int| 0 <= i < decimal(n).len() ==> is_digit(#[trigger] decimal(n)[i]),
        n > 0 ==> decimal(n)[0] != '0',
    decreases n,
{
    lemma_digit(n);
    if n < 10 {
        let one = seq![crate::text::digit(n)];
        assert(one.drop_last() =~= Seq::empty());
        assert(digits_value(one.drop_last()) == 0);
    } else {
        let front = decimal(n / 10);
        digits_spell_the_number(n / 10);
        assert(decimal(n).drop_last() =~= front);
        assert(decimal(n).last() == crate::text::digit(n));
        assert forall|i: int| 0 <= i < decimal(n).len() implies is_digit(
            #[trigger] decimal(n)[i],
        ) by {
            if i < front.len() {
                assert(decimal(n)[i] == front[i]);
            }
        }
        assert(decimal(n)[0] == front[0]);
    }
}

proof fn lemma_digits_end(s: Seq<char>, at: int, end: int)
    requires
        0 <= at <= end <= s.len(),
        forall|i: int| at <= i < end ==> is_digit(#[trigger] s[i]),
        end < s.len() ==> !is_digit(s[end]),
    ensures
        digits_end(s, at) == end,
    decreases end - at,
{
    if at < end {
        assert(is_digit(s[at]));
        lemma_digits_end(s, at + 1, end);
    }
}

/// A number that is written in decimal reads as itself.
pub proof fn a_number_reads_as_itself(front: Seq<char>, n: usize, back: Seq<char>)
    requires
        back.len() > 0 ==> !is_digit(back[0]),
    ensures
        token_at(front + decimal(n as nat) + back, front.len() as int) == Ok::<
            (KindView, int),
            Complaint,
        >((KindView::Number(n), (front.len() + decimal(n as nat).len()) as int)),
{
    let digits = decimal(n as nat);
    let s = front + digits + back;
    let at = front.len() as int;
    let end = at + digits.len();
    digits_spell_the_number(n as nat);
    assert forall|i: int| at <= i < end implies is_digit(#[trigger] s[i]) by {
        assert(s[i] == digits[i - at]);
    }
    assert(s[at] == digits[0]);
    lemma_digits_end(s, at, end);
    assert(s.subrange(at, end) =~= digits);
}

proof fn lemma_ident_end(s: Seq<char>, at: int, end: int)
    requires
        0 <= at <= end <= s.len(),
        forall|i: int| at <= i < end ==> is_ident_char(#[trigger] s[i]),
        end < s.len() ==> !is_ident_char(s[end]),
    ensures
        ident_end(s, at) == end,
    decreases end - at,
{
    if at < end {
        assert(is_ident_char(s[at]));
        lemma_ident_end(s, at + 1, end);
    }
}

/// A name reads as itself: it begins with a letter or an underscore and goes on
/// with those, digits and hyphens for as long as it can.
pub proof fn a_name_reads_as_itself(front: Seq<char>, name: Seq<char>, back: Seq<char>)
    requires
        name.len() > 0,
        is_ident_start(name[0]),
        forall|i: int| 0 <= i < name.len() ==> is_ident_char(#[trigger] name[i]),
        back.len() > 0 ==> !is_ident_char(back[0]),
    ensures
        token_at(front + name + back, front.len() as int) == Ok::<(KindView, int), Complaint>(
            (KindView::Ident(name), (front.len() + name.len()) as int),
        ),
{
    let s = front + name + back;
    let at = front.len() as int;
    let end = at + name.len();
    assert forall|i: int| at <= i < end implies is_ident_char(#[trigger] s[i]) by {
        assert(s[i] == name[i - at]);
    }
    assert(s[at] == name[0]);
    lemma_ident_end(s, at, end);
    assert(s.subrange(at, end) =~= name);
}

/// How many tokens an argument is written in.
pub open spec fn width_of(arg: ArgView) -> int {
    match arg {
        ArgView::Range(_, _) => 3,
        ArgView::Pattern(p) => if p.explicit {
            3
        } else {
            1
        },
    }
}

/// Whether an argument is written in the tokens from `at` on: a range as two
/// numbers with dots between them; a pattern of a kind that is asked for behind
/// the word of the kind and a colon; another as a name, which stands for itself,
/// or as a string, which stands for a part.
pub open spec fn is_written_at(ts: Seq<(KindView, int)>, at: int, arg: ArgView) -> bool {
    &&& 0 <= at
    &&& at + width_of(arg) <= ts.len()
    &&& match arg {
        ArgView::Range(from, to) => {
            &&& ts[at].0 == KindView::Number(from)
            &&& ts[at + 1].0 == KindView::DotDot
            &&& ts[at + 2].0 == KindView::Number(to)
        },
        ArgView::Pattern(p) => if p.explicit {
            &&& ts[at].0 == KindView::Ident(kind_word(p.kind))
            &&& ts[at + 1].0 == KindView::Colon
            &&& ts[at + 2].0 == KindView::Str(p.value) || ts[at + 2].0 == KindView::Ident(p.value)
        } else {
            ||| ts[at].0 == KindView::Ident(p.value) && !token_is(ts, at + 1, KindView::Colon)
                && p.kind == PatternKind::Exact
            ||| ts[at].0 == KindView::Str(p.value) && !p.value.contains(':') && p.kind
                == PatternKind::Substring
        },
    }
}

/// An argument reads as what is written.
pub proof fn an_argument_reads_as_it_is_written(
    ts: Seq<(KindView, int)>,
    input: Source,
    at: int,
    arg: ArgView,
)
    requires
        is_written_at(ts, at, arg),
    ensures
        arg_at(ts, input, at) == Ok::<(ArgView, int), Complaint>((arg, at + width_of(arg))),
{
    match arg {
        ArgView::Range(from, to) => {},
        ArgView::Pattern(p) => {
            if p.explicit {
                reveal_strlit("exact");
                reveal_strlit("substring");
                reveal_strlit("glob");
                reveal_strlit("regex");
                assert("exact"@.len() == 5 && "substring"@.len() == 9 && "glob"@.len() == 4);
                assert("regex"@.len() == 5 && "regex"@[0] == 'r' && "exact"@[0] == 'e');
                assert(kind_named(kind_word(p.kind)) == Some(p.kind));
            } else if ts[at].0 is Str {
                crate::text::lemma_next_at(p.value, ':', 0);
                let colon = next_at(p.value, ':', 0);
                if colon < p.value.len() {
                    assert(p.value[colon] == ':');
                    assert(p.value.contains(':'));
                }
            }
        },
    }
}

/// Whether arguments are written in the tokens from `at` to `end`, each behind a
/// comma.
pub open spec fn follow_at(
    ts: Seq<(KindView, int)>,
    at: int,
    args: Seq<ArgView>,
    end: int,
) -> bool
    decreases args.len(),
{
    if args.len() == 0 {
        at == end
    } else {
        &&& token_is(ts, at, KindView::Comma)
        &&& is_written_at(ts, at + 1, args[0])
        &&& follow_at(ts, at + 1 + width_of(args[0]), args.drop_first(), end)
    }
}

proof fn lemma_more_args(
    ts: Seq<(KindView, int)>,
    input: Source,
    at: int,
    read: Seq<ArgView>,
    args: Seq<ArgView>,
    end: int,
)
    requires
        follow_at(ts, at, args, end),
        token_is(ts, end, KindView::RParen),
    ensures
        more_args(ts, input, at, read) == Ok::<(Seq<ArgView>, int), Complaint>((read + args, end)),
    decreases args.len(),
{
    if args.len() == 0 {
        assert(read + args =~= read);
    } else {
        an_argument_reads_as_it_is_written(ts, input, at + 1, args[0]);
        let next = at + 1 + width_of(args[0]);
        lemma_more_args(ts, input, next, read.push(args[0]), args.drop_first(), end);
        assert(read.push(args[0]) + args.drop_first() =~= read + args);
    }
}

/// A call reads with all of its arguments, in the order they are written.
pub proof fn a_call_reads_with_its_arguments(
    ts: Seq<(KindView, int)>,
    input: Source,
    at: int,
    name: Seq<char>,
    args: Seq<ArgView>,
    end: int,
)
    requires
        0 <= at < ts.len(),
        ts[at].0 == KindView::Ident(name),
        name != "all"@,
        name != "none"@,
        token_is(ts, at + 1, KindView::LParen),
        args.len() == 0 ==> end == at + 2,
        args.len() > 0 ==> is_written_at(ts, at + 2, args[0]) && follow_at(
            ts,
            at + 2 + width_of(args[0]),
            args.drop_first(),
            end,
        ),
        token_is(ts, end, KindView::RParen),
    ensures
        call_at(ts, input, at) == Ok::<(ExprView, int), Complaint>(
            (ExprView::Function(name, respelled_args(name, args, input.separator)), end + 1),
        ),
{
    if args.len() == 0 {
        assert(args =~= Seq::empty());
    } else {
        an_argument_reads_as_it_is_written(ts, input, at + 2, args[0]);
        lemma_more_args(
            ts,
            input,
            at + 2 + width_of(args[0]),
            seq![args[0]],
            args.drop_first(),
            end,
        );
        assert(seq![args[0]] + args.drop_first() =~= args);
    }
}

/// A path in an argument is written with slashes, whatever separates its parts
/// otherwise: what `file` and `glob` are given, and every glob. A regex is never
/// touched, nor is anything that is no path, nor anything else of a pattern.
pub proof fn only_paths_are_respelled(
    name: Seq<char>,
    args: Seq<ArgView>,
    separator: char,
    i: int,
)
    requires
        0 <= i < args.len(),
    ensures
        respelled_args(name, args, separator).len() == args.len(),
        match (args[i], respelled_args(name, args, separator)[i]) {
            (ArgView::Pattern(p), ArgView::Pattern(q)) => {
                let path = name == "file"@ || name == "glob"@ || p.kind == PatternKind::Glob;
                &&& q.kind == p.kind
                &&& q.explicit == p.explicit
                &&& q.value.len() == p.value.len()
                &&& p.kind == PatternKind::Regex || !path ==> q == p
                &&& p.kind != PatternKind::Regex && path ==> forall|k: int|
                    0 <= k < p.value.len() ==> #[trigger] q.value[k] == (if p.value[k]
                        == separator {
                        '/'
                    } else {
                        p.value[k]
                    })
            },
            (ArgView::Range(_, _), after) => after == args[i],
            _ => false,
        },
{
}

} // verus!
