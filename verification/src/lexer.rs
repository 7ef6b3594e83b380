//! Tokenizer for the supported OpenQASM 3 subset.
//!
//! The lexer works on the UTF-8 bytes of the source. Whitespace, line
//! comments and block comments are skipped; every other character either
//! starts a token or is reported as an invalid span.

use vstd::prelude::*;
use vstd::string::*;
use vstd::utf8::*;

use crate::span::{Span, Spanned};
use crate::text::{at_char_start, is_utf8_continuation, substring};

verus! {

broadcast use vstd::seq::group_seq_axioms;

#[derive(Debug, PartialEq)]
pub enum Token {
    // === Keywords ===
    OpenQasm,
    Include,
    Qubit,
    Bit,
    Gate,
    If,
    Else,
    Measure,
    Reset,
    Barrier,
    Delay,
    Let,
    Const,
    Int,
    UInt,
    Float,
    Angle,
    Bool,
    True,
    False,
    Return,
    Def,
    For,
    While,
    In,
    Input,
    Output,
    Creg,
    Qreg,
    Ctrl,
    NegCtrl,
    Inv,
    Pow,
    // === Literals ===
    /// A decimal floating literal, kept as written.
    FloatLiteral(String),
    IntLiteral(u64),
    StringLiteral(String),
    // === Identifiers ===
    Ident(String),
    // === Punctuation & Operators ===
    Semicolon,
    Comma,
    Dot,
    Colon,
    LParen,
    RParen,
    LBrace,
    RBrace,
    LBracket,
    RBracket,
    Arrow,
    Equals,
    DoubleEquals,
    NotEquals,
    Plus,
    PlusEquals,
    Minus,
    MinusEquals,
    Star,
    DoubleStar,
    Slash,
    At,
    Less,
    LessEquals,
    Greater,
    GreaterEquals,
}

impl Clone for Token {
    fn clone(&self) -> (r: Self)
        ensures
            r == *self,
    {
        match self {
            Token::FloatLiteral(s) => Token::FloatLiteral(s.clone()),
            Token::IntLiteral(n) => Token::IntLiteral(*n),
            Token::StringLiteral(s) => Token::StringLiteral(s.clone()),
            Token::Ident(s) => Token::Ident(s.clone()),
            Token::OpenQasm => Token::OpenQasm,
            Token::Include => Token::Include,
            Token::Qubit => Token::Qubit,
            Token::Bit => Token::Bit,
            Token::Gate => Token::Gate,
            Token::If => Token::If,
            Token::Else => Token::Else,
            Token::Measure => Token::Measure,
            Token::Reset => Token::Reset,
            Token::Barrier => Token::Barrier,
            Token::Delay => Token::Delay,
            Token::Let => Token::Let,
            Token::Const => Token::Const,
            Token::Int => Token::Int,
            Token::UInt => Token::UInt,
            Token::Float => Token::Float,
            Token::Angle => Token::Angle,
            Token::Bool => Token::Bool,
            Token::True => Token::True,
            Token::False => Token::False,
            Token::Return => Token::Return,
            Token::Def => Token::Def,
            Token::For => Token::For,
            Token::While => Token::While,
            Token::In => Token::In,
            Token::Input => Token::Input,
            Token::Output => Token::Output,
            Token::Creg => Token::Creg,
            Token::Qreg => Token::Qreg,
            Token::Ctrl => Token::Ctrl,
            Token::NegCtrl => Token::NegCtrl,
            Token::Inv => Token::Inv,
            Token::Pow => Token::Pow,
            Token::Semicolon => Token::Semicolon,
            Token::Comma => Token::Comma,
            Token::Dot => Token::Dot,
            Token::Colon => Token::Colon,
            Token::LParen => Token::LParen,
            Token::RParen => Token::RParen,
            Token::LBrace => Token::LBrace,
            Token::RBrace => Token::RBrace,
            Token::LBracket => Token::LBracket,
            Token::RBracket => Token::RBracket,
            Token::Arrow => Token::Arrow,
            Token::Equals => Token::Equals,
            Token::DoubleEquals => Token::DoubleEquals,
            Token::NotEquals => Token::NotEquals,
            Token::Plus => Token::Plus,
            Token::PlusEquals => Token::PlusEquals,
            Token::Minus => Token::Minus,
            Token::MinusEquals => Token::MinusEquals,
            Token::Star => Token::Star,
            Token::DoubleStar => Token::DoubleStar,
            Token::Slash => Token::Slash,
            Token::At => Token::At,
            Token::Less => Token::Less,
            Token::LessEquals => Token::LessEquals,
            Token::Greater => Token::Greater,
            Token::GreaterEquals => Token::GreaterEquals,
        }
    }
}

impl Token {
    /// True when this token is `other`, a token kind without payload.
    pub fn same(&self, other: &Token) -> (r: bool)
        requires
            is_unit_token(*other),
        ensures
            r == (*self == *other),
    {
        match self {
            Token::FloatLiteral(_) | Token::IntLiteral(_) | Token::StringLiteral(_) | Token::Ident(
                _,
            ) => false,
            _ => self.unit_index() == other.unit_index(),
        }
    }

    /// Position of a payload-free token kind in the declaration order.
    fn unit_index(&self) -> (r: u8)
        requires
            !(self is FloatLiteral || self is IntLiteral || self is StringLiteral || self is Ident),
        ensures
            forall|o: Token|
                !(o is FloatLiteral || o is IntLiteral || o is StringLiteral || o is Ident)
                    ==> (unit_index_spec(o) == r <==> o == *self),
            r == unit_index_spec(*self),
    {
        match self {
            Token::OpenQasm => 0,
            Token::Include => 1,
            Token::Qubit => 2,
            Token::Bit => 3,
            Token::Gate => 4,
            Token::If => 5,
            Token::Else => 6,
            Token::Measure => 7,
            Token::Reset => 8,
            Token::Barrier => 9,
            Token::Delay => 10,
            Token::Let => 11,
            Token::Const => 12,
            Token::Int => 13,
            Token::UInt => 14,
            Token::Float => 15,
            Token::Angle => 16,
            Token::Bool => 17,
            Token::True => 18,
            Token::False => 19,
            Token::Return => 20,
            Token::Def => 21,
            Token::For => 22,
            Token::While => 23,
            Token::In => 24,
            Token::Input => 25,
            Token::Output => 26,
            Token::Creg => 27,
            Token::Qreg => 28,
            Token::Ctrl => 29,
            Token::NegCtrl => 30,
            Token::Inv => 31,
            Token::Pow => 32,
            Token::Semicolon => 33,
            Token::Comma => 34,
            Token::Dot => 35,
            Token::Colon => 36,
            Token::LParen => 37,
            Token::RParen => 38,
            Token::LBrace => 39,
            Token::RBrace => 40,
            Token::LBracket => 41,
            Token::RBracket => 42,
            Token::Arrow => 43,
            Token::Equals => 44,
            Token::DoubleEquals => 45,
            Token::NotEquals => 46,
            Token::Plus => 47,
            Token::PlusEquals => 48,
            Token::Minus => 49,
            Token::MinusEquals => 50,
            Token::Star => 51,
            Token::DoubleStar => 52,
            Token::Slash => 53,
            Token::At => 54,
            Token::Less => 55,
            Token::LessEquals => 56,
            Token::Greater => 57,
            Token::GreaterEquals => 58,
            _ => 59,
        }
    }
}

/// A token kind that carries no payload.
pub open spec fn is_unit_token(t: Token) -> bool {
    !(t is FloatLiteral || t is IntLiteral || t is StringLiteral || t is Ident)
}

/// Declaration-order position of a payload-free token kind.
pub open spec fn unit_index_spec(t: Token) -> u8 {
    match t {
        Token::OpenQasm => 0,
        Token::Include => 1,
        Token::Qubit => 2,
        Token::Bit => 3,
        Token::Gate => 4,
        Token::If => 5,
        Token::Else => 6,
        Token::Measure => 7,
        Token::Reset => 8,
        Token::Barrier => 9,
        Token::Delay => 10,
        Token::Let => 11,
        Token::Const => 12,
        Token::Int => 13,
        Token::UInt => 14,
        Token::Float => 15,
        Token::Angle => 16,
        Token::Bool => 17,
        Token::True => 18,
        Token::False => 19,
        Token::Return => 20,
        Token::Def => 21,
        Token::For => 22,
        Token::While => 23,
        Token::In => 24,
        Token::Input => 25,
        Token::Output => 26,
        Token::Creg => 27,
        Token::Qreg => 28,
        Token::Ctrl => 29,
        Token::NegCtrl => 30,
        Token::Inv => 31,
        Token::Pow => 32,
        Token::Semicolon => 33,
        Token::Comma => 34,
        Token::Dot => 35,
        Token::Colon => 36,
        Token::LParen => 37,
        Token::RParen => 38,
        Token::LBrace => 39,
        Token::RBrace => 40,
        Token::LBracket => 41,
        Token::RBracket => 42,
        Token::Arrow => 43,
        Token::Equals => 44,
        Token::DoubleEquals => 45,
        Token::NotEquals => 46,
        Token::Plus => 47,
        Token::PlusEquals => 48,
        Token::Minus => 49,
        Token::MinusEquals => 50,
        Token::Star => 51,
        Token::DoubleStar => 52,
        Token::Slash => 53,
        Token::At => 54,
        Token::Less => 55,
        Token::LessEquals => 56,
        Token::Greater => 57,
        Token::GreaterEquals => 58,
        _ => 59,
    }
}

} // verus!

verus! {

// ── Byte classes ────────────────────────────────────────────

pub open spec fn is_digit(b: u8) -> bool {
    48 <= b <= 57
}

pub open spec fn is_ident_start(b: u8) -> bool {
    (65 <= b <= 90) || (97 <= b <= 122) || b == 95
}

pub open spec fn is_ident_continue(b: u8) -> bool {
    is_ident_start(b) || is_digit(b)
}

/// Whitespace skipped between tokens: space, tab, CR, LF, form feed.
pub open spec fn is_space(b: u8) -> bool {
    b == 32 || b == 9 || b == 13 || b == 10 || b == 12
}

pub open spec fn all_digits(s: Seq<u8>) -> bool {
    forall|i: int| 0 <= i < s.len() ==> is_digit(#[trigger] s[i])
}

/// Value of a sequence of decimal digit bytes.
pub open spec fn digits_value(s: Seq<u8>) -> nat
    decreases s.len(),
{
    if s.len() == 0 {
        0
    } else {
        digits_value(s.drop_last()) * 10 + (s.last() - 48) as nat
    }
}

/// `[a-zA-Z_][a-zA-Z0-9_]*`
pub open spec fn is_ident_text(s: Seq<u8>) -> bool {
    &&& s.len() > 0
    &&& is_ident_start(s[0])
    &&& forall|i: int| 1 <= i < s.len() ==> is_ident_continue(#[trigger] s[i])
}

/// `[eE][+-]?[0-9]+`
pub open spec fn is_exponent_text(e: Seq<u8>) -> bool {
    &&& e.len() >= 2
    &&& (e[0] == 101 || e[0] == 69)
    &&& ((all_digits(e.subrange(1, e.len() as int))) || ((e[1] == 43 || e[1] == 45) && e.len()
        >= 3 && all_digits(e.subrange(2, e.len() as int))))
}

/// `text` splits as integer digits `[0, p)`, a dot at `p`, fraction digits
/// `(p, q)` and an optional exponent from `q`.
pub open spec fn float_split(text: Seq<u8>, p: int, q: int) -> bool {
    &&& 1 <= p < q <= text.len()
    &&& all_digits(text.subrange(0, p))
    &&& text[p] == 46
    &&& all_digits(text.subrange(p + 1, q))
    &&& (q == text.len() || is_exponent_text(text.subrange(q, text.len() as int)))
}

/// `[0-9]+\.[0-9]*([eE][+-]?[0-9]+)?`
pub open spec fn is_float_text(text: Seq<u8>) -> bool {
    exists|p: int, q: int| #[trigger] float_split(text, p, q)
}

/// The keyword spelled by `s`, if any.
pub open spec fn keyword_token(s: Seq<u8>) -> Option<Token> {
    if s == "OPENQASM".spec_bytes() {
        Some(Token::OpenQasm)
    } else if s == "include".spec_bytes() {
        Some(Token::Include)
    } else if s == "qubit".spec_bytes() {
        Some(Token::Qubit)
    } else if s == "bit".spec_bytes() {
        Some(Token::Bit)
    } else if s == "gate".spec_bytes() {
        Some(Token::Gate)
    } else if s == "if".spec_bytes() {
        Some(Token::If)
    } else if s == "else".spec_bytes() {
        Some(Token::Else)
    } else if s == "measure".spec_bytes() {
        Some(Token::Measure)
    } else if s == "reset".spec_bytes() {
        Some(Token::Reset)
    } else if s == "barrier".spec_bytes() {
        Some(Token::Barrier)
    } else if s == "delay".spec_bytes() {
        Some(Token::Delay)
    } else if s == "let".spec_bytes() {
        Some(Token::Let)
    } else if s == "const".spec_bytes() {
        Some(Token::Const)
    } else if s == "int".spec_bytes() {
        Some(Token::Int)
    } else if s == "uint".spec_bytes() {
        Some(Token::UInt)
    } else if s == "float".spec_bytes() {
        Some(Token::Float)
    } else if s == "angle".spec_bytes() {
        Some(Token::Angle)
    } else if s == "bool".spec_bytes() {
        Some(Token::Bool)
    } else if s == "true".spec_bytes() {
        Some(Token::True)
    } else if s == "false".spec_bytes() {
        Some(Token::False)
    } else if s == "return".spec_bytes() {
        Some(Token::Return)
    } else if s == "def".spec_bytes() {
        Some(Token::Def)
    } else if s == "for".spec_bytes() {
        Some(Token::For)
    } else if s == "while".spec_bytes() {
        Some(Token::While)
    } else if s == "in".spec_bytes() {
        Some(Token::In)
    } else if s == "input".spec_bytes() {
        Some(Token::Input)
    } else if s == "output".spec_bytes() {
        Some(Token::Output)
    } else if s == "creg".spec_bytes() {
        Some(Token::Creg)
    } else if s == "qreg".spec_bytes() {
        Some(Token::Qreg)
    } else if s == "ctrl".spec_bytes() {
        Some(Token::Ctrl)
    } else if s == "negctrl".spec_bytes() {
        Some(Token::NegCtrl)
    } else if s == "inv".spec_bytes() {
        Some(Token::Inv)
    } else if s == "pow".spec_bytes() {
        Some(Token::Pow)
    } else {
        None
    }
}

/// The one-byte punctuation or operator token `b`, if any.
pub open spec fn punct1(b: u8) -> Option<Token> {
    if b == 59 {
        Some(Token::Semicolon)
    } else if b == 44 {
        Some(Token::Comma)
    } else if b == 46 {
        Some(Token::Dot)
    } else if b == 58 {
        Some(Token::Colon)
    } else if b == 40 {
        Some(Token::LParen)
    } else if b == 41 {
        Some(Token::RParen)
    } else if b == 123 {
        Some(Token::LBrace)
    } else if b == 125 {
        Some(Token::RBrace)
    } else if b == 91 {
        Some(Token::LBracket)
    } else if b == 93 {
        Some(Token::RBracket)
    } else if b == 61 {
        Some(Token::Equals)
    } else if b == 43 {
        Some(Token::Plus)
    } else if b == 45 {
        Some(Token::Minus)
    } else if b == 42 {
        Some(Token::Star)
    } else if b == 47 {
        Some(Token::Slash)
    } else if b == 64 {
        Some(Token::At)
    } else if b == 60 {
        Some(Token::Less)
    } else if b == 62 {
        Some(Token::Greater)
    } else {
        None
    }
}

/// The two-byte operator token `a b`, if any.
pub open spec fn punct2(a: u8, b: u8) -> Option<Token> {
    if a == 45 && b == 62 {
        Some(Token::Arrow)
    } else if a == 61 && b == 61 {
        Some(Token::DoubleEquals)
    } else if a == 33 && b == 61 {
        Some(Token::NotEquals)
    } else if a == 43 && b == 61 {
        Some(Token::PlusEquals)
    } else if a == 45 && b == 61 {
        Some(Token::MinusEquals)
    } else if a == 42 && b == 42 {
        Some(Token::DoubleStar)
    } else if a == 60 && b == 61 {
        Some(Token::LessEquals)
    } else if a == 62 && b == 61 {
        Some(Token::GreaterEquals)
    } else {
        None
    }
}

/// The punctuation or operator token spelled by `s`, if any.
pub open spec fn punct_token(s: Seq<u8>) -> Option<Token> {
    if s.len() == 1 {
        punct1(s[0])
    } else if s.len() == 2 {
        punct2(s[0], s[1])
    } else {
        None
    }
}

/// `text`, the source bytes of a token's span, spells token `t`.
#[verifier::opaque]
pub open spec fn lexeme_of(t: Token, text: Seq<u8>) -> bool {
    match t {
        Token::Ident(name) => is_ident_text(text) && keyword_token(text) is None && encode_utf8(
            name@,
        ) == text,
        Token::IntLiteral(v) => text.len() > 0 && all_digits(text) && v as nat == digits_value(text),
        Token::FloatLiteral(lexeme) => is_float_text(text) && encode_utf8(lexeme@) == text,
        Token::StringLiteral(contents) => {
            &&& text.len() >= 2
            &&& text[0] == 34
            &&& text.last() == 34
            &&& forall|k: int| 1 <= k < text.len() - 1 ==> #[trigger] text[k] != 34
            &&& encode_utf8(contents@) == text.subrange(1, text.len() - 1)
        },
        _ => keyword_token(text) == Some(t) || punct_token(text) == Some(t),
    }
}

/// Every token span lies in `bytes` below `limit`, spans are ordered, and
/// each token is spelled by the bytes of its span.
#[verifier::opaque]
pub open spec fn tokens_spell(bytes: Seq<u8>, toks: Seq<Spanned<Token>>, limit: int) -> bool {
    &&& forall|k: int|
        0 <= k < toks.len() ==> {
            &&& (#[trigger] toks[k]).span.start < toks[k].span.end <= limit
            &&& lexeme_of(toks[k].node, bytes.subrange(toks[k].span.start as int, toks[k].span.end as int))
        }
    &&& forall|k: int| 0 <= k < toks.len() - 1 ==> (#[trigger] toks[k]).span.end <= toks[k + 1].span.start
}

/// Error spans are non-empty, ordered, and lie below `limit`.
#[verifier::opaque]
pub open spec fn spans_ordered(spans: Seq<Span>, limit: int) -> bool {
    &&& forall|k: int| 0 <= k < spans.len() ==> (#[trigger] spans[k]).start < spans[k].end <= limit
    &&& forall|k: int| 0 <= k < spans.len() - 1 ==> (#[trigger] spans[k]).end <= spans[k + 1].start
}

// ── Longest match ───────────────────────────────────────────

/// The end of the run of bytes of class `digit` (or of identifier
/// continuations, when `digit` is false) that starts at `k`.
pub open spec fn run_end(bytes: Seq<u8>, k: int, digit: bool) -> int
    decreases bytes.len() - k,
{
    if 0 <= k < bytes.len() && (if digit {
        is_digit(bytes[k])
    } else {
        is_ident_continue(bytes[k])
    }) {
        run_end(bytes, k + 1, digit)
    } else {
        k
    }
}

/// The first `"` at or after `k`, if any.
pub open spec fn quote_from(bytes: Seq<u8>, k: int) -> Option<int>
    decreases bytes.len() - k,
{
    if k < 0 || k >= bytes.len() {
        None
    } else if bytes[k] == 34 {
        Some(k)
    } else {
        quote_from(bytes, k + 1)
    }
}

/// The end of the UTF-8 continuation bytes that start at `k`.
pub open spec fn continuation_end(bytes: Seq<u8>, k: int) -> int
    decreases bytes.len() - k,
{
    if 0 <= k < bytes.len() && 0x80 <= bytes[k] <= 0xbf {
        continuation_end(bytes, k + 1)
    } else {
        k
    }
}

/// The end of a floating literal whose integer digits end at `j`, where a
/// `.` stands: fraction digits, then an exponent if one is complete.
pub open spec fn float_end(bytes: Seq<u8>, j: int) -> int {
    let q = run_end(bytes, j + 1, true);
    if q < bytes.len() && (bytes[q] == 101 || bytes[q] == 69) {
        let m0 = if q + 1 < bytes.len() && (bytes[q + 1] == 43 || bytes[q + 1] == 45) {
            q + 2
        } else {
            q + 1
        };
        let m = run_end(bytes, m0, true);
        if m > m0 {
            m
        } else {
            q
        }
    } else {
        q
    }
}

/// Where the piece of source that starts at `i` ends: the longest literal,
/// identifier or keyword, or operator that starts there; a lone `"`
/// without a closing one; or else the one character that starts no token.
pub open spec fn scan_end(bytes: Seq<u8>, i: int) -> int {
    let b = bytes[i];
    if is_digit(b) {
        let j = run_end(bytes, i + 1, true);
        if j < bytes.len() && bytes[j] == 46 {
            float_end(bytes, j)
        } else {
            j
        }
    } else if is_ident_start(b) {
        run_end(bytes, i + 1, false)
    } else if b == 34 {
        match quote_from(bytes, i + 1) {
            Some(k) => k + 1,
            None => i + 1,
        }
    } else if i + 1 < bytes.len() && punct2(b, bytes[i + 1]) is Some {
        i + 2
    } else if punct1(b) is Some {
        i + 1
    } else {
        continuation_end(bytes, i + 1)
    }
}

/// Whether the piece that starts at `i` is a token: anything but an
/// integer too large for 64 bits, an unclosed `"`, or a character that
/// starts no token.
pub open spec fn scan_is_token(bytes: Seq<u8>, i: int) -> bool {
    let b = bytes[i];
    if is_digit(b) {
        let j = run_end(bytes, i + 1, true);
        (j < bytes.len() && bytes[j] == 46) || digits_value(bytes.subrange(i, j)) <= u64::MAX
    } else if is_ident_start(b) {
        true
    } else if b == 34 {
        quote_from(bytes, i + 1) is Some
    } else {
        (i + 1 < bytes.len() && punct2(b, bytes[i + 1]) is Some) || punct1(b) is Some
    }
}

// ── Trivia and coverage ─────────────────────────────────────

/// The first position at or after `k` that holds a line feed, or the end.
pub open spec fn line_end(bytes: Seq<u8>, k: int) -> int
    decreases bytes.len() - k,
{
    if k >= bytes.len() || bytes[k] == 10 {
        k
    } else {
        line_end(bytes, k + 1)
    }
}

/// The first position at or after `k` where `*/` starts, if there is one.
pub open spec fn block_close(bytes: Seq<u8>, k: int) -> Option<int>
    decreases bytes.len() - k,
{
    if bytes.len() - k <= 1 {
        None
    } else if bytes[k] == 42 && bytes[k + 1] == 47 {
        Some(k)
    } else {
        block_close(bytes, k + 1)
    }
}

pub proof fn lemma_line_end(bytes: Seq<u8>, k: int)
    ensures
        k <= bytes.len() ==> k <= line_end(bytes, k) <= bytes.len(),
        k > bytes.len() ==> line_end(bytes, k) == k,
    decreases bytes.len() - k,
{
    if k < bytes.len() && bytes[k] != 10 {
        lemma_line_end(bytes, k + 1);
    }
}

pub proof fn lemma_block_close(bytes: Seq<u8>, k: int)
    ensures
        block_close(bytes, k) matches Some(c) ==> k <= c && c + 2 <= bytes.len() && bytes[c] == 42 && bytes[c
            + 1] == 47,
    decreases bytes.len() - k,
{
    if bytes.len() - k > 1 && !(bytes[k] == 42 && bytes[k + 1] == 47) {
        lemma_block_close(bytes, k + 1);
    }
}

/// Where the whitespace and comments (`// ...` to the end of the line,
/// `/* ... */`) that start at `j` end. An unclosed `/*` is not skipped.
pub open spec fn trivia_end(bytes: Seq<u8>, j: int) -> int
    decreases bytes.len() - j,
{
    if j < 0 || j >= bytes.len() {
        j
    } else if is_space(bytes[j]) {
        trivia_end(bytes, j + 1)
    } else if bytes[j] == 47 && j + 1 < bytes.len() && bytes[j + 1] == 47 {
        proof {
            lemma_line_end(bytes, j + 2);
        }
        trivia_end(bytes, line_end(bytes, j + 2))
    } else if bytes[j] == 47 && j + 1 < bytes.len() && bytes[j + 1] == 42 {
        proof {
            lemma_block_close(bytes, j + 2);
        }
        match block_close(bytes, j + 2) {
            Some(c) => trivia_end(bytes, c + 2),
            None => j,
        }
    } else {
        j
    }
}

proof fn lemma_trivia_end(bytes: Seq<u8>, j: int)
    requires
        0 <= j <= bytes.len(),
    ensures
        j <= trivia_end(bytes, j) <= bytes.len(),
    decreases bytes.len() - j,
{
    if j < bytes.len() {
        if is_space(bytes[j]) {
            lemma_trivia_end(bytes, j + 1);
        } else if bytes[j] == 47 && j + 1 < bytes.len() && bytes[j + 1] == 47 {
            lemma_line_end(bytes, j + 2);
            lemma_trivia_end(bytes, line_end(bytes, j + 2));
        } else if bytes[j] == 47 && j + 1 < bytes.len() && bytes[j + 1] == 42 {
            lemma_block_close(bytes, j + 2);
            if let Some(c) = block_close(bytes, j + 2) {
                lemma_trivia_end(bytes, c + 2);
            }
        }
    }
}

/// Where the gap before piece `k` starts: the end of the piece before it,
/// or the start of the source.
pub open spec fn gap_start(pieces: Seq<Span>, k: int) -> int {
    if k <= 0 {
        0
    } else {
        pieces[k - 1].end as int
    }
}

/// `bytes` read as `pieces`: each non-empty piece starts where the
/// whitespace and comments after the previous one end, and after the last
/// piece only whitespace and comments are left.
pub open spec fn lexed_pieces(bytes: Seq<u8>, pieces: Seq<Span>) -> bool {
    &&& forall|k: int|
        0 <= k < pieces.len() ==> (#[trigger] pieces[k]).start == trivia_end(bytes, gap_start(pieces, k))
            && pieces[k].start < pieces[k].end && pieces[k].end == scan_end(bytes, pieces[k].start as int)
    &&& trivia_end(bytes, gap_start(pieces, pieces.len() as int)) == bytes.len()
}

/// Each piece is tagged as a token exactly when it is one.
pub open spec fn tags_match(bytes: Seq<u8>, pieces: Seq<Span>, tags: Seq<bool>) -> bool {
    &&& tags.len() == pieces.len()
    &&& forall|k: int| 0 <= k < pieces.len() ==> #[trigger] tags[k] == scan_is_token(bytes, pieces[k].start as int)
}

/// `pieces`, tagged in order, are the token spans (`true`) and the error
/// spans (`false`).
pub open spec fn split_pieces(pieces: Seq<Span>, tags: Seq<bool>, toks: Seq<Span>, errs: Seq<Span>) -> bool
    decreases pieces.len(),
{
    if pieces.len() == 0 || tags.len() != pieces.len() {
        pieces.len() == 0 && tags.len() == 0 && toks.len() == 0 && errs.len() == 0
    } else if tags.last() {
        toks.len() > 0 && toks.last() == pieces.last() && split_pieces(
            pieces.drop_last(),
            tags.drop_last(),
            toks.drop_last(),
            errs,
        )
    } else {
        errs.len() > 0 && errs.last() == pieces.last() && split_pieces(
            pieces.drop_last(),
            tags.drop_last(),
            toks,
            errs.drop_last(),
        )
    }
}

/// What the lexer reads from `bytes`: the tokens, each spelled by the bytes
/// of its span, and the spans of the errors, which together are the pieces
/// of the source in order, each piece the longest match where it starts.
pub open spec fn lexed(bytes: Seq<u8>, toks: Seq<Spanned<Token>>, errs: Seq<Span>) -> bool {
    &&& tokens_spell(bytes, toks, bytes.len() as int)
    &&& spans_ordered(errs, bytes.len() as int)
    &&& exists|pieces: Seq<Span>, tags: Seq<bool>|
        lexed_pieces(bytes, pieces) && tags_match(bytes, pieces, tags) && split_pieces(
            pieces,
            tags,
            token_spans(toks),
            errs,
        )
}

/// The spans of tokens.
pub open spec fn token_spans(toks: Seq<Spanned<Token>>) -> Seq<Span> {
    toks.map_values(|t: Spanned<Token>| t.span)
}

// ── Lemmas ──────────────────────────────────────────────────

proof fn lemma_after_ascii(bytes: Seq<u8>, i: int)
    requires
        valid_utf8(bytes),
        0 <= i < bytes.len(),
        bytes[i] < 128,
    ensures
        at_char_start(bytes, i + 1),
    decreases bytes.len(),
{
    let l = length_of_first_scalar(bytes);
    let rest = pop_first_scalar(bytes);
    assert(valid_first_scalar(bytes));
    assert(valid_utf8(rest));
    if i < l {
        assert(i == 0);
        assert(l == 1);
        if rest.len() > 0 {
            assert(valid_first_scalar(rest));
            assert(rest[0] == bytes[1]);
        }
    } else {
        assert(rest.len() == bytes.len() - l);
        assert(rest[i - l] == bytes[i]);
        lemma_after_ascii(rest, i - l);
        if i + 1 < bytes.len() {
            assert(rest[i - l + 1] == bytes[i + 1]);
        }
    }
}

proof fn lemma_digits_value_step(s: Seq<u8>, i: int, k: int)
    requires
        0 <= i <= k < s.len(),
    ensures
        digits_value(s.subrange(i, k + 1)) == digits_value(s.subrange(i, k)) * 10 + (s[k] - 48) as nat,
{
    assert(s.subrange(i, k + 1).drop_last() =~= s.subrange(i, k));
}

proof fn lemma_digits_value_grows(s: Seq<u8>, i: int, a: int, b: int)
    requires
        0 <= i <= a <= b <= s.len(),
        forall|x: int| i <= x < b ==> is_digit(#[trigger] s[x]),
    ensures
        digits_value(s.subrange(i, a)) <= digits_value(s.subrange(i, b)),
    decreases b - a,
{
    if a < b {
        lemma_digits_value_grows(s, i, a, b - 1);
        lemma_digits_value_step(s, i, b - 1);
        assert(is_digit(s[b - 1]));
    }
}

// ── Scanning helpers ────────────────────────────────────────

/// `bytes[start..end]` equals `lit`.
fn range_eq(bytes: &[u8], start: usize, end: usize, lit: &[u8]) -> (r: bool)
    requires
        start <= end <= bytes@.len(),
    ensures
        r == (bytes@.subrange(start as int, end as int) == lit@),
{
    if end - start != lit.len() {
        return false;
    }
    let mut k: usize = 0;
    while k < lit.len()
        invariant
            start <= end <= bytes@.len(),
            end - start == lit@.len(),
            k <= lit@.len(),
            forall|j: int| 0 <= j < k ==> bytes@[start + j] == lit@[j],
        decreases lit@.len() - k,
    {
        if bytes[start + k] != lit[k] {
            assert(bytes@.subrange(start as int, end as int)[k as int] != lit@[k as int]);
            return false;
        }
        k += 1;
    }
    assert(bytes@.subrange(start as int, end as int) =~= lit@);
    true
}

fn keyword_of(bytes: &[u8], start: usize, end: usize) -> (r: Option<Token>)
    requires
        start <= end <= bytes@.len(),
    ensures
        r == keyword_token(bytes@.subrange(start as int, end as int)),
{
    if range_eq(bytes, start, end, "OPENQASM".as_bytes()) {
        Some(Token::OpenQasm)
    } else if range_eq(bytes, start, end, "include".as_bytes()) {
        Some(Token::Include)
    } else if range_eq(bytes, start, end, "qubit".as_bytes()) {
        Some(Token::Qubit)
    } else if range_eq(bytes, start, end, "bit".as_bytes()) {
        Some(Token::Bit)
    } else if range_eq(bytes, start, end, "gate".as_bytes()) {
        Some(Token::Gate)
    } else if range_eq(bytes, start, end, "if".as_bytes()) {
        Some(Token::If)
    } else if range_eq(bytes, start, end, "else".as_bytes()) {
        Some(Token::Else)
    } else if range_eq(bytes, start, end, "measure".as_bytes()) {
        Some(Token::Measure)
    } else if range_eq(bytes, start, end, "reset".as_bytes()) {
        Some(Token::Reset)
    } else if range_eq(bytes, start, end, "barrier".as_bytes()) {
        Some(Token::Barrier)
    } else if range_eq(bytes, start, end, "delay".as_bytes()) {
        Some(Token::Delay)
    } else if range_eq(bytes, start, end, "let".as_bytes()) {
        Some(Token::Let)
    } else if range_eq(bytes, start, end, "const".as_bytes()) {
        Some(Token::Const)
    } else if range_eq(bytes, start, end, "int".as_bytes()) {
        Some(Token::Int)
    } else if range_eq(bytes, start, end, "uint".as_bytes()) {
        Some(Token::UInt)
    } else if range_eq(bytes, start, end, "float".as_bytes()) {
        Some(Token::Float)
    } else if range_eq(bytes, start, end, "angle".as_bytes()) {
        Some(Token::Angle)
    } else if range_eq(bytes, start, end, "bool".as_bytes()) {
        Some(Token::Bool)
    } else if range_eq(bytes, start, end, "true".as_bytes()) {
        Some(Token::True)
    } else if range_eq(bytes, start, end, "false".as_bytes()) {
        Some(Token::False)
    } else if range_eq(bytes, start, end, "return".as_bytes()) {
        Some(Token::Return)
    } else if range_eq(bytes, start, end, "def".as_bytes()) {
        Some(Token::Def)
    } else if range_eq(bytes, start, end, "for".as_bytes()) {
        Some(Token::For)
    } else if range_eq(bytes, start, end, "while".as_bytes()) {
        Some(Token::While)
    } else if range_eq(bytes, start, end, "in".as_bytes()) {
        Some(Token::In)
    } else if range_eq(bytes, start, end, "input".as_bytes()) {
        Some(Token::Input)
    } else if range_eq(bytes, start, end, "output".as_bytes()) {
        Some(Token::Output)
    } else if range_eq(bytes, start, end, "creg".as_bytes()) {
        Some(Token::Creg)
    } else if range_eq(bytes, start, end, "qreg".as_bytes()) {
        Some(Token::Qreg)
    } else if range_eq(bytes, start, end, "ctrl".as_bytes()) {
        Some(Token::Ctrl)
    } else if range_eq(bytes, start, end, "negctrl".as_bytes()) {
        Some(Token::NegCtrl)
    } else if range_eq(bytes, start, end, "inv".as_bytes()) {
        Some(Token::Inv)
    } else if range_eq(bytes, start, end, "pow".as_bytes()) {
        Some(Token::Pow)
    } else {
        None
    }
}

} // verus!

verus! {

/// Skip whitespace, `//` line comments and `/* */` block comments.
fn skip_trivia(bytes: &[u8], i: usize) -> (r: usize)
    requires
        valid_utf8(bytes@),
        at_char_start(bytes@, i as int),
        i <= bytes@.len(),
    ensures
        i <= r <= bytes@.len(),
        at_char_start(bytes@, r as int),
        r == trivia_end(bytes@, i as int),
{
    let n = bytes.len();
    let mut j = i;
    while j < n
        invariant
            n == bytes@.len(),
            valid_utf8(bytes@),
            i <= j <= n,
            at_char_start(bytes@, j as int),
            trivia_end(bytes@, i as int) == trivia_end(bytes@, j as int),
        decreases n - j,
    {
        let b = bytes[j];
        if b == 32 || b == 9 || b == 13 || b == 10 || b == 12 {
            proof {
                lemma_after_ascii(bytes@, j as int);
            }
            j += 1;
        } else if b == 47 && j + 1 < n && bytes[j + 1] == 47 {
            let mut k = j + 2;
            while k < n && bytes[k] != 10
                invariant
                    n == bytes@.len(),
                    j + 2 <= k <= n,
                    line_end(bytes@, j + 2) == line_end(bytes@, k as int),
                decreases n - k,
            {
                k += 1;
            }
            j = k;
        } else if b == 47 && j + 1 < n && bytes[j + 1] == 42 {
            let mut k = j + 2;
            while n - k > 1 && !(bytes[k] == 42 && bytes[k + 1] == 47)
                invariant
                    n == bytes@.len(),
                    j + 2 <= k <= n,
                    block_close(bytes@, j + 2) == block_close(bytes@, k as int),
                decreases n - k,
            {
                k += 1;
            }
            if n - k > 1 {
                proof {
                    lemma_after_ascii(bytes@, k + 1);
                }
                j = k + 2;
            } else {
                return j;
            }
        } else {
            return j;
        }
    }
    j
}

/// Scan a decimal integer or floating literal starting at `i`.
fn scan_number(source: &str, bytes: &[u8], i: usize) -> (r: (Option<Token>, usize))
    requires
        bytes@ == source.spec_bytes(),
        valid_utf8(bytes@),
        i < bytes@.len(),
        is_digit(bytes@[i as int]),
    ensures
        i < r.1 <= bytes@.len(),
        at_char_start(bytes@, r.1 as int),
        r.0 matches Some(t) ==> lexeme_of(t, bytes@.subrange(i as int, r.1 as int)),
        r.1 == scan_end(bytes@, i as int),
        r.0 is Some <==> scan_is_token(bytes@, i as int),
{
    reveal(lexeme_of);
    let n = bytes.len();
    let mut j = i + 1;
    while j < n && 48 <= bytes[j] && bytes[j] <= 57
        invariant
            n == bytes@.len(),
            i < j <= n,
            forall|x: int| i <= x < j ==> is_digit(#[trigger] bytes@[x]),
            run_end(bytes@, i + 1, true) == run_end(bytes@, j as int, true),
        decreases n - j,
    {
        j += 1;
    }
    if j < n && bytes[j] == 46 {
        // Floating literal: digits '.' digits* exponent?
        let mut q = j + 1;
        while q < n && 48 <= bytes[q] && bytes[q] <= 57
            invariant
                n == bytes@.len(),
                j < q <= n,
                forall|x: int| j < x < q ==> is_digit(#[trigger] bytes@[x]),
                run_end(bytes@, j + 1, true) == run_end(bytes@, q as int, true),
            decreases n - q,
        {
            q += 1;
        }
        let mut end = q;
        if q < n && (bytes[q] == 101 || bytes[q] == 69) {
            let mut m = q + 1;
            if m < n && (bytes[m] == 43 || bytes[m] == 45) {
                m += 1;
            }
            let ds = m;
            while m < n && 48 <= bytes[m] && bytes[m] <= 57
                invariant
                    n == bytes@.len(),
                    ds <= m <= n,
                    forall|x: int| ds <= x < m ==> is_digit(#[trigger] bytes@[x]),
                    run_end(bytes@, ds as int, true) == run_end(bytes@, m as int, true),
                decreases n - m,
            {
                m += 1;
            }
            if m > ds {
                end = m;
                proof {
                    let e = bytes@.subrange(q as int, end as int);
                    if ds == q + 1 {
                        assert(all_digits(e.subrange(1, e.len() as int)));
                    } else {
                        assert(all_digits(e.subrange(2, e.len() as int)));
                    }
                    assert(is_exponent_text(e));
                }
            }
        }
        proof {
            let text = bytes@.subrange(i as int, end as int);
            let p = j - i;
            let qq = q - i;
            assert(all_digits(text.subrange(0, p as int)));
            assert(all_digits(text.subrange(p + 1, qq as int)));
            if end > q {
                assert(text.subrange(qq as int, text.len() as int) =~= bytes@.subrange(
                    q as int,
                    end as int,
                ));
            }
            assert(float_split(text, p as int, qq as int));
            lemma_after_ascii(bytes@, end - 1);
            lemma_after_ascii(bytes@, i as int);
        }
        let lexeme = substring(source, i, end);
        return (Some(Token::FloatLiteral(lexeme)), end);
    }
    proof {
        lemma_after_ascii(bytes@, j - 1);
    }
    // Integer literal: accumulate with overflow detection.
    let mut v: u64 = 0;
    let mut k = i;
    while k < j
        invariant
            n == bytes@.len(),
            i <= k <= j <= n,
            at_char_start(bytes@, j as int),
            forall|x: int| i <= x < j ==> is_digit(#[trigger] bytes@[x]),
            j == run_end(bytes@, i + 1, true),
            !(j < n && bytes@[j as int] == 46),
            v as nat == digits_value(bytes@.subrange(i as int, k as int)),
        decreases j - k,
    {
        let d = (bytes[k] - 48) as u64;
        proof {
            lemma_digits_value_step(bytes@, i as int, k as int);
        }
        match v.checked_mul(10) {
            Some(t) => match t.checked_add(d) {
                Some(u) => {
                    v = u;
                },
                None => {
                    proof {
                        lemma_digits_value_grows(bytes@, i as int, k + 1, j as int);
                    }
                    return (None, j);
                },
            },
            None => {
                proof {
                    lemma_digits_value_grows(bytes@, i as int, k + 1, j as int);
                }
                return (None, j);
            },
        }
        k += 1;
    }
    proof {
        let text = bytes@.subrange(i as int, j as int);
        assert(all_digits(text));
    }
    (Some(Token::IntLiteral(v)), j)
}

} // verus!

verus! {

fn punct_at(bytes: &[u8], i: usize) -> (r: Option<(Token, usize)>)
    requires
        i < bytes@.len(),
    ensures
        r matches Some((t, len)) ==> {
            &&& 1 <= len <= 2
            &&& i + len <= bytes@.len()
            &&& bytes@[i as int] < 128
            &&& (len == 2 ==> bytes@[i + 1] < 128)
            &&& punct_token(bytes@.subrange(i as int, i + len)) == Some(t)
            &&& (len == 2 <==> (i + 1 < bytes@.len() && punct2(bytes@[i as int], bytes@[i + 1]) is Some))
        },
        r is None <==> !(i + 1 < bytes@.len() && punct2(bytes@[i as int], bytes@[i + 1]) is Some) && punct1(
            bytes@[i as int],
        ) is None,
{
    let n = bytes.len();
    let b = bytes[i];
    if i + 1 < n {
        let next = bytes[i + 1];
        let two = if b == 45 && next == 62 {
            Some(Token::Arrow)
        } else if b == 61 && next == 61 {
            Some(Token::DoubleEquals)
        } else if b == 33 && next == 61 {
            Some(Token::NotEquals)
        } else if b == 43 && next == 61 {
            Some(Token::PlusEquals)
        } else if b == 45 && next == 61 {
            Some(Token::MinusEquals)
        } else if b == 42 && next == 42 {
            Some(Token::DoubleStar)
        } else if b == 60 && next == 61 {
            Some(Token::LessEquals)
        } else if b == 62 && next == 61 {
            Some(Token::GreaterEquals)
        } else {
            None
        };
        if let Some(t) = two {
            proof {
                let s = bytes@.subrange(i as int, i + 2);
                assert(s[0] == b && s[1] == next);
            }
            return Some((t, 2));
        }
    }
    let one = if b == 59 {
        Some(Token::Semicolon)
    } else if b == 44 {
        Some(Token::Comma)
    } else if b == 46 {
        Some(Token::Dot)
    } else if b == 58 {
        Some(Token::Colon)
    } else if b == 40 {
        Some(Token::LParen)
    } else if b == 41 {
        Some(Token::RParen)
    } else if b == 123 {
        Some(Token::LBrace)
    } else if b == 125 {
        Some(Token::RBrace)
    } else if b == 91 {
        Some(Token::LBracket)
    } else if b == 93 {
        Some(Token::RBracket)
    } else if b == 61 {
        Some(Token::Equals)
    } else if b == 43 {
        Some(Token::Plus)
    } else if b == 45 {
        Some(Token::Minus)
    } else if b == 42 {
        Some(Token::Star)
    } else if b == 47 {
        Some(Token::Slash)
    } else if b == 64 {
        Some(Token::At)
    } else if b == 60 {
        Some(Token::Less)
    } else if b == 62 {
        Some(Token::Greater)
    } else {
        None
    };
    match one {
        Some(t) => {
            proof {
                let s = bytes@.subrange(i as int, i + 1);
                assert(s[0] == b);
            }
            Some((t, 1))
        },
        None => None,
    }
}

/// Scan one token (or one invalid character) starting at `i`.
fn scan_token(source: &str, bytes: &[u8], i: usize) -> (r: (Option<Token>, usize))
    requires
        bytes@ == source.spec_bytes(),
        valid_utf8(bytes@),
        i < bytes@.len(),
        at_char_start(bytes@, i as int),
    ensures
        i < r.1 <= bytes@.len(),
        at_char_start(bytes@, r.1 as int),
        r.0 matches Some(t) ==> lexeme_of(t, bytes@.subrange(i as int, r.1 as int)),
        r.1 == scan_end(bytes@, i as int),
        r.0 is Some <==> scan_is_token(bytes@, i as int),
{
    reveal(lexeme_of);
    let n = bytes.len();
    let b = bytes[i];
    if 48 <= b && b <= 57 {
        return scan_number(source, bytes, i);
    }
    if (65 <= b && b <= 90) || (97 <= b && b <= 122) || b == 95 {
        let mut j = i + 1;
        while j < n && ((65 <= bytes[j] && bytes[j] <= 90) || (97 <= bytes[j] && bytes[j] <= 122)
            || bytes[j] == 95 || (48 <= bytes[j] && bytes[j] <= 57))
            invariant
                n == bytes@.len(),
                i < j <= n,
                is_ident_start(bytes@[i as int]),
                forall|x: int| i < x < j ==> is_ident_continue(#[trigger] bytes@[x]),
                run_end(bytes@, i + 1, false) == run_end(bytes@, j as int, false),
            decreases n - j,
        {
            j += 1;
        }
        proof {
            lemma_after_ascii(bytes@, j - 1);
            let text = bytes@.subrange(i as int, j as int);
            assert(is_ident_text(text));
        }
        match keyword_of(bytes, i, j) {
            Some(t) => {
                return (Some(t), j);
            },
            None => {
                let name = substring(source, i, j);
                return (Some(Token::Ident(name)), j);
            },
        }
    }
    if b == 34 {
        let mut k = i + 1;
        while k < n && bytes[k] != 34
            invariant
                n == bytes@.len(),
                i < k <= n,
                forall|x: int| i < x < k ==> #[trigger] bytes@[x] != 34,
                quote_from(bytes@, i + 1) == quote_from(bytes@, k as int),
            decreases n - k,
        {
            k += 1;
        }
        proof {
            lemma_after_ascii(bytes@, i as int);
        }
        if k < n {
            proof {
                lemma_after_ascii(bytes@, k as int);
                let text = bytes@.subrange(i as int, k + 1);
                assert(text.subrange(1, text.len() - 1) =~= bytes@.subrange(i + 1, k as int));
                assert forall|x: int| 1 <= x < text.len() - 1 implies #[trigger] text[x] != 34 by {
                    assert(text[x] == bytes@[i + x]);
                }
            }
            let contents = substring(source, i + 1, k);
            return (Some(Token::StringLiteral(contents)), k + 1);
        }
        return (None, i + 1);
    }
    match punct_at(bytes, i) {
        Some((t, len)) => {
            proof {
                lemma_after_ascii(bytes@, i as int);
                if len == 2 {
                    lemma_after_ascii(bytes@, i + 1);
                }
            }
            return (Some(t), i + len);
        },
        None => {},
    }
    // Invalid character: report every byte of its UTF-8 encoding at once.
    let mut end = i + 1;
    while end < n && 0x80 <= bytes[end] && bytes[end] <= 0xbf
        invariant
            n == bytes@.len(),
            i < end <= n,
            continuation_end(bytes@, i + 1) == continuation_end(bytes@, end as int),
        decreases n - end,
    {
        end += 1;
    }
    (None, end)
}

proof fn lemma_tokens_push(
    bytes: Seq<u8>,
    toks: Seq<Spanned<Token>>,
    t: Spanned<Token>,
    limit: int,
)
    requires
        tokens_spell(bytes, toks, limit),
        limit <= t.span.start < t.span.end,
        lexeme_of(t.node, bytes.subrange(t.span.start as int, t.span.end as int)),
    ensures
        tokens_spell(bytes, toks.push(t), t.span.end as int),
{
    reveal(tokens_spell);
    reveal(spans_ordered);
    let s = toks.push(t);
    assert forall|k: int| 0 <= k < s.len() - 1 implies (#[trigger] s[k]).span.end <= s[k + 1].span.start by {
        if k < toks.len() - 1 {
            assert(s[k] == toks[k]);
            assert(s[k + 1] == toks[k + 1]);
        } else {
            assert(s[k] == toks[k]);
        }
    }
    assert forall|k: int| 0 <= k < s.len() implies {
        &&& (#[trigger] s[k]).span.start < s[k].span.end <= t.span.end
        &&& lexeme_of(s[k].node, bytes.subrange(s[k].span.start as int, s[k].span.end as int))
    } by {
        if k < toks.len() {
            assert(s[k] == toks[k]);
        }
    }
}

proof fn lemma_spans_push(spans: Seq<Span>, sp: Span, limit: int)
    requires
        spans_ordered(spans, limit),
        limit <= sp.start < sp.end,
    ensures
        spans_ordered(spans.push(sp), sp.end as int),
{
    reveal(tokens_spell);
    reveal(spans_ordered);
    let s = spans.push(sp);
    assert forall|k: int| 0 <= k < s.len() - 1 implies (#[trigger] s[k]).end <= s[k + 1].start by {
        if k < spans.len() - 1 {
            assert(s[k] == spans[k]);
            assert(s[k + 1] == spans[k + 1]);
        } else {
            assert(s[k] == spans[k]);
        }
    }
    assert forall|k: int| 0 <= k < s.len() implies (#[trigger] s[k]).start < s[k].end <= sp.end by {
        if k < spans.len() {
            assert(s[k] == spans[k]);
        }
    }
}

proof fn lemma_tokens_grow(bytes: Seq<u8>, toks: Seq<Spanned<Token>>, a: int, b: int)
    requires
        tokens_spell(bytes, toks, a),
        a <= b,
    ensures
        tokens_spell(bytes, toks, b),
{
    reveal(tokens_spell);
    assert forall|k: int| 0 <= k < toks.len() implies {
        &&& (#[trigger] toks[k]).span.start < toks[k].span.end <= b
        &&& lexeme_of(toks[k].node, bytes.subrange(toks[k].span.start as int, toks[k].span.end as int))
    } by {}
}

proof fn lemma_spans_grow(spans: Seq<Span>, a: int, b: int)
    requires
        spans_ordered(spans, a),
        a <= b,
    ensures
        spans_ordered(spans, b),
{
    reveal(spans_ordered);
    assert forall|k: int| 0 <= k < spans.len() implies (#[trigger] spans[k]).start < spans[k].end <= b by {}
}

/// Lex source into spanned tokens, collecting the spans of invalid characters.
pub fn lex(source: &str) -> (r: (Vec<Spanned<Token>>, Vec<Span>))
    ensures
        lexed(source.spec_bytes(), r.0@, r.1@),
{
    let bytes = source.as_bytes();
    proof {
        encode_utf8_valid_utf8(source@);
    }
    let n = bytes.len();
    let mut tokens: Vec<Spanned<Token>> = Vec::new();
    let mut errors: Vec<Span> = Vec::new();
    let ghost mut pieces: Seq<Span> = seq![];
    let ghost mut tags: Seq<bool> = seq![];
    let mut i: usize = 0;
    assert(tokens_spell(bytes@, tokens@, 0)) by {
        reveal(tokens_spell);
    }
    assert(spans_ordered(errors@, 0)) by {
        reveal(spans_ordered);
    }
    assert(token_spans(tokens@) =~= seq![]);
    while i < n
        invariant
            n == bytes@.len(),
            bytes@ == source.spec_bytes(),
            valid_utf8(bytes@),
            i <= n,
            at_char_start(bytes@, i as int),
            tokens_spell(bytes@, tokens@, i as int),
            spans_ordered(errors@, i as int),
            i == gap_start(pieces, pieces.len() as int),
            forall|k: int|
                0 <= k < pieces.len() ==> (#[trigger] pieces[k]).start == trivia_end(bytes@, gap_start(pieces, k))
                    && pieces[k].start < pieces[k].end && pieces[k].end == scan_end(bytes@, pieces[k].start as int),
            tags_match(bytes@, pieces, tags),
            split_pieces(pieces, tags, token_spans(tokens@), errors@),
        ensures
            i <= n,
            tokens_spell(bytes@, tokens@, i as int),
            spans_ordered(errors@, i as int),
            i == gap_start(pieces, pieces.len() as int),
            forall|k: int|
                0 <= k < pieces.len() ==> (#[trigger] pieces[k]).start == trivia_end(bytes@, gap_start(pieces, k))
                    && pieces[k].start < pieces[k].end && pieces[k].end == scan_end(bytes@, pieces[k].start as int),
            tags_match(bytes@, pieces, tags),
            split_pieces(pieces, tags, token_spans(tokens@), errors@),
            trivia_end(bytes@, i as int) == n,
        decreases n - i,
    {
        let start = skip_trivia(bytes, i);
        if start >= n {
            break;
        }
        let (tok, end) = scan_token(source, bytes, start);
        proof {
            lemma_tokens_grow(bytes@, tokens@, i as int, start as int);
            lemma_spans_grow(errors@, i as int, start as int);
        }
        let ghost piece = Span { start, end };
        let ghost old_pieces = pieces;
        let ghost old_tags = tags;
        let ghost old_tokens = tokens@;
        let ghost old_errors = errors@;
        match tok {
            Some(t) => {
                let item = Spanned::new(t, Span::new(start, end));
                tokens.push(item);
                proof {
                    lemma_tokens_push(bytes@, old_tokens, item, start as int);
                    lemma_spans_grow(errors@, start as int, end as int);
                    tags = tags.push(true);
                    assert(token_spans(tokens@) =~= token_spans(old_tokens).push(piece));
                }
            },
            None => {
                errors.push(Span::new(start, end));
                proof {
                    lemma_spans_push(old_errors, Span { start, end }, start as int);
                    lemma_tokens_grow(bytes@, tokens@, start as int, end as int);
                    tags = tags.push(false);
                }
            },
        }
        proof {
            pieces = pieces.push(piece);
            assert(pieces.drop_last() =~= old_pieces);
            assert(tags.drop_last() =~= old_tags);
            if tags.last() {
                assert(token_spans(tokens@).drop_last() =~= token_spans(old_tokens));
            } else {
                assert(errors@.drop_last() =~= old_errors);
                assert(token_spans(tokens@) == token_spans(old_tokens));
            }
            assert forall|k: int|
                0 <= k < pieces.len() implies (#[trigger] pieces[k]).start == trivia_end(
                bytes@,
                gap_start(pieces, k),
            ) && pieces[k].start < pieces[k].end && pieces[k].end == scan_end(bytes@, pieces[k].start as int) by {
                if k < pieces.len() - 1 {
                    assert(pieces[k] == old_pieces[k]);
                    assert(gap_start(pieces, k) == gap_start(old_pieces, k));
                }
            }
            assert forall|k: int| 0 <= k < pieces.len() implies #[trigger] tags[k] == scan_is_token(
                bytes@,
                pieces[k].start as int,
            ) by {
                if k < pieces.len() - 1 {
                    assert(pieces[k] == old_pieces[k]);
                    assert(tags[k] == old_tags[k]);
                }
            }
        }
        i = end;
    }
    proof {
        lemma_tokens_grow(bytes@, tokens@, i as int, n as int);
        lemma_spans_grow(errors@, i as int, n as int);
        assert(lexed_pieces(bytes@, pieces));
    }
    assert(lexed(bytes@, tokens@, errors@));
    (tokens, errors)
}

} // verus!

verus! {

/// The debug-style name of a token: the variant's name, with the lexeme,
/// number or text of a literal or identifier in brackets.
pub open spec fn describe_text(t: Token) -> Seq<char> {
    match t {
        Token::FloatLiteral(s) => "FloatLiteral("@ + s@ + ")"@,
        Token::IntLiteral(n) => "IntLiteral("@ + crate::text::decimal_text(n as nat) + ")"@,
        Token::StringLiteral(s) => "StringLiteral(\""@ + s@ + "\")"@,
        Token::Ident(s) => "Ident(\""@ + s@ + "\")"@,
        Token::OpenQasm => "OpenQasm"@,
        Token::Include => "Include"@,
        Token::Qubit => "Qubit"@,
        Token::Bit => "Bit"@,
        Token::Gate => "Gate"@,
        Token::If => "If"@,
        Token::Else => "Else"@,
        Token::Measure => "Measure"@,
        Token::Reset => "Reset"@,
        Token::Barrier => "Barrier"@,
        Token::Delay => "Delay"@,
        Token::Let => "Let"@,
        Token::Const => "Const"@,
        Token::Int => "Int"@,
        Token::UInt => "UInt"@,
        Token::Float => "Float"@,
        Token::Angle => "Angle"@,
        Token::Bool => "Bool"@,
        Token::True => "True"@,
        Token::False => "False"@,
        Token::Return => "Return"@,
        Token::Def => "Def"@,
        Token::For => "For"@,
        Token::While => "While"@,
        Token::In => "In"@,
        Token::Input => "Input"@,
        Token::Output => "Output"@,
        Token::Creg => "Creg"@,
        Token::Qreg => "Qreg"@,
        Token::Ctrl => "Ctrl"@,
        Token::NegCtrl => "NegCtrl"@,
        Token::Inv => "Inv"@,
        Token::Pow => "Pow"@,
        Token::Semicolon => "Semicolon"@,
        Token::Comma => "Comma"@,
        Token::Dot => "Dot"@,
        Token::Colon => "Colon"@,
        Token::LParen => "LParen"@,
        Token::RParen => "RParen"@,
        Token::LBrace => "LBrace"@,
        Token::RBrace => "RBrace"@,
        Token::LBracket => "LBracket"@,
        Token::RBracket => "RBracket"@,
        Token::Arrow => "Arrow"@,
        Token::Equals => "Equals"@,
        Token::DoubleEquals => "DoubleEquals"@,
        Token::NotEquals => "NotEquals"@,
        Token::Plus => "Plus"@,
        Token::PlusEquals => "PlusEquals"@,
        Token::Minus => "Minus"@,
        Token::MinusEquals => "MinusEquals"@,
        Token::Star => "Star"@,
        Token::DoubleStar => "DoubleStar"@,
        Token::Slash => "Slash"@,
        Token::At => "At"@,
        Token::Less => "Less"@,
        Token::LessEquals => "LessEquals"@,
        Token::Greater => "Greater"@,
        Token::GreaterEquals => "GreaterEquals"@,
    }
}

impl Token {
    /// Debug-style name of this token, as used in parse error messages
    /// (`Semicolon`, `Ident("q")`, `IntLiteral(3)`).
    pub fn describe(&self) -> (r: String)
        ensures
            r@ == describe_text(*self),
    {
        let mut out = String::new();
        match self {
            Token::FloatLiteral(s) => {
                out.append("FloatLiteral(");
                out.append(s.as_str());
                out.append(")");
            },
            Token::IntLiteral(n) => {
                out.append("IntLiteral(");
                crate::text::push_u64(&mut out, *n);
                out.append(")");
            },
            Token::StringLiteral(s) => {
                out.append("StringLiteral(\"");
                out.append(s.as_str());
                out.append("\")");
            },
            Token::Ident(s) => {
                out.append("Ident(\"");
                out.append(s.as_str());
                out.append("\")");
            },
            Token::OpenQasm => out.append("OpenQasm"),
            Token::Include => out.append("Include"),
            Token::Qubit => out.append("Qubit"),
            Token::Bit => out.append("Bit"),
            Token::Gate => out.append("Gate"),
            Token::If => out.append("If"),
            Token::Else => out.append("Else"),
            Token::Measure => out.append("Measure"),
            Token::Reset => out.append("Reset"),
            Token::Barrier => out.append("Barrier"),
            Token::Delay => out.append("Delay"),
            Token::Let => out.append("Let"),
            Token::Const => out.append("Const"),
            Token::Int => out.append("Int"),
            Token::UInt => out.append("UInt"),
            Token::Float => out.append("Float"),
            Token::Angle => out.append("Angle"),
            Token::Bool => out.append("Bool"),
            Token::True => out.append("True"),
            Token::False => out.append("False"),
            Token::Return => out.append("Return"),
            Token::Def => out.append("Def"),
            Token::For => out.append("For"),
            Token::While => out.append("While"),
            Token::In => out.append("In"),
            Token::Input => out.append("Input"),
            Token::Output => out.append("Output"),
            Token::Creg => out.append("Creg"),
            Token::Qreg => out.append("Qreg"),
            Token::Ctrl => out.append("Ctrl"),
            Token::NegCtrl => out.append("NegCtrl"),
            Token::Inv => out.append("Inv"),
            Token::Pow => out.append("Pow"),
            Token::Semicolon => out.append("Semicolon"),
            Token::Comma => out.append("Comma"),
            Token::Dot => out.append("Dot"),
            Token::Colon => out.append("Colon"),
            Token::LParen => out.append("LParen"),
            Token::RParen => out.append("RParen"),
            Token::LBrace => out.append("LBrace"),
            Token::RBrace => out.append("RBrace"),
            Token::LBracket => out.append("LBracket"),
            Token::RBracket => out.append("RBracket"),
            Token::Arrow => out.append("Arrow"),
            Token::Equals => out.append("Equals"),
            Token::DoubleEquals => out.append("DoubleEquals"),
            Token::NotEquals => out.append("NotEquals"),
            Token::Plus => out.append("Plus"),
            Token::PlusEquals => out.append("PlusEquals"),
            Token::Minus => out.append("Minus"),
            Token::MinusEquals => out.append("MinusEquals"),
            Token::Star => out.append("Star"),
            Token::DoubleStar => out.append("DoubleStar"),
            Token::Slash => out.append("Slash"),
            Token::At => out.append("At"),
            Token::Less => out.append("Less"),
            Token::LessEquals => out.append("LessEquals"),
            Token::Greater => out.append("Greater"),
            Token::GreaterEquals => out.append("GreaterEquals"),
        }
        out
    }
}

} // verus!
