//! Tokens spelled out as text: the bytes that spell each token, and text
//! made of spelled tokens and whitespace gaps lexed back to those tokens.

use vstd::prelude::*;
use vstd::string::*;
use vstd::utf8::*;

use crate::lexer::{
    all_digits, digits_value, float_end, float_split, is_digit, is_float_text, is_ident_continue, is_ident_start,
    is_ident_text, is_space, keyword_token, lexeme_of, lexed, lexed_pieces, punct1, punct2, punct_token, quote_from,
    run_end, scan_end, scan_is_token, spans_ordered, split_pieces, tags_match, token_spans, tokens_spell, trivia_end,
    gap_start, Token,
};
use crate::span::{Span, Spanned};
use crate::text::{decimal_text, digit_char};

verus! {

/// The keyword that `t` is, spelled out.
pub open spec fn keyword_spelling(t: Token) -> Option<Seq<u8>> {
    match t {
        Token::OpenQasm => Some("OPENQASM".spec_bytes()),
        Token::Include => Some("include".spec_bytes()),
        Token::Qubit => Some("qubit".spec_bytes()),
        Token::Bit => Some("bit".spec_bytes()),
        Token::Gate => Some("gate".spec_bytes()),
        Token::If => Some("if".spec_bytes()),
        Token::Else => Some("else".spec_bytes()),
        Token::Measure => Some("measure".spec_bytes()),
        Token::Reset => Some("reset".spec_bytes()),
        Token::Barrier => Some("barrier".spec_bytes()),
        Token::Delay => Some("delay".spec_bytes()),
        Token::Let => Some("let".spec_bytes()),
        Token::Const => Some("const".spec_bytes()),
        Token::Int => Some("int".spec_bytes()),
        Token::UInt => Some("uint".spec_bytes()),
        Token::Float => Some("float".spec_bytes()),
        Token::Angle => Some("angle".spec_bytes()),
        Token::Bool => Some("bool".spec_bytes()),
        Token::True => Some("true".spec_bytes()),
        Token::False => Some("false".spec_bytes()),
        Token::Return => Some("return".spec_bytes()),
        Token::Def => Some("def".spec_bytes()),
        Token::For => Some("for".spec_bytes()),
        Token::While => Some("while".spec_bytes()),
        Token::In => Some("in".spec_bytes()),
        Token::Input => Some("input".spec_bytes()),
        Token::Output => Some("output".spec_bytes()),
        Token::Creg => Some("creg".spec_bytes()),
        Token::Qreg => Some("qreg".spec_bytes()),
        Token::Ctrl => Some("ctrl".spec_bytes()),
        Token::NegCtrl => Some("negctrl".spec_bytes()),
        Token::Inv => Some("inv".spec_bytes()),
        Token::Pow => Some("pow".spec_bytes()),
        _ => None,
    }
}

/// The punctuation or operator that `t` is, spelled out.
pub open spec fn punct_spelling(t: Token) -> Option<Seq<u8>> {
    match t {
        Token::Semicolon => Some(seq![59u8]),
        Token::Comma => Some(seq![44u8]),
        Token::Dot => Some(seq![46u8]),
        Token::Colon => Some(seq![58u8]),
        Token::LParen => Some(seq![40u8]),
        Token::RParen => Some(seq![41u8]),
        Token::LBrace => Some(seq![123u8]),
        Token::RBrace => Some(seq![125u8]),
        Token::LBracket => Some(seq![91u8]),
        Token::RBracket => Some(seq![93u8]),
        Token::Equals => Some(seq![61u8]),
        Token::Plus => Some(seq![43u8]),
        Token::Minus => Some(seq![45u8]),
        Token::Star => Some(seq![42u8]),
        Token::Slash => Some(seq![47u8]),
        Token::At => Some(seq![64u8]),
        Token::Less => Some(seq![60u8]),
        Token::Greater => Some(seq![62u8]),
        Token::Arrow => Some(seq![45u8, 62u8]),
        Token::DoubleEquals => Some(seq![61u8, 61u8]),
        Token::NotEquals => Some(seq![33u8, 61u8]),
        Token::PlusEquals => Some(seq![43u8, 61u8]),
        Token::MinusEquals => Some(seq![45u8, 61u8]),
        Token::DoubleStar => Some(seq![42u8, 42u8]),
        Token::LessEquals => Some(seq![60u8, 61u8]),
        Token::GreaterEquals => Some(seq![62u8, 61u8]),
        _ => None,
    }
}

proof fn lemma_ascii_byte(c: u32)
    requires
        c < 128,
    ensures
        (c & 0x7F) as u8 == c as u8,
{
    assert((c & 0x7F) == c) by (bit_vector)
        requires
            c < 128,
    ;
}

/// The encoding of a sequence of ASCII characters is their codes.
pub proof fn lemma_encode_ascii(s: Seq<char>)
    requires
        forall|i: int| 0 <= i < s.len() ==> (#[trigger] s[i] as u32) < 128,
    ensures
        encode_utf8(s) == Seq::new(s.len(), |i: int| (s[i] as u32) as u8),
    decreases s.len(),
{
    if s.len() > 0 {
        let t = s.drop_first();
        assert forall|i: int| 0 <= i < t.len() implies (#[trigger] t[i] as u32) < 128 by {
            assert(t[i] == s[i + 1]);
        }
        lemma_encode_ascii(t);
        lemma_ascii_byte(s[0] as u32);
        assert(encode_scalar(s[0] as u32) =~= seq![(s[0] as u32) as u8]);
        assert(encode_utf8(s) =~= Seq::new(s.len(), |i: int| (s[i] as u32) as u8));
    }
}

/// Encoding distributes over concatenation.
pub proof fn lemma_encode_concat(a: Seq<char>, b: Seq<char>)
    ensures
        encode_utf8(a + b) == encode_utf8(a) + encode_utf8(b),
    decreases a.len(),
{
    if a.len() == 0 {
        assert(a + b =~= b);
    } else {
        lemma_encode_concat(a.drop_first(), b);
        assert((a + b).drop_first() =~= a.drop_first() + b);
        assert((a + b)[0] == a[0]);
    }
}

/// The bytes of every keyword.
proof fn lemma_keyword_bytes()
    ensures
        "OPENQASM".spec_bytes() == seq![79u8, 80u8, 69u8, 78u8, 81u8, 65u8, 83u8, 77u8],
        "include".spec_bytes() == seq![105u8, 110u8, 99u8, 108u8, 117u8, 100u8, 101u8],
        "qubit".spec_bytes() == seq![113u8, 117u8, 98u8, 105u8, 116u8],
        "bit".spec_bytes() == seq![98u8, 105u8, 116u8],
        "gate".spec_bytes() == seq![103u8, 97u8, 116u8, 101u8],
        "if".spec_bytes() == seq![105u8, 102u8],
        "else".spec_bytes() == seq![101u8, 108u8, 115u8, 101u8],
        "measure".spec_bytes() == seq![109u8, 101u8, 97u8, 115u8, 117u8, 114u8, 101u8],
        "reset".spec_bytes() == seq![114u8, 101u8, 115u8, 101u8, 116u8],
        "barrier".spec_bytes() == seq![98u8, 97u8, 114u8, 114u8, 105u8, 101u8, 114u8],
        "delay".spec_bytes() == seq![100u8, 101u8, 108u8, 97u8, 121u8],
        "let".spec_bytes() == seq![108u8, 101u8, 116u8],
        "const".spec_bytes() == seq![99u8, 111u8, 110u8, 115u8, 116u8],
        "int".spec_bytes() == seq![105u8, 110u8, 116u8],
        "uint".spec_bytes() == seq![117u8, 105u8, 110u8, 116u8],
        "float".spec_bytes() == seq![102u8, 108u8, 111u8, 97u8, 116u8],
        "angle".spec_bytes() == seq![97u8, 110u8, 103u8, 108u8, 101u8],
        "bool".spec_bytes() == seq![98u8, 111u8, 111u8, 108u8],
        "true".spec_bytes() == seq![116u8, 114u8, 117u8, 101u8],
        "false".spec_bytes() == seq![102u8, 97u8, 108u8, 115u8, 101u8],
        "return".spec_bytes() == seq![114u8, 101u8, 116u8, 117u8, 114u8, 110u8],
        "def".spec_bytes() == seq![100u8, 101u8, 102u8],
        "for".spec_bytes() == seq![102u8, 111u8, 114u8],
        "while".spec_bytes() == seq![119u8, 104u8, 105u8, 108u8, 101u8],
        "in".spec_bytes() == seq![105u8, 110u8],
        "input".spec_bytes() == seq![105u8, 110u8, 112u8, 117u8, 116u8],
        "output".spec_bytes() == seq![111u8, 117u8, 116u8, 112u8, 117u8, 116u8],
        "creg".spec_bytes() == seq![99u8, 114u8, 101u8, 103u8],
        "qreg".spec_bytes() == seq![113u8, 114u8, 101u8, 103u8],
        "ctrl".spec_bytes() == seq![99u8, 116u8, 114u8, 108u8],
        "negctrl".spec_bytes() == seq![110u8, 101u8, 103u8, 99u8, 116u8, 114u8, 108u8],
        "inv".spec_bytes() == seq![105u8, 110u8, 118u8],
        "pow".spec_bytes() == seq![112u8, 111u8, 119u8],
{
    reveal_strlit("OPENQASM");
    lemma_encode_ascii("OPENQASM"@);
    assert("OPENQASM"@ =~= seq!['O', 'P', 'E', 'N', 'Q', 'A', 'S', 'M']);
    assert("OPENQASM".spec_bytes() =~= seq![79u8, 80u8, 69u8, 78u8, 81u8, 65u8, 83u8, 77u8]);
    reveal_strlit("include");
    lemma_encode_ascii("include"@);
    assert("include"@ =~= seq!['i', 'n', 'c', 'l', 'u', 'd', 'e']);
    assert("include".spec_bytes() =~= seq![105u8, 110u8, 99u8, 108u8, 117u8, 100u8, 101u8]);
    reveal_strlit("qubit");
    lemma_encode_ascii("qubit"@);
    assert("qubit"@ =~= seq!['q', 'u', 'b', 'i', 't']);
    assert("qubit".spec_bytes() =~= seq![113u8, 117u8, 98u8, 105u8, 116u8]);
    reveal_strlit("bit");
    lemma_encode_ascii("bit"@);
    assert("bit"@ =~= seq!['b', 'i', 't']);
    assert("bit".spec_bytes() =~= seq![98u8, 105u8, 116u8]);
    reveal_strlit("gate");
    lemma_encode_ascii("gate"@);
    assert("gate"@ =~= seq!['g', 'a', 't', 'e']);
    assert("gate".spec_bytes() =~= seq![103u8, 97u8, 116u8, 101u8]);
    reveal_strlit("if");
    lemma_encode_ascii("if"@);
    assert("if"@ =~= seq!['i', 'f']);
    assert("if".spec_bytes() =~= seq![105u8, 102u8]);
    reveal_strlit("else");
    lemma_encode_ascii("else"@);
    assert("else"@ =~= seq!['e', 'l', 's', 'e']);
    assert("else".spec_bytes() =~= seq![101u8, 108u8, 115u8, 101u8]);
    reveal_strlit("measure");
    lemma_encode_ascii("measure"@);
    assert("measure"@ =~= seq!['m', 'e', 'a', 's', 'u', 'r', 'e']);
    assert("measure".spec_bytes() =~= seq![109u8, 101u8, 97u8, 115u8, 117u8, 114u8, 101u8]);
    reveal_strlit("reset");
    lemma_encode_ascii("reset"@);
    assert("reset"@ =~= seq!['r', 'e', 's', 'e', 't']);
    assert("reset".spec_bytes() =~= seq![114u8, 101u8, 115u8, 101u8, 116u8]);
    reveal_strlit("barrier");
    lemma_encode_ascii("barrier"@);
    assert("barrier"@ =~= seq!['b', 'a', 'r', 'r', 'i', 'e', 'r']);
    assert("barrier".spec_bytes() =~= seq![98u8, 97u8, 114u8, 114u8, 105u8, 101u8, 114u8]);
    reveal_strlit("delay");
    lemma_encode_ascii("delay"@);
    assert("delay"@ =~= seq!['d', 'e', 'l', 'a', 'y']);
    assert("delay".spec_bytes() =~= seq![100u8, 101u8, 108u8, 97u8, 121u8]);
    reveal_strlit("let");
    lemma_encode_ascii("let"@);
    assert("let"@ =~= seq!['l', 'e', 't']);
    assert("let".spec_bytes() =~= seq![108u8, 101u8, 116u8]);
    reveal_strlit("const");
    lemma_encode_ascii("const"@);
    assert("const"@ =~= seq!['c', 'o', 'n', 's', 't']);
    assert("const".spec_bytes() =~= seq![99u8, 111u8, 110u8, 115u8, 116u8]);
    reveal_strlit("int");
    lemma_encode_ascii("int"@);
    assert("int"@ =~= seq!['i', 'n', 't']);
    assert("int".spec_bytes() =~= seq![105u8, 110u8, 116u8]);
    reveal_strlit("uint");
    lemma_encode_ascii("uint"@);
    assert("uint"@ =~= seq!['u', 'i', 'n', 't']);
    assert("uint".spec_bytes() =~= seq![117u8, 105u8, 110u8, 116u8]);
    reveal_strlit("float");
    lemma_encode_ascii("float"@);
    assert("float"@ =~= seq!['f', 'l', 'o', 'a', 't']);
    assert("float".spec_bytes() =~= seq![102u8, 108u8, 111u8, 97u8, 116u8]);
    reveal_strlit("angle");
    lemma_encode_ascii("angle"@);
    assert("angle"@ =~= seq!['a', 'n', 'g', 'l', 'e']);
    assert("angle".spec_bytes() =~= seq![97u8, 110u8, 103u8, 108u8, 101u8]);
    reveal_strlit("bool");
    lemma_encode_ascii("bool"@);
    assert("bool"@ =~= seq!['b', 'o', 'o', 'l']);
    assert("bool".spec_bytes() =~= seq![98u8, 111u8, 111u8, 108u8]);
    reveal_strlit("true");
    lemma_encode_ascii("true"@);
    assert("true"@ =~= seq!['t', 'r', 'u', 'e']);
    assert("true".spec_bytes() =~= seq![116u8, 114u8, 117u8, 101u8]);
    reveal_strlit("false");
    lemma_encode_ascii("false"@);
    assert("false"@ =~= seq!['f', 'a', 'l', 's', 'e']);
    assert("false".spec_bytes() =~= seq![102u8, 97u8, 108u8, 115u8, 101u8]);
    reveal_strlit("return");
    lemma_encode_ascii("return"@);
    assert("return"@ =~= seq!['r', 'e', 't', 'u', 'r', 'n']);
    assert("return".spec_bytes() =~= seq![114u8, 101u8, 116u8, 117u8, 114u8, 110u8]);
    reveal_strlit("def");
    lemma_encode_ascii("def"@);
    assert("def"@ =~= seq!['d', 'e', 'f']);
    assert("def".spec_bytes() =~= seq![100u8, 101u8, 102u8]);
    reveal_strlit("for");
    lemma_encode_ascii("for"@);
    assert("for"@ =~= seq!['f', 'o', 'r']);
    assert("for".spec_bytes() =~= seq![102u8, 111u8, 114u8]);
    reveal_strlit("while");
    lemma_encode_ascii("while"@);
    assert("while"@ =~= seq!['w', 'h', 'i', 'l', 'e']);
    assert("while".spec_bytes() =~= seq![119u8, 104u8, 105u8, 108u8, 101u8]);
    reveal_strlit("in");
    lemma_encode_ascii("in"@);
    assert("in"@ =~= seq!['i', 'n']);
    assert("in".spec_bytes() =~= seq![105u8, 110u8]);
    reveal_strlit("input");
    lemma_encode_ascii("input"@);
    assert("input"@ =~= seq!['i', 'n', 'p', 'u', 't']);
    assert("input".spec_bytes() =~= seq![105u8, 110u8, 112u8, 117u8, 116u8]);
    reveal_strlit("output");
    lemma_encode_ascii("output"@);
    assert("output"@ =~= seq!['o', 'u', 't', 'p', 'u', 't']);
    assert("output".spec_bytes() =~= seq![111u8, 117u8, 116u8, 112u8, 117u8, 116u8]);
    reveal_strlit("creg");
    lemma_encode_ascii("creg"@);
    assert("creg"@ =~= seq!['c', 'r', 'e', 'g']);
    assert("creg".spec_bytes() =~= seq![99u8, 114u8, 101u8, 103u8]);
    reveal_strlit("qreg");
    lemma_encode_ascii("qreg"@);
    assert("qreg"@ =~= seq!['q', 'r', 'e', 'g']);
    assert("qreg".spec_bytes() =~= seq![113u8, 114u8, 101u8, 103u8]);
    reveal_strlit("ctrl");
    lemma_encode_ascii("ctrl"@);
    assert("ctrl"@ =~= seq!['c', 't', 'r', 'l']);
    assert("ctrl".spec_bytes() =~= seq![99u8, 116u8, 114u8, 108u8]);
    reveal_strlit("negctrl");
    lemma_encode_ascii("negctrl"@);
    assert("negctrl"@ =~= seq!['n', 'e', 'g', 'c', 't', 'r', 'l']);
    assert("negctrl".spec_bytes() =~= seq![110u8, 101u8, 103u8, 99u8, 116u8, 114u8, 108u8]);
    reveal_strlit("inv");
    lemma_encode_ascii("inv"@);
    assert("inv"@ =~= seq!['i', 'n', 'v']);
    assert("inv".spec_bytes() =~= seq![105u8, 110u8, 118u8]);
    reveal_strlit("pow");
    lemma_encode_ascii("pow"@);
    assert("pow"@ =~= seq!['p', 'o', 'w']);
    assert("pow".spec_bytes() =~= seq![112u8, 111u8, 119u8]);
}

proof fn lemma_keyword_openqasm()
    ensures
        is_ident_text("OPENQASM".spec_bytes()),
        keyword_token("OPENQASM".spec_bytes()) == Some(Token::OpenQasm),
{
    lemma_keyword_bytes();
    let s = seq![79u8, 80u8, 69u8, 78u8, 81u8, 65u8, 83u8, 77u8];
    assert(is_ident_text(s));
}

proof fn lemma_keyword_include()
    ensures
        is_ident_text("include".spec_bytes()),
        keyword_token("include".spec_bytes()) == Some(Token::Include),
{
    lemma_keyword_bytes();
    let s = seq![105u8, 110u8, 99u8, 108u8, 117u8, 100u8, 101u8];
    assert(is_ident_text(s));
}

proof fn lemma_keyword_qubit()
    ensures
        is_ident_text("qubit".spec_bytes()),
        keyword_token("qubit".spec_bytes()) == Some(Token::Qubit),
{
    lemma_keyword_bytes();
    let s = seq![113u8, 117u8, 98u8, 105u8, 116u8];
    assert(is_ident_text(s));
}

proof fn lemma_keyword_bit()
    ensures
        is_ident_text("bit".spec_bytes()),
        keyword_token("bit".spec_bytes()) == Some(Token::Bit),
{
    lemma_keyword_bytes();
    let s = seq![98u8, 105u8, 116u8];
    assert(is_ident_text(s));
}

proof fn lemma_keyword_gate()
    ensures
        is_ident_text("gate".spec_bytes()),
        keyword_token("gate".spec_bytes()) == Some(Token::Gate),
{
    lemma_keyword_bytes();
    let s = seq![103u8, 97u8, 116u8, 101u8];
    assert(is_ident_text(s));
}

proof fn lemma_keyword_if()
    ensures
        is_ident_text("if".spec_bytes()),
        keyword_token("if".spec_bytes()) == Some(Token::If),
{
    lemma_keyword_bytes();
    let s = seq![105u8, 102u8];
    assert(is_ident_text(s));
}

proof fn lemma_keyword_else()
    ensures
        is_ident_text("else".spec_bytes()),
        keyword_token("else".spec_bytes()) == Some(Token::Else),
{
    lemma_keyword_bytes();
    let s = seq![101u8, 108u8, 115u8, 101u8];
    assert(is_ident_text(s));
}

proof fn lemma_keyword_measure()
    ensures
        is_ident_text("measure".spec_bytes()),
        keyword_token("measure".spec_bytes()) == Some(Token::Measure),
{
    lemma_keyword_bytes();
    let s = seq![109u8, 101u8, 97u8, 115u8, 117u8, 114u8, 101u8];
    assert(is_ident_text(s));
}

proof fn lemma_keyword_reset()
    ensures
        is_ident_text("reset".spec_bytes()),
        keyword_token("reset".spec_bytes()) == Some(Token::Reset),
{
    lemma_keyword_bytes();
    let s = seq![114u8, 101u8, 115u8, 101u8, 116u8];
    assert(is_ident_text(s));
}

proof fn lemma_keyword_barrier()
    ensures
        is_ident_text("barrier".spec_bytes()),
        keyword_token("barrier".spec_bytes()) == Some(Token::Barrier),
{
    lemma_keyword_bytes();
    let s = seq![98u8, 97u8, 114u8, 114u8, 105u8, 101u8, 114u8];
    assert(is_ident_text(s));
}

proof fn lemma_keyword_delay()
    ensures
        is_ident_text("delay".spec_bytes()),
        keyword_token("delay".spec_bytes()) == Some(Token::Delay),
{
    lemma_keyword_bytes();
    let s = seq![100u8, 101u8, 108u8, 97u8, 121u8];
    assert(is_ident_text(s));
}

proof fn lemma_keyword_let()
    ensures
        is_ident_text("let".spec_bytes()),
        keyword_token("let".spec_bytes()) == Some(Token::Let),
{
    lemma_keyword_bytes();
    let s = seq![108u8, 101u8, 116u8];
    assert(is_ident_text(s));
}

proof fn lemma_keyword_const()
    ensures
        is_ident_text("const".spec_bytes()),
        keyword_token("const".spec_bytes()) == Some(Token::Const),
{
    lemma_keyword_bytes();
    let s = seq![99u8, 111u8, 110u8, 115u8, 116u8];
    assert(is_ident_text(s));
}

proof fn lemma_keyword_int()
    ensures
        is_ident_text("int".spec_bytes()),
        keyword_token("int".spec_bytes()) == Some(Token::Int),
{
    lemma_keyword_bytes();
    let s = seq![105u8, 110u8, 116u8];
    assert(is_ident_text(s));
}

proof fn lemma_keyword_uint()
    ensures
        is_ident_text("uint".spec_bytes()),
        keyword_token("uint".spec_bytes()) == Some(Token::UInt),
{
    lemma_keyword_bytes();
    let s = seq![117u8, 105u8, 110u8, 116u8];
    assert(is_ident_text(s));
}

proof fn lemma_keyword_float()
    ensures
        is_ident_text("float".spec_bytes()),
        keyword_token("float".spec_bytes()) == Some(Token::Float),
{
    lemma_keyword_bytes();
    let s = seq![102u8, 108u8, 111u8, 97u8, 116u8];
    assert(is_ident_text(s));
}

proof fn lemma_keyword_angle()
    ensures
        is_ident_text("angle".spec_bytes()),
        keyword_token("angle".spec_bytes()) == Some(Token::Angle),
{
    lemma_keyword_bytes();
    let s = seq![97u8, 110u8, 103u8, 108u8, 101u8];
    assert(is_ident_text(s));
}

proof fn lemma_keyword_bool()
    ensures
        is_ident_text("bool".spec_bytes()),
        keyword_token("bool".spec_bytes()) == Some(Token::Bool),
{
    lemma_keyword_bytes();
    let s = seq![98u8, 111u8, 111u8, 108u8];
    assert(is_ident_text(s));
}

proof fn lemma_keyword_true()
    ensures
        is_ident_text("true".spec_bytes()),
        keyword_token("true".spec_bytes()) == Some(Token::True),
{
    lemma_keyword_bytes();
    let s = seq![116u8, 114u8, 117u8, 101u8];
    assert(is_ident_text(s));
}

proof fn lemma_keyword_false()
    ensures
        is_ident_text("false".spec_bytes()),
        keyword_token("false".spec_bytes()) == Some(Token::False),
{
    lemma_keyword_bytes();
    let s = seq![102u8, 97u8, 108u8, 115u8, 101u8];
    assert(is_ident_text(s));
}

proof fn lemma_keyword_return()
    ensures
        is_ident_text("return".spec_bytes()),
        keyword_token("return".spec_bytes()) == Some(Token::Return),
{
    lemma_keyword_bytes();
    let s = seq![114u8, 101u8, 116u8, 117u8, 114u8, 110u8];
    assert(is_ident_text(s));
}

proof fn lemma_keyword_def()
    ensures
        is_ident_text("def".spec_bytes()),
        keyword_token("def".spec_bytes()) == Some(Token::Def),
{
    lemma_keyword_bytes();
    let s = seq![100u8, 101u8, 102u8];
    assert(is_ident_text(s));
}

proof fn lemma_keyword_for()
    ensures
        is_ident_text("for".spec_bytes()),
        keyword_token("for".spec_bytes()) == Some(Token::For),
{
    lemma_keyword_bytes();
    let s = seq![102u8, 111u8, 114u8];
    assert(is_ident_text(s));
}

proof fn lemma_keyword_while()
    ensures
        is_ident_text("while".spec_bytes()),
        keyword_token("while".spec_bytes()) == Some(Token::While),
{
    lemma_keyword_bytes();
    let s = seq![119u8, 104u8, 105u8, 108u8, 101u8];
    assert(is_ident_text(s));
}

proof fn lemma_keyword_in()
    ensures
        is_ident_text("in".spec_bytes()),
        keyword_token("in".spec_bytes()) == Some(Token::In),
{
    lemma_keyword_bytes();
    let s = seq![105u8, 110u8];
    assert(is_ident_text(s));
}

proof fn lemma_keyword_input()
    ensures
        is_ident_text("input".spec_bytes()),
        keyword_token("input".spec_bytes()) == Some(Token::Input),
{
    lemma_keyword_bytes();
    let s = seq![105u8, 110u8, 112u8, 117u8, 116u8];
    assert(is_ident_text(s));
}

proof fn lemma_keyword_output()
    ensures
        is_ident_text("output".spec_bytes()),
        keyword_token("output".spec_bytes()) == Some(Token::Output),
{
    lemma_keyword_bytes();
    let s = seq![111u8, 117u8, 116u8, 112u8, 117u8, 116u8];
    assert(is_ident_text(s));
}

proof fn lemma_keyword_creg()
    ensures
        is_ident_text("creg".spec_bytes()),
        keyword_token("creg".spec_bytes()) == Some(Token::Creg),
{
    lemma_keyword_bytes();
    let s = seq![99u8, 114u8, 101u8, 103u8];
    assert(is_ident_text(s));
}

proof fn lemma_keyword_qreg()
    ensures
        is_ident_text("qreg".spec_bytes()),
        keyword_token("qreg".spec_bytes()) == Some(Token::Qreg),
{
    lemma_keyword_bytes();
    let s = seq![113u8, 114u8, 101u8, 103u8];
    assert(is_ident_text(s));
}

proof fn lemma_keyword_ctrl()
    ensures
        is_ident_text("ctrl".spec_bytes()),
        keyword_token("ctrl".spec_bytes()) == Some(Token::Ctrl),
{
    lemma_keyword_bytes();
    let s = seq![99u8, 116u8, 114u8, 108u8];
    assert(is_ident_text(s));
}

proof fn lemma_keyword_negctrl()
    ensures
        is_ident_text("negctrl".spec_bytes()),
        keyword_token("negctrl".spec_bytes()) == Some(Token::NegCtrl),
{
    lemma_keyword_bytes();
    let s = seq![110u8, 101u8, 103u8, 99u8, 116u8, 114u8, 108u8];
    assert(is_ident_text(s));
}

proof fn lemma_keyword_inv()
    ensures
        is_ident_text("inv".spec_bytes()),
        keyword_token("inv".spec_bytes()) == Some(Token::Inv),
{
    lemma_keyword_bytes();
    let s = seq![105u8, 110u8, 118u8];
    assert(is_ident_text(s));
}

proof fn lemma_keyword_pow()
    ensures
        is_ident_text("pow".spec_bytes()),
        keyword_token("pow".spec_bytes()) == Some(Token::Pow),
{
    lemma_keyword_bytes();
    let s = seq![112u8, 111u8, 119u8];
    assert(is_ident_text(s));
}

/// A keyword token's spelling is an identifier-shaped text that spells that
/// keyword.
proof fn lemma_keyword_spelling(t: Token)
    requires
        keyword_spelling(t) is Some,
    ensures
        is_ident_text(keyword_spelling(t).unwrap()),
        keyword_token(keyword_spelling(t).unwrap()) == Some(t),
{
    match t {
        Token::OpenQasm => lemma_keyword_openqasm(),
        Token::Include => lemma_keyword_include(),
        Token::Qubit => lemma_keyword_qubit(),
        Token::Bit => lemma_keyword_bit(),
        Token::Gate => lemma_keyword_gate(),
        Token::If => lemma_keyword_if(),
        Token::Else => lemma_keyword_else(),
        Token::Measure => lemma_keyword_measure(),
        Token::Reset => lemma_keyword_reset(),
        Token::Barrier => lemma_keyword_barrier(),
        Token::Delay => lemma_keyword_delay(),
        Token::Let => lemma_keyword_let(),
        Token::Const => lemma_keyword_const(),
        Token::Int => lemma_keyword_int(),
        Token::UInt => lemma_keyword_uint(),
        Token::Float => lemma_keyword_float(),
        Token::Angle => lemma_keyword_angle(),
        Token::Bool => lemma_keyword_bool(),
        Token::True => lemma_keyword_true(),
        Token::False => lemma_keyword_false(),
        Token::Return => lemma_keyword_return(),
        Token::Def => lemma_keyword_def(),
        Token::For => lemma_keyword_for(),
        Token::While => lemma_keyword_while(),
        Token::In => lemma_keyword_in(),
        Token::Input => lemma_keyword_input(),
        Token::Output => lemma_keyword_output(),
        Token::Creg => lemma_keyword_creg(),
        Token::Qreg => lemma_keyword_qreg(),
        Token::Ctrl => lemma_keyword_ctrl(),
        Token::NegCtrl => lemma_keyword_negctrl(),
        Token::Inv => lemma_keyword_inv(),
        Token::Pow => lemma_keyword_pow(),
        _ => {},
    }
}

/// The bytes that spell `t` in emitted text.
pub open spec fn spelling(t: Token) -> Seq<u8> {
    match t {
        Token::Ident(n) => encode_utf8(n@),
        Token::IntLiteral(v) => encode_utf8(decimal_text(v as nat)),
        Token::FloatLiteral(s) => encode_utf8(s@),
        Token::StringLiteral(c) => seq![34u8] + encode_utf8(c@) + seq![34u8],
        _ => match keyword_spelling(t) {
            Some(b) => b,
            None => match punct_spelling(t) {
                Some(b) => b,
                None => seq![],
            },
        },
    }
}

/// Digits, a dot, then digits: a floating literal with no exponent.
pub open spec fn plain_float(b: Seq<u8>) -> bool {
    exists|p: int|
        1 <= p < b.len() && all_digits(b.subrange(0, p)) && #[trigger] b[p] == 46 && all_digits(
            b.subrange(p + 1, b.len() as int),
        )
}

/// `t`'s spelling reads back as `t`: a name that is no keyword, a floating
/// literal written with a dot and no exponent, a string with no quote in it.
pub open spec fn well_spelled(t: Token) -> bool {
    match t {
        Token::Ident(n) => is_ident_text(encode_utf8(n@)) && keyword_token(encode_utf8(n@)) is None,
        Token::FloatLiteral(s) => plain_float(encode_utf8(s@)),
        Token::StringLiteral(c) => forall|k: int| 0 <= k < encode_utf8(c@).len() ==> #[trigger] encode_utf8(c@)[k] != 34,
        _ => true,
    }
}

/// Reading `t` stops at its end when the byte `next` (if any) follows it.
pub open spec fn stops(t: Token, next: Option<u8>) -> bool {
    match next {
        None => true,
        Some(b) => match t {
            Token::Ident(_) => !is_ident_continue(b),
            Token::IntLiteral(_) => !is_digit(b) && b != 46,
            Token::FloatLiteral(_) => !is_digit(b) && b != 101 && b != 69,
            Token::StringLiteral(_) => true,
            Token::Slash => b != 47 && b != 42 && punct2(47, b) is None,
            _ => if keyword_spelling(t) is Some {
                !is_ident_continue(b)
            } else if spelling(t).len() == 1 {
                punct2(spelling(t)[0], b) is None
            } else {
                true
            },
        },
    }
}

proof fn lemma_run_end(bytes: Seq<u8>, a: int, b: int, digit: bool)
    requires
        0 <= a <= b <= bytes.len(),
        forall|x: int| a <= x < b ==> (if digit {
            is_digit(#[trigger] bytes[x])
        } else {
            is_ident_continue(bytes[x])
        }),
        b == bytes.len() || !(if digit {
            is_digit(bytes[b])
        } else {
            is_ident_continue(bytes[b])
        }),
    ensures
        run_end(bytes, a, digit) == b,
    decreases b - a,
{
    if a < b {
        lemma_run_end(bytes, a + 1, b, digit);
    }
}

proof fn lemma_quote_from(bytes: Seq<u8>, a: int, b: int)
    requires
        0 <= a <= b < bytes.len(),
        forall|x: int| a <= x < b ==> #[trigger] bytes[x] != 34,
        bytes[b] == 34,
    ensures
        quote_from(bytes, a) == Some(b),
    decreases b - a,
{
    if a < b {
        lemma_quote_from(bytes, a + 1, b);
    }
}

/// The decimal text of a number is its digits.
pub proof fn lemma_decimal_bytes(n: nat)
    ensures
        encode_utf8(decimal_text(n)).len() >= 1,
        all_digits(encode_utf8(decimal_text(n))),
        digits_value(encode_utf8(decimal_text(n))) == n,
    decreases n,
{
    let d = decimal_text(n);
    lemma_decimal_chars(n);
    lemma_encode_ascii(d);
    let e = encode_utf8(d);
    assert(e.len() == d.len());
    assert(d.last() == digit_char(n % 10));
    assert(e.last() == (48 + n % 10) as u8);
    if n >= 10 {
        lemma_decimal_bytes(n / 10);
        let h = decimal_text(n / 10);
        lemma_decimal_chars(n / 10);
        lemma_encode_ascii(h);
        assert(e.drop_last() =~= encode_utf8(h));
        assert((n / 10) * 10 + n % 10 == n);
        assert(digits_value(e) == digits_value(e.drop_last()) * 10 + (e.last() - 48) as nat);
        assert((e.last() - 48) as nat == n % 10);
    } else {
        assert(e.drop_last() =~= Seq::<u8>::empty());
        assert(digits_value(e) == digits_value(e.drop_last()) * 10 + (e.last() - 48) as nat);
    }
}

proof fn lemma_decimal_chars(n: nat)
    ensures
        decimal_text(n).len() >= 1,
        forall|i: int| 0 <= i < decimal_text(n).len() ==> 48 <= (#[trigger] decimal_text(n)[i] as u32) <= 57,
    decreases n,
{
    if n >= 10 {
        lemma_decimal_chars(n / 10);
        let h = decimal_text(n / 10);
        assert forall|i: int| 0 <= i < decimal_text(n).len() implies 48 <= (#[trigger] decimal_text(n)[i] as u32)
            <= 57 by {
            if i < h.len() {
                assert(decimal_text(n)[i] == h[i]);
            }
        }
    }
}

/// The byte at `k`, if there is one.
pub open spec fn byte_at(bytes: Seq<u8>, k: int) -> Option<u8> {
    if 0 <= k < bytes.len() {
        Some(bytes[k])
    } else {
        None
    }
}

/// Where `spelled` stands in `bytes` from `i`.
pub open spec fn spelled_at(bytes: Seq<u8>, i: int, spelled: Seq<u8>) -> bool {
    &&& 0 <= i
    &&& i + spelled.len() <= bytes.len()
    &&& bytes.subrange(i, i + spelled.len()) == spelled
}

proof fn lemma_spelled_byte(bytes: Seq<u8>, i: int, spelled: Seq<u8>, x: int)
    requires
        spelled_at(bytes, i, spelled),
        0 <= x < spelled.len(),
    ensures
        bytes[i + x] == spelled[x],
{
    assert(bytes.subrange(i, i + spelled.len())[x] == bytes[i + x]);
}

proof fn lemma_scan_alpha(bytes: Seq<u8>, i: int, sp: Seq<u8>)
    requires
        spelled_at(bytes, i, sp),
        is_ident_text(sp),
        byte_at(bytes, i + sp.len()) matches Some(b) ==> !is_ident_continue(b),
    ensures
        scan_end(bytes, i) == i + sp.len(),
        scan_is_token(bytes, i),
{
    lemma_spelled_byte(bytes, i, sp, 0);
    assert forall|x: int| i + 1 <= x < i + sp.len() implies is_ident_continue(#[trigger] bytes[x]) by {
        lemma_spelled_byte(bytes, i, sp, x - i);
    }
    lemma_run_end(bytes, i + 1, i + sp.len(), false);
}

proof fn lemma_scan_int(bytes: Seq<u8>, i: int, v: u64)
    requires
        spelled_at(bytes, i, spelling(Token::IntLiteral(v))),
        stops(Token::IntLiteral(v), byte_at(bytes, i + spelling(Token::IntLiteral(v)).len())),
    ensures
        scan_end(bytes, i) == i + spelling(Token::IntLiteral(v)).len(),
        scan_is_token(bytes, i),
        lexeme_of(Token::IntLiteral(v), bytes.subrange(i, i + spelling(Token::IntLiteral(v)).len())),
{
    let sp = spelling(Token::IntLiteral(v));
    lemma_decimal_bytes(v as nat);
    lemma_spelled_byte(bytes, i, sp, 0);
    assert forall|x: int| i + 1 <= x < i + sp.len() implies is_digit(#[trigger] bytes[x]) by {
        lemma_spelled_byte(bytes, i, sp, x - i);
    }
    lemma_run_end(bytes, i + 1, i + sp.len(), true);
    reveal(lexeme_of);
}

proof fn lemma_scan_float(bytes: Seq<u8>, i: int, t: Token)
    requires
        t is FloatLiteral,
        well_spelled(t),
        spelled_at(bytes, i, spelling(t)),
        stops(t, byte_at(bytes, i + spelling(t).len())),
    ensures
        scan_end(bytes, i) == i + spelling(t).len(),
        scan_is_token(bytes, i),
        lexeme_of(t, bytes.subrange(i, i + spelling(t).len())),
{
    let sp = spelling(t);
    let p = choose|p: int|
        1 <= p < sp.len() && all_digits(sp.subrange(0, p)) && #[trigger] sp[p] == 46 && all_digits(
            sp.subrange(p + 1, sp.len() as int),
        );
    assert(sp.subrange(0, p)[0] == sp[0]);
    lemma_spelled_byte(bytes, i, sp, 0);
    lemma_spelled_byte(bytes, i, sp, p);
    assert forall|x: int| i + 1 <= x < i + p implies is_digit(#[trigger] bytes[x]) by {
        lemma_spelled_byte(bytes, i, sp, x - i);
        assert(sp.subrange(0, p)[x - i] == sp[x - i]);
    }
    lemma_run_end(bytes, i + 1, i + p, true);
    assert forall|x: int| i + p + 1 <= x < i + sp.len() implies is_digit(#[trigger] bytes[x]) by {
        lemma_spelled_byte(bytes, i, sp, x - i);
        assert(sp.subrange(p + 1, sp.len() as int)[x - i - p - 1] == sp[x - i]);
    }
    lemma_run_end(bytes, i + p + 1, i + sp.len(), true);
    assert(float_end(bytes, i + p) == i + sp.len());
    reveal(lexeme_of);
    assert(bytes.subrange(i, i + sp.len()) == sp);
    assert(float_split(sp, p, sp.len() as int));
}

proof fn lemma_scan_string(bytes: Seq<u8>, i: int, c: String)
    requires
        well_spelled(Token::StringLiteral(c)),
        spelled_at(bytes, i, spelling(Token::StringLiteral(c))),
    ensures
        scan_end(bytes, i) == i + spelling(Token::StringLiteral(c)).len(),
        scan_is_token(bytes, i),
        lexeme_of(Token::StringLiteral(c), bytes.subrange(i, i + spelling(Token::StringLiteral(c)).len())),
{
    let sp = spelling(Token::StringLiteral(c));
    let e = encode_utf8(c@);
    assert(sp.len() == e.len() + 2);
    lemma_spelled_byte(bytes, i, sp, 0);
    lemma_spelled_byte(bytes, i, sp, sp.len() - 1);
    assert forall|x: int| i + 1 <= x < i + sp.len() - 1 implies #[trigger] bytes[x] != 34 by {
        lemma_spelled_byte(bytes, i, sp, x - i);
        assert(sp[x - i] == e[x - i - 1]);
    }
    lemma_quote_from(bytes, i + 1, i + sp.len() - 1);
    reveal(lexeme_of);
    assert(sp.subrange(1, sp.len() - 1) =~= e);
    assert forall|k: int| 1 <= k < sp.len() - 1 implies #[trigger] sp[k] != 34 by {
        assert(sp[k] == e[k - 1]);
    }
}

#[verifier::rlimit(40)]
proof fn lemma_scan_punct(bytes: Seq<u8>, i: int, t: Token)
    requires
        punct_spelling(t) is Some,
        spelled_at(bytes, i, spelling(t)),
        stops(t, byte_at(bytes, i + spelling(t).len())),
    ensures
        scan_end(bytes, i) == i + spelling(t).len(),
        scan_is_token(bytes, i),
        lexeme_of(t, bytes.subrange(i, i + spelling(t).len())),
{
    let sp = spelling(t);
    assert(keyword_spelling(t) is None);
    assert(sp == punct_spelling(t).unwrap());
    lemma_spelled_byte(bytes, i, sp, 0);
    if sp.len() == 2 {
        lemma_spelled_byte(bytes, i, sp, 1);
    }
    reveal(lexeme_of);
    assert(bytes.subrange(i, i + sp.len()) == sp);
    assert(punct_token(sp) == Some(t));
}

/// A well-spelled token standing at `i`, followed by a byte at which its
/// reading stops, is read there as one piece that spells it.
pub proof fn lemma_scan_token(bytes: Seq<u8>, i: int, t: Token)
    requires
        well_spelled(t),
        spelled_at(bytes, i, spelling(t)),
        stops(t, byte_at(bytes, i + spelling(t).len())),
    ensures
        spelling(t).len() > 0,
        scan_end(bytes, i) == i + spelling(t).len(),
        scan_is_token(bytes, i),
        lexeme_of(t, bytes.subrange(i, i + spelling(t).len())),
{
    let sp = spelling(t);
    reveal(lexeme_of);
    match t {
        Token::Ident(n) => {
            lemma_scan_alpha(bytes, i, sp);
            assert(bytes.subrange(i, i + sp.len()) == sp);
        },
        Token::IntLiteral(v) => {
            lemma_decimal_bytes(v as nat);
            lemma_scan_int(bytes, i, v);
        },
        Token::FloatLiteral(_) => {
            lemma_scan_float(bytes, i, t);
        },
        Token::StringLiteral(c) => {
            lemma_scan_string(bytes, i, c);
        },
        _ => {
            if keyword_spelling(t) is Some {
                lemma_keyword_spelling(t);
                assert(sp == keyword_spelling(t).unwrap());
                lemma_scan_alpha(bytes, i, sp);
                assert(bytes.subrange(i, i + sp.len()) == sp);
            } else {
                assert(punct_spelling(t) is Some);
                lemma_scan_punct(bytes, i, t);
            }
        },
    }
}

/// Text made of tokens, each spelled out and followed by its gap.
pub open spec fn rendered(s: Seq<(Token, Seq<u8>)>) -> Seq<u8>
    decreases s.len(),
{
    if s.len() == 0 {
        seq![]
    } else {
        rendered(s.drop_last()) + spelling(s.last().0) + s.last().1
    }
}

/// Where the `k`th token starts in the rendered text.
pub open spec fn offset(s: Seq<(Token, Seq<u8>)>, k: int) -> int {
    rendered(s.take(k)).len() as int
}

/// The tokens of a rendered text, each with the span it is spelled in.
pub open spec fn stream_tokens(s: Seq<(Token, Seq<u8>)>) -> Seq<Spanned<Token>> {
    Seq::new(
        s.len(),
        |k: int|
            Spanned {
                node: s[k].0,
                span: Span { start: offset(s, k) as usize, end: (offset(s, k) + spelling(s[k].0).len()) as usize },
            },
    )
}

/// Tokens that read back from their rendering: each well spelled, each gap
/// whitespace, and each token's reading stopping at the byte after it.
pub open spec fn stream_ok(s: Seq<(Token, Seq<u8>)>) -> bool {
    &&& forall|k: int| 0 <= k < s.len() ==> well_spelled(#[trigger] s[k].0)
    &&& forall|k: int, x: int| 0 <= k < s.len() && 0 <= x < s[k].1.len() ==> is_space(#[trigger] s[k].1[x])
    &&& forall|k: int|
        0 <= k < s.len() ==> stops(#[trigger] s[k].0, byte_at(rendered(s), offset(s, k) + spelling(s[k].0).len()))
}

proof fn lemma_rendered_take(s: Seq<(Token, Seq<u8>)>, m: int)
    requires
        0 <= m <= s.len(),
    ensures
        rendered(s.take(m)).len() <= rendered(s).len(),
        rendered(s).subrange(0, rendered(s.take(m)).len() as int) == rendered(s.take(m)),
    decreases s.len(),
{
    if m == s.len() {
        assert(s.take(m) =~= s);
    } else {
        lemma_rendered_take(s.drop_last(), m);
        assert(s.drop_last().take(m) =~= s.take(m));
        let a = rendered(s.drop_last());
        let r = rendered(s);
        let n = rendered(s.take(m)).len() as int;
        assert(r.subrange(0, n) =~= a.subrange(0, n));
    }
}

/// The `k`th token is spelled at its offset, its gap follows it, and the
/// next token starts after the gap.
proof fn lemma_rendered_at(s: Seq<(Token, Seq<u8>)>, k: int)
    requires
        0 <= k < s.len(),
    ensures
        spelled_at(rendered(s), offset(s, k), spelling(s[k].0)),
        offset(s, k + 1) == offset(s, k) + spelling(s[k].0).len() + s[k].1.len(),
        offset(s, k + 1) <= rendered(s).len(),
        forall|x: int|
            0 <= x < s[k].1.len() ==> rendered(s)[offset(s, k) + spelling(s[k].0).len() + x] == #[trigger] s[k].1[x],
{
    lemma_rendered_take(s, k + 1);
    let t = s.take(k + 1);
    assert(t.drop_last() =~= s.take(k));
    assert(t.last() == s[k]);
    let r = rendered(s);
    let a = offset(s, k);
    let l = spelling(s[k].0).len() as int;
    let pre = rendered(t);
    assert(pre == rendered(s.take(k)) + spelling(s[k].0) + s[k].1);
    assert(r.subrange(a, a + l) =~= spelling(s[k].0)) by {
        assert forall|x: int| 0 <= x < l implies r.subrange(a, a + l)[x] == spelling(s[k].0)[x] by {
            assert(r[a + x] == r.subrange(0, pre.len() as int)[a + x]);
            assert(pre[a + x] == spelling(s[k].0)[x]);
        }
    }
    assert forall|x: int| 0 <= x < s[k].1.len() implies r[a + l + x] == #[trigger] s[k].1[x] by {
        assert(r[a + l + x] == r.subrange(0, pre.len() as int)[a + l + x]);
        assert(pre[a + l + x] == s[k].1[x]);
    }
}

proof fn lemma_trivia_gap(bytes: Seq<u8>, j: int, k: int)
    requires
        0 <= j <= k <= bytes.len(),
        forall|x: int| j <= x < k ==> is_space(#[trigger] bytes[x]),
        k < bytes.len() ==> !is_space(bytes[k]) && !(bytes[k] == 47 && k + 1 < bytes.len() && (bytes[k + 1] == 47
            || bytes[k + 1] == 42)),
    ensures
        trivia_end(bytes, j) == k,
    decreases k - j,
{
    if j < k {
        lemma_trivia_gap(bytes, j + 1, k);
    }
}

proof fn lemma_split_all_tokens(pieces: Seq<Span>)
    ensures
        split_pieces(pieces, Seq::new(pieces.len(), |k: int| true), pieces, seq![]),
    decreases pieces.len(),
{
    if pieces.len() > 0 {
        lemma_split_all_tokens(pieces.drop_last());
        assert(Seq::new(pieces.len(), |k: int| true).drop_last() =~= Seq::new(
            pieces.drop_last().len(),
            |k: int| true,
        ));
    }
}

proof fn lemma_first_byte(t: Token)
    requires
        well_spelled(t),
    ensures
        spelling(t).len() > 0,
        !is_space(spelling(t)[0]),
        spelling(t)[0] == 47 ==> t is Slash,
{
    match t {
        Token::IntLiteral(v) => {
            lemma_decimal_bytes(v as nat);
        },
        Token::FloatLiteral(_) => {
            let sp = spelling(t);
            let p = choose|p: int|
                1 <= p < sp.len() && all_digits(sp.subrange(0, p)) && #[trigger] sp[p] == 46 && all_digits(
                    sp.subrange(p + 1, sp.len() as int),
                );
            assert(sp.subrange(0, p)[0] == sp[0]);
        },
        Token::StringLiteral(_) => {},
        Token::Ident(_) => {},
        _ => {
            if keyword_spelling(t) is Some {
                lemma_keyword_spelling(t);
            }
        },
    }
}

#[verifier::spinoff_prover]
proof fn lemma_piece_at(s: Seq<(Token, Seq<u8>)>, k: int)
    requires
        stream_ok(s),
        0 <= k < s.len(),
    ensures
        spelled_at(rendered(s), offset(s, k), spelling(s[k].0)),
        offset(s, k + 1) == offset(s, k) + spelling(s[k].0).len() + s[k].1.len(),
        offset(s, k + 1) <= rendered(s).len(),
        scan_end(rendered(s), offset(s, k)) == offset(s, k) + spelling(s[k].0).len(),
        scan_is_token(rendered(s), offset(s, k)),
        lexeme_of(s[k].0, rendered(s).subrange(offset(s, k), offset(s, k) + spelling(s[k].0).len())),
        spelling(s[k].0).len() > 0,
{
    lemma_rendered_at(s, k);
    assert(well_spelled(s[k].0));
    assert(stops(s[k].0, byte_at(rendered(s), offset(s, k) + spelling(s[k].0).len())));
    lemma_scan_token(rendered(s), offset(s, k), s[k].0);
}

#[verifier::spinoff_prover]
proof fn lemma_gap_spaces(s: Seq<(Token, Seq<u8>)>, k: int, x: int)
    requires
        forall|y: int| 0 <= y < s[k].1.len() ==> is_space(#[trigger] s[k].1[y]),
        0 <= k < s.len(),
        offset(s, k) + spelling(s[k].0).len() <= x < offset(s, k + 1),
    ensures
        is_space(rendered(s)[x]),
{
    lemma_rendered_at(s, k);
    let g = offset(s, k) + spelling(s[k].0).len();
    assert(rendered(s)[g + (x - g)] == s[k].1[x - g]);
    assert(is_space(s[k].1[x - g]));
}

#[verifier::spinoff_prover]
proof fn lemma_piece_start(s: Seq<(Token, Seq<u8>)>, k: int)
    requires
        stream_ok(s),
        0 <= k < s.len(),
        rendered(s).len() <= usize::MAX,
    ensures
        trivia_end(rendered(s), gap_start(token_spans(stream_tokens(s)), k)) == offset(s, k),
{
    let bytes = rendered(s);
    let pieces = token_spans(stream_tokens(s));
    lemma_piece_at(s, k);
    lemma_first_byte(s[k].0);
    lemma_spelled_byte(bytes, offset(s, k), spelling(s[k].0), 0);
    let start = offset(s, k);
    if spelling(s[k].0)[0] == 47 && start + 1 < bytes.len() {
        assert(s[k].0 is Slash);
        assert(spelling(s[k].0).len() == 1);
        assert(stops(s[k].0, byte_at(bytes, start + 1)));
    }
    if k == 0 {
        assert(s.take(0) =~= Seq::<(Token, Seq<u8>)>::empty());
        lemma_trivia_gap(bytes, 0, 0);
    } else {
        lemma_piece_at(s, k - 1);
        let g = offset(s, k - 1) + spelling(s[k - 1].0).len();
        assert(pieces[k - 1].end == g);
        assert forall|x: int| g <= x < start implies is_space(#[trigger] bytes[x]) by {
            lemma_gap_spaces(s, k - 1, x);
        }
        lemma_trivia_gap(bytes, g, start);
    }
}

#[verifier::spinoff_prover]
proof fn lemma_stream_end(s: Seq<(Token, Seq<u8>)>)
    requires
        stream_ok(s),
        rendered(s).len() <= usize::MAX,
    ensures
        trivia_end(rendered(s), gap_start(token_spans(stream_tokens(s)), s.len() as int)) == rendered(s).len(),
{
    let bytes = rendered(s);
    let pieces = token_spans(stream_tokens(s));
    let n = s.len() as int;
    if n == 0 {
        assert(bytes.len() == 0);
    } else {
        lemma_piece_at(s, n - 1);
        assert(s.take(n) =~= s);
        let g = offset(s, n - 1) + spelling(s[n - 1].0).len();
        assert(pieces[n - 1].end == g);
        assert forall|x: int| g <= x < bytes.len() implies is_space(#[trigger] bytes[x]) by {
            lemma_gap_spaces(s, n - 1, x);
        }
        lemma_trivia_gap(bytes, g, bytes.len() as int);
    }
}

/// Text made of well-spelled tokens and whitespace gaps, each token's
/// reading stopping where it ends, lexes back to exactly those tokens, each
/// with the span it is spelled in, and no error.
#[verifier::rlimit(60)]
#[verifier::spinoff_prover]
pub proof fn lemma_stream_lexes(s: Seq<(Token, Seq<u8>)>)
    requires
        stream_ok(s),
        rendered(s).len() <= usize::MAX,
    ensures
        lexed(rendered(s), stream_tokens(s), seq![]),
{
    let bytes = rendered(s);
    let toks = stream_tokens(s);
    let n = s.len() as int;
    let pieces = token_spans(toks);
    let tags = Seq::new(s.len(), |k: int| true);
    assert forall|k: int| 0 <= k < pieces.len() implies (#[trigger] pieces[k]).start == trivia_end(
        bytes,
        gap_start(pieces, k),
    ) && pieces[k].start < pieces[k].end && pieces[k].end == scan_end(bytes, pieces[k].start as int) by {
        lemma_piece_at(s, k);
        lemma_piece_start(s, k);
    }
    lemma_stream_end(s);
    assert(lexed_pieces(bytes, pieces));
    assert forall|k: int| 0 <= k < pieces.len() implies #[trigger] tags[k] == scan_is_token(
        bytes,
        pieces[k].start as int,
    ) by {
        lemma_piece_at(s, k);
    }
    assert(tags_match(bytes, pieces, tags));
    lemma_split_all_tokens(pieces);
    assert(tokens_spell(bytes, toks, bytes.len() as int)) by {
        reveal(tokens_spell);
        assert forall|k: int| 0 <= k < toks.len() implies {
            &&& (#[trigger] toks[k]).span.start < toks[k].span.end <= bytes.len()
            &&& lexeme_of(toks[k].node, bytes.subrange(toks[k].span.start as int, toks[k].span.end as int))
        } by {
            lemma_piece_at(s, k);
        }
        assert forall|k: int| 0 <= k < toks.len() - 1 implies (#[trigger] toks[k]).span.end <= toks[k + 1].span.start by {
            lemma_piece_at(s, k);
            lemma_piece_at(s, k + 1);
        }
    }
    assert(spans_ordered(seq![], bytes.len() as int)) by {
        reveal(spans_ordered);
    }
}

/// The byte that follows token `k` in the rendering: the first byte of its
/// gap, else the first byte of the next token, else none.
pub open spec fn next_byte(s: Seq<(Token, Seq<u8>)>, k: int) -> Option<u8> {
    if s[k].1.len() > 0 {
        Some(s[k].1[0])
    } else if k + 1 < s.len() {
        Some(spelling(s[k + 1].0)[0])
    } else {
        None
    }
}

/// The conditions of `stream_ok`, each stated between neighbours.
pub open spec fn stream_ok_local(s: Seq<(Token, Seq<u8>)>) -> bool {
    &&& forall|k: int| 0 <= k < s.len() ==> well_spelled(#[trigger] s[k].0)
    &&& forall|k: int, x: int| 0 <= k < s.len() && 0 <= x < s[k].1.len() ==> is_space(#[trigger] s[k].1[x])
    &&& forall|k: int| 0 <= k < s.len() ==> stops(#[trigger] s[k].0, next_byte(s, k))
}

/// Neighbour conditions are enough for the tokens to read back.
#[verifier::spinoff_prover]
pub proof fn lemma_stream_local(s: Seq<(Token, Seq<u8>)>)
    requires
        stream_ok_local(s),
    ensures
        stream_ok(s),
{
    assert forall|k: int| 0 <= k < s.len() implies stops(
        #[trigger] s[k].0,
        byte_at(rendered(s), offset(s, k) + spelling(s[k].0).len()),
    ) by {
        lemma_rendered_at(s, k);
        let e = offset(s, k) + spelling(s[k].0).len();
        if s[k].1.len() > 0 {
            assert(rendered(s)[e + 0] == s[k].1[0]);
        } else if k + 1 < s.len() {
            lemma_rendered_at(s, k + 1);
            assert(well_spelled(s[k + 1].0));
            lemma_first_byte(s[k + 1].0);
            lemma_spelled_byte(rendered(s), offset(s, k + 1), spelling(s[k + 1].0), 0);
        } else {
            assert(s.take(k + 1) =~= s);
        }
        assert(byte_at(rendered(s), e) == next_byte(s, k));
    }
}

} // verus!
