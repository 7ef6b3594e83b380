//! The grammar of the supported OpenQASM 3 subset, read as the parser reads
//! it: each rule takes the tokens and a position and gives either the
//! syntax it reads with the position after it, or the position at which the
//! reading fails. A rule that reads a list goes on while its separator
//! follows; expressions use binding powers (`+ -` 1/2, `* /` 3/4, `**` 6/5,
//! unary minus 5) under comparisons, which chain to the left.

use vstd::prelude::*;

use crate::ast::{AssignOp, BinOp, ClassicalQualifier, ClassicalType, CompareOp, ConstKind};
use crate::lexer::{describe_text, Token};
use crate::span::{Span, Spanned};
use crate::syntax::{expr_model_span, ExprModel, ModifierModel, OperandModel, RangeModel, StmtModel};
use crate::text::{decimal_text, float_text};

verus! {

/// What reading a rule gives: the syntax read and the position after it,
/// or the position of the token at which reading fails.
pub enum Parsed<T> {
    Done(T, int),
    Failed(int, Seq<char>),
}

pub type Toks = Seq<Spanned<Token>>;

pub open spec fn node_at(toks: Toks, p: int) -> Option<Token> {
    if 0 <= p < toks.len() {
        Some(toks[p].node)
    } else {
        None
    }
}

pub open spec fn at_tok(toks: Toks, p: int, t: Token) -> bool {
    0 <= p < toks.len() && toks[p].node == t
}

/// The span of token `p`, or the empty span at the end of the source.
pub open spec fn tok_span(toks: Toks, p: int, source_len: usize) -> Span {
    if 0 <= p < toks.len() {
        toks[p].span
    } else {
        Span { start: source_len, end: source_len }
    }
}

/// The span of the token before `p`.
pub open spec fn prev_span(toks: Toks, p: int) -> Span {
    if 0 < p <= toks.len() {
        toks[p - 1].span
    } else {
        Span { start: 0, end: 0 }
    }
}

pub open spec fn span_merge(a: Span, b: Span) -> Span {
    Span {
        start: if a.start <= b.start {
            a.start
        } else {
            b.start
        },
        end: if a.end >= b.end {
            a.end
        } else {
            b.end
        },
    }
}

/// Reading moved forward from `p` to `q`, within the tokens.
pub open spec fn moves(toks: Toks, p: int, q: int) -> bool {
    p < q <= toks.len()
}

/// `q` is at or after `p`, within the tokens.
pub open spec fn within(toks: Toks, p: int, q: int) -> bool {
    p <= q <= toks.len()
}

/// How an error names what it found at `p`: the token there, or the end of
/// the file.
pub open spec fn found_text(toks: Toks, p: int) -> Seq<char> {
    if 0 <= p < toks.len() {
        describe_text(toks[p].node)
    } else {
        "end of file"@
    }
}

/// The message of a reading step that consumed nothing where it had to move
/// on.
pub open spec fn stalled() -> Seq<char> {
    "parser made no progress"@
}

pub open spec fn read_tok(toks: Toks, p: int, t: Token) -> Parsed<Span> {
    if at_tok(toks, p, t) {
        Parsed::Done(toks[p].span, p + 1)
    } else {
        Parsed::Failed(p, "expected "@ + describe_text(t) + ", found "@ + found_text(toks, p))
    }
}

pub open spec fn read_ident(toks: Toks, p: int) -> Parsed<(Seq<char>, Span)> {
    match node_at(toks, p) {
        Some(Token::Ident(name)) => Parsed::Done((name@, toks[p].span), p + 1),
        _ => Parsed::Failed(p, "expected identifier, found "@ + found_text(toks, p)),
    }
}

/// An integer literal token.
pub open spec fn read_int(toks: Toks, p: int, msg: Seq<char>) -> Parsed<u64> {
    match node_at(toks, p) {
        Some(Token::IntLiteral(n)) => Parsed::Done(n, p + 1),
        _ => Parsed::Failed(p, msg),
    }
}

pub open spec fn classical_type_of(t: Token) -> Option<ClassicalType> {
    match t {
        Token::Int => Some(ClassicalType::Int),
        Token::UInt => Some(ClassicalType::UInt),
        Token::Float => Some(ClassicalType::Float),
        Token::Angle => Some(ClassicalType::Angle),
        Token::Bool => Some(ClassicalType::Bool),
        _ => None,
    }
}

pub open spec fn type_at(toks: Toks, p: int) -> Option<ClassicalType> {
    match node_at(toks, p) {
        Some(t) => classical_type_of(t),
        None => None,
    }
}

// ── Expressions ─────────────────────────────────────────────

/// An arithmetic operator with its left and right binding powers.
pub open spec fn bin_op_at(toks: Toks, p: int) -> Option<(BinOp, int, int)> {
    match node_at(toks, p) {
        Some(Token::Plus) => Some((BinOp::Add, 1, 2)),
        Some(Token::Minus) => Some((BinOp::Sub, 1, 2)),
        Some(Token::Star) => Some((BinOp::Mul, 3, 4)),
        Some(Token::Slash) => Some((BinOp::Div, 3, 4)),
        Some(Token::DoubleStar) => Some((BinOp::Pow, 6, 5)),
        _ => None,
    }
}

pub open spec fn compare_op_at(toks: Toks, p: int) -> Option<CompareOp> {
    match node_at(toks, p) {
        Some(Token::DoubleEquals) => Some(CompareOp::Eq),
        Some(Token::NotEquals) => Some(CompareOp::Ne),
        Some(Token::Less) => Some(CompareOp::Lt),
        Some(Token::LessEquals) => Some(CompareOp::Le),
        Some(Token::Greater) => Some(CompareOp::Gt),
        Some(Token::GreaterEquals) => Some(CompareOp::Ge),
        _ => None,
    }
}

pub open spec fn read_expr(toks: Toks, p: int) -> Parsed<ExprModel>
    decreases toks.len() - p, 12int,
{
    read_comparison(toks, p)
}

pub open spec fn read_comparison(toks: Toks, p: int) -> Parsed<ExprModel>
    decreases toks.len() - p, 11int,
{
    match read_expr_bp(toks, p, 0) {
        Parsed::Done(lhs, q) => if moves(toks, p, q) {
            read_compare_tail(toks, lhs, q)
        } else {
            Parsed::Failed(q, stalled())
        },
        Parsed::Failed(e, m) => Parsed::Failed(e, m),
    }
}

/// Further comparisons after `lhs`, each taking everything to its left.
pub open spec fn read_compare_tail(toks: Toks, lhs: ExprModel, q: int) -> Parsed<ExprModel>
    decreases toks.len() - q, 11int,
{
    match compare_op_at(toks, q) {
        Some(op) => match read_expr_bp(toks, q + 1, 0) {
            Parsed::Done(rhs, q2) => if moves(toks, q, q2) {
                read_compare_tail(
                    toks,
                    ExprModel::Compare {
                        op,
                        lhs: Box::new(lhs),
                        rhs: Box::new(rhs),
                        span: span_merge(expr_model_span(lhs), expr_model_span(rhs)),
                    },
                    q2,
                )
            } else {
                Parsed::Failed(q2, stalled())
            },
            Parsed::Failed(e, m) => Parsed::Failed(e, m),
        },
        None => Parsed::Done(lhs, q),
    }
}

/// An arithmetic expression whose operators bind at least `min_bp` to the left.
pub open spec fn read_expr_bp(toks: Toks, p: int, min_bp: int) -> Parsed<ExprModel>
    decreases toks.len() - p, 10int,
{
    match read_prefix(toks, p) {
        Parsed::Done(lhs, q) => if moves(toks, p, q) {
            read_binop_tail(toks, lhs, q, min_bp)
        } else {
            Parsed::Failed(q, stalled())
        },
        Parsed::Failed(e, m) => Parsed::Failed(e, m),
    }
}

pub open spec fn read_binop_tail(toks: Toks, lhs: ExprModel, q: int, min_bp: int) -> Parsed<ExprModel>
    decreases toks.len() - q, 10int,
{
    match bin_op_at(toks, q) {
        Some((op, l_bp, r_bp)) => if l_bp < min_bp {
            Parsed::Done(lhs, q)
        } else {
            match read_expr_bp(toks, q + 1, r_bp) {
                Parsed::Done(rhs, q2) => if moves(toks, q, q2) {
                    read_binop_tail(
                        toks,
                        ExprModel::BinOp {
                            op,
                            lhs: Box::new(lhs),
                            rhs: Box::new(rhs),
                            span: span_merge(expr_model_span(lhs), expr_model_span(rhs)),
                        },
                        q2,
                        min_bp,
                    )
                } else {
                    Parsed::Failed(q2, stalled())
                },
                Parsed::Failed(e, m) => Parsed::Failed(e, m),
            }
        },
        None => Parsed::Done(lhs, q),
    }
}

/// A name that stands for a built-in constant.
pub open spec fn const_named(name: Seq<char>) -> Option<ConstKind> {
    if name == "pi"@ {
        Some(ConstKind::Pi)
    } else if name == "tau"@ {
        Some(ConstKind::Tau)
    } else if name == "euler"@ {
        Some(ConstKind::Euler)
    } else {
        None
    }
}

/// A literal, a name (with an index or call arguments), a negation or a
/// parenthesized expression.
pub open spec fn read_prefix(toks: Toks, p: int) -> Parsed<ExprModel>
    decreases toks.len() - p, 9int,
{
    if p < 0 || p >= toks.len() {
        Parsed::Failed(p, "expected expression"@)
    } else {
        let span = toks[p].span;
        match toks[p].node {
            Token::Minus => match read_expr_bp(toks, p + 1, 5) {
                Parsed::Done(operand, q) => Parsed::Done(
                    ExprModel::Neg(Box::new(operand), span_merge(span, expr_model_span(operand))),
                    q,
                ),
                Parsed::Failed(e, m) => Parsed::Failed(e, m),
            },
            Token::LParen => match read_expr(toks, p + 1) {
                Parsed::Done(inner, q) => match read_tok(toks, q, Token::RParen) {
                    Parsed::Done(_, q2) => Parsed::Done(inner, q2),
                    Parsed::Failed(e, m) => Parsed::Failed(e, m),
                },
                Parsed::Failed(e, m) => Parsed::Failed(e, m),
            },
            Token::IntLiteral(n) => Parsed::Done(ExprModel::IntLit(n, span), p + 1),
            Token::FloatLiteral(lexeme) => Parsed::Done(
                ExprModel::FloatLit(float_text(vstd::utf8::encode_utf8(lexeme@)), span),
                p + 1,
            ),
            Token::True => Parsed::Done(ExprModel::BoolLit(true, span), p + 1),
            Token::False => Parsed::Done(ExprModel::BoolLit(false, span), p + 1),
            Token::Ident(name) => if at_tok(toks, p + 1, Token::LBracket) {
                match read_int(toks, p + 2, "expected integer index"@) {
                    Parsed::Done(index, q) => match read_tok(toks, q, Token::RBracket) {
                        Parsed::Done(end, q2) => Parsed::Done(
                            ExprModel::Index { name: name@, index, span: span_merge(span, end) },
                            q2,
                        ),
                        Parsed::Failed(e, m) => Parsed::Failed(e, m),
                    },
                    Parsed::Failed(e, m) => Parsed::Failed(e, m),
                }
            } else if at_tok(toks, p + 1, Token::LParen) {
                match read_args(toks, p + 2) {
                    Parsed::Done(args, q) => match read_tok(toks, q, Token::RParen) {
                        Parsed::Done(end, q2) => Parsed::Done(
                            ExprModel::Call { name: name@, args, span: span_merge(span, end) },
                            q2,
                        ),
                        Parsed::Failed(e, m) => Parsed::Failed(e, m),
                    },
                    Parsed::Failed(e, m) => Parsed::Failed(e, m),
                }
            } else {
                match const_named(name@) {
                    Some(k) => Parsed::Done(ExprModel::Const(k, span), p + 1),
                    None => Parsed::Done(ExprModel::Ident(name@, span), p + 1),
                }
            },
            _ => Parsed::Failed(p, "expected expression"@),
        }
    }
}

/// Call arguments up to (not including) the closing parenthesis.
pub open spec fn read_args(toks: Toks, p: int) -> Parsed<Seq<ExprModel>>
    decreases toks.len() - p, 14int,
{
    if at_tok(toks, p, Token::RParen) {
        Parsed::Done(seq![], p)
    } else {
        match read_expr(toks, p) {
            Parsed::Done(e, q) => if moves(toks, p, q) {
                read_more_exprs(toks, seq![e], q)
            } else {
                Parsed::Failed(q, stalled())
            },
            Parsed::Failed(x, m) => Parsed::Failed(x, m),
        }
    }
}

/// `, expr` repeated, after the expressions `acc`.
pub open spec fn read_more_exprs(toks: Toks, acc: Seq<ExprModel>, q: int) -> Parsed<Seq<ExprModel>>
    decreases toks.len() - q, 14int,
{
    if at_tok(toks, q, Token::Comma) {
        match read_expr(toks, q + 1) {
            Parsed::Done(e, q2) => if moves(toks, q, q2) {
                read_more_exprs(toks, acc.push(e), q2)
            } else {
                Parsed::Failed(q2, stalled())
            },
            Parsed::Failed(x, m) => Parsed::Failed(x, m),
        }
    } else {
        Parsed::Done(acc, q)
    }
}

// ── Operands and lists ──────────────────────────────────────

/// `name`, `name[i]` or `name[a:b]`.
pub open spec fn read_operand(toks: Toks, p: int) -> Parsed<OperandModel> {
    match read_ident(toks, p) {
        Parsed::Done((name, name_span), q) => if at_tok(toks, q, Token::LBracket) {
            match read_int(toks, q + 1, "expected integer index"@) {
                Parsed::Done(idx, q2) => if at_tok(toks, q2, Token::Colon) {
                    match read_int(toks, q2 + 1, "expected integer index"@) {
                        Parsed::Done(last, q3) => match read_tok(toks, q3, Token::RBracket) {
                            Parsed::Done(end, q4) => Parsed::Done(
                                OperandModel {
                                    name,
                                    index: None,
                                    slice: Some((idx, last)),
                                    span: span_merge(name_span, end),
                                },
                                q4,
                            ),
                            Parsed::Failed(e, m) => Parsed::Failed(e, m),
                        },
                        Parsed::Failed(e, m) => Parsed::Failed(e, m),
                    }
                } else {
                    match read_tok(toks, q2, Token::RBracket) {
                        Parsed::Done(end, q3) => Parsed::Done(
                            OperandModel { name, index: Some(idx), slice: None, span: span_merge(name_span, end) },
                            q3,
                        ),
                        Parsed::Failed(e, m) => Parsed::Failed(e, m),
                    }
                },
                Parsed::Failed(e, m) => Parsed::Failed(e, m),
            }
        } else {
            Parsed::Done(OperandModel { name, index: None, slice: None, span: name_span }, q)
        },
        Parsed::Failed(e, m) => Parsed::Failed(e, m),
    }
}

/// Operands separated by commas; none unless a name comes first.
pub open spec fn read_operand_list(toks: Toks, p: int) -> Parsed<Seq<OperandModel>> {
    match node_at(toks, p) {
        Some(Token::Ident(_)) => match read_operand(toks, p) {
            Parsed::Done(o, q) => read_more_operands(toks, seq![o], q),
            Parsed::Failed(e, m) => Parsed::Failed(e, m),
        },
        _ => Parsed::Done(seq![], p),
    }
}

pub open spec fn read_more_operands(toks: Toks, acc: Seq<OperandModel>, q: int) -> Parsed<Seq<OperandModel>>
    decreases toks.len() - q,
{
    if at_tok(toks, q, Token::Comma) {
        match read_operand(toks, q + 1) {
            Parsed::Done(o, q2) => if moves(toks, q, q2) {
                read_more_operands(toks, acc.push(o), q2)
            } else {
                Parsed::Failed(q2, stalled())
            },
            Parsed::Failed(e, m) => Parsed::Failed(e, m),
        }
    } else {
        Parsed::Done(acc, q)
    }
}

/// Names separated by commas; none unless a name comes first.
pub open spec fn read_ident_list(toks: Toks, p: int) -> Parsed<Seq<Seq<char>>> {
    match read_ident(toks, p) {
        Parsed::Done((name, _), q) => read_more_idents(toks, seq![name], q),
        Parsed::Failed(_, _) => Parsed::Done(seq![], p),
    }
}

pub open spec fn read_more_idents(toks: Toks, acc: Seq<Seq<char>>, q: int) -> Parsed<Seq<Seq<char>>>
    decreases toks.len() - q,
{
    if at_tok(toks, q, Token::Comma) {
        match read_ident(toks, q + 1) {
            Parsed::Done((name, _), q2) => read_more_idents(toks, acc.push(name), q2),
            Parsed::Failed(e, m) => Parsed::Failed(e, m),
        }
    } else {
        Parsed::Done(acc, q)
    }
}

/// `[n]`, or nothing.
pub open spec fn read_optional_size(toks: Toks, p: int) -> Parsed<Option<u64>> {
    if at_tok(toks, p, Token::LBracket) {
        match read_int(toks, p + 1, "expected integer size in brackets"@) {
            Parsed::Done(n, q) => match read_tok(toks, q, Token::RBracket) {
                Parsed::Done(_, q2) => Parsed::Done(Some(n), q2),
                Parsed::Failed(e, m) => Parsed::Failed(e, m),
            },
            Parsed::Failed(e, m) => Parsed::Failed(e, m),
        }
    } else {
        Parsed::Done(None, p)
    }
}

/// `(expr, ...)`, or nothing.
pub open spec fn read_optional_params(toks: Toks, p: int) -> Parsed<Seq<ExprModel>>
    decreases toks.len() - p, 20int,
{
    if !at_tok(toks, p, Token::LParen) {
        Parsed::Done(seq![], p)
    } else {
        match read_args(toks, p + 1) {
            Parsed::Done(args, q) => match read_tok(toks, q, Token::RParen) {
                Parsed::Done(_, q2) => Parsed::Done(args, q2),
                Parsed::Failed(e, m) => Parsed::Failed(e, m),
            },
            Parsed::Failed(e, m) => Parsed::Failed(e, m),
        }
    }
}

/// Gate modifiers, each ending in `@`, after the modifiers `acc`.
pub open spec fn read_modifiers(toks: Toks, acc: Seq<ModifierModel>, q: int) -> Parsed<Seq<ModifierModel>>
    decreases toks.len() - q, 20int,
{
    if q < 0 || q >= toks.len() {
        Parsed::Done(acc, q)
    } else {
        let span = toks[q].span;
        match toks[q].node {
            Token::Ctrl | Token::NegCtrl => {
                let arg: Parsed<Option<ExprModel>> = if at_tok(toks, q + 1, Token::LParen) {
                    match read_expr(toks, q + 2) {
                        Parsed::Done(e, q2) => match read_tok(toks, q2, Token::RParen) {
                            Parsed::Done(_, q3) => Parsed::Done(Some(e), q3),
                            Parsed::Failed(x, m) => Parsed::Failed(x, m),
                        },
                        Parsed::Failed(x, m) => Parsed::Failed(x, m),
                    }
                } else {
                    Parsed::Done(None, q + 1)
                };
                match arg {
                    Parsed::Done(a, q2) => match read_tok(toks, q2, Token::At) {
                        Parsed::Done(at, q3) => if moves(toks, q, q3) {
                            let m = if toks[q].node == Token::Ctrl {
                                ModifierModel::Ctrl(a, span_merge(span, at))
                            } else {
                                ModifierModel::NegCtrl(a, span_merge(span, at))
                            };
                            read_modifiers(toks, acc.push(m), q3)
                        } else {
                            Parsed::Failed(q3, stalled())
                        },
                        Parsed::Failed(x, m) => Parsed::Failed(x, m),
                    },
                    Parsed::Failed(x, m) => Parsed::Failed(x, m),
                }
            },
            Token::Inv => match read_tok(toks, q + 1, Token::At) {
                Parsed::Done(at, q2) => read_modifiers(
                    toks,
                    acc.push(ModifierModel::Inv(span_merge(span, at))),
                    q2,
                ),
                Parsed::Failed(x, m) => Parsed::Failed(x, m),
            },
            Token::Pow => match read_tok(toks, q + 1, Token::LParen) {
                Parsed::Done(_, q1) => match read_expr(toks, q1) {
                    Parsed::Done(e, q2) => match read_tok(toks, q2, Token::RParen) {
                        Parsed::Done(_, q3) => match read_tok(toks, q3, Token::At) {
                            Parsed::Done(at, q4) => if moves(toks, q, q4) {
                                read_modifiers(toks, acc.push(ModifierModel::Pow(e, span_merge(span, at))), q4)
                            } else {
                                Parsed::Failed(q4, stalled())
                            },
                            Parsed::Failed(x, m) => Parsed::Failed(x, m),
                        },
                        Parsed::Failed(x, m) => Parsed::Failed(x, m),
                    },
                    Parsed::Failed(x, m) => Parsed::Failed(x, m),
                },
                Parsed::Failed(x, m) => Parsed::Failed(x, m),
            },
            _ => Parsed::Done(acc, q),
        }
    }
}

// ── Statements ──────────────────────────────────────────────

/// A gate call after its modifiers: name, optional parameters, operands, `;`.
pub open spec fn read_call_rest(toks: Toks, start: Span, mods: Seq<ModifierModel>, p: int) -> Parsed<StmtModel>
    decreases toks.len() - p, 21int,
{
    match read_ident(toks, p) {
        Parsed::Done((name, _), q) => match read_optional_params(toks, q) {
            Parsed::Done(params, q2) => match read_operand_list(toks, q2) {
                Parsed::Done(args, q3) => match read_tok(toks, q3, Token::Semicolon) {
                    Parsed::Done(end, q4) => Parsed::Done(
                        StmtModel::GateCall { name, modifiers: mods, params, args, span: span_merge(start, end) },
                        q4,
                    ),
                    Parsed::Failed(e, m) => Parsed::Failed(e, m),
                },
                Parsed::Failed(e, m) => Parsed::Failed(e, m),
            },
            Parsed::Failed(e, m) => Parsed::Failed(e, m),
        },
        Parsed::Failed(e, m) => Parsed::Failed(e, m),
    }
}

/// A gate call that may start with modifiers.
pub open spec fn read_modified_call(toks: Toks, p: int) -> Parsed<StmtModel>
    decreases toks.len() - p, 25int,
{
    match read_modifiers(toks, seq![], p) {
        Parsed::Done(mods, q) => if within(toks, p, q) {
            read_call_rest(toks, toks[p].span, mods, q)
        } else {
            Parsed::Failed(q, stalled())
        },
        Parsed::Failed(e, m) => Parsed::Failed(e, m),
    }
}

/// A statement that starts with a name: an assignment, `c = measure q;`,
/// or a gate call.
pub open spec fn read_ident_stmt(toks: Toks, p: int) -> Parsed<StmtModel>
    decreases toks.len() - p, 25int,
{
    match read_ident(toks, p) {
        Parsed::Done((name, name_span), q) => {
            let op = if at_tok(toks, q, Token::Equals) {
                Some(AssignOp::Assign)
            } else if at_tok(toks, q, Token::PlusEquals) {
                Some(AssignOp::AddAssign)
            } else if at_tok(toks, q, Token::MinusEquals) {
                Some(AssignOp::SubAssign)
            } else {
                None
            };
            match op {
                Some(op) => if op == AssignOp::Assign && at_tok(toks, q + 1, Token::Measure) {
                    match read_operand(toks, q + 2) {
                        Parsed::Done(qubit, q2) => match read_tok(toks, q2, Token::Semicolon) {
                            Parsed::Done(end, q3) => Parsed::Done(
                                StmtModel::Measure {
                                    qubit,
                                    target: Some(OperandModel { name, index: None, slice: None, span: name_span }),
                                    span: span_merge(name_span, end),
                                },
                                q3,
                            ),
                            Parsed::Failed(e, m) => Parsed::Failed(e, m),
                        },
                        Parsed::Failed(e, m) => Parsed::Failed(e, m),
                    }
                } else {
                    match read_expr(toks, q + 1) {
                        Parsed::Done(value, q2) => match read_tok(toks, q2, Token::Semicolon) {
                            Parsed::Done(end, q3) => Parsed::Done(
                                StmtModel::Assignment { name, op, value, span: span_merge(name_span, end) },
                                q3,
                            ),
                            Parsed::Failed(e, m) => Parsed::Failed(e, m),
                        },
                        Parsed::Failed(e, m) => Parsed::Failed(e, m),
                    }
                },
                None => match read_optional_params(toks, q) {
                    Parsed::Done(params, q2) => match read_operand_list(toks, q2) {
                        Parsed::Done(args, q3) => match read_tok(toks, q3, Token::Semicolon) {
                            Parsed::Done(end, q4) => Parsed::Done(
                                StmtModel::GateCall {
                                    name,
                                    modifiers: seq![],
                                    params,
                                    args,
                                    span: span_merge(name_span, end),
                                },
                                q4,
                            ),
                            Parsed::Failed(e, m) => Parsed::Failed(e, m),
                        },
                        Parsed::Failed(e, m) => Parsed::Failed(e, m),
                    },
                    Parsed::Failed(e, m) => Parsed::Failed(e, m),
                },
            }
        },
        Parsed::Failed(e, m) => Parsed::Failed(e, m),
    }
}

/// `{ statements }`.
pub open spec fn read_block(toks: Toks, p: int) -> Parsed<Seq<StmtModel>>
    decreases toks.len() - p, 26int,
{
    match read_tok(toks, p, Token::LBrace) {
        Parsed::Done(_, q) => match read_block_items(toks, seq![], q, false) {
            Parsed::Done(stmts, q2) => match read_tok(toks, q2, Token::RBrace) {
                Parsed::Done(_, q3) => Parsed::Done(stmts, q3),
                Parsed::Failed(e, m) => Parsed::Failed(e, m),
            },
            Parsed::Failed(e, m) => Parsed::Failed(e, m),
        },
        Parsed::Failed(e, m) => Parsed::Failed(e, m),
    }
}

/// Statements up to a `}` or the end, after the statements `acc`; only gate
/// calls when `gate_body`.
pub open spec fn read_block_items(toks: Toks, acc: Seq<StmtModel>, q: int, gate_body: bool) -> Parsed<
    Seq<StmtModel>,
>
    decreases toks.len() - q, 40int,
{
    if at_tok(toks, q, Token::RBrace) || q >= toks.len() || q < 0 {
        Parsed::Done(acc, q)
    } else {
        let item = if gate_body {
            read_gate_body_stmt(toks, q)
        } else {
            read_stmt(toks, q)
        };
        match item {
            Parsed::Done(s, q2) => if moves(toks, q, q2) {
                read_block_items(toks, acc.push(s), q2, gate_body)
            } else {
                Parsed::Failed(q2, stalled())
            },
            Parsed::Failed(e, m) => Parsed::Failed(e, m),
        }
    }
}

pub open spec fn read_gate_body_stmt(toks: Toks, p: int) -> Parsed<StmtModel>
    decreases toks.len() - p, 30int,
{
    match node_at(toks, p) {
        Some(Token::Ctrl) | Some(Token::NegCtrl) | Some(Token::Inv) | Some(Token::Pow) => read_modified_call(
            toks,
            p,
        ),
        Some(Token::Ident(_)) => read_call_rest(toks, toks[p].span, seq![], p),
        _ => Parsed::Failed(p, "only gate calls are allowed inside a gate body"@),
    }
}

/// `gate name(params) qubits { gate calls }`.
pub open spec fn read_gate_def(toks: Toks, p: int) -> Parsed<StmtModel>
    decreases toks.len() - p, 25int,
{
    let start = toks[p].span;
    match read_ident(toks, p + 1) {
        Parsed::Done((name, _), q) => {
            let params: Parsed<Seq<Seq<char>>> = if at_tok(toks, q, Token::LParen) {
                match read_ident_list(toks, q + 1) {
                    Parsed::Done(list, q2) => match read_tok(toks, q2, Token::RParen) {
                        Parsed::Done(_, q3) => Parsed::Done(list, q3),
                        Parsed::Failed(e, m) => Parsed::Failed(e, m),
                    },
                    Parsed::Failed(e, m) => Parsed::Failed(e, m),
                }
            } else {
                Parsed::Done(seq![], q)
            };
            match params {
                Parsed::Done(params, q2) => match read_ident_list(toks, q2) {
                    Parsed::Done(qparams, q3) => match read_tok(toks, q3, Token::LBrace) {
                        Parsed::Done(_, q4) => if moves(toks, p, q4) {
                            match read_block_items(toks, seq![], q4, true) {
                                Parsed::Done(body, q5) => match read_tok(toks, q5, Token::RBrace) {
                                    Parsed::Done(end, q6) => Parsed::Done(
                                        StmtModel::GateDef { name, params, qparams, body, span: span_merge(start, end) },
                                        q6,
                                    ),
                                    Parsed::Failed(e, m) => Parsed::Failed(e, m),
                                },
                                Parsed::Failed(e, m) => Parsed::Failed(e, m),
                            }
                        } else {
                            Parsed::Failed(q4, stalled())
                        },
                        Parsed::Failed(e, m) => Parsed::Failed(e, m),
                    },
                    Parsed::Failed(e, m) => Parsed::Failed(e, m),
                },
                Parsed::Failed(e, m) => Parsed::Failed(e, m),
            }
        },
        Parsed::Failed(e, m) => Parsed::Failed(e, m),
    }
}

/// `type name` pairs separated by commas, after the pairs `acc`.
pub open spec fn read_typed_params(toks: Toks, acc: Seq<(ClassicalType, Seq<char>)>, q: int) -> Parsed<
    Seq<(ClassicalType, Seq<char>)>,
>
    decreases toks.len() - q,
{
    match type_at(toks, q) {
        Some(ty) => match read_ident(toks, q + 1) {
            Parsed::Done((name, _), q2) => if at_tok(toks, q2, Token::Comma) {
                read_typed_params(toks, acc.push((ty, name)), q2 + 1)
            } else {
                Parsed::Done(acc.push((ty, name)), q2)
            },
            Parsed::Failed(e, m) => Parsed::Failed(e, m),
        },
        None => Parsed::Failed(q, "expected parameter type"@),
    }
}

/// `def name(params) -> type { return expr; }`.
pub open spec fn read_function_def(toks: Toks, p: int) -> Parsed<StmtModel>
    decreases toks.len() - p, 25int,
{
    let start = toks[p].span;
    match read_ident(toks, p + 1) {
        Parsed::Done((name, _), q) => match read_tok(toks, q, Token::LParen) {
            Parsed::Done(_, q1) => {
                let params = if at_tok(toks, q1, Token::RParen) {
                    Parsed::Done(seq![], q1)
                } else {
                    read_typed_params(toks, seq![], q1)
                };
                match params {
                    Parsed::Done(params, q2) => match read_tok(toks, q2, Token::RParen) {
                        Parsed::Done(_, q3) => match read_tok(toks, q3, Token::Arrow) {
                            Parsed::Done(_, q4) => match type_at(toks, q4) {
                                Some(return_type) => match read_tok(toks, q4 + 1, Token::LBrace) {
                                    Parsed::Done(_, q5) => match read_tok(toks, q5, Token::Return) {
                                        Parsed::Done(_, q6) => if !moves(toks, p, q6) {
                                            Parsed::Failed(q6, stalled())
                                        } else {
                                            match read_expr(toks, q6) {
                                            Parsed::Done(body, q7) => match read_tok(toks, q7, Token::Semicolon) {
                                                Parsed::Done(_, q8) => match read_tok(toks, q8, Token::RBrace) {
                                                    Parsed::Done(end, q9) => Parsed::Done(
                                                        StmtModel::FunctionDef {
                                                            name,
                                                            params,
                                                            return_type,
                                                            body,
                                                            span: span_merge(start, end),
                                                        },
                                                        q9,
                                                    ),
                                                    Parsed::Failed(e, m) => Parsed::Failed(e, m),
                                                },
                                                Parsed::Failed(e, m) => Parsed::Failed(e, m),
                                            },
                                            Parsed::Failed(e, m) => Parsed::Failed(e, m),
                                        }
                                        },
                                        Parsed::Failed(e, m) => Parsed::Failed(e, m),
                                    },
                                    Parsed::Failed(e, m) => Parsed::Failed(e, m),
                                },
                                None => Parsed::Failed(q4, "expected return type"@),
                            },
                            Parsed::Failed(e, m) => Parsed::Failed(e, m),
                        },
                        Parsed::Failed(e, m) => Parsed::Failed(e, m),
                    },
                    Parsed::Failed(e, m) => Parsed::Failed(e, m),
                }
            },
            Parsed::Failed(e, m) => Parsed::Failed(e, m),
        },
        Parsed::Failed(e, m) => Parsed::Failed(e, m),
    }
}

/// A classical declaration `[qualifier] type name [= expr];`.
pub open spec fn read_classical_decl(toks: Toks, p: int, qualifier: Option<ClassicalQualifier>) -> Parsed<
    StmtModel,
>
    decreases toks.len() - p, 25int,
{
    let start = toks[p].span;
    let q = if qualifier is Some {
        p + 1
    } else {
        p
    };
    match type_at(toks, q) {
        Some(ty) => match read_ident(toks, q + 1) {
            Parsed::Done((name, _), q2) => {
                let init: Parsed<Option<ExprModel>> = if at_tok(toks, q2, Token::Equals) {
                    match read_expr(toks, q2 + 1) {
                        Parsed::Done(e, q3) => Parsed::Done(Some(e), q3),
                        Parsed::Failed(x, m) => Parsed::Failed(x, m),
                    }
                } else {
                    Parsed::Done(None, q2)
                };
                match init {
                    Parsed::Done(init, q3) => match read_tok(toks, q3, Token::Semicolon) {
                        Parsed::Done(end, q4) => Parsed::Done(
                            StmtModel::ClassicalDecl { qualifier, ty, name, init, span: span_merge(start, end) },
                            q4,
                        ),
                        Parsed::Failed(x, m) => Parsed::Failed(x, m),
                    },
                    Parsed::Failed(x, m) => Parsed::Failed(x, m),
                }
            },
            Parsed::Failed(x, m) => Parsed::Failed(x, m),
        },
        None => Parsed::Failed(q, "expected classical type"@),
    }
}

/// `qubit[n] name;` / `bit[n] name;` (`quantum` tells which), or the legacy
/// `qreg name[n];` / `creg name[n];` when `legacy`.
pub open spec fn read_decl(toks: Toks, p: int, quantum: bool, legacy: bool) -> Parsed<StmtModel> {
    let start = toks[p].span;
    let parts: Parsed<(Option<u64>, Seq<char>)> = if legacy {
        match read_ident(toks, p + 1) {
            Parsed::Done((name, _), q) => match read_optional_size(toks, q) {
                Parsed::Done(size, q2) => Parsed::Done((size, name), q2),
                Parsed::Failed(e, m) => Parsed::Failed(e, m),
            },
            Parsed::Failed(e, m) => Parsed::Failed(e, m),
        }
    } else {
        match read_optional_size(toks, p + 1) {
            Parsed::Done(size, q) => match read_ident(toks, q) {
                Parsed::Done((name, _), q2) => Parsed::Done((size, name), q2),
                Parsed::Failed(e, m) => Parsed::Failed(e, m),
            },
            Parsed::Failed(e, m) => Parsed::Failed(e, m),
        }
    };
    match parts {
        Parsed::Done((size, name), q) => match read_tok(toks, q, Token::Semicolon) {
            Parsed::Done(end, q2) => Parsed::Done(
                if quantum {
                    StmtModel::QubitDecl { name, size, span: span_merge(start, end) }
                } else {
                    StmtModel::BitDecl { name, size, span: span_merge(start, end) }
                },
                q2,
            ),
            Parsed::Failed(e, m) => Parsed::Failed(e, m),
        },
        Parsed::Failed(e, m) => Parsed::Failed(e, m),
    }
}

/// `include "path";`.
pub open spec fn read_include(toks: Toks, p: int) -> Parsed<StmtModel> {
    let start = toks[p].span;
    match node_at(toks, p + 1) {
        Some(Token::StringLiteral(path)) => match read_tok(toks, p + 2, Token::Semicolon) {
            Parsed::Done(end, q) => Parsed::Done(StmtModel::Include { path: path@, span: span_merge(start, end) }, q),
            Parsed::Failed(e, m) => Parsed::Failed(e, m),
        },
        _ => Parsed::Failed(p + 1, "expected include path string"@),
    }
}

/// `measure q [-> c];`.
pub open spec fn read_measure(toks: Toks, p: int) -> Parsed<StmtModel> {
    let start = toks[p].span;
    match read_operand(toks, p + 1) {
        Parsed::Done(qubit, q) => {
            let target: Parsed<Option<OperandModel>> = if at_tok(toks, q, Token::Arrow) {
                match read_operand(toks, q + 1) {
                    Parsed::Done(t, q2) => Parsed::Done(Some(t), q2),
                    Parsed::Failed(e, m) => Parsed::Failed(e, m),
                }
            } else {
                Parsed::Done(None, q)
            };
            match target {
                Parsed::Done(target, q2) => match read_tok(toks, q2, Token::Semicolon) {
                    Parsed::Done(end, q3) => Parsed::Done(
                        StmtModel::Measure { qubit, target, span: span_merge(start, end) },
                        q3,
                    ),
                    Parsed::Failed(e, m) => Parsed::Failed(e, m),
                },
                Parsed::Failed(e, m) => Parsed::Failed(e, m),
            }
        },
        Parsed::Failed(e, m) => Parsed::Failed(e, m),
    }
}

/// `reset q;`.
pub open spec fn read_reset(toks: Toks, p: int) -> Parsed<StmtModel> {
    let start = toks[p].span;
    match read_operand(toks, p + 1) {
        Parsed::Done(target, q) => match read_tok(toks, q, Token::Semicolon) {
            Parsed::Done(end, q2) => Parsed::Done(StmtModel::Reset { target, span: span_merge(start, end) }, q2),
            Parsed::Failed(e, m) => Parsed::Failed(e, m),
        },
        Parsed::Failed(e, m) => Parsed::Failed(e, m),
    }
}

/// `barrier q, ...;`.
pub open spec fn read_barrier(toks: Toks, p: int) -> Parsed<StmtModel> {
    let start = toks[p].span;
    match read_operand_list(toks, p + 1) {
        Parsed::Done(targets, q) => match read_tok(toks, q, Token::Semicolon) {
            Parsed::Done(end, q2) => Parsed::Done(StmtModel::Barrier { targets, span: span_merge(start, end) }, q2),
            Parsed::Failed(e, m) => Parsed::Failed(e, m),
        },
        Parsed::Failed(e, m) => Parsed::Failed(e, m),
    }
}

/// `delay[duration] q, ...;`.
pub open spec fn read_delay(toks: Toks, p: int) -> Parsed<StmtModel>
    decreases toks.len() - p, 25int,
{
    let start = toks[p].span;
    match read_tok(toks, p + 1, Token::LBracket) {
        Parsed::Done(_, q) => match read_expr(toks, q) {
            Parsed::Done(duration, q2) => match read_tok(toks, q2, Token::RBracket) {
                Parsed::Done(_, q3) => match read_operand_list(toks, q3) {
                    Parsed::Done(targets, q4) => match read_tok(toks, q4, Token::Semicolon) {
                        Parsed::Done(end, q5) => Parsed::Done(
                            StmtModel::Delay { duration, targets, span: span_merge(start, end) },
                            q5,
                        ),
                        Parsed::Failed(e, m) => Parsed::Failed(e, m),
                    },
                    Parsed::Failed(e, m) => Parsed::Failed(e, m),
                },
                Parsed::Failed(e, m) => Parsed::Failed(e, m),
            },
            Parsed::Failed(e, m) => Parsed::Failed(e, m),
        },
        Parsed::Failed(e, m) => Parsed::Failed(e, m),
    }
}

/// `if (condition) { ... } [else { ... }]`.
pub open spec fn read_if(toks: Toks, p: int) -> Parsed<StmtModel>
    decreases toks.len() - p, 25int,
{
    let start = toks[p].span;
    match read_tok(toks, p + 1, Token::LParen) {
        Parsed::Done(_, q) => match read_expr(toks, q) {
            Parsed::Done(condition, q2) => match read_tok(toks, q2, Token::RParen) {
                Parsed::Done(_, q3) => if moves(toks, p, q3) {
                    match read_block(toks, q3) {
                        Parsed::Done(then_body, q4) => {
                            let else_part: Parsed<Option<Seq<StmtModel>>> = if at_tok(toks, q4, Token::Else)
                                && moves(toks, p, q4) {
                                match read_block(toks, q4 + 1) {
                                    Parsed::Done(b, q5) => Parsed::Done(Some(b), q5),
                                    Parsed::Failed(e, m) => Parsed::Failed(e, m),
                                }
                            } else {
                                Parsed::Done(None, q4)
                            };
                            match else_part {
                                Parsed::Done(else_body, q5) => Parsed::Done(
                                    StmtModel::If {
                                        condition,
                                        then_body,
                                        else_body,
                                        span: span_merge(start, prev_span(toks, q5)),
                                    },
                                    q5,
                                ),
                                Parsed::Failed(e, m) => Parsed::Failed(e, m),
                            }
                        },
                        Parsed::Failed(e, m) => Parsed::Failed(e, m),
                    }
                } else {
                    Parsed::Failed(q3, stalled())
                },
                Parsed::Failed(e, m) => Parsed::Failed(e, m),
            },
            Parsed::Failed(e, m) => Parsed::Failed(e, m),
        },
        Parsed::Failed(e, m) => Parsed::Failed(e, m),
    }
}

/// `for type name in [start:end] { ... }` or `[start:step:end]`.
pub open spec fn read_for(toks: Toks, p: int) -> Parsed<StmtModel>
    decreases toks.len() - p, 25int,
{
    let start = toks[p].span;
    match type_at(toks, p + 1) {
        Some(var_ty) => match read_ident(toks, p + 2) {
            Parsed::Done((var_name, _), q) => match read_tok(toks, q, Token::In) {
                Parsed::Done(_, q1) => match read_tok(toks, q1, Token::LBracket) {
                    Parsed::Done(_, q2) => match read_expr(toks, q2) {
                        Parsed::Done(first, q3) => match read_tok(toks, q3, Token::Colon) {
                            Parsed::Done(_, q4) => if !moves(toks, p, q4) {
                                Parsed::Failed(q4, stalled())
                            } else {
                                match read_expr(toks, q4) {
                                Parsed::Done(second, q5) => {
                                    let range: Parsed<RangeModel> = if at_tok(toks, q5, Token::Colon) && moves(
                                        toks,
                                        p,
                                        q5,
                                    ) {
                                        match read_expr(toks, q5 + 1) {
                                            Parsed::Done(third, q6) => Parsed::Done(
                                                RangeModel { start: first, end: third, step: Some(second) },
                                                q6,
                                            ),
                                            Parsed::Failed(e, m) => Parsed::Failed(e, m),
                                        }
                                    } else {
                                        Parsed::Done(RangeModel { start: first, end: second, step: None }, q5)
                                    };
                                    match range {
                                        Parsed::Done(range, q6) => match read_tok(toks, q6, Token::RBracket) {
                                            Parsed::Done(_, q7) => if moves(toks, p, q7) {
                                                match read_block(toks, q7) {
                                                    Parsed::Done(body, q8) => Parsed::Done(
                                                        StmtModel::For {
                                                            var_name,
                                                            var_ty,
                                                            range,
                                                            body,
                                                            span: span_merge(start, prev_span(toks, q8)),
                                                        },
                                                        q8,
                                                    ),
                                                    Parsed::Failed(e, m) => Parsed::Failed(e, m),
                                                }
                                            } else {
                                                Parsed::Failed(q7, stalled())
                                            },
                                            Parsed::Failed(e, m) => Parsed::Failed(e, m),
                                        },
                                        Parsed::Failed(e, m) => Parsed::Failed(e, m),
                                    }
                                },
                                Parsed::Failed(e, m) => Parsed::Failed(e, m),
                            }
                            },
                            Parsed::Failed(e, m) => Parsed::Failed(e, m),
                        },
                        Parsed::Failed(e, m) => Parsed::Failed(e, m),
                    },
                    Parsed::Failed(e, m) => Parsed::Failed(e, m),
                },
                Parsed::Failed(e, m) => Parsed::Failed(e, m),
            },
            Parsed::Failed(e, m) => Parsed::Failed(e, m),
        },
        None => Parsed::Failed(p + 1, "expected type in for loop"@),
    }
}

/// `while (condition) { ... }`.
pub open spec fn read_while(toks: Toks, p: int) -> Parsed<StmtModel>
    decreases toks.len() - p, 25int,
{
    let start = toks[p].span;
    match read_tok(toks, p + 1, Token::LParen) {
        Parsed::Done(_, q) => match read_expr(toks, q) {
            Parsed::Done(condition, q2) => match read_tok(toks, q2, Token::RParen) {
                Parsed::Done(_, q3) => if moves(toks, p, q3) {
                    match read_block(toks, q3) {
                        Parsed::Done(body, q4) => Parsed::Done(
                            StmtModel::While { condition, body, span: span_merge(start, prev_span(toks, q4)) },
                            q4,
                        ),
                        Parsed::Failed(e, m) => Parsed::Failed(e, m),
                    }
                } else {
                    Parsed::Failed(q3, stalled())
                },
                Parsed::Failed(e, m) => Parsed::Failed(e, m),
            },
            Parsed::Failed(e, m) => Parsed::Failed(e, m),
        },
        Parsed::Failed(e, m) => Parsed::Failed(e, m),
    }
}

/// One statement, chosen by its first token.
pub open spec fn read_stmt(toks: Toks, p: int) -> Parsed<StmtModel>
    decreases toks.len() - p, 30int,
{
    match node_at(toks, p) {
        Some(Token::Include) => read_include(toks, p),
        Some(Token::Qubit) => read_decl(toks, p, true, false),
        Some(Token::Bit) => read_decl(toks, p, false, false),
        Some(Token::Qreg) => read_decl(toks, p, true, true),
        Some(Token::Creg) => read_decl(toks, p, false, true),
        Some(Token::Const) => read_classical_decl(toks, p, Some(ClassicalQualifier::Const)),
        Some(Token::Input) => read_classical_decl(toks, p, Some(ClassicalQualifier::Input)),
        Some(Token::Output) => read_classical_decl(toks, p, Some(ClassicalQualifier::Output)),
        Some(Token::Int) | Some(Token::UInt) | Some(Token::Float) | Some(Token::Angle) | Some(Token::Bool) => {
            read_classical_decl(toks, p, None)
        },
        Some(Token::Gate) => read_gate_def(toks, p),
        Some(Token::Def) => read_function_def(toks, p),
        Some(Token::Measure) => read_measure(toks, p),
        Some(Token::Reset) => read_reset(toks, p),
        Some(Token::Barrier) => read_barrier(toks, p),
        Some(Token::Delay) => read_delay(toks, p),
        Some(Token::If) => read_if(toks, p),
        Some(Token::For) => read_for(toks, p),
        Some(Token::While) => read_while(toks, p),
        Some(Token::Ctrl) | Some(Token::NegCtrl) | Some(Token::Inv) | Some(Token::Pow) => read_modified_call(toks, p),
        Some(Token::Ident(_)) => read_ident_stmt(toks, p),
        _ => Parsed::Failed(p, "unexpected token at statement level"@),
    }
}

// ── Programs ────────────────────────────────────────────────

/// `OPENQASM version;`: the version's decimal text for an integer version,
/// the canonical text of the number for a floating one.
pub open spec fn read_version(toks: Toks, p: int) -> Parsed<Seq<char>> {
    match read_tok(toks, p, Token::OpenQasm) {
        Parsed::Done(_, q) => {
            let v: Option<Seq<char>> = match node_at(toks, q) {
                Some(Token::FloatLiteral(lexeme)) => Some(float_text(vstd::utf8::encode_utf8(lexeme@))),
                Some(Token::IntLiteral(n)) => Some(decimal_text(n as nat)),
                _ => None,
            };
            match v {
                Some(text) => match read_tok(toks, q + 1, Token::Semicolon) {
                    Parsed::Done(_, q2) => Parsed::Done(text, q2),
                    Parsed::Failed(e, m) => Parsed::Failed(e, m),
                },
                None => Parsed::Failed(q, "expected version number after OPENQASM"@),
            }
        },
        Parsed::Failed(e, m) => Parsed::Failed(e, m),
    }
}

/// Statements to the end of the tokens, after the statements `acc`.
#[verifier::opaque]
pub open spec fn read_program_items(toks: Toks, acc: Seq<StmtModel>, q: int) -> Parsed<Seq<StmtModel>>
    decreases toks.len() - q, 40int,
{
    if q < 0 || q >= toks.len() {
        Parsed::Done(acc, q)
    } else {
        match read_stmt(toks, q) {
            Parsed::Done(s, q2) => if moves(toks, q, q2) {
                read_program_items(toks, acc.push(s), q2)
            } else {
                Parsed::Failed(q2, stalled())
            },
            Parsed::Failed(e, m) => Parsed::Failed(e, m),
        }
    }
}

/// A whole program: the version, then statements to the end.
pub open spec fn read_program(toks: Toks, p: int) -> Parsed<(Seq<char>, Seq<StmtModel>)> {
    match read_version(toks, p) {
        Parsed::Done(v, q) => match read_program_items(toks, seq![], q) {
            Parsed::Done(stmts, q2) => Parsed::Done((v, stmts), q2),
            Parsed::Failed(e, m) => Parsed::Failed(e, m),
        },
        Parsed::Failed(e, m) => Parsed::Failed(e, m),
    }
}

/// The position after the next `;` at or after `q` (or the end).
pub open spec fn sync_end(toks: Toks, q: int) -> int
    decreases toks.len() - q,
{
    if q < 0 || q >= toks.len() {
        q
    } else if toks[q].node == Token::Semicolon {
        q + 1
    } else {
        sync_end(toks, q + 1)
    }
}

/// Statements to the end, recovering after each failure at the next `;`:
/// the statements read and the positions of the failures, after `stmts`
/// and `errs`.
#[verifier::opaque]
pub open spec fn read_recovering_items(toks: Toks, stmts: Seq<StmtModel>, errs: Seq<(int, Seq<char>)>, q: int) -> (
    Seq<StmtModel>,
    Seq<(int, Seq<char>)>,
)
    decreases toks.len() - q,
{
    if q < 0 || q >= toks.len() {
        (stmts, errs)
    } else {
        match read_stmt(toks, q) {
            Parsed::Done(s, q2) => if moves(toks, q, q2) {
                read_recovering_items(toks, stmts.push(s), errs, q2)
            } else {
                (stmts, errs)
            },
            Parsed::Failed(e, m) => {
                let q2 = sync_end(toks, e);
                if moves(toks, q, q2) {
                    read_recovering_items(toks, stmts, errs.push((e, m)), q2)
                } else {
                    (stmts, errs.push((e, m)))
                }
            },
        }
    }
}

/// Where statements start when a program is read with recovery: after the
/// version, or after the next `;` when the version fails, with that failure.
pub open spec fn recovering_start(toks: Toks, p: int) -> (int, Seq<(int, Seq<char>)>) {
    match read_version(toks, p) {
        Parsed::Done(_, q) => (q, seq![]),
        Parsed::Failed(e, m) => (sync_end(toks, e), seq![(e, m)]),
    }
}

/// A whole program read with recovery: its statements, and the position and
/// message of each failure.
pub open spec fn read_recovering(toks: Toks, p: int) -> (Seq<StmtModel>, Seq<(int, Seq<char>)>) {
    let (q, errs) = recovering_start(toks, p);
    read_recovering_items(toks, seq![], errs, q)
}

} // verus!

verus! {

/// One step of reading a block's statements, where neither a `}` nor the
/// end is next.
pub proof fn lemma_block_items_step(toks: Toks, acc: Seq<StmtModel>, q: int, gate_body: bool)
    requires
        !(at_tok(toks, q, Token::RBrace) || q >= toks.len() || q < 0),
    ensures
        read_block_items(toks, acc, q, gate_body) == match (if gate_body {
            read_gate_body_stmt(toks, q)
        } else {
            read_stmt(toks, q)
        }) {
            Parsed::Done(s, q2) => if moves(toks, q, q2) {
                read_block_items(toks, acc.push(s), q2, gate_body)
            } else {
                Parsed::Failed(q2, stalled())
            },
            Parsed::Failed(e, m) => Parsed::Failed(e, m),
        },
{
}

/// One step of reading a program's statements with recovery, where a token
/// is left.
pub proof fn lemma_recovering_step(toks: Toks, stmts: Seq<StmtModel>, errs: Seq<(int, Seq<char>)>, q: int)
    requires
        0 <= q < toks.len(),
    ensures
        read_recovering_items(toks, stmts, errs, q) == match read_stmt(toks, q) {
            Parsed::Done(s, q2) => if moves(toks, q, q2) {
                read_recovering_items(toks, stmts.push(s), errs, q2)
            } else {
                (stmts, errs)
            },
            Parsed::Failed(e, m) => if moves(toks, q, sync_end(toks, e)) {
                read_recovering_items(toks, stmts, errs.push((e, m)), sync_end(toks, e))
            } else {
                (stmts, errs.push((e, m)))
            },
        },
{
    reveal(read_recovering_items);
}

/// The token that writes an arithmetic operator.
pub open spec fn op_token(op: BinOp) -> Token {
    match op {
        BinOp::Add => Token::Plus,
        BinOp::Sub => Token::Minus,
        BinOp::Mul => Token::Star,
        BinOp::Div => Token::Slash,
        BinOp::Pow => Token::DoubleStar,
    }
}

/// An addition or a subtraction.
pub open spec fn is_sum_op(op: BinOp) -> bool {
    op is Add || op is Sub
}

/// A multiplication or a division.
pub open spec fn is_product_op(op: BinOp) -> bool {
    op is Mul || op is Div
}

/// The expression `l op r` as the reader builds it.
pub open spec fn binop_model(op: BinOp, l: ExprModel, r: ExprModel) -> ExprModel {
    ExprModel::BinOp {
        op,
        lhs: Box::new(l),
        rhs: Box::new(r),
        span: span_merge(expr_model_span(l), expr_model_span(r)),
    }
}

/// How tightly an arithmetic operator binds: sums, then products, then powers.
pub open spec fn op_level(op: BinOp) -> int {
    match op {
        BinOp::Add | BinOp::Sub => 1,
        BinOp::Mul | BinOp::Div => 2,
        BinOp::Pow => 3,
    }
}

/// Whether `a o1 b o2 c` groups as `a o1 (b o2 c)`: the second operator binds
/// tighter than the first, or both are powers, which group to the right.
pub open spec fn groups_right(o1: BinOp, o2: BinOp) -> bool {
    op_level(o1) < op_level(o2) || (o1 is Pow && o2 is Pow)
}

/// Operator precedence and grouping: three one-token operands with two
/// arithmetic operators between them, `a o1 b o2 c`, read as `a o1 (b o2 c)`
/// where the second operator binds tighter (or both are powers), and as
/// `(a o1 b) o2 c` otherwise, so sums and products group to the left.
pub proof fn law_operator_grouping(
    toks: Toks,
    p: int,
    o1: BinOp,
    o2: BinOp,
    a: ExprModel,
    b: ExprModel,
    c: ExprModel,
)
    requires
        0 <= p,
        read_prefix(toks, p) == Parsed::Done(a, p + 1),
        node_at(toks, p + 1) == Some(op_token(o1)),
        read_prefix(toks, p + 2) == Parsed::Done(b, p + 3),
        node_at(toks, p + 3) == Some(op_token(o2)),
        read_prefix(toks, p + 4) == Parsed::Done(c, p + 5),
        bin_op_at(toks, p + 5) is None,
        compare_op_at(toks, p + 5) is None,
    ensures
        groups_right(o1, o2) ==> read_expr(toks, p) == Parsed::Done(
            binop_model(o1, a, binop_model(o2, b, c)),
            p + 5,
        ),
        !groups_right(o1, o2) ==> read_expr(toks, p) == Parsed::Done(
            binop_model(o2, binop_model(o1, a, b), c),
            p + 5,
        ),
{
    let (op1, l1, r1) = bin_op_at(toks, p + 1)->0;
    let (op2, l2, r2) = bin_op_at(toks, p + 3)->0;
    assert(bin_op_at(toks, p + 1) == Some((o1, l1, r1)));
    assert(bin_op_at(toks, p + 3) == Some((o2, l2, r2)));
    assert(groups_right(o1, o2) <==> l2 >= r1);
    let s;
    if l2 >= r1 {
        let m = binop_model(o2, b, c);
        s = binop_model(o1, a, m);
        assert(read_binop_tail(toks, c, p + 5, r2) == Parsed::Done(c, p + 5));
        assert(read_expr_bp(toks, p + 4, r2) == Parsed::Done(c, p + 5));
        assert(read_binop_tail(toks, m, p + 5, r1) == Parsed::Done(m, p + 5));
        assert(read_binop_tail(toks, b, p + 3, r1) == Parsed::Done(m, p + 5));
        assert(read_expr_bp(toks, p + 2, r1) == Parsed::Done(m, p + 5));
        assert(read_binop_tail(toks, s, p + 5, 0) == Parsed::Done(s, p + 5));
        assert(read_binop_tail(toks, a, p + 1, 0) == Parsed::Done(s, p + 5));
    } else {
        let m = binop_model(o1, a, b);
        s = binop_model(o2, m, c);
        assert(read_binop_tail(toks, b, p + 3, r1) == Parsed::Done(b, p + 3));
        assert(read_expr_bp(toks, p + 2, r1) == Parsed::Done(b, p + 3));
        assert(read_binop_tail(toks, c, p + 5, r2) == Parsed::Done(c, p + 5));
        assert(read_expr_bp(toks, p + 4, r2) == Parsed::Done(c, p + 5));
        assert(read_binop_tail(toks, s, p + 5, 0) == Parsed::Done(s, p + 5));
        assert(read_binop_tail(toks, m, p + 3, 0) == Parsed::Done(s, p + 5));
        assert(read_binop_tail(toks, a, p + 1, 0) == Parsed::Done(s, p + 5));
    }
    assert(read_expr_bp(toks, p, 0) == Parsed::Done(s, p + 5));
    assert(read_compare_tail(toks, s, p + 5) == Parsed::Done(s, p + 5));
    assert(read_comparison(toks, p) == Parsed::Done(s, p + 5));
}

/// Multiplication and division bind tighter than addition and subtraction:
/// three one-token operands written `a + b * c` (with `+` or `-`, and `*` or
/// `/`) read as a sum whose right operand is the product of `b` and `c`.
pub proof fn law_product_binds_tighter_on_right(
    toks: Toks,
    p: int,
    sum: BinOp,
    product: BinOp,
    a: ExprModel,
    b: ExprModel,
    c: ExprModel,
)
    requires
        0 <= p,
        is_sum_op(sum),
        is_product_op(product),
        read_prefix(toks, p) == Parsed::Done(a, p + 1),
        node_at(toks, p + 1) == Some(op_token(sum)),
        read_prefix(toks, p + 2) == Parsed::Done(b, p + 3),
        node_at(toks, p + 3) == Some(op_token(product)),
        read_prefix(toks, p + 4) == Parsed::Done(c, p + 5),
        bin_op_at(toks, p + 5) is None,
        compare_op_at(toks, p + 5) is None,
    ensures
        read_expr(toks, p) == Parsed::Done(binop_model(sum, a, binop_model(product, b, c)), p + 5),
{
    law_operator_grouping(toks, p, sum, product, a, b, c);
}

/// Multiplication and division bind tighter than addition and subtraction:
/// three one-token operands written `a * b + c` (with `*` or `/`, and `+` or
/// `-`) read as a sum whose left operand is the product of `a` and `b`.
pub proof fn law_product_binds_tighter_on_left(
    toks: Toks,
    p: int,
    product: BinOp,
    sum: BinOp,
    a: ExprModel,
    b: ExprModel,
    c: ExprModel,
)
    requires
        0 <= p,
        is_sum_op(sum),
        is_product_op(product),
        read_prefix(toks, p) == Parsed::Done(a, p + 1),
        node_at(toks, p + 1) == Some(op_token(product)),
        read_prefix(toks, p + 2) == Parsed::Done(b, p + 3),
        node_at(toks, p + 3) == Some(op_token(sum)),
        read_prefix(toks, p + 4) == Parsed::Done(c, p + 5),
        bin_op_at(toks, p + 5) is None,
        compare_op_at(toks, p + 5) is None,
    ensures
        read_expr(toks, p) == Parsed::Done(binop_model(sum, binop_model(product, a, b), c), p + 5),
{
    law_operator_grouping(toks, p, product, sum, a, b, c);
}

} // verus!
