//! Pretty-printer: emit canonical OpenQASM 3 from the AST.

use vstd::prelude::*;

use crate::ast::{
    assign_op_text, bin_op_text, classical_type_text, compare_op_text, const_kind_text, expr_span,
    qualifier_text, ClassicalType, Expr, GateModifier, GateOperand, Program, Stmt,
};
use crate::text::{decimal_text, push_u64};

verus! {

broadcast use vstd::seq::group_seq_axioms;

/// Text of an operand: `q`, `q[1]` or `q[0:2]`.
pub open spec fn operand_text(op: GateOperand) -> Seq<char> {
    match op.index {
        Some(i) => op.name@ + "["@ + decimal_text(i as nat) + "]"@,
        None => match op.slice {
            Some((a, b)) => op.name@ + "["@ + decimal_text(a as nat) + ":"@ + decimal_text(
                b as nat,
            ) + "]"@,
            None => op.name@,
        },
    }
}

/// Text of an expression; nested arithmetic is parenthesized.
pub open spec fn expr_text(e: Expr) -> Seq<char>
    decreases e, 0nat,
{
    match e {
        Expr::IntLit(n, _) => decimal_text(n as nat),
        Expr::FloatLit(t, _) => t@,
        Expr::BoolLit(b, _) => if b {
            "true"@
        } else {
            "false"@
        },
        Expr::Ident(name, _) => name@,
        Expr::Index { name, index, .. } => name@ + "["@ + decimal_text(index as nat) + "]"@,
        Expr::Call { name, args, .. } => {
            proof {
                assert(decreases_to!(e => args));
                assert(decreases_to!(args => args@));
            }
            name@ + "("@ + args_text(args@) + ")"@
        },
        Expr::Const(k, _) => const_kind_text(k),
        Expr::Neg(inner, _) => if is_operation(*inner) {
            "-"@ + "("@ + expr_text(*inner) + ")"@
        } else {
            "-"@ + expr_text(*inner)
        },
        Expr::BinOp { op, lhs, rhs, .. } => operand_side(*lhs) + " "@ + bin_op_text(op) + " "@
            + operand_side(*rhs),
        Expr::Compare { op, lhs, rhs, .. } => expr_text(*lhs) + " "@ + compare_op_text(op) + " "@
            + expr_text(*rhs),
    }
}

/// An operand of an arithmetic operator, parenthesized when it is itself arithmetic.
pub open spec fn operand_side(e: Expr) -> Seq<char>
    decreases e, 1nat,
{
    if e is BinOp {
        "("@ + expr_text(e) + ")"@
    } else {
        expr_text(e)
    }
}

pub open spec fn is_operation(e: Expr) -> bool {
    e is BinOp || e is Compare
}

/// Comma-separated texts of call arguments.
pub open spec fn args_text(args: Seq<Expr>) -> Seq<char>
    decreases args, 0nat,
{
    if args.len() == 0 {
        Seq::empty()
    } else if args.len() == 1 {
        proof {
            assert(decreases_to!(args => args[0]));
        }
        expr_text(args[0])
    } else {
        proof {
            assert(decreases_to!(args => args.drop_last()));
            assert(decreases_to!(args => args[args.len() - 1]));
        }
        args_text(args.drop_last()) + ", "@ + expr_text(args.last())
    }
}

/// `new` starts with `old`.
pub open spec fn extends(old: Seq<char>, new: Seq<char>) -> bool {
    &&& old.len() <= new.len()
    &&& forall|i: int| 0 <= i < old.len() ==> new[i] == old[i]
}

/// Two spaces per nesting level.
pub open spec fn indent_text(depth: nat) -> Seq<char>
    decreases depth,
{
    if depth == 0 {
        seq![]
    } else {
        indent_text((depth - 1) as nat) + "  "@
    }
}

/// Text of a modifier, followed by ` @ `.
pub open spec fn modifier_text(m: GateModifier) -> Seq<char> {
    match m {
        GateModifier::Ctrl(arg, _) => "ctrl"@ + opt_arg_text(arg) + " @ "@,
        GateModifier::NegCtrl(arg, _) => "negctrl"@ + opt_arg_text(arg) + " @ "@,
        GateModifier::Inv(_) => "inv @ "@,
        GateModifier::Pow(e, _) => "pow("@ + expr_text(e) + ") @ "@,
    }
}

/// `(e)` for a present argument, nothing otherwise.
pub open spec fn opt_arg_text(arg: Option<Expr>) -> Seq<char> {
    match arg {
        Some(e) => "("@ + expr_text(e) + ")"@,
        None => Seq::empty(),
    }
}

/// The texts of the modifiers, one after another.
pub open spec fn modifiers_text(ms: Seq<GateModifier>) -> Seq<char>
    decreases ms.len(),
{
    if ms.len() == 0 {
        Seq::empty()
    } else {
        modifiers_text(ms.drop_last()) + modifier_text(ms.last())
    }
}

/// Comma-separated texts of operands.
pub open spec fn operands_text(ops: Seq<GateOperand>) -> Seq<char>
    decreases ops.len(),
{
    if ops.len() == 0 {
        Seq::empty()
    } else if ops.len() == 1 {
        operand_text(ops[0])
    } else {
        operands_text(ops.drop_last()) + ", "@ + operand_text(ops.last())
    }
}

/// Comma-separated names.
pub open spec fn joined_text(names: Seq<String>) -> Seq<char>
    decreases names.len(),
{
    if names.len() == 0 {
        Seq::empty()
    } else if names.len() == 1 {
        names[0]@
    } else {
        joined_text(names.drop_last()) + ", "@ + names.last()@
    }
}

/// Comma-separated typed parameters of a function.
pub open spec fn fn_params_text(ps: Seq<(ClassicalType, String)>) -> Seq<char>
    decreases ps.len(),
{
    if ps.len() == 0 {
        Seq::empty()
    } else if ps.len() == 1 {
        classical_type_text(ps[0].0) + " "@ + ps[0].1@
    } else {
        fn_params_text(ps.drop_last()) + ", "@ + classical_type_text(ps.last().0) + " "@ + ps.last().1@
    }
}

/// `step:` for a range with a step, nothing otherwise.
pub open spec fn step_text(step: Option<Expr>) -> Seq<char> {
    match step {
        Some(st) => expr_text(st) + ":"@,
        None => Seq::empty(),
    }
}

/// The nesting level inside a block (it stops growing at the largest `usize`).
pub open spec fn inner_depth(depth: int) -> int {
    if depth < usize::MAX {
        depth + 1
    } else {
        depth
    }
}

/// `[n]` for a declared size, nothing otherwise.
pub open spec fn size_text(size: Option<u64>) -> Seq<char> {
    match size {
        Some(n) => "["@ + decimal_text(n as nat) + "]"@,
        None => Seq::empty(),
    }
}

/// Text of a statement at nesting level `depth`, ending with a newline.
pub open spec fn stmt_text(s: Stmt, depth: int) -> Seq<char>
    decreases s, 2nat,
{
    indent_text(depth as nat) + stmt_body_text(s, depth)
}

/// Text of a statement after its indentation.
pub open spec fn stmt_body_text(s: Stmt, depth: int) -> Seq<char>
    decreases s, 1nat,
{
    match s {
        Stmt::Include { path, .. } => "include \""@ + path@ + "\";\n"@,
        Stmt::QubitDecl { name, size, .. } => "qubit"@ + size_text(size) + " "@ + name@ + ";\n"@,
        Stmt::BitDecl { name, size, .. } => "bit"@ + size_text(size) + " "@ + name@ + ";\n"@,
        Stmt::ClassicalDecl { qualifier, ty, name, init, .. } => (match qualifier {
            Some(q) => qualifier_text(q) + " "@,
            None => Seq::empty(),
        }) + classical_type_text(ty) + " "@ + name@ + (match init {
            Some(e) => " = "@ + expr_text(e),
            None => Seq::empty(),
        }) + ";\n"@,
        Stmt::Assignment { name, op, value, .. } => name@ + " "@ + assign_op_text(op) + " "@ + expr_text(value)
            + ";\n"@,
        Stmt::GateCall { name, modifiers, params, args, .. } => modifiers_text(modifiers@) + name@ + (if params@.len()
            > 0 {
            "("@ + args_text(params@) + ")"@
        } else {
            Seq::empty()
        }) + " "@ + operands_text(args@) + ";\n"@,
        Stmt::GateDef { name, params, qparams, body, .. } => {
            proof {
                assert(decreases_to!(s => body));
                assert(decreases_to!(body => body@));
            }
            "gate "@ + name@ + (if params@.len() > 0 {
                "("@ + joined_text(params@) + ")"@
            } else {
                Seq::empty()
            }) + (if qparams@.len() > 0 {
                " "@ + joined_text(qparams@)
            } else {
                Seq::empty()
            }) + " {\n"@ + block_text(body@, depth) + indent_text(depth as nat) + "}\n"@
        },
        Stmt::FunctionDef { name, params, return_type, body, .. } => "def "@ + name@ + "("@ + fn_params_text(
            params@,
        ) + ") -> "@ + classical_type_text(return_type) + " {\n"@ + indent_text(inner_depth(depth) as nat)
            + "return "@ + expr_text(body) + ";\n"@ + indent_text(depth as nat) + "}\n"@,
        Stmt::Measure { qubit, target, .. } => (match target {
            Some(t) => operand_text(t) + " = measure "@,
            None => "measure "@,
        }) + operand_text(qubit) + ";\n"@,
        Stmt::Reset { target, .. } => "reset "@ + operand_text(target) + ";\n"@,
        Stmt::Barrier { targets, .. } => "barrier "@ + operands_text(targets@) + ";\n"@,
        Stmt::Delay { duration, targets, .. } => "delay["@ + expr_text(duration) + "] "@ + operands_text(
            targets@,
        ) + ";\n"@,
        Stmt::If { condition, then_body, else_body, .. } => {
            proof {
                assert(decreases_to!(s => then_body));
                assert(decreases_to!(then_body => then_body@));
            }
            "if ("@ + expr_text(condition) + ") {\n"@ + block_text(then_body@, depth) + indent_text(
                depth as nat,
            ) + match else_body {
                Some(e) => {
                    proof {
                        assert(decreases_to!(s => else_body));
                        assert(decreases_to!(else_body => e));
                        assert(decreases_to!(e => e@));
                    }
                    "} else {\n"@ + block_text(e@, depth) + indent_text(depth as nat) + "}\n"@
                },
                None => "}\n"@,
            }
        },
        Stmt::For { var_name, var_ty, range, body, .. } => {
            proof {
                assert(decreases_to!(s => body));
                assert(decreases_to!(body => body@));
            }
            "for "@ + classical_type_text(var_ty) + " "@ + var_name@ + " in ["@ + expr_text(range.start) + ":"@
                + step_text(range.step) + expr_text(range.end) + "] {\n"@ + block_text(body@, depth) + indent_text(depth as nat)
                + "}\n"@
        },
        Stmt::While { condition, body, .. } => {
            proof {
                assert(decreases_to!(s => body));
                assert(decreases_to!(body => body@));
            }
            "while ("@ + expr_text(condition) + ") {\n"@ + block_text(body@, depth) + indent_text(
                depth as nat,
            ) + "}\n"@
        },
    }
}

/// The statements of a block, one level deeper than `depth`.
pub open spec fn block_text(stmts: Seq<Stmt>, depth: int) -> Seq<char>
    decreases stmts, 0nat,
{
    if stmts.len() == 0 {
        Seq::empty()
    } else {
        proof {
            assert(decreases_to!(stmts => stmts.drop_last()));
            assert(decreases_to!(stmts => stmts[stmts.len() - 1]));
        }
        block_text(stmts.drop_last(), depth) + stmt_text(stmts.last(), inner_depth(depth))
    }
}

/// The statements of a program, each after a blank line.
pub open spec fn program_body_text(stmts: Seq<Stmt>) -> Seq<char>
    decreases stmts.len(),
{
    if stmts.len() == 0 {
        Seq::empty()
    } else {
        program_body_text(stmts.drop_last()) + "\n"@ + stmt_text(stmts.last(), 0)
    }
}

/// Text of a whole program.
pub open spec fn program_text(p: Program) -> Seq<char> {
    "OPENQASM "@ + p.version@ + ";\n"@ + program_body_text(p.statements@)
}

/// Append two spaces per nesting level.
pub fn indent(out: &mut String, depth: usize)
    ensures
        final(out)@ == old(out)@ + indent_text(depth as nat),
        final(out)@.len() == old(out)@.len() + 2 * depth,
        extends(old(out)@, final(out)@),
{
    let mut i: usize = 0;
    proof {
        reveal_strlit("  ");
    }
    assert(out@ =~= old(out)@ + indent_text(0));
    while i < depth
        invariant
            i <= depth,
            out@ == old(out)@ + indent_text(i as nat),
            out@.len() == old(out)@.len() + 2 * i,
            extends(old(out)@, out@),
            "  "@.len() == 2,
        decreases depth - i,
    {
        out.append("  ");
        assert(out@ =~= old(out)@ + indent_text((i + 1) as nat));
        i += 1;
    }
}

/// Append the text of an operand.
pub fn emit_operand(out: &mut String, op: &GateOperand)
    ensures
        final(out)@ == old(out)@ + operand_text(*op),
{
    out.append(op.name.as_str());
    match op.index {
        Some(i) => {
            out.append("[");
            push_u64(out, i);
            out.append("]");
        },
        None => match op.slice {
            Some((a, b)) => {
                out.append("[");
                push_u64(out, a);
                out.append(":");
                push_u64(out, b);
                out.append("]");
            },
            None => {},
        },
    }
    proof {
        assert(final(out)@ =~= old(out)@ + operand_text(*op));
    }
}

/// Append comma-separated operands.
pub fn emit_operand_list(out: &mut String, ops: &Vec<GateOperand>)
    ensures
        final(out)@ == old(out)@ + operands_text(ops@),
{
    let ghost head = out@;
    let mut i: usize = 0;
    assert(ops@.take(0) =~= Seq::<GateOperand>::empty());
    while i < ops.len()
        invariant
            i <= ops@.len(),
            out@ == head + operands_text(ops@.take(i as int)),
        decreases ops@.len() - i,
    {
        proof {
            assert(ops@.take(i + 1).drop_last() =~= ops@.take(i as int));
            assert(ops@.take(i + 1).last() == ops@[i as int]);
        }
        if i > 0 {
            out.append(", ");
        }
        emit_operand(out, &ops[i]);
        proof {
            if i == 0 {
                assert(ops@.take(1)[0] == ops@[0]);
            }
            assert(out@ =~= head + operands_text(ops@.take(i + 1)));
        }
        i += 1;
    }
    assert(ops@.take(ops@.len() as int) =~= ops@);
}

/// Append the text of an expression.
#[verifier::loop_isolation(false)]
#[verifier::rlimit(60)]
pub fn emit_expr(out: &mut String, expr: &Expr)
    ensures
        final(out)@ == old(out)@ + expr_text(*expr),
    decreases expr,
{
    let ghost start = out@;
    match expr {
        Expr::IntLit(n, _) => push_u64(out, *n),
        Expr::FloatLit(t, _) => out.append(t.as_str()),
        Expr::BoolLit(b, _) => out.append(
            if *b {
                "true"
            } else {
                "false"
            },
        ),
        Expr::Ident(name, _) => out.append(name.as_str()),
        Expr::Index { name, index, .. } => {
            out.append(name.as_str());
            out.append("[");
            push_u64(out, *index);
            out.append("]");
            assert(out@ =~= start + expr_text(*expr));
        },
        Expr::Call { name, args, .. } => {
            out.append(name.as_str());
            out.append("(");
            let ghost head = out@;
            let mut i: usize = 0;
            while i < args.len()
                invariant
                    i <= args.len(),
                    out@ == head + args_text(args@.subrange(0, i as int)),
                decreases args.len() - i,
            {
                proof {
                    assert(decreases_to!(expr => *args));
                    assert(decreases_to!(args => args@));
                    assert(decreases_to!(args@ => args@[i as int]));
                    assert(args@.subrange(0, i + 1).drop_last() =~= args@.subrange(0, i as int));
                }
                let ghost before = out@;
                if i > 0 {
                    out.append(", ");
                }
                emit_expr(out, &args[i]);
                proof {
                    if i == 0 {
                        assert(args@.subrange(0, 1) =~= seq![args@[0]]);
                        assert(out@ =~= head + args_text(args@.subrange(0, 1)));
                    } else {
                        assert(out@ =~= head + args_text(args@.subrange(0, i + 1)));
                    }
                }
                i += 1;
            }
            assert(args@.subrange(0, args@.len() as int) =~= args@);
            out.append(")");
            assert(out@ =~= start + expr_text(*expr));
        },
        Expr::Const(kind, _) => out.append(kind.text()),
        Expr::Neg(inner, _) => {
            out.append("-");
            let needs_parens = matches!(**inner, Expr::BinOp { .. } | Expr::Compare { .. });
            if needs_parens {
                out.append("(");
            }
            emit_expr(out, inner);
            if needs_parens {
                out.append(")");
            }
            assert(out@ =~= start + expr_text(*expr));
        },
        Expr::BinOp { op, lhs, rhs, .. } => {
            let needs_parens_lhs = matches!(**lhs, Expr::BinOp { .. });
            let needs_parens_rhs = matches!(**rhs, Expr::BinOp { .. });
            let ghost s0 = out@;
            if needs_parens_lhs {
                out.append("(");
            }
            emit_expr(out, lhs);
            if needs_parens_lhs {
                out.append(")");
            }
            assert(out@ =~= s0 + operand_side(**lhs));
            let ghost s1 = out@;
            out.append(" ");
            out.append(op.text());
            out.append(" ");
            if needs_parens_rhs {
                out.append("(");
            }
            emit_expr(out, rhs);
            if needs_parens_rhs {
                out.append(")");
            }
            assert(out@ =~= s1 + " "@ + bin_op_text(*op) + " "@ + operand_side(**rhs));
            assert(out@ =~= start + expr_text(*expr));
        },
        Expr::Compare { op, lhs, rhs, .. } => {
            emit_expr(out, lhs);
            out.append(" ");
            out.append(op.text());
            out.append(" ");
            emit_expr(out, rhs);
            assert(out@ =~= start + expr_text(*expr));
        },
    }
}

/// Append a gate modifier followed by ` @ `.
pub fn emit_modifier(out: &mut String, m: &GateModifier)
    ensures
        final(out)@ == old(out)@ + modifier_text(*m),
{
    let ghost start = out@;
    match m {
        GateModifier::Ctrl(arg, _) => {
            out.append("ctrl");
            if let Some(e) = arg {
                out.append("(");
                emit_expr(out, e);
                out.append(")");
            }
            out.append(" @ ");
        },
        GateModifier::NegCtrl(arg, _) => {
            out.append("negctrl");
            if let Some(e) = arg {
                out.append("(");
                emit_expr(out, e);
                out.append(")");
            }
            out.append(" @ ");
        },
        GateModifier::Inv(_) => {
            out.append("inv @ ");
        },
        GateModifier::Pow(e, _) => {
            out.append("pow(");
            emit_expr(out, e);
            out.append(") @ ");
        },
    }
    assert(out@ =~= start + modifier_text(*m));
}

#[verifier::loop_isolation(false)]
fn emit_block(out: &mut String, stmts: &Vec<Stmt>, depth: usize)
    ensures
        final(out)@ == old(out)@ + block_text(stmts@, depth as int),
    decreases stmts, 0nat,
{
    let ghost head = out@;
    let mut i: usize = 0;
    assert(stmts@.take(0) =~= Seq::<Stmt>::empty());
    while i < stmts.len()
        invariant
            i <= stmts@.len(),
            out@ == head + block_text(stmts@.take(i as int), depth as int),
        decreases stmts@.len() - i,
    {
        proof {
            assert(decreases_to!(stmts => stmts@));
            assert(decreases_to!(stmts@ => stmts@[i as int]));
            assert(stmts@.take(i + 1).drop_last() =~= stmts@.take(i as int));
            assert(stmts@.take(i + 1).last() == stmts@[i as int]);
        }
        emit_stmt(out, &stmts[i], depth.saturating_add(1));
        assert(out@ =~= head + block_text(stmts@.take(i + 1), depth as int));
        i += 1;
    }
    assert(stmts@.take(stmts@.len() as int) =~= stmts@);
}

/// Append a statement at nesting level `depth`, ending with a newline.
pub fn emit_stmt(out: &mut String, stmt: &Stmt, depth: usize)
    ensures
        final(out)@ == old(out)@ + stmt_text(*stmt, depth as int),
    decreases stmt, 2nat,
{
    let ghost entry = out@;
    indent(out, depth);
    match stmt {
        Stmt::Include { .. } | Stmt::QubitDecl { .. } | Stmt::BitDecl { .. } | Stmt::ClassicalDecl { .. }
        | Stmt::Assignment { .. } => emit_declaration(out, stmt, depth),
        Stmt::GateCall { .. } => emit_gate_call(out, stmt, depth),
        Stmt::GateDef { .. } => emit_gate_def(out, stmt, depth),
        Stmt::FunctionDef { .. } => emit_function_def(out, stmt, depth),
        Stmt::Measure { .. } | Stmt::Reset { .. } | Stmt::Barrier { .. } | Stmt::Delay { .. } => emit_operation(
            out,
            stmt,
            depth,
        ),
        Stmt::If { .. } => emit_if(out, stmt, depth),
        Stmt::For { .. } => emit_for(out, stmt, depth),
        Stmt::While { .. } => emit_while(out, stmt, depth),
    }
    assert(out@ =~= entry + stmt_text(*stmt, depth as int));
}

/// Append a declaration or an assignment.
fn emit_declaration(out: &mut String, stmt: &Stmt, depth: usize)
    requires
        stmt is Include || stmt is QubitDecl || stmt is BitDecl || stmt is ClassicalDecl || stmt is Assignment,
    ensures
        final(out)@ == old(out)@ + stmt_body_text(*stmt, depth as int),
{
    let ghost start = out@;
    match stmt {
        Stmt::Include { path, .. } => {
            out.append("include \"");
            out.append(path.as_str());
            out.append("\";\n");
        },
        Stmt::QubitDecl { name, size, .. } => {
            out.append("qubit");
            if let Some(n) = size {
                out.append("[");
                push_u64(out, *n);
                out.append("]");
            }
            out.append(" ");
            out.append(name.as_str());
            out.append(";\n");
        },
        Stmt::BitDecl { name, size, .. } => {
            out.append("bit");
            if let Some(n) = size {
                out.append("[");
                push_u64(out, *n);
                out.append("]");
            }
            out.append(" ");
            out.append(name.as_str());
            out.append(";\n");
        },
        Stmt::ClassicalDecl { qualifier, ty, name, init, .. } => {
            if let Some(q) = qualifier {
                out.append(q.text());
                out.append(" ");
            }
            out.append(ty.text());
            out.append(" ");
            out.append(name.as_str());
            if let Some(expr) = init {
                out.append(" = ");
                emit_expr(out, expr);
            }
            out.append(";\n");
        },
        Stmt::Assignment { name, op, value, .. } => {
            out.append(name.as_str());
            out.append(" ");
            out.append(op.text());
            out.append(" ");
            emit_expr(out, value);
            out.append(";\n");
        },
        _ => {},
    }
    assert(out@ =~= start + stmt_body_text(*stmt, depth as int));
}

/// Append a gate call: modifiers, name, parameters and operands.
#[verifier::loop_isolation(false)]
fn emit_gate_call(out: &mut String, stmt: &Stmt, depth: usize)
    requires
        stmt is GateCall,
    ensures
        final(out)@ == old(out)@ + stmt_body_text(*stmt, depth as int),
{
    let ghost start = out@;
    match stmt {
        Stmt::GateCall { name, modifiers, params, args, .. } => {
            let mut i: usize = 0;
            assert(modifiers@.take(0) =~= Seq::<GateModifier>::empty());
            while i < modifiers.len()
                invariant
                    i <= modifiers@.len(),
                    out@ == start + modifiers_text(modifiers@.take(i as int)),
                decreases modifiers@.len() - i,
            {
                proof {
                    assert(modifiers@.take(i + 1).drop_last() =~= modifiers@.take(i as int));
                    assert(modifiers@.take(i + 1).last() == modifiers@[i as int]);
                }
                emit_modifier(out, &modifiers[i]);
                assert(out@ =~= start + modifiers_text(modifiers@.take(i + 1)));
                i += 1;
            }
            assert(modifiers@.take(modifiers@.len() as int) =~= modifiers@);
            out.append(name.as_str());
            let ghost named = out@;
            if params.len() > 0 {
                out.append("(");
                let ghost open_paren = out@;
                let mut j: usize = 0;
                assert(params@.take(0) =~= Seq::<Expr>::empty());
                while j < params.len()
                    invariant
                        j <= params@.len(),
                        out@ == open_paren + args_text(params@.take(j as int)),
                    decreases params@.len() - j,
                {
                    proof {
                        assert(params@.take(j + 1).drop_last() =~= params@.take(j as int));
                        assert(params@.take(j + 1).last() == params@[j as int]);
                    }
                    if j > 0 {
                        out.append(", ");
                    }
                    emit_expr(out, &params[j]);
                    proof {
                        if j == 0 {
                            assert(params@.take(1)[0] == params@[0]);
                        }
                        assert(out@ =~= open_paren + args_text(params@.take(j + 1)));
                    }
                    j += 1;
                }
                assert(params@.take(params@.len() as int) =~= params@);
                out.append(")");
            }
            let ghost with_params = out@;
            out.append(" ");
            emit_operand_list(out, args);
            out.append(";\n");
            proof {
                assert(with_params =~= named + (if params@.len() > 0 {
                    "("@ + args_text(params@) + ")"@
                } else {
                    Seq::empty()
                }));
            }
        },
        _ => {},
    }
    assert(out@ =~= start + stmt_body_text(*stmt, depth as int));
}

/// Append a measurement, reset, barrier or delay.
fn emit_operation(out: &mut String, stmt: &Stmt, depth: usize)
    requires
        stmt is Measure || stmt is Reset || stmt is Barrier || stmt is Delay,
    ensures
        final(out)@ == old(out)@ + stmt_body_text(*stmt, depth as int),
{
    let ghost start = out@;
    match stmt {
        Stmt::Measure { qubit, target, .. } => {
            if let Some(t) = target {
                emit_operand(out, t);
                out.append(" = measure ");
            } else {
                out.append("measure ");
            }
            emit_operand(out, qubit);
            out.append(";\n");
        },
        Stmt::Reset { target, .. } => {
            out.append("reset ");
            emit_operand(out, target);
            out.append(";\n");
        },
        Stmt::Barrier { targets, .. } => {
            out.append("barrier ");
            emit_operand_list(out, targets);
            out.append(";\n");
        },
        Stmt::Delay { duration, targets, .. } => {
            out.append("delay[");
            emit_expr(out, duration);
            out.append("] ");
            emit_operand_list(out, targets);
            out.append(";\n");
        },
        _ => {},
    }
    assert(out@ =~= start + stmt_body_text(*stmt, depth as int));
}

/// Append a gate definition with its body.
fn emit_gate_def(out: &mut String, stmt: &Stmt, depth: usize)
    requires
        stmt is GateDef,
    ensures
        final(out)@ == old(out)@ + stmt_body_text(*stmt, depth as int),
    decreases stmt, 1nat,
{
    if let Stmt::GateDef { name, params, qparams, body, .. } = stmt {
        let ghost start = out@;
        out.append("gate ");
        out.append(name.as_str());
        if params.len() > 0 {
            out.append("(");
            push_joined(out, params);
            out.append(")");
        }
        let ghost p1 = out@;
        let ghost ptext = if params@.len() > 0 {
            "("@ + joined_text(params@) + ")"@
        } else {
            Seq::<char>::empty()
        };
        assert(p1 =~= start + "gate "@ + name@ + ptext);
        if qparams.len() > 0 {
            out.append(" ");
            push_joined(out, qparams);
        }
        let ghost qtext = if qparams@.len() > 0 {
            " "@ + joined_text(qparams@)
        } else {
            Seq::<char>::empty()
        };
        assert(out@ =~= p1 + qtext);
        out.append(" {\n");
        proof {
            assert(decreases_to!(stmt => *body));
        }
        let ghost p2 = out@;
        emit_block(out, body, depth);
        indent(out, depth);
        out.append("}\n");
        assert(out@ =~= p2 + block_text(body@, depth as int) + indent_text(depth as nat) + "}\n"@);
        assert(out@ =~= start + ("gate "@ + name@ + ptext + qtext + " {\n"@ + block_text(body@, depth as int)
            + indent_text(depth as nat) + "}\n"@));
    }
}

/// Append comma-separated typed parameters.
fn push_fn_params(out: &mut String, params: &Vec<(ClassicalType, String)>)
    ensures
        final(out)@ == old(out)@ + fn_params_text(params@),
{
    let ghost open_paren = out@;
    let mut i: usize = 0;
    assert(params@.take(0) =~= Seq::<(ClassicalType, String)>::empty());
    while i < params.len()
        invariant
            i <= params@.len(),
            out@ == open_paren + fn_params_text(params@.take(i as int)),
        decreases params@.len() - i,
    {
        proof {
            assert(params@.take(i + 1).drop_last() =~= params@.take(i as int));
            assert(params@.take(i + 1).last() == params@[i as int]);
        }
        if i > 0 {
            out.append(", ");
        }
        out.append(params[i].0.text());
        out.append(" ");
        out.append(params[i].1.as_str());
        proof {
            if i == 0 {
                assert(params@.take(1)[0] == params@[0]);
            }
            assert(out@ =~= open_paren + fn_params_text(params@.take(i + 1)));
        }
        i += 1;
    }
    assert(params@.take(params@.len() as int) =~= params@);
}

/// Append a function definition.
fn emit_function_def(out: &mut String, stmt: &Stmt, depth: usize)
    requires
        stmt is FunctionDef,
    ensures
        final(out)@ == old(out)@ + stmt_body_text(*stmt, depth as int),
{
    if let Stmt::FunctionDef { name, params, return_type, body, .. } = stmt {
        let ghost start = out@;
        out.append("def ");
        out.append(name.as_str());
        out.append("(");
        push_fn_params(out, params);
        let ghost p1 = out@;
        out.append(") -> ");
        out.append(return_type.text());
        out.append(" {\n");
        indent(out, depth.saturating_add(1));
        out.append("return ");
        emit_expr(out, body);
        out.append(";\n");
        indent(out, depth);
        out.append("}\n");
        assert(out@ =~= p1 + ") -> "@ + classical_type_text(*return_type) + " {\n"@ + indent_text(
            inner_depth(depth as int) as nat,
        ) + "return "@ + expr_text(*body) + ";\n"@ + indent_text(depth as nat) + "}\n"@);
        assert(out@ =~= start + ("def "@ + name@ + "("@ + fn_params_text(params@) + ") -> "@ + classical_type_text(
            *return_type,
        ) + " {\n"@ + indent_text(inner_depth(depth as int) as nat) + "return "@ + expr_text(*body) + ";\n"@
            + indent_text(depth as nat) + "}\n"@));
    }
}

/// Append a conditional with its branches.
fn emit_if(out: &mut String, stmt: &Stmt, depth: usize)
    requires
        stmt is If,
    ensures
        final(out)@ == old(out)@ + stmt_body_text(*stmt, depth as int),
    decreases stmt, 1nat,
{
    if let Stmt::If { condition, then_body, else_body, .. } = stmt {
        let ghost start = out@;
        out.append("if (");
        emit_expr(out, condition);
        out.append(") {\n");
        proof {
            assert(decreases_to!(stmt => *then_body));
        }
        emit_block(out, then_body, depth);
        indent(out, depth);
        let ghost p1 = out@;
        assert(p1 =~= start + "if ("@ + expr_text(*condition) + ") {\n"@ + block_text(then_body@, depth as int)
            + indent_text(depth as nat));
        if let Some(else_stmts) = else_body {
            out.append("} else {\n");
            proof {
                assert(decreases_to!(stmt => *else_body));
                assert(decreases_to!(*else_body => *else_stmts));
            }
            emit_block(out, else_stmts, depth);
            indent(out, depth);
            out.append("}\n");
            assert(out@ =~= p1 + ("} else {\n"@ + block_text(else_stmts@, depth as int) + indent_text(depth as nat)
                + "}\n"@));
        } else {
            out.append("}\n");
        }
    }
}

/// Append a counted loop with its body.
fn emit_for(out: &mut String, stmt: &Stmt, depth: usize)
    requires
        stmt is For,
    ensures
        final(out)@ == old(out)@ + stmt_body_text(*stmt, depth as int),
    decreases stmt, 1nat,
{
    if let Stmt::For { var_name, var_ty, range, body, .. } = stmt {
        let ghost start = out@;
        out.append("for ");
        out.append(var_ty.text());
        out.append(" ");
        out.append(var_name.as_str());
        out.append(" in [");
        emit_expr(out, &range.start);
        out.append(":");
        let ghost p1 = out@;
        if let Some(step) = &range.step {
            emit_expr(out, step);
            out.append(":");
        }
        let ghost steptext = step_text(range.step);
        assert(out@ =~= p1 + steptext);
        let ghost p2 = out@;
        emit_expr(out, &range.end);
        out.append("] {\n");
        proof {
            assert(decreases_to!(stmt => *body));
        }
        emit_block(out, body, depth);
        indent(out, depth);
        out.append("}\n");
        assert(out@ =~= p2 + expr_text(range.end) + "] {\n"@ + block_text(body@, depth as int) + indent_text(
            depth as nat,
        ) + "}\n"@);
        assert(out@ =~= start + ("for "@ + classical_type_text(*var_ty) + " "@ + var_name@ + " in ["@ + expr_text(
            range.start,
        ) + ":"@ + steptext + expr_text(range.end) + "] {\n"@ + block_text(body@, depth as int) + indent_text(
            depth as nat,
        ) + "}\n"@));
    }
}

/// Append a conditional loop with its body.
fn emit_while(out: &mut String, stmt: &Stmt, depth: usize)
    requires
        stmt is While,
    ensures
        final(out)@ == old(out)@ + stmt_body_text(*stmt, depth as int),
    decreases stmt, 1nat,
{
    if let Stmt::While { condition, body, .. } = stmt {
        let ghost start = out@;
        out.append("while (");
        emit_expr(out, condition);
        out.append(") {\n");
        proof {
            assert(decreases_to!(stmt => *body));
        }
        emit_block(out, body, depth);
        indent(out, depth);
        out.append("}\n");
        assert(out@ =~= start + ("while ("@ + expr_text(*condition) + ") {\n"@ + block_text(body@, depth as int)
            + indent_text(depth as nat) + "}\n"@));
    }
}

/// Append names separated by `, `.
fn push_joined(out: &mut String, names: &Vec<String>)
    ensures
        final(out)@ == old(out)@ + joined_text(names@),
{
    let ghost head = out@;
    let mut i: usize = 0;
    assert(names@.take(0) =~= Seq::<String>::empty());
    while i < names.len()
        invariant
            i <= names@.len(),
            out@ == head + joined_text(names@.take(i as int)),
        decreases names@.len() - i,
    {
        proof {
            assert(names@.take(i + 1).drop_last() =~= names@.take(i as int));
            assert(names@.take(i + 1).last() == names@[i as int]);
        }
        if i > 0 {
            out.append(", ");
        }
        out.append(names[i].as_str());
        proof {
            if i == 0 {
                assert(names@.take(1)[0] == names@[0]);
            }
            assert(out@ =~= head + joined_text(names@.take(i + 1)));
        }
        i += 1;
    }
    assert(names@.take(names@.len() as int) =~= names@);
}

/// Emit a whole program: the version header, then each statement after a blank line.
pub fn emit(program: &Program) -> (r: String)
    ensures
        r@ == program_text(*program),
{
    let mut out = String::new();
    out.append("OPENQASM ");
    out.append(program.version.as_str());
    out.append(";\n");
    let ghost head = out@;
    assert(head =~= "OPENQASM "@ + program.version@ + ";\n"@);
    let stmts = &program.statements;
    let mut i: usize = 0;
    assert(stmts@.take(0) =~= Seq::<Stmt>::empty());
    while i < stmts.len()
        invariant
            i <= stmts@.len(),
            out@ == head + program_body_text(stmts@.take(i as int)),
        decreases stmts@.len() - i,
    {
        proof {
            assert(stmts@.take(i + 1).drop_last() =~= stmts@.take(i as int));
            assert(stmts@.take(i + 1).last() == stmts@[i as int]);
        }
        out.append("\n");
        emit_stmt(&mut out, &stmts[i], 0);
        assert(out@ =~= head + program_body_text(stmts@.take(i + 1)));
        i += 1;
    }
    assert(stmts@.take(stmts@.len() as int) =~= stmts@);
    out
}

} // verus!
