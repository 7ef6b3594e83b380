//! Inlining of user-defined OpenQASM gates and expression functions.

use vstd::prelude::*;

use crate::ast::{clone_operands, clone_opt_expr, clone_stmt, clone_stmts, function_def_name, Expr, GateModifier, GateOperand, Program, Stmt};
use crate::names::NameMap;
use crate::syntax::{
    expr_model, exprs_model, lemma_stmts_model_push, range_model, stmts_model, RangeModel, lemma_exprs_model_push, modifier_model, modifiers_model, opt_expr_model, operand_model,
    operands_model, stmt_model, ExprModel, ModifierModel, OperandModel, StmtModel,
};
use crate::text::{str_eq, string_of};

verus! {

broadcast use vstd::seq::group_seq_axioms;

#[derive(Debug)]
pub struct InlineError {
    pub message: String,
}

impl InlineError {
    /// The error as a line of text.
    pub fn describe(&self) -> (r: String)
        ensures
            r@ == "inlining error: "@ + self.message@,
    {
        let mut out = string_of("inlining error: ");
        out.append(self.message.as_str());
        out
    }
}

// ── Names ───────────────────────────────────────────────────

/// The texts of a list of names.
pub open spec fn names_of(v: Seq<String>) -> Seq<Seq<char>> {
    v.map_values(|s: String| s@)
}

/// The definitions being expanded: distinct names, each one defined.
pub open spec fn stack_ok<V>(stack: Seq<String>, defs: NameMap<V>) -> bool {
    &&& names_of(stack).no_duplicates()
    &&& forall|k: int| 0 <= k < stack.len() ==> defs@.contains_key(#[trigger] names_of(stack)[k])
}

fn contains_name(names: &Vec<String>, name: &str) -> (r: bool)
    ensures
        r == names_of(names@).contains(name@),
{
    let mut i: usize = 0;
    while i < names.len()
        invariant
            i <= names@.len(),
            forall|k: int| 0 <= k < i ==> names_of(names@)[k] != name@,
        decreases names@.len() - i,
    {
        if str_eq(names[i].as_str(), name) {
            assert(names_of(names@)[i as int] == name@);
            return true;
        }
        i += 1;
    }
    false
}

fn copy_names(v: &Vec<String>) -> (r: Vec<String>)
    ensures
        names_of(r@) == names_of(v@),
{
    let mut out: Vec<String> = Vec::new();
    let mut i: usize = 0;
    while i < v.len()
        invariant
            i <= v@.len(),
            out@.len() == i,
            forall|j: int| 0 <= j < i ==> #[trigger] out@[j]@ == v@[j]@,
        decreases v@.len() - i,
    {
        out.push(v[i].clone());
        i += 1;
    }
    assert(names_of(out@) =~= names_of(v@));
    out
}

/// `stack` extended by `name`, for a name that is defined and not yet on it.
fn push_name<V>(stack: &Vec<String>, name: &String, Ghost(defs): Ghost<NameMap<V>>) -> (r: Vec<String>)
    requires
        stack_ok(stack@, defs),
        defs@.contains_key(name@),
        !names_of(stack@).contains(name@),
    ensures
        stack_ok(r@, defs),
        r@.len() == stack@.len() + 1,
        names_of(r@) == names_of(stack@).push(name@),
{
    let mut inner = copy_names(stack);
    inner.push(name.clone());
    proof {
        assert(names_of(inner@) =~= names_of(stack@).push(name@));
        assert forall|a: int, b: int|
            0 <= a < b < inner@.len() implies names_of(inner@)[a] != names_of(inner@)[b] by {
            if b == inner@.len() - 1 {
                assert(names_of(stack@)[a] == names_of(inner@)[a]);
            }
        }
    }
    inner
}

/// The position of the last binding of `name` in `names`.
pub open spec fn last_index(names: Seq<Seq<char>>, name: Seq<char>) -> Option<int>
    decreases names.len(),
{
    if names.len() == 0 {
        None
    } else if names.last() == name {
        Some(names.len() - 1)
    } else {
        last_index(names.drop_last(), name)
    }
}

proof fn lemma_last_index(names: Seq<Seq<char>>, name: Seq<char>, j: int)
    requires
        0 <= j <= names.len(),
        forall|k: int| j <= k < names.len() ==> names[k] != name,
    ensures
        last_index(names, name) == last_index(names.take(j), name),
    decreases names.len() - j,
{
    if j == names.len() {
        assert(names.take(j) =~= names);
    } else {
        lemma_last_index(names.drop_last(), name, j);
        assert(names.drop_last().take(j) =~= names.take(j));
    }
}

proof fn lemma_last_index_bound(names: Seq<Seq<char>>, name: Seq<char>)
    ensures
        last_index(names, name) matches Some(i) ==> 0 <= i < names.len() && names[i] == name,
        last_index(names, name) is None ==> !names.contains(name),
    decreases names.len(),
{
    if names.len() > 0 && names.last() != name {
        lemma_last_index_bound(names.drop_last(), name);
        if names.contains(name) {
            let k = choose|k: int| 0 <= k < names.len() && names[k] == name;
            assert(names.drop_last()[k] == name);
        }
    }
}

/// The position of the last binding of `name` among `names`.
fn last_binding(names: &Vec<String>, name: &str) -> (r: Option<usize>)
    ensures
        r matches Some(i) ==> i < names@.len() && names_of(names@)[i as int] == name@,
        r is None ==> !names_of(names@).contains(name@),
        r matches Some(i) ==> last_index(names_of(names@), name@) == Some(i as int),
        r is None ==> last_index(names_of(names@), name@) is None,
{
    let mut i: usize = names.len();
    while i > 0
        invariant
            i <= names@.len(),
            forall|k: int| i <= k < names@.len() ==> names_of(names@)[k] != name@,
        decreases i,
    {
        if str_eq(names[i - 1].as_str(), name) {
            proof {
                lemma_last_index(names_of(names@), name@, i as int);
                assert(names_of(names@).take(i as int).last() == name@);
            }
            return Some(i - 1);
        }
        i -= 1;
    }
    proof {
        lemma_last_index(names_of(names@), name@, 0);
        lemma_last_index_bound(names_of(names@), name@);
    }
    None
}

// ── Substitution ────────────────────────────────────────────

/// `e` with every identifier bound in `names` replaced by the matching
/// actual, the last binding of a repeated name winning.
pub open spec fn subst_model(e: ExprModel, names: Seq<Seq<char>>, actuals: Seq<ExprModel>) -> ExprModel
    decreases e,
{
    match e {
        ExprModel::Ident(n, _) => match last_index(names, n) {
            Some(i) => actuals[i],
            None => e,
        },
        ExprModel::Neg(inner, s) => ExprModel::Neg(Box::new(subst_model(*inner, names, actuals)), s),
        ExprModel::BinOp { op, lhs, rhs, span } => ExprModel::BinOp {
            op,
            lhs: Box::new(subst_model(*lhs, names, actuals)),
            rhs: Box::new(subst_model(*rhs, names, actuals)),
            span,
        },
        ExprModel::Compare { op, lhs, rhs, span } => ExprModel::Compare {
            op,
            lhs: Box::new(subst_model(*lhs, names, actuals)),
            rhs: Box::new(subst_model(*rhs, names, actuals)),
            span,
        },
        ExprModel::Call { name, args, span } => {
            proof {
                assert(decreases_to!(e => args));
            }
            ExprModel::Call { name, args: subst_models(args, names, actuals), span }
        },
        _ => e,
    }
}

/// Each expression substituted.
pub open spec fn subst_models(v: Seq<ExprModel>, names: Seq<Seq<char>>, actuals: Seq<ExprModel>) -> Seq<ExprModel>
    decreases v,
{
    if v.len() == 0 {
        seq![]
    } else {
        proof {
            assert(decreases_to!(v => v.drop_last()));
            assert(decreases_to!(v => v[v.len() - 1]));
        }
        subst_models(v.drop_last(), names, actuals).push(subst_model(v.last(), names, actuals))
    }
}

pub open spec fn subst_opt(e: Option<ExprModel>, names: Seq<Seq<char>>, actuals: Seq<ExprModel>) -> Option<ExprModel> {
    match e {
        Some(x) => Some(subst_model(x, names, actuals)),
        None => None,
    }
}

pub open spec fn subst_modifier(m: ModifierModel, names: Seq<Seq<char>>, actuals: Seq<ExprModel>) -> ModifierModel {
    match m {
        ModifierModel::Ctrl(e, s) => ModifierModel::Ctrl(subst_opt(e, names, actuals), s),
        ModifierModel::NegCtrl(e, s) => ModifierModel::NegCtrl(subst_opt(e, names, actuals), s),
        ModifierModel::Inv(s) => ModifierModel::Inv(s),
        ModifierModel::Pow(e, s) => ModifierModel::Pow(subst_model(e, names, actuals), s),
    }
}

/// An operand named by a bound qubit parameter becomes the matching actual
/// operand.
pub open spec fn subst_operand(o: OperandModel, qnames: Seq<Seq<char>>, qactuals: Seq<OperandModel>) -> OperandModel {
    match last_index(qnames, o.name) {
        Some(q) => qactuals[q],
        None => o,
    }
}

/// A gate-body statement with its gate's formal parameters and qubits
/// replaced by a call's actual arguments: only gate calls change, in their
/// modifiers, parameters and operands.
pub open spec fn subst_stmt(
    s: StmtModel,
    names: Seq<Seq<char>>,
    actuals: Seq<ExprModel>,
    qnames: Seq<Seq<char>>,
    qactuals: Seq<OperandModel>,
) -> StmtModel {
    match s {
        StmtModel::GateCall { name, modifiers, params, args, span } => StmtModel::GateCall {
            name,
            modifiers: modifiers.map_values(|m: ModifierModel| subst_modifier(m, names, actuals)),
            params: subst_models(params, names, actuals),
            args: args.map_values(|o: OperandModel| subst_operand(o, qnames, qactuals)),
            span,
        },
        _ => s,
    }
}

proof fn lemma_subst_models_push(v: Seq<ExprModel>, x: ExprModel, names: Seq<Seq<char>>, actuals: Seq<ExprModel>)
    ensures
        subst_models(v.push(x), names, actuals) == subst_models(v, names, actuals).push(subst_model(x, names, actuals)),
{
    assert(v.push(x).drop_last() =~= v);
}

proof fn lemma_subst_models_len(v: Seq<ExprModel>, names: Seq<Seq<char>>, actuals: Seq<ExprModel>)
    ensures
        subst_models(v, names, actuals).len() == v.len(),
    decreases v.len(),
{
    if v.len() > 0 {
        lemma_subst_models_len(v.drop_last(), names, actuals);
    }
}

/// `e` with every identifier bound in `names` replaced by the matching
/// actual (the last binding of a repeated name wins).
#[verifier::loop_isolation(false)]
fn substitute_expr(e: &Expr, names: &Vec<String>, actuals: &Vec<Expr>) -> (r: Expr)
    requires
        names@.len() == actuals@.len(),
    ensures
        expr_model(r) == subst_model(expr_model(*e), names_of(names@), exprs_model(actuals@)),
    decreases e,
{
    proof {
        lemma_exprs_model_len(actuals@);
    }
    match e {
        Expr::Ident(n, s) => {
            let ns = n.as_str();
            let b = last_binding(names, ns);
            assert(ns@ == n@);
            match b {
                Some(i) => {
                    proof {
                        lemma_exprs_model_index(actuals@, i as int);
                        lemma_last_index_bound(names_of(names@), n@);
                        assert(last_index(names_of(names@), n@) == Some(i as int));
                    }
                    let r = actuals[i].clone();
                    assert(expr_model(r) == exprs_model(actuals@)[i as int]);
                    r
                },
                None => {
                    assert(last_index(names_of(names@), n@) is None);
                    Expr::Ident(n.clone(), *s)
                },
            }
        },
        Expr::Neg(inner, s) => Expr::Neg(Box::new(substitute_expr(inner, names, actuals)), *s),
        Expr::BinOp { op, lhs, rhs, span } => Expr::BinOp {
            op: *op,
            lhs: Box::new(substitute_expr(lhs, names, actuals)),
            rhs: Box::new(substitute_expr(rhs, names, actuals)),
            span: *span,
        },
        Expr::Compare { op, lhs, rhs, span } => Expr::Compare {
            op: *op,
            lhs: Box::new(substitute_expr(lhs, names, actuals)),
            rhs: Box::new(substitute_expr(rhs, names, actuals)),
            span: *span,
        },
        Expr::Call { name, args, span } => {
            let ghost nm = names_of(names@);
            let ghost am = exprs_model(actuals@);
            let mut out: Vec<Expr> = Vec::new();
            let mut i: usize = 0;
            assert(args@.take(0) =~= Seq::<Expr>::empty());
            while i < args.len()
                invariant
                    i <= args@.len(),
                    names@.len() == actuals@.len(),
                    nm == names_of(names@),
                    am == exprs_model(actuals@),
                    exprs_model(out@) == subst_models(exprs_model(args@.take(i as int)), nm, am),
                decreases args@.len() - i,
            {
                proof {
                    assert(decreases_to!(e => *args));
                    assert(decreases_to!(args => args@));
                    assert(decreases_to!(args@ => args@[i as int]));
                }
                let ghost before = out@;
                let x = substitute_expr(&args[i], names, actuals);
                out.push(x);
                proof {
                    assert(args@.take(i + 1) =~= args@.take(i as int).push(args@[i as int]));
                    lemma_exprs_model_push(args@.take(i as int), args@[i as int]);
                    lemma_exprs_model_push(before, x);
                    assert(out@ =~= before.push(x));
                    lemma_subst_models_push(exprs_model(args@.take(i as int)), expr_model(args@[i as int]), nm, am);
                }
                i += 1;
            }
            assert(args@.take(i as int) =~= args@);
            Expr::Call { name: name.clone(), args: out, span: *span }
        },
        _ => e.clone(),
    }
}

proof fn lemma_exprs_model_len(v: Seq<Expr>)
    ensures
        exprs_model(v).len() == v.len(),
    decreases v.len(),
{
    if v.len() > 0 {
        lemma_exprs_model_len(v.drop_last());
    }
}

proof fn lemma_exprs_model_index(v: Seq<Expr>, i: int)
    requires
        0 <= i < v.len(),
    ensures
        exprs_model(v)[i] == expr_model(v[i]),
    decreases v.len(),
{
    lemma_exprs_model_len(v.drop_last());
    if i < v.len() - 1 {
        lemma_exprs_model_index(v.drop_last(), i);
    }
}

fn substitute_exprs(v: &Vec<Expr>, names: &Vec<String>, actuals: &Vec<Expr>) -> (r: Vec<Expr>)
    requires
        names@.len() == actuals@.len(),
    ensures
        r@.len() == v@.len(),
        exprs_model(r@) == subst_models(exprs_model(v@), names_of(names@), exprs_model(actuals@)),
{
    let ghost nm = names_of(names@);
    let ghost am = exprs_model(actuals@);
    let mut out: Vec<Expr> = Vec::new();
    let mut i: usize = 0;
    assert(v@.take(0) =~= Seq::<Expr>::empty());
    while i < v.len()
        invariant
            i <= v@.len(),
            out@.len() == i,
            names@.len() == actuals@.len(),
            nm == names_of(names@),
            am == exprs_model(actuals@),
            exprs_model(out@) == subst_models(exprs_model(v@.take(i as int)), nm, am),
        decreases v@.len() - i,
    {
        let ghost before = out@;
        let x = substitute_expr(&v[i], names, actuals);
        out.push(x);
        proof {
            assert(v@.take(i + 1) =~= v@.take(i as int).push(v@[i as int]));
            lemma_exprs_model_push(v@.take(i as int), v@[i as int]);
            lemma_exprs_model_push(before, x);
            assert(out@ =~= before.push(x));
            lemma_subst_models_push(exprs_model(v@.take(i as int)), expr_model(v@[i as int]), nm, am);
        }
        i += 1;
    }
    assert(v@.take(i as int) =~= v@);
    out
}

fn substitute_opt_expr(e: &Option<Expr>, names: &Vec<String>, actuals: &Vec<Expr>) -> (r: Option<Expr>)
    requires
        names@.len() == actuals@.len(),
    ensures
        opt_expr_model(r) == subst_opt(opt_expr_model(*e), names_of(names@), exprs_model(actuals@)),
{
    match e {
        Some(x) => Some(substitute_expr(x, names, actuals)),
        None => None,
    }
}

fn substitute_modifier(m: &GateModifier, names: &Vec<String>, actuals: &Vec<Expr>) -> (r: GateModifier)
    requires
        names@.len() == actuals@.len(),
    ensures
        modifier_model(r) == subst_modifier(modifier_model(*m), names_of(names@), exprs_model(actuals@)),
{
    match m {
        GateModifier::Ctrl(arg, s) => GateModifier::Ctrl(substitute_opt_expr(arg, names, actuals), *s),
        GateModifier::NegCtrl(arg, s) => GateModifier::NegCtrl(substitute_opt_expr(arg, names, actuals), *s),
        GateModifier::Inv(s) => GateModifier::Inv(*s),
        GateModifier::Pow(x, s) => GateModifier::Pow(substitute_expr(x, names, actuals), *s),
    }
}

/// A gate-body statement with the formal parameters and qubits of its gate
/// replaced by a call's actual arguments. Only gate calls mention them.
fn substitute_statement(
    s: &Stmt,
    params: &Vec<String>,
    actuals: &Vec<Expr>,
    qparams: &Vec<String>,
    qactuals: &Vec<GateOperand>,
) -> (r: Stmt)
    requires
        params@.len() == actuals@.len(),
        qparams@.len() == qactuals@.len(),
    ensures
        stmt_model(r) == subst_stmt(
            stmt_model(*s),
            names_of(params@),
            exprs_model(actuals@),
            names_of(qparams@),
            operands_model(qactuals@),
        ),
{
    let ghost nm = names_of(params@);
    let ghost am = exprs_model(actuals@);
    let ghost qm = names_of(qparams@);
    let ghost qa = operands_model(qactuals@);
    match s {
        Stmt::GateCall { name, modifiers, params: arguments, args, span } => {
            let mut mods: Vec<GateModifier> = Vec::new();
            let mut i: usize = 0;
            while i < modifiers.len()
                invariant
                    i <= modifiers@.len(),
                    params@.len() == actuals@.len(),
                    nm == names_of(params@),
                    am == exprs_model(actuals@),
                    mods@.len() == i,
                    forall|k: int|
                        0 <= k < i ==> #[trigger] modifier_model(mods@[k]) == subst_modifier(
                            modifier_model(modifiers@[k]),
                            nm,
                            am,
                        ),
                decreases modifiers@.len() - i,
            {
                let ghost before = mods@;
                mods.push(substitute_modifier(&modifiers[i], params, actuals));
                assert forall|k: int| 0 <= k < i + 1 implies #[trigger] modifier_model(mods@[k]) == subst_modifier(
                    modifier_model(modifiers@[k]),
                    nm,
                    am,
                ) by {
                    if k < i {
                        assert(mods@[k] == before[k]);
                    }
                }
                i += 1;
            }
            let mut operands: Vec<GateOperand> = Vec::new();
            let mut j: usize = 0;
            while j < args.len()
                invariant
                    j <= args@.len(),
                    qparams@.len() == qactuals@.len(),
                    qm == names_of(qparams@),
                    qa == operands_model(qactuals@),
                    operands@.len() == j,
                    forall|k: int|
                        0 <= k < j ==> #[trigger] operand_model(operands@[k]) == subst_operand(
                            operand_model(args@[k]),
                            qm,
                            qa,
                        ),
                decreases args@.len() - j,
            {
                let ghost before = operands@;
                let aname = args[j].name.as_str();
                let found = last_binding(qparams, aname);
                proof {
                    lemma_last_index_bound(qm, aname@);
                }
                let operand = match found {
                    Some(q) => {
                        assert(qa[q as int] == operand_model(qactuals@[q as int]));
                        qactuals[q].clone()
                    },
                    None => args[j].clone(),
                };
                operands.push(operand);
                assert forall|k: int| 0 <= k < j + 1 implies #[trigger] operand_model(operands@[k]) == subst_operand(
                    operand_model(args@[k]),
                    qm,
                    qa,
                ) by {
                    if k < j {
                        assert(operands@[k] == before[k]);
                    }
                }
                j += 1;
            }
            let ps = substitute_exprs(arguments, params, actuals);
            let r = Stmt::GateCall { name: name.clone(), modifiers: mods, params: ps, args: operands, span: *span };
            proof {
                assert(modifiers_model(mods@) =~= modifiers_model(modifiers@).map_values(
                    |m: ModifierModel| subst_modifier(m, nm, am),
                ));
                assert(operands_model(operands@) =~= operands_model(args@).map_values(
                    |o: OperandModel| subst_operand(o, qm, qa),
                ));
            }
            r
        },
        _ => clone_stmt(s),
    }
}

// ── Gate inlining ───────────────────────────────────────────

/// The formal parameters, qubits and body of a gate definition.
struct GateDefinition {
    params: Vec<String>,
    qparams: Vec<String>,
    body: Vec<Stmt>,
}

/// The names of the gates defined at the top level of `stmts`.
pub open spec fn gate_names(stmts: Seq<Stmt>) -> Set<Seq<char>> {
    Set::new(|n: Seq<char>| exists|i: int| 0 <= i < stmts.len() && #[trigger] gate_def_name(stmts[i]) == Some(n))
}

/// The name of a gate definition.
pub open spec fn gate_def_name(s: Stmt) -> Option<Seq<char>> {
    match s {
        Stmt::GateDef { name, .. } => Some(name@),
        _ => None,
    }
}

/// No statement calls a gate named in `defined` without modifiers; bodies of
/// conditionals and loops are looked into, gate bodies are not.
pub open spec fn gates_settled(stmts: Seq<Stmt>, defined: Set<Seq<char>>) -> bool
    decreases stmts, 0nat,
{
    if stmts.len() == 0 {
        true
    } else {
        proof {
            assert(decreases_to!(stmts => stmts.drop_last()));
            assert(decreases_to!(stmts => stmts[stmts.len() - 1]));
        }
        gates_settled(stmts.drop_last(), defined) && gate_settled(stmts.last(), defined)
    }
}

/// The statement calls no gate named in `defined` without modifiers.
pub open spec fn gate_settled(s: Stmt, defined: Set<Seq<char>>) -> bool
    decreases s, 1nat,
{
    match s {
        Stmt::GateCall { name, modifiers, .. } => !(modifiers@.len() == 0 && defined.contains(name@)),
        Stmt::If { then_body, else_body, .. } => {
            proof {
                assert(decreases_to!(s => then_body));
                assert(decreases_to!(then_body => then_body@));
            }
            &&& gates_settled(then_body@, defined)
            &&& match else_body {
                Some(e) => {
                    proof {
                        assert(decreases_to!(s => else_body));
                        assert(decreases_to!(else_body => e));
                        assert(decreases_to!(e => e@));
                    }
                    gates_settled(e@, defined)
                },
                None => true,
            }
        },
        Stmt::For { body, .. } => {
            proof {
                assert(decreases_to!(s => body));
                assert(decreases_to!(body => body@));
            }
            gates_settled(body@, defined)
        },
        Stmt::While { body, .. } => {
            proof {
                assert(decreases_to!(s => body));
                assert(decreases_to!(body => body@));
            }
            gates_settled(body@, defined)
        },
        _ => true,
    }
}

proof fn lemma_settled_append(v: Seq<Stmt>, w: Seq<Stmt>, defined: Set<Seq<char>>)
    requires
        gates_settled(v, defined),
        gates_settled(w, defined),
    ensures
        gates_settled(v + w, defined),
    decreases w.len(),
{
    if w.len() == 0 {
        assert(v + w =~= v);
    } else {
        lemma_settled_append(v, w.drop_last(), defined);
        assert((v + w).drop_last() =~= v + w.drop_last());
        assert((v + w).last() == w.last());
    }
}

/// The error text for a gate that reaches itself through its own body.
pub open spec fn gate_recursion_message(name: Seq<char>) -> Seq<char> {
    "recursive gate definition involving `"@ + name + "`"@
}

/// The error text for a gate call whose argument counts differ from the
/// definition's.
pub open spec fn gate_arity_message(name: Seq<char>) -> Seq<char> {
    "arity mismatch while inlining gate `"@ + name + "`"@
}

/// `m` is the text of a gate inlining failure for a gate of `defined`.
pub open spec fn gate_failure(m: Seq<char>, defined: Set<Seq<char>>) -> bool {
    exists|n: Seq<char>|
        #![trigger defined.contains(n)]
        defined.contains(n) && (m == gate_recursion_message(n) || m == gate_arity_message(n))
}

/// A gate definition as text: its parameters, its qubits and its body.
pub type GateModel = (Seq<Seq<char>>, Seq<Seq<char>>, Seq<StmtModel>);

/// The gates defined at the top level of `stmts`, by name; a later
/// definition of a name replaces an earlier one.
pub open spec fn gate_table(stmts: Seq<Stmt>) -> Map<Seq<char>, GateModel>
    decreases stmts.len(),
{
    if stmts.len() == 0 {
        Map::empty()
    } else {
        let t = gate_table(stmts.drop_last());
        match stmts.last() {
            Stmt::GateDef { name, params, qparams, body, .. } => t.insert(
                name@,
                (names_of(params@), names_of(qparams@), stmts_model(body@)),
            ),
            _ => t,
        }
    }
}

spec fn def_table(m: Map<Seq<char>, GateDefinition>) -> Map<Seq<char>, GateModel> {
    m.map_values(|d: GateDefinition| (names_of(d.params@), names_of(d.qparams@), stmts_model(d.body@)))
}

/// The names form a chain of distinct defined gates.
pub open spec fn gate_chain_ok(stack: Seq<Seq<char>>, table: Map<Seq<char>, GateModel>) -> bool {
    &&& table.dom().finite()
    &&& stack.no_duplicates()
    &&& forall|k: int| 0 <= k < stack.len() ==> table.dom().contains(#[trigger] stack[k])
}

pub proof fn lemma_gate_chain_bound(stack: Seq<Seq<char>>, table: Map<Seq<char>, GateModel>)
    requires
        gate_chain_ok(stack, table),
    ensures
        stack.len() <= table.dom().len(),
{
    stack.unique_seq_to_set();
    vstd::set_lib::lemma_len_subset(stack.to_set(), table.dom());
}

/// The body of gate `g` with its parameters and qubits bound to a call's
/// arguments.
pub open spec fn gate_body_model(g: GateModel, params: Seq<ExprModel>, args: Seq<OperandModel>) -> Seq<StmtModel> {
    g.2.map_values(|b: StmtModel| subst_stmt(b, g.0, params, g.1, args))
}

/// What inlining the definitions of `table` into `v` gives, inside calls of
/// those named in `stack`: each unmodified call of a defined name becomes its
/// body bound to the call's arguments and inlined in turn; bodies of
/// conditionals and loops are inlined in place; everything else stays. It
/// fails on the first call that reaches a definition already being inlined,
/// or whose argument or qubit count differs from its definition.
pub open spec fn inlined_gates(v: Seq<StmtModel>, table: Map<Seq<char>, GateModel>, stack: Seq<Seq<char>>) -> Result<
    Seq<StmtModel>,
    Seq<char>,
>
    decreases table.dom().len() - stack.len(), v, 0nat,
    when gate_chain_ok(stack, table)
{
    proof {
        lemma_gate_chain_bound(stack, table);
    }
    if v.len() == 0 {
        Ok(seq![])
    } else {
        proof {
            assert(decreases_to!(v => v.drop_last()));
            assert(decreases_to!(v => v[v.len() - 1]));
        }
        match inlined_gates(v.drop_last(), table, stack) {
            Err(m) => Err(m),
            Ok(o) => match inlined_gate_stmt(v.last(), table, stack) {
                Err(m) => Err(m),
                Ok(x) => Ok(o + x),
            },
        }
    }
}

pub open spec fn inlined_gate_stmt(s: StmtModel, table: Map<Seq<char>, GateModel>, stack: Seq<Seq<char>>) -> Result<
    Seq<StmtModel>,
    Seq<char>,
>
    decreases table.dom().len() - stack.len(), s, 1nat,
    when gate_chain_ok(stack, table)
{
    proof {
        lemma_gate_chain_bound(stack, table);
    }
    match s {
        StmtModel::GateCall { name, modifiers, params, args, .. } => if modifiers.len() == 0 && table.dom().contains(
            name,
        ) {
            let g = table[name];
            if stack.contains(name) {
                Err(gate_recursion_message(name))
            } else if g.0.len() != params.len() || g.1.len() != args.len() {
                Err(gate_arity_message(name))
            } else {
                proof {
                    lemma_gate_chain_bound(stack.push(name), table);
                }
                inlined_gates(gate_body_model(g, params, args), table, stack.push(name))
            }
        } else {
            Ok(seq![s])
        },
        StmtModel::If { condition, then_body, else_body, span } => {
            proof {
                assert(decreases_to!(s => then_body));
            }
            match inlined_gates(then_body, table, stack) {
                Err(m) => Err(m),
                Ok(t) => match else_body {
                    Some(b) => {
                        proof {
                            assert(decreases_to!(s => else_body));
                            assert(decreases_to!(else_body => b));
                        }
                        match inlined_gates(b, table, stack) {
                            Err(m) => Err(m),
                            Ok(e) => Ok(seq![StmtModel::If { condition, then_body: t, else_body: Some(e), span }]),
                        }
                    },
                    None => Ok(seq![StmtModel::If { condition, then_body: t, else_body: None, span }]),
                },
            }
        },
        StmtModel::For { var_name, var_ty, range, body, span } => {
            proof {
                assert(decreases_to!(s => body));
            }
            match inlined_gates(body, table, stack) {
                Err(m) => Err(m),
                Ok(b) => Ok(seq![StmtModel::For { var_name, var_ty, range, body: b, span }]),
            }
        },
        StmtModel::While { condition, body, span } => {
            proof {
                assert(decreases_to!(s => body));
            }
            match inlined_gates(body, table, stack) {
                Err(m) => Err(m),
                Ok(b) => Ok(seq![StmtModel::While { condition, body: b, span }]),
            }
        },
        _ => Ok(seq![s]),
    }
}

proof fn lemma_gates_prefix(v: Seq<StmtModel>, j: int, table: Map<Seq<char>, GateModel>, stack: Seq<Seq<char>>)
    requires
        gate_chain_ok(stack, table),
        0 <= j <= v.len(),
        inlined_gates(v.take(j), table, stack) is Err,
    ensures
        inlined_gates(v, table, stack) == inlined_gates(v.take(j), table, stack),
    decreases v.len() - j,
{
    if j == v.len() {
        assert(v.take(j) =~= v);
    } else {
        assert(v.take(j + 1).drop_last() =~= v.take(j));
        lemma_gates_prefix(v, j + 1, table, stack);
    }
}

proof fn lemma_stmts_model_concat(a: Seq<Stmt>, b: Seq<Stmt>)
    ensures
        stmts_model(a + b) == stmts_model(a) + stmts_model(b),
    decreases b.len(),
{
    if b.len() == 0 {
        assert(a + b =~= a);
        assert(stmts_model(a) + stmts_model(b) =~= stmts_model(a));
    } else {
        assert((a + b).drop_last() =~= a + b.drop_last());
        assert((a + b).last() == b.last());
        lemma_stmts_model_concat(a, b.drop_last());
        assert(stmts_model(a) + stmts_model(b) =~= (stmts_model(a) + stmts_model(b.drop_last())).push(
            stmt_model(b.last()),
        ));
    }
}

fn named_error(prefix: &str, name: &String) -> (r: InlineError)
    ensures
        r.message@ == prefix@ + name@ + "`"@,
{
    let mut m = string_of(prefix);
    m.append(name.as_str());
    m.append("`");
    InlineError { message: m }
}

/// The statements with every unmodified call of a defined gate replaced by
/// that gate's body, applied to the call's arguments and expanded in turn.
#[verifier::loop_isolation(false)]
#[verifier::rlimit(40)]
fn inline_statements(statements: Vec<Stmt>, defs: &NameMap<GateDefinition>, stack: &Vec<String>) -> (r: Result<
    Vec<Stmt>,
    InlineError,
>)
    requires
        stack_ok(stack@, *defs),
    ensures
        r matches Ok(out) ==> gates_settled(out@, defs@.dom()),
        r matches Ok(out) ==> function_names(statements@).subset_of(function_names(out@)),
        r matches Err(e) ==> gate_failure(e.message@, defs@.dom()),
        match inlined_gates(stmts_model(statements@), def_table(defs@), names_of(stack@)) {
            Ok(m) => r matches Ok(out) && stmts_model(out@) == m,
            Err(msg) => r matches Err(e) && e.message@ == msg,
        },
    decreases defs.size() - stack@.len(), statements,
{
    proof {
        defs.lemma_distinct_names_bound(names_of(stack@));
        defs.lemma_dom_finite();
    }
    let ghost table = def_table(defs@);
    let ghost st = names_of(stack@);
    assert(table.dom() =~= defs@.dom());
    assert(gate_chain_ok(st, table));
    let ghost input = statements@;
    let ghost sm = stmts_model(input);
    proof {
        lemma_stmts_model_len(input);
    }
    assert(statements@.len() == statements.len());
    let mut items = statements;
    let mut out: Vec<Stmt> = Vec::new();
    let mut k: usize = 0;
    assert(items@ =~= input.subrange(0, input.len() as int));
    assert(sm.take(0) =~= Seq::<StmtModel>::empty());
    assert(stmts_model(out@) =~= Seq::<StmtModel>::empty());
    while items.len() > 0
        invariant
            k + items@.len() == input.len(),
            items@ == input.subrange(k as int, input.len() as int),
            gates_settled(out@, defs@.dom()),
            function_names(input.take(k as int)).subset_of(function_names(out@)),
            sm == stmts_model(input),
            sm.len() == input.len(),
            table == def_table(defs@),
            st == names_of(stack@),
            gate_chain_ok(st, table),
            inlined_gates(sm.take(k as int), table, st) == Ok::<Seq<StmtModel>, Seq<char>>(stmts_model(out@)),
        decreases items@.len(),
    {
        let s = items.remove(0);
        proof {
            assert(s == input[k as int]);
            assert(decreases_to!(statements => statements@));
            assert(decreases_to!(statements@ => statements@[k as int]));
            lemma_stmts_model_index(input, k as int);
            assert(sm.take(k + 1).drop_last() =~= sm.take(k as int));
            assert(sm.take(k + 1).last() == stmt_model(s));
        }
        let ghost before = out@;
        let ghost sv = s;
        let ghost svm = stmt_model(s);
        match s {
            Stmt::GateCall { name, modifiers, params, args, span } => {
                let found = if modifiers.len() == 0 {
                    defs.get(name.as_str())
                } else {
                    None
                };
                match found {
                    Some(def) => {
                        proof {
                            assert(table[name@] == (names_of(def.params@), names_of(def.qparams@), stmts_model(def.body@)));
                            lemma_exprs_model_len(params@);
                        }
                        if contains_name(stack, name.as_str()) {
                            let e = named_error("recursive gate definition involving `", &name);
                            assert(e.message@ == gate_recursion_message(name@));
                            proof {
                                lemma_gates_prefix(sm, k + 1, table, st);
                            }
                            return Err(e);
                        }
                        if def.params.len() != params.len() || def.qparams.len() != args.len() {
                            let e = named_error("arity mismatch while inlining gate `", &name);
                            assert(e.message@ == gate_arity_message(name@));
                            proof {
                                assert(names_of(def.params@).len() == def.params@.len());
                                assert(names_of(def.qparams@).len() == def.qparams@.len());
                                assert(operands_model(args@).len() == args@.len());
                                assert(!names_of(stack@).contains(name@));
                                assert(inlined_gate_stmt(svm, table, st) == Err::<Seq<StmtModel>, Seq<char>>(
                                    gate_arity_message(name@),
                                ));
                                lemma_gates_prefix(sm, k + 1, table, st);
                            }
                            return Err(e);
                        }
                        let ghost pm = exprs_model(params@);
                        let ghost am = operands_model(args@);
                        let ghost g = table[name@];
                        let mut substituted: Vec<Stmt> = Vec::new();
                        let mut j: usize = 0;
                        while j < def.body.len()
                            invariant
                                j <= def.body@.len(),
                                substituted@.len() == j,
                                def.params@.len() == params@.len(),
                                def.qparams@.len() == args@.len(),
                                forall|i: int|
                                    0 <= i < j ==> #[trigger] stmt_model(substituted@[i]) == subst_stmt(
                                        stmt_model(def.body@[i]),
                                        names_of(def.params@),
                                        exprs_model(params@),
                                        names_of(def.qparams@),
                                        operands_model(args@),
                                    ),
                            decreases def.body@.len() - j,
                        {
                            let ghost sb = substituted@;
                            substituted.push(
                                substitute_statement(&def.body[j], &def.params, &params, &def.qparams, &args),
                            );
                            assert forall|i: int| 0 <= i < j + 1 implies #[trigger] stmt_model(substituted@[i]) == subst_stmt(
                                stmt_model(def.body@[i]),
                                names_of(def.params@),
                                exprs_model(params@),
                                names_of(def.qparams@),
                                operands_model(args@),
                            ) by {
                                if i < j {
                                    assert(substituted@[i] == sb[i]);
                                }
                            }
                            j += 1;
                        }
                        proof {
                            lemma_stmts_model_len(substituted@);
                            lemma_stmts_model_len(def.body@);
                            assert forall|i: int| 0 <= i < substituted@.len() implies stmts_model(substituted@)[i]
                                == gate_body_model(g, pm, am)[i] by {
                                lemma_stmts_model_index(substituted@, i);
                                lemma_stmts_model_index(def.body@, i);
                            }
                            assert(stmts_model(substituted@) =~= gate_body_model(g, pm, am));
                        }
                        let inner = push_name::<GateDefinition>(stack, &name, Ghost(*defs));
                        proof {
                            defs.lemma_distinct_names_bound(names_of(inner@));
                        }
                        let mut expanded = match inline_statements(substituted, defs, &inner) {
                            Ok(x) => x,
                            Err(e) => {
                                proof {
                                    lemma_gates_prefix(sm, k + 1, table, st);
                                }
                                return Err(e);
                            },
                        };
                        let ghost added = expanded@;
                        out.append(&mut expanded);
                        proof {
                            lemma_settled_append(before, added, defs@.dom());
                            assert(out@ == before + added);
                            lemma_stmts_model_concat(before, added);
                        }
                    },
                    None => {
                        let call = Stmt::GateCall { name, modifiers, params, args, span };
                        assert(gate_settled(call, defs@.dom()));
                        out.push(call);
                        assert(out@.drop_last() =~= before);
                        proof {
                            assert(stmt_model(call) == svm);
                            lemma_stmts_model_push(before, call);
                            assert(stmts_model(before) + seq![svm] =~= stmts_model(before).push(svm));
                        }
                    },
                }
            },
            Stmt::If { condition, then_body, else_body, span } => {
                let t = match inline_statements(then_body, defs, stack) {
                    Ok(x) => x,
                    Err(e) => {
                        proof {
                            lemma_gates_prefix(sm, k + 1, table, st);
                        }
                        return Err(e);
                    },
                };
                let e = match else_body {
                    Some(b) => {
                        proof {
                            assert(decreases_to!(s => else_body));
                        }
                        match inline_statements(b, defs, stack) {
                            Ok(x) => Some(x),
                            Err(e) => {
                                proof {
                                    lemma_gates_prefix(sm, k + 1, table, st);
                                }
                                return Err(e);
                            },
                        }
                    },
                    None => None,
                };
                let st2 = Stmt::If { condition, then_body: t, else_body: e, span };
                assert(gate_settled(st2, defs@.dom()));
                out.push(st2);
                assert(out@.drop_last() =~= before);
                proof {
                    lemma_stmts_model_push(before, st2);
                    assert(stmts_model(before) + seq![stmt_model(st2)] =~= stmts_model(before).push(stmt_model(st2)));
                }
            },
            Stmt::For { var_name, var_ty, range, body, span } => {
                let b = match inline_statements(body, defs, stack) {
                    Ok(x) => x,
                    Err(e) => {
                        proof {
                            lemma_gates_prefix(sm, k + 1, table, st);
                        }
                        return Err(e);
                    },
                };
                let st2 = Stmt::For { var_name, var_ty, range, body: b, span };
                assert(gate_settled(st2, defs@.dom()));
                out.push(st2);
                assert(out@.drop_last() =~= before);
                proof {
                    lemma_stmts_model_push(before, st2);
                    assert(stmts_model(before) + seq![stmt_model(st2)] =~= stmts_model(before).push(stmt_model(st2)));
                }
            },
            Stmt::While { condition, body, span } => {
                let b = match inline_statements(body, defs, stack) {
                    Ok(x) => x,
                    Err(e) => {
                        proof {
                            lemma_gates_prefix(sm, k + 1, table, st);
                        }
                        return Err(e);
                    },
                };
                let st2 = Stmt::While { condition, body: b, span };
                assert(gate_settled(st2, defs@.dom()));
                out.push(st2);
                assert(out@.drop_last() =~= before);
                proof {
                    lemma_stmts_model_push(before, st2);
                    assert(stmts_model(before) + seq![stmt_model(st2)] =~= stmts_model(before).push(stmt_model(st2)));
                }
            },
            other => {
                assert(gate_settled(other, defs@.dom()));
                out.push(other);
                assert(out@.drop_last() =~= before);
                assert(out@[out@.len() - 1] == sv);
                proof {
                    lemma_stmts_model_push(before, sv);
                    assert(stmts_model(before) + seq![svm] =~= stmts_model(before).push(svm));
                }
            },
        }
        proof {
            assert(forall|i: int| 0 <= i < before.len() ==> out@[i] == before[i]);
            assert(function_def_name(sv) is Some ==> out@[out@.len() - 1] == sv);
            let t = input.take(k + 1);
            assert forall|n: Seq<char>| function_names(t).contains(n) implies function_names(out@).contains(n) by {
                let j = choose|j: int| 0 <= j < t.len() && #[trigger] function_def_name(t[j]) == Some(n);
                if j < k {
                    assert(input.take(k as int)[j] == t[j]);
                    assert(function_names(input.take(k as int)).contains(n));
                    let j2 = choose|j2: int| 0 <= j2 < before.len() && #[trigger] function_def_name(before[j2]) == Some(n);
                    assert(out@[j2] == before[j2]);
                } else {
                    assert(t[j] == sv);
                    assert(function_def_name(out@[out@.len() - 1]) == Some(n));
                }
            }
        }
        k += 1;
        assert(items@ =~= input.subrange(k as int, input.len() as int));
    }
    assert(input.take(input.len() as int) =~= input);
    assert(sm.take(sm.len() as int) =~= sm);
    Ok(out)
}


proof fn lemma_settled_index(v: Seq<Stmt>, i: int, defined: Set<Seq<char>>)
    requires
        gates_settled(v, defined),
        0 <= i < v.len(),
    ensures
        gate_settled(v[i], defined),
    decreases v.len(),
{
    if i < v.len() - 1 {
        assert(v.drop_last()[i] == v[i]);
        lemma_settled_index(v.drop_last(), i, defined);
    }
}

/// Some statement calls gate `name` (with or without modifiers); bodies
/// of conditionals and loops are looked into, gate bodies are not.
pub open spec fn calls_gate(stmts: Seq<Stmt>, name: Seq<char>) -> bool
    decreases stmts, 0nat,
{
    if stmts.len() == 0 {
        false
    } else {
        proof {
            assert(decreases_to!(stmts => stmts.drop_last()));
            assert(decreases_to!(stmts => stmts[stmts.len() - 1]));
        }
        calls_gate(stmts.drop_last(), name) || stmt_calls_gate(stmts.last(), name)
    }
}

/// The statement calls gate `name`.
pub open spec fn stmt_calls_gate(s: Stmt, name: Seq<char>) -> bool
    decreases s, 1nat,
{
    match s {
        Stmt::GateCall { name: n, .. } => n@ == name,
        Stmt::If { then_body, else_body, .. } => {
            proof {
                assert(decreases_to!(s => then_body));
                assert(decreases_to!(then_body => then_body@));
            }
            ||| calls_gate(then_body@, name)
            ||| match else_body {
                Some(e) => {
                    proof {
                        assert(decreases_to!(s => else_body));
                        assert(decreases_to!(else_body => e));
                        assert(decreases_to!(e => e@));
                    }
                    calls_gate(e@, name)
                },
                None => false,
            }
        },
        Stmt::For { body, .. } => {
            proof {
                assert(decreases_to!(s => body));
                assert(decreases_to!(body => body@));
            }
            calls_gate(body@, name)
        },
        Stmt::While { body, .. } => {
            proof {
                assert(decreases_to!(s => body));
                assert(decreases_to!(body => body@));
            }
            calls_gate(body@, name)
        },
        _ => false,
    }
}

#[verifier::loop_isolation(false)]
fn find_gate_call(stmts: &Vec<Stmt>, name: &str) -> (r: bool)
    ensures
        r == calls_gate(stmts@, name@),
    decreases stmts,
{
    let mut i: usize = 0;
    while i < stmts.len()
        invariant
            i <= stmts@.len(),
            !calls_gate(stmts@.take(i as int), name@),
        decreases stmts@.len() - i,
    {
        proof {
            assert(decreases_to!(stmts => stmts@));
            assert(decreases_to!(stmts@ => stmts@[i as int]));
            assert(stmts@.take(i + 1).drop_last() =~= stmts@.take(i as int));
            assert(stmts@.take(i + 1).last() == stmts@[i as int]);
        }
        let here = match &stmts[i] {
            Stmt::GateCall { name: n, .. } => str_eq(n.as_str(), name),
            Stmt::If { then_body, else_body, .. } => {
                if find_gate_call(then_body, name) {
                    true
                } else {
                    match else_body {
                        Some(e) => {
                            proof {
                                assert(decreases_to!(stmts@[i as int] => *else_body));
                            }
                            find_gate_call(e, name)
                        },
                        None => false,
                    }
                }
            },
            Stmt::For { body, .. } => find_gate_call(body, name),
            Stmt::While { body, .. } => find_gate_call(body, name),
            _ => false,
        };
        assert(here == stmt_calls_gate(stmts@[i as int], name@));
        if here {
            proof {
                assert(calls_gate(stmts@.take(i + 1), name@));
                lemma_calls_prefix(stmts@, i + 1, name@);
            }
            return true;
        }
        i += 1;
    }
    assert(stmts@.take(stmts@.len() as int) =~= stmts@);
    false
}

/// A call in a prefix is a call in the whole list.
proof fn lemma_calls_prefix(v: Seq<Stmt>, k: int, name: Seq<char>)
    requires
        0 <= k <= v.len(),
        calls_gate(v.take(k), name),
    ensures
        calls_gate(v, name),
    decreases v.len() - k,
{
    if k < v.len() {
        assert(v.take(k + 1).drop_last() =~= v.take(k));
        lemma_calls_prefix(v, k + 1, name);
    } else {
        assert(v.take(k) =~= v);
    }
}

/// A gate definition is kept when its gate is defined and still called.
pub open spec fn keeps_statement(s: Stmt, stmts: Seq<Stmt>, defined: Set<Seq<char>>) -> bool {
    match gate_def_name(s) {
        Some(n) => defined.contains(n) && calls_gate(stmts, n),
        None => true,
    }
}

/// The statements without the definitions of gates that are not defined in
/// `defined` or no longer called.
pub open spec fn kept_definitions(stmts: Seq<Stmt>, defined: Set<Seq<char>>) -> Seq<Stmt> {
    stmts.filter(|s: Stmt| keeps_statement(s, stmts, defined))
}

/// The statements without the definitions of gates that no longer are called.
#[verifier::loop_isolation(false)]
fn retain_called_definitions(stmts: Vec<Stmt>, defs: &NameMap<GateDefinition>) -> (r: Vec<Stmt>)
    ensures
        r@ == stmts@.filter(|s: Stmt| keeps_statement(s, stmts@, defs@.dom())),
{
    let ghost input = stmts@;
    let ghost keep = |s: Stmt| keeps_statement(s, input, defs@.dom());
    let mut flags: Vec<bool> = Vec::new();
    let mut i: usize = 0;
    while i < stmts.len()
        invariant
            stmts@ == input,
            i <= input.len(),
            flags@.len() == i,
            forall|j: int| 0 <= j < i ==> #[trigger] flags@[j] == keep(input[j]),
        decreases input.len() - i,
    {
        let f = match &stmts[i] {
            Stmt::GateDef { name, .. } => defs.contains_key(name.as_str()) && find_gate_call(&stmts, name.as_str()),
            _ => true,
        };
        assert(f == keep(input[i as int]));
        flags.push(f);
        i += 1;
    }
    let mut items = stmts;
    let mut out: Vec<Stmt> = Vec::new();
    let mut k: usize = 0;
    assert(items@ =~= input.subrange(0, input.len() as int));
    reveal(Seq::filter);
    while items.len() > 0
        invariant
            k + items@.len() == input.len(),
            items@ == input.subrange(k as int, input.len() as int),
            flags@.len() == input.len(),
            forall|j: int| 0 <= j < input.len() ==> #[trigger] flags@[j] == keep(input[j]),
            out@ == input.take(k as int).filter(keep),
        decreases items@.len(),
    {
        let s = items.remove(0);
        proof {
            reveal(Seq::filter);
            assert(s == input[k as int]);
            assert(input.take(k + 1).drop_last() =~= input.take(k as int));
            assert(input.take(k + 1).last() == input[k as int]);
            assert(flags@[k as int] == keep(input[k as int]));
        }
        if flags[k] {
            out.push(s);
        }
        k += 1;
        assert(items@ =~= input.subrange(k as int, input.len() as int));
    }
    assert(input.take(input.len() as int) =~= input);
    out
}

/// The gates defined at the top level of `stmts`, by name; a later
/// definition of a name replaces an earlier one.
fn collect_gate_definitions(stmts: &Vec<Stmt>) -> (r: NameMap<GateDefinition>)
    ensures
        r@.dom() == gate_names(stmts@),
        def_table(r@) == gate_table(stmts@),
{
    let mut defs: NameMap<GateDefinition> = NameMap::new();
    let mut i: usize = 0;
    while i < stmts.len()
        invariant
            i <= stmts@.len(),
            defs@.dom() == gate_names(stmts@.take(i as int)),
            def_table(defs@) == gate_table(stmts@.take(i as int)),
        decreases stmts@.len() - i,
    {
        let ghost before = defs@.dom();
        let ghost m0 = defs@;
        proof {
            assert(stmts@.take(i + 1).drop_last() =~= stmts@.take(i as int));
            assert(stmts@.take(i + 1).last() == stmts@[i as int]);
        }
        if let Stmt::GateDef { name, params, qparams, body, .. } = &stmts[i] {
            let d = GateDefinition { params: copy_names(params), qparams: copy_names(qparams), body: clone_stmts(body) };
            defs.insert(name.clone(), d);
            proof {
                assert(def_table(defs@) =~= def_table(m0).insert(
                    name@,
                    (names_of(params@), names_of(qparams@), stmts_model(body@)),
                ));
            }
        }
        proof {
            let t = stmts@.take(i + 1);
            assert forall|n: Seq<char>| gate_names(t).contains(n) == defs@.dom().contains(n) by {
                if gate_names(t).contains(n) {
                    let j = choose|j: int| 0 <= j < t.len() && #[trigger] gate_def_name(t[j]) == Some(n);
                    if j < i {
                        assert(stmts@.take(i as int)[j] == t[j]);
                        assert(gate_names(stmts@.take(i as int)).contains(n));
                    }
                }
                if before.contains(n) {
                    let j = choose|j: int|
                        0 <= j < stmts@.take(i as int).len() && #[trigger] gate_def_name(stmts@.take(i as int)[j])
                            == Some(n);
                    assert(t[j] == stmts@.take(i as int)[j]);
                }
                if gate_def_name(stmts@[i as int]) == Some(n) {
                    assert(t[i as int] == stmts@[i as int]);
                }
            }
            assert(gate_names(t) =~= defs@.dom());
        }
        i += 1;
    }
    assert(stmts@.take(stmts@.len() as int) =~= stmts@);
    defs
}

/// Inline unmodified calls to user-defined gates and remove their definitions.
///
/// Calls with modifiers are preserved because applying a modifier to an entire
/// composite gate requires modifier-specific decomposition; the definitions
/// they call are kept.
pub fn inline_gate_definitions(program: &Program) -> (r: Result<Program, InlineError>)
    ensures
        r matches Ok(p) ==> {
            &&& p.version@ == program.version@
            &&& gates_settled(p.statements@, gate_names(program.statements@))
            &&& forall|i: int|
                0 <= i < p.statements@.len() ==> (#[trigger] gate_def_name(p.statements@[i]) matches Some(n) ==> {
                    &&& gate_names(program.statements@).contains(n)
                    &&& calls_gate(p.statements@, n)
                })
            &&& function_names(program.statements@).subset_of(function_names(p.statements@))
        },
        r matches Err(e) ==> gate_failure(e.message@, gate_names(program.statements@)),
        match inlined_gates(stmts_model(program.statements@), gate_table(program.statements@), seq![]) {
            Ok(m) => r matches Ok(p) && exists|e: Seq<Stmt>|
                stmts_model(e) == m && p.statements@ == #[trigger] kept_definitions(e, gate_names(program.statements@)),
            Err(msg) => r matches Err(err) && err.message@ == msg,
        },
{
    let defs = collect_gate_definitions(&program.statements);
    let stack: Vec<String> = Vec::new();
    proof {
        assert(names_of(stack@) =~= Seq::<Seq<char>>::empty());
    }
    let copied = clone_stmts(&program.statements);
    proof {
        assert(function_names(program.statements@) =~= function_names(copied@)) by {
            assert forall|n: Seq<char>| function_names(program.statements@).contains(n) implies function_names(copied@).contains(n) by {
                let j = choose|j: int| 0 <= j < program.statements@.len() && #[trigger] function_def_name(program.statements@[j]) == Some(n);
                assert(function_def_name(copied@[j]) == Some(n));
            }
            assert forall|n: Seq<char>| function_names(copied@).contains(n) implies function_names(program.statements@).contains(n) by {
                let j = choose|j: int| 0 <= j < copied@.len() && #[trigger] function_def_name(copied@[j]) == Some(n);
                assert(function_def_name(program.statements@[j]) == Some(n));
            }
        }
    }
    let expanded = inline_statements(copied, &defs, &stack)?;
    let ghost e = expanded@;
    let statements = retain_called_definitions(expanded, &defs);
    proof {
        assert((|s: Stmt| keeps_statement(s, e, defs@.dom())) =~= (|s: Stmt| keeps_statement(
            s,
            e,
            gate_names(program.statements@),
        )));
        assert(statements@ == kept_definitions(e, gate_names(program.statements@)));
        let keep = |s: Stmt| keeps_statement(s, e, defs@.dom());
        lemma_filter_settled(e, keep, defs@.dom());
        lemma_filter_calls(e, keep);
        lemma_filter_function_names(e, keep);
        assert forall|i: int| 0 <= i < statements@.len() implies (#[trigger] gate_def_name(statements@[i]) matches Some(n) ==> {
            &&& gate_names(program.statements@).contains(n)
            &&& calls_gate(statements@, n)
        }) by {
            e.lemma_filter_pred(keep, i);
            assert(keep(statements@[i]));
        }
    }
    Ok(Program { version: program.version.clone(), statements })
}

/// Dropping statements keeps a settled list settled.
proof fn lemma_filter_settled(v: Seq<Stmt>, f: spec_fn(Stmt) -> bool, defined: Set<Seq<char>>)
    requires
        gates_settled(v, defined),
    ensures
        gates_settled(v.filter(f), defined),
    decreases v.len(),
{
    reveal(Seq::filter);
    if v.len() > 0 {
        lemma_filter_settled(v.drop_last(), f, defined);
        if f(v.last()) {
            assert(v.filter(f).drop_last() =~= v.drop_last().filter(f));
        }
    }
}

/// Dropping only gate definitions keeps every call.
proof fn lemma_filter_calls(v: Seq<Stmt>, f: spec_fn(Stmt) -> bool)
    requires
        forall|i: int| 0 <= i < v.len() && !f(#[trigger] v[i]) ==> v[i] is GateDef,
    ensures
        forall|n: Seq<char>| #[trigger] calls_gate(v.filter(f), n) == calls_gate(v, n),
    decreases v.len(),
{
    reveal(Seq::filter);
    if v.len() > 0 {
        let d = v.drop_last();
        assert forall|i: int| 0 <= i < d.len() && !f(#[trigger] d[i]) implies d[i] is GateDef by {
            assert(d[i] == v[i]);
        }
        lemma_filter_calls(d, f);
        assert(v.last() == v[v.len() - 1]);
        assert forall|n: Seq<char>| #[trigger] calls_gate(v.filter(f), n) == calls_gate(v, n) by {
            assert(calls_gate(d.filter(f), n) == calls_gate(d, n));
            if f(v.last()) {
                assert(v.filter(f) == d.filter(f).push(v.last()));
                assert(v.filter(f).drop_last() =~= d.filter(f));
                assert(v.filter(f).last() == v.last());
            } else {
                assert(v.filter(f) == d.filter(f));
                assert(!stmt_calls_gate(v.last(), n));
            }
        }
    }
}

// ── Function inlining ───────────────────────────────────────

/// The parameter names and the returned expression of a function.
struct FunctionDefinition {
    params: Vec<String>,
    body: Expr,
}

/// The names of the functions defined at the top level of `stmts`.
pub open spec fn function_names(stmts: Seq<Stmt>) -> Set<Seq<char>> {
    Set::new(|n: Seq<char>| exists|i: int| 0 <= i < stmts.len() && #[trigger] function_def_name(stmts[i]) == Some(n))
}

/// The expression calls no function named in `defined`.
pub open spec fn expr_settled(e: Expr, defined: Set<Seq<char>>) -> bool
    decreases e, 1nat,
{
    match e {
        Expr::Call { name, args, .. } => {
            proof {
                assert(decreases_to!(e => args));
                assert(decreases_to!(args => args@));
            }
            !defined.contains(name@) && exprs_settled(args@, defined)
        },
        Expr::Neg(inner, _) => expr_settled(*inner, defined),
        Expr::BinOp { lhs, rhs, .. } => expr_settled(*lhs, defined) && expr_settled(*rhs, defined),
        Expr::Compare { lhs, rhs, .. } => expr_settled(*lhs, defined) && expr_settled(*rhs, defined),
        _ => true,
    }
}

/// No expression of the list calls a function named in `defined`.
pub open spec fn exprs_settled(v: Seq<Expr>, defined: Set<Seq<char>>) -> bool
    decreases v, 0nat,
{
    if v.len() == 0 {
        true
    } else {
        proof {
            assert(decreases_to!(v => v.drop_last()));
            assert(decreases_to!(v => v[v.len() - 1]));
        }
        exprs_settled(v.drop_last(), defined) && expr_settled(v.last(), defined)
    }
}

/// An optional expression calls no function named in `defined`.
pub open spec fn opt_settled(e: Option<Expr>, defined: Set<Seq<char>>) -> bool {
    match e {
        Some(x) => expr_settled(x, defined),
        None => true,
    }
}

/// The argument of a modifier calls no function named in `defined`.
pub open spec fn modifier_settled(m: GateModifier, defined: Set<Seq<char>>) -> bool {
    match m {
        GateModifier::Ctrl(e, _) => opt_settled(e, defined),
        GateModifier::NegCtrl(e, _) => opt_settled(e, defined),
        GateModifier::Inv(_) => true,
        GateModifier::Pow(e, _) => expr_settled(e, defined),
    }
}

/// No expression in the statements calls a function named in `defined`;
/// every nested body is looked into.
pub open spec fn calls_settled(stmts: Seq<Stmt>, defined: Set<Seq<char>>) -> bool
    decreases stmts, 0nat,
{
    if stmts.len() == 0 {
        true
    } else {
        proof {
            assert(decreases_to!(stmts => stmts.drop_last()));
            assert(decreases_to!(stmts => stmts[stmts.len() - 1]));
        }
        calls_settled(stmts.drop_last(), defined) && stmt_calls_settled(stmts.last(), defined)
    }
}

/// No expression in the statement calls a function named in `defined`.
pub open spec fn stmt_calls_settled(s: Stmt, defined: Set<Seq<char>>) -> bool
    decreases s, 1nat,
{
    match s {
        Stmt::ClassicalDecl { init, .. } => opt_settled(init, defined),
        Stmt::Assignment { value, .. } => expr_settled(value, defined),
        Stmt::GateCall { modifiers, params, .. } => {
            &&& forall|i: int| 0 <= i < modifiers@.len() ==> modifier_settled(#[trigger] modifiers@[i], defined)
            &&& forall|i: int| 0 <= i < params@.len() ==> expr_settled(#[trigger] params@[i], defined)
        },
        Stmt::GateDef { body, .. } => {
            proof {
                assert(decreases_to!(s => body));
                assert(decreases_to!(body => body@));
            }
            calls_settled(body@, defined)
        },
        Stmt::FunctionDef { body, .. } => expr_settled(body, defined),
        Stmt::If { condition, then_body, else_body, .. } => {
            proof {
                assert(decreases_to!(s => then_body));
                assert(decreases_to!(then_body => then_body@));
            }
            &&& expr_settled(condition, defined)
            &&& calls_settled(then_body@, defined)
            &&& match else_body {
                Some(e) => {
                    proof {
                        assert(decreases_to!(s => else_body));
                        assert(decreases_to!(else_body => e));
                        assert(decreases_to!(e => e@));
                    }
                    calls_settled(e@, defined)
                },
                None => true,
            }
        },
        Stmt::For { range, body, .. } => {
            proof {
                assert(decreases_to!(s => body));
                assert(decreases_to!(body => body@));
            }
            &&& expr_settled(range.start, defined)
            &&& expr_settled(range.end, defined)
            &&& opt_settled(range.step, defined)
            &&& calls_settled(body@, defined)
        },
        Stmt::While { condition, body, .. } => {
            proof {
                assert(decreases_to!(s => body));
                assert(decreases_to!(body => body@));
            }
            expr_settled(condition, defined) && calls_settled(body@, defined)
        },
        Stmt::Delay { duration, .. } => expr_settled(duration, defined),
        _ => true,
    }
}

/// The error text for a function that reaches itself through its own body.
pub open spec fn function_recursion_message(name: Seq<char>) -> Seq<char> {
    "recursive function definition involving `"@ + name + "`"@
}

/// The error text for a call whose argument count differs from the
/// function's parameter count.
pub open spec fn function_arity_message(name: Seq<char>) -> Seq<char> {
    "arity mismatch while inlining function `"@ + name + "`"@
}

/// `m` is the text of a function inlining failure for a function of `defined`.
pub open spec fn function_failure(m: Seq<char>, defined: Set<Seq<char>>) -> bool {
    exists|n: Seq<char>|
        #![trigger defined.contains(n)]
        defined.contains(n) && (m == function_recursion_message(n) || m == function_arity_message(n))
}

/// The names form a chain of distinct defined functions.
pub open spec fn chain_ok(stack: Seq<Seq<char>>, defs: Map<Seq<char>, FnModel>) -> bool {
    &&& defs.dom().finite()
    &&& stack.no_duplicates()
    &&& forall|k: int| 0 <= k < stack.len() ==> defs.dom().contains(#[trigger] stack[k])
}

pub proof fn lemma_fn_chain_bound(stack: Seq<Seq<char>>, defs: Map<Seq<char>, FnModel>)
    requires
        chain_ok(stack, defs),
    ensures
        stack.len() <= defs.dom().len(),
{
    stack.unique_seq_to_set();
    vstd::set_lib::lemma_len_subset(stack.to_set(), defs.dom());
}

/// A function definition as text: its parameters and its expression.
pub type FnModel = (Seq<Seq<char>>, ExprModel);

spec fn fn_table(m: Map<Seq<char>, FunctionDefinition>) -> Map<Seq<char>, FnModel> {
    m.map_values(|d: FunctionDefinition| (names_of(d.params@), expr_model(d.body)))
}

/// What inlining functions into `e` gives, inside the calls of the
/// functions in `stack`: each argument inlined, left to right, and a call
/// of a defined function replaced by its body with the parameters bound to
/// the inlined arguments, inlined in turn. It fails on the first call that
/// reaches a function already being inlined, or whose argument count is
/// not the function's.
pub open spec fn inlined_expr(e: ExprModel, defs: Map<Seq<char>, FnModel>, stack: Seq<Seq<char>>) -> Result<
    ExprModel,
    Seq<char>,
>
    decreases defs.dom().len() - stack.len(), e, 1nat,
    when chain_ok(stack, defs)
{
    proof {
        lemma_fn_chain_bound(stack, defs);
    }
    match e {
        ExprModel::Neg(inner, s) => match inlined_expr(*inner, defs, stack) {
            Ok(x) => Ok(ExprModel::Neg(Box::new(x), s)),
            Err(m) => Err(m),
        },
        ExprModel::BinOp { op, lhs, rhs, span } => match inlined_expr(*lhs, defs, stack) {
            Err(m) => Err(m),
            Ok(l) => match inlined_expr(*rhs, defs, stack) {
                Err(m) => Err(m),
                Ok(r) => Ok(ExprModel::BinOp { op, lhs: Box::new(l), rhs: Box::new(r), span }),
            },
        },
        ExprModel::Compare { op, lhs, rhs, span } => match inlined_expr(*lhs, defs, stack) {
            Err(m) => Err(m),
            Ok(l) => match inlined_expr(*rhs, defs, stack) {
                Err(m) => Err(m),
                Ok(r) => Ok(ExprModel::Compare { op, lhs: Box::new(l), rhs: Box::new(r), span }),
            },
        },
        ExprModel::Call { name, args, span } => {
            proof {
                assert(decreases_to!(e => args));
            }
            match inlined_args(args, defs, stack) {
                Err(m) => Err(m),
                Ok(out) => if defs.dom().contains(name) {
                    if stack.contains(name) {
                        Err(function_recursion_message(name))
                    } else if defs[name].0.len() != out.len() {
                        Err(function_arity_message(name))
                    } else {
                        proof {
                            lemma_fn_chain_bound(stack.push(name), defs);
                        }
                        inlined_expr(
                            subst_model(defs[name].1, defs[name].0, out),
                            defs,
                            stack.push(name),
                        )
                    }
                } else {
                    Ok(ExprModel::Call { name, args: out, span })
                },
            }
        },
        _ => Ok(e),
    }
}

/// The expressions inlined left to right; the first failure stops it.
pub open spec fn inlined_args(v: Seq<ExprModel>, defs: Map<Seq<char>, FnModel>, stack: Seq<Seq<char>>) -> Result<
    Seq<ExprModel>,
    Seq<char>,
>
    decreases defs.dom().len() - stack.len(), v, 0nat,
    when chain_ok(stack, defs)
{
    if v.len() == 0 {
        Ok(seq![])
    } else {
        proof {
            assert(decreases_to!(v => v.drop_last()));
            assert(decreases_to!(v => v[v.len() - 1]));
        }
        match inlined_args(v.drop_last(), defs, stack) {
            Err(m) => Err(m),
            Ok(o) => match inlined_expr(v.last(), defs, stack) {
                Err(m) => Err(m),
                Ok(x) => Ok(o.push(x)),
            },
        }
    }
}

proof fn lemma_args_prefix(v: Seq<ExprModel>, j: int, defs: Map<Seq<char>, FnModel>, stack: Seq<Seq<char>>)
    requires
        chain_ok(stack, defs),
        0 <= j <= v.len(),
        inlined_args(v.take(j), defs, stack) is Err,
    ensures
        inlined_args(v, defs, stack) == inlined_args(v.take(j), defs, stack),
    decreases v.len() - j,
{
    if j == v.len() {
        assert(v.take(j) =~= v);
    } else {
        assert(v.take(j + 1).drop_last() =~= v.take(j));
        lemma_args_prefix(v, j + 1, defs, stack);
    }
}

pub open spec fn inlined_opt(e: Option<ExprModel>, defs: Map<Seq<char>, FnModel>, stack: Seq<Seq<char>>) -> Result<
    Option<ExprModel>,
    Seq<char>,
> {
    match e {
        Some(x) => match inlined_expr(x, defs, stack) {
            Ok(y) => Ok(Some(y)),
            Err(m) => Err(m),
        },
        None => Ok(None),
    }
}

pub open spec fn inlined_modifier(m: ModifierModel, defs: Map<Seq<char>, FnModel>, stack: Seq<Seq<char>>) -> Result<
    ModifierModel,
    Seq<char>,
> {
    match m {
        ModifierModel::Ctrl(e, sp) => match inlined_opt(e, defs, stack) {
            Ok(y) => Ok(ModifierModel::Ctrl(y, sp)),
            Err(x) => Err(x),
        },
        ModifierModel::NegCtrl(e, sp) => match inlined_opt(e, defs, stack) {
            Ok(y) => Ok(ModifierModel::NegCtrl(y, sp)),
            Err(x) => Err(x),
        },
        ModifierModel::Inv(sp) => Ok(ModifierModel::Inv(sp)),
        ModifierModel::Pow(e, sp) => match inlined_expr(e, defs, stack) {
            Ok(y) => Ok(ModifierModel::Pow(y, sp)),
            Err(x) => Err(x),
        },
    }
}

/// The modifiers inlined left to right; the first failure stops it.
pub open spec fn inlined_modifiers(v: Seq<ModifierModel>, defs: Map<Seq<char>, FnModel>, stack: Seq<Seq<char>>) -> Result<
    Seq<ModifierModel>,
    Seq<char>,
>
    decreases v.len(),
{
    if v.len() == 0 {
        Ok(seq![])
    } else {
        match inlined_modifiers(v.drop_last(), defs, stack) {
            Err(m) => Err(m),
            Ok(o) => match inlined_modifier(v.last(), defs, stack) {
                Err(m) => Err(m),
                Ok(x) => Ok(o.push(x)),
            },
        }
    }
}

/// What inlining functions into the expressions of a statement gives: each
/// expression inlined in source order (conditions and ranges before
/// bodies), bodies of control flow and gates statement by statement; the
/// first failure stops it.
pub open spec fn inlined_stmt(s: StmtModel, defs: Map<Seq<char>, FnModel>, stack: Seq<Seq<char>>) -> Result<
    StmtModel,
    Seq<char>,
>
    decreases s, 1nat,
{
    match s {
        StmtModel::ClassicalDecl { qualifier, ty, name, init, span } => match inlined_opt(init, defs, stack) {
            Ok(i) => Ok(StmtModel::ClassicalDecl { qualifier, ty, name, init: i, span }),
            Err(m) => Err(m),
        },
        StmtModel::Assignment { name, op, value, span } => match inlined_expr(value, defs, stack) {
            Ok(v) => Ok(StmtModel::Assignment { name, op, value: v, span }),
            Err(m) => Err(m),
        },
        StmtModel::GateCall { name, modifiers, params, args, span } => match inlined_modifiers(
            modifiers,
            defs,
            stack,
        ) {
            Err(m) => Err(m),
            Ok(ms) => match inlined_args(params, defs, stack) {
                Err(m) => Err(m),
                Ok(ps) => Ok(StmtModel::GateCall { name, modifiers: ms, params: ps, args, span }),
            },
        },
        StmtModel::GateDef { name, params, qparams, body, span } => {
            proof {
                assert(decreases_to!(s => body));
            }
            match inlined_stmts(body, defs, stack) {
                Ok(b) => Ok(StmtModel::GateDef { name, params, qparams, body: b, span }),
                Err(m) => Err(m),
            }
        },
        StmtModel::FunctionDef { name, params, return_type, body, span } => match inlined_expr(body, defs, stack) {
            Ok(b) => Ok(StmtModel::FunctionDef { name, params, return_type, body: b, span }),
            Err(m) => Err(m),
        },
        StmtModel::If { condition, then_body, else_body, span } => {
            proof {
                assert(decreases_to!(s => then_body));
            }
            match inlined_expr(condition, defs, stack) {
                Err(m) => Err(m),
                Ok(c) => match inlined_stmts(then_body, defs, stack) {
                    Err(m) => Err(m),
                    Ok(t) => match else_body {
                        Some(b) => {
                            proof {
                                assert(decreases_to!(s => else_body));
                                assert(decreases_to!(else_body => b));
                            }
                            match inlined_stmts(b, defs, stack) {
                                Err(m) => Err(m),
                                Ok(e) => Ok(StmtModel::If { condition: c, then_body: t, else_body: Some(e), span }),
                            }
                        },
                        None => Ok(StmtModel::If { condition: c, then_body: t, else_body: None, span }),
                    },
                },
            }
        },
        StmtModel::For { var_name, var_ty, range, body, span } => {
            proof {
                assert(decreases_to!(s => body));
            }
            match inlined_expr(range.start, defs, stack) {
                Err(m) => Err(m),
                Ok(a) => match inlined_expr(range.end, defs, stack) {
                    Err(m) => Err(m),
                    Ok(b) => match inlined_opt(range.step, defs, stack) {
                        Err(m) => Err(m),
                        Ok(c) => match inlined_stmts(body, defs, stack) {
                            Err(m) => Err(m),
                            Ok(d) => Ok(
                                StmtModel::For {
                                    var_name,
                                    var_ty,
                                    range: RangeModel { start: a, end: b, step: c },
                                    body: d,
                                    span,
                                },
                            ),
                        },
                    },
                },
            }
        },
        StmtModel::While { condition, body, span } => {
            proof {
                assert(decreases_to!(s => body));
            }
            match inlined_expr(condition, defs, stack) {
                Err(m) => Err(m),
                Ok(c) => match inlined_stmts(body, defs, stack) {
                    Err(m) => Err(m),
                    Ok(b) => Ok(StmtModel::While { condition: c, body: b, span }),
                },
            }
        },
        StmtModel::Delay { duration, targets, span } => match inlined_expr(duration, defs, stack) {
            Ok(d) => Ok(StmtModel::Delay { duration: d, targets, span }),
            Err(m) => Err(m),
        },
        _ => Ok(s),
    }
}

/// The statements inlined in order; the first failure stops it.
pub open spec fn inlined_stmts(v: Seq<StmtModel>, defs: Map<Seq<char>, FnModel>, stack: Seq<Seq<char>>) -> Result<
    Seq<StmtModel>,
    Seq<char>,
>
    decreases v, 0nat,
{
    if v.len() == 0 {
        Ok(seq![])
    } else {
        proof {
            assert(decreases_to!(v => v.drop_last()));
            assert(decreases_to!(v => v[v.len() - 1]));
        }
        match inlined_stmts(v.drop_last(), defs, stack) {
            Err(m) => Err(m),
            Ok(o) => match inlined_stmt(v.last(), defs, stack) {
                Err(m) => Err(m),
                Ok(x) => Ok(o.push(x)),
            },
        }
    }
}

proof fn lemma_stmts_prefix(v: Seq<StmtModel>, j: int, defs: Map<Seq<char>, FnModel>, stack: Seq<Seq<char>>)
    requires
        0 <= j <= v.len(),
        inlined_stmts(v.take(j), defs, stack) is Err,
    ensures
        inlined_stmts(v, defs, stack) == inlined_stmts(v.take(j), defs, stack),
    decreases v.len() - j,
{
    if j == v.len() {
        assert(v.take(j) =~= v);
    } else {
        assert(v.take(j + 1).drop_last() =~= v.take(j));
        lemma_stmts_prefix(v, j + 1, defs, stack);
    }
}

proof fn lemma_mods_prefix(v: Seq<ModifierModel>, j: int, defs: Map<Seq<char>, FnModel>, stack: Seq<Seq<char>>)
    requires
        0 <= j <= v.len(),
        inlined_modifiers(v.take(j), defs, stack) is Err,
    ensures
        inlined_modifiers(v, defs, stack) == inlined_modifiers(v.take(j), defs, stack),
    decreases v.len() - j,
{
    if j == v.len() {
        assert(v.take(j) =~= v);
    } else {
        assert(v.take(j + 1).drop_last() =~= v.take(j));
        lemma_mods_prefix(v, j + 1, defs, stack);
    }
}

proof fn lemma_stmts_model_len(v: Seq<Stmt>)
    ensures
        stmts_model(v).len() == v.len(),
    decreases v.len(),
{
    if v.len() > 0 {
        lemma_stmts_model_len(v.drop_last());
    }
}

proof fn lemma_stmts_model_index(v: Seq<Stmt>, i: int)
    requires
        0 <= i < v.len(),
    ensures
        stmts_model(v)[i] == stmt_model(v[i]),
    decreases v.len(),
{
    lemma_stmts_model_len(v.drop_last());
    if i < v.len() - 1 {
        lemma_stmts_model_index(v.drop_last(), i);
    }
}

/// `e` with every call of a defined function replaced by the function's
/// expression, applied to the (inlined) arguments and inlined in turn.
#[verifier::loop_isolation(false)]
fn inline_function_expr(e: Expr, defs: &NameMap<FunctionDefinition>, stack: &Vec<String>) -> (r: Result<
    Expr,
    InlineError,
>)
    requires
        stack_ok(stack@, *defs),
    ensures
        r matches Ok(x) ==> expr_settled(x, defs@.dom()),
        r matches Err(err) ==> function_failure(err.message@, defs@.dom()),
        match inlined_expr(expr_model(e), fn_table(defs@), names_of(stack@)) {
            Ok(m) => r matches Ok(x) && expr_model(x) == m,
            Err(msg) => r matches Err(err) && err.message@ == msg,
        },
    decreases defs.size() - stack@.len(), e,
{
    proof {
        defs.lemma_dom_finite();
        assert(fn_table(defs@).dom() =~= defs@.dom());
    }
    proof {
        defs.lemma_distinct_names_bound(names_of(stack@));
    }
    let ghost st = names_of(stack@);
    match e {
        Expr::Neg(inner, s) => {
            let x = inline_function_expr(*inner, defs, stack)?;
            Ok(Expr::Neg(Box::new(x), s))
        },
        Expr::BinOp { op, lhs, rhs, span } => {
            let l = inline_function_expr(*lhs, defs, stack)?;
            let r = inline_function_expr(*rhs, defs, stack)?;
            Ok(Expr::BinOp { op, lhs: Box::new(l), rhs: Box::new(r), span })
        },
        Expr::Compare { op, lhs, rhs, span } => {
            let l = inline_function_expr(*lhs, defs, stack)?;
            let r = inline_function_expr(*rhs, defs, stack)?;
            Ok(Expr::Compare { op, lhs: Box::new(l), rhs: Box::new(r), span })
        },
        Expr::Call { name, args, span } => {
            let ghost input = args@;
            let ghost am = exprs_model(input);
            proof {
                lemma_exprs_model_len(input);
            }
            assert(args@.len() == args.len());
            let mut items = args;
            let mut out: Vec<Expr> = Vec::new();
            let mut k: usize = 0;
            assert(items@ =~= input.subrange(0, input.len() as int));
            assert(am.take(0) =~= Seq::<ExprModel>::empty());
            while items.len() > 0
                invariant
                    k + items@.len() == input.len(),
                    items@ == input.subrange(k as int, input.len() as int),
                    exprs_settled(out@, defs@.dom()),
                    am == exprs_model(input),
                    am.len() == input.len(),
                    st == names_of(stack@),
                    chain_ok(st, fn_table(defs@)),
                    inlined_args(am.take(k as int), fn_table(defs@), st) == Ok::<Seq<ExprModel>, Seq<char>>(exprs_model(out@)),
                decreases items@.len(),
            {
                let a = items.remove(0);
                proof {
                    assert(a == input[k as int]);
                    assert(decreases_to!(e => args));
                    assert(decreases_to!(args => args@));
                    assert(decreases_to!(args@ => args@[k as int]));
                    lemma_exprs_model_index(input, k as int);
                    assert(am.take(k + 1).drop_last() =~= am.take(k as int));
                    assert(am.take(k + 1).last() == expr_model(a));
                }
                let ghost before = out@;
                let x = match inline_function_expr(a, defs, stack) {
                    Ok(x) => x,
                    Err(err) => {
                        proof {
                            lemma_args_prefix(am, k + 1, fn_table(defs@), st);
                        }
                        return Err(err);
                    },
                };
                out.push(x);
                assert(out@.drop_last() =~= before);
                proof {
                    assert(out@ =~= before.push(x));
                    lemma_exprs_model_push(before, x);
                }
                k += 1;
                assert(items@ =~= input.subrange(k as int, input.len() as int));
            }
            assert(am.take(k as int) =~= am);
            proof {
                lemma_exprs_model_len(out@);
            }
            match defs.get(name.as_str()) {
                Some(def) => {
                    if contains_name(stack, name.as_str()) {
                        let err = named_error("recursive function definition involving `", &name);
                        assert(err.message@ == function_recursion_message(name@));
                        return Err(err);
                    }
                    if def.params.len() != out.len() {
                        let err = named_error("arity mismatch while inlining function `", &name);
                        assert(err.message@ == function_arity_message(name@));
                        return Err(err);
                    }
                    let replacement = substitute_expr(&def.body, &def.params, &out);
                    let inner = push_name::<FunctionDefinition>(stack, &name, Ghost(*defs));
                    proof {
                        defs.lemma_distinct_names_bound(names_of(inner@));
                    }
                    inline_function_expr(replacement, defs, &inner)
                },
                None => Ok(Expr::Call { name, args: out, span }),
            }
        },
        other => Ok(other),
    }
}

fn inline_function_opt(e: Option<Expr>, defs: &NameMap<FunctionDefinition>, stack: &Vec<String>) -> (r: Result<
    Option<Expr>,
    InlineError,
>)
    requires
        stack_ok(stack@, *defs),
    ensures
        r matches Ok(x) ==> opt_settled(x, defs@.dom()),
        r matches Err(err) ==> function_failure(err.message@, defs@.dom()),
        match inlined_opt(opt_expr_model(e), fn_table(defs@), names_of(stack@)) {
            Ok(m) => r matches Ok(x) && opt_expr_model(x) == m,
            Err(msg) => r matches Err(err) && err.message@ == msg,
        },
{
    proof {
        defs.lemma_dom_finite();
        assert(fn_table(defs@).dom() =~= defs@.dom());
    }
    match e {
        Some(x) => Ok(Some(inline_function_expr(x, defs, stack)?)),
        None => Ok(None),
    }
}

/// The statements with every function call in their expressions inlined;
/// unmodified-gate settledness is kept.
#[verifier::loop_isolation(false)]
fn inline_functions_in_statements(
    stmts: Vec<Stmt>,
    defs: &NameMap<FunctionDefinition>,
    stack: &Vec<String>,
    Ghost(gates): Ghost<Set<Seq<char>>>,
) -> (r: Result<Vec<Stmt>, InlineError>)
    requires
        stack_ok(stack@, *defs),
    ensures
        r matches Ok(out) ==> calls_settled(out@, defs@.dom()),
        r matches Ok(out) ==> (gates_settled(stmts@, gates) ==> gates_settled(out@, gates)),
        r matches Err(err) ==> function_failure(err.message@, defs@.dom()),
        match inlined_stmts(stmts_model(stmts@), fn_table(defs@), names_of(stack@)) {
            Ok(m) => r matches Ok(out) && stmts_model(out@) == m,
            Err(msg) => r matches Err(err) && err.message@ == msg,
        },
    decreases stmts,
{
    proof {
        defs.lemma_dom_finite();
        assert(fn_table(defs@).dom() =~= defs@.dom());
    }
    let ghost st = names_of(stack@);
    let ghost sm = stmts_model(stmts@);
    proof {
        lemma_stmts_model_len(stmts@);
    }
    assert(sm.take(0) =~= Seq::<StmtModel>::empty());
    let ghost input = stmts@;
    assert(stmts@.len() == stmts.len());
    let mut items = stmts;
    let mut out: Vec<Stmt> = Vec::new();
    let mut k: usize = 0;
    assert(items@ =~= input.subrange(0, input.len() as int));
    assert(input.take(0) =~= Seq::<Stmt>::empty());
    while items.len() > 0
        invariant
            k + items@.len() == input.len(),
            items@ == input.subrange(k as int, input.len() as int),
            calls_settled(out@, defs@.dom()),
            gates_settled(input.take(k as int), gates) ==> gates_settled(out@, gates),
            input == stmts@,
            sm == stmts_model(input),
            sm.len() == input.len(),
            st == names_of(stack@),
            inlined_stmts(sm.take(k as int), fn_table(defs@), st) == Ok::<Seq<StmtModel>, Seq<char>>(stmts_model(out@)),
        decreases items@.len(),
    {
        let s = items.remove(0);
        proof {
            assert(s == input[k as int]);
            assert(decreases_to!(stmts => stmts@));
            assert(decreases_to!(stmts@ => stmts@[k as int]));
            assert(input.take(k + 1).drop_last() =~= input.take(k as int));
            assert(input.take(k + 1).last() == input[k as int]);
            lemma_stmts_model_index(input, k as int);
            assert(sm.take(k + 1).drop_last() =~= sm.take(k as int));
            assert(sm.take(k + 1).last() == stmt_model(s));
        }
        let ghost before = out@;
        let t = match inline_functions_in_statement(s, defs, stack, Ghost(gates)) {
            Ok(t) => t,
            Err(err) => {
                proof {
                    lemma_stmts_prefix(sm, k + 1, fn_table(defs@), st);
                }
                return Err(err);
            },
        };
        out.push(t);
        assert(out@.drop_last() =~= before);
        proof {
            assert(out@ =~= before.push(t));
            lemma_stmts_model_push(before, t);
        }
        k += 1;
        assert(items@ =~= input.subrange(k as int, input.len() as int));
    }
    assert(input.take(input.len() as int) =~= input);
    assert(sm.take(sm.len() as int) =~= sm);
    Ok(out)
}

/// The statement with every function call in its expressions inlined.
fn inline_functions_in_statement(
    s: Stmt,
    defs: &NameMap<FunctionDefinition>,
    stack: &Vec<String>,
    Ghost(gates): Ghost<Set<Seq<char>>>,
) -> (r: Result<Stmt, InlineError>)
    requires
        stack_ok(stack@, *defs),
    ensures
        r matches Ok(t) ==> stmt_calls_settled(t, defs@.dom()),
        r matches Ok(t) ==> (gate_settled(s, gates) ==> gate_settled(t, gates)),
        r matches Err(err) ==> function_failure(err.message@, defs@.dom()),
        match inlined_stmt(stmt_model(s), fn_table(defs@), names_of(stack@)) {
            Ok(m) => r matches Ok(t) && stmt_model(t) == m,
            Err(msg) => r matches Err(err) && err.message@ == msg,
        },
    decreases s,
{
    proof {
        defs.lemma_dom_finite();
        assert(fn_table(defs@).dom() =~= defs@.dom());
    }
    let ghost st = names_of(stack@);
    match s {
        Stmt::ClassicalDecl { qualifier, ty, name, init, span } => {
            let init = inline_function_opt(init, defs, stack)?;
            Ok(Stmt::ClassicalDecl { qualifier, ty, name, init, span })
        },
        Stmt::Assignment { name, op, value, span } => {
            let value = inline_function_expr(value, defs, stack)?;
            Ok(Stmt::Assignment { name, op, value, span })
        },
        Stmt::GateCall { name, modifiers, params, args, span } => {
            let ghost mods_in = modifiers@;
            let ghost mm = modifiers_model(mods_in);
            let ghost params_in = params@;
            let ghost pm = exprs_model(params_in);
            let ghost s0 = StmtModel::GateCall {
                name: name@,
                modifiers: mm,
                params: pm,
                args: operands_model(args@),
                span,
            };
            assert(stmt_model(s) == s0);
            let mut mods: Vec<GateModifier> = Vec::new();
            let mut items = modifiers;
            assert(items@ =~= mods_in.subrange(0, mods_in.len() as int));
            assert(mm.take(0) =~= Seq::<ModifierModel>::empty());
            assert(modifiers_model(mods@) =~= Seq::<ModifierModel>::empty());
            while items.len() > 0
                invariant
                    mods@.len() + items@.len() == mods_in.len(),
                    items@ == mods_in.subrange(mods@.len() as int, mods_in.len() as int),
                    mm == modifiers_model(mods_in),
                    stmt_model(s) == s0,
                    s0 matches StmtModel::GateCall { modifiers: m0, params: p0, .. } && m0 == mm && p0 == pm,
                    st == names_of(stack@),
                    stack_ok(stack@, *defs),
                    chain_ok(st, fn_table(defs@)),
                    forall|i: int| 0 <= i < mods@.len() ==> modifier_settled(#[trigger] mods@[i], defs@.dom()),
                    inlined_modifiers(mm.take(mods@.len() as int), fn_table(defs@), st) == Ok::<Seq<ModifierModel>, Seq<char>>(
                        modifiers_model(mods@),
                    ),
                decreases items@.len(),
            {
                let m = items.remove(0);
                let ghost before = mods@;
                let ghost j = before.len() as int;
                proof {
                    assert(m == mods_in[j]);
                    assert(mm.take(j + 1).drop_last() =~= mm.take(j));
                    assert(mm.take(j + 1).last() == modifier_model(m));
                }
                let n = match m {
                    GateModifier::Ctrl(e, sp) => match inline_function_opt(e, defs, stack) {
                        Ok(x) => GateModifier::Ctrl(x, sp),
                        Err(err) => {
                            proof {
                                lemma_mods_prefix(mm, j + 1, fn_table(defs@), st);
                            }
                            return Err(err);
                        },
                    },
                    GateModifier::NegCtrl(e, sp) => match inline_function_opt(e, defs, stack) {
                        Ok(x) => GateModifier::NegCtrl(x, sp),
                        Err(err) => {
                            proof {
                                lemma_mods_prefix(mm, j + 1, fn_table(defs@), st);
                            }
                            return Err(err);
                        },
                    },
                    GateModifier::Inv(sp) => GateModifier::Inv(sp),
                    GateModifier::Pow(e, sp) => match inline_function_expr(e, defs, stack) {
                        Ok(x) => GateModifier::Pow(x, sp),
                        Err(err) => {
                            proof {
                                lemma_mods_prefix(mm, j + 1, fn_table(defs@), st);
                            }
                            return Err(err);
                        },
                    },
                };
                mods.push(n);
                assert(mods@[mods@.len() - 1] == n);
                assert forall|i: int| 0 <= i < mods@.len() implies modifier_settled(#[trigger] mods@[i], defs@.dom()) by {
                    if i < mods@.len() - 1 {
                        assert(mods@[i] == before[i]);
                    }
                }
                assert(modifiers_model(mods@) =~= modifiers_model(before).push(modifier_model(n)));
                assert(items@ =~= mods_in.subrange(mods@.len() as int, mods_in.len() as int));
            }
            assert(mm.take(mods@.len() as int) =~= mm);
            proof {
                lemma_exprs_model_len(params_in);
            }
            let mut ps: Vec<Expr> = Vec::new();
            let mut pitems = params;
            assert(pitems@ =~= params_in.subrange(0, params_in.len() as int));
            assert(pm.take(0) =~= Seq::<ExprModel>::empty());
            while pitems.len() > 0
                invariant
                    ps@.len() + pitems@.len() == params_in.len(),
                    pitems@ == params_in.subrange(ps@.len() as int, params_in.len() as int),
                    pm == exprs_model(params_in),
                    pm.len() == params_in.len(),
                    stmt_model(s) == s0,
                    s0 matches StmtModel::GateCall { modifiers: m0, params: p0, .. } && m0 == mm && p0 == pm,
                    inlined_modifiers(mm, fn_table(defs@), st) == Ok::<Seq<ModifierModel>, Seq<char>>(modifiers_model(mods@)),
                    st == names_of(stack@),
                    stack_ok(stack@, *defs),
                    chain_ok(st, fn_table(defs@)),
                    forall|i: int| 0 <= i < ps@.len() ==> expr_settled(#[trigger] ps@[i], defs@.dom()),
                    inlined_args(pm.take(ps@.len() as int), fn_table(defs@), st) == Ok::<Seq<ExprModel>, Seq<char>>(
                        exprs_model(ps@),
                    ),
                decreases pitems@.len(),
            {
                let p = pitems.remove(0);
                let ghost before = ps@;
                let ghost j = before.len() as int;
                proof {
                    assert(p == params_in[j]);
                    lemma_exprs_model_index(params_in, j);
                    assert(pm.take(j + 1).drop_last() =~= pm.take(j));
                    assert(pm.take(j + 1).last() == expr_model(p));
                }
                let x = match inline_function_expr(p, defs, stack) {
                    Ok(x) => x,
                    Err(err) => {
                        proof {
                            lemma_args_prefix(pm, j + 1, fn_table(defs@), st);
                        }
                        return Err(err);
                    },
                };
                ps.push(x);
                assert forall|i: int| 0 <= i < ps@.len() implies expr_settled(#[trigger] ps@[i], defs@.dom()) by {
                    if i < ps@.len() - 1 {
                        assert(ps@[i] == before[i]);
                    }
                }
                proof {
                    assert(ps@ =~= before.push(x));
                    lemma_exprs_model_push(before, x);
                }
                assert(pitems@ =~= params_in.subrange(ps@.len() as int, params_in.len() as int));
            }
            assert(pm.take(ps@.len() as int) =~= pm);
            Ok(Stmt::GateCall { name, modifiers: mods, params: ps, args, span })
        },
        Stmt::GateDef { name, params, qparams, body, span } => {
            let body = inline_functions_in_statements(body, defs, stack, Ghost(gates))?;
            Ok(Stmt::GateDef { name, params, qparams, body, span })
        },
        Stmt::FunctionDef { name, params, return_type, body, span } => {
            let body = inline_function_expr(body, defs, stack)?;
            Ok(Stmt::FunctionDef { name, params, return_type, body, span })
        },
        Stmt::If { condition, then_body, else_body, span } => {
            let condition = inline_function_expr(condition, defs, stack)?;
            let then_body = inline_functions_in_statements(then_body, defs, stack, Ghost(gates))?;
            let else_body = match else_body {
                Some(b) => {
                    proof {
                        assert(decreases_to!(s => else_body));
                    }
                    Some(inline_functions_in_statements(b, defs, stack, Ghost(gates))?)
                },
                None => None,
            };
            Ok(Stmt::If { condition, then_body, else_body, span })
        },
        Stmt::For { var_name, var_ty, range, body, span } => {
            let start = inline_function_expr(range.start, defs, stack)?;
            let end = inline_function_expr(range.end, defs, stack)?;
            let step = inline_function_opt(range.step, defs, stack)?;
            let body = inline_functions_in_statements(body, defs, stack, Ghost(gates))?;
            Ok(Stmt::For { var_name, var_ty, range: crate::ast::ForRange { start, end, step }, body, span })
        },
        Stmt::While { condition, body, span } => {
            let condition = inline_function_expr(condition, defs, stack)?;
            let body = inline_functions_in_statements(body, defs, stack, Ghost(gates))?;
            Ok(Stmt::While { condition, body, span })
        },
        Stmt::Delay { duration, targets, span } => {
            let duration = inline_function_expr(duration, defs, stack)?;
            Ok(Stmt::Delay { duration, targets, span })
        },
        other => Ok(other),
    }
}

proof fn lemma_expr_settled_mono(e: Expr, big: Set<Seq<char>>, small: Set<Seq<char>>)
    requires
        expr_settled(e, big),
        small.subset_of(big),
    ensures
        expr_settled(e, small),
    decreases e, 1nat,
{
    match e {
        Expr::Call { args, .. } => {
            assert(decreases_to!(e => args));
            assert(decreases_to!(args => args@));
            lemma_exprs_settled_mono(args@, big, small);
        },
        Expr::Neg(inner, _) => lemma_expr_settled_mono(*inner, big, small),
        Expr::BinOp { lhs, rhs, .. } => {
            lemma_expr_settled_mono(*lhs, big, small);
            lemma_expr_settled_mono(*rhs, big, small);
        },
        Expr::Compare { lhs, rhs, .. } => {
            lemma_expr_settled_mono(*lhs, big, small);
            lemma_expr_settled_mono(*rhs, big, small);
        },
        _ => {},
    }
}

proof fn lemma_exprs_settled_mono(v: Seq<Expr>, big: Set<Seq<char>>, small: Set<Seq<char>>)
    requires
        exprs_settled(v, big),
        small.subset_of(big),
    ensures
        exprs_settled(v, small),
    decreases v, 0nat,
{
    if v.len() > 0 {
        assert(decreases_to!(v => v.drop_last()));
        assert(decreases_to!(v => v[v.len() - 1]));
        lemma_exprs_settled_mono(v.drop_last(), big, small);
        lemma_expr_settled_mono(v.last(), big, small);
    }
}

proof fn lemma_opt_settled_mono(e: Option<Expr>, big: Set<Seq<char>>, small: Set<Seq<char>>)
    requires
        opt_settled(e, big),
        small.subset_of(big),
    ensures
        opt_settled(e, small),
{
    if let Some(x) = e {
        lemma_expr_settled_mono(x, big, small);
    }
}

proof fn lemma_stmt_calls_settled_mono(s: Stmt, big: Set<Seq<char>>, small: Set<Seq<char>>)
    requires
        stmt_calls_settled(s, big),
        small.subset_of(big),
    ensures
        stmt_calls_settled(s, small),
    decreases s, 1nat,
{
    match s {
        Stmt::ClassicalDecl { init, .. } => lemma_opt_settled_mono(init, big, small),
        Stmt::Assignment { value, .. } => lemma_expr_settled_mono(value, big, small),
        Stmt::GateCall { modifiers, params, .. } => {
            assert forall|i: int| 0 <= i < modifiers@.len() implies modifier_settled(
                #[trigger] modifiers@[i],
                small,
            ) by {
                match modifiers@[i] {
                    GateModifier::Ctrl(e, _) => lemma_opt_settled_mono(e, big, small),
                    GateModifier::NegCtrl(e, _) => lemma_opt_settled_mono(e, big, small),
                    GateModifier::Inv(_) => {},
                    GateModifier::Pow(e, _) => lemma_expr_settled_mono(e, big, small),
                }
            }
            assert forall|i: int| 0 <= i < params@.len() implies expr_settled(#[trigger] params@[i], small) by {
                lemma_expr_settled_mono(params@[i], big, small);
            }
        },
        Stmt::GateDef { body, .. } => {
            assert(decreases_to!(s => body));
            assert(decreases_to!(body => body@));
            lemma_calls_settled_mono(body@, big, small);
        },
        Stmt::FunctionDef { body, .. } => lemma_expr_settled_mono(body, big, small),
        Stmt::If { condition, then_body, else_body, .. } => {
            assert(decreases_to!(s => then_body));
            assert(decreases_to!(then_body => then_body@));
            lemma_expr_settled_mono(condition, big, small);
            lemma_calls_settled_mono(then_body@, big, small);
            if let Some(e) = else_body {
                assert(decreases_to!(s => else_body));
                assert(decreases_to!(else_body => e));
                assert(decreases_to!(e => e@));
                lemma_calls_settled_mono(e@, big, small);
            }
        },
        Stmt::For { range, body, .. } => {
            assert(decreases_to!(s => body));
            assert(decreases_to!(body => body@));
            lemma_expr_settled_mono(range.start, big, small);
            lemma_expr_settled_mono(range.end, big, small);
            lemma_opt_settled_mono(range.step, big, small);
            lemma_calls_settled_mono(body@, big, small);
        },
        Stmt::While { condition, body, .. } => {
            assert(decreases_to!(s => body));
            assert(decreases_to!(body => body@));
            lemma_expr_settled_mono(condition, big, small);
            lemma_calls_settled_mono(body@, big, small);
        },
        Stmt::Delay { duration, .. } => lemma_expr_settled_mono(duration, big, small),
        _ => {},
    }
}

proof fn lemma_calls_settled_mono(v: Seq<Stmt>, big: Set<Seq<char>>, small: Set<Seq<char>>)
    requires
        calls_settled(v, big),
        small.subset_of(big),
    ensures
        calls_settled(v, small),
    decreases v, 0nat,
{
    if v.len() > 0 {
        assert(decreases_to!(v => v.drop_last()));
        assert(decreases_to!(v => v[v.len() - 1]));
        lemma_calls_settled_mono(v.drop_last(), big, small);
        lemma_stmt_calls_settled_mono(v.last(), big, small);
    }
}

/// Dropping statements keeps every expression of the rest settled.
proof fn lemma_filter_calls_settled(v: Seq<Stmt>, f: spec_fn(Stmt) -> bool, defined: Set<Seq<char>>)
    requires
        calls_settled(v, defined),
    ensures
        calls_settled(v.filter(f), defined),
    decreases v.len(),
{
    reveal(Seq::filter);
    if v.len() > 0 {
        lemma_filter_calls_settled(v.drop_last(), f, defined);
        if f(v.last()) {
            assert(v.filter(f).drop_last() =~= v.drop_last().filter(f));
        }
    }
}

/// Statements that a filter keeps keep their function definitions.
proof fn lemma_filter_function_names(v: Seq<Stmt>, f: spec_fn(Stmt) -> bool)
    requires
        forall|i: int| 0 <= i < v.len() && #[trigger] function_def_name(v[i]) is Some ==> f(v[i]),
    ensures
        function_names(v).subset_of(function_names(v.filter(f))),
{
    broadcast use Seq::lemma_filter_contains;
    assert forall|n: Seq<char>| function_names(v).contains(n) implies function_names(v.filter(f)).contains(n) by {
        let j = choose|j: int| 0 <= j < v.len() && #[trigger] function_def_name(v[j]) == Some(n);
        assert(v.filter(f).contains(v[j]));
        let k = choose|k: int| 0 <= k < v.filter(f).len() && v.filter(f)[k] == v[j];
        assert(function_def_name(v.filter(f)[k]) == Some(n));
    }
}

/// The functions defined at the top level of `stmts`, by name; a later
/// definition of a name replaces an earlier one.
/// The functions defined at the top level of `stmts`, by name, as their
/// parameter names and expression; a later definition of a name replaces
/// an earlier one.
pub open spec fn fn_defs_table(stmts: Seq<Stmt>) -> Map<Seq<char>, FnModel>
    decreases stmts.len(),
{
    if stmts.len() == 0 {
        Map::empty()
    } else {
        let t = fn_defs_table(stmts.drop_last());
        match stmts.last() {
            Stmt::FunctionDef { name, params, body, .. } => t.insert(
                name@,
                (params@.map_values(|p: (crate::ast::ClassicalType, String)| p.1@), expr_model(body)),
            ),
            _ => t,
        }
    }
}

fn collect_function_definitions(stmts: &Vec<Stmt>) -> (r: NameMap<FunctionDefinition>)
    ensures
        r@.dom() == function_names(stmts@),
        fn_table(r@) == fn_defs_table(stmts@),
{
    let mut defs: NameMap<FunctionDefinition> = NameMap::new();
    let mut i: usize = 0;
    while i < stmts.len()
        invariant
            i <= stmts@.len(),
            defs@.dom() == function_names(stmts@.take(i as int)),
            fn_table(defs@) == fn_defs_table(stmts@.take(i as int)),
        decreases stmts@.len() - i,
    {
        let ghost before = defs@.dom();
        let ghost m0 = defs@;
        proof {
            assert(stmts@.take(i + 1).drop_last() =~= stmts@.take(i as int));
            assert(stmts@.take(i + 1).last() == stmts@[i as int]);
        }
        if let Stmt::FunctionDef { name, params, body, .. } = &stmts[i] {
            let mut names: Vec<String> = Vec::new();
            let mut j: usize = 0;
            while j < params.len()
                invariant
                    j <= params@.len(),
                    names@.len() == j,
                    names_of(names@) == params@.take(j as int).map_values(
                        |p: (crate::ast::ClassicalType, String)| p.1@,
                    ),
                decreases params@.len() - j,
            {
                let ghost n0 = names@;
                let c = params[j].1.clone();
                names.push(c);
                assert forall|i: int| 0 <= i < j + 1 implies #[trigger] names_of(names@)[i] == params@[i].1@ by {
                    if i < j {
                        assert(names@[i] == n0[i]);
                        assert(names_of(n0)[i] == params@.take(j as int).map_values(
                            |p: (crate::ast::ClassicalType, String)| p.1@,
                        )[i]);
                    }
                }
                assert(names_of(names@) =~= params@.take(j + 1).map_values(
                    |p: (crate::ast::ClassicalType, String)| p.1@,
                ));
                j += 1;
            }
            assert(params@.take(j as int) =~= params@);
            let d = FunctionDefinition { params: names, body: body.clone() };
            defs.insert(name.clone(), d);
            proof {
                assert(fn_table(defs@) =~= fn_table(m0).insert(
                    name@,
                    (params@.map_values(|p: (crate::ast::ClassicalType, String)| p.1@), expr_model(*body)),
                ));
            }
        }
        proof {
            let t = stmts@.take(i + 1);
            assert forall|n: Seq<char>| function_names(t).contains(n) == defs@.dom().contains(n) by {
                if function_names(t).contains(n) {
                    let j = choose|j: int| 0 <= j < t.len() && #[trigger] function_def_name(t[j]) == Some(n);
                    if j < i {
                        assert(stmts@.take(i as int)[j] == t[j]);
                        assert(function_names(stmts@.take(i as int)).contains(n));
                    }
                }
                if before.contains(n) {
                    let j = choose|j: int|
                        0 <= j < stmts@.take(i as int).len() && #[trigger] function_def_name(
                            stmts@.take(i as int)[j],
                        ) == Some(n);
                    assert(t[j] == stmts@.take(i as int)[j]);
                }
                if function_def_name(stmts@[i as int]) == Some(n) {
                    assert(t[i as int] == stmts@[i as int]);
                }
            }
            assert(function_names(t) =~= defs@.dom());
        }
        i += 1;
    }
    assert(stmts@.take(stmts@.len() as int) =~= stmts@);
    defs
}

/// Inline the functions that `program` defines into its expressions and
/// drop their definitions; settledness of gate calls is kept.
/// `r` is what inlining the functions of `stmts` gives: the statements with
/// every function call inlined and the function definitions dropped, or the
/// first inlining failure.
pub open spec fn functions_inlined(stmts: Seq<Stmt>, r: Result<Program, InlineError>) -> bool {
    match inlined_stmts(stmts_model(stmts), fn_defs_table(stmts), seq![]) {
        Ok(m) => r matches Ok(p) && exists|e: Seq<Stmt>|
            stmts_model(e) == m && #[trigger] p.statements@ == e.filter(|s: Stmt| function_def_name(s) is None),
        Err(msg) => r matches Err(err) && err.message@ == msg,
    }
}

fn inline_functions(program: Program, Ghost(gates): Ghost<Set<Seq<char>>>) -> (r: Result<Program, InlineError>)
    ensures
        functions_inlined(program.statements@, r),
        r matches Ok(p) ==> p.version@ == program.version@,
        r matches Ok(p) ==> {
            &&& p.version@ == program.version@
            &&& forall|i: int| 0 <= i < p.statements@.len() ==> #[trigger] function_def_name(p.statements@[i]) is None
            &&& calls_settled(p.statements@, function_names(program.statements@))
            &&& gates_settled(program.statements@, gates) ==> gates_settled(p.statements@, gates)
        },
        r matches Err(e) ==> function_failure(e.message@, function_names(program.statements@)),
{
    let defs = collect_function_definitions(&program.statements);
    let stack: Vec<String> = Vec::new();
    proof {
        assert(names_of(stack@) =~= Seq::<Seq<char>>::empty());
    }
    let Program { version, statements } = program;
    proof {
        defs.lemma_dom_finite();
        assert(fn_table(defs@).dom() =~= defs@.dom());
    }
    let inlined = inline_functions_in_statements(statements, &defs, &stack, Ghost(gates))?;
    let ghost e = inlined@;
    assert(inlined@.len() == inlined.len());
    let mut kept: Vec<Stmt> = Vec::new();
    let mut items = inlined;
    let mut k: usize = 0;
    assert(items@ =~= e.subrange(0, e.len() as int));
    reveal(Seq::filter);
    let ghost keep = |s: Stmt| function_def_name(s) is None;
    while items.len() > 0
        invariant
            k + items@.len() == e.len(),
            items@ == e.subrange(k as int, e.len() as int),
            kept@ == e.take(k as int).filter(keep),
            keep == (|s: Stmt| function_def_name(s) is None),
            e.len() <= usize::MAX,
        decreases items@.len(),
    {
        let s = items.remove(0);
        proof {
            reveal(Seq::filter);
            assert(s == e[k as int]);
            assert(e.take(k + 1).drop_last() =~= e.take(k as int));
            assert(e.take(k + 1).last() == e[k as int]);
        }
        let is_def = match &s {
            Stmt::FunctionDef { .. } => true,
            _ => false,
        };
        if !is_def {
            kept.push(s);
        }
        k += 1;
        assert(items@ =~= e.subrange(k as int, e.len() as int));
    }
    proof {
        assert(e.take(e.len() as int) =~= e);
        lemma_filter_calls_settled(e, keep, defs@.dom());
        if gates_settled(e, gates) {
            lemma_filter_settled(e, keep, gates);
        }
        assert forall|i: int| 0 <= i < kept@.len() implies #[trigger] function_def_name(kept@[i]) is None by {
            e.lemma_filter_pred(keep, i);
        }
    }
    let r = Program { version, statements: kept };
    assert(r.statements@ == e.filter(|s: Stmt| function_def_name(s) is None));
    Ok(r)
}

/// Inline user-defined gates and single-expression classical functions.
///
/// On success no unmodified call of a gate that the program defines is
/// left, no function definition is left, and no expression calls a
/// function that the program defines.
pub fn inline_definitions(program: &Program) -> (r: Result<Program, InlineError>)
    ensures
        r matches Ok(p) ==> {
            &&& p.version@ == program.version@
            &&& gates_settled(p.statements@, gate_names(program.statements@))
            &&& forall|i: int| 0 <= i < p.statements@.len() ==> #[trigger] function_def_name(p.statements@[i]) is None
            &&& calls_settled(p.statements@, function_names(program.statements@))
        },
        match inlined_gates(stmts_model(program.statements@), gate_table(program.statements@), seq![]) {
            Ok(m) => exists|e: Seq<Stmt>|
                stmts_model(e) == m && functions_inlined(#[trigger] kept_definitions(e, gate_names(program.statements@)), r),
            Err(msg) => r matches Err(err) && err.message@ == msg,
        },
{
    let gated = inline_gate_definitions(program)?;
    let ghost gs = gated.statements@;
    let ghost mid = gated.statements@;
    let r = inline_functions(gated, Ghost(gate_names(program.statements@)));
    match r {
        Ok(p) => {
            proof {
                lemma_calls_settled_mono(p.statements@, function_names(mid), function_names(program.statements@));
            }
            Ok(p)
        },
        Err(e) => Err(e),
    }
}

} // verus!
