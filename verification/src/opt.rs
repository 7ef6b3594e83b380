//! Circuit optimization passes operating on the DAG.
//!
//! Each pass is a graph rewrite. Cancellation removes pairs of gates that
//! multiply to the identity: adjacent self-inverse gates (H·H, X·X, CX·CX …),
//! the inverse pairs S·S† and T·T†, opposite rotations, and such pairs
//! separated by one gate that commutes with them. The scan repeats until
//! nothing changes, since a removal can expose a new pair.

use vstd::prelude::*;

use crate::ast::Stmt;
use crate::hir::{hir_stmt_wf, hir_stmts_wf, lemma_stmts_wf_index, lemma_stmts_wf_push, HirProgram, HirStmt};
use crate::ir::{
    is_live_gate, is_live_op, op_qubits, param_same, CircuitDAG, DAGNode, Modifier, NodeId, Op, Param, ParamOp,
};
use crate::text::{eq_ignore_ascii_case, eq_ignore_ascii_case_spec, string_of};

verus! {

broadcast use vstd::seq::group_seq_axioms;

/// Statistics returned by an optimization pass.
#[derive(Debug)]
pub struct OptStats {
    /// Number of gates removed.
    pub gates_removed: usize,
}

#[derive(Debug)]
pub struct DecomposeStats {
    pub gates_decomposed: usize,
}

impl Default for OptStats {
    fn default() -> (r: Self)
        ensures
            r.gates_removed == 0,
    {
        OptStats { gates_removed: 0 }
    }
}

impl Default for DecomposeStats {
    fn default() -> (r: Self)
        ensures
            r.gates_decomposed == 0,
    {
        DecomposeStats { gates_decomposed: 0 }
    }
}

// ── Gate algebra ────────────────────────────────────────────

pub open spec fn eqi(a: Seq<char>, b: Seq<char>) -> bool {
    eq_ignore_ascii_case_spec(a, b)
}

/// Gates that are their own inverse (case-insensitive).
pub open spec fn self_inverse(name: Seq<char>) -> bool {
    eqi(name, "h"@) || eqi(name, "x"@) || eqi(name, "y"@) || eqi(name, "z"@) || eqi(name, "cx"@)
        || eqi(name, "cnot"@) || eqi(name, "cz"@) || eqi(name, "swap"@)
}

/// `S`/`S†` and `T`/`T†`, in either order (case-insensitive).
pub open spec fn inverse_pair(a: Seq<char>, b: Seq<char>) -> bool {
    ||| eqi(a, "s"@) && eqi(b, "sdg"@)
    ||| eqi(a, "sdg"@) && eqi(b, "s"@)
    ||| eqi(a, "t"@) && eqi(b, "tdg"@)
    ||| eqi(a, "tdg"@) && eqi(b, "t"@)
}

/// Single-angle rotations, inverted by negating the angle.
pub open spec fn rotation(name: Seq<char>) -> bool {
    eqi(name, "rx"@) || eqi(name, "ry"@) || eqi(name, "rz"@) || eqi(name, "p"@)
}

/// Gates diagonal in the computational basis.
pub open spec fn diagonal(name: Seq<char>) -> bool {
    eqi(name, "z"@) || eqi(name, "s"@) || eqi(name, "sdg"@) || eqi(name, "t"@) || eqi(name, "tdg"@)
        || eqi(name, "rz"@) || eqi(name, "p"@)
}

/// Gates that are rotations about the X axis.
pub open spec fn x_axis(name: Seq<char>) -> bool {
    eqi(name, "x"@) || eqi(name, "sx"@) || eqi(name, "rx"@)
}

/// The axis (0 for X, 1 for Y, 2 for Z) and the angle, in eighths of a turn,
/// of a parameterless gate that turns one qubit about a fixed axis: `x`, `sx`,
/// `y`, `z`, `s`, `sdg`, `t` and `tdg` (case-insensitive).
pub open spec fn fixed_turn(name: Seq<char>) -> Option<(int, int)> {
    if eqi(name, "x"@) {
        Some((0, 4))
    } else if eqi(name, "sx"@) {
        Some((0, 2))
    } else if eqi(name, "y"@) {
        Some((1, 4))
    } else if eqi(name, "z"@) {
        Some((2, 4))
    } else if eqi(name, "s"@) {
        Some((2, 2))
    } else if eqi(name, "sdg"@) {
        Some((2, 6))
    } else if eqi(name, "t"@) {
        Some((2, 1))
    } else if eqi(name, "tdg"@) {
        Some((2, 7))
    } else {
        None
    }
}

/// Standard gates that square to the identity (case-insensitive): the
/// Hadamard and Pauli gates, their controlled forms, and the swaps.
pub open spec fn involution(name: Seq<char>) -> bool {
    eqi(name, "h"@) || eqi(name, "x"@) || eqi(name, "y"@) || eqi(name, "z"@) || eqi(name, "cx"@)
        || eqi(name, "cnot"@) || eqi(name, "cy"@) || eqi(name, "cz"@) || eqi(name, "ch"@) || eqi(
        name,
        "swap"@,
    ) || eqi(name, "ccx"@) || eqi(name, "cswap"@)
}

/// One parameter is the negation of the other.
pub open spec fn negations(a: Param, b: Param) -> bool {
    (a matches Param::Neg(inner) && param_same(*inner, b)) || (b matches Param::Neg(inner)
        && param_same(*inner, a))
}

pub open spec fn params_same(a: Seq<Param>, b: Seq<Param>) -> bool {
    a.len() == b.len() && forall|i: int| 0 <= i < a.len() ==> #[trigger] param_same(a[i], b[i])
}

/// Two gate operations multiply to the identity: the same self-inverse
/// gate with the same parameters, an `S`/`T` inverse pair, or opposite
/// rotations — unmodified and on the same wires in the same order.
pub open spec fn cancels(a: Op, b: Op) -> bool {
    match (a, b) {
        (
            Op::Gate { name: na, modifiers: ma, params: pa, qubits: qa },
            Op::Gate { name: nb, modifiers: mb, params: pb, qubits: qb },
        ) => {
            let same = params_same(pa@, pb@);
            let inverse_rotation = eqi(na@, nb@) && rotation(na@) && pa@.len() == 1 && pb@.len() == 1
                && negations(pa@[0], pb@[0]);
            &&& ma@.len() == 0
            &&& mb@.len() == 0
            &&& qa@ == qb@
            &&& {
                ||| eqi(na@, nb@) && same && self_inverse(na@)
                ||| inverse_pair(na@, nb@) && pa@.len() == 0 && pb@.len() == 0
                ||| inverse_rotation
            }
        },
        _ => false,
    }
}

/// An operation with no gate parameters.
pub open spec fn takes_no_parameters(op: Op) -> bool {
    match op {
        Op::Gate { params, .. } => params@.len() == 0,
        _ => true,
    }
}

/// Two parameterless gate operations that cancel multiply to the identity:
/// where either turns one qubit about a fixed axis, both turn about that axis
/// and their angles add up to whole turns (so `sx` never cancels with `sx`);
/// any other cancelling pair is one gate, up to case, that squares to the
/// identity.
pub proof fn law_cancelled_pairs_multiply_to_identity(a: Op, b: Op)
    requires
        cancels(a, b),
        takes_no_parameters(a),
        takes_no_parameters(b),
    ensures
        match (a, b) {
            (Op::Gate { name: na, .. }, Op::Gate { name: nb, .. }) => match (fixed_turn(na@), fixed_turn(nb@)) {
                (Some((xa, ta)), Some((xb, tb))) => xa == xb && (ta + tb) % 8 == 0,
                (None, None) => eqi(na@, nb@) && involution(na@),
                _ => false,
            },
            _ => false,
        },
{
    crate::text::lemma_eq_ignore_case_lowered();
    reveal_strlit("x");
    reveal_strlit("sx");
    reveal_strlit("y");
    reveal_strlit("z");
    reveal_strlit("s");
    reveal_strlit("sdg");
    reveal_strlit("t");
    reveal_strlit("tdg");
    reveal_strlit("h");
    reveal_strlit("cx");
    reveal_strlit("cnot");
    reveal_strlit("cy");
    reveal_strlit("cz");
    reveal_strlit("ch");
    reveal_strlit("swap");
    reveal_strlit("ccx");
    reveal_strlit("cswap");
    assert(crate::text::ascii_lowered("x"@) =~= "x"@);
    assert(crate::text::ascii_lowered("sx"@) =~= "sx"@);
    assert(crate::text::ascii_lowered("y"@) =~= "y"@);
    assert(crate::text::ascii_lowered("z"@) =~= "z"@);
    assert(crate::text::ascii_lowered("s"@) =~= "s"@);
    assert(crate::text::ascii_lowered("sdg"@) =~= "sdg"@);
    assert(crate::text::ascii_lowered("t"@) =~= "t"@);
    assert(crate::text::ascii_lowered("tdg"@) =~= "tdg"@);
    assert(crate::text::ascii_lowered("h"@) =~= "h"@);
    assert(crate::text::ascii_lowered("cx"@) =~= "cx"@);
    assert(crate::text::ascii_lowered("cnot"@) =~= "cnot"@);
    assert(crate::text::ascii_lowered("cy"@) =~= "cy"@);
    assert(crate::text::ascii_lowered("cz"@) =~= "cz"@);
    assert(crate::text::ascii_lowered("ch"@) =~= "ch"@);
    assert(crate::text::ascii_lowered("swap"@) =~= "swap"@);
    assert(crate::text::ascii_lowered("ccx"@) =~= "ccx"@);
    assert(crate::text::ascii_lowered("cswap"@) =~= "cswap"@);
    assert("x"@[0] == 'x' && "sx"@[0] == 's' && "y"@[0] == 'y' && "z"@[0] == 'z' && "s"@[0] == 's');
    assert("sdg"@[0] == 's' && "t"@[0] == 't' && "tdg"@[0] == 't' && "h"@[0] == 'h' && "swap"@[0] == 's');
    assert("cx"@[1] == 'x' && "cy"@[1] == 'y' && "cz"@[1] == 'z' && "ch"@[1] == 'h' && "cnot"@[1] == 'n');
    assert("ccx"@[1] == 'c' && "cswap"@[1] == 's');
}

/// Two unmodified one-qubit gates on the same wire that commute: both
/// diagonal, or both about the X axis.
pub open spec fn commute(a: Op, b: Op) -> bool {
    match (a, b) {
        (
            Op::Gate { name: na, modifiers: ma, qubits: qa, .. },
            Op::Gate { name: nb, modifiers: mb, qubits: qb, .. },
        ) => {
            &&& ma@.len() == 0
            &&& mb@.len() == 0
            &&& qa@.len() == 1
            &&& qb@.len() == 1
            &&& qa@ == qb@
            &&& (diagonal(na@) && diagonal(nb@)) || (x_axis(na@) && x_axis(nb@))
        },
        _ => false,
    }
}

fn is_self_inverse(name: &str) -> (r: bool)
    ensures
        r == self_inverse(name@),
{
    eq_ignore_ascii_case(name, "h") || eq_ignore_ascii_case(name, "x") || eq_ignore_ascii_case(name, "y")
        || eq_ignore_ascii_case(name, "z") || eq_ignore_ascii_case(name, "cx") || eq_ignore_ascii_case(
        name,
        "cnot",
    ) || eq_ignore_ascii_case(name, "cz") || eq_ignore_ascii_case(name, "swap")
}

fn are_inverse_pair(a: &str, b: &str) -> (r: bool)
    ensures
        r == inverse_pair(a@, b@),
{
    (eq_ignore_ascii_case(a, "s") && eq_ignore_ascii_case(b, "sdg")) || (eq_ignore_ascii_case(a, "sdg")
        && eq_ignore_ascii_case(b, "s")) || (eq_ignore_ascii_case(a, "t") && eq_ignore_ascii_case(b, "tdg"))
        || (eq_ignore_ascii_case(a, "tdg") && eq_ignore_ascii_case(b, "t"))
}

fn is_rotation(name: &str) -> (r: bool)
    ensures
        r == rotation(name@),
{
    eq_ignore_ascii_case(name, "rx") || eq_ignore_ascii_case(name, "ry") || eq_ignore_ascii_case(name, "rz")
        || eq_ignore_ascii_case(name, "p")
}

fn is_diagonal(name: &str) -> (r: bool)
    ensures
        r == diagonal(name@),
{
    eq_ignore_ascii_case(name, "z") || eq_ignore_ascii_case(name, "s") || eq_ignore_ascii_case(name, "sdg")
        || eq_ignore_ascii_case(name, "t") || eq_ignore_ascii_case(name, "tdg") || eq_ignore_ascii_case(
        name,
        "rz",
    ) || eq_ignore_ascii_case(name, "p")
}

fn is_x_axis(name: &str) -> (r: bool)
    ensures
        r == x_axis(name@),
{
    eq_ignore_ascii_case(name, "x") || eq_ignore_ascii_case(name, "sx") || eq_ignore_ascii_case(name, "rx")
}

fn params_are_negations(a: &Param, b: &Param) -> (r: bool)
    ensures
        r == negations(*a, *b),
{
    let left = match a {
        Param::Neg(inner) => inner.same(b),
        _ => false,
    };
    let right = match b {
        Param::Neg(inner) => inner.same(a),
        _ => false,
    };
    left || right
}

fn params_equal(a: &Vec<Param>, b: &Vec<Param>) -> (r: bool)
    ensures
        r == params_same(a@, b@),
{
    if a.len() != b.len() {
        return false;
    }
    let mut i: usize = 0;
    while i < a.len()
        invariant
            i <= a@.len(),
            a@.len() == b@.len(),
            forall|k: int| 0 <= k < i ==> #[trigger] param_same(a@[k], b@[k]),
        decreases a@.len() - i,
    {
        if !a[i].same(&b[i]) {
            return false;
        }
        i += 1;
    }
    true
}

fn wires_equal(a: &Vec<usize>, b: &Vec<usize>) -> (r: bool)
    ensures
        r == (a@ == b@),
{
    if a.len() != b.len() {
        return false;
    }
    let mut i: usize = 0;
    while i < a.len()
        invariant
            i <= a@.len(),
            a@.len() == b@.len(),
            forall|k: int| 0 <= k < i ==> a@[k] == b@[k],
        decreases a@.len() - i,
    {
        if a[i] != b[i] {
            return false;
        }
        i += 1;
    }
    assert(a@ =~= b@);
    true
}

/// Whether two operations cancel (see [`cancels`]).
pub fn ops_cancel(a: &Op, b: &Op) -> (r: bool)
    ensures
        r == cancels(*a, *b),
{
    match (a, b) {
        (
            Op::Gate { name: name_a, modifiers: mods_a, params: params_a, qubits: qubits_a },
            Op::Gate { name: name_b, modifiers: mods_b, params: params_b, qubits: qubits_b },
        ) => {
            if mods_a.len() != 0 || mods_b.len() != 0 {
                return false;
            }
            if !wires_equal(qubits_a, qubits_b) {
                return false;
            }
            let same = params_equal(params_a, params_b);
            let same_name = eq_ignore_ascii_case(name_a.as_str(), name_b.as_str());
            let inverse_rotation = same_name && is_rotation(name_a.as_str()) && params_a.len() == 1
                && params_b.len() == 1 && params_are_negations(&params_a[0], &params_b[0]);
            (same_name && same && is_self_inverse(name_a.as_str())) || (are_inverse_pair(
                name_a.as_str(),
                name_b.as_str(),
            ) && params_a.len() == 0 && params_b.len() == 0) || inverse_rotation
        },
        _ => false,
    }
}

/// Whether two operations commute (see [`commute`]).
pub fn ops_commute(a: &Op, b: &Op) -> (r: bool)
    ensures
        r == commute(*a, *b),
{
    match (a, b) {
        (
            Op::Gate { name: name_a, modifiers: mods_a, qubits: qubits_a, .. },
            Op::Gate { name: name_b, modifiers: mods_b, qubits: qubits_b, .. },
        ) => {
            if mods_a.len() != 0 || mods_b.len() != 0 || qubits_a.len() != 1 || qubits_b.len() != 1 {
                return false;
            }
            if !wires_equal(qubits_a, qubits_b) {
                return false;
            }
            (is_diagonal(name_a.as_str()) && is_diagonal(name_b.as_str())) || (is_x_axis(name_a.as_str())
                && is_x_axis(name_b.as_str()))
        },
        _ => false,
    }
}

// ── Inverse cancellation ────────────────────────────────────

/// Position of a node along its wire walk: later nodes rank lower, `Out`
/// nodes lowest.
pub open spec fn walk_rank(dag: &CircuitDAG, c: usize) -> int {
    if dag.is_out(c as int) {
        0
    } else {
        dag.len() + 1 - c
    }
}

proof fn lemma_gates_le_ops(nodes: Seq<DAGNode>)
    ensures
        crate::ir::count_gates(nodes) <= crate::ir::count_ops(nodes),
        crate::ir::count_ops(nodes) <= nodes.len(),
    decreases nodes.len(),
{
    if nodes.len() > 0 {
        lemma_gates_le_ops(nodes.drop_last());
    }
}

fn live_gate_at(dag: &CircuitDAG, id: NodeId) -> (r: bool)
    requires
        id < dag.len(),
    ensures
        r == is_live_gate(dag.nodes_view()[id as int]),
{
    let n = dag.node(id);
    !n.removed && n.op.is_gate()
}

/// `b` follows `a` on every wire of `a`.
fn adjacent_on_all_wires(dag: &CircuitDAG, a: NodeId, b: NodeId) -> (r: bool)
    requires
        dag.wf(),
        a < dag.len(),
    ensures
        r == forall|k: int|
            0 <= k < crate::ir::op_qubits(dag.nodes_view()[a as int].op).len() ==> crate::ir::first_on_wire(
                dag.succs(a as int),
                #[trigger] crate::ir::op_qubits(dag.nodes_view()[a as int].op)[k],
            ) == Some(b),
{
    let qubits = dag.node(a).op.qubits();
    let mut i: usize = 0;
    while i < qubits.len()
        invariant
            dag.wf(),
            a < dag.len(),
            qubits@ == crate::ir::op_qubits(dag.nodes_view()[a as int].op),
            i <= qubits@.len(),
            forall|k: int| 0 <= k < i ==> crate::ir::first_on_wire(dag.succs(a as int), #[trigger] qubits@[k]) == Some(b),
        decreases qubits@.len() - i,
    {
        match dag.wire_successor(a, qubits[i]) {
            Some(s) => {
                if s != b {
                    return false;
                }
            },
            None => {
                return false;
            },
        }
        i += 1;
    }
    true
}

/// `middle` follows `a` on `middle_wire` and `b` follows `middle` there;
/// on every other wire of `a`, `b` follows `a` directly.
fn commuting_separator_on_all_wires(dag: &CircuitDAG, a: NodeId, middle: NodeId, b: NodeId, middle_wire: usize) -> (r: bool)
    requires
        dag.wf(),
        a < dag.len(),
        middle < dag.len(),
    ensures
        r == forall|k: int|
            0 <= k < crate::ir::op_qubits(dag.nodes_view()[a as int].op).len() ==> #[trigger] separated_on(
                dag,
                a,
                middle,
                b,
                middle_wire,
                crate::ir::op_qubits(dag.nodes_view()[a as int].op)[k],
            ),
{
    let qubits = dag.node(a).op.qubits();
    let mut i: usize = 0;
    while i < qubits.len()
        invariant
            dag.wf(),
            a < dag.len(),
            middle < dag.len(),
            i <= qubits@.len(),
            qubits@ == crate::ir::op_qubits(dag.nodes_view()[a as int].op),
            forall|k: int| 0 <= k < i ==> #[trigger] separated_on(dag, a, middle, b, middle_wire, qubits@[k]),
        decreases qubits@.len() - i,
    {
        let wire = qubits[i];
        let successor = dag.wire_successor(a, wire);
        if wire == middle_wire {
            let after_middle = dag.wire_successor(middle, wire);
            let ok = match (successor, after_middle) {
                (Some(x), Some(y)) => x == middle && y == b,
                _ => false,
            };
            if !ok {
                assert(!separated_on(dag, a, middle, b, middle_wire, qubits@[i as int]));
                return false;
            }
        } else {
            let ok = match successor {
                Some(x) => x == b,
                None => false,
            };
            if !ok {
                assert(!separated_on(dag, a, middle, b, middle_wire, qubits@[i as int]));
                return false;
            }
        }
        i += 1;
    }
    true
}

/// On `wire`, `middle` then `b` follow `a` when `wire` is `middle_wire`,
/// and `b` follows `a` directly otherwise.
pub open spec fn separated_on(dag: &CircuitDAG, a: NodeId, middle: NodeId, b: NodeId, middle_wire: usize, wire: usize) -> bool {
    if wire == middle_wire {
        crate::ir::first_on_wire(dag.succs(a as int), wire) == Some(middle) && crate::ir::first_on_wire(
            dag.succs(middle as int),
            wire,
        ) == Some(b)
    } else {
        crate::ir::first_on_wire(dag.succs(a as int), wire) == Some(b)
    }
}

/// A gate whose name is one of `excluded`, ignoring ASCII case.
pub open spec fn excluded_gate(excluded: Seq<String>, op: Op) -> bool {
    match op {
        Op::Gate { name, .. } => exists|i: int|
            0 <= i < excluded.len() && #[trigger] eq_ignore_ascii_case_spec(excluded[i]@, name@),
        _ => false,
    }
}

#[verifier::loop_isolation(false)]
fn is_excluded(excluded: &Vec<String>, op: &Op) -> (r: bool)
    ensures
        r == excluded_gate(excluded@, *op),
{
    match op {
        Op::Gate { name, .. } => {
            let mut i: usize = 0;
            while i < excluded.len()
                invariant
                    i <= excluded@.len(),
                    forall|j: int| 0 <= j < i ==> !eq_ignore_ascii_case_spec(#[trigger] excluded@[j]@, name@),
                decreases excluded@.len() - i,
            {
                if eq_ignore_ascii_case(excluded[i].as_str(), name.as_str()) {
                    assert(eq_ignore_ascii_case_spec(excluded@[i as int]@, name@));
                    return true;
                }
                i += 1;
            }
            false
        },
        _ => false,
    }
}

/// `a` was removed together with `b`, and `a` cancels `b` without being a
/// gate named in `excluded`.
pub open spec fn removed_pair(excluded: Seq<String>, a: Op, b: Op) -> bool {
    cancels(a, b) && !excluded_gate(excluded, a)
}

/// A node that `after` has removed and `before` had not.
pub open spec fn newly_removed(after: Seq<DAGNode>, before: Seq<DAGNode>, i: int) -> bool {
    after[i].removed && !before[i].removed
}

/// What cancellation does to the nodes of a circuit: each node keeps its
/// operation, no removed node comes back, and every node it removes was a
/// live gate removed together with a partner, one of the two cancelling the
/// other.
pub open spec fn cancelled_from(after: Seq<DAGNode>, before: Seq<DAGNode>, excluded: Seq<String>) -> bool {
    &&& after.len() == before.len()
    &&& forall|i: int| 0 <= i < after.len() ==> (#[trigger] after[i]).op == before[i].op && after[i].id == before[i].id
    &&& forall|i: int| 0 <= i < after.len() && #[trigger] before[i].removed ==> after[i].removed
    &&& forall|i: int|
        0 <= i < after.len() && #[trigger] newly_removed(after, before, i) ==> {
            &&& is_live_gate(before[i])
            &&& exists|j: int|
                0 <= j < after.len() && j != i && #[trigger] newly_removed(after, before, j) && (removed_pair(
                    excluded,
                    before[i].op,
                    before[j].op,
                ) || removed_pair(excluded, before[j].op, before[i].op))
        }
}

proof fn lemma_cancelled_refl(nodes: Seq<DAGNode>, excluded: Seq<String>)
    ensures
        cancelled_from(nodes, nodes, excluded),
{
}

proof fn lemma_cancelled_trans(c: Seq<DAGNode>, b: Seq<DAGNode>, a: Seq<DAGNode>, excluded: Seq<String>)
    requires
        cancelled_from(c, b, excluded),
        cancelled_from(b, a, excluded),
    ensures
        cancelled_from(c, a, excluded),
{
    assert forall|i: int| 0 <= i < c.len() && #[trigger] newly_removed(c, a, i) implies {
        &&& is_live_gate(a[i])
        &&& exists|j: int|
            0 <= j < c.len() && j != i && #[trigger] newly_removed(c, a, j) && (removed_pair(
                excluded,
                a[i].op,
                a[j].op,
            ) || removed_pair(excluded, a[j].op, a[i].op))
    } by {
        assert(c[i].op == b[i].op && b[i].op == a[i].op);
        if newly_removed(b, a, i) {
            let j = choose|j: int|
                0 <= j < b.len() && j != i && #[trigger] newly_removed(b, a, j) && (removed_pair(
                    excluded,
                    a[i].op,
                    a[j].op,
                ) || removed_pair(excluded, a[j].op, a[i].op));
            assert(c[j].removed);
            assert(newly_removed(c, a, j));
        } else {
            assert(newly_removed(c, b, i));
            let j = choose|j: int|
                0 <= j < c.len() && j != i && #[trigger] newly_removed(c, b, j) && (removed_pair(
                    excluded,
                    b[i].op,
                    b[j].op,
                ) || removed_pair(excluded, b[j].op, b[i].op));
            assert(c[j].op == b[j].op && b[j].op == a[j].op);
            assert(!a[j].removed);
            assert(newly_removed(c, a, j));
        }
    }
}

#[verifier::spinoff_prover]
#[verifier::rlimit(30)]
proof fn lemma_cancelled_pair(after: Seq<DAGNode>, before: Seq<DAGNode>, a: int, b: int, excluded: Seq<String>)
    requires
        0 <= a < before.len(),
        0 <= b < before.len(),
        a != b,
        is_live_gate(before[a]),
        is_live_gate(before[b]),
        removed_pair(excluded, before[a].op, before[b].op),
        after == before.update(a, DAGNode { removed: true, ..before[a] }).update(
            b,
            DAGNode { removed: true, ..before[b] },
        ),
    ensures
        cancelled_from(after, before, excluded),
{
    assert(newly_removed(after, before, a));
    assert(newly_removed(after, before, b));
    assert forall|i: int| 0 <= i < after.len() && #[trigger] newly_removed(after, before, i) implies {
        &&& is_live_gate(before[i])
        &&& exists|j: int|
            0 <= j < after.len() && j != i && #[trigger] newly_removed(after, before, j) && (removed_pair(
                excluded,
                before[i].op,
                before[j].op,
            ) || removed_pair(excluded, before[j].op, before[i].op))
    } by {
        if i == a {
            assert(newly_removed(after, before, b));
        } else {
            assert(i == b);
            assert(newly_removed(after, before, a));
        }
    }
}

/// `d2` is `d1` with the distinct nodes `a` and `b` removed, `a` first,
/// each spliced out of its wires.
pub open spec fn pair_removed(d1: CircuitDAG, d2: CircuitDAG, a: usize, b: usize) -> bool {
    &&& a != b
    &&& a < d1.len()
    &&& b < d1.len()
    &&& d2.wf()
    &&& d2.same_frame(&d1)
    &&& d2.nodes_view() == d1.nodes_view().update(a as int, DAGNode { removed: true, ..d1.nodes_view()[a as int] }).update(
        b as int,
        DAGNode { removed: true, ..d1.nodes_view()[b as int] },
    )
    &&& d2.edges() == crate::ir::remove_spec(crate::ir::remove_spec(d1.edges(), a), b)
}

/// The live gates `a` and `b` may be cancelled: `a` is not excluded, they
/// cancel, and `b` follows `a` directly on every wire of `a`, or follows on
/// one wire a live gate that commutes with `a` and on the others `a` itself.
pub open spec fn cancellable(d: CircuitDAG, a: usize, b: usize, excluded: Seq<String>) -> bool {
    let oa = d.nodes_view()[a as int].op;
    &&& is_live_gate(d.nodes_view()[a as int])
    &&& is_live_gate(d.nodes_view()[b as int])
    &&& !excluded_gate(excluded, oa)
    &&& cancels(oa, d.nodes_view()[b as int].op)
    &&& {
        ||| forall|k: int|
            0 <= k < op_qubits(oa).len() ==> crate::ir::first_on_wire(d.succs(a as int), #[trigger] op_qubits(oa)[k])
                == Some(b)
        ||| exists|m: usize, w: usize|
            #![trigger crate::ir::first_on_wire(d.succs(m as int), w)]
            m < d.len() && is_live_gate(d.nodes_view()[m as int]) && commute(oa, d.nodes_view()[m as int].op)
                && crate::ir::first_on_wire(d.succs(a as int), w) == Some(m) && crate::ir::first_on_wire(
                d.succs(m as int),
                w,
            ) == Some(b) && forall|k: int|
                0 <= k < op_qubits(oa).len() ==> #[trigger] separated_on(&d, a, m, b, w, op_qubits(oa)[k])
    }
}

/// One cancellation: some cancellable pair of `d1` removed.
pub open spec fn cancel_step(d1: CircuitDAG, d2: CircuitDAG, excluded: Seq<String>) -> bool {
    exists|a: usize, b: usize| #[trigger] pair_removed(d1, d2, a, b) && cancellable(d1, a, b, excluded)
}

/// Each circuit of `trace` is the one before with one cancellable pair removed.
pub open spec fn cancel_trace(trace: Seq<CircuitDAG>, excluded: Seq<String>) -> bool {
    &&& trace.len() >= 1
    &&& forall|i: int| 0 <= i < trace.len() - 1 ==> #[trigger] cancel_step(trace[i], trace[i + 1], excluded)
}

/// Every wire of the circuit is settled.
pub open spec fn all_settled(d: CircuitDAG, excluded: Seq<String>) -> bool {
    forall|w: usize| w < d.nq() ==> #[trigger] wire_settled(&d, w, excluded)
}

proof fn lemma_trace_push(trace: Seq<CircuitDAG>, d: CircuitDAG, excluded: Seq<String>)
    requires
        cancel_trace(trace, excluded),
        cancel_step(trace.last(), d, excluded),
    ensures
        cancel_trace(trace.push(d), excluded),
        trace.push(d)[0] == trace[0],
        trace.push(d).last() == d,
{
    let t = trace.push(d);
    assert forall|i: int| 0 <= i < t.len() - 1 implies #[trigger] cancel_step(t[i], t[i + 1], excluded) by {
        if i < trace.len() - 1 {
            assert(t[i] == trace[i] && t[i + 1] == trace[i + 1]);
        } else {
            assert(t[i] == trace.last());
        }
    }
}

/// Remove two distinct live gates; counts drop by two.
fn remove_pair(dag: &mut CircuitDAG, a: NodeId, b: NodeId, Ghost(excluded): Ghost<Seq<String>>)
    requires
        old(dag).wf(),
        a < old(dag).len(),
        b < old(dag).len(),
        a != b,
        is_live_gate(old(dag).nodes_view()[a as int]),
        is_live_gate(old(dag).nodes_view()[b as int]),
        removed_pair(excluded, old(dag).nodes_view()[a as int].op, old(dag).nodes_view()[b as int].op),
    ensures
        final(dag).wf(),
        cancelled_from(final(dag).nodes_view(), old(dag).nodes_view(), excluded),
        final(dag).same_frame(&*old(dag)),
        final(dag).len() == old(dag).len(),
        final(dag).live_gates() + 2 == old(dag).live_gates(),
        final(dag).live_ops() + 2 == old(dag).live_ops(),
        pair_removed(*old(dag), *final(dag), a, b),
{
    let ghost d0 = *dag;
    dag.remove_node(a);
    let ghost d1 = *dag;
    assert(d1.nodes_view()[b as int] == d0.nodes_view()[b as int]);
    dag.remove_node(b);
    proof {
        dag.lemma_same_frame_trans(&d1, &d0);
        lemma_cancelled_pair(dag.nodes_view(), d0.nodes_view(), a as int, b as int, excluded);
    }
}

/// The node `k` steps along wire `w` from its input, if the wire is that long.
pub open spec fn wire_walk(dag: &CircuitDAG, w: usize, k: nat) -> Option<usize>
    decreases k,
{
    if k == 0 {
        Some(dag.inputs()[w as int])
    } else {
        match wire_walk(dag, w, (k - 1) as nat) {
            Some(x) => crate::ir::first_on_wire(dag.succs(x as int), w),
            None => None,
        }
    }
}

/// Inverse cancellation finds nothing at a gate and its wire successor.
pub open spec fn pair_settled(
    d: &CircuitDAG,
    x: usize,
    y: usize,
    w: usize,
    excluded: Seq<String>,
) -> bool {
    let ox = d.nodes_view()[x as int].op;
    let oy = d.nodes_view()[y as int].op;
    is_live_gate(d.nodes_view()[x as int]) && is_live_gate(d.nodes_view()[y as int]) ==> {
        &&& !(!excluded_gate(excluded, ox) && cancels(ox, oy) && forall|k: int|
            0 <= k < crate::ir::op_qubits(ox).len() ==> crate::ir::first_on_wire(
                d.succs(x as int),
                #[trigger] crate::ir::op_qubits(ox)[k],
            ) == Some(y))
        &&& !(!excluded_gate(excluded, ox) && commute(ox, oy) && match crate::ir::first_on_wire(
            d.succs(y as int),
            w,
        ) {
            Some(c) => is_live_gate(d.nodes_view()[c as int]) && cancels(ox, d.nodes_view()[c as int].op)
                && forall|k: int|
                0 <= k < crate::ir::op_qubits(ox).len() ==> #[trigger] separated_on(
                    d,
                    x,
                    y,
                    c,
                    w,
                    crate::ir::op_qubits(ox)[k],
                ),
            None => false,
        })
    }
}

/// The `j`th step along wire `w` is settled.
pub open spec fn step_settled(d: &CircuitDAG, w: usize, j: nat, excluded: Seq<String>) -> bool {
    match wire_walk(d, w, j) {
        Some(x) => match crate::ir::first_on_wire(d.succs(x as int), w) {
            Some(y) => pair_settled(d, x, y, w, excluded),
            None => true,
        },
        None => true,
    }
}

/// Along wire `w`, from its input, no two neighbouring live gates can be
/// cancelled any more.
pub open spec fn wire_settled(d: &CircuitDAG, w: usize, excluded: Seq<String>) -> bool {
    forall|j: nat| #[trigger] step_settled(d, w, j, excluded)
}

proof fn lemma_walk_ends(d: &CircuitDAG, w: usize, k: nat, j: nat)
    requires
        wire_walk(d, w, k) matches Some(c) && crate::ir::first_on_wire(d.succs(c as int), w) is None,
        j > k,
    ensures
        wire_walk(d, w, j) is None,
    decreases j,
{
    if j > k + 1 {
        lemma_walk_ends(d, w, k, (j - 1) as nat);
    }
}

/// Run inverse cancellation to a fixed point.
pub fn cancel_inverses(dag: &mut CircuitDAG) -> (r: OptStats)
    requires
        old(dag).wf(),
    ensures
        final(dag).wf(),
        final(dag).nq() == old(dag).nq(),
        final(dag).live_gates() + r.gates_removed == old(dag).live_gates(),
        final(dag).live_ops() + r.gates_removed == old(dag).live_ops(),
        r.gates_removed % 2 == 0,
        cancelled_from(final(dag).nodes_view(), old(dag).nodes_view(), seq![]),
        forall|w: usize| w < final(dag).nq() ==> #[trigger] wire_settled(&*final(dag), w, seq![]),
        exists|trace: Seq<CircuitDAG>|
            #[trigger] cancel_trace(trace, seq![]) && trace[0] == *old(dag) && trace.last() == *final(dag),
        all_settled(*old(dag), seq![]) ==> r.gates_removed == 0 && *final(dag) == *old(dag),
{
    let excluded: Vec<String> = Vec::new();
    assert(excluded@ =~= seq![]);
    cancel_inverses_except(dag, &excluded)
}

/// Inverse cancellation that leaves gates named in `excluded` (compared
/// without regard to ASCII case) where they are.
pub fn cancel_inverses_except(dag: &mut CircuitDAG, excluded: &Vec<String>) -> (r: OptStats)
    requires
        old(dag).wf(),
    ensures
        final(dag).wf(),
        final(dag).nq() == old(dag).nq(),
        final(dag).same_frame(&*old(dag)),
        final(dag).live_gates() + r.gates_removed == old(dag).live_gates(),
        final(dag).live_ops() + r.gates_removed == old(dag).live_ops(),
        r.gates_removed % 2 == 0,
        cancelled_from(final(dag).nodes_view(), old(dag).nodes_view(), excluded@),
        forall|w: usize| w < final(dag).nq() ==> #[trigger] wire_settled(&*final(dag), w, excluded@),
        exists|trace: Seq<CircuitDAG>|
            #[trigger] cancel_trace(trace, excluded@) && trace[0] == *old(dag) && trace.last() == *final(dag),
        all_settled(*old(dag), excluded@) ==> r.gates_removed == 0 && *final(dag) == *old(dag),
{
    let ghost mut trace: Seq<CircuitDAG> = seq![*dag];
    let ghost settled0 = all_settled(*dag, excluded@);
    let mut stats = OptStats::default();
    let mut changed = true;
    let nq = dag.qubit_count();
    proof {
        lemma_gates_le_ops(dag.nodes_view());
        dag.lemma_same_frame_refl();
        lemma_cancelled_refl(dag.nodes_view(), excluded@);
    }
    while changed
        invariant
            dag.wf(),
            dag.same_frame(&*old(dag)),
            dag.len() == old(dag).len(),
            nq == dag.nq(),
            dag.live_gates() + stats.gates_removed == old(dag).live_gates(),
            dag.live_ops() + stats.gates_removed == old(dag).live_ops(),
            old(dag).live_gates() <= old(dag).len(),
            old(dag).len() <= usize::MAX,
            stats.gates_removed % 2 == 0,
            cancelled_from(dag.nodes_view(), old(dag).nodes_view(), excluded@),
            cancel_trace(trace, excluded@),
            trace[0] == *old(dag),
            trace.last() == *dag,
            settled0 == all_settled(*old(dag), excluded@),
            settled0 ==> *dag == *old(dag) && stats.gates_removed == 0,
            !changed ==> forall|w: usize| w < nq ==> #[trigger] wire_settled(&*dag, w, excluded@),
        decreases dag.live_gates() + if changed {
            1int
        } else {
            0int
        },
    {
        changed = false;
        let ghost start_gates = dag.live_gates();
        let ghost d_start = *dag;
        let mut wire: usize = 0;
        while wire < nq
            invariant
                dag.wf(),
                dag.same_frame(&*old(dag)),
                dag.len() == old(dag).len(),
                nq == dag.nq(),
                wire <= nq,
                dag.live_gates() + stats.gates_removed == old(dag).live_gates(),
                dag.live_ops() + stats.gates_removed == old(dag).live_ops(),
                old(dag).live_gates() <= old(dag).len(),
                old(dag).len() <= usize::MAX,
                stats.gates_removed % 2 == 0,
                cancelled_from(dag.nodes_view(), old(dag).nodes_view(), excluded@),
                cancel_trace(trace, excluded@),
                trace[0] == *old(dag),
                trace.last() == *dag,
                settled0 == all_settled(*old(dag), excluded@),
                settled0 ==> *dag == *old(dag) && stats.gates_removed == 0 && !changed,
                changed ==> dag.live_gates() < start_gates,
                !changed ==> dag.live_gates() == start_gates,
                !changed ==> *dag == d_start,
                !changed ==> forall|w: usize| w < wire ==> #[trigger] wire_settled(&*dag, w, excluded@),
            decreases nq - wire,
        {
            let mut current = dag.input_node(wire);
            let ghost mut k: nat = 0;
            loop
                invariant
                    dag.wf(),
                    dag.same_frame(&*old(dag)),
                    dag.len() == old(dag).len(),
                    nq == dag.nq(),
                    wire < nq,
                    current < dag.len(),
                    dag.live_gates() + stats.gates_removed == old(dag).live_gates(),
                    dag.live_ops() + stats.gates_removed == old(dag).live_ops(),
                    old(dag).live_gates() <= old(dag).len(),
                    old(dag).len() <= usize::MAX,
                    stats.gates_removed % 2 == 0,
                    cancelled_from(dag.nodes_view(), old(dag).nodes_view(), excluded@),
                    cancel_trace(trace, excluded@),
                    trace[0] == *old(dag),
                    trace.last() == *dag,
                    settled0 == all_settled(*old(dag), excluded@),
                    settled0 ==> *dag == *old(dag) && stats.gates_removed == 0 && !changed,
                    changed ==> dag.live_gates() < start_gates,
                    !changed ==> dag.live_gates() == start_gates,
                    !changed ==> *dag == d_start,
                    !changed ==> forall|w: usize| w < wire ==> #[trigger] wire_settled(&*dag, w, excluded@),
                    !changed ==> wire_walk(&*dag, wire, k) == Some(current),
                    !changed ==> forall|j: nat| j < k ==> #[trigger] step_settled(&*dag, wire, j, excluded@),
                ensures
                    dag.wf(),
                    dag.same_frame(&*old(dag)),
                    dag.len() == old(dag).len(),
                    nq == dag.nq(),
                    dag.live_gates() + stats.gates_removed == old(dag).live_gates(),
                    dag.live_ops() + stats.gates_removed == old(dag).live_ops(),
                    stats.gates_removed % 2 == 0,
                    cancelled_from(dag.nodes_view(), old(dag).nodes_view(), excluded@),
                    cancel_trace(trace, excluded@),
                    trace[0] == *old(dag),
                    trace.last() == *dag,
                    settled0 == all_settled(*old(dag), excluded@),
                    settled0 ==> *dag == *old(dag) && stats.gates_removed == 0 && !changed,
                    changed ==> dag.live_gates() < start_gates,
                    !changed ==> dag.live_gates() == start_gates,
                    !changed ==> *dag == d_start,
                    !changed ==> forall|w: usize| w < wire ==> #[trigger] wire_settled(&*dag, w, excluded@),
                    !changed ==> wire_settled(&*dag, wire, excluded@),
                decreases dag.live_gates(), walk_rank(dag, current),
            {
                let next = match dag.wire_successor(current, wire) {
                    Some(n) => n,
                    None => {
                        proof {
                            if !changed {
                                assert forall|j: nat| #[trigger] step_settled(&*dag, wire, j, excluded@) by {
                                    if j > k {
                                        lemma_walk_ends(&*dag, wire, k, j);
                                    }
                                }
                            }
                        }
                        break;
                    },
                };
                if !live_gate_at(dag, current) || !live_gate_at(dag, next) {
                    proof {
                        if !changed {
                            assert(step_settled(&*dag, wire, k, excluded@));
                            assert(wire_walk(&*dag, wire, k + 1) == Some(next));
                        }
                        k = k + 1;
                    }
                    current = next;
                    continue;
                }
                let excluded_gate = is_excluded(excluded, &dag.node(current).op);
                if !excluded_gate && ops_cancel(&dag.node(current).op, &dag.node(next).op)
                    && adjacent_on_all_wires(dag, current, next) {
                    proof {
                        if settled0 {
                            assert(wire_settled(&*dag, wire, excluded@));
                            assert(step_settled(&*dag, wire, k, excluded@));
                            assert(false);
                        }
                    }
                    let prev = dag.wire_predecessor(current, wire);
                    let ghost before = *dag;
                    remove_pair(dag, current, next, Ghost(excluded@));
                    proof {
                        assert(pair_removed(before, *dag, current, next) && cancellable(before, current, next, excluded@));
                        lemma_trace_push(trace, *dag, excluded@);
                        trace = trace.push(*dag);
                        lemma_cancelled_trans(dag.nodes_view(), before.nodes_view(), old(dag).nodes_view(), excluded@);
                        dag.lemma_same_frame_trans(&before, &*old(dag));
                        dag.lemma_same_frame_nq(&before);
                    }
                    stats.gates_removed = stats.gates_removed + 2;
                    changed = true;
                    current = match prev {
                        Some(id) => id,
                        None => {
                            break;
                        },
                    };
                } else {
                    if !excluded_gate && ops_commute(&dag.node(current).op, &dag.node(next).op) {
                        if let Some(candidate) = dag.wire_successor(next, wire) {
                            if live_gate_at(dag, candidate) && ops_cancel(&dag.node(current).op, &dag.node(candidate).op)
                                && commuting_separator_on_all_wires(dag, current, next, candidate, wire) {
                                proof {
                                    if settled0 {
                                        assert(wire_settled(&*dag, wire, excluded@));
                                        assert(step_settled(&*dag, wire, k, excluded@));
                                        assert(false);
                                    }
                                }
                                let prev = dag.wire_predecessor(current, wire);
                                let ghost before = *dag;
                                remove_pair(dag, current, candidate, Ghost(excluded@));
                                proof {
                                    assert(crate::ir::first_on_wire(before.succs(next as int), wire) == Some(candidate));
                                    assert(pair_removed(before, *dag, current, candidate) && cancellable(
                                        before,
                                        current,
                                        candidate,
                                        excluded@,
                                    ));
                                    lemma_trace_push(trace, *dag, excluded@);
                                    trace = trace.push(*dag);
                                    lemma_cancelled_trans(
                                        dag.nodes_view(),
                                        before.nodes_view(),
                                        old(dag).nodes_view(),
                                        excluded@,
                                    );
                                    dag.lemma_same_frame_trans(&before, &*old(dag));
                                    dag.lemma_same_frame_nq(&before);
                                }
                                stats.gates_removed = stats.gates_removed + 2;
                                changed = true;
                                current = match prev {
                                    Some(id) => id,
                                    None => dag.input_node(wire),
                                };
                                continue;
                            }
                        }
                    }
                    proof {
                        if !changed {
                            assert(step_settled(&*dag, wire, k, excluded@));
                            assert(wire_walk(&*dag, wire, k + 1) == Some(next));
                        }
                        k = k + 1;
                    }
                    current = next;
                }
            }
            wire += 1;
        }
    }
    stats
}

// ── What the HIR passes keep ────────────────────────────────

/// The gates that the statements define, at any depth, in order.
pub open spec fn defined_gates(stmts: Seq<HirStmt>) -> Seq<Seq<char>>
    decreases stmts, 0nat,
{
    if stmts.len() == 0 {
        seq![]
    } else {
        proof {
            assert(decreases_to!(stmts => stmts[stmts.len() - 1]));
        }
        defined_gates(stmts.drop_last()) + stmt_defined_gates(stmts.last())
    }
}

pub open spec fn stmt_defined_gates(s: HirStmt) -> Seq<Seq<char>>
    decreases s, 1nat,
{
    match s {
        HirStmt::Ast(Stmt::GateDef { name, .. }) => seq![name@],
        HirStmt::If { then_body, else_body, .. } => {
            proof {
                assert(decreases_to!(s => then_body));
                assert(decreases_to!(then_body => then_body@));
            }
            defined_gates(then_body@) + match else_body {
                Some(e) => {
                    proof {
                        assert(decreases_to!(s => else_body));
                        assert(decreases_to!(else_body => e));
                        assert(decreases_to!(e => e@));
                    }
                    defined_gates(e@)
                },
                None => seq![],
            }
        },
        HirStmt::For { body, .. } => {
            proof {
                assert(decreases_to!(s => body));
                assert(decreases_to!(body => body@));
            }
            defined_gates(body@)
        },
        HirStmt::While { body, .. } => {
            proof {
                assert(decreases_to!(s => body));
                assert(decreases_to!(body => body@));
            }
            defined_gates(body@)
        },
        _ => seq![],
    }
}

/// The names as text.
pub open spec fn names_of(v: Seq<String>) -> Seq<Seq<char>> {
    v.map_values(|n: String| n@)
}

/// `after` is `before` with inverse pairs cancelled inside its circuit
/// regions, leaving gates named in `excluded` alone: every other statement,
/// condition, loop header and the nesting stay as they were.
pub open spec fn stmts_optimized(after: Seq<HirStmt>, before: Seq<HirStmt>, excluded: Seq<String>) -> bool
    decreases before, 0nat,
{
    if before.len() == 0 {
        after.len() == 0
    } else {
        proof {
            assert(decreases_to!(before => before.drop_last()));
            assert(decreases_to!(before => before[before.len() - 1]));
        }
        &&& after.len() == before.len()
        &&& stmts_optimized(after.drop_last(), before.drop_last(), excluded)
        &&& stmt_optimized(after.last(), before.last(), excluded)
    }
}

pub open spec fn stmt_optimized(after: HirStmt, before: HirStmt, excluded: Seq<String>) -> bool
    decreases before, 1nat,
{
    match before {
        HirStmt::Circuit(d) => match after {
            HirStmt::Circuit(d2) => {
                &&& d2.wf()
                &&& d2.nq() == d.nq()
                &&& d2.qubit_names_view() == d.qubit_names_view()
                &&& d2.bit_names_view() == d.bit_names_view()
                &&& cancelled_from(d2.nodes_view(), d.nodes_view(), excluded)
                &&& forall|w: usize| w < d2.nq() ==> #[trigger] wire_settled(&d2, w, excluded)
                &&& exists|trace: Seq<CircuitDAG>|
                    #[trigger] cancel_trace(trace, excluded) && trace[0] == d && trace.last() == d2
            },
            _ => false,
        },
        HirStmt::If { condition, then_body, else_body } => {
            proof {
                assert(decreases_to!(before => then_body));
                assert(decreases_to!(then_body => then_body@));
            }
            match after {
                HirStmt::If { condition: c2, then_body: t2, else_body: e2 } => {
                    &&& c2 == condition
                    &&& stmts_optimized(t2@, then_body@, excluded)
                    &&& match (else_body, e2) {
                        (Some(e), Some(f)) => {
                            proof {
                                assert(decreases_to!(before => else_body));
                                assert(decreases_to!(else_body => e));
                                assert(decreases_to!(e => e@));
                            }
                            stmts_optimized(f@, e@, excluded)
                        },
                        (None, None) => true,
                        _ => false,
                    }
                },
                _ => false,
            }
        },
        HirStmt::For { var_name, var_ty, range, body } => {
            proof {
                assert(decreases_to!(before => body));
                assert(decreases_to!(body => body@));
            }
            match after {
                HirStmt::For { var_name: n2, var_ty: t2, range: r2, body: b2 } => {
                    &&& n2 == var_name
                    &&& t2 == var_ty
                    &&& r2 == range
                    &&& stmts_optimized(b2@, body@, excluded)
                },
                _ => false,
            }
        },
        HirStmt::While { condition, body } => {
            proof {
                assert(decreases_to!(before => body));
                assert(decreases_to!(body => body@));
            }
            match after {
                HirStmt::While { condition: c2, body: b2 } => {
                    &&& c2 == condition
                    &&& stmts_optimized(b2@, body@, excluded)
                },
                _ => false,
            }
        },
        HirStmt::Ast(a) => after == HirStmt::Ast(a),
    }
}

/// Every circuit region of the statements is settled for `excluded`.
pub open spec fn stmts_settled(v: Seq<HirStmt>, excluded: Seq<String>) -> bool
    decreases v, 0nat,
{
    if v.len() == 0 {
        true
    } else {
        proof {
            assert(decreases_to!(v => v.drop_last()));
            assert(decreases_to!(v => v[v.len() - 1]));
        }
        stmts_settled(v.drop_last(), excluded) && stmt_settled(v.last(), excluded)
    }
}

pub open spec fn stmt_settled(s: HirStmt, excluded: Seq<String>) -> bool
    decreases s, 1nat,
{
    match s {
        HirStmt::Circuit(d) => all_settled(d, excluded),
        HirStmt::If { then_body, else_body, .. } => {
            proof {
                assert(decreases_to!(s => then_body));
                assert(decreases_to!(then_body => then_body@));
            }
            stmts_settled(then_body@, excluded) && match else_body {
                Some(e) => {
                    proof {
                        assert(decreases_to!(s => else_body));
                        assert(decreases_to!(else_body => e));
                        assert(decreases_to!(e => e@));
                    }
                    stmts_settled(e@, excluded)
                },
                None => true,
            }
        },
        HirStmt::For { body, .. } => {
            proof {
                assert(decreases_to!(s => body));
                assert(decreases_to!(body => body@));
            }
            stmts_settled(body@, excluded)
        },
        HirStmt::While { body, .. } => {
            proof {
                assert(decreases_to!(s => body));
                assert(decreases_to!(body => body@));
            }
            stmts_settled(body@, excluded)
        },
        HirStmt::Ast(_) => true,
    }
}

/// `after` is `before` unchanged: the same statements, conditions, loop
/// headers and circuit regions.
pub open spec fn stmts_kept(after: Seq<HirStmt>, before: Seq<HirStmt>) -> bool
    decreases before, 0nat,
{
    if before.len() == 0 {
        after.len() == 0
    } else {
        proof {
            assert(decreases_to!(before => before.drop_last()));
            assert(decreases_to!(before => before[before.len() - 1]));
        }
        &&& after.len() == before.len()
        &&& stmts_kept(after.drop_last(), before.drop_last())
        &&& stmt_kept(after.last(), before.last())
    }
}

pub open spec fn stmt_kept(after: HirStmt, before: HirStmt) -> bool
    decreases before, 1nat,
{
    match before {
        HirStmt::If { condition, then_body, else_body } => {
            proof {
                assert(decreases_to!(before => then_body));
                assert(decreases_to!(then_body => then_body@));
            }
            match after {
                HirStmt::If { condition: c2, then_body: t2, else_body: e2 } => {
                    &&& c2 == condition
                    &&& stmts_kept(t2@, then_body@)
                    &&& match (else_body, e2) {
                        (Some(e), Some(f)) => {
                            proof {
                                assert(decreases_to!(before => else_body));
                                assert(decreases_to!(else_body => e));
                                assert(decreases_to!(e => e@));
                            }
                            stmts_kept(f@, e@)
                        },
                        (None, None) => true,
                        _ => false,
                    }
                },
                _ => false,
            }
        },
        HirStmt::For { var_name, var_ty, range, body } => {
            proof {
                assert(decreases_to!(before => body));
                assert(decreases_to!(body => body@));
            }
            match after {
                HirStmt::For { var_name: n2, var_ty: t2, range: r2, body: b2 } => {
                    &&& n2 == var_name
                    &&& t2 == var_ty
                    &&& r2 == range
                    &&& stmts_kept(b2@, body@)
                },
                _ => false,
            }
        },
        HirStmt::While { condition, body } => {
            proof {
                assert(decreases_to!(before => body));
                assert(decreases_to!(body => body@));
            }
            match after {
                HirStmt::While { condition: c2, body: b2 } => {
                    &&& c2 == condition
                    &&& stmts_kept(b2@, body@)
                },
                _ => false,
            }
        },
        _ => after == before,
    }
}

proof fn lemma_settled_step(v: Seq<HirStmt>, k: int, excluded: Seq<String>)
    requires
        0 <= k < v.len(),
    ensures
        stmts_settled(v.take(k + 1), excluded) == (stmts_settled(v.take(k), excluded) && stmt_settled(v[k], excluded)),
{
    assert(v.take(k + 1).drop_last() =~= v.take(k));
    assert(v.take(k + 1).last() == v[k]);
}

proof fn lemma_settled_prefix(v: Seq<HirStmt>, k: int, excluded: Seq<String>)
    requires
        0 <= k <= v.len(),
        stmts_settled(v, excluded),
    ensures
        stmts_settled(v.take(k), excluded),
    decreases v.len(),
{
    if k == v.len() {
        assert(v.take(k) =~= v);
    } else {
        lemma_settled_prefix(v.drop_last(), k, excluded);
        assert(v.drop_last().take(k) =~= v.take(k));
    }
}

proof fn lemma_kept_step(after: Seq<HirStmt>, before: Seq<HirStmt>, k: int, t: HirStmt)
    requires
        0 <= k < before.len(),
        stmts_kept(after, before.take(k)),
        stmt_kept(t, before[k]),
    ensures
        stmts_kept(after.push(t), before.take(k + 1)),
{
    assert(before.take(k + 1).drop_last() =~= before.take(k));
    assert(before.take(k + 1).last() == before[k]);
    assert(after.push(t).drop_last() =~= after);
    if k == 0 {
        assert(after.len() == 0);
    }
}

proof fn lemma_excluded_same(e1: Seq<String>, e2: Seq<String>, op: Op)
    requires
        names_of(e1) == names_of(e2),
    ensures
        excluded_gate(e1, op) == excluded_gate(e2, op),
{
    assert(e1.len() == names_of(e1).len() && e2.len() == names_of(e2).len());
    if let Op::Gate { name, .. } = op {
        if excluded_gate(e1, op) {
            let i = choose|i: int| 0 <= i < e1.len() && #[trigger] eq_ignore_ascii_case_spec(e1[i]@, name@);
            assert(names_of(e1)[i] == names_of(e2)[i]);
            assert(eq_ignore_ascii_case_spec(e2[i]@, name@));
        }
        if excluded_gate(e2, op) {
            let i = choose|i: int| 0 <= i < e2.len() && #[trigger] eq_ignore_ascii_case_spec(e2[i]@, name@);
            assert(names_of(e1)[i] == names_of(e2)[i]);
            assert(eq_ignore_ascii_case_spec(e1[i]@, name@));
        }
    }
}

proof fn lemma_all_settled_same(d: CircuitDAG, e1: Seq<String>, e2: Seq<String>)
    requires
        names_of(e1) == names_of(e2),
        all_settled(d, e1),
    ensures
        all_settled(d, e2),
{
    assert forall|w: usize| w < d.nq() implies #[trigger] wire_settled(&d, w, e2) by {
        assert(wire_settled(&d, w, e1));
        assert forall|j: nat| #[trigger] step_settled(&d, w, j, e2) by {
            assert(step_settled(&d, w, j, e1));
            if let Some(x) = wire_walk(&d, w, j) {
                lemma_excluded_same(e1, e2, d.nodes_view()[x as int].op);
            }
        }
    }
}

proof fn lemma_settled_same(v: Seq<HirStmt>, e1: Seq<String>, e2: Seq<String>)
    requires
        names_of(e1) == names_of(e2),
        stmts_settled(v, e1),
    ensures
        stmts_settled(v, e2),
    decreases v, 0nat,
{
    if v.len() > 0 {
        assert(decreases_to!(v => v.drop_last()));
        assert(decreases_to!(v => v[v.len() - 1]));
        lemma_settled_same(v.drop_last(), e1, e2);
        lemma_stmt_settled_same(v.last(), e1, e2);
    }
}

proof fn lemma_stmt_settled_same(s: HirStmt, e1: Seq<String>, e2: Seq<String>)
    requires
        names_of(e1) == names_of(e2),
        stmt_settled(s, e1),
    ensures
        stmt_settled(s, e2),
    decreases s, 1nat,
{
    match s {
        HirStmt::Circuit(d) => lemma_all_settled_same(d, e1, e2),
        HirStmt::If { then_body, else_body, .. } => {
            assert(decreases_to!(s => then_body));
            assert(decreases_to!(then_body => then_body@));
            lemma_settled_same(then_body@, e1, e2);
            if let Some(e) = else_body {
                assert(decreases_to!(s => else_body));
                assert(decreases_to!(else_body => e));
                assert(decreases_to!(e => e@));
                lemma_settled_same(e@, e1, e2);
            }
        },
        HirStmt::For { body, .. } => {
            assert(decreases_to!(s => body));
            assert(decreases_to!(body => body@));
            lemma_settled_same(body@, e1, e2);
        },
        HirStmt::While { body, .. } => {
            assert(decreases_to!(s => body));
            assert(decreases_to!(body => body@));
            lemma_settled_same(body@, e1, e2);
        },
        HirStmt::Ast(_) => {},
    }
}

proof fn lemma_optimized_defines(after: Seq<HirStmt>, before: Seq<HirStmt>, excluded: Seq<String>)
    requires
        stmts_optimized(after, before, excluded),
    ensures
        defined_gates(after) == defined_gates(before),
    decreases before, 0nat,
{
    if before.len() > 0 {
        assert(decreases_to!(before => before.drop_last()));
        assert(decreases_to!(before => before[before.len() - 1]));
        lemma_optimized_defines(after.drop_last(), before.drop_last(), excluded);
        lemma_optimized_defines_stmt(after.last(), before.last(), excluded);
    }
}

proof fn lemma_optimized_defines_stmt(after: HirStmt, before: HirStmt, excluded: Seq<String>)
    requires
        stmt_optimized(after, before, excluded),
    ensures
        stmt_defined_gates(after) == stmt_defined_gates(before),
    decreases before, 1nat,
{
    match before {
        HirStmt::If { then_body, else_body, .. } => {
            assert(decreases_to!(before => then_body));
            assert(decreases_to!(then_body => then_body@));
            if let HirStmt::If { then_body: t2, else_body: e2, .. } = after {
                lemma_optimized_defines(t2@, then_body@, excluded);
                if let (Some(e), Some(f)) = (else_body, e2) {
                    assert(decreases_to!(before => else_body));
                    assert(decreases_to!(else_body => e));
                    assert(decreases_to!(e => e@));
                    lemma_optimized_defines(f@, e@, excluded);
                }
            }
        },
        HirStmt::For { body, .. } => {
            assert(decreases_to!(before => body));
            assert(decreases_to!(body => body@));
            if let HirStmt::For { body: b2, .. } = after {
                lemma_optimized_defines(b2@, body@, excluded);
            }
        },
        HirStmt::While { body, .. } => {
            assert(decreases_to!(before => body));
            assert(decreases_to!(body => body@));
            if let HirStmt::While { body: b2, .. } = after {
                lemma_optimized_defines(b2@, body@, excluded);
            }
        },
        _ => {},
    }
}

/// Optimizing is idempotent: what one pass leaves defines the same gates and
/// is settled for them, so a second pass over it removes nothing and keeps
/// it as it is (see `optimize_hir`).
pub proof fn law_optimized_is_settled(
    after: Seq<HirStmt>,
    before: Seq<HirStmt>,
    excluded: Seq<String>,
    again: Seq<String>,
)
    requires
        names_of(excluded) == defined_gates(before),
        stmts_optimized(after, before, excluded),
        stmts_settled(after, excluded),
        names_of(again) == defined_gates(after),
    ensures
        defined_gates(after) == defined_gates(before),
        stmts_settled(after, again),
{
    lemma_optimized_defines(after, before, excluded);
    lemma_settled_same(after, excluded, again);
}

/// Statements kept as they were emit the same text and hold the same gates
/// and operations.
proof fn lemma_kept_same_stmt(a: HirStmt, b: HirStmt, depth: int)
    requires
        stmt_kept(a, b),
    ensures
        crate::hir::hir_stmt_text(a, depth, crate::hir::stmt_emitted_orders(a)) == crate::hir::hir_stmt_text(
            b,
            depth,
            crate::hir::stmt_emitted_orders(b),
        ),
        crate::hir::stmt_gates(a) == crate::hir::stmt_gates(b),
        crate::hir::stmt_ops(a) == crate::hir::stmt_ops(b),
    decreases b, 1nat,
{
    match b {
        HirStmt::If { then_body, else_body, .. } => {
            assert(decreases_to!(b => then_body));
            assert(decreases_to!(then_body => then_body@));
            match a {
                HirStmt::If { then_body: t2, else_body: e2, .. } => {
                    lemma_kept_same_block(t2@, then_body@, crate::codegen::inner_depth(depth));
                    match (else_body, e2) {
                        (Some(e), Some(f)) => {
                            assert(decreases_to!(b => else_body));
                            assert(decreases_to!(else_body => e));
                            assert(decreases_to!(e => e@));
                            lemma_kept_same_block(f@, e@, crate::codegen::inner_depth(depth));
                        },
                        _ => {},
                    }
                },
                _ => {},
            }
        },
        HirStmt::For { body, .. } => {
            assert(decreases_to!(b => body));
            assert(decreases_to!(body => body@));
            match a {
                HirStmt::For { body: b2, .. } => {
                    lemma_kept_same_block(b2@, body@, crate::codegen::inner_depth(depth));
                },
                _ => {},
            }
        },
        HirStmt::While { body, .. } => {
            assert(decreases_to!(b => body));
            assert(decreases_to!(body => body@));
            match a {
                HirStmt::While { body: b2, .. } => {
                    lemma_kept_same_block(b2@, body@, crate::codegen::inner_depth(depth));
                },
                _ => {},
            }
        },
        _ => {},
    }
}

proof fn lemma_kept_same_block(a: Seq<HirStmt>, b: Seq<HirStmt>, depth: int)
    requires
        stmts_kept(a, b),
    ensures
        crate::hir::hir_block_text(a, depth, crate::hir::block_emitted_orders(a)) == crate::hir::hir_block_text(
            b,
            depth,
            crate::hir::block_emitted_orders(b),
        ),
        crate::hir::stmts_gates(a) == crate::hir::stmts_gates(b),
        crate::hir::stmts_ops(a) == crate::hir::stmts_ops(b),
    decreases b, 0nat,
{
    if b.len() > 0 {
        assert(decreases_to!(b => b.drop_last()));
        assert(decreases_to!(b => b[b.len() - 1]));
        lemma_kept_same_block(a.drop_last(), b.drop_last(), depth);
        lemma_kept_same_stmt(a.last(), b.last(), depth);
        assert(crate::hir::block_emitted_orders(a).drop_last() =~= crate::hir::block_emitted_orders(a.drop_last()));
        assert(crate::hir::block_emitted_orders(b).drop_last() =~= crate::hir::block_emitted_orders(b.drop_last()));
    }
}

proof fn lemma_kept_same_body(a: Seq<HirStmt>, b: Seq<HirStmt>)
    requires
        stmts_kept(a, b),
    ensures
        crate::hir::hir_body_text(a, crate::hir::block_emitted_orders(a)) == crate::hir::hir_body_text(
            b,
            crate::hir::block_emitted_orders(b),
        ),
    decreases b.len(),
{
    if b.len() > 0 {
        lemma_kept_same_body(a.drop_last(), b.drop_last());
        lemma_kept_same_stmt(a.last(), b.last(), 0);
        assert(crate::hir::block_emitted_orders(a).drop_last() =~= crate::hir::block_emitted_orders(a.drop_last()));
        assert(crate::hir::block_emitted_orders(b).drop_last() =~= crate::hir::block_emitted_orders(b.drop_last()));
    }
}

/// Optimizing twice: when one pass turned `first` into `once`, a second
/// pass, which leaves alone the gates `once` defines, removes nothing and
/// gives back `once` as it was: the same gates, operations and emitted text.
pub proof fn law_optimizing_again_changes_nothing(
    first: HirProgram,
    once: HirProgram,
    twice: HirProgram,
    excluded: Seq<String>,
    again: Seq<String>,
    removed_again: usize,
)
    requires
        names_of(excluded) == defined_gates(first.statements@),
        stmts_optimized(once.statements@, first.statements@, excluded),
        stmts_settled(once.statements@, excluded),
        names_of(again) == defined_gates(once.statements@),
        stmts_settled(once.statements@, again) ==> removed_again == 0 && stmts_kept(
            twice.statements@,
            once.statements@,
        ),
        twice.version@ == once.version@,
    ensures
        removed_again == 0,
        crate::hir::stmts_gates(twice.statements@) == crate::hir::stmts_gates(once.statements@),
        crate::hir::stmts_ops(twice.statements@) == crate::hir::stmts_ops(once.statements@),
        crate::hir::hir_program_text(twice, crate::hir::block_emitted_orders(twice.statements@))
            == crate::hir::hir_program_text(once, crate::hir::block_emitted_orders(once.statements@)),
{
    law_optimized_is_settled(once.statements@, first.statements@, excluded, again);
    lemma_kept_same_block(twice.statements@, once.statements@, 0);
    lemma_kept_same_body(twice.statements@, once.statements@);
}

proof fn lemma_defined_step(v: Seq<HirStmt>, k: int)
    requires
        0 <= k < v.len(),
    ensures
        defined_gates(v.take(k + 1)) == defined_gates(v.take(k)) + stmt_defined_gates(v[k]),
{
    assert(v.take(k + 1).drop_last() =~= v.take(k));
    assert(v.take(k + 1).last() == v[k]);
}

proof fn lemma_optimized_step(after: Seq<HirStmt>, before: Seq<HirStmt>, k: int, t: HirStmt, excluded: Seq<String>)
    requires
        0 <= k < before.len(),
        stmts_optimized(after, before.take(k), excluded),
        stmt_optimized(t, before[k], excluded),
    ensures
        stmts_optimized(after.push(t), before.take(k + 1), excluded),
{
    assert(before.take(k + 1).drop_last() =~= before.take(k));
    assert(before.take(k + 1).last() == before[k]);
    assert(after.push(t).drop_last() =~= after);
    if k == 0 {
        assert(after.len() == 0);
    }
}

// ── HIR passes ──────────────────────────────────────────────

/// Names of all gate definitions in the statements, at any depth.
#[verifier::loop_isolation(false)]
fn collect_custom_gates(stmts: &Vec<HirStmt>, custom_gates: &mut Vec<String>)
    ensures
        names_of(final(custom_gates)@) == names_of(old(custom_gates)@) + defined_gates(stmts@),
    decreases stmts,
{
    let mut i: usize = 0;
    assert(names_of(custom_gates@) =~= names_of(old(custom_gates)@) + defined_gates(stmts@.take(0)));
    while i < stmts.len()
        invariant
            i <= stmts@.len(),
            names_of(custom_gates@) == names_of(old(custom_gates)@) + defined_gates(stmts@.take(i as int)),
        decreases stmts@.len() - i,
    {
        proof {
            assert(decreases_to!(stmts => stmts@));
            assert(decreases_to!(stmts@ => stmts@[i as int]));
            lemma_defined_step(stmts@, i as int);
        }
        let ghost g0 = names_of(custom_gates@);
        let ghost base = names_of(old(custom_gates)@);
        let ghost pre = defined_gates(stmts@.take(i as int));
        match &stmts[i] {
            HirStmt::Ast(Stmt::GateDef { name, .. }) => {
                let ghost c0 = custom_gates@;
                custom_gates.push(name.clone());
                assert(names_of(custom_gates@) =~= names_of(c0).push(name@));
                assert(names_of(custom_gates@) =~= base + (pre + seq![name@]));
            },
            HirStmt::If { then_body, else_body, .. } => {
                collect_custom_gates(then_body, custom_gates);
                if let Some(e) = else_body {
                    collect_custom_gates(e, custom_gates);
                    assert(names_of(custom_gates@) =~= base + (pre + (defined_gates(then_body@) + defined_gates(e@))));
                } else {
                    assert(names_of(custom_gates@) =~= base + (pre + (defined_gates(then_body@) + seq![])));
                }
            },
            HirStmt::For { body, .. } => {
                collect_custom_gates(body, custom_gates);
                assert(names_of(custom_gates@) =~= base + (pre + defined_gates(body@)));
            },
            HirStmt::While { body, .. } => {
                collect_custom_gates(body, custom_gates);
                assert(names_of(custom_gates@) =~= base + (pre + defined_gates(body@)));
            },
            _ => {
                assert(names_of(custom_gates@) =~= base + (pre + seq![]));
            },
        }
        i += 1;
    }
    assert(stmts@.take(stmts@.len() as int) =~= stmts@);
}

pub open spec fn sat_add(a: int, b: int) -> int {
    crate::hir::sat_add(a, b)
}

/// Optimize every circuit region of a statement list; returns the new list
/// and the number of gates removed.
#[verifier::loop_isolation(false)]
fn optimize_stmts(stmts: Vec<HirStmt>, excluded: &Vec<String>) -> (r: (Vec<HirStmt>, usize))
    requires
        hir_stmts_wf(stmts@),
    ensures
        hir_stmts_wf(r.0@),
        crate::hir::stmts_gates(r.0@) <= crate::hir::stmts_gates(stmts@),
        crate::hir::stmts_gates(stmts@) <= usize::MAX ==> crate::hir::stmts_gates(r.0@) + r.1
            == crate::hir::stmts_gates(stmts@),
        stmts_optimized(r.0@, stmts@, excluded@),
        crate::hir::stmts_gates(stmts@) <= usize::MAX ==> r.1 % 2 == 0,
        crate::hir::stmts_gates(stmts@) <= usize::MAX ==> crate::hir::stmts_ops(r.0@) + r.1 == crate::hir::stmts_ops(
            stmts@,
        ),
        stmts_settled(r.0@, excluded@),
        stmts_settled(stmts@, excluded@) ==> r.1 == 0 && stmts_kept(r.0@, stmts@),
    decreases stmts,
{
    let ghost input = stmts@;
    assert(stmts@.len() == stmts.len());
    let mut items = stmts;
    let mut out: Vec<HirStmt> = Vec::new();
    let mut removed: usize = 0;
    let mut k: usize = 0;
    assert(items@ =~= input.subrange(0, input.len() as int));
    assert(input.take(0) =~= Seq::<HirStmt>::empty());
    while items.len() > 0
        invariant
            k + items@.len() == input.len(),
            input.len() <= usize::MAX,
            items@ == input.subrange(k as int, input.len() as int),
            hir_stmts_wf(input),
            hir_stmts_wf(out@),
            crate::hir::stmts_gates(out@) <= crate::hir::stmts_gates(input.take(k as int)),
            crate::hir::stmts_gates(input.take(k as int)) <= usize::MAX ==> crate::hir::stmts_gates(out@) + removed
                == crate::hir::stmts_gates(input.take(k as int)),
            out@.len() == k,
            stmts_optimized(out@, input.take(k as int), excluded@),
            crate::hir::stmts_gates(input.take(k as int)) <= usize::MAX ==> removed % 2 == 0,
            crate::hir::stmts_gates(input.take(k as int)) <= usize::MAX ==> crate::hir::stmts_ops(out@) + removed
                == crate::hir::stmts_ops(input.take(k as int)),
            stmts_settled(out@, excluded@),
            stmts_settled(input, excluded@) ==> removed == 0 && stmts_kept(out@, input.take(k as int)),
        decreases items@.len(),
    {
        let s = items.remove(0);
        proof {
            assert(s == input[k as int]);
            assert(decreases_to!(stmts => stmts@));
            assert(decreases_to!(stmts@ => stmts@[k as int]));
            lemma_stmts_wf_index(input, k as int);
            assert(input.take(k + 1).drop_last() =~= input.take(k as int));
            lemma_take_gates(input, k as int);
            lemma_take_ops(input, k as int);
        }
        let (t, c) = optimize_stmt(s, excluded);
        let ghost before = out@;
        let ghost tv = t;
        out.push(t);
        proof {
            lemma_optimized_step(before, input, k as int, tv, excluded@);
            assert(out@.drop_last() =~= before);
            assert(out@.last() == tv);
            assert(crate::hir::stmts_ops(out@) == crate::hir::stmts_ops(before) + crate::hir::stmt_ops(tv));
            if stmts_settled(input, excluded@) {
                lemma_settled_prefix(input, k + 1, excluded@);
                lemma_settled_step(input, k as int, excluded@);
                lemma_kept_step(before, input, k as int, tv);
            }
            lemma_stmts_wf_push(before, tv);
            assert(out@.drop_last() =~= before);
        }
        removed = crate::hir::add_sat_pub(removed, c);
        k += 1;
        assert(items@ =~= input.subrange(k as int, input.len() as int));
    }
    assert(input.take(input.len() as int) =~= input);
    (out, removed)
}

proof fn lemma_take_ops(v: Seq<HirStmt>, k: int)
    requires
        0 <= k < v.len(),
    ensures
        crate::hir::stmts_ops(v.take(k + 1)) == crate::hir::stmts_ops(v.take(k)) + crate::hir::stmt_ops(v[k]),
{
    assert(v.take(k + 1).drop_last() =~= v.take(k));
}

proof fn lemma_take_gates(v: Seq<HirStmt>, k: int)
    requires
        0 <= k < v.len(),
    ensures
        crate::hir::stmts_gates(v.take(k + 1)) == crate::hir::stmts_gates(v.take(k)) + crate::hir::stmt_gates(
            v[k],
        ),
        crate::hir::stmts_gates(v.take(k)) <= crate::hir::stmts_gates(v.take(k + 1)),
{
    assert(v.take(k + 1).drop_last() =~= v.take(k));
}

fn optimize_stmt(s: HirStmt, excluded: &Vec<String>) -> (r: (HirStmt, usize))
    requires
        hir_stmt_wf(s),
    ensures
        hir_stmt_wf(r.0),
        crate::hir::stmt_gates(r.0) <= crate::hir::stmt_gates(s),
        crate::hir::stmt_gates(s) <= usize::MAX ==> crate::hir::stmt_gates(r.0) + r.1 == crate::hir::stmt_gates(
            s,
        ),
        stmt_optimized(r.0, s, excluded@),
        crate::hir::stmt_gates(s) <= usize::MAX ==> r.1 % 2 == 0,
        crate::hir::stmt_gates(s) <= usize::MAX ==> crate::hir::stmt_ops(r.0) + r.1 == crate::hir::stmt_ops(s),
        stmt_settled(r.0, excluded@),
        stmt_settled(s, excluded@) ==> r.1 == 0 && stmt_kept(r.0, s),
    decreases s,
{
    match s {
        HirStmt::Circuit(mut dag) => {
            let ghost d0 = dag;
            let stats = cancel_inverses_except(&mut dag, excluded);
            proof {
                dag.lemma_same_frame_nq(&d0);
            }
            (HirStmt::Circuit(dag), stats.gates_removed)
        },
        HirStmt::If { condition, then_body, else_body } => {
            let (t, a) = optimize_stmts(then_body, excluded);
            match else_body {
                Some(e) => {
                    let (e2, b) = optimize_stmts(e, excluded);
                    (HirStmt::new_if(condition, t, Some(e2)), crate::hir::add_sat_pub(a, b))
                },
                None => (HirStmt::new_if(condition, t, None), a),
            }
        },
        HirStmt::For { var_name, var_ty, range, body } => {
            let (b, c) = optimize_stmts(body, excluded);
            (HirStmt::new_for(var_name, var_ty, range, b), c)
        },
        HirStmt::While { condition, body } => {
            let (b, c) = optimize_stmts(body, excluded);
            (HirStmt::new_while(condition, b), c)
        },
        HirStmt::Ast(a) => (HirStmt::Ast(a), 0),
    }
}

/// Run inverse cancellation over every circuit region of the program,
/// leaving gates that the program defines itself alone.
pub fn optimize_hir(program: &mut HirProgram) -> (r: OptStats)
    requires
        old(program).wf(),
    ensures
        final(program).wf(),
        final(program).version@ == old(program).version@,
        final(program).num_qubits == old(program).num_qubits,
        final(program).num_bits == old(program).num_bits,
        crate::hir::stmts_gates(final(program).statements@) <= crate::hir::stmts_gates(old(program).statements@),
        crate::hir::stmts_gates(old(program).statements@) <= usize::MAX ==> crate::hir::stmts_gates(
            final(program).statements@,
        ) + r.gates_removed == crate::hir::stmts_gates(old(program).statements@),
        crate::hir::stmts_gates(old(program).statements@) <= usize::MAX ==> r.gates_removed % 2 == 0,
        crate::hir::stmts_gates(old(program).statements@) <= usize::MAX ==> crate::hir::stmts_ops(
            final(program).statements@,
        ) + r.gates_removed == crate::hir::stmts_ops(old(program).statements@),
        exists|excluded: Seq<String>|
            names_of(excluded) == defined_gates(old(program).statements@) && #[trigger] stmts_optimized(
                final(program).statements@,
                old(program).statements@,
                excluded,
            ) && stmts_settled(final(program).statements@, excluded) && (stmts_settled(
                old(program).statements@,
                excluded,
            ) ==> r.gates_removed == 0 && stmts_kept(final(program).statements@, old(program).statements@)),
{
    let mut custom_gates: Vec<String> = Vec::new();
    collect_custom_gates(&program.statements, &mut custom_gates);
    assert(names_of(Seq::<String>::empty()) =~= Seq::<Seq<char>>::empty());
    assert(names_of(custom_gates@) =~= defined_gates(program.statements@));
    let mut taken: Vec<HirStmt> = Vec::new();
    std::mem::swap(&mut taken, &mut program.statements);
    let (stmts, removed) = optimize_stmts(taken, &custom_gates);
    program.statements = stmts;
    OptStats { gates_removed: removed }
}

// ── Basis decomposition ─────────────────────────────────────

fn copy_names(v: &Vec<(String, Option<u64>)>) -> (r: Vec<(String, Option<u64>)>)
    ensures
        r@ == v@,
{
    let mut out: Vec<(String, Option<u64>)> = Vec::new();
    let mut i: usize = 0;
    while i < v.len()
        invariant
            i <= v@.len(),
            out@ =~= v@.take(i as int),
        decreases v@.len() - i,
    {
        out.push((v[i].0.clone(), v[i].1));
        i += 1;
    }
    assert(v@.take(v@.len() as int) =~= v@);
    out
}

fn copy_wires(v: &Vec<usize>) -> (r: Vec<usize>)
    ensures
        r@ == v@,
{
    let mut out: Vec<usize> = Vec::new();
    let mut i: usize = 0;
    while i < v.len()
        invariant
            i <= v@.len(),
            out@ =~= v@.take(i as int),
        decreases v@.len() - i,
    {
        out.push(v[i]);
        i += 1;
    }
    assert(v@.take(v@.len() as int) =~= v@);
    out
}

fn copy_params(v: &Vec<Param>) -> (r: Vec<Param>)
    ensures
        r@ == v@,
{
    let mut out: Vec<Param> = Vec::new();
    let mut i: usize = 0;
    while i < v.len()
        invariant
            i <= v@.len(),
            out@ =~= v@.take(i as int),
        decreases v@.len() - i,
    {
        out.push(v[i].clone());
        i += 1;
    }
    assert(v@.take(v@.len() as int) =~= v@);
    out
}

fn copy_modifiers(v: &Vec<Modifier>) -> (r: Vec<Modifier>)
    ensures
        r@ == v@,
{
    let mut out: Vec<Modifier> = Vec::new();
    let mut i: usize = 0;
    while i < v.len()
        invariant
            i <= v@.len(),
            out@ =~= v@.take(i as int),
        decreases v@.len() - i,
    {
        out.push(v[i].clone());
        i += 1;
    }
    assert(v@.take(v@.len() as int) =~= v@);
    out
}

/// Append an unmodified gate, keeping the circuit's frame.
/// `op` is an unmodified gate named `name` with the parameters `params` on
/// the wires `qubits`.
pub open spec fn plain_gate(op: Op, name: Seq<char>, params: Seq<Param>, qubits: Seq<usize>) -> bool {
    op matches Op::Gate { name: n, modifiers: m, params: p, qubits: q } && n@ == name && m@.len() == 0 && p@
        == params && q@ == qubits
}

/// π/2.
pub open spec fn half_pi_param() -> Param {
    Param::BinOp { op: ParamOp::Div, lhs: Box::new(Param::Pi), rhs: Box::new(Param::Int(2)) }
}

/// The operations that stand for `op` after decomposition: `rz(pi/2) sx
/// rz(pi/2)` for a plain `h`, `sx sx` for a plain `x`, on the same wires;
/// any other operation as it was.
pub open spec fn replacement_ops_ok(new_ops: Seq<Op>, op: Op, excluded: Seq<String>) -> bool {
    let n = replacement_size(op, excluded);
    match op {
        Op::Gate { name, modifiers, params, qubits } => if n == 3 {
            &&& new_ops.len() == 3
            &&& plain_gate(new_ops[0], "rz"@, seq![half_pi_param()], qubits@)
            &&& plain_gate(new_ops[1], "sx"@, seq![], qubits@)
            &&& plain_gate(new_ops[2], "rz"@, seq![half_pi_param()], qubits@)
        } else if n == 2 {
            &&& new_ops.len() == 2
            &&& plain_gate(new_ops[0], "sx"@, seq![], qubits@)
            &&& plain_gate(new_ops[1], "sx"@, seq![], qubits@)
        } else {
            &&& new_ops.len() == 1
            &&& new_ops[0] matches Op::Gate { name: n2, modifiers: m2, params: p2, qubits: q2 } && n2@ == name@ && m2@
                == modifiers@ && p2@ == params@ && q2@ == qubits@
        },
        Op::Measure { .. } => new_ops == seq![op],
        Op::Reset { .. } => new_ops == seq![op],
        Op::Barrier { qubits } => new_ops.len() == 1 && (new_ops[0] matches Op::Barrier { qubits: q2 } && q2@
            == qubits@),
        Op::Delay { duration, qubits } => new_ops.len() == 1 && (new_ops[0] matches Op::Delay {
            duration: d2,
            qubits: q2,
        } && d2 == duration && q2@ == qubits@),
        _ => false,
    }
}

/// From `base` on, `nodes` are live and hold, in order, the operations that
/// stand for the operations of `dag` at `order`.
pub open spec fn decomposed_nodes(
    nodes: Seq<DAGNode>,
    base: int,
    dag: &CircuitDAG,
    order: Seq<usize>,
    excluded: Seq<String>,
) -> bool
    decreases order.len(),
{
    if order.len() == 0 {
        nodes.len() == base
    } else {
        let mid = base + ops_after(dag, order.drop_last(), excluded);
        &&& mid <= nodes.len()
        &&& nodes.len() == base + ops_after(dag, order, excluded)
        &&& decomposed_nodes(nodes.take(mid), base, dag, order.drop_last(), excluded)
        &&& forall|k: int| mid <= k < nodes.len() ==> !(#[trigger] nodes[k]).removed
        &&& replacement_ops_ok(
            nodes.subrange(mid, nodes.len() as int).map_values(|n: DAGNode| n.op),
            dag.nodes_view()[order.last() as int].op,
            excluded,
        )
    }
}

proof fn lemma_push_one(before: Seq<DAGNode>, after: Seq<DAGNode>)
    requires
        after.len() == before.len() + 1,
        forall|k: int| 0 <= k < before.len() ==> after[k] == before[k],
    ensures
        after.take(before.len() as int) == before,
        after.subrange(before.len() as int, after.len() as int).map_values(|n: DAGNode| n.op) == seq![after.last().op],
{
    assert(after.take(before.len() as int) =~= before);
    assert(after.subrange(before.len() as int, after.len() as int).map_values(|n: DAGNode| n.op) =~= seq![
        after.last().op,
    ]);
}

proof fn lemma_nodes_step(
    before: Seq<DAGNode>,
    after: Seq<DAGNode>,
    base: int,
    dag: &CircuitDAG,
    order: Seq<usize>,
    i: int,
    excluded: Seq<String>,
)
    requires
        0 <= i < order.len(),
        decomposed_nodes(before, base, dag, order.take(i), excluded),
        after.take(before.len() as int) == before,
        after.len() >= before.len(),
        forall|k: int| before.len() <= k < after.len() ==> !(#[trigger] after[k]).removed,
        replacement_ops_ok(
            after.subrange(before.len() as int, after.len() as int).map_values(|n: DAGNode| n.op),
            dag.nodes_view()[order[i] as int].op,
            excluded,
        ),
        after.len() == base + ops_after(dag, order.take(i + 1), excluded),
    ensures
        decomposed_nodes(after, base, dag, order.take(i + 1), excluded),
{
    let t = order.take(i + 1);
    assert(t.drop_last() =~= order.take(i));
    assert(t.last() == order[i]);
    if i > 0 {
        assert(before.len() == base + ops_after(dag, order.take(i), excluded));
    } else {
        assert(order.take(i).len() == 0);
    }
}

fn append_plain(dag: &mut CircuitDAG, name: &str, params: Vec<Param>, qubits: &Vec<usize>)
    requires
        old(dag).wf(),
        old(dag).len() < usize::MAX,
        forall|k: int| 0 <= k < qubits@.len() ==> #[trigger] qubits@[k] < old(dag).nq(),
    ensures
        final(dag).wf(),
        final(dag).len() == old(dag).len() + 1,
        final(dag).nq() == old(dag).nq(),
        final(dag).qubit_names_view() == old(dag).qubit_names_view(),
        final(dag).bit_names_view() == old(dag).bit_names_view(),
        final(dag).live_gates() == old(dag).live_gates() + 1,
        final(dag).live_ops() == old(dag).live_ops() + 1,
        final(dag).nodes_view().take(old(dag).len() as int) == old(dag).nodes_view(),
        !final(dag).nodes_view().last().removed,
        plain_gate(final(dag).nodes_view().last().op, name@, params@, qubits@),
        final(dag).edges() == crate::ir::thread_spec(crate::ir::alloc_spec(old(dag).edges()), old(dag).len() as usize, qubits@),
        forall|k: int| 0 <= k < old(dag).len() ==> final(dag).nodes_view()[k] == old(dag).nodes_view()[k],
{
    let ghost before = *dag;
    let ghost pv = params@;
    dag.append_gate(string_of(name), Vec::new(), params, copy_wires(qubits));
    assert(dag.nodes_view().take(before.len() as int) =~= before.nodes_view());
    proof {
        dag.lemma_same_frame_nq(&before);
    }
}

fn half_pi() -> (r: Param)
    ensures
        r == (Param::BinOp { op: ParamOp::Div, lhs: Box::new(Param::Pi), rhs: Box::new(Param::Int(2)) }),
{
    Param::BinOp { op: ParamOp::Div, lhs: Box::new(Param::Pi), rhs: Box::new(Param::Int(2)) }
}

/// How many gates rewriting into the `{rz, sx, cx}` basis puts in place of
/// `op`: three (`rz(pi/2) sx rz(pi/2)`) for an `h`, two (`sx sx`) for an
/// `x` (unmodified, unparameterized, not excluded, names compared ignoring
/// ASCII case); none when the operation stays as it is.
pub open spec fn replacement_size(op: Op, excluded: Seq<String>) -> nat {
    match op {
        Op::Gate { name, modifiers, params, .. } => if modifiers@.len() == 0 && params@.len() == 0
            && !excluded_gate(excluded, op) {
            if eq_ignore_ascii_case_spec(name@, "h"@) {
                3
            } else if eq_ignore_ascii_case_spec(name@, "x"@) {
                2
            } else {
                0
            }
        } else {
            0
        },
        _ => 0,
    }
}

/// How many operations of `order` are rewritten.
pub open spec fn rewritten_in(dag: &CircuitDAG, order: Seq<usize>, excluded: Seq<String>) -> nat
    decreases order.len(),
{
    if order.len() == 0 {
        0
    } else {
        rewritten_in(dag, order.drop_last(), excluded) + if replacement_size(
            dag.nodes_view()[order.last() as int].op,
            excluded,
        ) > 0 {
            1nat
        } else {
            0nat
        }
    }
}

/// The gates that the operations of `order` become.
pub open spec fn gates_after(dag: &CircuitDAG, order: Seq<usize>, excluded: Seq<String>) -> nat
    decreases order.len(),
{
    if order.len() == 0 {
        0
    } else {
        let op = dag.nodes_view()[order.last() as int].op;
        gates_after(dag, order.drop_last(), excluded) + if replacement_size(op, excluded) > 0 {
            replacement_size(op, excluded)
        } else if op is Gate {
            1nat
        } else {
            0nat
        }
    }
}

/// The operations that the operations of `order` become.
pub open spec fn ops_after(dag: &CircuitDAG, order: Seq<usize>, excluded: Seq<String>) -> nat
    decreases order.len(),
{
    if order.len() == 0 {
        0
    } else {
        let op = dag.nodes_view()[order.last() as int].op;
        ops_after(dag, order.drop_last(), excluded) + if replacement_size(op, excluded) > 0 {
            replacement_size(op, excluded)
        } else {
            1nat
        }
    }
}

/// What decomposing one region gives: a region over the same wires whose
/// gate and operation counts, and the number `c` of gates rewritten, are
/// those of rewriting the region's operations in the order it emits them (when
/// the region is small enough for the counts to fit); a region with too
/// many wires to rebuild stays as it is and counts nothing.
pub open spec fn region_decomposed(d2: CircuitDAG, d: CircuitDAG, excluded: Seq<String>, c: int) -> bool {
    &&& d2.wf()
    &&& d2.nq() == d.nq()
    &&& d2.qubit_names_view() == d.qubit_names_view()
    &&& d2.bit_names_view() == d.bit_names_view()
    &&& if d.nq() < usize::MAX / 2 {
        let order = crate::ir::emitted_order(&d);
        &&& crate::ir::emission_order(&d, order)
        &&& 3 * d.len() + 2 * d.nq() + 4 < usize::MAX ==> {
            &&& c == rewritten_in(&d, order, excluded)
            &&& d2.live_gates() == gates_after(&d, order, excluded)
            &&& d2.live_ops() == ops_after(&d, order, excluded)
            &&& decomposed_nodes(d2.nodes_view(), (2 * d.nq()) as int, &d, order, excluded)
            &&& crate::lower::region_closed(d2, d.nq())
        }
    } else {
        d2 == d && c == 0
    }
}

/// `after` is `before` with every circuit region decomposed, everything
/// else kept; `c` is the saturating sum of the regions' rewritten gates.
pub open spec fn stmts_decomposed(after: Seq<HirStmt>, before: Seq<HirStmt>, excluded: Seq<String>, c: int) -> bool
    decreases before, 0nat,
{
    if before.len() == 0 {
        after.len() == 0 && c == 0
    } else {
        proof {
            assert(decreases_to!(before => before.drop_last()));
            assert(decreases_to!(before => before[before.len() - 1]));
        }
        &&& after.len() == before.len()
        &&& exists|c1: int, c2: int|
            stmts_decomposed(after.drop_last(), before.drop_last(), excluded, c1) && stmt_decomposed(
                after.last(),
                before.last(),
                excluded,
                c2,
            ) && c == #[trigger] crate::hir::sat_add(c1, c2)
    }
}

pub open spec fn stmt_decomposed(after: HirStmt, before: HirStmt, excluded: Seq<String>, c: int) -> bool
    decreases before, 1nat,
{
    match before {
        HirStmt::Circuit(d) => match after {
            HirStmt::Circuit(d2) => region_decomposed(d2, d, excluded, c),
            _ => false,
        },
        HirStmt::If { condition, then_body, else_body } => {
            proof {
                assert(decreases_to!(before => then_body));
                assert(decreases_to!(then_body => then_body@));
            }
            match after {
                HirStmt::If { condition: c2, then_body: t2, else_body: e2 } => {
                    &&& c2 == condition
                    &&& match (else_body, e2) {
                        (Some(e), Some(f)) => {
                            proof {
                                assert(decreases_to!(before => else_body));
                                assert(decreases_to!(else_body => e));
                                assert(decreases_to!(e => e@));
                            }
                            exists|a: int, b: int|
                                stmts_decomposed(t2@, then_body@, excluded, a) && stmts_decomposed(
                                    f@,
                                    e@,
                                    excluded,
                                    b,
                                ) && c == #[trigger] crate::hir::sat_add(a, b)
                        },
                        (None, None) => stmts_decomposed(t2@, then_body@, excluded, c),
                        _ => false,
                    }
                },
                _ => false,
            }
        },
        HirStmt::For { var_name, var_ty, range, body } => {
            proof {
                assert(decreases_to!(before => body));
                assert(decreases_to!(body => body@));
            }
            match after {
                HirStmt::For { var_name: n2, var_ty: t2, range: r2, body: b2 } => {
                    &&& n2 == var_name
                    &&& t2 == var_ty
                    &&& r2 == range
                    &&& stmts_decomposed(b2@, body@, excluded, c)
                },
                _ => false,
            }
        },
        HirStmt::While { condition, body } => {
            proof {
                assert(decreases_to!(before => body));
                assert(decreases_to!(body => body@));
            }
            match after {
                HirStmt::While { condition: c2, body: b2 } => {
                    &&& c2 == condition
                    &&& stmts_decomposed(b2@, body@, excluded, c)
                },
                _ => false,
            }
        },
        HirStmt::Ast(a) => after == HirStmt::Ast(a) && c == 0,
    }
}

proof fn lemma_decomposed_step(
    after: Seq<HirStmt>,
    before: Seq<HirStmt>,
    k: int,
    t: HirStmt,
    excluded: Seq<String>,
    c1: int,
    c2: int,
)
    requires
        0 <= k < before.len(),
        stmts_decomposed(after, before.take(k), excluded, c1),
        stmt_decomposed(t, before[k], excluded, c2),
    ensures
        stmts_decomposed(after.push(t), before.take(k + 1), excluded, crate::hir::sat_add(c1, c2)),
{
    assert(before.take(k + 1).drop_last() =~= before.take(k));
    assert(before.take(k + 1).last() == before[k]);
    assert(after.push(t).drop_last() =~= after);
    assert(after.push(t).last() == t);
    if k == 0 {
        assert(after.len() == 0);
    } else {
        assert(after.len() == k);
    }
    let a2 = after.push(t);
    let b2 = before.take(k + 1);
    assert(stmts_decomposed(a2.drop_last(), b2.drop_last(), excluded, c1));
    assert(stmt_decomposed(a2.last(), b2.last(), excluded, c2));
    assert(a2.len() == b2.len());
    assert(b2.len() > 0);
    assert(stmts_decomposed(a2, b2, excluded, crate::hir::sat_add(c1, c2)));
}

/// Rebuild a circuit with `h` and `x` written in the `{rz, sx, cx}` basis
/// (`h` as `rz(pi/2) sx rz(pi/2)`, `x` as `sx sx`); modified, parameterized
/// and excluded gates are kept. The operations are rebuilt in an emission
/// order of the circuit; the counts follow that order exactly.
#[verifier::rlimit(60)]
fn decompose_dag_to_rz_sx_cx(dag: &CircuitDAG, excluded: &Vec<String>) -> (r: (CircuitDAG, DecomposeStats))
    requires
        dag.wf(),
        dag.nq() < usize::MAX / 2,
    ensures
        r.0.wf(),
        r.0.nq() == dag.nq(),
        r.0.qubit_names_view() == dag.qubit_names_view(),
        r.0.bit_names_view() == dag.bit_names_view(),
        ({
            let order = crate::ir::emitted_order(dag);
            &&& crate::ir::emission_order(dag, order)
            &&& 3 * dag.len() + 2 * dag.nq() + 4 < usize::MAX ==> {
                &&& r.1.gates_decomposed == rewritten_in(dag, order, excluded@)
                &&& r.0.live_gates() == gates_after(dag, order, excluded@)
                &&& r.0.live_ops() == ops_after(dag, order, excluded@)
                &&& decomposed_nodes(r.0.nodes_view(), (2 * dag.nq()) as int, dag, order, excluded@)
                &&& crate::lower::region_closed(r.0, dag.nq())
            }
        }),
{
    let nq = dag.qubit_count();
    let mut replacement = CircuitDAG::new(nq, dag.bit_count());
    proof {
        crate::lower::lemma_new_is_fresh(replacement);
    }
    replacement.set_names(copy_names(dag.qubit_names()), copy_names(dag.bit_names()));
    let mut stats = DecomposeStats::default();
    let order = dag.ops_topo();
    assert(crate::ir::emission_order(dag, order@));
    let ghost small = 3 * dag.len() + 2 * dag.nq() + 4 < usize::MAX;
    let mut i: usize = 0;
    assert(order@.take(0) =~= Seq::<usize>::empty());
    while i < order.len()
        invariant
            dag.wf(),
            replacement.wf(),
            replacement.nq() == nq,
            nq == dag.nq(),
            replacement.qubit_names_view() == dag.qubit_names_view(),
            replacement.bit_names_view() == dag.bit_names_view(),
            i <= order@.len(),
            crate::ir::live_op_order(dag, order@),
            small == (3 * dag.len() + 2 * dag.nq() + 4 < usize::MAX),
            stats.gates_decomposed == rewritten_in(dag, order@.take(i as int), excluded@),
            replacement.live_gates() == gates_after(dag, order@.take(i as int), excluded@),
            replacement.live_ops() == ops_after(dag, order@.take(i as int), excluded@),
            replacement.len() == 2 * nq + ops_after(dag, order@.take(i as int), excluded@),
            ops_after(dag, order@.take(i as int), excluded@) <= 3 * i,
            rewritten_in(dag, order@.take(i as int), excluded@) <= i,
            decomposed_nodes(replacement.nodes_view(), (2 * nq) as int, dag, order@.take(i as int), excluded@),
            crate::lower::region_wired(replacement, nq as nat),
        ensures
            i == order@.len() || replacement.len() >= usize::MAX - 3,
        decreases order@.len() - i,
    {
        let id = order[i];
        proof {
            assert(dag.live(order@[i as int] as int));
            dag.lemma_op_wires(id as int);
            assert(order@.take(i + 1).drop_last() =~= order@.take(i as int));
            assert(order@.take(i + 1).last() == order@[i as int]);
        }
        if replacement.node_count() >= usize::MAX - 3 {
            break;
        }
        let ghost before = replacement;
        let ghost bl = before.len() as int;
        let node = dag.node(id);
        assert(forall|k: int| 0 <= k < op_qubits(node.op).len() ==> #[trigger] op_qubits(node.op)[k] < replacement.nq());
        assert(is_live_op(dag.nodes_view()[id as int]));
        match &node.op {
            Op::Gate { name, modifiers, params, qubits } => {
                let plain = modifiers.len() == 0 && params.len() == 0 && !is_excluded(excluded, &node.op);
                assert(op_qubits(node.op) == qubits@);
                assert(forall|k: int| 0 <= k < qubits@.len() ==> #[trigger] qubits@[k] < replacement.nq());
                if plain && eq_ignore_ascii_case(name.as_str(), "h") {
                    let hp = half_pi();
                    let v1 = vec![hp];
                    assert(v1@ =~= seq![half_pi_param()]);
                    append_plain(&mut replacement, "rz", v1, qubits);
                    let ghost n1 = replacement.nodes_view();
                    let ghost r1 = replacement;
                    proof {
                        crate::lower::lemma_threaded_append(crate::lower::fresh_edges(nq as nat), before, r1, (2 * nq) as int);
                    }
                    let v2: Vec<Param> = Vec::new();
                    assert(v2@ =~= Seq::<Param>::empty());
                    append_plain(&mut replacement, "sx", v2, qubits);
                    let ghost n2 = replacement.nodes_view();
                    let ghost r2 = replacement;
                    proof {
                        crate::lower::lemma_threaded_append(crate::lower::fresh_edges(nq as nat), r1, r2, (2 * nq) as int);
                    }
                    let hp2 = half_pi();
                    let v3 = vec![hp2];
                    assert(v3@ =~= seq![half_pi_param()]);
                    append_plain(&mut replacement, "rz", v3, qubits);
                    proof {
                        crate::lower::lemma_threaded_append(crate::lower::fresh_edges(nq as nat), r2, replacement, (2 * nq) as int);
                    }
                    stats.gates_decomposed = stats.gates_decomposed + 1;
                    proof {
                        let n3 = replacement.nodes_view();
                        assert(n3.take(bl) =~= before.nodes_view()) by {
                            assert(n3.take(bl + 2) == n2);
                            assert(n2.take(bl + 1) == n1);
                            assert(n1.take(bl) == before.nodes_view());
                        }
                        assert(n3[bl] == n1.last());
                        assert(n3[bl + 1] == n2.last());
                        let ops = n3.subrange(bl, n3.len() as int).map_values(|n: DAGNode| n.op);
                        assert(ops =~= seq![n1.last().op, n2.last().op, n3.last().op]);
                        lemma_nodes_step(before.nodes_view(), n3, 2 * nq as int, dag, order@, i as int, excluded@);
                    }
                } else if plain && eq_ignore_ascii_case(name.as_str(), "x") {
                    let v1: Vec<Param> = Vec::new();
                    assert(v1@ =~= Seq::<Param>::empty());
                    append_plain(&mut replacement, "sx", v1, qubits);
                    let ghost n1 = replacement.nodes_view();
                    let ghost r1 = replacement;
                    proof {
                        crate::lower::lemma_threaded_append(crate::lower::fresh_edges(nq as nat), before, r1, (2 * nq) as int);
                    }
                    let v2: Vec<Param> = Vec::new();
                    assert(v2@ =~= Seq::<Param>::empty());
                    append_plain(&mut replacement, "sx", v2, qubits);
                    proof {
                        crate::lower::lemma_threaded_append(crate::lower::fresh_edges(nq as nat), r1, replacement, (2 * nq) as int);
                    }
                    stats.gates_decomposed = stats.gates_decomposed + 1;
                    proof {
                        let n2 = replacement.nodes_view();
                        assert(n2.take(bl) =~= before.nodes_view()) by {
                            assert(n2.take(bl + 1) == n1);
                            assert(n1.take(bl) == before.nodes_view());
                        }
                        assert(n2[bl] == n1.last());
                        let ops = n2.subrange(bl, n2.len() as int).map_values(|n: DAGNode| n.op);
                        assert(ops =~= seq![n1.last().op, n2.last().op]);
                        lemma_nodes_step(before.nodes_view(), n2, 2 * nq as int, dag, order@, i as int, excluded@);
                    }
                } else {
                    replacement.append_gate(
                        name.clone(),
                        copy_modifiers(modifiers),
                        copy_params(params),
                        copy_wires(qubits),
                    );
                    proof {
                        replacement.lemma_same_frame_nq(&before);
                        lemma_push_one(before.nodes_view(), replacement.nodes_view());
                        crate::lower::lemma_threaded_append(
                            crate::lower::fresh_edges(nq as nat),
                            before,
                            replacement,
                            (2 * nq) as int,
                        );
                        lemma_nodes_step(
                            before.nodes_view(),
                            replacement.nodes_view(),
                            2 * nq as int,
                            dag,
                            order@,
                            i as int,
                            excluded@,
                        );
                    }
                }
            },
            Op::Measure { qubit, bit } => {
                assert(op_qubits(node.op)[0] == *qubit);
                replacement.append_measure(*qubit, *bit);
                proof {
                    replacement.lemma_same_frame_nq(&before);
                    lemma_push_one(before.nodes_view(), replacement.nodes_view());
                        crate::lower::lemma_threaded_append(
                            crate::lower::fresh_edges(nq as nat),
                            before,
                            replacement,
                            (2 * nq) as int,
                        );
                    lemma_nodes_step(
                        before.nodes_view(),
                        replacement.nodes_view(),
                        2 * nq as int,
                        dag,
                        order@,
                        i as int,
                        excluded@,
                    );
                }
            },
            Op::Reset { qubit } => {
                assert(op_qubits(node.op)[0] == *qubit);
                replacement.append_reset(*qubit);
                proof {
                    replacement.lemma_same_frame_nq(&before);
                    lemma_push_one(before.nodes_view(), replacement.nodes_view());
                        crate::lower::lemma_threaded_append(
                            crate::lower::fresh_edges(nq as nat),
                            before,
                            replacement,
                            (2 * nq) as int,
                        );
                    lemma_nodes_step(
                        before.nodes_view(),
                        replacement.nodes_view(),
                        2 * nq as int,
                        dag,
                        order@,
                        i as int,
                        excluded@,
                    );
                }
            },
            Op::Barrier { qubits } => {
                assert(op_qubits(node.op) == qubits@);
                replacement.append_barrier(copy_wires(qubits));
                proof {
                    replacement.lemma_same_frame_nq(&before);
                    lemma_push_one(before.nodes_view(), replacement.nodes_view());
                        crate::lower::lemma_threaded_append(
                            crate::lower::fresh_edges(nq as nat),
                            before,
                            replacement,
                            (2 * nq) as int,
                        );
                    lemma_nodes_step(
                        before.nodes_view(),
                        replacement.nodes_view(),
                        2 * nq as int,
                        dag,
                        order@,
                        i as int,
                        excluded@,
                    );
                }
            },
            Op::Delay { duration, qubits } => {
                assert(op_qubits(node.op) == qubits@);
                replacement.append_delay(duration.clone(), copy_wires(qubits));
                proof {
                    replacement.lemma_same_frame_nq(&before);
                    lemma_push_one(before.nodes_view(), replacement.nodes_view());
                        crate::lower::lemma_threaded_append(
                            crate::lower::fresh_edges(nq as nat),
                            before,
                            replacement,
                            (2 * nq) as int,
                        );
                    lemma_nodes_step(
                        before.nodes_view(),
                        replacement.nodes_view(),
                        2 * nq as int,
                        dag,
                        order@,
                        i as int,
                        excluded@,
                    );
                }
            },
            _ => {},
        }
        i += 1;
    }
    proof {
        if small {
            crate::ir::lemma_distinct_len(dag, order@);
            assert(i == order@.len());
            assert(order@.take(order@.len() as int) =~= order@);
        }
    }
    let ghost before = replacement;
    replacement.finalize();
    proof {
        replacement.lemma_same_frame_nq(&before);
        replacement.lemma_same_frame_outputs(&before);
    }
    (replacement, stats)
}

#[verifier::loop_isolation(false)]
fn decompose_stmts(stmts: Vec<HirStmt>, excluded: &Vec<String>) -> (r: (Vec<HirStmt>, usize))
    requires
        hir_stmts_wf(stmts@),
    ensures
        hir_stmts_wf(r.0@),
        stmts_decomposed(r.0@, stmts@, excluded@, r.1 as int),
    decreases stmts,
{
    let ghost input = stmts@;
    assert(stmts@.len() == stmts.len());
    let mut items = stmts;
    let mut out: Vec<HirStmt> = Vec::new();
    let mut count: usize = 0;
    let mut k: usize = 0;
    assert(items@ =~= input.subrange(0, input.len() as int));
    assert(input.take(0) =~= Seq::<HirStmt>::empty());
    while items.len() > 0
        invariant
            k + items@.len() == input.len(),
            input.len() <= usize::MAX,
            items@ == input.subrange(k as int, input.len() as int),
            hir_stmts_wf(input),
            hir_stmts_wf(out@),
            out@.len() == k,
            stmts_decomposed(out@, input.take(k as int), excluded@, count as int),
        decreases items@.len(),
    {
        let s = items.remove(0);
        proof {
            assert(s == input[k as int]);
            assert(decreases_to!(stmts => stmts@));
            assert(decreases_to!(stmts@ => stmts@[k as int]));
            lemma_stmts_wf_index(input, k as int);
        }
        let (t, c) = decompose_stmt(s, excluded);
        let ghost before = out@;
        let ghost tv = t;
        out.push(t);
        proof {
            lemma_stmts_wf_push(before, tv);
            lemma_decomposed_step(before, input, k as int, tv, excluded@, count as int, c as int);
        }
        count = count.saturating_add(c);
        k += 1;
        assert(items@ =~= input.subrange(k as int, input.len() as int));
    }
    assert(input.take(input.len() as int) =~= input);
    (out, count)
}

fn decompose_stmt(s: HirStmt, excluded: &Vec<String>) -> (r: (HirStmt, usize))
    requires
        hir_stmt_wf(s),
    ensures
        hir_stmt_wf(r.0),
        stmt_decomposed(r.0, s, excluded@, r.1 as int),
    decreases s,
{
    match s {
        HirStmt::Circuit(dag) => {
            if dag.qubit_count() < usize::MAX / 2 {
                let (replacement, stats) = decompose_dag_to_rz_sx_cx(&dag, excluded);
                proof {
                    let order = choose|order: Seq<usize>|
                        crate::ir::emission_order(&dag, order) && (3 * dag.len() + 2 * dag.nq() + 4 < usize::MAX ==> {
                            &&& stats.gates_decomposed == rewritten_in(&dag, order, excluded@)
                            &&& replacement.live_gates() == gates_after(&dag, order, excluded@)
                            &&& replacement.live_ops() == ops_after(&dag, order, excluded@)
                            &&& decomposed_nodes(replacement.nodes_view(), (2 * dag.nq()) as int, &dag, order, excluded@)
                            &&& crate::lower::region_closed(replacement, dag.nq())
                        });
                    assert(crate::ir::emission_order(&dag, order));
                    assert(region_decomposed(replacement, dag, excluded@, stats.gates_decomposed as int));
                    assert(stmt_decomposed(
                        HirStmt::Circuit(replacement),
                        HirStmt::Circuit(dag),
                        excluded@,
                        stats.gates_decomposed as int,
                    ));
                }
                (HirStmt::Circuit(replacement), stats.gates_decomposed)
            } else {
                (HirStmt::Circuit(dag), 0)
            }
        },
        HirStmt::If { condition, then_body, else_body } => {
            let (t, a) = decompose_stmts(then_body, excluded);
            match else_body {
                Some(e) => {
                    let (e2, b) = decompose_stmts(e, excluded);
                    let ghost tv = t@;
                    let ghost ev = e2@;
                    let ghost ebody = e@;
                    let r = (HirStmt::new_if(condition, t, Some(e2)), a.saturating_add(b));
                    assert(r.1 as int == crate::hir::sat_add(a as int, b as int));
                    assert(stmts_decomposed(tv, then_body@, excluded@, a as int) && stmts_decomposed(
                        ev,
                        ebody,
                        excluded@,
                        b as int,
                    ));
                    r
                },
                None => (HirStmt::new_if(condition, t, None), a),
            }
        },
        HirStmt::For { var_name, var_ty, range, body } => {
            let (b, c) = decompose_stmts(body, excluded);
            (HirStmt::new_for(var_name, var_ty, range, b), c)
        },
        HirStmt::While { condition, body } => {
            let (b, c) = decompose_stmts(body, excluded);
            (HirStmt::new_while(condition, b), c)
        },
        HirStmt::Ast(a) => (HirStmt::Ast(a), 0),
    }
}

/// Decompose `h` and `x` gates into the `{rz, sx, cx}` basis in every
/// circuit region. Modified and program-defined gates are kept; the
/// Hadamard decomposition holds up to global phase.
pub fn decompose_hir_to_rz_sx_cx(program: &mut HirProgram) -> (r: DecomposeStats)
    requires
        old(program).wf(),
    ensures
        final(program).wf(),
        final(program).version@ == old(program).version@,
        final(program).num_qubits == old(program).num_qubits,
        final(program).num_bits == old(program).num_bits,
        exists|excluded: Seq<String>|
            names_of(excluded) == defined_gates(old(program).statements@) && #[trigger] stmts_decomposed(
                final(program).statements@,
                old(program).statements@,
                excluded,
                r.gates_decomposed as int,
            ) && (all_regions(old(program).statements@, |d: CircuitDAG| region_fits(d)) ==> {
                &&& crate::hir::stmts_gates(final(program).statements@) == crate::hir::stmts_gates(
                    old(program).statements@,
                ) + regions_sum(old(program).statements@, |d: CircuitDAG| region_extra(d, excluded))
                &&& r.gates_decomposed == crate::hir::sat(
                    regions_sum(old(program).statements@, |d: CircuitDAG| region_rewrites(d, excluded)) as int,
                )
            }),
{
    let mut custom_gates: Vec<String> = Vec::new();
    collect_custom_gates(&program.statements, &mut custom_gates);
    assert(names_of(Seq::<String>::empty()) =~= Seq::<Seq<char>>::empty());
    assert(names_of(custom_gates@) =~= defined_gates(program.statements@));
    let mut taken: Vec<HirStmt> = Vec::new();
    std::mem::swap(&mut taken, &mut program.statements);
    let ghost before = taken@;
    let (stmts, count) = decompose_stmts(taken, &custom_gates);
    program.statements = stmts;
    let r = DecomposeStats { gates_decomposed: count };
    assert(stmts_decomposed(program.statements@, before, custom_gates@, r.gates_decomposed as int));
    proof {
        if all_regions(before, |d: CircuitDAG| region_fits(d)) {
            lemma_decomposition_counts(program.statements@, before, custom_gates@, r.gates_decomposed as int);
        }
    }
    r
}

// ── Decomposition over a whole program ─────────────────────

/// The sum of `f` over the nodes below `n`.
pub open spec fn range_sum(f: spec_fn(int) -> nat, n: int) -> nat
    decreases n,
{
    if n <= 0 {
        0
    } else {
        range_sum(f, n - 1) + f(n - 1)
    }
}

/// The sum of `f` over the nodes below `n` that `s` holds.
spec fn held_sum(s: Seq<usize>, f: spec_fn(int) -> nat, n: int) -> nat
    decreases n,
{
    if n <= 0 {
        0
    } else {
        held_sum(s, f, n - 1) + if s.contains((n - 1) as usize) {
            f(n - 1)
        } else {
            0
        }
    }
}

/// The sum of `f` over the entries of `s`.
spec fn seq_sum(s: Seq<usize>, f: spec_fn(int) -> nat) -> nat
    decreases s.len(),
{
    if s.len() == 0 {
        0
    } else {
        seq_sum(s.drop_last(), f) + f(s.last() as int)
    }
}

/// 1 at each live gate of `d`.
pub open spec fn gate_one_at(d: CircuitDAG) -> spec_fn(int) -> nat {
    |v: int| if 0 <= v < d.len() && is_live_gate(d.nodes_view()[v]) {
        1nat
    } else {
        0nat
    }
}

/// At each live gate that decomposition rewrites, the gates it adds: 2 for
/// a plain `h`, 1 for a plain `x`.
pub open spec fn extra_at(d: CircuitDAG, excluded: Seq<String>) -> spec_fn(int) -> nat {
    |v: int| if 0 <= v < d.len() && !d.nodes_view()[v].removed && replacement_size(d.nodes_view()[v].op, excluded) > 0 {
        (replacement_size(d.nodes_view()[v].op, excluded) - 1) as nat
    } else {
        0nat
    }
}

/// 1 at each live gate that decomposition rewrites.
pub open spec fn rewrite_at(d: CircuitDAG, excluded: Seq<String>) -> spec_fn(int) -> nat {
    |v: int| if 0 <= v < d.len() && !d.nodes_view()[v].removed && replacement_size(d.nodes_view()[v].op, excluded) > 0 {
        1nat
    } else {
        0nat
    }
}

/// The live gates of a region that decomposition rewrites.
pub open spec fn region_rewrites(d: CircuitDAG, excluded: Seq<String>) -> nat {
    range_sum(rewrite_at(d, excluded), d.len() as int)
}

/// The gates decomposition adds to a region.
pub open spec fn region_extra(d: CircuitDAG, excluded: Seq<String>) -> nat {
    range_sum(extra_at(d, excluded), d.len() as int)
}

proof fn lemma_held_push(s: Seq<usize>, x: usize, f: spec_fn(int) -> nat, n: int)
    requires
        !s.contains(x),
        n <= usize::MAX,
    ensures
        held_sum(s.push(x), f, n) == held_sum(s, f, n) + if 0 <= x < n {
            f(x as int)
        } else {
            0
        },
    decreases n,
{
    if n > 0 {
        lemma_held_push(s, x, f, n - 1);
        let v = (n - 1) as usize;
        assert(s.push(x).contains(v) == (s.contains(v) || v == x)) by {
            if s.push(x).contains(v) {
                let k = choose|k: int| 0 <= k < s.push(x).len() && s.push(x)[k] == v;
                if k < s.len() {
                    assert(s[k] == v);
                }
            }
            if s.contains(v) {
                let k = choose|k: int| 0 <= k < s.len() && s[k] == v;
                assert(s.push(x)[k] == v);
            }
            if v == x {
                assert(s.push(x)[s.len() as int] == x);
            }
        }
    }
}

proof fn lemma_seq_held(s: Seq<usize>, f: spec_fn(int) -> nat, n: int)
    requires
        s.no_duplicates(),
        n <= usize::MAX,
        forall|k: int| 0 <= k < s.len() ==> (#[trigger] s[k] as int) < n,
    ensures
        seq_sum(s, f) == held_sum(s, f, n),
    decreases s.len(),
{
    if s.len() == 0 {
        lemma_held_empty(s, f, n);
    } else {
        let t = s.drop_last();
        let x = s.last();
        assert(t.no_duplicates()) by {
            assert forall|i: int, j: int| 0 <= i < t.len() && 0 <= j < t.len() && i != j implies t[i] != t[j] by {
                assert(t[i] == s[i] && t[j] == s[j]);
            }
        }
        assert(!t.contains(x)) by {
            if t.contains(x) {
                let k = choose|k: int| 0 <= k < t.len() && t[k] == x;
                assert(s[k] == s[s.len() - 1]);
            }
        }
        assert forall|k: int| 0 <= k < t.len() implies (#[trigger] t[k] as int) < n by {
            assert(t[k] == s[k]);
        }
        lemma_seq_held(t, f, n);
        lemma_held_push(t, x, f, n);
        assert(t.push(x) =~= s);
        assert(s[s.len() - 1] == x);
    }
}

proof fn lemma_held_empty(s: Seq<usize>, f: spec_fn(int) -> nat, n: int)
    requires
        s.len() == 0,
    ensures
        held_sum(s, f, n) == 0,
    decreases n,
{
    if n > 0 {
        lemma_held_empty(s, f, n - 1);
    }
}

proof fn lemma_held_range(s: Seq<usize>, f: spec_fn(int) -> nat, n: int)
    requires
        n <= usize::MAX,
        forall|v: int| 0 <= v < n && #[trigger] f(v) > 0 ==> s.contains(v as usize),
    ensures
        held_sum(s, f, n) == range_sum(f, n),
    decreases n,
{
    if n > 0 {
        lemma_held_range(s, f, n - 1);
    }
}

proof fn lemma_gates_range(d: CircuitDAG, n: int)
    requires
        0 <= n <= d.len(),
    ensures
        crate::ir::count_gates(d.nodes_view().take(n)) == range_sum(gate_one_at(d), n),
    decreases n,
{
    if n > 0 {
        lemma_gates_range(d, n - 1);
        let t = d.nodes_view().take(n);
        assert(t.drop_last() =~= d.nodes_view().take(n - 1));
        assert(t.last() == d.nodes_view()[n - 1]);
    }
}

proof fn lemma_after_sums(d: CircuitDAG, order: Seq<usize>, excluded: Seq<String>)
    requires
        forall|k: int| 0 <= k < order.len() ==> (#[trigger] order[k] as int) < d.len() && is_live_op(
            d.nodes_view()[order[k] as int],
        ),
    ensures
        gates_after(&d, order, excluded) == seq_sum(order, gate_one_at(d)) + seq_sum(order, extra_at(d, excluded)),
        rewritten_in(&d, order, excluded) == seq_sum(order, rewrite_at(d, excluded)),
    decreases order.len(),
{
    if order.len() > 0 {
        let t = order.drop_last();
        assert forall|k: int| 0 <= k < t.len() implies (#[trigger] t[k] as int) < d.len() && is_live_op(
            d.nodes_view()[t[k] as int],
        ) by {
            assert(t[k] == order[k]);
        }
        lemma_after_sums(d, t, excluded);
        assert((order[order.len() - 1] as int) < d.len());
        let v = order.last() as int;
        let op = d.nodes_view()[v].op;
        if replacement_size(op, excluded) > 0 {
            assert(op is Gate);
        }
    }
}

/// Decomposing one region, when its emission order holds all its
/// operations, adds to its gates the ones the rewritten gates become, and
/// rewrites as many gates as it has plain `h` and `x` gates.
proof fn lemma_region_decomposed_counts(d: CircuitDAG, excluded: Seq<String>)
    requires
        crate::ir::emission_order(&d, crate::ir::emitted_order(&d)),
        crate::ir::in_degrees_fit(&d),
    ensures
        gates_after(&d, crate::ir::emitted_order(&d), excluded) == d.live_gates() + region_extra(d, excluded),
        rewritten_in(&d, crate::ir::emitted_order(&d), excluded) == region_rewrites(d, excluded),
{
    let order = crate::ir::emitted_order(&d);
    let n = d.len() as int;
    d.lemma_same_frame_refl();
    assert forall|k: int| 0 <= k < order.len() implies (#[trigger] order[k] as int) < d.len() && is_live_op(
        d.nodes_view()[order[k] as int],
    ) by {
        assert(d.live(order[k] as int));
    }
    lemma_after_sums(d, order, excluded);
    lemma_seq_held(order, gate_one_at(d), n);
    lemma_seq_held(order, extra_at(d, excluded), n);
    lemma_seq_held(order, rewrite_at(d, excluded), n);
    assert forall|v: int| 0 <= v < n && #[trigger] gate_one_at(d)(v) > 0 implies order.contains(v as usize) by {
        assert(is_live_op(d.nodes_view()[v]));
    }
    assert forall|v: int| 0 <= v < n && #[trigger] extra_at(d, excluded)(v) > 0 implies order.contains(v as usize) by {
        assert(d.nodes_view()[v].op is Gate);
        assert(is_live_op(d.nodes_view()[v]));
    }
    assert forall|v: int| 0 <= v < n && #[trigger] rewrite_at(d, excluded)(v) > 0 implies order.contains(v as usize) by {
        assert(d.nodes_view()[v].op is Gate);
        assert(is_live_op(d.nodes_view()[v]));
    }
    lemma_held_range(order, gate_one_at(d), n);
    lemma_held_range(order, extra_at(d, excluded), n);
    lemma_held_range(order, rewrite_at(d, excluded), n);
    lemma_gates_range(d, n);
    assert(d.nodes_view().take(n) =~= d.nodes_view());
}

/// The sum of `f` over the circuit regions of the statements, through
/// control-flow bodies.
pub open spec fn regions_sum(v: Seq<HirStmt>, f: spec_fn(CircuitDAG) -> nat) -> nat
    decreases v, 0nat,
{
    if v.len() == 0 {
        0
    } else {
        proof {
            assert(decreases_to!(v => v.drop_last()));
            assert(decreases_to!(v => v[v.len() - 1]));
        }
        regions_sum(v.drop_last(), f) + region_sum_of(v.last(), f)
    }
}

pub open spec fn region_sum_of(s: HirStmt, f: spec_fn(CircuitDAG) -> nat) -> nat
    decreases s, 1nat,
{
    match s {
        HirStmt::Ast(_) => 0,
        HirStmt::Circuit(d) => f(d),
        HirStmt::If { then_body, else_body, .. } => {
            proof {
                assert(decreases_to!(s => then_body));
                assert(decreases_to!(then_body => then_body@));
            }
            regions_sum(then_body@, f) + match else_body {
                Some(e) => {
                    proof {
                        assert(decreases_to!(s => else_body));
                        assert(decreases_to!(else_body => e));
                        assert(decreases_to!(e => e@));
                    }
                    regions_sum(e@, f)
                },
                None => 0,
            }
        },
        HirStmt::For { body, .. } => {
            proof {
                assert(decreases_to!(s => body));
                assert(decreases_to!(body => body@));
            }
            regions_sum(body@, f)
        },
        HirStmt::While { body, .. } => {
            proof {
                assert(decreases_to!(s => body));
                assert(decreases_to!(body => body@));
            }
            regions_sum(body@, f)
        },
    }
}

/// `p` holds of every circuit region of the statements.
pub open spec fn all_regions(v: Seq<HirStmt>, p: spec_fn(CircuitDAG) -> bool) -> bool
    decreases v, 0nat,
{
    if v.len() == 0 {
        true
    } else {
        proof {
            assert(decreases_to!(v => v.drop_last()));
            assert(decreases_to!(v => v[v.len() - 1]));
        }
        all_regions(v.drop_last(), p) && region_holds_for(v.last(), p)
    }
}

pub open spec fn region_holds_for(s: HirStmt, p: spec_fn(CircuitDAG) -> bool) -> bool
    decreases s, 1nat,
{
    match s {
        HirStmt::Ast(_) => true,
        HirStmt::Circuit(d) => p(d),
        HirStmt::If { then_body, else_body, .. } => {
            proof {
                assert(decreases_to!(s => then_body));
                assert(decreases_to!(then_body => then_body@));
            }
            all_regions(then_body@, p) && match else_body {
                Some(e) => {
                    proof {
                        assert(decreases_to!(s => else_body));
                        assert(decreases_to!(else_body => e));
                        assert(decreases_to!(e => e@));
                    }
                    all_regions(e@, p)
                },
                None => true,
            }
        },
        HirStmt::For { body, .. } => {
            proof {
                assert(decreases_to!(s => body));
                assert(decreases_to!(body => body@));
            }
            all_regions(body@, p)
        },
        HirStmt::While { body, .. } => {
            proof {
                assert(decreases_to!(s => body));
                assert(decreases_to!(body => body@));
            }
            all_regions(body@, p)
        },
    }
}

/// A region whose decomposition is counted exactly: well formed, with room
/// to rebuild it, and every in-degree below the largest `usize`, so that its
/// emission order holds all its operations.
pub open spec fn region_fits(d: CircuitDAG) -> bool {
    &&& d.wf()
    &&& d.nq() < usize::MAX / 2
    &&& 3 * d.len() + 2 * d.nq() + 4 < usize::MAX
    &&& crate::ir::in_degrees_fit(&d)
}

proof fn lemma_range_ones(f: spec_fn(int) -> nat, n: int)
    requires
        forall|v: int| #[trigger] f(v) <= 1,
    ensures
        range_sum(f, n) <= if n < 0 {
            0
        } else {
            n
        },
    decreases n,
{
    if n > 0 {
        lemma_range_ones(f, n - 1);
        assert(f(n - 1) <= 1);
    }
}

proof fn lemma_stmt_decomposition_counts(after: HirStmt, before: HirStmt, excluded: Seq<String>, c: int)
    requires
        stmt_decomposed(after, before, excluded, c),
        region_holds_for(before, |d: CircuitDAG| region_fits(d)),
    ensures
        crate::hir::stmt_gates(after) == crate::hir::stmt_gates(before) + region_sum_of(
            before,
            |d: CircuitDAG| region_extra(d, excluded),
        ),
        c == crate::hir::sat(region_sum_of(before, |d: CircuitDAG| region_rewrites(d, excluded)) as int),
    decreases before, 1nat,
{
    match before {
        HirStmt::Circuit(d) => {
            let d2 = after->Circuit_0;
            assert(region_fits(d));
            assert(crate::ir::emission_order(&d, crate::ir::emitted_order(&d)));
            lemma_region_decomposed_counts(d, excluded);
            lemma_range_ones(rewrite_at(d, excluded), d.len() as int);
        },
        HirStmt::If { then_body, else_body, .. } => {
            assert(decreases_to!(before => then_body));
            assert(decreases_to!(then_body => then_body@));
            let t2 = after->then_body;
            let e2 = after->else_body;
            match (else_body, e2) {
                (Some(e), Some(f)) => {
                    assert(decreases_to!(before => else_body));
                    assert(decreases_to!(else_body => e));
                    assert(decreases_to!(e => e@));
                    let (a, b) = choose|a: int, b: int|
                        stmts_decomposed(t2@, then_body@, excluded, a) && stmts_decomposed(f@, e@, excluded, b) && c
                            == #[trigger] crate::hir::sat_add(a, b);
                    lemma_decomposition_counts(t2@, then_body@, excluded, a);
                    lemma_decomposition_counts(f@, e@, excluded, b);
                },
                _ => {
                    lemma_decomposition_counts(t2@, then_body@, excluded, c);
                },
            }
        },
        HirStmt::For { body, .. } => {
            assert(decreases_to!(before => body));
            assert(decreases_to!(body => body@));
            lemma_decomposition_counts(after->For_body@, body@, excluded, c);
        },
        HirStmt::While { body, .. } => {
            assert(decreases_to!(before => body));
            assert(decreases_to!(body => body@));
            lemma_decomposition_counts(after->While_body@, body@, excluded, c);
        },
        HirStmt::Ast(_) => {},
    }
}

/// Decomposing a program adds to its gates exactly those the rewritten
/// gates become (two more for each plain `h`, one more for each plain `x`,
/// each not defined by the program), and reports how many gates it
/// rewrote (saturating at the largest `usize`), when every region fits its
/// counters and has every in-degree below the largest `usize`.
proof fn lemma_decomposition_counts(after: Seq<HirStmt>, before: Seq<HirStmt>, excluded: Seq<String>, c: int)
    requires
        stmts_decomposed(after, before, excluded, c),
        all_regions(before, |d: CircuitDAG| region_fits(d)),
    ensures
        crate::hir::stmts_gates(after) == crate::hir::stmts_gates(before) + regions_sum(
            before,
            |d: CircuitDAG| region_extra(d, excluded),
        ),
        c == crate::hir::sat(regions_sum(before, |d: CircuitDAG| region_rewrites(d, excluded)) as int),
    decreases before, 0nat,
{
    if before.len() > 0 {
        assert(decreases_to!(before => before.drop_last()));
        assert(decreases_to!(before => before[before.len() - 1]));
        let (c1, c2) = choose|c1: int, c2: int|
            stmts_decomposed(after.drop_last(), before.drop_last(), excluded, c1) && stmt_decomposed(
                after.last(),
                before.last(),
                excluded,
                c2,
            ) && c == #[trigger] crate::hir::sat_add(c1, c2);
        lemma_decomposition_counts(after.drop_last(), before.drop_last(), excluded, c1);
        lemma_stmt_decomposition_counts(after.last(), before.last(), excluded, c2);
    }
}

} // verus!





