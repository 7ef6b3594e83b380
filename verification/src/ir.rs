//! Circuit intermediate representation — a directed acyclic graph (DAG).
//!
//! Each node is a quantum operation; edges are qubit-wire dependencies. Each
//! qubit wire is anchored by an `In` boundary node at the start and an `Out`
//! boundary node at the end and threads through gate nodes in program
//! order. Removed nodes keep their slot (a tombstone), so node ids stay valid
//! while passes rewrite the graph.

use vstd::prelude::*;

use crate::codegen::{indent, indent_text};
use crate::text::{decimal_text, push_u64, push_usize, str_eq};

verus! {

broadcast use vstd::seq::group_seq_axioms;

// ── Parameters ──────────────────────────────────────────────

pub type NodeId = usize;

#[derive(Debug, Clone, Copy, PartialEq, Eq, Structural)]
pub enum ParamOp {
    Add,
    Sub,
    Mul,
    Div,
    Pow,
}

/// A gate parameter, simplified from the expression tree. A floating value
/// is kept as its canonical decimal text.
#[derive(Debug)]
pub enum Param {
    Float(String),
    Int(u64),
    Pi,
    Tau,
    Euler,
    Ident(String),
    Neg(Box<Param>),
    BinOp { op: ParamOp, lhs: Box<Param>, rhs: Box<Param> },
}

pub open spec fn param_op_text(op: ParamOp) -> Seq<char> {
    match op {
        ParamOp::Add => "+"@,
        ParamOp::Sub => "-"@,
        ParamOp::Mul => "*"@,
        ParamOp::Div => "/"@,
        ParamOp::Pow => "**"@,
    }
}

/// Text of a parameter; arithmetic is fully parenthesized.
pub open spec fn param_text(p: Param) -> Seq<char>
    decreases p,
{
    match p {
        Param::Float(t) => t@,
        Param::Int(v) => decimal_text(v as nat),
        Param::Pi => "pi"@,
        Param::Tau => "tau"@,
        Param::Euler => "euler"@,
        Param::Ident(s) => s@,
        Param::Neg(inner) => "-"@ + param_text(*inner),
        Param::BinOp { op, lhs, rhs } => "("@ + param_text(*lhs) + " "@ + param_op_text(op) + " "@
            + param_text(*rhs) + ")"@,
    }
}

/// Two parameters are the same expression (texts of names and floats compared).
pub open spec fn param_same(a: Param, b: Param) -> bool
    decreases a,
{
    match (a, b) {
        (Param::Float(x), Param::Float(y)) => x@ == y@,
        (Param::Int(x), Param::Int(y)) => x == y,
        (Param::Pi, Param::Pi) => true,
        (Param::Tau, Param::Tau) => true,
        (Param::Euler, Param::Euler) => true,
        (Param::Ident(x), Param::Ident(y)) => x@ == y@,
        (Param::Neg(x), Param::Neg(y)) => param_same(*x, *y),
        (
            Param::BinOp { op: o1, lhs: l1, rhs: r1 },
            Param::BinOp { op: o2, lhs: l2, rhs: r2 },
        ) => o1 == o2 && param_same(*l1, *l2) && param_same(*r1, *r2),
        _ => false,
    }
}

impl ParamOp {
    pub fn text(&self) -> (r: &'static str)
        ensures
            r@ == param_op_text(*self),
    {
        match self {
            ParamOp::Add => "+",
            ParamOp::Sub => "-",
            ParamOp::Mul => "*",
            ParamOp::Div => "/",
            ParamOp::Pow => "**",
        }
    }
}

impl Param {
    /// Append the text of this parameter.
    pub fn push_text(&self, out: &mut String)
        ensures
            final(out)@ == old(out)@ + param_text(*self),
        decreases self,
    {
        match self {
            Param::Float(t) => out.append(t.as_str()),
            Param::Int(v) => push_u64(out, *v),
            Param::Pi => out.append("pi"),
            Param::Tau => out.append("tau"),
            Param::Euler => out.append("euler"),
            Param::Ident(s) => out.append(s.as_str()),
            Param::Neg(inner) => {
                out.append("-");
                inner.push_text(out);
            },
            Param::BinOp { op, lhs, rhs } => {
                out.append("(");
                lhs.push_text(out);
                out.append(" ");
                out.append(op.text());
                out.append(" ");
                rhs.push_text(out);
                out.append(")");
            },
        }
        proof {
            assert(final(out)@ =~= old(out)@ + param_text(*self));
        }
    }

    /// The text of this parameter.
    pub fn to_text(&self) -> (r: String)
        ensures
            r@ == param_text(*self),
    {
        let mut s = String::new();
        self.push_text(&mut s);
        assert(s@ =~= param_text(*self));
        s
    }

    /// Structural comparison (see [`param_same`]).
    pub fn same(&self, other: &Param) -> (r: bool)
        ensures
            r == param_same(*self, *other),
        decreases self,
    {
        match (self, other) {
            (Param::Float(x), Param::Float(y)) => str_eq(x.as_str(), y.as_str()),
            (Param::Int(x), Param::Int(y)) => *x == *y,
            (Param::Pi, Param::Pi) => true,
            (Param::Tau, Param::Tau) => true,
            (Param::Euler, Param::Euler) => true,
            (Param::Ident(x), Param::Ident(y)) => str_eq(x.as_str(), y.as_str()),
            (Param::Neg(x), Param::Neg(y)) => x.same(y),
            (
                Param::BinOp { op: o1, lhs: l1, rhs: r1 },
                Param::BinOp { op: o2, lhs: l2, rhs: r2 },
            ) => *o1 == *o2 && l1.same(l2) && r1.same(r2),
            _ => false,
        }
    }
}

impl Clone for Param {
    fn clone(&self) -> (r: Self)
        ensures
            r == *self,
        decreases self,
    {
        match self {
            Param::Float(t) => Param::Float(t.clone()),
            Param::Int(v) => Param::Int(*v),
            Param::Pi => Param::Pi,
            Param::Tau => Param::Tau,
            Param::Euler => Param::Euler,
            Param::Ident(s) => Param::Ident(s.clone()),
            Param::Neg(inner) => Param::Neg(Box::new((**inner).clone())),
            Param::BinOp { op, lhs, rhs } => Param::BinOp {
                op: *op,
                lhs: Box::new((**lhs).clone()),
                rhs: Box::new((**rhs).clone()),
            },
        }
    }
}

/// Gate modifier carried through to the IR.
#[derive(Debug)]
pub enum Modifier {
    Ctrl(Option<u64>),
    NegCtrl(Option<u64>),
    Inv,
    Pow(Param),
}

impl Clone for Modifier {
    fn clone(&self) -> (r: Self)
        ensures
            r == *self,
    {
        match self {
            Modifier::Ctrl(n) => Modifier::Ctrl(*n),
            Modifier::NegCtrl(n) => Modifier::NegCtrl(*n),
            Modifier::Inv => Modifier::Inv,
            Modifier::Pow(p) => Modifier::Pow(p.clone()),
        }
    }
}

pub open spec fn count_text(arg: Option<u64>) -> Seq<char> {
    match arg {
        Some(n) => "("@ + decimal_text(n as nat) + ")"@,
        None => seq![],
    }
}

/// Text of a modifier, with its trailing ` @ `.
pub open spec fn modifier_text(m: Modifier) -> Seq<char> {
    match m {
        Modifier::Ctrl(arg) => "ctrl"@ + count_text(arg) + " @ "@,
        Modifier::NegCtrl(arg) => "negctrl"@ + count_text(arg) + " @ "@,
        Modifier::Inv => "inv @ "@,
        Modifier::Pow(p) => "pow("@ + param_text(p) + ") @ "@,
    }
}

impl Modifier {
    pub fn push_text(&self, out: &mut String)
        ensures
            final(out)@ == old(out)@ + modifier_text(*self),
    {
        match self {
            Modifier::Ctrl(arg) | Modifier::NegCtrl(arg) => {
                match self {
                    Modifier::Ctrl(_) => out.append("ctrl"),
                    _ => out.append("negctrl"),
                }
                if let Some(n) = arg {
                    out.append("(");
                    push_u64(out, *n);
                    out.append(")");
                }
                out.append(" @ ");
            },
            Modifier::Inv => out.append("inv @ "),
            Modifier::Pow(p) => {
                out.append("pow(");
                p.push_text(out);
                out.append(") @ ");
            },
        }
        proof {
            assert(final(out)@ =~= old(out)@ + modifier_text(*self));
        }
    }
}

// ── Operations ──────────────────────────────────────────────

/// A quantum operation — the payload of a DAG node.
#[derive(Debug)]
pub enum Op {
    /// Input boundary for qubit wire `wire`. Every wire has exactly one.
    In { wire: usize },
    /// Output boundary for qubit wire `wire`. Every wire has exactly one.
    Out { wire: usize },
    /// A gate application on one or more qubit wires.
    Gate { name: String, modifiers: Vec<Modifier>, params: Vec<Param>, qubits: Vec<usize> },
    /// Measurement: collapse qubit wire to classical bit.
    Measure { qubit: usize, bit: Option<usize> },
    /// Reset qubit to |0⟩, restoring it as a usable resource.
    Reset { qubit: usize },
    /// Barrier: scheduling fence across specified wires.
    Barrier { qubits: Vec<usize> },
    /// Idle the given wires for a duration.
    Delay { duration: Param, qubits: Vec<usize> },
}

/// The qubit wires an operation touches.
pub open spec fn op_qubits(op: Op) -> Seq<usize> {
    match op {
        Op::In { wire } => seq![wire],
        Op::Out { wire } => seq![wire],
        Op::Gate { qubits, .. } => qubits@,
        Op::Measure { qubit, .. } => seq![qubit],
        Op::Reset { qubit } => seq![qubit],
        Op::Barrier { qubits } => qubits@,
        Op::Delay { qubits, .. } => qubits@,
    }
}

fn copy_wires(v: &Vec<usize>) -> (r: Vec<usize>)
    ensures
        r@ == v@,
{
    let mut out: Vec<usize> = Vec::new();
    let mut i: usize = 0;
    while i < v.len()
        invariant
            i <= v@.len(),
            out@ =~= v@.take(i as int),
        decreases v@.len() - i,
    {
        out.push(v[i]);
        i += 1;
    }
    assert(v@.take(v@.len() as int) =~= v@);
    out
}

impl Op {
    /// The qubit wires this operation touches.
    pub fn qubits(&self) -> (r: Vec<usize>)
        ensures
            r@ == op_qubits(*self),
    {
        match self {
            Op::In { wire } | Op::Out { wire } => vec![*wire],
            Op::Gate { qubits, .. } | Op::Barrier { qubits } | Op::Delay { qubits, .. } => copy_wires(
                qubits,
            ),
            Op::Measure { qubit, .. } | Op::Reset { qubit } => vec![*qubit],
        }
    }

    /// True if this is a gate operation (not boundary/measure/reset/barrier/delay).
    pub fn is_gate(&self) -> (r: bool)
        ensures
            r == (*self is Gate),
    {
        match self {
            Op::Gate { .. } => true,
            _ => false,
        }
    }

    /// True for the `In` and `Out` boundary nodes.
    pub fn is_boundary(&self) -> (r: bool)
        ensures
            r == (*self is In || *self is Out),
    {
        match self {
            Op::In { .. } | Op::Out { .. } => true,
            _ => false,
        }
    }
}

// ── DAG node ────────────────────────────────────────────────

/// A node in the circuit DAG. Nodes are arena-allocated by index.
#[derive(Debug)]
pub struct DAGNode {
    pub id: NodeId,
    pub op: Op,
    /// Tombstone flag — removed nodes are skipped during iteration.
    pub removed: bool,
}

/// A live gate node.
pub open spec fn is_live_gate(n: DAGNode) -> bool {
    !n.removed && n.op is Gate
}

/// A live operation node (anything but a boundary).
pub open spec fn is_live_op(n: DAGNode) -> bool {
    !n.removed && !(n.op is In) && !(n.op is Out)
}

pub open spec fn count_gates(nodes: Seq<DAGNode>) -> nat
    decreases nodes.len(),
{
    if nodes.len() == 0 {
        0
    } else {
        count_gates(nodes.drop_last()) + if is_live_gate(nodes.last()) {
            1nat
        } else {
            0nat
        }
    }
}

pub open spec fn count_ops(nodes: Seq<DAGNode>) -> nat
    decreases nodes.len(),
{
    if nodes.len() == 0 {
        0
    } else {
        count_ops(nodes.drop_last()) + if is_live_op(nodes.last()) {
            1nat
        } else {
            0nat
        }
    }
}

/// The target of the first edge on `wire` in an edge list.
pub open spec fn first_on_wire(edges: Seq<(usize, usize)>, wire: usize) -> Option<usize>
    decreases edges.len(),
{
    if edges.len() == 0 {
        None
    } else if edges[0].1 == wire {
        Some(edges[0].0)
    } else {
        first_on_wire(edges.drop_first(), wire)
    }
}

pub open spec fn node_is_out(nodes: Seq<DAGNode>, i: int) -> bool {
    nodes[i].op is Out
}

/// Every wire an operation names is a wire of the circuit.
pub open spec fn ops_ok(nodes: Seq<DAGNode>, nq: nat) -> bool {
    forall|i: int, k: int|
        0 <= i < nodes.len() && 0 <= k < op_qubits(nodes[i].op).len() ==> #[trigger] op_qubits(nodes[i].op)[k] < nq
}

pub open spec fn ids_ok(nodes: Seq<DAGNode>) -> bool {
    forall|i: int| 0 <= i < nodes.len() ==> (#[trigger] nodes[i]).id == i
}

/// Per-wire node ids: in range; heads are not `Out` nodes, outputs are.
pub open spec fn wires_ok(
    nodes: Seq<DAGNode>,
    inputs: Seq<usize>,
    outputs: Seq<usize>,
    heads: Seq<usize>,
    nq: nat,
) -> bool {
    &&& inputs.len() == nq
    &&& outputs.len() == nq
    &&& heads.len() == nq
    &&& forall|w: int|
        0 <= w < nq ==> (#[trigger] inputs[w]) < nodes.len() && outputs[w] < nodes.len() && heads[w]
            < nodes.len() && !node_is_out(nodes, heads[w] as int) && node_is_out(nodes, outputs[w] as int)
}

/// Edge lists of `nodes`: in range, forward in id order or into an `Out`
/// node, and never out of an `Out` node.
pub open spec fn edges_ok(
    nodes: Seq<DAGNode>,
    succ: Seq<Seq<(usize, usize)>>,
    pred: Seq<Seq<(usize, usize)>>,
) -> bool {
    let n = nodes.len();
    &&& succ.len() == n
    &&& pred.len() == n
    &&& forall|i: int, k: int|
        0 <= i < n && 0 <= k < succ[i].len() ==> {
            let t = (#[trigger] succ[i][k]).0 as int;
            &&& t < n
            &&& !node_is_out(nodes, i)
            &&& (i < t || node_is_out(nodes, t))
        }
    &&& forall|i: int, k: int|
        0 <= i < n && 0 <= k < pred[i].len() ==> {
            let f = (#[trigger] pred[i][k]).0 as int;
            &&& f < n
            &&& !node_is_out(nodes, f)
            &&& (f < i || node_is_out(nodes, i))
        }
}

// ── Circuit DAG ─────────────────────────────────────────────

/// Adjacency of a DAG: successor lists, predecessor lists and wire heads.
pub type Edges = (Seq<Seq<(usize, usize)>>, Seq<Seq<(usize, usize)>>, Seq<usize>);

/// The circuit DAG — the central data structure of the compiler's
/// middle-end. All optimization passes read and rewrite this.
#[derive(Debug)]
pub struct CircuitDAG {
    nodes: Vec<DAGNode>,
    /// `succ[node_id]` = vec of `(successor_node_id, wire_index)`
    succ: Vec<Vec<(NodeId, usize)>>,
    /// `pred[node_id]` = vec of `(predecessor_node_id, wire_index)`
    pred: Vec<Vec<(NodeId, usize)>>,
    pub num_qubits: usize,
    pub num_bits: usize,
    /// Boundary node IDs: one In per qubit wire.
    pub input_nodes: Vec<NodeId>,
    /// Boundary node IDs: one Out per qubit wire.
    pub output_nodes: Vec<NodeId>,
    /// Original qubit register names for re-emission.
    pub qubit_names: Vec<(String, Option<u64>)>,
    /// Original bit register names for re-emission.
    pub bit_names: Vec<(String, Option<u64>)>,
    /// Per-wire head: the last node appended on each wire.
    wire_heads: Vec<NodeId>,
}

impl CircuitDAG {
    /// The nodes, removed ones included.
    pub closed spec fn nodes_view(&self) -> Seq<DAGNode> {
        self.nodes@
    }

    /// Successor lists, predecessor lists and wire heads.
    pub closed spec fn edges(&self) -> Edges {
        (
            self.succ@.map_values(|v: Vec<(NodeId, usize)>| v@),
            self.pred@.map_values(|v: Vec<(NodeId, usize)>| v@),
            self.wire_heads@,
        )
    }

    /// Number of qubit wires.
    pub closed spec fn nq(&self) -> nat {
        self.num_qubits as nat
    }

    pub closed spec fn inputs(&self) -> Seq<usize> {
        self.input_nodes@
    }

    pub closed spec fn outputs(&self) -> Seq<usize> {
        self.output_nodes@
    }

    pub open spec fn len(&self) -> nat {
        self.nodes_view().len()
    }

    pub open spec fn is_out(&self, i: int) -> bool {
        node_is_out(self.nodes_view(), i)
    }

    pub open spec fn live(&self, i: int) -> bool {
        0 <= i < self.len() && !self.nodes_view()[i].removed
    }

    pub open spec fn succs(&self, i: int) -> Seq<(usize, usize)> {
        self.edges().0[i]
    }

    pub open spec fn preds(&self, i: int) -> Seq<(usize, usize)> {
        self.edges().1[i]
    }

    pub open spec fn heads(&self) -> Seq<usize> {
        self.edges().2
    }

    /// Number of live gates.
    pub open spec fn live_gates(&self) -> nat {
        count_gates(self.nodes_view())
    }

    /// Number of live operations (gates, measurements, resets, barriers, delays).
    pub open spec fn live_ops(&self) -> nat {
        count_ops(self.nodes_view())
    }

    /// Well-formedness: ids are positions, edges stay inside the graph and
    /// run forward in id order except into `Out` nodes, which have no
    /// successors; wire heads are not `Out` nodes; output nodes are.
    pub closed spec fn wf(&self) -> bool {
        &&& ops_ok(self.nodes_view(), self.num_qubits as nat)
        &&& ids_ok(self.nodes_view())
        &&& edges_ok(self.nodes_view(), self.edges().0, self.edges().1)
        &&& wires_ok(self.nodes_view(), self.input_nodes@, self.output_nodes@, self.heads(), self.num_qubits as nat)
    }

    /// A well-formed circuit has successor and predecessor lists for each
    /// node and a head for each wire.
    pub proof fn lemma_wf_shape(&self)
        requires
            self.wf(),
        ensures
            self.edges().0.len() == self.len(),
            self.edges().1.len() == self.len(),
            self.heads().len() == self.nq(),
            self.outputs().len() == self.nq(),
            self.nq() <= usize::MAX,
    {
    }

    /// A frame-preserving change keeps the output nodes.
    pub proof fn lemma_same_frame_outputs(&self, other: &CircuitDAG)
        requires
            self.same_frame(other),
        ensures
            self.outputs() == other.outputs(),
            self.inputs() == other.inputs(),
    {
    }

    /// A frame-preserving change keeps the number of wires.
    pub proof fn lemma_same_frame_nq(&self, other: &CircuitDAG)
        requires
            self.same_frame(other),
        ensures
            self.nq() == other.nq(),
            self.qubit_names_view() == other.qubit_names_view(),
            self.bit_names_view() == other.bit_names_view(),
    {
    }

    /// The wires an operation names are wires of the circuit.
    pub proof fn lemma_op_wires(&self, i: int)
        requires
            self.wf(),
            0 <= i < self.len(),
        ensures
            forall|k: int| 0 <= k < op_qubits(self.nodes_view()[i].op).len() ==> #[trigger] op_qubits(
                self.nodes_view()[i].op,
            )[k] < self.nq(),
    {
        assert forall|k: int| 0 <= k < op_qubits(self.nodes_view()[i].op).len() implies #[trigger] op_qubits(
            self.nodes_view()[i].op,
        )[k] < self.nq() by {
            assert(op_qubits(self.nodes_view()[i].op)[k] < self.num_qubits);
        }
    }

    pub proof fn lemma_same_frame_refl(&self)
        ensures
            self.same_frame(self),
            self.len() <= usize::MAX,
    {
        assert(self.nodes@.len() == self.nodes.len());
    }

    pub proof fn lemma_same_frame_trans(&self, mid: &CircuitDAG, first: &CircuitDAG)
        requires
            self.same_frame(mid),
            mid.same_frame(first),
        ensures
            self.same_frame(first),
    {
    }

    /// Everything but the nodes and edges is unchanged from `other`.
    pub closed spec fn same_frame(&self, other: &CircuitDAG) -> bool {
        &&& self.num_qubits == other.num_qubits
        &&& self.num_bits == other.num_bits
        &&& self.input_nodes@ == other.input_nodes@
        &&& self.output_nodes@ == other.output_nodes@
        &&& self.qubit_names@ == other.qubit_names@
        &&& self.bit_names@ == other.bit_names@
    }
}

/// `v` without the edges to (or from) `node` on `wire`.
pub open spec fn without_edge(v: Seq<(usize, usize)>, node: usize, wire: usize) -> Seq<(usize, usize)>
    decreases v.len(),
{
    if v.len() == 0 {
        v
    } else {
        let rest = without_edge(v.drop_last(), node, wire);
        if v.last().0 == node && v.last().1 == wire {
            rest
        } else {
            rest.push(v.last())
        }
    }
}

/// Edges after threading node `id` onto the end of each wire in `wires`.
pub open spec fn thread_spec(e: Edges, id: usize, wires: Seq<usize>) -> Edges
    decreases wires.len(),
{
    if wires.len() == 0 {
        e
    } else {
        let e1 = thread_spec(e, id, wires.drop_last());
        let w = wires.last();
        let h = e1.2[w as int];
        if h == id {
            e1
        } else {
            (
                e1.0.update(h as int, e1.0[h as int].push((id, w))),
                e1.1.update(id as int, e1.1[id as int].push((h, w))),
                e1.2.update(w as int, id),
            )
        }
    }
}

/// Edges after allocating a node with no edges.
pub open spec fn alloc_spec(e: Edges) -> Edges {
    (e.0.push(seq![]), e.1.push(seq![]), e.2)
}

/// Edges after connecting each wire head `w < k` to its `Out` node.
pub open spec fn finalize_spec(e: Edges, outs: Seq<usize>, k: nat) -> Edges
    decreases k,
{
    if k == 0 {
        e
    } else {
        let e1 = finalize_spec(e, outs, (k - 1) as nat);
        let w = (k - 1) as usize;
        let h = e1.2[w as int];
        let o = outs[w as int];
        (
            e1.0.update(h as int, e1.0[h as int].push((o, w))),
            e1.1.update(o as int, e1.1[o as int].push((h, w))),
            e1.2,
        )
    }
}

/// One splice step of removing `id`: predecessor edge `(p, w)` is replaced
/// by an edge from `p` to the successor of `id` on `w`, if there is one.
pub open spec fn splice_step(
    e: (Seq<Seq<(usize, usize)>>, Seq<Seq<(usize, usize)>>),
    id: usize,
    succ_edges: Seq<(usize, usize)>,
    pe: (usize, usize),
) -> (Seq<Seq<(usize, usize)>>, Seq<Seq<(usize, usize)>>) {
    let (p, w) = pe;
    let s0 = e.0.update(p as int, without_edge(e.0[p as int], id, w));
    match first_on_wire(succ_edges, w) {
        Some(t) => {
            let p0 = e.1.update(t as int, without_edge(e.1[t as int], id, w));
            (s0.update(p as int, s0[p as int].push((t, w))), p0.update(t as int, p0[t as int].push((p, w))))
        },
        None => (s0, e.1),
    }
}

pub open spec fn splice_all(
    e: (Seq<Seq<(usize, usize)>>, Seq<Seq<(usize, usize)>>),
    id: usize,
    succ_edges: Seq<(usize, usize)>,
    pred_edges: Seq<(usize, usize)>,
) -> (Seq<Seq<(usize, usize)>>, Seq<Seq<(usize, usize)>>)
    decreases pred_edges.len(),
{
    if pred_edges.len() == 0 {
        e
    } else {
        splice_step(splice_all(e, id, succ_edges, pred_edges.drop_last()), id, succ_edges, pred_edges.last())
    }
}

/// Edges after removing node `id` and reconnecting each of its predecessors
/// to its successor on the same wire.
pub open spec fn remove_spec(e: Edges, id: usize) -> Edges {
    let r = splice_all((e.0, e.1), id, e.0[id as int], e.1[id as int]);
    (r.0.update(id as int, seq![]), r.1.update(id as int, seq![]), e.2)
}

fn copy_edges(v: &Vec<(NodeId, usize)>) -> (r: Vec<(NodeId, usize)>)
    ensures
        r@ == v@,
{
    let mut out: Vec<(NodeId, usize)> = Vec::new();
    let mut i: usize = 0;
    while i < v.len()
        invariant
            i <= v@.len(),
            out@ =~= v@.take(i as int),
        decreases v@.len() - i,
    {
        out.push(v[i]);
        i += 1;
    }
    assert(v@.take(v@.len() as int) =~= v@);
    out
}

fn filter_edges(v: &Vec<(NodeId, usize)>, node: NodeId, wire: usize) -> (r: Vec<(NodeId, usize)>)
    ensures
        r@ == without_edge(v@, node, wire),
        forall|k: int| 0 <= k < r@.len() ==> v@.contains(#[trigger] r@[k]),
{
    let mut out: Vec<(NodeId, usize)> = Vec::new();
    let mut i: usize = 0;
    while i < v.len()
        invariant
            i <= v@.len(),
            out@ == without_edge(v@.take(i as int), node, wire),
            forall|k: int| 0 <= k < out@.len() ==> v@.contains(#[trigger] out@[k]),
        decreases v@.len() - i,
    {
        assert(v@.take(i + 1).drop_last() =~= v@.take(i as int));
        let e = v[i];
        if !(e.0 == node && e.1 == wire) {
            out.push(e);
            assert(v@.contains(v@[i as int]));
        }
        i += 1;
    }
    assert(v@.take(v@.len() as int) =~= v@);
    out
}

fn find_on_wire(edges: &Vec<(NodeId, usize)>, wire: usize) -> (r: Option<NodeId>)
    ensures
        r == first_on_wire(edges@, wire),
        r matches Some(t) ==> exists|k: int| 0 <= k < edges@.len() && edges@[k].0 == t,
{
    let mut i: usize = 0;
    assert(edges@.subrange(0, edges@.len() as int) =~= edges@);
    while i < edges.len()
        invariant
            i <= edges@.len(),
            first_on_wire(edges@, wire) == first_on_wire(edges@.subrange(i as int, edges@.len() as int), wire),
        decreases edges@.len() - i,
    {
        let ghost rest = edges@.subrange(i as int, edges@.len() as int);
        assert(rest.drop_first() =~= edges@.subrange(i + 1, edges@.len() as int));
        if edges[i].1 == wire {
            assert(rest[0] == edges@[i as int]);
            return Some(edges[i].0);
        }
        i += 1;
    }
    None
}

impl CircuitDAG {
    /// Create a DAG with `nq` qubit wires and `nb` classical bit wires, with
    /// an `In` node (id `2w`) and an `Out` node (id `2w + 1`) per wire `w`.
    #[verifier::spinoff_prover]
    pub fn new(nq: usize, nb: usize) -> (r: Self)
        requires
            nq < usize::MAX / 2,
        ensures
            r.wf(),
            r.nq() == nq,
            r.num_bits_spec() == nb,
            r.len() == 2 * nq,
            forall|w: int|
                0 <= w < nq ==> (#[trigger] r.nodes_view()[2 * w]).op == (Op::In { wire: w as usize })
                    && r.nodes_view()[2 * w + 1].op == (Op::Out { wire: w as usize })
                    && !r.nodes_view()[2 * w].removed && !r.nodes_view()[2 * w + 1].removed,
            forall|w: int|
                0 <= w < nq ==> #[trigger] r.inputs()[w] == 2 * w && r.outputs()[w] == 2 * w + 1
                    && r.heads()[w] == 2 * w,
            forall|i: int| 0 <= i < r.len() ==> (#[trigger] r.succs(i)).len() == 0 && r.preds(i).len() == 0,
            r.live_gates() == 0,
            r.live_ops() == 0,
            r.qubit_names_view().len() == 0,
            r.bit_names_view().len() == 0,
    {
        let mut nodes: Vec<DAGNode> = Vec::new();
        let mut succ: Vec<Vec<(NodeId, usize)>> = Vec::new();
        let mut pred: Vec<Vec<(NodeId, usize)>> = Vec::new();
        let mut input_nodes: Vec<NodeId> = Vec::new();
        let mut output_nodes: Vec<NodeId> = Vec::new();
        let mut wire_heads: Vec<NodeId> = Vec::new();
        let mut w: usize = 0;
        while w < nq
            invariant
                w <= nq,
                nq < usize::MAX / 2,
                nodes@.len() == 2 * w,
                succ@.len() == 2 * w,
                pred@.len() == 2 * w,
                input_nodes@.len() == w,
                output_nodes@.len() == w,
                wire_heads@.len() == w,
                forall|i: int| 0 <= i < 2 * w ==> (#[trigger] nodes@[i]).id == i && !nodes@[i].removed,
                forall|i: int| 0 <= i < 2 * w ==> (#[trigger] succ@[i])@.len() == 0 && pred@[i]@.len() == 0,
                forall|v: int|
                    0 <= v < w ==> (#[trigger] nodes@[2 * v]).op == (Op::In { wire: v as usize })
                        && nodes@[2 * v + 1].op == (Op::Out { wire: v as usize }),
                forall|v: int|
                    0 <= v < w ==> #[trigger] input_nodes@[v] == 2 * v && output_nodes@[v] == 2 * v + 1
                        && wire_heads@[v] == 2 * v,
                count_gates(nodes@) == 0,
                count_ops(nodes@) == 0,
                ops_ok(nodes@, w as nat),
            decreases nq - w,
        {
            let in_id = nodes.len();
            let ghost before = nodes@;
            nodes.push(DAGNode { id: in_id, op: Op::In { wire: w }, removed: false });
            assert(nodes@.drop_last() =~= before);
            succ.push(Vec::new());
            pred.push(Vec::new());
            input_nodes.push(in_id);
            wire_heads.push(in_id);
            let out_id = nodes.len();
            let ghost before2 = nodes@;
            nodes.push(DAGNode { id: out_id, op: Op::Out { wire: w }, removed: false });
            assert(nodes@.drop_last() =~= before2);
            succ.push(Vec::new());
            pred.push(Vec::new());
            output_nodes.push(out_id);
            proof {
                assert forall|i: int, k: int| 0 <= i < nodes@.len() && 0 <= k < op_qubits(nodes@[i].op).len() implies
                    #[trigger] op_qubits(nodes@[i].op)[k] < w + 1 by {
                    if i < before.len() {
                        assert(nodes@[i] == before[i]);
                    }
                }
                assert(count_gates(nodes@) == count_gates(before2));
                assert(count_gates(before2) == count_gates(before));
                assert(count_ops(nodes@) == count_ops(before2));
                assert(count_ops(before2) == count_ops(before));
                assert forall|i: int| 0 <= i < 2 * (w + 1) implies (#[trigger] succ@[i])@.len() == 0
                    && pred@[i]@.len() == 0 by {}
                assert forall|v: int| 0 <= v < w + 1 implies (#[trigger] nodes@[2 * v]).op == (Op::In {
                    wire: v as usize,
                }) && nodes@[2 * v + 1].op == (Op::Out { wire: v as usize }) by {
                    if v < w {
                        assert(nodes@[2 * v] == before[2 * v]);
                        assert(nodes@[2 * v + 1] == before[2 * v + 1]);
                    }
                }
            }
            w += 1;
        }
        let r = CircuitDAG {
            nodes,
            succ,
            pred,
            num_qubits: nq,
            num_bits: nb,
            input_nodes,
            output_nodes,
            qubit_names: Vec::new(),
            bit_names: Vec::new(),
            wire_heads,
        };
        proof {
            assert forall|i: int| 0 <= i < r.len() implies #[trigger] r.succs(i).len() == 0 && r.preds(i).len() == 0 by {
                assert(r.succ@[i]@.len() == 0);
                assert(r.pred@[i]@.len() == 0);
            }
            let es = r.edges().0;
            let ep = r.edges().1;
            assert(es.len() == r.len());
            assert(ep.len() == r.len());
            assert forall|i: int, k: int| 0 <= i < r.len() && 0 <= k < es[i].len() implies #[trigger] es[i][k].0 < 0 by {
                assert(r.succ@[i]@.len() == 0);
            }
            assert forall|i: int, k: int| 0 <= i < r.len() && 0 <= k < ep[i].len() implies #[trigger] ep[i][k].0 < 0 by {
                assert(r.succ@[i]@.len() == 0);
                assert(r.pred@[i]@.len() == 0);
            }
            assert(edges_ok(r.nodes_view(), es, ep));
            assert forall|i: int| 0 <= i < r.len() implies (#[trigger] r.nodes_view()[i]).id == i by {}
            assert forall|w: int| 0 <= w < nq implies (#[trigger] r.input_nodes@[w]) < r.len()
                && r.output_nodes@[w] < r.len() && r.heads()[w] < r.len() && !node_is_out(r.nodes_view(), r.heads()[w] as int)
                && node_is_out(r.nodes_view(), r.output_nodes@[w] as int) by {
                assert(r.nodes@[2 * w].op == (Op::In { wire: w as usize }));
            }
        }
        r
    }

    pub closed spec fn num_bits_spec(&self) -> usize {
        self.num_bits
    }

    pub closed spec fn qubit_names_view(&self) -> Seq<(String, Option<u64>)> {
        self.qubit_names@
    }

    pub closed spec fn bit_names_view(&self) -> Seq<(String, Option<u64>)> {
        self.bit_names@
    }

    /// Number of qubit wires.
    pub fn qubit_count(&self) -> (r: usize)
        ensures
            r == self.nq(),
    {
        self.num_qubits
    }

    /// Number of classical bits.
    pub fn bit_count(&self) -> (r: usize)
        ensures
            r == self.num_bits_spec(),
    {
        self.num_bits
    }

    /// Register entries that name the qubit wires.
    pub fn qubit_names(&self) -> (r: &Vec<(String, Option<u64>)>)
        ensures
            r@ == self.qubit_names_view(),
    {
        &self.qubit_names
    }

    /// Register entries that name the classical bits.
    pub fn bit_names(&self) -> (r: &Vec<(String, Option<u64>)>)
        ensures
            r@ == self.bit_names_view(),
    {
        &self.bit_names
    }

    /// The `In` node of each wire.
    pub fn input_node(&self, wire: usize) -> (r: NodeId)
        requires
            self.wf(),
            wire < self.nq(),
        ensures
            r == self.inputs()[wire as int],
            r < self.len(),
    {
        self.input_nodes[wire]
    }

    /// Total number of allocated nodes (including removed and boundary).
    pub fn node_count(&self) -> (r: usize)
        ensures
            r == self.len(),
    {
        self.nodes.len()
    }

    /// Number of live gate operations.
    pub fn gate_count(&self) -> (r: usize)
        ensures
            r == self.live_gates(),
    {
        let mut c: usize = 0;
        let mut i: usize = 0;
        while i < self.nodes.len()
            invariant
                i <= self.nodes@.len(),
                c == count_gates(self.nodes@.take(i as int)),
                c <= i,
            decreases self.nodes@.len() - i,
        {
            assert(self.nodes@.take(i + 1).drop_last() =~= self.nodes@.take(i as int));
            if !self.nodes[i].removed && self.nodes[i].op.is_gate() {
                c += 1;
            }
            i += 1;
        }
        assert(self.nodes@.take(self.nodes@.len() as int) =~= self.nodes@);
        c
    }

    /// Number of all live operation nodes (gates, measure, reset, barrier, delay).
    pub fn op_count(&self) -> (r: usize)
        ensures
            r == self.live_ops(),
    {
        let mut c: usize = 0;
        let mut i: usize = 0;
        while i < self.nodes.len()
            invariant
                i <= self.nodes@.len(),
                c == count_ops(self.nodes@.take(i as int)),
                c <= i,
            decreases self.nodes@.len() - i,
        {
            assert(self.nodes@.take(i + 1).drop_last() =~= self.nodes@.take(i as int));
            if !self.nodes[i].removed && !self.nodes[i].op.is_boundary() {
                c += 1;
            }
            i += 1;
        }
        assert(self.nodes@.take(self.nodes@.len() as int) =~= self.nodes@);
        c
    }

    /// Get a node by ID.
    pub fn node(&self, id: NodeId) -> (r: &DAGNode)
        requires
            id < self.len(),
        ensures
            *r == self.nodes_view()[id as int],
    {
        &self.nodes[id]
    }

    /// Successors of a node: `(successor_id, wire)` pairs.
    pub fn successors(&self, id: NodeId) -> (r: &[(NodeId, usize)])
        requires
            self.wf(),
            id < self.len(),
        ensures
            r@ == self.succs(id as int),
    {
        self.succ[id].as_slice()
    }

    /// Predecessors of a node: `(predecessor_id, wire)` pairs.
    pub fn predecessors(&self, id: NodeId) -> (r: &[(NodeId, usize)])
        requires
            self.wf(),
            id < self.len(),
        ensures
            r@ == self.preds(id as int),
    {
        self.pred[id].as_slice()
    }

    /// The direct successor of `node_id` on `wire`.
    pub fn wire_successor(&self, node_id: NodeId, wire: usize) -> (r: Option<NodeId>)
        requires
            self.wf(),
            node_id < self.len(),
        ensures
            r == first_on_wire(self.succs(node_id as int), wire),
            r matches Some(t) ==> t < self.len() && !self.is_out(node_id as int) && (node_id < t
                || self.is_out(t as int)),
    {
        let r = find_on_wire(&self.succ[node_id], wire);
        proof {
            if let Some(t) = r {
                let k = choose|k: int| 0 <= k < self.succs(node_id as int).len() && self.succs(node_id as int)[k].0 == t;
                assert(self.succs(node_id as int)[k].0 == t);
            }
        }
        r
    }

    /// The direct predecessor of `node_id` on `wire`.
    pub fn wire_predecessor(&self, node_id: NodeId, wire: usize) -> (r: Option<NodeId>)
        requires
            self.wf(),
            node_id < self.len(),
        ensures
            r == first_on_wire(self.preds(node_id as int), wire),
            r matches Some(t) ==> t < self.len(),
    {
        let r = find_on_wire(&self.pred[node_id], wire);
        proof {
            if let Some(t) = r {
                let k = choose|k: int| 0 <= k < self.preds(node_id as int).len() && self.preds(node_id as int)[k].0 == t;
                assert(self.preds(node_id as int)[k].0 == t);
            }
        }
        r
    }
}

proof fn lemma_edges_ok_alloc(
    nodes: Seq<DAGNode>,
    succ: Seq<Seq<(usize, usize)>>,
    pred: Seq<Seq<(usize, usize)>>,
    node: DAGNode,
)
    requires
        edges_ok(nodes, succ, pred),
        !(node.op is Out),
    ensures
        edges_ok(nodes.push(node), succ.push(seq![]), pred.push(seq![])),
{
    let n2 = nodes.push(node);
    let s2 = succ.push(seq![]);
    let p2 = pred.push(seq![]);
    assert forall|i: int, k: int| 0 <= i < n2.len() && 0 <= k < s2[i].len() implies {
        let t = (#[trigger] s2[i][k]).0 as int;
        &&& t < n2.len()
        &&& !node_is_out(n2, i)
        &&& (i < t || node_is_out(n2, t))
    } by {
        assert(i < nodes.len());
        assert(s2[i] == succ[i]);
        let t = succ[i][k].0 as int;
        assert(n2[t] == nodes[t]);
        assert(n2[i] == nodes[i]);
    }
    assert forall|i: int, k: int| 0 <= i < n2.len() && 0 <= k < p2[i].len() implies {
        let f = (#[trigger] p2[i][k]).0 as int;
        &&& f < n2.len()
        &&& !node_is_out(n2, f)
        &&& (f < i || node_is_out(n2, i))
    } by {
        assert(i < nodes.len());
        assert(p2[i] == pred[i]);
        let f = pred[i][k].0 as int;
        assert(n2[f] == nodes[f]);
        assert(n2[i] == nodes[i]);
    }
}

proof fn lemma_edges_ok_add(
    nodes: Seq<DAGNode>,
    succ: Seq<Seq<(usize, usize)>>,
    pred: Seq<Seq<(usize, usize)>>,
    a: usize,
    b: usize,
    w: usize,
)
    requires
        edges_ok(nodes, succ, pred),
        a < nodes.len(),
        b < nodes.len(),
        !node_is_out(nodes, a as int),
        a < b || node_is_out(nodes, b as int),
    ensures
        edges_ok(
            nodes,
            succ.update(a as int, succ[a as int].push((b, w))),
            pred.update(b as int, pred[b as int].push((a, w))),
        ),
{
    let s2 = succ.update(a as int, succ[a as int].push((b, w)));
    let p2 = pred.update(b as int, pred[b as int].push((a, w)));
    assert forall|i: int, k: int| 0 <= i < nodes.len() && 0 <= k < s2[i].len() implies {
        let t = (#[trigger] s2[i][k]).0 as int;
        &&& t < nodes.len()
        &&& !node_is_out(nodes, i)
        &&& (i < t || node_is_out(nodes, t))
    } by {
        if i != a || k < succ[i].len() {
            assert(s2[i][k] == succ[i][k]);
        }
    }
    assert forall|i: int, k: int| 0 <= i < nodes.len() && 0 <= k < p2[i].len() implies {
        let f = (#[trigger] p2[i][k]).0 as int;
        &&& f < nodes.len()
        &&& !node_is_out(nodes, f)
        &&& (f < i || node_is_out(nodes, i))
    } by {
        if i != b || k < pred[i].len() {
            assert(p2[i][k] == pred[i][k]);
        }
    }
}

/// Replacing the successor list of `i` by a sub-list keeps the edges sound.
proof fn lemma_edges_ok_shrink_succ(
    nodes: Seq<DAGNode>,
    succ: Seq<Seq<(usize, usize)>>,
    pred: Seq<Seq<(usize, usize)>>,
    i0: int,
    v: Seq<(usize, usize)>,
)
    requires
        edges_ok(nodes, succ, pred),
        0 <= i0 < nodes.len(),
        forall|k: int| 0 <= k < v.len() ==> succ[i0].contains(#[trigger] v[k]),
    ensures
        edges_ok(nodes, succ.update(i0, v), pred),
{
    let s2 = succ.update(i0, v);
    assert forall|i: int, k: int| 0 <= i < nodes.len() && 0 <= k < s2[i].len() implies {
        let t = (#[trigger] s2[i][k]).0 as int;
        &&& t < nodes.len()
        &&& !node_is_out(nodes, i)
        &&& (i < t || node_is_out(nodes, t))
    } by {
        if i == i0 {
            assert(succ[i0].contains(v[k]));
            let j = choose|j: int| 0 <= j < succ[i0].len() && succ[i0][j] == v[k];
            assert(succ[i0][j] == v[k]);
        } else {
            assert(s2[i][k] == succ[i][k]);
        }
    }
}

/// Replacing the predecessor list of `i` by a sub-list keeps the edges sound.
proof fn lemma_edges_ok_shrink_pred(
    nodes: Seq<DAGNode>,
    succ: Seq<Seq<(usize, usize)>>,
    pred: Seq<Seq<(usize, usize)>>,
    i0: int,
    v: Seq<(usize, usize)>,
)
    requires
        edges_ok(nodes, succ, pred),
        0 <= i0 < nodes.len(),
        forall|k: int| 0 <= k < v.len() ==> pred[i0].contains(#[trigger] v[k]),
    ensures
        edges_ok(nodes, succ, pred.update(i0, v)),
{
    let p2 = pred.update(i0, v);
    assert forall|i: int, k: int| 0 <= i < nodes.len() && 0 <= k < p2[i].len() implies {
        let f = (#[trigger] p2[i][k]).0 as int;
        &&& f < nodes.len()
        &&& !node_is_out(nodes, f)
        &&& (f < i || node_is_out(nodes, i))
    } by {
        if i == i0 {
            assert(pred[i0].contains(v[k]));
            let j = choose|j: int| 0 <= j < pred[i0].len() && pred[i0][j] == v[k];
            assert(pred[i0][j] == v[k]);
        } else {
            assert(p2[i][k] == pred[i][k]);
        }
    }
}

proof fn lemma_counts_push(nodes: Seq<DAGNode>, n: DAGNode)
    ensures
        count_gates(nodes.push(n)) == count_gates(nodes) + if is_live_gate(n) {
            1nat
        } else {
            0nat
        },
        count_ops(nodes.push(n)) == count_ops(nodes) + if is_live_op(n) {
            1nat
        } else {
            0nat
        },
{
    assert(nodes.push(n).drop_last() =~= nodes);
}

impl CircuitDAG {
    /// Allocate a node with no edges and return its id.
    fn alloc_node(&mut self, op: Op) -> (r: NodeId)
        requires
            old(self).wf(),
            old(self).len() < usize::MAX,
            !(op is Out),
            forall|k: int| 0 <= k < op_qubits(op).len() ==> #[trigger] op_qubits(op)[k] < old(self).nq(),
        ensures
            final(self).wf(),
            r == old(self).len(),
            final(self).nodes_view() == old(self).nodes_view().push(DAGNode { id: r, op, removed: false }),
            final(self).edges() == alloc_spec(old(self).edges()),
            final(self).same_frame(&*old(self)),
    {
        let id = self.nodes.len();
        let ghost nd = DAGNode { id, op, removed: false };
        proof {
            lemma_edges_ok_alloc(old(self).nodes_view(), old(self).edges().0, old(self).edges().1, nd);
        }
        self.nodes.push(DAGNode { id, op, removed: false });
        self.succ.push(Vec::new());
        self.pred.push(Vec::new());
        proof {
            assert(self.edges().0 =~= alloc_spec(old(self).edges()).0);
            assert(self.edges().1 =~= alloc_spec(old(self).edges()).1);
            let n = self.len();
            assert forall|i: int| 0 <= i < n implies (#[trigger] self.nodes_view()[i]).id == i by {
                if i < n - 1 {
                    assert(self.nodes_view()[i] == old(self).nodes_view()[i]);
                }
            }
            assert forall|i: int, k: int| 0 <= i < n && 0 <= k < op_qubits(self.nodes_view()[i].op).len() implies
                #[trigger] op_qubits(self.nodes_view()[i].op)[k] < self.num_qubits by {
                if i < n - 1 {
                    assert(self.nodes_view()[i] == old(self).nodes_view()[i]);
                }
            }
            assert forall|w: int| 0 <= w < self.num_qubits implies (#[trigger] self.input_nodes@[w]) < n
                && self.output_nodes@[w] < n && self.heads()[w] < n && !node_is_out(self.nodes_view(), self.heads()[w] as int)
                && node_is_out(self.nodes_view(), self.output_nodes@[w] as int) by {
                assert(old(self).input_nodes@[w] < n - 1);
                assert(self.nodes_view()[self.heads()[w] as int] == old(self).nodes_view()[self.heads()[w] as int]);
                assert(self.nodes_view()[self.output_nodes@[w] as int] == old(self).nodes_view()[self.output_nodes@[w] as int]);
            }
        }
        id
    }

    /// Thread node `id` onto the end of `wire` (once per wire).
    fn append_on_wire(&mut self, id: NodeId, wire: usize)
        requires
            old(self).wf(),
            id == old(self).len() - 1,
            !old(self).is_out(id as int),
            wire < old(self).nq(),
        ensures
            final(self).wf(),
            final(self).nodes_view() == old(self).nodes_view(),
            final(self).edges() == thread_spec(old(self).edges(), id, seq![wire]),
            final(self).same_frame(&*old(self)),
    {
        let head = self.wire_heads[wire];
        proof {
            assert(old(self).input_nodes@[wire as int] < old(self).len());
            assert(seq![wire].drop_last() =~= Seq::<usize>::empty());
            assert(thread_spec(old(self).edges(), id, seq![wire].drop_last()) == old(self).edges());
        }
        if head == id {
            return;
        }
        assert(head < id);
        proof {
            lemma_edges_ok_add(old(self).nodes_view(), old(self).edges().0, old(self).edges().1, head, id, wire);
        }
        self.succ[head].push((id, wire));
        self.pred[id].push((head, wire));
        self.wire_heads.set(wire, id);
        proof {
            let n = self.len();
            let e = old(self).edges();
            assert(self.edges().0 =~= e.0.update(head as int, e.0[head as int].push((id, wire))));
            assert(self.edges().1 =~= e.1.update(id as int, e.1[id as int].push((head, wire))));
            assert forall|w: int| 0 <= w < self.num_qubits implies (#[trigger] self.input_nodes@[w]) < n
                && self.output_nodes@[w] < n && self.heads()[w] < n && !node_is_out(self.nodes_view(), self.heads()[w] as int)
                && node_is_out(self.nodes_view(), self.output_nodes@[w] as int) by {
                assert(old(self).input_nodes@[w] < n);
            }
            assert(self.edges() == thread_spec(old(self).edges(), id, seq![wire]));
        }
    }

    fn thread_all(&mut self, id: NodeId, wires: &Vec<usize>)
        requires
            old(self).wf(),
            id == old(self).len() - 1,
            !old(self).is_out(id as int),
            forall|k: int| 0 <= k < wires@.len() ==> #[trigger] wires@[k] < old(self).nq(),
        ensures
            final(self).wf(),
            final(self).nodes_view() == old(self).nodes_view(),
            final(self).edges() == thread_spec(old(self).edges(), id, wires@),
            final(self).same_frame(&*old(self)),
    {
        let mut i: usize = 0;
        while i < wires.len()
            invariant
                i <= wires@.len(),
                self.wf(),
                id == self.len() - 1,
                !self.is_out(id as int),
                self.nodes_view() == old(self).nodes_view(),
                self.edges() == thread_spec(old(self).edges(), id, wires@.take(i as int)),
                self.same_frame(&*old(self)),
                forall|k: int| 0 <= k < wires@.len() ==> #[trigger] wires@[k] < old(self).nq(),
            decreases wires@.len() - i,
        {
            assert(wires@.take(i + 1).drop_last() =~= wires@.take(i as int));
            let ghost e0 = self.edges();
            self.append_on_wire(id, wires[i]);
            proof {
                assert(seq![wires@[i as int]].drop_last() =~= Seq::<usize>::empty());
                assert(thread_spec(e0, id, seq![wires@[i as int]].drop_last()) == e0);
            }
            i += 1;
        }
        assert(wires@.take(wires@.len() as int) =~= wires@);
    }

    /// Add a gate and thread it onto each of its wires; returns its id.
    pub fn append_gate(
        &mut self,
        name: String,
        modifiers: Vec<Modifier>,
        params: Vec<Param>,
        qubits: Vec<usize>,
    ) -> (r: NodeId)
        requires
            old(self).wf(),
            old(self).len() < usize::MAX,
            forall|k: int| 0 <= k < qubits@.len() ==> #[trigger] qubits@[k] < old(self).nq(),
        ensures
            final(self).wf(),
            r == old(self).len(),
            final(self).nodes_view() == old(self).nodes_view().push(
                DAGNode { id: r, op: Op::Gate { name, modifiers, params, qubits }, removed: false },
            ),
            final(self).edges() == thread_spec(alloc_spec(old(self).edges()), r, qubits@),
            final(self).same_frame(&*old(self)),
            final(self).live_gates() == old(self).live_gates() + 1,
            final(self).live_ops() == old(self).live_ops() + 1,
    {
        let wires = copy_wires(&qubits);
        let id = self.alloc_node(Op::Gate { name, modifiers, params, qubits });
        self.thread_all(id, &wires);
        proof {
            lemma_counts_push(old(self).nodes_view(), self.nodes_view().last());
        }
        id
    }

    /// Add a measurement of `qubit` (into `bit`, if given).
    pub fn append_measure(&mut self, qubit: usize, bit: Option<usize>) -> (r: NodeId)
        requires
            old(self).wf(),
            old(self).len() < usize::MAX,
            qubit < old(self).nq(),
        ensures
            final(self).wf(),
            r == old(self).len(),
            final(self).nodes_view() == old(self).nodes_view().push(
                DAGNode { id: r, op: Op::Measure { qubit, bit }, removed: false },
            ),
            final(self).edges() == thread_spec(alloc_spec(old(self).edges()), r, seq![qubit]),
            final(self).same_frame(&*old(self)),
            final(self).live_gates() == old(self).live_gates(),
            final(self).live_ops() == old(self).live_ops() + 1,
    {
        let id = self.alloc_node(Op::Measure { qubit, bit });
        self.append_on_wire(id, qubit);
        proof {
            lemma_counts_push(old(self).nodes_view(), self.nodes_view().last());
        }
        id
    }

    /// Add a reset of `qubit`.
    pub fn append_reset(&mut self, qubit: usize) -> (r: NodeId)
        requires
            old(self).wf(),
            old(self).len() < usize::MAX,
            qubit < old(self).nq(),
        ensures
            final(self).wf(),
            r == old(self).len(),
            final(self).nodes_view() == old(self).nodes_view().push(
                DAGNode { id: r, op: Op::Reset { qubit }, removed: false },
            ),
            final(self).edges() == thread_spec(alloc_spec(old(self).edges()), r, seq![qubit]),
            final(self).same_frame(&*old(self)),
            final(self).live_gates() == old(self).live_gates(),
            final(self).live_ops() == old(self).live_ops() + 1,
    {
        let id = self.alloc_node(Op::Reset { qubit });
        self.append_on_wire(id, qubit);
        proof {
            lemma_counts_push(old(self).nodes_view(), self.nodes_view().last());
        }
        id
    }

    /// Add a barrier across `qubits`.
    pub fn append_barrier(&mut self, qubits: Vec<usize>) -> (r: NodeId)
        requires
            old(self).wf(),
            old(self).len() < usize::MAX,
            forall|k: int| 0 <= k < qubits@.len() ==> #[trigger] qubits@[k] < old(self).nq(),
        ensures
            final(self).wf(),
            r == old(self).len(),
            final(self).nodes_view() == old(self).nodes_view().push(
                DAGNode { id: r, op: Op::Barrier { qubits }, removed: false },
            ),
            final(self).edges() == thread_spec(alloc_spec(old(self).edges()), r, qubits@),
            final(self).same_frame(&*old(self)),
            final(self).live_gates() == old(self).live_gates(),
            final(self).live_ops() == old(self).live_ops() + 1,
    {
        let wires = copy_wires(&qubits);
        let id = self.alloc_node(Op::Barrier { qubits });
        self.thread_all(id, &wires);
        proof {
            lemma_counts_push(old(self).nodes_view(), self.nodes_view().last());
        }
        id
    }

    /// Add a delay of `duration` on `qubits`.
    pub fn append_delay(&mut self, duration: Param, qubits: Vec<usize>) -> (r: NodeId)
        requires
            old(self).wf(),
            old(self).len() < usize::MAX,
            forall|k: int| 0 <= k < qubits@.len() ==> #[trigger] qubits@[k] < old(self).nq(),
        ensures
            final(self).wf(),
            r == old(self).len(),
            final(self).nodes_view() == old(self).nodes_view().push(
                DAGNode { id: r, op: Op::Delay { duration, qubits }, removed: false },
            ),
            final(self).edges() == thread_spec(alloc_spec(old(self).edges()), r, qubits@),
            final(self).same_frame(&*old(self)),
            final(self).live_gates() == old(self).live_gates(),
            final(self).live_ops() == old(self).live_ops() + 1,
    {
        let wires = copy_wires(&qubits);
        let id = self.alloc_node(Op::Delay { duration, qubits });
        self.thread_all(id, &wires);
        proof {
            lemma_counts_push(old(self).nodes_view(), self.nodes_view().last());
        }
        id
    }

    /// Connect every wire head to its `Out` node. Call after all operations
    /// have been appended.
    pub fn finalize(&mut self)
        requires
            old(self).wf(),
        ensures
            final(self).wf(),
            final(self).nodes_view() == old(self).nodes_view(),
            final(self).edges() == finalize_spec(old(self).edges(), old(self).outputs(), old(self).nq()),
            final(self).same_frame(&*old(self)),
    {
        let mut w: usize = 0;
        while w < self.num_qubits
            invariant
                self.wf(),
                w <= self.num_qubits,
                self.nodes_view() == old(self).nodes_view(),
                self.same_frame(&*old(self)),
                self.edges() == finalize_spec(old(self).edges(), old(self).outputs(), w as nat),
            decreases self.num_qubits - w,
        {
            let head = self.wire_heads[w];
            let out = self.output_nodes[w];
            proof {
                assert(self.input_nodes@[w as int] < self.len());
                lemma_edges_ok_add(self.nodes_view(), self.edges().0, self.edges().1, head, out, w);
            }
            let ghost e = self.edges();
            self.succ[head].push((out, w));
            self.pred[out].push((head, w));
            proof {
                assert(self.edges().0 =~= e.0.update(head as int, e.0[head as int].push((out, w))));
                assert(self.edges().1 =~= e.1.update(out as int, e.1[out as int].push((head, w))));
                assert(self.edges() =~= finalize_spec(old(self).edges(), old(self).outputs(), (w + 1) as nat));
                assert(edges_ok(self.nodes_view(), self.edges().0, self.edges().1));
            }
            w += 1;
        }
    }
}

proof fn lemma_same_ops(
    n1: Seq<DAGNode>,
    n2: Seq<DAGNode>,
    succ: Seq<Seq<(usize, usize)>>,
    pred: Seq<Seq<(usize, usize)>>,
    inputs: Seq<usize>,
    outputs: Seq<usize>,
    heads: Seq<usize>,
    nq: nat,
)
    requires
        n1.len() == n2.len(),
        forall|i: int| 0 <= i < n1.len() ==> (#[trigger] n1[i]).op == n2[i].op && n1[i].id == n2[i].id,
        edges_ok(n1, succ, pred),
        wires_ok(n1, inputs, outputs, heads, nq),
        ids_ok(n1),
    ensures
        edges_ok(n2, succ, pred),
        wires_ok(n2, inputs, outputs, heads, nq),
        ids_ok(n2),
{
    assert forall|i: int| 0 <= i < n2.len() implies node_is_out(n1, i) == node_is_out(n2, i) by {
        assert(n1[i].op == n2[i].op);
    }
    assert forall|i: int, k: int| 0 <= i < n2.len() && 0 <= k < succ[i].len() implies {
        let t = (#[trigger] succ[i][k]).0 as int;
        &&& t < n2.len()
        &&& !node_is_out(n2, i)
        &&& (i < t || node_is_out(n2, t))
    } by {
        let t = succ[i][k].0 as int;
        assert(n1[t].op == n2[t].op);
        assert(n1[i].op == n2[i].op);
    }
    assert forall|i: int, k: int| 0 <= i < n2.len() && 0 <= k < pred[i].len() implies {
        let f = (#[trigger] pred[i][k]).0 as int;
        &&& f < n2.len()
        &&& !node_is_out(n2, f)
        &&& (f < i || node_is_out(n2, i))
    } by {
        let f = pred[i][k].0 as int;
        assert(n1[f].op == n2[f].op);
        assert(n1[i].op == n2[i].op);
    }
    assert forall|w: int| 0 <= w < nq implies (#[trigger] inputs[w]) < n2.len() && outputs[w] < n2.len() && heads[w]
        < n2.len() && !node_is_out(n2, heads[w] as int) && node_is_out(n2, outputs[w] as int) by {
        assert(inputs[w] < n1.len());
        assert(n1[heads[w] as int].op == n2[heads[w] as int].op);
        assert(n1[outputs[w] as int].op == n2[outputs[w] as int].op);
    }
    assert forall|i: int| 0 <= i < n2.len() implies (#[trigger] n2[i]).id == i by {
        assert(n1[i].id == i);
    }
}

proof fn lemma_counts_update(nodes: Seq<DAGNode>, i: int, n: DAGNode)
    requires
        0 <= i < nodes.len(),
    ensures
        count_gates(nodes.update(i, n)) + (if is_live_gate(nodes[i]) {
            1nat
        } else {
            0nat
        }) == count_gates(nodes) + (if is_live_gate(n) {
            1nat
        } else {
            0nat
        }),
        count_ops(nodes.update(i, n)) + (if is_live_op(nodes[i]) {
            1nat
        } else {
            0nat
        }) == count_ops(nodes) + (if is_live_op(n) {
            1nat
        } else {
            0nat
        }),
    decreases nodes.len(),
{
    let u = nodes.update(i, n);
    if i == nodes.len() - 1 {
        assert(u.drop_last() =~= nodes.drop_last());
    } else {
        assert(u.drop_last() =~= nodes.drop_last().update(i, n));
        lemma_counts_update(nodes.drop_last(), i, n);
    }
}

impl CircuitDAG {
    /// Remove a node (tombstone) and reconnect each of its predecessors to
    /// its successor on the same wire, so the wires stay connected.
    pub fn remove_node(&mut self, id: NodeId)
        requires
            old(self).wf(),
            id < old(self).len(),
        ensures
            final(self).wf(),
            final(self).same_frame(&*old(self)),
            old(self).nodes_view()[id as int].removed ==> final(self).nodes_view() == old(self).nodes_view()
                && final(self).edges() == old(self).edges(),
            !old(self).nodes_view()[id as int].removed ==> {
                &&& final(self).nodes_view() == old(self).nodes_view().update(
                    id as int,
                    DAGNode { removed: true, ..old(self).nodes_view()[id as int] },
                )
                &&& final(self).edges() == remove_spec(old(self).edges(), id)
            },
            final(self).live_gates() == old(self).live_gates() - if is_live_gate(old(self).nodes_view()[id as int]) {
                1int
            } else {
                0int
            },
            final(self).live_ops() == old(self).live_ops() - if is_live_op(old(self).nodes_view()[id as int]) {
                1int
            } else {
                0int
            },
    {
        if self.nodes[id].removed {
            return;
        }
        let ghost e0 = old(self).edges();
        let ghost nodes0 = old(self).nodes_view();
        self.nodes[id].removed = true;
        proof {
            assert(self.nodes_view() =~= nodes0.update(id as int, DAGNode { removed: true, ..nodes0[id as int] }));
            lemma_same_ops(nodes0, self.nodes_view(), e0.0, e0.1, self.input_nodes@, self.output_nodes@, e0.2, self.num_qubits as nat);
            lemma_counts_update(nodes0, id as int, DAGNode { removed: true, ..nodes0[id as int] });
        }
        let pred_edges = copy_edges(&self.pred[id]);
        let succ_edges = copy_edges(&self.succ[id]);
        let ghost n = self.len();
        proof {
            assert(pred_edges@ == e0.1[id as int]);
            assert(succ_edges@ == e0.0[id as int]);
        }
        let mut i: usize = 0;
        assert(pred_edges@.take(0) =~= Seq::<(usize, usize)>::empty());
        while i < pred_edges.len()
            invariant
                i <= pred_edges@.len(),
                n == self.len(),
                id < n,
                ids_ok(self.nodes_view()),
                edges_ok(self.nodes_view(), self.edges().0, self.edges().1),
                wires_ok(self.nodes_view(), self.input_nodes@, self.output_nodes@, self.heads(), self.num_qubits as nat),
                self.same_frame(&*old(self)),
                self.heads() == e0.2,
                self.nodes_view() == nodes0.update(id as int, DAGNode { removed: true, ..nodes0[id as int] }),
                (self.edges().0, self.edges().1) == splice_all((e0.0, e0.1), id, succ_edges@, pred_edges@.take(i as int)),
                forall|k: int| 0 <= k < pred_edges@.len() ==> {
                    let f = (#[trigger] pred_edges@[k]).0 as int;
                    &&& f < n
                    &&& !node_is_out(self.nodes_view(), f)
                    &&& (f < id || node_is_out(self.nodes_view(), id as int))
                },
                forall|k: int| 0 <= k < succ_edges@.len() ==> {
                    let t = (#[trigger] succ_edges@[k]).0 as int;
                    &&& t < n
                    &&& !node_is_out(self.nodes_view(), id as int)
                    &&& (id < t || node_is_out(self.nodes_view(), t))
                },
            decreases pred_edges@.len() - i,
        {
            assert(pred_edges@.take(i + 1).drop_last() =~= pred_edges@.take(i as int));
            let (p, wire) = pred_edges[i];
            let ghost es = self.edges();
            let filtered = filter_edges(&self.succ[p], id, wire);
            proof {
                lemma_edges_ok_shrink_succ(self.nodes_view(), es.0, es.1, p as int, filtered@);
            }
            self.succ.set(p, filtered);
            proof {
                assert(self.edges().0 =~= es.0.update(p as int, without_edge(es.0[p as int], id, wire)));
            }
            match find_on_wire(&succ_edges, wire) {
                Some(t) => {
                    let ghost es1 = self.edges();
                    let filtered_pred = filter_edges(&self.pred[t], id, wire);
                    proof {
                        let k = choose|k: int| 0 <= k < succ_edges@.len() && succ_edges@[k].0 == t;
                        assert(succ_edges@[k].0 == t);
                        lemma_edges_ok_shrink_pred(self.nodes_view(), es1.0, es1.1, t as int, filtered_pred@);
                    }
                    self.pred.set(t, filtered_pred);
                    let ghost es2 = self.edges();
                    proof {
                        assert(es2.1 =~= es1.1.update(t as int, without_edge(es1.1[t as int], id, wire)));
                        assert(es2.0 =~= es1.0);
                        lemma_edges_ok_add(self.nodes_view(), es2.0, es2.1, p, t, wire);
                    }
                    self.succ[p].push((t, wire));
                    self.pred[t].push((p, wire));
                    proof {
                        assert(self.edges().0 =~= es2.0.update(p as int, es2.0[p as int].push((t, wire))));
                        assert(self.edges().1 =~= es2.1.update(t as int, es2.1[t as int].push((p, wire))));
                    }
                },
                None => {},
            }
            proof {
                assert((self.edges().0, self.edges().1) == splice_step((es.0, es.1), id, succ_edges@, pred_edges@[i as int]));
            }
            i += 1;
        }
        assert(pred_edges@.take(pred_edges@.len() as int) =~= pred_edges@);
        let ghost es = self.edges();
        proof {
            lemma_edges_ok_shrink_succ(self.nodes_view(), es.0, es.1, id as int, seq![]);
            lemma_edges_ok_shrink_pred(self.nodes_view(), es.0.update(id as int, seq![]), es.1, id as int, seq![]);
        }
        self.succ.set(id, Vec::new());
        self.pred.set(id, Vec::new());
        proof {
            assert(self.edges().0 =~= es.0.update(id as int, seq![]));
            assert(self.edges().1 =~= es.1.update(id as int, seq![]));
            assert(self.edges() == remove_spec(e0, id));
        }
    }
}

// ── Traversal ───────────────────────────────────────────────

/// A sequence of distinct live node ids.
pub open spec fn distinct_live(dag: &CircuitDAG, order: Seq<usize>) -> bool {
    &&& order.no_duplicates()
    &&& forall|k: int| 0 <= k < order.len() ==> dag.live(#[trigger] order[k] as int)
}

/// A sequence of distinct live nodes is no longer than the node list.
pub proof fn lemma_distinct_len(dag: &CircuitDAG, order: Seq<usize>)
    requires
        distinct_live(dag, order),
    ensures
        order.len() <= dag.len(),
{
    assert forall|k: int| 0 <= k < order.len() implies #[trigger] order[k] < dag.len() by {
        assert(dag.live(order[k] as int));
    }
    lemma_distinct_bound(order, dag.len());
}

proof fn lemma_distinct_bound(s: Seq<usize>, n: nat)
    requires
        s.no_duplicates(),
        forall|k: int| 0 <= k < s.len() ==> #[trigger] s[k] < n,
    ensures
        s.len() <= n,
{
    let m = s.map_values(|x: usize| x as int);
    assert forall|i: int, j: int| 0 <= i < m.len() && 0 <= j < m.len() && i != j implies m[i] != m[j] by {
        assert(s[i] != s[j]);
    }
    assert(m.no_duplicates());
    m.unique_seq_to_set();
    vstd::set_lib::lemma_int_range(0, n as int);
    assert forall|x: int| m.to_set().contains(x) implies vstd::set_lib::set_int_range(0, n as int).contains(x) by {
        let k = choose|k: int| 0 <= k < m.len() && m[k] == x;
        assert(s[k] < n);
    }
    vstd::set_lib::lemma_len_subset(m.to_set(), vstd::set_lib::set_int_range(0, n as int));
}

/// How many successor entries of `s` lead to node `v`.
pub open spec fn entries_to(s: Seq<(usize, usize)>, v: int) -> nat
    decreases s.len(),
{
    if s.len() == 0 {
        0
    } else {
        entries_to(s.drop_last(), v) + (if s.last().0 == v {
            1nat
        } else {
            0nat
        })
    }
}

/// Edges into `v` from the live nodes below `hi` that `done` does not hold.
pub open spec fn pending_in(dag: &CircuitDAG, v: int, done: Seq<usize>, hi: int) -> nat
    decreases hi,
{
    if hi <= 0 {
        0
    } else {
        pending_in(dag, v, done, hi - 1) + (if dag.live(hi - 1) && !done.contains((hi - 1) as usize) {
            entries_to(dag.succs(hi - 1), v)
        } else {
            0nat
        })
    }
}

/// `x`, or the largest `usize` when `x` is larger.
pub open spec fn capped(x: nat) -> nat {
    if x < usize::MAX {
        x
    } else {
        usize::MAX as nat
    }
}

/// Every live node has fewer incoming edges than the largest `usize`.
pub open spec fn in_degrees_fit(dag: &CircuitDAG) -> bool {
    forall|v: int|
        0 <= v < dag.len() && dag.live(v) ==> #[trigger] pending_in(dag, v, Seq::empty(), dag.len() as int)
            < usize::MAX
}

/// Node `u` has a successor entry leading to `v`.
pub open spec fn has_edge(dag: &CircuitDAG, u: int, v: int) -> bool {
    exists|k: int| 0 <= k < dag.succs(u).len() && #[trigger] dag.succs(u)[k].0 == v
}

/// Every live node is in `order`, and each edge between nodes of `order`
/// goes forward.
pub open spec fn complete_topological(dag: &CircuitDAG, order: Seq<usize>) -> bool {
    &&& forall|v: int| 0 <= v < dag.len() && #[trigger] dag.live(v) ==> order.contains(v as usize)
    &&& forall|i: int, j: int|
        0 <= i < order.len() && 0 <= j < order.len() && #[trigger] has_edge(dag, order[i] as int, order[j] as int)
            ==> i < j
}

proof fn lemma_entries_take(s: Seq<(usize, usize)>, k: int, v: int)
    requires
        0 <= k < s.len(),
    ensures
        entries_to(s.take(k + 1), v) == entries_to(s.take(k), v) + (if s[k].0 == v {
            1nat
        } else {
            0nat
        }),
{
    assert(s.take(k + 1).drop_last() =~= s.take(k));
}

proof fn lemma_entries_take_le(s: Seq<(usize, usize)>, k: int, v: int)
    requires
        0 <= k <= s.len(),
    ensures
        entries_to(s.take(k), v) <= entries_to(s, v),
    decreases s.len() - k,
{
    if k < s.len() {
        lemma_entries_take(s, k, v);
        lemma_entries_take_le(s, k + 1, v);
    } else {
        assert(s.take(k) =~= s);
    }
}

proof fn lemma_entries_witness(s: Seq<(usize, usize)>, v: int)
    requires
        entries_to(s, v) > 0,
    ensures
        exists|k: int| 0 <= k < s.len() && #[trigger] s[k].0 == v,
    decreases s.len(),
{
    if s.last().0 != v {
        lemma_entries_witness(s.drop_last(), v);
        let k = choose|k: int| 0 <= k < s.drop_last().len() && #[trigger] s.drop_last()[k].0 == v;
        assert(s[k] == s.drop_last()[k]);
    } else {
        assert(s[s.len() - 1].0 == v);
    }
}

proof fn lemma_entries_at(s: Seq<(usize, usize)>, k: int)
    requires
        0 <= k < s.len(),
    ensures
        entries_to(s, s[k].0 as int) > 0,
{
    lemma_entries_take(s, k, s[k].0 as int);
    lemma_entries_take_le(s, k + 1, s[k].0 as int);
}

proof fn lemma_pending_push(dag: &CircuitDAG, v: int, done: Seq<usize>, u: usize, hi: int)
    requires
        dag.live(u as int),
        !done.contains(u),
        hi <= usize::MAX,
    ensures
        pending_in(dag, v, done.push(u), hi) + (if 0 <= u < hi {
            entries_to(dag.succs(u as int), v)
        } else {
            0nat
        }) == pending_in(dag, v, done, hi),
    decreases hi,
{
    if hi > 0 {
        lemma_pending_push(dag, v, done, u, hi - 1);
        let x = (hi - 1) as usize;
        assert(done.push(u).contains(x) == (done.contains(x) || x == u)) by {
            if done.push(u).contains(x) {
                let j = choose|j: int| 0 <= j < done.push(u).len() && done.push(u)[j] == x;
                if j < done.len() {
                    assert(done[j] == x);
                }
            }
            if done.contains(x) {
                let j = choose|j: int| 0 <= j < done.len() && done[j] == x;
                assert(done.push(u)[j] == x);
            }
            if x == u {
                assert(done.push(u)[done.len() as int] == u);
            }
        }
        assert(x as int == hi - 1);
    }
}

proof fn lemma_pending_ge(dag: &CircuitDAG, v: int, done: Seq<usize>, u: int, hi: int)
    requires
        dag.live(u),
        !done.contains(u as usize),
        0 <= u < hi,
    ensures
        pending_in(dag, v, done, hi) >= entries_to(dag.succs(u), v),
    decreases hi,
{
    if u < hi - 1 {
        lemma_pending_ge(dag, v, done, u, hi - 1);
    }
}

proof fn lemma_pending_witness(dag: &CircuitDAG, v: int, done: Seq<usize>, hi: int)
    requires
        pending_in(dag, v, done, hi) > 0,
    ensures
        exists|u: int|
            0 <= u < hi && dag.live(u) && !done.contains(u as usize) && #[trigger] entries_to(dag.succs(u), v) > 0,
    decreases hi,
{
    if hi > 0 {
        if pending_in(dag, v, done, hi - 1) > 0 {
            lemma_pending_witness(dag, v, done, hi - 1);
        } else {
            assert(entries_to(dag.succs(hi - 1), v) > 0);
        }
    }
}

/// Every successor entry leaves a node that is not an output boundary and
/// goes forward in id order or into an output boundary.
pub open spec fn edges_forward(dag: &CircuitDAG) -> bool {
    forall|i: int, k: int| 0 <= i < dag.len() && 0 <= k < dag.succs(i).len() ==> #[trigger] edge_forward_at(dag, i, k)
}

/// Successor entry `k` of node `i` leaves a node that is not an output
/// boundary and goes forward in id order or into an output boundary.
pub open spec fn edge_forward_at(dag: &CircuitDAG, i: int, k: int) -> bool {
    let t = dag.succs(i)[k].0 as int;
    &&& !node_is_out(dag.nodes_view(), i)
    &&& (i < t || node_is_out(dag.nodes_view(), t))
}

/// Node `x` is live and not in `order`.
pub open spec fn unordered(dag: &CircuitDAG, order: Seq<usize>, x: int) -> bool {
    0 <= x < dag.len() && dag.live(x) && !order.contains(x as usize)
}

/// Some node outside `order` has an edge into `x`.
pub open spec fn has_unordered_pred(dag: &CircuitDAG, order: Seq<usize>, x: int) -> bool {
    exists|u: int| #[trigger] unordered(dag, order, u) && has_edge(dag, u, x)
}

/// When every live node outside `order` has a live predecessor outside
/// `order`, there is none: edges run forward in id order or into an output
/// boundary, so following them back ends.
proof fn lemma_no_unordered_cycle(dag: &CircuitDAG, order: Seq<usize>, v: int)
    requires
        edges_forward(dag),
        0 <= v < dag.len(),
        dag.live(v),
        forall|x: int| #![trigger has_unordered_pred(dag, order, x)] unordered(dag, order, x) ==> has_unordered_pred(dag, order, x),
    ensures
        order.contains(v as usize),
    decreases if node_is_out(dag.nodes_view(), v) {
        dag.len() as int
    } else {
        v
    },
{
    if !order.contains(v as usize) {
        assert(unordered(dag, order, v));
        assert(has_unordered_pred(dag, order, v));
        let u = choose|u: int| #[trigger] unordered(dag, order, u) && has_edge(dag, u, v);
        let k = choose|k: int| 0 <= k < dag.succs(u).len() && #[trigger] dag.succs(u)[k].0 == v;
        assert(edge_forward_at(dag, u, k));
        if node_is_out(dag.nodes_view(), v) {
            assert(has_unordered_pred(dag, order, u));
            let u2 = choose|u2: int| #[trigger] unordered(dag, order, u2) && has_edge(dag, u2, u);
            let k2 = choose|k2: int| 0 <= k2 < dag.succs(u2).len() && #[trigger] dag.succs(u2)[k2].0 == u;
            assert(edge_forward_at(dag, u2, k2));
            lemma_no_unordered_cycle(dag, order, u2);
        } else {
            lemma_no_unordered_cycle(dag, order, u);
        }
    }
}

impl CircuitDAG {
    proof fn lemma_edges_forward(&self)
        requires
            self.wf(),
        ensures
            edges_forward(self),
    {
        assert(edges_ok(self.nodes_view(), self.edges().0, self.edges().1));
        assert forall|i: int, k: int| 0 <= i < self.len() && 0 <= k < self.succs(i).len() implies #[trigger] edge_forward_at(
            self,
            i,
            k,
        ) by {
            assert(self.edges().0[i][k] == self.succs(i)[k]);
        }
    }

    /// For each live node, the number of edges into it from live nodes,
    /// capped at the largest `usize`.
    fn in_degrees(&self) -> (r: Vec<usize>)
        requires
            self.wf(),
        ensures
            r@.len() == self.len(),
            forall|v: int|
                0 <= v < self.len() && self.live(v) ==> #[trigger] r@[v] == capped(
                    pending_in(self, v, Seq::empty(), self.len() as int),
                ),
    {
        let n = self.nodes.len();
        let mut in_degree: Vec<usize> = Vec::new();
        let mut z: usize = 0;
        while z < n
            invariant
                z <= n,
                in_degree@.len() == z,
                forall|v: int| 0 <= v < z ==> #[trigger] in_degree@[v] == 0,
            decreases n - z,
        {
            in_degree.push(0);
            z += 1;
        }
        let mut id: usize = 0;
        while id < n
            invariant
                n == self.len(),
                self.wf(),
                in_degree@.len() == n,
                id <= n,
                forall|v: int|
                    0 <= v < n && self.live(v) ==> #[trigger] in_degree@[v] == capped(
                        pending_in(self, v, Seq::empty(), id as int),
                    ),
            decreases n - id,
        {
            if !self.nodes[id].removed {
                let mut k: usize = 0;
                assert forall|v: int| 0 <= v < n && self.live(v) implies #[trigger] in_degree@[v] == capped(
                    pending_in(self, v, Seq::empty(), id as int) + entries_to(self.succs(id as int).take(0), v),
                ) by {
                    assert(self.succs(id as int).take(0) =~= Seq::<(usize, usize)>::empty());
                }
                while k < self.succ[id].len()
                    invariant
                        n == self.len(),
                        self.wf(),
                        in_degree@.len() == n,
                        id < n,
                        k <= self.succs(id as int).len(),
                        forall|v: int|
                            0 <= v < n && self.live(v) ==> #[trigger] in_degree@[v] == capped(
                                pending_in(self, v, Seq::empty(), id as int) + entries_to(
                                    self.succs(id as int).take(k as int),
                                    v,
                                ),
                            ),
                    decreases self.succs(id as int).len() - k,
                {
                    let t = self.succ[id][k].0;
                    assert(self.succs(id as int)[k as int].0 < n);
                    let ghost deg0 = in_degree@;
                    if !self.nodes[t].removed && in_degree[t] < usize::MAX {
                        in_degree.set(t, in_degree[t] + 1);
                    }
                    assert forall|v: int| 0 <= v < n && self.live(v) implies #[trigger] in_degree@[v] == capped(
                        pending_in(self, v, Seq::empty(), id as int) + entries_to(
                            self.succs(id as int).take(k + 1),
                            v,
                        ),
                    ) by {
                        lemma_entries_take(self.succs(id as int), k as int, v);
                        assert(deg0[v] == capped(
                            pending_in(self, v, Seq::empty(), id as int) + entries_to(
                                self.succs(id as int).take(k as int),
                                v,
                            ),
                        ));
                    }
                    k += 1;
                }
                assert(self.succs(id as int).take(self.succs(id as int).len() as int) =~= self.succs(id as int));
            }
            assert(!Seq::<usize>::empty().contains(id));
            id += 1;
        }
        in_degree
    }

}

/// The in-degree count each node starts from: its incoming edges from live
/// nodes, capped at the largest `usize`.
pub open spec fn start_degrees(dag: &CircuitDAG) -> Seq<int> {
    Seq::new(dag.len(), |v: int| capped(pending_in(dag, v, Seq::empty(), dag.len() as int)) as int)
}

/// The live nodes below `id` whose count in `d` is zero, in id order.
pub open spec fn kahn_start(dag: &CircuitDAG, d: Seq<int>, id: int) -> Seq<usize>
    decreases id,
{
    if id <= 0 {
        seq![]
    } else if dag.live(id - 1) && d[id - 1] == 0 {
        kahn_start(dag, d, id - 1).push((id - 1) as usize)
    } else {
        kahn_start(dag, d, id - 1)
    }
}

/// Releasing the successor entries of `u` from `k` on: each live target with
/// a positive count loses one, and joins the queue when it reaches zero.
pub open spec fn kahn_release(dag: &CircuitDAG, u: int, k: int, q: Seq<usize>, d: Seq<int>) -> (Seq<usize>, Seq<int>)
    decreases dag.succs(u).len() - k,
{
    if k < 0 || k >= dag.succs(u).len() {
        (q, d)
    } else {
        let t = dag.succs(u)[k].0 as int;
        if dag.live(t) && d[t] > 0 {
            let q2 = if d[t] == 1 {
                q.push(t as usize)
            } else {
                q
            };
            kahn_release(dag, u, k + 1, q2, d.update(t, d[t] - 1))
        } else {
            kahn_release(dag, u, k + 1, q, d)
        }
    }
}

/// The queue once the nodes from `head` on have been taken in turn, for at
/// most `fuel` more of them.
pub open spec fn kahn_run(dag: &CircuitDAG, q: Seq<usize>, head: int, d: Seq<int>, fuel: nat) -> Seq<usize>
    decreases fuel,
{
    if fuel == 0 || head < 0 || head >= q.len() {
        q
    } else {
        let (q2, d2) = kahn_release(dag, q[head] as int, 0, q, d);
        kahn_run(dag, q2, head + 1, d2, (fuel - 1) as nat)
    }
}

/// The order Kahn's algorithm gives: the zero-count live nodes in id order
/// start the queue, and taking each node in turn releases its successors in
/// the order of its successor list.
pub open spec fn kahn_order(dag: &CircuitDAG) -> Seq<usize> {
    let d = start_degrees(dag);
    kahn_run(dag, kahn_start(dag, d, dag.len() as int), 0, d, dag.len())
}

/// The live operations of `order`, in order.
pub open spec fn ops_of(dag: &CircuitDAG, order: Seq<usize>) -> Seq<usize>
    decreases order.len(),
{
    if order.len() == 0 {
        seq![]
    } else if is_live_op(dag.nodes_view()[order.last() as int]) {
        ops_of(dag, order.drop_last()).push(order.last())
    } else {
        ops_of(dag, order.drop_last())
    }
}

/// The order in which a circuit's operations are emitted.
pub open spec fn emitted_order(dag: &CircuitDAG) -> Seq<usize> {
    ops_of(dag, kahn_order(dag))
}

impl CircuitDAG {
    /// Kahn's algorithm: live nodes in dependency order. When no in-degree
    /// reaches the largest `usize`, every live node is there and every edge
    /// points forward.
    #[verifier::rlimit(100)]
    pub fn topo_order(&self) -> (r: Vec<NodeId>)
        requires
            self.wf(),
        ensures
            distinct_live(self, r@),
            in_degrees_fit(self) ==> complete_topological(self, r@),
            r@ == kahn_order(self),
    {
        let n = self.nodes.len();
        proof {
            self.lemma_same_frame_refl();
        }
        let mut in_degree = self.in_degrees();
        let ghost fit = in_degrees_fit(self);
        let ghost d0 = start_degrees(self);
        let mut queue: Vec<NodeId> = Vec::new();
        let mut id: usize = 0;
        while id < n
            invariant
                n == self.len(),
                in_degree@.len() == n,
                d0 == start_degrees(self),
                forall|v: int| 0 <= v < n && self.live(v) ==> #[trigger] in_degree@[v] == d0[v],
                queue@ == kahn_start(self, d0, id as int),
                id <= n,
                queue@.no_duplicates(),
                forall|k: int| 0 <= k < queue@.len() ==> (#[trigger] queue@[k]) < id && self.live(queue@[k] as int),
                forall|v: int| 0 <= v < id ==> (self.live(v) && in_degree@[v] == 0 <==> #[trigger] queue@.contains(v as usize)),
            decreases n - id,
        {
            let ghost q0 = queue@;
            let take = !self.nodes[id].removed && in_degree[id] == 0;
            if take {
                queue.push(id);
            }
            proof {
                assert forall|v: int| 0 <= v < id + 1 implies (self.live(v) && in_degree@[v] == 0 <==> #[trigger] queue@.contains(v as usize)) by {
                    if queue@.contains(v as usize) {
                        let k = choose|k: int| 0 <= k < queue@.len() && queue@[k] == v as usize;
                        if k < q0.len() {
                            assert(q0[k] == v as usize);
                            assert(q0.contains(v as usize));
                        } else {
                            assert(queue@[k] == id);
                        }
                    }
                    if v < id && q0.contains(v as usize) {
                        let k = choose|k: int| 0 <= k < q0.len() && q0[k] == v as usize;
                        assert(queue@[k] == v as usize);
                    }
                    if v == id && take {
                        assert(queue@[queue@.len() - 1] == id);
                    }
                    if v == id && q0.contains(v as usize) {
                        let k = choose|k: int| 0 <= k < q0.len() && q0[k] == v as usize;
                        assert(q0[k] < id);
                    }
                }
            }
            id += 1;
        }
        proof {
            if fit {
                assert forall|v: int| 0 <= v < n && self.live(v) implies #[trigger] in_degree@[v] == pending_in(
                    self,
                    v,
                    queue@.take(0),
                    n as int,
                ) by {
                    assert(queue@.take(0) =~= Seq::<usize>::empty());
                    assert(pending_in(self, v, Seq::empty(), self.len() as int) < usize::MAX);
                }
                assert forall|i: int, j: int|
                    0 <= i < queue@.len() && 0 <= j < queue@.len() && #[trigger] has_edge(
                        self,
                        queue@[i] as int,
                        queue@[j] as int,
                    ) implies i < j by {
                    let u = queue@[i] as int;
                    let x = queue@[j] as int;
                    let k = choose|k: int| 0 <= k < self.succs(u).len() && #[trigger] self.succs(u)[k].0 == x;
                    lemma_entries_at(self.succs(u), k);
                    assert(queue@.take(0) =~= Seq::<usize>::empty());
                    lemma_pending_ge(self, x, Seq::empty(), u, n as int);
                    assert(queue@.contains(x as usize));
                    assert(pending_in(self, x, Seq::empty(), self.len() as int) < usize::MAX);
                }
            }
        }
        let mut head: usize = 0;
        let ghost mut sd: Seq<int> = d0;
        assert(kahn_run(self, queue@, 0, sd, n as nat) == kahn_order(self));
        while head < queue.len()
            invariant
                n == self.len(),
                n <= usize::MAX,
                sd.len() == n,
                forall|v: int| 0 <= v < n && self.live(v) ==> #[trigger] in_degree@[v] == sd[v],
                kahn_run(self, queue@, head as int, sd, (n - head) as nat) == kahn_order(self),
                self.wf(),
                fit == in_degrees_fit(self),
                in_degree@.len() == n,
                head <= queue@.len(),
                queue@.no_duplicates(),
                forall|k: int| 0 <= k < queue@.len() ==> (#[trigger] queue@[k]) < n && self.live(queue@[k] as int),
                forall|v: int| 0 <= v < n ==> (self.live(v) && in_degree@[v] == 0 <==> #[trigger] queue@.contains(v as usize)),
                fit ==> forall|v: int|
                    0 <= v < n && self.live(v) ==> #[trigger] in_degree@[v] == pending_in(
                        self,
                        v,
                        queue@.take(head as int),
                        n as int,
                    ),
                fit ==> forall|i: int, j: int|
                    0 <= i < queue@.len() && 0 <= j < queue@.len() && #[trigger] has_edge(
                        self,
                        queue@[i] as int,
                        queue@[j] as int,
                    ) ==> i < j,
            decreases n - head,
        {
            proof {
                lemma_distinct_bound(queue@, n as nat);
            }
            let u = queue[head];
            let ghost done_prev = queue@.take(head as int);
            proof {
                assert(!done_prev.contains(u)) by {
                    if done_prev.contains(u) {
                        let j = choose|j: int| 0 <= j < done_prev.len() && done_prev[j] == u;
                        assert(queue@[j] == queue@[head as int]);
                    }
                }
                assert(queue@.take(head + 1) =~= done_prev.push(u));
                if fit {
                    assert forall|v: int| 0 <= v < n && self.live(v) implies #[trigger] in_degree@[v] + entries_to(
                        self.succs(u as int).take(0),
                        v,
                    ) == pending_in(self, v, done_prev, n as int) by {
                        assert(self.succs(u as int).take(0) =~= Seq::<(usize, usize)>::empty());
                    }
                }
            }
            let ghost q_s = queue@;
            let ghost sd_s = sd;
            proof {
                assert(kahn_run(self, q_s, head as int, sd_s, (n - head) as nat) == kahn_run(
                    self,
                    kahn_release(self, u as int, 0, q_s, sd_s).0,
                    head + 1,
                    kahn_release(self, u as int, 0, q_s, sd_s).1,
                    (n - head - 1) as nat,
                ));
            }
            head += 1;
            let mut k: usize = 0;
            while k < self.succ[u].len()
                invariant
                    n == self.len(),
                    n <= usize::MAX,
                    self.wf(),
                    sd.len() == n,
                    forall|v: int| 0 <= v < n && self.live(v) ==> #[trigger] in_degree@[v] == sd[v],
                    kahn_release(self, u as int, k as int, queue@, sd) == kahn_release(self, u as int, 0, q_s, sd_s),
                    fit == in_degrees_fit(self),
                    u < n,
                    self.live(u as int),
                    1 <= head <= queue@.len(),
                    queue@[head - 1] == u,
                    done_prev == queue@.take(head - 1),
                    !done_prev.contains(u),
                    in_degree@.len() == n,
                    k <= self.succs(u as int).len(),
                    queue@.no_duplicates(),
                    forall|j: int| 0 <= j < queue@.len() ==> (#[trigger] queue@[j]) < n && self.live(queue@[j] as int),
                    forall|v: int| 0 <= v < n ==> (self.live(v) && in_degree@[v] == 0 <==> #[trigger] queue@.contains(v as usize)),
                    fit ==> forall|v: int|
                        0 <= v < n && self.live(v) ==> #[trigger] in_degree@[v] + entries_to(
                            self.succs(u as int).take(k as int),
                            v,
                        ) == pending_in(self, v, done_prev, n as int),
                    fit ==> forall|i: int, j: int|
                        0 <= i < queue@.len() && 0 <= j < queue@.len() && #[trigger] has_edge(
                            self,
                            queue@[i] as int,
                            queue@[j] as int,
                        ) ==> i < j,
                decreases self.succs(u as int).len() - k,
            {
                let t = self.succ[u][k].0;
                assert(self.succs(u as int)[k as int].0 < n);
                let ghost q0 = queue@;
                let ghost deg0 = in_degree@;
                proof {
                    lemma_entries_take(self.succs(u as int), k as int, t as int);
                    lemma_entries_take_le(self.succs(u as int), k + 1, t as int);
                    if fit && self.live(t as int) {
                        lemma_pending_ge(self, t as int, done_prev, u as int, n as int);
                        assert(deg0[t as int] > 0);
                    }
                }
                if !self.nodes[t].removed && in_degree[t] > 0 {
                    proof {
                        assert(self.live(t as int));
                        assert(!q0.contains(t)) by {
                            assert(self.live(t as int) && deg0[t as int] == 0 <==> q0.contains((t as int) as usize));
                        }
                    }
                    let d = in_degree[t] - 1;
                    in_degree.set(t, d);
                    if d == 0 {
                        queue.push(t);
                    }
                    proof {
                        assert(sd[t as int] == deg0[t as int]);
                        sd = sd.update(t as int, sd[t as int] - 1);
                        assert(queue@ == (if deg0[t as int] == 1 {
                            q0.push(t)
                        } else {
                            q0
                        }));
                    }
                    proof {
                        assert forall|v: int| 0 <= v < n implies (self.live(v) && in_degree@[v] == 0 <==> #[trigger] queue@.contains(v as usize)) by {
                            if v != t {
                                assert(in_degree@[v] == deg0[v]);
                                assert(self.live(v) && deg0[v] == 0 <==> q0.contains(v as usize));
                                if q0.contains(v as usize) {
                                    let j = choose|j: int| 0 <= j < q0.len() && q0[j] == v as usize;
                                    assert(queue@[j] == q0[j]);
                                }
                                if queue@.contains(v as usize) {
                                    let j = choose|j: int| 0 <= j < queue@.len() && queue@[j] == v as usize;
                                    if j < q0.len() {
                                        assert(q0[j] == v as usize);
                                    } else {
                                        assert(queue@[j] == t);
                                    }
                                }
                            } else {
                                if d == 0 {
                                    assert(queue@[queue@.len() - 1] == t);
                                } else {
                                    assert(queue@ == q0);
                                }
                            }
                        }
                        assert(queue@.take(head - 1) =~= q0.take(head - 1));
                        assert forall|j: int| 0 <= j < queue@.len() implies (#[trigger] queue@[j]) < n && self.live(queue@[j] as int) by {
                            if j < q0.len() {
                                assert(queue@[j] == q0[j]);
                            }
                        }
                        if d == 0 {
                            assert forall|a: int, b: int| 0 <= a < queue@.len() && 0 <= b < queue@.len() && a != b implies queue@[a] != queue@[b] by {
                                if a < q0.len() && b < q0.len() {
                                    assert(q0[a] != q0[b]);
                                } else if a < q0.len() {
                                    assert(q0.contains(q0[a]));
                                } else if b < q0.len() {
                                    assert(q0.contains(q0[b]));
                                }
                            }
                        }
                        if fit {
                            assert forall|v: int| 0 <= v < n && self.live(v) implies #[trigger] in_degree@[v] + entries_to(
                                self.succs(u as int).take(k + 1),
                                v,
                            ) == pending_in(self, v, done_prev, n as int) by {
                                lemma_entries_take(self.succs(u as int), k as int, v);
                            }
                            if d == 0 {
                                assert forall|i: int, j: int|
                                    0 <= i < queue@.len() && 0 <= j < queue@.len() && #[trigger] has_edge(
                                        self,
                                        queue@[i] as int,
                                        queue@[j] as int,
                                    ) implies i < j by {
                                    if i < q0.len() && j < q0.len() {
                                        assert(queue@[i] == q0[i] && queue@[j] == q0[j]);
                                    } else if i == q0.len() && j < q0.len() {
                                        let x = q0[j] as int;
                                        assert(queue@[j] == q0[j]);
                                        assert(queue@[i] == t);
                                        let kk = choose|kk: int|
                                            0 <= kk < self.succs(t as int).len() && #[trigger] self.succs(t as int)[kk].0 == x;
                                        lemma_entries_at(self.succs(t as int), kk);
                                        assert(t != u) by {
                                            self.lemma_edges_forward();
                                            assert(edge_forward_at(self, u as int, k as int));
                                        }
                                        assert(!done_prev.push(u).contains(t)) by {
                                            if done_prev.push(u).contains(t) {
                                                let m = choose|m: int| 0 <= m < done_prev.push(u).len() && done_prev.push(u)[m] == t;
                                                if m < done_prev.len() {
                                                    assert(q0[m] == t);
                                                }
                                            }
                                        }
                                        lemma_pending_push(self, x, done_prev, u, n as int);
                                        lemma_pending_ge(self, x, done_prev.push(u), t as int, n as int);
                                        lemma_entries_take(self.succs(u as int), k as int, x);
                                        lemma_entries_take_le(self.succs(u as int), k + 1, x);
                                        assert(q0.contains(x as usize));
                                        assert(in_degree@[x] == 0);
                                    } else if i == q0.len() && j == q0.len() {
                                        let kk = choose|kk: int|
                                            0 <= kk < self.succs(t as int).len() && #[trigger] self.succs(t as int)[kk].0 == t;
                                        self.lemma_edges_forward();
                                        assert(edge_forward_at(self, t as int, kk));
                                    }
                                }
                            }
                        }
                    }
                } else {
                    proof {
                        if fit {
                            assert forall|v: int| 0 <= v < n && self.live(v) implies #[trigger] in_degree@[v] + entries_to(
                                self.succs(u as int).take(k + 1),
                                v,
                            ) == pending_in(self, v, done_prev, n as int) by {
                                lemma_entries_take(self.succs(u as int), k as int, v);
                            }
                        }
                    }
                }
                k += 1;
            }
            proof {
                assert(self.succs(u as int).take(self.succs(u as int).len() as int) =~= self.succs(u as int));
                assert(queue@.take(head as int) =~= done_prev.push(u));
                if fit {
                    assert forall|v: int| 0 <= v < n && self.live(v) implies #[trigger] in_degree@[v] == pending_in(
                        self,
                        v,
                        queue@.take(head as int),
                        n as int,
                    ) by {
                        lemma_pending_push(self, v, done_prev, u, n as int);
                    }
                }
            }
        }
        proof {
            if fit {
                assert(queue@.take(head as int) =~= queue@);
                assert forall|v: int| 0 <= v < self.len() && #[trigger] self.live(v) implies queue@.contains(v as usize) by {
                    if !queue@.contains(v as usize) {
                        assert forall|x: int| #![trigger has_unordered_pred(self, queue@, x)] unordered(self, queue@, x) implies has_unordered_pred(self, queue@, x) by {
                            assert(in_degree@[x] != 0);
                            lemma_pending_witness(self, x, queue@, n as int);
                            let u = choose|u: int|
                                0 <= u < n && self.live(u) && !queue@.contains(u as usize) && #[trigger] entries_to(
                                    self.succs(u),
                                    x,
                                ) > 0;
                            lemma_entries_witness(self.succs(u), x);
                            assert(has_edge(self, u, x));
                            assert(unordered(self, queue@, u));
                        }
                        self.lemma_edges_forward();
                        lemma_no_unordered_cycle(self, queue@, v);
                    }
                }
            }
        }
        queue
    }
}

// ── QASM emission ───────────────────────────────────────────

/// Name of wire `w` (or bit `w`): the register entry it came from, else
/// `prefix` and its number.
pub open spec fn wire_name(names: Seq<(String, Option<u64>)>, w: usize, prefix: Seq<char>) -> Seq<char> {
    if w < names.len() {
        names[w as int].0@ + match names[w as int].1 {
            Some(i) => "["@ + decimal_text(i as nat) + "]"@,
            None => seq![],
        }
    } else {
        prefix + decimal_text(w as nat)
    }
}

/// Comma-separated names of wires.
pub open spec fn wires_text(names: Seq<(String, Option<u64>)>, ws: Seq<usize>) -> Seq<char>
    decreases ws.len(),
{
    if ws.len() == 0 {
        seq![]
    } else if ws.len() == 1 {
        wire_name(names, ws[0], "q"@)
    } else {
        wires_text(names, ws.drop_last()) + ", "@ + wire_name(names, ws.last(), "q"@)
    }
}

/// Comma-separated texts of parameters.
pub open spec fn params_text(ps: Seq<Param>) -> Seq<char>
    decreases ps.len(),
{
    if ps.len() == 0 {
        seq![]
    } else if ps.len() == 1 {
        param_text(ps[0])
    } else {
        params_text(ps.drop_last()) + ", "@ + param_text(ps.last())
    }
}

pub open spec fn modifiers_text(ms: Seq<Modifier>) -> Seq<char>
    decreases ms.len(),
{
    if ms.len() == 0 {
        seq![]
    } else {
        modifiers_text(ms.drop_last()) + modifier_text(ms.last())
    }
}

/// The statement emitted for an operation (nothing for a boundary).
pub open spec fn op_line(qn: Seq<(String, Option<u64>)>, bn: Seq<(String, Option<u64>)>, op: Op) -> Seq<char> {
    match op {
        Op::Gate { name, modifiers, params, qubits } => modifiers_text(modifiers@) + name@ + (if params@.len()
            > 0 {
            "("@ + params_text(params@) + ")"@
        } else {
            seq![]
        }) + " "@ + wires_text(qn, qubits@) + ";\n"@,
        Op::Measure { qubit, bit } => (match bit {
            Some(b) => wire_name(bn, b, "c"@) + " = measure "@,
            None => "measure "@,
        }) + wire_name(qn, qubit, "q"@) + ";\n"@,
        Op::Reset { qubit } => "reset "@ + wire_name(qn, qubit, "q"@) + ";\n"@,
        Op::Barrier { qubits } => "barrier "@ + wires_text(qn, qubits@) + ";\n"@,
        Op::Delay { duration, qubits } => "delay["@ + param_text(duration) + "] "@ + wires_text(qn, qubits@)
            + ";\n"@,
        _ => seq![],
    }
}

/// The emitted lines of the nodes of `order`, each indented `depth` levels.
pub open spec fn ops_lines(dag: &CircuitDAG, order: Seq<usize>, depth: nat) -> Seq<char>
    decreases order.len(),
{
    if order.len() == 0 {
        seq![]
    } else {
        ops_lines(dag, order.drop_last(), depth) + crate::codegen::indent_text(depth) + op_line(
            dag.qubit_names_view(),
            dag.bit_names_view(),
            dag.nodes_view()[order.last() as int].op,
        )
    }
}

/// Entry `i` is the first entry named as it is.
pub open spec fn first_named(names: Seq<(String, Option<u64>)>, i: int) -> bool {
    forall|j: int| 0 <= j < i ==> (#[trigger] names[j]).0@ != names[i].0@
}

/// Number of entries named `name`.
pub open spec fn count_named(names: Seq<(String, Option<u64>)>, name: Seq<char>) -> nat
    decreases names.len(),
{
    if names.len() == 0 {
        0
    } else {
        count_named(names.drop_last(), name) + if names.last().0@ == name {
            1nat
        } else {
            0nat
        }
    }
}

/// One declaration per register, at its first entry: `kw[size] name;` for
/// an indexed register, `kw name;` for a single wire.
pub open spec fn decl_lines(names: Seq<(String, Option<u64>)>, kw: Seq<char>, k: nat) -> Seq<char>
    decreases k,
{
    if k == 0 {
        seq![]
    } else {
        let i = k - 1;
        decl_lines(names, kw, (k - 1) as nat) + if first_named(names, i) {
            match names[i].1 {
                Some(_) => kw + "["@ + decimal_text(count_named(names, names[i].0@)) + "] "@ + names[i].0@
                    + ";\n"@,
                None => kw + " "@ + names[i].0@ + ";\n"@,
            }
        } else {
            seq![]
        }
    }
}

/// Live operation nodes (no boundaries), distinct.
pub open spec fn live_op_order(dag: &CircuitDAG, order: Seq<usize>) -> bool {
    &&& distinct_live(dag, order)
    &&& forall|k: int| 0 <= k < order.len() ==> is_live_op(dag.nodes_view()[#[trigger] order[k] as int])
}

/// An order in which the operations of a circuit are emitted: distinct live
/// operations; when no in-degree reaches the largest `usize`, all of them,
/// with every edge between them pointing forward.
pub open spec fn emission_order(dag: &CircuitDAG, order: Seq<usize>) -> bool {
    &&& live_op_order(dag, order)
    &&& in_degrees_fit(dag) ==> forall|v: int|
        0 <= v < dag.len() && #[trigger] is_live_op(dag.nodes_view()[v]) ==> order.contains(v as usize)
    &&& in_degrees_fit(dag) ==> forall|i: int, j: int|
        0 <= i < order.len() && 0 <= j < order.len() && #[trigger] has_edge(dag, order[i] as int, order[j] as int)
            ==> i < j
}

fn push_wire_name(out: &mut String, names: &Vec<(String, Option<u64>)>, w: usize, prefix: &str)
    ensures
        final(out)@ == old(out)@ + wire_name(names@, w, prefix@),
{
    if w < names.len() {
        out.append(names[w].0.as_str());
        if let Some(i) = names[w].1 {
            out.append("[");
            push_u64(out, i);
            out.append("]");
        }
    } else {
        out.append(prefix);
        push_usize(out, w);
    }
    proof {
        assert(final(out)@ =~= old(out)@ + wire_name(names@, w, prefix@));
    }
}

fn push_wires(out: &mut String, names: &Vec<(String, Option<u64>)>, ws: &Vec<usize>)
    ensures
        final(out)@ == old(out)@ + wires_text(names@, ws@),
{
    let mut i: usize = 0;
    proof {
        reveal_strlit("q");
    }
    while i < ws.len()
        invariant
            i <= ws@.len(),
            out@ == old(out)@ + wires_text(names@, ws@.take(i as int)),
        decreases ws@.len() - i,
    {
        assert(ws@.take(i + 1).drop_last() =~= ws@.take(i as int));
        if i > 0 {
            out.append(", ");
        }
        push_wire_name(out, names, ws[i], "q");
        proof {
            if i == 0 {
                assert(ws@.take(1) =~= seq![ws@[0]]);
            }
            assert(out@ =~= old(out)@ + wires_text(names@, ws@.take(i + 1)));
        }
        i += 1;
    }
    assert(ws@.take(ws@.len() as int) =~= ws@);
}

fn push_params(out: &mut String, ps: &Vec<Param>)
    ensures
        final(out)@ == old(out)@ + params_text(ps@),
{
    let mut i: usize = 0;
    while i < ps.len()
        invariant
            i <= ps@.len(),
            out@ == old(out)@ + params_text(ps@.take(i as int)),
        decreases ps@.len() - i,
    {
        assert(ps@.take(i + 1).drop_last() =~= ps@.take(i as int));
        if i > 0 {
            out.append(", ");
        }
        ps[i].push_text(out);
        proof {
            if i == 0 {
                assert(ps@.take(1) =~= seq![ps@[0]]);
            }
            assert(out@ =~= old(out)@ + params_text(ps@.take(i + 1)));
        }
        i += 1;
    }
    assert(ps@.take(ps@.len() as int) =~= ps@);
}

fn push_modifiers(out: &mut String, ms: &Vec<Modifier>)
    ensures
        final(out)@ == old(out)@ + modifiers_text(ms@),
{
    let mut i: usize = 0;
    while i < ms.len()
        invariant
            i <= ms@.len(),
            out@ == old(out)@ + modifiers_text(ms@.take(i as int)),
        decreases ms@.len() - i,
    {
        assert(ms@.take(i + 1).drop_last() =~= ms@.take(i as int));
        ms[i].push_text(out);
        assert(out@ =~= old(out)@ + modifiers_text(ms@.take(i + 1)));
        i += 1;
    }
    assert(ms@.take(ms@.len() as int) =~= ms@);
}

fn push_op_line(out: &mut String, qn: &Vec<(String, Option<u64>)>, bn: &Vec<(String, Option<u64>)>, op: &Op)
    ensures
        final(out)@ == old(out)@ + op_line(qn@, bn@, *op),
{
    proof {
        reveal_strlit("q");
        reveal_strlit("c");
    }
    match op {
        Op::Gate { name, modifiers, params, qubits } => {
            push_modifiers(out, modifiers);
            out.append(name.as_str());
            if params.len() > 0 {
                out.append("(");
                push_params(out, params);
                out.append(")");
            }
            out.append(" ");
            push_wires(out, qn, qubits);
            out.append(";\n");
        },
        Op::Measure { qubit, bit } => {
            if let Some(b) = bit {
                push_wire_name(out, bn, *b, "c");
                out.append(" = measure ");
            } else {
                out.append("measure ");
            }
            push_wire_name(out, qn, *qubit, "q");
            out.append(";\n");
        },
        Op::Reset { qubit } => {
            out.append("reset ");
            push_wire_name(out, qn, *qubit, "q");
            out.append(";\n");
        },
        Op::Barrier { qubits } => {
            out.append("barrier ");
            push_wires(out, qn, qubits);
            out.append(";\n");
        },
        Op::Delay { duration, qubits } => {
            out.append("delay[");
            duration.push_text(out);
            out.append("] ");
            push_wires(out, qn, qubits);
            out.append(";\n");
        },
        _ => {},
    }
    proof {
        assert(final(out)@ =~= old(out)@ + op_line(qn@, bn@, *op));
    }
}

fn names_equal(a: &(String, Option<u64>), b: &(String, Option<u64>)) -> (r: bool)
    ensures
        r == (a.0@ == b.0@),
{
    str_eq(a.0.as_str(), b.0.as_str())
}

/// Append one declaration per register of `names`.
fn push_decls(out: &mut String, names: &Vec<(String, Option<u64>)>, kw: &str)
    ensures
        final(out)@ == old(out)@ + decl_lines(names@, kw@, names@.len()),
{
    let mut i: usize = 0;
    while i < names.len()
        invariant
            i <= names@.len(),
            out@ == old(out)@ + decl_lines(names@, kw@, i as nat),
        decreases names@.len() - i,
    {
        let mut first = true;
        let mut j: usize = 0;
        while j < i
            invariant
                j <= i,
                i < names@.len(),
                first == (forall|m: int| 0 <= m < j ==> (#[trigger] names@[m]).0@ != names@[i as int].0@),
            decreases i - j,
        {
            if names_equal(&names[j], &names[i]) {
                first = false;
            }
            j += 1;
        }
        if first {
            match names[i].1 {
                Some(_) => {
                    let mut count: usize = 0;
                    let mut k: usize = 0;
                    while k < names.len()
                        invariant
                            k <= names@.len(),
                            i < names@.len(),
                            count == count_named(names@.take(k as int), names@[i as int].0@),
                            count <= k,
                        decreases names@.len() - k,
                    {
                        assert(names@.take(k + 1).drop_last() =~= names@.take(k as int));
                        if names_equal(&names[k], &names[i]) {
                            count += 1;
                        }
                        k += 1;
                    }
                    assert(names@.take(names@.len() as int) =~= names@);
                    out.append(kw);
                    out.append("[");
                    push_usize(out, count);
                    out.append("] ");
                    out.append(names[i].0.as_str());
                    out.append(";\n");
                },
                None => {
                    out.append(kw);
                    out.append(" ");
                    out.append(names[i].0.as_str());
                    out.append(";\n");
                },
            }
        }
        proof {
            assert(out@ =~= old(out)@ + decl_lines(names@, kw@, (i + 1) as nat));
        }
        i += 1;
    }
}

impl CircuitDAG {
    /// Live gate nodes in dependency order.
    pub fn gates_topo(&self) -> (r: Vec<NodeId>)
        requires
            self.wf(),
        ensures
            distinct_live(self, r@),
            forall|k: int| 0 <= k < r@.len() ==> is_live_gate(self.nodes_view()[#[trigger] r@[k] as int]),
            in_degrees_fit(self) ==> forall|v: int|
                0 <= v < self.len() && #[trigger] is_live_gate(self.nodes_view()[v]) ==> r@.contains(v as usize),
            in_degrees_fit(self) ==> forall|i: int, j: int|
                0 <= i < r@.len() && 0 <= j < r@.len() && #[trigger] has_edge(self, r@[i] as int, r@[j] as int) ==> i < j,
    {
        let order = self.topo_order();
        let ghost fit = in_degrees_fit(self);
        let mut r: Vec<NodeId> = Vec::new();
        let ghost mut pos: Seq<int> = Seq::empty();
        let mut i: usize = 0;
        while i < order.len()
            invariant
                i <= order@.len(),
                distinct_live(self, order@),
                fit ==> complete_topological(self, order@),
                fit == in_degrees_fit(self),
                distinct_live(self, r@),
                forall|k: int| 0 <= k < r@.len() ==> is_live_gate(self.nodes_view()[#[trigger] r@[k] as int]),
                pos.len() == r@.len(),
                forall|k: int| 0 <= k < r@.len() ==> 0 <= #[trigger] pos[k] < i && order@[pos[k]] == r@[k],
                forall|a: int, b: int| 0 <= a < b < pos.len() ==> #[trigger] pos[a] < #[trigger] pos[b],
                forall|m: int|
                    0 <= m < i && is_live_gate(self.nodes_view()[#[trigger] order@[m] as int]) ==> r@.contains(order@[m]),
            decreases order@.len() - i,
        {
            let id = order[i];
            let ghost r0 = r@;
            if !self.nodes[id].removed && self.nodes[id].op.is_gate() {
                proof {
                    assert forall|k: int| 0 <= k < r@.len() implies r@[k] != id by {
                        assert(order@[pos[k]] != order@[i as int]);
                    }
                }
                r.push(id);
                proof {
                    pos = pos.push(i as int);
                }
            }
            proof {
                assert forall|k: int| 0 <= k < r@.len() implies 0 <= #[trigger] pos[k] < i + 1 && order@[pos[k]] == r@[k] by {
                    if k < r0.len() {
                        assert(r@[k] == r0[k]);
                    }
                }
                assert forall|m: int|
                    0 <= m < i + 1 && is_live_gate(self.nodes_view()[#[trigger] order@[m] as int]) implies r@.contains(order@[m]) by {
                    if m < i {
                        let k = choose|k: int| 0 <= k < r0.len() && r0[k] == order@[m];
                        assert(r@[k] == r0[k]);
                    } else {
                        assert(r@[r@.len() - 1] == id);
                    }
                }
            }
            i += 1;
        }
        proof {
            if fit {
                assert forall|v: int| 0 <= v < self.len() && #[trigger] is_live_gate(self.nodes_view()[v]) implies r@.contains(v as usize) by {
                    assert(self.live(v));
                    assert(order@.contains(v as usize));
                    let m = choose|m: int| 0 <= m < order@.len() && order@[m] == v as usize;
                    assert(is_live_gate(self.nodes_view()[order@[m] as int]));
                }
                assert forall|a: int, b: int|
                    0 <= a < r@.len() && 0 <= b < r@.len() && #[trigger] has_edge(self, r@[a] as int, r@[b] as int) implies a < b by {
                    assert(has_edge(self, order@[pos[a]] as int, order@[pos[b]] as int));
                    if b < a {
                        assert(pos[b] < pos[a]);
                    } else if a == b {
                        assert(pos[a] == pos[b]);
                    }
                }
            }
        }
        r
    }

    /// Live operation nodes (everything but boundaries) in dependency order.
    pub fn ops_topo(&self) -> (r: Vec<NodeId>)
        requires
            self.wf(),
        ensures
            live_op_order(self, r@),
            distinct_live(self, r@),
            forall|k: int| 0 <= k < r@.len() ==> is_live_op(self.nodes_view()[#[trigger] r@[k] as int]),
            in_degrees_fit(self) ==> forall|v: int|
                0 <= v < self.len() && #[trigger] is_live_op(self.nodes_view()[v]) ==> r@.contains(v as usize),
            in_degrees_fit(self) ==> forall|i: int, j: int|
                0 <= i < r@.len() && 0 <= j < r@.len() && #[trigger] has_edge(self, r@[i] as int, r@[j] as int) ==> i < j,
            r@ == emitted_order(self),
    {
        let order = self.topo_order();
        let ghost fit = in_degrees_fit(self);
        let mut r: Vec<NodeId> = Vec::new();
        let ghost mut pos: Seq<int> = Seq::empty();
        let mut i: usize = 0;
        while i < order.len()
            invariant
                i <= order@.len(),
                order@ == kahn_order(self),
                r@ == ops_of(self, order@.take(i as int)),
                distinct_live(self, order@),
                fit ==> complete_topological(self, order@),
                fit == in_degrees_fit(self),
                distinct_live(self, r@),
                forall|k: int| 0 <= k < r@.len() ==> is_live_op(self.nodes_view()[#[trigger] r@[k] as int]),
                pos.len() == r@.len(),
                forall|k: int| 0 <= k < r@.len() ==> 0 <= #[trigger] pos[k] < i && order@[pos[k]] == r@[k],
                forall|a: int, b: int| 0 <= a < b < pos.len() ==> #[trigger] pos[a] < #[trigger] pos[b],
                forall|m: int|
                    0 <= m < i && is_live_op(self.nodes_view()[#[trigger] order@[m] as int]) ==> r@.contains(order@[m]),
            decreases order@.len() - i,
        {
            let id = order[i];
            let ghost r0 = r@;
            proof {
                assert(order@.take(i + 1).drop_last() =~= order@.take(i as int));
                assert(order@.take(i + 1).last() == id);
            }
            if !self.nodes[id].removed && !self.nodes[id].op.is_boundary() {
                proof {
                    assert forall|k: int| 0 <= k < r@.len() implies r@[k] != id by {
                        assert(order@[pos[k]] != order@[i as int]);
                    }
                }
                r.push(id);
                proof {
                    pos = pos.push(i as int);
                }
            }
            proof {
                assert forall|k: int| 0 <= k < r@.len() implies 0 <= #[trigger] pos[k] < i + 1 && order@[pos[k]] == r@[k] by {
                    if k < r0.len() {
                        assert(r@[k] == r0[k]);
                    }
                }
                assert forall|m: int|
                    0 <= m < i + 1 && is_live_op(self.nodes_view()[#[trigger] order@[m] as int]) implies r@.contains(order@[m]) by {
                    if m < i {
                        let k = choose|k: int| 0 <= k < r0.len() && r0[k] == order@[m];
                        assert(r@[k] == r0[k]);
                    } else {
                        assert(r@[r@.len() - 1] == id);
                    }
                }
            }
            i += 1;
        }
        proof {
            assert(order@.take(order@.len() as int) =~= order@);
            if fit {
                assert forall|v: int| 0 <= v < self.len() && #[trigger] is_live_op(self.nodes_view()[v]) implies r@.contains(v as usize) by {
                    assert(self.live(v));
                    assert(order@.contains(v as usize));
                    let m = choose|m: int| 0 <= m < order@.len() && order@[m] == v as usize;
                    assert(is_live_op(self.nodes_view()[order@[m] as int]));
                }
                assert forall|a: int, b: int|
                    0 <= a < r@.len() && 0 <= b < r@.len() && #[trigger] has_edge(self, r@[a] as int, r@[b] as int) implies a < b by {
                    assert(has_edge(self, order@[pos[a]] as int, order@[pos[b]] as int));
                    if b < a {
                        assert(pos[b] < pos[a]);
                    } else if a == b {
                        assert(pos[a] == pos[b]);
                    }
                }
            }
        }
        r
    }

    /// Append the lines of the operations in `order`, each indented `depth`
    /// levels.
    pub fn emit_ops_in(&self, out: &mut String, order: &Vec<NodeId>, depth: usize)
        requires
            forall|k: int| 0 <= k < order@.len() ==> #[trigger] order@[k] < self.len(),
        ensures
            final(out)@ == old(out)@ + ops_lines(self, order@, depth as nat),
    {
        let mut i: usize = 0;
        while i < order.len()
            invariant
                i <= order@.len(),
                forall|k: int| 0 <= k < order@.len() ==> #[trigger] order@[k] < self.len(),
                out@ == old(out)@ + ops_lines(self, order@.take(i as int), depth as nat),
            decreases order@.len() - i,
        {
            assert(order@.take(i + 1).drop_last() =~= order@.take(i as int));
            indent(out, depth);
            push_op_line(out, &self.qubit_names, &self.bit_names, &self.nodes[order[i]].op);
            assert(out@ =~= old(out)@ + ops_lines(self, order@.take(i + 1), depth as nat));
            i += 1;
        }
        assert(order@.take(order@.len() as int) =~= order@);
    }

    /// Append every live operation, in dependency order, indented `depth`
    /// levels.
    pub fn emit_ops_qasm(&self, out: &mut String, depth: usize)
        requires
            self.wf(),
        ensures
            emission_order(self, emitted_order(self)),
            final(out)@ == old(out)@ + ops_lines(self, emitted_order(self), depth as nat),
            exists|order: Seq<usize>|
                emission_order(self, order) && final(out)@ == old(out)@ + ops_lines(self, order, depth as nat),
    {
        let order = self.ops_topo();
        self.emit_ops_in(out, &order, depth);
        assert(emission_order(self, order@));
    }

    /// OpenQASM 3 for the circuit: the header, one declaration per register,
    /// then every live operation in dependency order.
    pub fn emit_qasm(&self) -> (r: String)
        requires
            self.wf(),
        ensures
            r@ == "OPENQASM 3;\n"@ + decl_lines(self.qubit_names_view(), "qubit"@, self.qubit_names_view().len())
                + decl_lines(self.bit_names_view(), "bit"@, self.bit_names_view().len()) + ops_lines(
                self,
                emitted_order(self),
                0,
            ),
            exists|order: Seq<usize>|
                emission_order(self, order) && r@ == "OPENQASM 3;\n"@ + decl_lines(
                    self.qubit_names_view(),
                    "qubit"@,
                    self.qubit_names_view().len(),
                ) + decl_lines(self.bit_names_view(), "bit"@, self.bit_names_view().len()) + ops_lines(
                    self,
                    order,
                    0,
                ),
    {
        let mut out = String::new();
        out.append("OPENQASM 3;\n");
        push_decls(&mut out, &self.qubit_names, "qubit");
        push_decls(&mut out, &self.bit_names, "bit");
        let ghost before = out@;
        self.emit_ops_qasm(&mut out, 0);
        proof {
            let order = emitted_order(self);
            assert(out@ =~= "OPENQASM 3;\n"@ + decl_lines(self.qubit_names@, "qubit"@, self.qubit_names@.len())
                + decl_lines(self.bit_names@, "bit"@, self.bit_names@.len()) + ops_lines(self, order, 0));
        }
        out
    }
}

/// Where a node stands in the order in which levels are defined: its id,
/// after every other node for an output boundary.
pub open spec fn level_rank(dag: &CircuitDAG, v: int) -> int {
    if node_is_out(dag.nodes_view(), v) {
        dag.len() + v
    } else {
        v
    }
}

/// 1 for a gate node, 0 for any other.
pub open spec fn gate_weight(dag: &CircuitDAG, u: int) -> nat {
    if dag.nodes_view()[u].op is Gate {
        1
    } else {
        0
    }
}

/// The most gates on a path of live nodes that ends just before `v`.
pub open spec fn level(dag: &CircuitDAG, v: int) -> nat
    decreases level_rank(dag, v), 1int, 0int,
    when edges_forward(dag) && 0 <= v < dag.len()
{
    level_below(dag, v, dag.len() as int)
}

/// The most gates on a path of live nodes ending in an edge from a node
/// below `hi` into `v`.
pub open spec fn level_below(dag: &CircuitDAG, v: int, hi: int) -> nat
    decreases level_rank(dag, v), 0int, hi,
    when edges_forward(dag) && 0 <= v < dag.len() && hi <= dag.len()
{
    if hi <= 0 {
        0
    } else {
        let u = hi - 1;
        let rest = level_below(dag, v, hi - 1);
        if dag.live(u) && has_edge(dag, u, v) {
            proof {
                let k = choose|k: int| 0 <= k < dag.succs(u).len() && #[trigger] dag.succs(u)[k].0 == v;
                assert(edge_forward_at(dag, u, k));
            }
            let here = level(dag, u) + gate_weight(dag, u);
            if here > rest {
                here
            } else {
                rest
            }
        } else {
            rest
        }
    }
}

/// The largest level of a live node below `hi`.
pub open spec fn max_level(dag: &CircuitDAG, hi: int) -> nat
    decreases hi,
{
    if hi <= 0 {
        0
    } else {
        let rest = max_level(dag, hi - 1);
        if dag.live(hi - 1) && level(dag, hi - 1) > rest {
            level(dag, hi - 1)
        } else {
            rest
        }
    }
}

/// The depth of a circuit: the most gates on a path of live nodes.
pub open spec fn circuit_depth(dag: &CircuitDAG) -> nat {
    max_level(dag, dag.len() as int)
}

proof fn lemma_level_below_ge(dag: &CircuitDAG, v: int, hi: int, w: int)
    requires
        edges_forward(dag),
        0 <= v < dag.len(),
        hi <= dag.len(),
        0 <= w < hi,
        dag.live(w),
        has_edge(dag, w, v),
    ensures
        level_below(dag, v, hi) >= level(dag, w) + gate_weight(dag, w),
    decreases hi,
{
    if w < hi - 1 {
        lemma_level_below_ge(dag, v, hi - 1, w);
    }
}

proof fn lemma_level_below_witness(dag: &CircuitDAG, v: int, hi: int)
    requires
        edges_forward(dag),
        0 <= v < dag.len(),
        hi <= dag.len(),
    ensures
        level_below(dag, v, hi) == 0 || exists|w: int|
            0 <= w < hi && dag.live(w) && has_edge(dag, w, v) && level_below(dag, v, hi) == #[trigger] level(dag, w)
                + gate_weight(dag, w),
    decreases hi,
{
    if hi > 0 {
        lemma_level_below_witness(dag, v, hi - 1);
        let u = hi - 1;
        if dag.live(u) && has_edge(dag, u, v) && level(dag, u) + gate_weight(dag, u) > level_below(dag, v, hi - 1) {
            assert(level_below(dag, v, hi) == level(dag, u) + gate_weight(dag, u));
        } else if level_below(dag, v, hi - 1) > 0 {
            let w = choose|w: int|
                0 <= w < hi - 1 && dag.live(w) && has_edge(dag, w, v) && level_below(dag, v, hi - 1)
                    == #[trigger] level(dag, w) + gate_weight(dag, w);
            assert(level_below(dag, v, hi) == level_below(dag, v, hi - 1));
            assert(level(dag, w) + gate_weight(dag, w) == level_below(dag, v, hi));
        }
    }
}

/// A level is at most the node's rank among the nodes with successors.
proof fn lemma_level_bound(dag: &CircuitDAG, v: int)
    requires
        edges_forward(dag),
        0 <= v < dag.len(),
    ensures
        level(dag, v) <= (if node_is_out(dag.nodes_view(), v) {
            dag.len() as int
        } else {
            v
        }),
    decreases level_rank(dag, v),
{
    lemma_level_below_witness(dag, v, dag.len() as int);
    if level(dag, v) > 0 {
        let w = choose|w: int|
            0 <= w < dag.len() && dag.live(w) && has_edge(dag, w, v) && level_below(dag, v, dag.len() as int)
                == #[trigger] level(dag, w) + gate_weight(dag, w);
        let k = choose|k: int| 0 <= k < dag.succs(w).len() && #[trigger] dag.succs(w)[k].0 == v;
        assert(edge_forward_at(dag, w, k));
        lemma_level_bound(dag, w);
    }
}

/// The most gates on a path into `v` whose last edge leaves a node of `order`.
pub open spec fn level_via(dag: &CircuitDAG, v: int, order: Seq<usize>) -> nat
    decreases order.len(),
{
    if order.len() == 0 {
        0
    } else {
        let u = order.last() as int;
        let rest = level_via(dag, v, order.drop_last());
        if has_edge(dag, u, v) && level(dag, u) + gate_weight(dag, u) > rest {
            level(dag, u) + gate_weight(dag, u)
        } else {
            rest
        }
    }
}

proof fn lemma_via_le(dag: &CircuitDAG, v: int, order: Seq<usize>)
    requires
        edges_forward(dag),
        0 <= v < dag.len(),
        forall|k: int| 0 <= k < order.len() ==> #[trigger] order[k] < dag.len() && dag.live(order[k] as int),
    ensures
        level_via(dag, v, order) <= level(dag, v),
    decreases order.len(),
{
    if order.len() > 0 {
        assert forall|k: int| 0 <= k < order.drop_last().len() implies #[trigger] order.drop_last()[k] < dag.len()
            && dag.live(order.drop_last()[k] as int) by {
            assert(order.drop_last()[k] == order[k]);
        }
        lemma_via_le(dag, v, order.drop_last());
        let u = order.last() as int;
        assert(order[order.len() - 1] == order.last());
        if has_edge(dag, u, v) {
            lemma_level_below_ge(dag, v, dag.len() as int, u);
        }
    }
}

proof fn lemma_via_ge(dag: &CircuitDAG, v: int, order: Seq<usize>, p: int)
    requires
        0 <= p < order.len(),
        has_edge(dag, order[p] as int, v),
    ensures
        level_via(dag, v, order) >= level(dag, order[p] as int) + gate_weight(dag, order[p] as int),
    decreases order.len(),
{
    if p < order.len() - 1 {
        assert(order.drop_last()[p] == order[p]);
        lemma_via_ge(dag, v, order.drop_last(), p);
    }
}

/// When every live node with an edge into `v` is in `order`, the paths
/// through `order` give the level of `v`.
proof fn lemma_via_complete(dag: &CircuitDAG, v: int, order: Seq<usize>)
    requires
        edges_forward(dag),
        0 <= v < dag.len(),
        dag.len() <= usize::MAX,
        forall|k: int| 0 <= k < order.len() ==> #[trigger] order[k] < dag.len() && dag.live(order[k] as int),
        forall|w: int| 0 <= w < dag.len() && dag.live(w) && #[trigger] has_edge(dag, w, v) ==> order.contains(w as usize),
    ensures
        level_via(dag, v, order) == level(dag, v),
{
    lemma_via_le(dag, v, order);
    lemma_level_below_witness(dag, v, dag.len() as int);
    if level(dag, v) > 0 {
        let w = choose|w: int|
            0 <= w < dag.len() && dag.live(w) && has_edge(dag, w, v) && level_below(dag, v, dag.len() as int)
                == #[trigger] level(dag, w) + gate_weight(dag, w);
        assert(order.contains(w as usize));
        let p = choose|p: int| 0 <= p < order.len() && order[p] == w as usize;
        assert(order[p] as int == w);
        lemma_via_ge(dag, v, order, p);
    }
}

proof fn lemma_no_live_gates(nodes: Seq<DAGNode>, i: int)
    requires
        count_gates(nodes) == 0,
        0 <= i < nodes.len(),
    ensures
        !is_live_gate(nodes[i]),
    decreases nodes.len(),
{
    if i < nodes.len() - 1 {
        assert(nodes.drop_last()[i] == nodes[i]);
        lemma_no_live_gates(nodes.drop_last(), i);
    }
}

impl CircuitDAG {
    /// Circuit depth: the most gates on a path of live nodes. Exact when no
    /// in-degree reaches the largest `usize`.
    #[verifier::rlimit(80)]
    pub fn depth(&self) -> (r: usize)
        requires
            self.wf(),
        ensures
            self.live_gates() == 0 ==> r == 0,
            in_degrees_fit(self) ==> r == circuit_depth(self),
    {
        let n = self.nodes.len();
        let order = self.topo_order();
        let ghost fit = in_degrees_fit(self);
        proof {
            self.lemma_edges_forward();
            self.lemma_same_frame_refl();
        }
        let mut dist: Vec<usize> = vec![0usize; n];
        let mut i: usize = 0;
        while i < order.len()
            invariant
                n == self.len(),
                n <= usize::MAX,
                self.wf(),
                edges_forward(self),
                fit == in_degrees_fit(self),
                distinct_live(self, order@),
                fit ==> complete_topological(self, order@),
                dist@.len() == n,
                i <= order@.len(),
                self.live_gates() == 0 ==> forall|k: int| 0 <= k < n ==> #[trigger] dist@[k] == 0,
                forall|v: int| 0 <= v < n && !self.live(v) ==> #[trigger] dist@[v] == 0,
                fit ==> forall|v: int|
                    0 <= v < n && self.live(v) ==> #[trigger] dist@[v] == level_via(self, v, order@.take(i as int)),
            decreases order@.len() - i,
        {
            let id = order[i];
            let d = dist[id];
            let increment: usize = if self.nodes[id].op.is_gate() {
                1
            } else {
                0
            };
            proof {
                assert(self.live(order@[i as int] as int));
                if self.live_gates() == 0 {
                    lemma_no_live_gates(self.nodes_view(), id as int);
                    assert(increment == 0);
                }
                assert(increment == gate_weight(self, id as int));
                assert forall|k: int| 0 <= k < order@.take(i as int).len() implies #[trigger] order@.take(i as int)[k] < n
                    && self.live(order@.take(i as int)[k] as int) by {
                    assert(order@.take(i as int)[k] == order@[k]);
                    assert(self.live(order@[k] as int));
                }
                if fit {
                    assert forall|w: int| 0 <= w < n && self.live(w) && #[trigger] has_edge(self, w, id as int) implies order@.take(
                        i as int,
                    ).contains(w as usize) by {
                        assert(order@.contains(w as usize));
                        let p = choose|p: int| 0 <= p < order@.len() && order@[p] == w as usize;
                        assert(has_edge(self, order@[p] as int, order@[i as int] as int));
                        assert(order@.take(i as int)[p] == w as usize);
                    }
                    lemma_via_complete(self, id as int, order@.take(i as int));
                    assert(d == level(self, id as int));
                }
                assert(order@.take(i + 1).drop_last() =~= order@.take(i as int));
                assert(order@.take(i + 1).last() == id);
            }
            let ghost dist0 = dist@;
            let mut k: usize = 0;
            while k < self.succ[id].len()
                invariant
                    n == self.len(),
                    n <= usize::MAX,
                    self.wf(),
                    edges_forward(self),
                    fit == in_degrees_fit(self),
                    id < n,
                    self.live(id as int),
                    dist@.len() == n,
                    k <= self.succs(id as int).len(),
                    increment == gate_weight(self, id as int),
                    self.live_gates() == 0 ==> increment == 0 && d == 0,
                    self.live_gates() == 0 ==> forall|j: int| 0 <= j < n ==> #[trigger] dist@[j] == 0,
                    forall|v: int| 0 <= v < n && !self.live(v) ==> #[trigger] dist@[v] == 0,
                    fit ==> d == level(self, id as int),
                    fit ==> forall|v: int|
                        0 <= v < n && self.live(v) ==> #[trigger] dist@[v] == (if entries_to(
                            self.succs(id as int).take(k as int),
                            v,
                        ) > 0 && level(self, id as int) + gate_weight(self, id as int) > dist0[v] {
                            level(self, id as int) + gate_weight(self, id as int)
                        } else {
                            dist0[v] as nat
                        }),
                decreases self.succs(id as int).len() - k,
            {
                let t = self.succ[id][k].0;
                assert(self.succs(id as int)[k as int].0 < n);
                let ghost dk = dist@;
                proof {
                    assert(edge_forward_at(self, id as int, k as int));
                    if fit {
                        lemma_level_bound(self, id as int);
                    }
                }
                if !self.nodes[t].removed {
                    let new_d = d.saturating_add(increment);
                    if new_d > dist[t] {
                        dist.set(t, new_d);
                    }
                }
                proof {
                    if fit {
                        assert forall|v: int| 0 <= v < n && self.live(v) implies #[trigger] dist@[v] == (if entries_to(
                            self.succs(id as int).take(k + 1),
                            v,
                        ) > 0 && level(self, id as int) + gate_weight(self, id as int) > dist0[v] {
                            level(self, id as int) + gate_weight(self, id as int)
                        } else {
                            dist0[v] as nat
                        }) by {
                            lemma_entries_take(self.succs(id as int), k as int, v);
                        }
                    }
                }
                k += 1;
            }
            proof {
                if fit {
                    assert(self.succs(id as int).take(self.succs(id as int).len() as int) =~= self.succs(id as int));
                    assert forall|v: int| 0 <= v < n && self.live(v) implies #[trigger] dist@[v] == level_via(
                        self,
                        v,
                        order@.take(i + 1),
                    ) by {
                        if entries_to(self.succs(id as int), v) > 0 {
                            lemma_entries_witness(self.succs(id as int), v);
                            assert(has_edge(self, id as int, v));
                        }
                        if has_edge(self, id as int, v) {
                            let kk = choose|kk: int|
                                0 <= kk < self.succs(id as int).len() && #[trigger] self.succs(id as int)[kk].0 == v;
                            lemma_entries_at(self.succs(id as int), kk);
                        }
                    }
                }
            }
            i += 1;
        }
        proof {
            if fit {
                assert(order@.take(order@.len() as int) =~= order@);
                assert forall|v: int| 0 <= v < n && self.live(v) implies #[trigger] dist@[v] == level(self, v) by {
                    assert forall|k: int| 0 <= k < order@.len() implies #[trigger] order@[k] < n && self.live(
                        order@[k] as int,
                    ) by {
                        assert(self.live(order@[k] as int));
                    }
                    assert forall|w: int| 0 <= w < n && self.live(w) && #[trigger] has_edge(self, w, v) implies order@.contains(
                        w as usize,
                    ) by {
                        assert(self.live(w));
                    }
                    lemma_via_complete(self, v, order@);
                }
            }
        }
        let mut best: usize = 0;
        let mut j: usize = 0;
        while j < dist.len()
            invariant
                n == self.len(),
                edges_forward(self),
                fit == in_degrees_fit(self),
                dist@.len() == n,
                j <= n,
                self.live_gates() == 0 ==> best == 0,
                self.live_gates() == 0 ==> forall|k: int| 0 <= k < n ==> #[trigger] dist@[k] == 0,
                forall|v: int| 0 <= v < n && !self.live(v) ==> #[trigger] dist@[v] == 0,
                fit ==> forall|v: int| 0 <= v < n && self.live(v) ==> #[trigger] dist@[v] == level(self, v),
                fit ==> best == max_level(self, j as int),
            decreases n - j,
        {
            if dist[j] > best {
                best = dist[j];
            }
            proof {
                if fit {
                    if !self.live(j as int) {
                        assert(dist@[j as int] == 0);
                    }
                }
            }
            j += 1;
        }
        best
    }
}

proof fn lemma_first_on_wire_push(v: Seq<(usize, usize)>, x: (usize, usize), w: usize)
    ensures
        first_on_wire(v.push(x), w) == match first_on_wire(v, w) {
            Some(t) => Some(t),
            None => if x.1 == w {
                Some(x.0)
            } else {
                None
            },
        },
    decreases v.len(),
{
    if v.len() > 0 {
        assert(v.push(x)[0] == v[0]);
        assert(v.push(x).drop_first() =~= v.drop_first().push(x));
        lemma_first_on_wire_push(v.drop_first(), x, w);
    } else {
        assert(v.push(x)[0] == x);
        assert(v.push(x).drop_first() =~= Seq::<(usize, usize)>::empty());
        assert(first_on_wire(Seq::<(usize, usize)>::empty(), w) is None);
        assert(first_on_wire(v, w) is None);
    }
}

/// Removing a node `id` whose only incoming edge is `p --w--> id` leaves
/// `p` followed on `w` by the node that followed `id`, and that node
/// preceded on `w` by `p` (when neither had another edge on `w`).
pub proof fn law_remove_splices_wire(e: Edges, id: usize, p: usize, s: usize, w: usize)
    requires
        id < e.0.len(),
        e.0.len() == e.1.len(),
        p < e.0.len(),
        s < e.0.len(),
        p != id,
        s != id,
        e.1[id as int] == seq![(p, w)],
        first_on_wire(e.0[id as int], w) == Some(s),
        first_on_wire(without_edge(e.0[p as int], id, w), w) is None,
        first_on_wire(without_edge(e.1[s as int], id, w), w) is None,
    ensures
        first_on_wire(remove_spec(e, id).0[p as int], w) == Some(s),
        first_on_wire(remove_spec(e, id).1[s as int], w) == Some(p),
{
    let pe = e.1[id as int];
    assert(pe.drop_last() =~= Seq::<(usize, usize)>::empty());
    let r = splice_all((e.0, e.1), id, e.0[id as int], pe);
    assert(splice_all((e.0, e.1), id, e.0[id as int], pe.drop_last()) == (e.0, e.1));
    assert(pe.last() == (p, w));
    assert(r == splice_step((e.0, e.1), id, e.0[id as int], (p, w)));
    lemma_first_on_wire_push(without_edge(e.0[p as int], id, w), (s, w), w);
    if s == p {
        lemma_first_on_wire_push(without_edge(e.1[s as int], id, w), (p, w), w);
    } else {
        lemma_first_on_wire_push(without_edge(e.1[s as int], id, w), (p, w), w);
    }
}

impl CircuitDAG {
    /// Record the register names used to print wires and bits.
    pub fn set_names(&mut self, qubit_names: Vec<(String, Option<u64>)>, bit_names: Vec<(String, Option<u64>)>)
        requires
            old(self).wf(),
        ensures
            final(self).wf(),
            final(self).nodes_view() == old(self).nodes_view(),
            final(self).edges() == old(self).edges(),
            final(self).nq() == old(self).nq(),
            final(self).qubit_names_view() == qubit_names@,
            final(self).bit_names_view() == bit_names@,
    {
        self.qubit_names = qubit_names;
        self.bit_names = bit_names;
    }
}

// ── Summary text ────────────────────────────────────────────

/// `w0, w1, ...`: wires by number.
pub open spec fn wire_refs_text(ws: Seq<usize>) -> Seq<char>
    decreases ws.len(),
{
    if ws.len() == 0 {
        seq![]
    } else if ws.len() == 1 {
        "w"@ + decimal_text(ws[0] as nat)
    } else {
        wire_refs_text(ws.drop_last()) + ", w"@ + decimal_text(ws.last() as nat)
    }
}

/// A modifier in a summary line: control counts are left out.
pub open spec fn summary_modifier_text(m: Modifier) -> Seq<char> {
    match m {
        Modifier::Ctrl(_) => "ctrl @ "@,
        Modifier::NegCtrl(_) => "negctrl @ "@,
        Modifier::Inv => "inv @ "@,
        Modifier::Pow(p) => "pow("@ + param_text(p) + ") @ "@,
    }
}

pub open spec fn summary_modifiers_text(ms: Seq<Modifier>) -> Seq<char>
    decreases ms.len(),
{
    if ms.len() == 0 {
        seq![]
    } else {
        summary_modifiers_text(ms.drop_last()) + summary_modifier_text(ms.last())
    }
}

/// What a summary line says of an operation after its node id; nothing
/// (not even a line break) for a delay or a boundary.
pub open spec fn summary_op_text(op: Op) -> Seq<char> {
    match op {
        Op::Gate { name, modifiers, params, qubits } => summary_modifiers_text(modifiers@) + name@ + (if params@.len()
            > 0 {
            "("@ + params_text(params@) + ")"@
        } else {
            seq![]
        }) + " "@ + wire_refs_text(qubits@) + "\n"@,
        Op::Measure { qubit, bit } => "measure w"@ + decimal_text(qubit as nat) + (match bit {
            Some(b) => " -> b"@ + decimal_text(b as nat),
            None => seq![],
        }) + "\n"@,
        Op::Reset { qubit } => "reset w"@ + decimal_text(qubit as nat) + "\n"@,
        Op::Barrier { qubits } => "barrier "@ + wire_refs_text(qubits@) + "\n"@,
        _ => seq![],
    }
}

/// The summary lines of the nodes of `order`: `  [id] ` and the operation.
pub open spec fn summary_lines(dag: &CircuitDAG, order: Seq<usize>) -> Seq<char>
    decreases order.len(),
{
    if order.len() == 0 {
        seq![]
    } else {
        summary_lines(dag, order.drop_last()) + "  ["@ + decimal_text(order.last() as nat) + "] "@
            + summary_op_text(dag.nodes_view()[order.last() as int].op)
    }
}

/// First line of a summary, for a circuit of the given depth.
pub open spec fn summary_header(dag: &CircuitDAG, depth: nat) -> Seq<char> {
    "CircuitDAG("@ + decimal_text(dag.nq() as nat) + " qubits, "@ + decimal_text(dag.live_ops())
        + " ops, depth "@ + decimal_text(depth) + ")\n"@
}

fn push_wire_refs(out: &mut String, ws: &Vec<usize>)
    ensures
        final(out)@ == old(out)@ + wire_refs_text(ws@),
{
    let mut i: usize = 0;
    while i < ws.len()
        invariant
            i <= ws@.len(),
            out@ == old(out)@ + wire_refs_text(ws@.take(i as int)),
        decreases ws@.len() - i,
    {
        assert(ws@.take(i + 1).drop_last() =~= ws@.take(i as int));
        if i > 0 {
            out.append(", w");
        } else {
            out.append("w");
        }
        push_usize(out, ws[i]);
        proof {
            if i == 0 {
                assert(ws@.take(1) =~= seq![ws@[0]]);
            }
            assert(out@ =~= old(out)@ + wire_refs_text(ws@.take(i + 1)));
        }
        i += 1;
    }
    assert(ws@.take(ws@.len() as int) =~= ws@);
}

fn push_summary_modifiers(out: &mut String, ms: &Vec<Modifier>)
    ensures
        final(out)@ == old(out)@ + summary_modifiers_text(ms@),
{
    let mut i: usize = 0;
    while i < ms.len()
        invariant
            i <= ms@.len(),
            out@ == old(out)@ + summary_modifiers_text(ms@.take(i as int)),
        decreases ms@.len() - i,
    {
        assert(ms@.take(i + 1).drop_last() =~= ms@.take(i as int));
        match &ms[i] {
            Modifier::Ctrl(_) => out.append("ctrl @ "),
            Modifier::NegCtrl(_) => out.append("negctrl @ "),
            Modifier::Inv => out.append("inv @ "),
            Modifier::Pow(p) => {
                out.append("pow(");
                p.push_text(out);
                out.append(") @ ");
            },
        }
        assert(out@ =~= old(out)@ + summary_modifiers_text(ms@.take(i + 1)));
        i += 1;
    }
    assert(ms@.take(ms@.len() as int) =~= ms@);
}

fn push_summary_op(out: &mut String, op: &Op)
    ensures
        final(out)@ == old(out)@ + summary_op_text(*op),
{
    match op {
        Op::Gate { name, modifiers, params, qubits } => {
            push_summary_modifiers(out, modifiers);
            out.append(name.as_str());
            if params.len() > 0 {
                out.append("(");
                push_params(out, params);
                out.append(")");
            }
            out.append(" ");
            push_wire_refs(out, qubits);
            out.append("\n");
        },
        Op::Measure { qubit, bit } => {
            out.append("measure w");
            push_usize(out, *qubit);
            if let Some(b) = bit {
                out.append(" -> b");
                push_usize(out, *b);
            }
            out.append("\n");
        },
        Op::Reset { qubit } => {
            out.append("reset w");
            push_usize(out, *qubit);
            out.append("\n");
        },
        Op::Barrier { qubits } => {
            out.append("barrier ");
            push_wire_refs(out, qubits);
            out.append("\n");
        },
        _ => {},
    }
    proof {
        assert(final(out)@ =~= old(out)@ + summary_op_text(*op));
    }
}

impl CircuitDAG {
    /// A readable summary: qubit, operation and depth counts, then one line
    /// per live operation in dependency order.
    pub fn summary(&self) -> (r: String)
        requires
            self.wf(),
        ensures
            exists|order: Seq<usize>, depth: nat|
                emission_order(self, order) && (in_degrees_fit(self) ==> depth == circuit_depth(self)) && (
                self.live_gates() == 0 ==> depth == 0) && r@ == summary_header(self, depth) + summary_lines(
                    self,
                    order,
                ),
    {
        let mut out = String::new();
        out.append("CircuitDAG(");
        push_usize(&mut out, self.num_qubits);
        out.append(" qubits, ");
        push_usize(&mut out, self.op_count());
        out.append(" ops, depth ");
        let d = self.depth();
        push_usize(&mut out, d);
        out.append(")\n");
        let ghost head = out@;
        assert(head =~= summary_header(self, d as nat));
        let order = self.ops_topo();
        let mut i: usize = 0;
        while i < order.len()
            invariant
                i <= order@.len(),
                forall|k: int| 0 <= k < order@.len() ==> #[trigger] order@[k] < self.len(),
                out@ == head + summary_lines(self, order@.take(i as int)),
            decreases order@.len() - i,
        {
            assert(order@.take(i + 1).drop_last() =~= order@.take(i as int));
            let id = order[i];
            out.append("  [");
            push_usize(&mut out, id);
            out.append("] ");
            push_summary_op(&mut out, &self.nodes[id].op);
            assert(out@ =~= head + summary_lines(self, order@.take(i + 1)));
            i += 1;
        }
        assert(order@.take(order@.len() as int) =~= order@);
        assert(emission_order(self, order@));
        out
    }
}

} // verus!
