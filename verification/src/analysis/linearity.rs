//! Qubit linearity: a measured qubit may not take part in a gate or a second
//! measurement until it is reset.

use vstd::prelude::*;

use crate::names::NameMap;
use crate::text::string_of;

verus! {

/// Whether a qubit may still be operated on.
#[derive(Debug, Clone, Copy, PartialEq, Eq, Structural)]
pub enum QubitState {
    Live,
    Measured,
}

/// A rejected operation, with a hint on how to fix it.
#[derive(Debug, Clone)]
pub struct LinearityError {
    pub message: String,
    pub help: Option<String>,
}

/// Message and hint of an error, as text.
pub open spec fn error_text(e: LinearityError) -> (Seq<char>, Option<Seq<char>>) {
    (
        e.message@,
        match e.help {
            Some(h) => Some(h@),
            None => None,
        },
    )
}

/// The help for a gate on, or a measurement of, an undeclared qubit (the
/// spelling is the tool's own).
pub open spec fn undeclared_help(qubit: Seq<char>) -> Seq<char> {
    "delcare it first with `qubit "@ + qubit + ";`"@
}

/// The help for resetting an undeclared qubit.
pub open spec fn reset_undeclared_help(qubit: Seq<char>) -> Seq<char> {
    "declare it first with `qubit "@ + qubit + ";`"@
}

/// The error for a gate on a measured qubit.
pub open spec fn gate_on_measured(gate: Seq<char>, qubit: Seq<char>) -> (
    Seq<char>,
    Option<Seq<char>>,
) {
    (
        "cannot apply gate `"@ + gate + "` to measured qubit `"@ + qubit + "`"@,
        Some("insert `reset "@ + qubit + ";` before using `"@ + qubit + "` again"@),
    )
}

/// The error for a gate on an undeclared qubit.
pub open spec fn gate_on_undeclared(qubit: Seq<char>) -> (Seq<char>, Option<Seq<char>>) {
    ("use of undeclared qubit `"@ + qubit + "`"@, Some(undeclared_help(qubit)))
}

/// The error for measuring a qubit twice.
pub open spec fn measured_twice(qubit: Seq<char>) -> (Seq<char>, Option<Seq<char>>) {
    (
        "qubit `"@ + qubit + "` has already been measured"@,
        Some("insert `reset"@ + qubit + ";` before measureing it again"@),
    )
}

/// The error for measuring an undeclared qubit.
pub open spec fn measure_undeclared(qubit: Seq<char>) -> (Seq<char>, Option<Seq<char>>) {
    ("cannot measure undeclared qubit `"@ + qubit + "`"@, Some(undeclared_help(qubit)))
}

/// The error for resetting an undeclared qubit.
pub open spec fn reset_undeclared(qubit: Seq<char>) -> (Seq<char>, Option<Seq<char>>) {
    ("cannot reset undeclared qubit `"@ + qubit + "`"@, Some(reset_undeclared_help(qubit)))
}

/// A gate may act on `qubit` in state `m`.
pub open spec fn gate_allowed(m: Map<Seq<char>, QubitState>, qubit: Seq<char>) -> bool {
    m.get(qubit) == Some(QubitState::Live)
}

/// Tracks the state of every declared qubit by name.
pub struct LinearityAnalyzer {
    qubits: NameMap<QubitState>,
}

impl View for LinearityAnalyzer {
    type V = Map<Seq<char>, QubitState>;

    closed spec fn view(&self) -> Map<Seq<char>, QubitState> {
        self.qubits@
    }
}

fn join3(a: &str, b: &str, c: &str) -> (r: String)
    ensures
        r@ == a@ + b@ + c@,
{
    let mut s = string_of(a);
    s.append(b);
    s.append(c);
    s
}

fn join5(a: &str, b: &str, c: &str, d: &str, e: &str) -> (r: String)
    ensures
        r@ == a@ + b@ + c@ + d@ + e@,
{
    let mut s = join3(a, b, c);
    s.append(d);
    s.append(e);
    s
}

fn undeclared_error(message_start: &str, help_start: &str, qubit: &str) -> (r: LinearityError)
    ensures
        error_text(r) == (message_start@ + qubit@ + "`"@, Some(help_start@ + qubit@ + ";`"@)),
{
    LinearityError {
        message: join3(message_start, qubit, "`"),
        help: Some(join3(help_start, qubit, ";`")),
    }
}

impl LinearityAnalyzer {
    /// An analyzer that knows no qubits.
    pub fn new() -> (r: Self)
        ensures
            r@ == Map::<Seq<char>, QubitState>::empty(),
    {
        LinearityAnalyzer { qubits: NameMap::new() }
    }

    /// Declare `name` as a fresh, live qubit.
    pub fn declare_qubit(&mut self, name: &str)
        ensures
            final(self)@ == old(self)@.insert(name@, QubitState::Live),
    {
        self.qubits.insert(string_of(name), QubitState::Live);
    }

    /// Check that `gate` may act on `qubit`.
    pub fn apply_gate(&self, gate: &str, qubit: &str) -> (r: Result<(), LinearityError>)
        ensures
            r is Ok <==> gate_allowed(self@, qubit@),
            r matches Err(e) ==> error_text(e) == (if self@.contains_key(qubit@) {
                gate_on_measured(gate@, qubit@)
            } else {
                gate_on_undeclared(qubit@)
            }),
    {
        match self.qubits.get(qubit) {
            Some(QubitState::Live) => Ok(()),
            Some(QubitState::Measured) => Err(
                LinearityError {
                    message: join5("cannot apply gate `", gate, "` to measured qubit `", qubit, "`"),
                    help: Some(join5("insert `reset ", qubit, ";` before using `", qubit, "` again")),
                },
            ),
            None => Err(undeclared_error("use of undeclared qubit `", "delcare it first with `qubit ", qubit)),
        }
    }

    /// Measure `qubit`: a live qubit becomes measured; any other request is
    /// refused and leaves the analyzer unchanged.
    pub fn measure(&mut self, qubit: &str) -> (r: Result<(), LinearityError>)
        ensures
            r is Ok <==> old(self)@.get(qubit@) == Some(QubitState::Live),
            r is Ok ==> final(self)@ == old(self)@.insert(qubit@, QubitState::Measured),
            r matches Err(e) ==> {
                &&& final(self)@ == old(self)@
                &&& error_text(e) == (if old(self)@.contains_key(qubit@) {
                    measured_twice(qubit@)
                } else {
                    measure_undeclared(qubit@)
                })
            },
    {
        let state = match self.qubits.get(qubit) {
            Some(s) => Some(*s),
            None => None,
        };
        match state {
            Some(QubitState::Live) => {
                self.qubits.insert(string_of(qubit), QubitState::Measured);
                Ok(())
            },
            Some(QubitState::Measured) => Err(
                LinearityError {
                    message: join3("qubit `", qubit, "` has already been measured"),
                    help: Some(join3("insert `reset", qubit, ";` before measureing it again")),
                },
            ),
            None => Err(undeclared_error("cannot measure undeclared qubit `", "delcare it first with `qubit ", qubit)),
        }
    }

    /// Reset a declared qubit to the live state.
    pub fn reset(&mut self, qubit: &str) -> (r: Result<(), LinearityError>)
        ensures
            r is Ok <==> old(self)@.contains_key(qubit@),
            r is Ok ==> final(self)@ == old(self)@.insert(qubit@, QubitState::Live),
            r matches Err(e) ==> {
                &&& final(self)@ == old(self)@
                &&& error_text(e) == reset_undeclared(qubit@)
            },
    {
        if self.qubits.contains_key(qubit) {
            self.qubits.insert(string_of(qubit), QubitState::Live);
            Ok(())
        } else {
            Err(undeclared_error("cannot reset undeclared qubit `", "declare it first with `qubit ", qubit))
        }
    }
}

/// A freshly declared qubit accepts gates.
pub proof fn law_declared_qubit_is_live(m: Map<Seq<char>, QubitState>, q: Seq<char>)
    ensures
        gate_allowed(m.insert(q, QubitState::Live), q),
{
}

/// Once measured, a qubit refuses gates and a second measurement until it is
/// reset; operations on other qubits do not change that.
pub proof fn law_measured_qubit_is_blocked(
    m: Map<Seq<char>, QubitState>,
    q: Seq<char>,
    other: Seq<char>,
    s: QubitState,
)
    requires
        other != q,
    ensures
        !gate_allowed(m.insert(q, QubitState::Measured), q),
        m.insert(q, QubitState::Measured).get(q) != Some(QubitState::Live),
        !gate_allowed(m.insert(q, QubitState::Measured).insert(other, s), q),
{
    assert(m.insert(q, QubitState::Measured).insert(other, s).get(q) == Some(
        QubitState::Measured,
    ));
}

/// Resetting a measured qubit makes it accept gates again.
pub proof fn law_reset_restores(m: Map<Seq<char>, QubitState>, q: Seq<char>)
    requires
        m.get(q) == Some(QubitState::Measured),
    ensures
        m.contains_key(q),
        gate_allowed(m.insert(q, QubitState::Live), q),
{
}

} // verus!
