//! The arithmetic circuit: an append-only store of signals, gates and
//! connections.
//!
//! A signal is known by its id. A constant is a signal whose id is its value.
//! An id is registered once: a constant that is registered again is left
//! alone, and any other second registration of an id is refused, whether the
//! id was first taken by a signal or by a constant.

use crate::ast::ExpressionInfixOpcode;
use std::collections::HashMap;
use vstd::prelude::*;

verus! {

/// Why the circuit refused an operation.
#[derive(Clone, Copy, Debug, PartialEq, Eq)]
pub enum CircuitError {
    /// The id is already registered.
    DuplicateSignal,
    /// A gate or connection names an id that is not registered.
    UnknownSignal,
}

/// The operation a gate performs.
#[derive(Clone, Copy, Debug, PartialEq, Eq)]
pub enum AGateType {
    Add,
    Sub,
    Mul,
    Div,
    IntDiv,
    Pow,
    Mod,
    ShiftL,
    ShiftR,
    Eq,
    NotEq,
    Lt,
    Le,
    Gt,
    Ge,
    BoolAnd,
    BoolOr,
    BitAnd,
    BitOr,
    BitXor,
}

/// Which type of gate computes an operator.
pub open spec fn gate_type_of(op: ExpressionInfixOpcode) -> AGateType {
    match op {
        ExpressionInfixOpcode::Mul => AGateType::Mul,
        ExpressionInfixOpcode::Div => AGateType::Div,
        ExpressionInfixOpcode::Add => AGateType::Add,
        ExpressionInfixOpcode::Sub => AGateType::Sub,
        ExpressionInfixOpcode::Pow => AGateType::Pow,
        ExpressionInfixOpcode::IntDiv => AGateType::IntDiv,
        ExpressionInfixOpcode::Mod => AGateType::Mod,
        ExpressionInfixOpcode::ShiftL => AGateType::ShiftL,
        ExpressionInfixOpcode::ShiftR => AGateType::ShiftR,
        ExpressionInfixOpcode::LesserEq => AGateType::Le,
        ExpressionInfixOpcode::GreaterEq => AGateType::Ge,
        ExpressionInfixOpcode::Lesser => AGateType::Lt,
        ExpressionInfixOpcode::Greater => AGateType::Gt,
        ExpressionInfixOpcode::Eq => AGateType::Eq,
        ExpressionInfixOpcode::NotEq => AGateType::NotEq,
        ExpressionInfixOpcode::BoolOr => AGateType::BoolOr,
        ExpressionInfixOpcode::BoolAnd => AGateType::BoolAnd,
        ExpressionInfixOpcode::BitOr => AGateType::BitOr,
        ExpressionInfixOpcode::BitAnd => AGateType::BitAnd,
        ExpressionInfixOpcode::BitXor => AGateType::BitXor,
    }
}

impl AGateType {
    /// Which type of gate computes `op`.
    pub fn from_opcode(op: &ExpressionInfixOpcode) -> (g: AGateType)
        ensures
            g == gate_type_of(*op),
    {
        match op {
            ExpressionInfixOpcode::Mul => AGateType::Mul,
            ExpressionInfixOpcode::Div => AGateType::Div,
            ExpressionInfixOpcode::Add => AGateType::Add,
            ExpressionInfixOpcode::Sub => AGateType::Sub,
            ExpressionInfixOpcode::Pow => AGateType::Pow,
            ExpressionInfixOpcode::IntDiv => AGateType::IntDiv,
            ExpressionInfixOpcode::Mod => AGateType::Mod,
            ExpressionInfixOpcode::ShiftL => AGateType::ShiftL,
            ExpressionInfixOpcode::ShiftR => AGateType::ShiftR,
            ExpressionInfixOpcode::LesserEq => AGateType::Le,
            ExpressionInfixOpcode::GreaterEq => AGateType::Ge,
            ExpressionInfixOpcode::Lesser => AGateType::Lt,
            ExpressionInfixOpcode::Greater => AGateType::Gt,
            ExpressionInfixOpcode::Eq => AGateType::Eq,
            ExpressionInfixOpcode::NotEq => AGateType::NotEq,
            ExpressionInfixOpcode::BoolOr => AGateType::BoolOr,
            ExpressionInfixOpcode::BoolAnd => AGateType::BoolAnd,
            ExpressionInfixOpcode::BitOr => AGateType::BitOr,
            ExpressionInfixOpcode::BitAnd => AGateType::BitAnd,
            ExpressionInfixOpcode::BitXor => AGateType::BitXor,
        }
    }
}

/// A registered signal: its id, and whether it is a constant.
#[derive(Clone, Copy, Debug, PartialEq, Eq)]
pub struct SignalEntry {
    pub id: u32,
    pub constant: bool,
}

/// A gate: `out = lhs <gate_type> rhs`, over signal ids.
#[derive(Clone, Copy, Debug, PartialEq, Eq)]
pub struct Gate {
    pub gate_type: AGateType,
    pub lhs: u32,
    pub rhs: u32,
    pub out: u32,
}

/// A connection: the signal `src` drives the signal `dst`.
#[derive(Clone, Copy, Debug, PartialEq, Eq)]
pub struct Connection {
    pub src: u32,
    pub dst: u32,
}

/// What a circuit holds, each list in the order of arrival.
pub struct CircuitView {
    pub signals: Seq<SignalEntry>,
    pub gates: Seq<Gate>,
    pub connections: Seq<Connection>,
}

impl CircuitView {
    /// The circuit that holds nothing.
    pub open spec fn empty() -> CircuitView {
        CircuitView { signals: Seq::empty(), gates: Seq::empty(), connections: Seq::empty() }
    }

    /// Whether `id` is registered, as a signal or as a constant.
    pub open spec fn is_registered(self, id: u32) -> bool {
        exists|i: int| 0 <= i < self.signals.len() && (#[trigger] self.signals[i]).id == id
    }

    /// Whether `id` is registered as a constant.
    pub open spec fn is_constant(self, id: u32) -> bool {
        exists|i: int|
            0 <= i < self.signals.len() && (#[trigger] self.signals[i]).id == id
                && self.signals[i].constant
    }

    /// No id is registered twice.
    pub open spec fn ids_distinct(self) -> bool {
        forall|i: int, j: int|
            0 <= i < j < self.signals.len() ==> (#[trigger] self.signals[i]).id != (
            #[trigger] self.signals[j]).id
    }

    /// Every id that a gate names is registered.
    pub open spec fn gates_closed(self) -> bool {
        forall|k: int|
            0 <= k < self.gates.len() ==> {
                &&& self.is_registered((#[trigger] self.gates[k]).lhs)
                &&& self.is_registered(self.gates[k].rhs)
                &&& self.is_registered(self.gates[k].out)
            }
    }

    /// Every id that a connection names is registered.
    pub open spec fn connections_closed(self) -> bool {
        forall|k: int|
            0 <= k < self.connections.len() ==> {
                &&& self.is_registered((#[trigger] self.connections[k]).src)
                &&& self.is_registered(self.connections[k].dst)
            }
    }

    /// The circuit's invariant: ids are registered once, and gates and
    /// connections name registered ids only.
    pub open spec fn well_formed(self) -> bool {
        &&& self.ids_distinct()
        &&& self.gates_closed()
        &&& self.connections_closed()
    }

    /// Whether this circuit holds everything that `earlier` holds, in the same
    /// places: a circuit only grows, at the end of its lists.
    pub open spec fn extends(self, earlier: CircuitView) -> bool {
        &&& earlier.signals.len() <= self.signals.len()
        &&& earlier.gates.len() <= self.gates.len()
        &&& earlier.connections.len() <= self.connections.len()
        &&& forall|i: int|
            0 <= i < earlier.signals.len() ==> (#[trigger] self.signals[i]) == earlier.signals[i]
        &&& forall|i: int|
            0 <= i < earlier.gates.len() ==> (#[trigger] self.gates[i]) == earlier.gates[i]
        &&& forall|i: int|
            0 <= i < earlier.connections.len() ==> (#[trigger] self.connections[i])
                == earlier.connections[i]
    }

    /// The circuit after registering `id` as a signal.
    #[verifier::opaque]
    pub open spec fn add_signal(self, id: u32) -> Result<CircuitView, CircuitError> {
        if self.is_registered(id) {
            Err(CircuitError::DuplicateSignal)
        } else {
            Ok(
                CircuitView {
                    signals: self.signals.push(SignalEntry { id, constant: false }),
                    ..self
                },
            )
        }
    }

    /// The circuit after registering the constant `value`.
    #[verifier::opaque]
    pub open spec fn add_const(self, value: u32) -> Result<CircuitView, CircuitError> {
        if self.is_constant(value) {
            Ok(self)
        } else if self.is_registered(value) {
            Err(CircuitError::DuplicateSignal)
        } else {
            Ok(
                CircuitView {
                    signals: self.signals.push(SignalEntry { id: value, constant: true }),
                    ..self
                },
            )
        }
    }

    /// The circuit after appending a gate.
    #[verifier::opaque]
    pub open spec fn add_gate(self, gate_type: AGateType, lhs: u32, rhs: u32, out: u32) -> Result<
        CircuitView,
        CircuitError,
    > {
        if self.is_registered(lhs) && self.is_registered(rhs) && self.is_registered(out) {
            Ok(CircuitView { gates: self.gates.push(Gate { gate_type, lhs, rhs, out }), ..self })
        } else {
            Err(CircuitError::UnknownSignal)
        }
    }

    /// The circuit after appending a connection.
    #[verifier::opaque]
    pub open spec fn add_connection(self, src: u32, dst: u32) -> Result<CircuitView, CircuitError> {
        if self.is_registered(src) && self.is_registered(dst) {
            Ok(CircuitView { connections: self.connections.push(Connection { src, dst }), ..self })
        } else {
            Err(CircuitError::UnknownSignal)
        }
    }

    /// Registering keeps what was registered.
    pub proof fn lemma_push_keeps_registered(self, entry: SignalEntry, id: u32)
        requires
            self.is_registered(id),
        ensures
            (CircuitView { signals: self.signals.push(entry), ..self }).is_registered(id),
    {
        let i = choose|i: int| 0 <= i < self.signals.len() && (#[trigger] self.signals[i]).id == id;
        let after = CircuitView { signals: self.signals.push(entry), ..self };
        assert(after.signals[i].id == id);
    }

    /// Registering a new id keeps the circuit well formed, and registers it.
    pub proof fn lemma_push_signal(self, entry: SignalEntry)
        requires
            self.well_formed(),
            !self.is_registered(entry.id),
        ensures
            (CircuitView { signals: self.signals.push(entry), ..self }).well_formed(),
            (CircuitView { signals: self.signals.push(entry), ..self }).is_registered(entry.id),
            entry.constant ==> (CircuitView {
                signals: self.signals.push(entry),
                ..self
            }).is_constant(entry.id),
    {
        let after = CircuitView { signals: self.signals.push(entry), ..self };
        let n = self.signals.len() as int;
        assert(after.signals[n] == entry);
        assert forall|i: int, j: int| 0 <= i < j < after.signals.len() implies (
        #[trigger] after.signals[i]).id != (#[trigger] after.signals[j]).id by {
            if j == n {
                assert(self.signals[i].id != entry.id);
            } else {
                assert(self.signals[i].id != self.signals[j].id);
            }
        }
        assert forall|k: int| 0 <= k < after.gates.len() implies {
            &&& after.is_registered((#[trigger] after.gates[k]).lhs)
            &&& after.is_registered(after.gates[k].rhs)
            &&& after.is_registered(after.gates[k].out)
        } by {
            self.lemma_push_keeps_registered(entry, self.gates[k].lhs);
            self.lemma_push_keeps_registered(entry, self.gates[k].rhs);
            self.lemma_push_keeps_registered(entry, self.gates[k].out);
        }
        assert forall|k: int| 0 <= k < after.connections.len() implies {
            &&& after.is_registered((#[trigger] after.connections[k]).src)
            &&& after.is_registered(after.connections[k].dst)
        } by {
            self.lemma_push_keeps_registered(entry, self.connections[k].src);
            self.lemma_push_keeps_registered(entry, self.connections[k].dst);
        }
    }

    /// Every operation keeps a well-formed circuit well formed: whatever a gate
    /// or a connection names was registered before it was appended.
    pub proof fn lemma_operations_keep_well_formed(
        self,
        id: u32,
        gate_type: AGateType,
        lhs: u32,
        rhs: u32,
        out: u32,
    )
        requires
            self.well_formed(),
        ensures
            self.add_signal(id) matches Ok(c) ==> c.well_formed() && c.is_registered(id),
            self.add_const(id) matches Ok(c) ==> c.well_formed() && c.is_constant(id),
            self.add_gate(gate_type, lhs, rhs, out) matches Ok(c) ==> c.well_formed(),
            self.add_connection(lhs, rhs) matches Ok(c) ==> c.well_formed(),
    {
        reveal(CircuitView::add_signal);
        reveal(CircuitView::add_const);
        reveal(CircuitView::add_gate);
        reveal(CircuitView::add_connection);
        if !self.is_registered(id) {
            self.lemma_push_signal(SignalEntry { id, constant: false });
            self.lemma_push_signal(SignalEntry { id, constant: true });
        }
        if let Ok(c) = self.add_gate(gate_type, lhs, rhs, out) {
            assert(c.signals == self.signals);
            assert forall|k: int| 0 <= k < c.gates.len() implies {
                &&& c.is_registered((#[trigger] c.gates[k]).lhs)
                &&& c.is_registered(c.gates[k].rhs)
                &&& c.is_registered(c.gates[k].out)
            } by {
                if k < self.gates.len() {
                    assert(c.gates[k] == self.gates[k]);
                }
            }
            assert(c.connections_closed());
        }
        if let Ok(c) = self.add_connection(lhs, rhs) {
            assert(c.signals == self.signals);
            assert forall|k: int| 0 <= k < c.connections.len() implies {
                &&& c.is_registered((#[trigger] c.connections[k]).src)
                &&& c.is_registered(c.connections[k].dst)
            } by {
                if k < self.connections.len() {
                    assert(c.connections[k] == self.connections[k]);
                }
            }
            assert(c.gates_closed());
        }
    }

    /// Registering a constant a second time changes nothing.
    pub proof fn lemma_add_const_idempotent(self, value: u32)
        requires
            self.well_formed(),
        ensures
            self.add_const(value) matches Ok(c) ==> c.add_const(value) == Ok::<
                CircuitView,
                CircuitError,
            >(c),
    {
        reveal(CircuitView::add_const);
        if !self.is_registered(value) {
            self.lemma_push_signal(SignalEntry { id: value, constant: true });
        }
    }
}

/// An arithmetic circuit.
pub struct ArithmeticCircuit {
    signals: Vec<SignalEntry>,
    /// For every registered id, whether it is a constant.
    index: HashMap<u32, bool>,
    gates: Vec<Gate>,
    connections: Vec<Connection>,
}

impl View for ArithmeticCircuit {
    type V = CircuitView;

    closed spec fn view(&self) -> CircuitView {
        CircuitView { signals: self.signals@, gates: self.gates@, connections: self.connections@ }
    }
}

/// Whether `index` knows exactly the ids that `c` has registered, and of
/// each whether it is a constant.
spec fn indexed_by(c: CircuitView, index: Map<u32, bool>) -> bool {
    &&& forall|id: u32| #[trigger] index.contains_key(id) <==> c.is_registered(id)
    &&& forall|id: u32| #[trigger] index.contains_key(id) ==> (index[id] <==> c.is_constant(id))
}

/// Registering a new id adds it to the index.
proof fn lemma_index_push(c: CircuitView, index: Map<u32, bool>, entry: SignalEntry)
    requires
        c.well_formed(),
        indexed_by(c, index),
        !c.is_registered(entry.id),
    ensures
        indexed_by(
            CircuitView { signals: c.signals.push(entry), ..c },
            index.insert(entry.id, entry.constant),
        ),
{
    let after = CircuitView { signals: c.signals.push(entry), ..c };
    let grown = index.insert(entry.id, entry.constant);
    let n = c.signals.len() as int;
    c.lemma_push_signal(entry);
    assert forall|id: u32| #[trigger] grown.contains_key(id) <==> after.is_registered(id) by {
        if id != entry.id {
            if c.is_registered(id) {
                c.lemma_push_keeps_registered(entry, id);
            }
            if after.is_registered(id) {
                let i = choose|i: int|
                    0 <= i < after.signals.len() && (#[trigger] after.signals[i]).id == id;
                assert(i < n);
                assert(c.signals[i].id == id);
            }
        }
    }
    assert forall|id: u32| #[trigger] grown.contains_key(id) implies (grown[id]
        <==> after.is_constant(id)) by {
        if id == entry.id {
            if after.is_constant(id) {
                let i = choose|i: int|
                    0 <= i < after.signals.len() && (#[trigger] after.signals[i]).id == id
                        && after.signals[i].constant;
                if i < n {
                    assert(c.signals[i].id == id);
                }
            }
        } else {
            if c.is_constant(id) {
                let i = choose|i: int|
                    0 <= i < c.signals.len() && (#[trigger] c.signals[i]).id == id
                        && c.signals[i].constant;
                assert(after.signals[i].id == id && after.signals[i].constant);
            }
            if after.is_constant(id) {
                let i = choose|i: int|
                    0 <= i < after.signals.len() && (#[trigger] after.signals[i]).id == id
                        && after.signals[i].constant;
                assert(i < n);
                assert(c.signals[i].id == id && c.signals[i].constant);
            }
        }
    }
}

impl ArithmeticCircuit {
    /// The circuit's invariant.
    pub closed spec fn wf(&self) -> bool {
        self@.well_formed() && indexed_by(self@, self.index@)
    }

    /// The invariant says that the circuit's value is well formed: every id
    /// that a gate or a connection names is registered, and no id twice.
    pub proof fn lemma_wf(&self)
        ensures
            self.wf() ==> self@.well_formed(),
    {
    }

    /// An empty circuit.
    pub fn new() -> (c: ArithmeticCircuit)
        ensures
            c@ == CircuitView::empty(),
            c.wf(),
    {
        ArithmeticCircuit {
            signals: Vec::new(),
            index: HashMap::new(),
            gates: Vec::new(),
            connections: Vec::new(),
        }
    }

    /// How `id` is registered: `Some(true)` as a constant, `Some(false)` as a
    /// signal, `None` not at all.
    pub fn lookup(&self, id: u32) -> (r: Option<bool>)
        requires
            self.wf(),
        ensures
            r is Some <==> self@.is_registered(id),
            r == Some(true) <==> self@.is_constant(id),
    {
        broadcast use vstd::std_specs::hash::group_hash_axioms;

        proof {
            if self@.is_constant(id) {
                let i = choose|i: int|
                    0 <= i < self@.signals.len() && (#[trigger] self@.signals[i]).id == id
                        && self@.signals[i].constant;
                assert(self@.is_registered(id));
            }
        }
        match self.index.get(&id) {
            Some(constant) => Some(*constant),
            None => None,
        }
    }

    /// Whether `id` is registered.
    pub fn is_registered(&self, id: u32) -> (r: bool)
        requires
            self.wf(),
        ensures
            r == self@.is_registered(id),
    {
        self.lookup(id).is_some()
    }

    /// Registers `id` as a signal that a gate or an input may drive.
    pub fn add_signal(&mut self, id: u32) -> (r: Result<(), CircuitError>)
        requires
            old(self).wf(),
        ensures
            final(self).wf(),
            final(self)@.extends(old(self)@),
            match old(self)@.add_signal(id) {
                Ok(c) => r is Ok && final(self)@ == c,
                Err(e) => r == Err::<(), CircuitError>(e) && final(self)@ == old(self)@,
            },
    {
        proof {
            reveal(CircuitView::add_signal);
        }
        if self.lookup(id).is_some() {
            return Err(CircuitError::DuplicateSignal);
        }
        broadcast use vstd::std_specs::hash::group_hash_axioms;

        proof {
            self@.lemma_push_signal(SignalEntry { id, constant: false });
            lemma_index_push(self@, self.index@, SignalEntry { id, constant: false });
        }
        self.signals.push(SignalEntry { id, constant: false });
        self.index.insert(id, false);
        Ok(())
    }

    /// Registers the constant `value`, whose id is `value` itself. A constant
    /// that is already there is left alone; an id that a signal holds is
    /// refused.
    pub fn add_const(&mut self, value: u32) -> (r: Result<(), CircuitError>)
        requires
            old(self).wf(),
        ensures
            final(self).wf(),
            final(self)@.extends(old(self)@),
            match old(self)@.add_const(value) {
                Ok(c) => r is Ok && final(self)@ == c,
                Err(e) => r == Err::<(), CircuitError>(e) && final(self)@ == old(self)@,
            },
    {
        broadcast use vstd::std_specs::hash::group_hash_axioms;

        proof {
            reveal(CircuitView::add_const);
        }
        match self.lookup(value) {
            Some(true) => Ok(()),
            Some(false) => Err(CircuitError::DuplicateSignal),
            None => {
                proof {
                    self@.lemma_push_signal(SignalEntry { id: value, constant: true });
                    lemma_index_push(self@, self.index@, SignalEntry { id: value, constant: true });
                }
                self.signals.push(SignalEntry { id: value, constant: true });
                self.index.insert(value, true);
                Ok(())
            },
        }
    }

    /// Appends a gate: `out = lhs <gate_type> rhs`.
    pub fn add_gate(&mut self, gate_type: AGateType, lhs: u32, rhs: u32, out: u32) -> (r: Result<
        (),
        CircuitError,
    >)
        requires
            old(self).wf(),
        ensures
            final(self).wf(),
            final(self)@.extends(old(self)@),
            match old(self)@.add_gate(gate_type, lhs, rhs, out) {
                Ok(c) => r is Ok && final(self)@ == c,
                Err(e) => r == Err::<(), CircuitError>(e) && final(self)@ == old(self)@,
            },
    {
        proof {
            reveal(CircuitView::add_gate);
        }
        if !(self.is_registered(lhs) && self.is_registered(rhs) && self.is_registered(out)) {
            return Err(CircuitError::UnknownSignal);
        }
        proof {
            self@.lemma_operations_keep_well_formed(lhs, gate_type, lhs, rhs, out);
        }
        self.gates.push(Gate { gate_type, lhs, rhs, out });
        Ok(())
    }

    /// Appends the connection from `src` to `dst`.
    pub fn add_connection(&mut self, src: u32, dst: u32) -> (r: Result<(), CircuitError>)
        requires
            old(self).wf(),
        ensures
            final(self).wf(),
            final(self)@.extends(old(self)@),
            match old(self)@.add_connection(src, dst) {
                Ok(c) => r is Ok && final(self)@ == c,
                Err(e) => r == Err::<(), CircuitError>(e) && final(self)@ == old(self)@,
            },
    {
        proof {
            reveal(CircuitView::add_connection);
        }
        if !(self.is_registered(src) && self.is_registered(dst)) {
            return Err(CircuitError::UnknownSignal);
        }
        proof {
            self@.lemma_operations_keep_well_formed(src, AGateType::Add, src, dst, src);
        }
        self.connections.push(Connection { src, dst });
        Ok(())
    }

    /// The registered signals, in the order of registration.
    pub fn signals(&self) -> (r: &Vec<SignalEntry>)
        ensures
            r@ == self@.signals,
    {
        &self.signals
    }

    /// The gates, in the order in which they were appended.
    pub fn gates(&self) -> (r: &Vec<Gate>)
        ensures
            r@ == self@.gates,
    {
        &self.gates
    }

    /// The connections, in the order in which they were appended.
    pub fn connections(&self) -> (r: &Vec<Connection>)
        ensures
            r@ == self@.connections,
    {
        &self.connections
    }
}

} // verus!
