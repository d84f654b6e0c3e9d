//! What the interpreter computes, as mathematics.

use crate::ast::{Access, AssignOp, DataType, Expression, ExpressionInfixOpcode, Statement};
use crate::circuit::{gate_type_of, CircuitView};
use crate::names::{return_name, RETURN_VAR};
use crate::number::literal_to_u32;
use crate::program::{find_function, find_template, Failure, ProgramArchive};
use crate::runtime::{AccessView, BindingView, RuntimeError, RuntimeView, SubAccessView};
use vstd::arithmetic::power::pow;
use vstd::prelude::*;

verus! {

/// Whether `op` divides by its right operand.
pub open spec fn is_division(op: ExpressionInfixOpcode) -> bool {
    op == ExpressionInfixOpcode::Div || op == ExpressionInfixOpcode::IntDiv || op
        == ExpressionInfixOpcode::Mod
}

/// What a division says of a zero divisor.
pub open spec fn division_message(op: ExpressionInfixOpcode) -> Seq<char> {
    match op {
        ExpressionInfixOpcode::Div => "Division by zero"@,
        ExpressionInfixOpcode::IntDiv => "Integer division by zero"@,
        _ => "Modulo by zero"@,
    }
}

/// The 32-bit value of `lhs op rhs`. Sums, differences, products and powers
/// are taken modulo 2^32; a shift moves by `rhs` modulo 32; a comparison or a
/// logical operator gives 1 for true and 0 for false.
pub open spec fn op_value(lhs: u32, rhs: u32, op: ExpressionInfixOpcode) -> u32 {
    match op {
        ExpressionInfixOpcode::Mul => ((lhs * rhs) % 0x1_0000_0000) as u32,
        ExpressionInfixOpcode::Div => (lhs / rhs) as u32,
        ExpressionInfixOpcode::Add => ((lhs + rhs) % 0x1_0000_0000) as u32,
        ExpressionInfixOpcode::Sub => ((lhs - rhs) % 0x1_0000_0000) as u32,
        ExpressionInfixOpcode::Pow => (pow(lhs as int, rhs as nat) % 0x1_0000_0000) as u32,
        ExpressionInfixOpcode::IntDiv => (lhs / rhs) as u32,
        ExpressionInfixOpcode::Mod => (lhs % rhs) as u32,
        ExpressionInfixOpcode::ShiftL => lhs << (rhs % 32),
        ExpressionInfixOpcode::ShiftR => lhs >> (rhs % 32),
        ExpressionInfixOpcode::LesserEq => if lhs <= rhs {
            1
        } else {
            0
        },
        ExpressionInfixOpcode::GreaterEq => if lhs >= rhs {
            1
        } else {
            0
        },
        ExpressionInfixOpcode::Lesser => if lhs < rhs {
            1
        } else {
            0
        },
        ExpressionInfixOpcode::Greater => if lhs > rhs {
            1
        } else {
            0
        },
        ExpressionInfixOpcode::Eq => if lhs == rhs {
            1
        } else {
            0
        },
        ExpressionInfixOpcode::NotEq => if lhs != rhs {
            1
        } else {
            0
        },
        ExpressionInfixOpcode::BoolOr => if lhs != 0 || rhs != 0 {
            1
        } else {
            0
        },
        ExpressionInfixOpcode::BoolAnd => if lhs != 0 && rhs != 0 {
            1
        } else {
            0
        },
        ExpressionInfixOpcode::BitOr => lhs | rhs,
        ExpressionInfixOpcode::BitAnd => lhs & rhs,
        ExpressionInfixOpcode::BitXor => lhs ^ rhs,
    }
}

/// The outcome of `lhs op rhs`: a division by zero fails, everything else has
/// a value.
pub open spec fn op_result(lhs: u32, rhs: u32, op: ExpressionInfixOpcode) -> Result<u32, Failure> {
    if is_division(op) && rhs == 0 {
        Err(Failure::OperationError(division_message(op)))
    } else {
        Ok(op_value(lhs, rhs, op))
    }
}

/// Division and integer division are the same floor division, the remainder
/// is what the division leaves, and a comparison answers 0 or 1.
pub proof fn lemma_op_value_arithmetic(a: u32, b: u32, op: ExpressionInfixOpcode)
    ensures
        b != 0 ==> op_value(a, b, ExpressionInfixOpcode::Div) == a as int / b as int,
        b != 0 ==> op_value(a, b, ExpressionInfixOpcode::IntDiv) == a as int / b as int,
        b != 0 ==> op_value(a, b, ExpressionInfixOpcode::Mod) == a - b * (a as int / b as int),
        op == ExpressionInfixOpcode::LesserEq || op == ExpressionInfixOpcode::GreaterEq || op
            == ExpressionInfixOpcode::Lesser || op == ExpressionInfixOpcode::Greater || op
            == ExpressionInfixOpcode::Eq || op == ExpressionInfixOpcode::NotEq ==> op_value(
            a,
            b,
            op,
        ) == 0 || op_value(a, b, op) == 1,
{
    if b != 0 {
        vstd::arithmetic::div_mod::lemma_fundamental_div_mod(a as int, b as int);
        vstd::arithmetic::div_mod::lemma_div_pos_is_pos(a as int, b as int);
        vstd::arithmetic::div_mod::lemma_div_is_ordered_by_denominator(a as int, 1, b as int);
        vstd::arithmetic::div_mod::lemma_div_basics(a as int);
    }
}

/// Anything to the power zero is one.
pub proof fn lemma_pow_zero(a: u32)
    ensures
        op_value(a, 0, ExpressionInfixOpcode::Pow) == 1,
{
    vstd::arithmetic::power::lemma_pow0(a as int);
}

/// What the interpreter works on: the circuit and the run-time.
pub struct State {
    pub circuit: CircuitView,
    pub runtime: RuntimeView,
}

/// How a step of the interpreter ends: the state it leaves, and its result.
/// After a failure the state is the one in which the failure arose.
pub struct Outcome<T> {
    pub state: State,
    pub result: Result<T, Failure>,
}

/// The step ends in `st` with the value `v`.
pub open spec fn done<T>(st: State, v: T) -> Outcome<T> {
    Outcome { state: st, result: Ok(v) }
}

/// The step fails in `st` with `e`.
pub open spec fn failed<T>(st: State, e: Failure) -> Outcome<T> {
    Outcome { state: st, result: Err(e) }
}

/// The access to the scalar item called `name`.
pub open spec fn scalar(name: Seq<char>) -> AccessView {
    AccessView { name, path: Seq::empty() }
}

/// The access that the forms without meaning evaluate to.
pub open spec fn empty_access() -> AccessView {
    AccessView { name: Seq::empty(), path: Seq::empty() }
}

/// The value of the variable leaf at `a`, which must have one.
pub open spec fn read_scalar(rt: RuntimeView, a: AccessView) -> Result<u32, Failure> {
    match rt.get_variable_value(a) {
        Err(e) => Err(Failure::RuntimeError(e)),
        Ok(None) => Err(Failure::EmptyDataItem),
        Ok(Some(v)) => Ok(v),
    }
}

/// The values at `accesses`, from position `from` on, after `acc`.
pub open spec fn read_all(rt: RuntimeView, accesses: Seq<AccessView>, from: int, acc: Seq<u32>)
    -> Result<Seq<u32>, Failure>
    decreases accesses.len() - from,
{
    if from < 0 || from >= accesses.len() {
        Ok(acc)
    } else {
        match read_scalar(rt, accesses[from]) {
            Err(e) => Err(e),
            Ok(v) => read_all(rt, accesses, from + 1, acc.push(v)),
        }
    }
}

/// The id of the signal that stands for what is at `a`: a signal's own id,
/// the id that a component holds, or, for a variable, its value, which is
/// registered as a constant.
#[verifier::opaque]
pub open spec fn signal_for_access(st: State, a: AccessView) -> Outcome<u32> {
    match st.runtime.get_item_data_type(a.name) {
        Err(e) => failed(st, Failure::RuntimeError(e)),
        Ok(DataType::Signal) => match st.runtime.get_signal_id(a) {
            Err(e) => failed(st, Failure::RuntimeError(e)),
            Ok(id) => done(st, id),
        },
        Ok(DataType::Variable) => match read_scalar(st.runtime, a) {
            Err(e) => failed(st, e),
            Ok(v) => match st.circuit.add_const(v) {
                Err(e) => failed(st, Failure::CircuitError(e)),
                Ok(c) => done(State { circuit: c, ..st }, v),
            },
        },
        Ok(DataType::Component) => match st.runtime.get_component_signal_id(a) {
            Err(e) => failed(st, Failure::RuntimeError(e)),
            Ok(id) => done(st, id),
        },
    }
}

/// A number literal: a new anonymous variable that holds its value.
#[verifier::opaque]
pub open spec fn eval_number(st: State, negative: bool, magnitude: Seq<u8>) -> Outcome<AccessView> {
    match st.runtime.declare_random_item(DataType::Variable) {
        Err(e) => failed(st, Failure::RuntimeError(e)),
        Ok((rt1, a)) => {
            let st1 = State { runtime: rt1, ..st };
            match literal_to_u32(negative, magnitude) {
                None => failed(st1, Failure::ParsingError),
                Some(v) => match rt1.set_variable(a, Some(v)) {
                    Err(e) => failed(st1, Failure::RuntimeError(e)),
                    Ok(rt2) => done(State { runtime: rt2, ..st }, a),
                },
            }
        },
    }
}

/// A new anonymous variable that holds `v`.
#[verifier::opaque]
pub open spec fn store_value(st: State, v: u32) -> Outcome<AccessView> {
    match st.runtime.declare_random_item(DataType::Variable) {
        Err(e) => failed(st, Failure::RuntimeError(e)),
        Ok((rt1, a)) => match rt1.set_variable(a, Some(v)) {
            Err(e) => failed(State { runtime: rt1, ..st }, Failure::RuntimeError(e)),
            Ok(rt2) => done(State { runtime: rt2, ..st }, a),
        },
    }
}

/// A new anonymous signal that a gate `op` drives from `lhs` and `rhs`.
#[verifier::opaque]
pub open spec fn emit_gate(st: State, op: ExpressionInfixOpcode, lhs: u32, rhs: u32) -> Outcome<
    AccessView,
> {
    match st.runtime.declare_random_item(DataType::Signal) {
        Err(e) => failed(st, Failure::RuntimeError(e)),
        Ok((rt1, out)) => {
            let st1 = State { runtime: rt1, ..st };
            match rt1.get_signal_id(out) {
                Err(e) => failed(st1, Failure::RuntimeError(e)),
                Ok(out_id) => match st.circuit.add_signal(out_id) {
                    Err(e) => failed(st1, Failure::CircuitError(e)),
                    Ok(c1) => match c1.add_gate(gate_type_of(op), lhs, rhs, out_id) {
                        Err(e) => failed(State { circuit: c1, ..st1 }, Failure::CircuitError(e)),
                        Ok(c2) => done(State { circuit: c2, ..st1 }, out),
                    },
                },
            }
        },
    }
}

/// `l op r`, both operands evaluated: arithmetic where both are variables, a
/// gate otherwise.
#[verifier::opaque]
pub open spec fn apply_infix(st: State, op: ExpressionInfixOpcode, l: AccessView, r: AccessView)
    -> Outcome<AccessView> {
    match st.runtime.get_item_data_type(l.name) {
        Err(e) => failed(st, Failure::RuntimeError(e)),
        Ok(lt) => match st.runtime.get_item_data_type(r.name) {
            Err(e) => failed(st, Failure::RuntimeError(e)),
            Ok(rt) => if lt == DataType::Variable && rt == DataType::Variable {
                match read_scalar(st.runtime, l) {
                    Err(e) => failed(st, e),
                    Ok(lv) => match read_scalar(st.runtime, r) {
                        Err(e) => failed(st, e),
                        Ok(rv) => match op_result(lv, rv, op) {
                            Err(e) => failed(st, e),
                            Ok(v) => store_value(st, v),
                        },
                    },
                }
            } else {
                let o1 = signal_for_access(st, l);
                match o1.result {
                    Err(e) => failed(o1.state, e),
                    Ok(lhs) => {
                        let o2 = signal_for_access(o1.state, r);
                        match o2.result {
                            Err(e) => failed(o2.state, e),
                            Ok(rhs) => emit_gate(o2.state, op, lhs, rhs),
                        }
                    },
                }
            },
        },
    }
}

/// The connection from what is at `rh` to the signal `dst`.
#[verifier::opaque]
pub open spec fn connect(st: State, rh: AccessView, dst: u32) -> Outcome<()> {
    let o = signal_for_access(st, rh);
    match o.result {
        Err(e) => failed(o.state, e),
        Ok(src) => match o.state.circuit.add_connection(src, dst) {
            Err(e) => failed(o.state, Failure::CircuitError(e)),
            Ok(c) => done(State { circuit: c, ..o.state }, ()),
        },
    }
}

/// The assignment of what is at `rh` to the leaf `lh` of the item `var`:
/// a variable takes the value, a signal is connected, a component is bound
/// by `=` and one of its signals is connected by `<==`.
#[verifier::opaque]
pub open spec fn apply_substitution(
    st: State,
    var: Seq<char>,
    op: AssignOp,
    lh: AccessView,
    rh: AccessView,
) -> Outcome<()> {
    match st.runtime.get_item_data_type(var) {
        Err(e) => failed(st, Failure::RuntimeError(e)),
        Ok(DataType::Signal) => match st.runtime.get_signal_id(lh) {
            Err(e) => failed(st, Failure::RuntimeError(e)),
            Ok(dst) => connect(st, rh, dst),
        },
        Ok(DataType::Variable) => match st.runtime.get_variable_value(rh) {
            Err(e) => failed(st, Failure::RuntimeError(e)),
            Ok(value) => match st.runtime.set_variable(lh, value) {
                Err(e) => failed(st, Failure::RuntimeError(e)),
                Ok(rt) => done(State { runtime: rt, ..st }, ()),
            },
        },
        Ok(DataType::Component) => match op {
            AssignOp::AssignVar => match st.runtime.get_component_map(rh) {
                Err(e) => failed(st, Failure::RuntimeError(e)),
                Ok(bindings) => match st.runtime.set_component(lh, bindings) {
                    Err(e) => failed(st, Failure::RuntimeError(e)),
                    Ok(rt) => done(State { runtime: rt, ..st }, ()),
                },
            },
            AssignOp::AssignConstraintSignal => match st.runtime.get_component_signal_id(lh) {
                Err(e) => failed(st, Failure::RuntimeError(e)),
                Ok(dst) => connect(st, rh, dst),
            },
            AssignOp::AssignSignal => failed(st, Failure::OperationNotSupported),
        },
    }
}

/// `return`: the value at `a` is kept in the top frame under the reserved
/// name.
#[verifier::opaque]
pub open spec fn apply_return(st: State, a: AccessView) -> Outcome<()> {
    match read_scalar(st.runtime, a) {
        Err(e) => failed(st, e),
        Ok(v) => match st.runtime.declare_item(DataType::Variable, RETURN_VAR@, Seq::empty()) {
            Err(e) => failed(st, Failure::RuntimeError(e)),
            Ok(rt1) => match rt1.set_variable(scalar(RETURN_VAR@), Some(v)) {
                Err(e) => failed(State { runtime: rt1, ..st }, Failure::RuntimeError(e)),
                Ok(rt2) => done(State { runtime: rt2, ..st }, ()),
            },
        },
    }
}

/// The circuit after registering the signals `ids`, from position `from` on.
pub open spec fn register_all(st: State, ids: Seq<u32>, from: int) -> Outcome<()>
    decreases ids.len() - from,
{
    if from < 0 || from >= ids.len() {
        done(st, ())
    } else {
        match st.circuit.add_signal(ids[from]) {
            Err(e) => failed(st, Failure::CircuitError(e)),
            Ok(c) => register_all(State { circuit: c, ..st }, ids, from + 1),
        }
    }
}

/// A declaration, its dimensions evaluated: the item is declared, and every
/// leaf of a signal is registered in the circuit, in row-major order.
#[verifier::opaque]
pub open spec fn apply_declaration(st: State, xtype: DataType, name: Seq<char>, dims: Seq<u32>)
    -> Outcome<()> {
    match st.runtime.declare_item(xtype, name, dims) {
        Err(e) => failed(st, Failure::RuntimeError(e)),
        Ok(rt1) => {
            let st1 = State { runtime: rt1, ..st };
            if xtype == DataType::Signal {
                match rt1.get_signal(name) {
                    Err(e) => failed(st1, Failure::RuntimeError(e)),
                    Ok(signal) => register_all(st1, signal.ids, 0),
                }
            } else {
                done(st1, ())
            }
        },
    }
}

/// What a call runs: a function or a template, by its position.
pub enum Callee {
    Function(int),
    Template(int),
}

/// What `id` names: a function first, a template second.
pub open spec fn callee_of(p: ProgramArchive, id: Seq<char>) -> Option<Callee> {
    match find_function(p.functions@, id, 0) {
        Some(i) => Some(Callee::Function(i)),
        None => match find_template(p.templates@, id, 0) {
            Some(i) => Some(Callee::Template(i)),
            None => None,
        },
    }
}

/// The names of the callee's parameters.
pub open spec fn params_of(p: ProgramArchive, callee: Callee) -> Seq<String> {
    match callee {
        Callee::Function(i) => p.functions@[i].params@,
        Callee::Template(i) => p.templates@[i].params@,
    }
}

/// The callee's body.
pub open spec fn body_of(p: ProgramArchive, callee: Callee) -> Seq<Statement> {
    match callee {
        Callee::Function(i) => p.functions@[i].body@,
        Callee::Template(i) => p.templates@[i].body@,
    }
}

/// The run-time after declaring the parameters from position `from` on and
/// giving each its value, as far as both lists go; and whether that went
/// well.
pub open spec fn bind_params(rt: RuntimeView, params: Seq<String>, values: Seq<u32>, from: int) -> (
    RuntimeView,
    Result<(), RuntimeError>,
)
    decreases params.len() - from,
{
    if from < 0 || from >= params.len() || from >= values.len() {
        (rt, Ok(()))
    } else {
        match rt.declare_item(DataType::Variable, params[from]@, Seq::empty()) {
            Err(e) => (rt, Err(e)),
            Ok(rt1) => match rt1.set_variable(scalar(params[from]@), Some(values[from])) {
                Err(e) => (rt1, Err(e)),
                Ok(rt2) => bind_params(rt2, params, values, from + 1),
            },
        }
    }
}

/// The records of the signals called `names`, from position `from` on, after
/// `acc`.
pub open spec fn gather_signals(
    rt: RuntimeView,
    names: Seq<String>,
    from: int,
    acc: Seq<BindingView>,
) -> Result<Seq<BindingView>, RuntimeError>
    decreases names.len() - from,
{
    if from < 0 || from >= names.len() {
        Ok(acc)
    } else {
        match rt.get_signal(names[from]@) {
            Err(e) => Err(e),
            Ok(signal) => gather_signals(
                rt,
                names,
                from + 1,
                acc.push(BindingView { name: names[from]@, signal }),
            ),
        }
    }
}

/// The end of a function call: what the body returned is taken out of the
/// callee's frame, the frame is popped, and a new variable of the caller
/// holds the value (none, if the body returned nothing).
#[verifier::opaque]
pub open spec fn finish_function(st: State, id: Seq<char>) -> Outcome<AccessView> {
    let returned = match st.runtime.get_variable_value(scalar(RETURN_VAR@)) {
        Ok(v) => v,
        Err(_) => None,
    };
    match st.runtime.pop_context(false) {
        Err(e) => failed(st, Failure::RuntimeError(e)),
        Ok(rt1) => match rt1.generate() {
            Err(e) => failed(State { runtime: rt1, ..st }, Failure::RuntimeError(e)),
            Ok((rt2, n)) => {
                let name = return_name(id, n);
                match rt2.declare_item(DataType::Variable, name, Seq::empty()) {
                    Err(e) => failed(State { runtime: rt2, ..st }, Failure::RuntimeError(e)),
                    Ok(rt3) => match rt3.set_variable(scalar(name), returned) {
                        Err(e) => failed(State { runtime: rt3, ..st }, Failure::RuntimeError(e)),
                        Ok(rt4) => done(State { runtime: rt4, ..st }, scalar(name)),
                    },
                }
            },
        }
    }
}

/// The end of a template call: the records of the template's input and
/// output signals are taken out of the callee's frame, the frame is popped,
/// and a new component of the caller holds them.
#[verifier::opaque]
pub open spec fn finish_template(
    st: State,
    id: Seq<char>,
    inputs: Seq<String>,
    outputs: Seq<String>,
) -> Outcome<AccessView> {
    match gather_signals(st.runtime, inputs, 0, Seq::empty()) {
        Err(e) => failed(st, Failure::RuntimeError(e)),
        Ok(some) => match gather_signals(st.runtime, outputs, 0, some) {
            Err(e) => failed(st, Failure::RuntimeError(e)),
            Ok(bindings) => match st.runtime.pop_context(false) {
                Err(e) => failed(st, Failure::RuntimeError(e)),
                Ok(rt1) => match rt1.generate() {
                    Err(e) => failed(State { runtime: rt1, ..st }, Failure::RuntimeError(e)),
                    Ok((rt2, n)) => {
                        let name = return_name(id, n);
                        match rt2.declare_item(DataType::Component, name, Seq::empty()) {
                            Err(e) => failed(
                                State { runtime: rt2, ..st },
                                Failure::RuntimeError(e),
                            ),
                            Ok(rt3) => match rt3.set_component(scalar(name), bindings) {
                                Err(e) => failed(
                                    State { runtime: rt3, ..st },
                                    Failure::RuntimeError(e),
                                ),
                                Ok(rt4) => done(State { runtime: rt4, ..st }, scalar(name)),
                            },
                        }
                    },
                },
            },
        },
    }
}

/// The end of a call of `callee`.
pub open spec fn finish_call(p: ProgramArchive, st: State, callee: Callee, id: Seq<char>) -> Outcome<
    AccessView,
> {
    match callee {
        Callee::Function(_) => finish_function(st, id),
        Callee::Template(t) => finish_template(
            st,
            id,
            p.templates@[t].inputs@,
            p.templates@[t].outputs@,
        ),
    }
}

/// The state after entering a scope.
pub open spec fn enter(st: State, inherit: bool) -> State {
    State { runtime: st.runtime.push_context(inherit), ..st }
}

/// The outcome of leaving a scope of the kind `inherit`.
pub open spec fn leave(st: State, inherit: bool) -> Outcome<()> {
    match st.runtime.pop_context(inherit) {
        Err(e) => failed(st, Failure::RuntimeError(e)),
        Ok(rt) => done(State { runtime: rt, ..st }, ()),
    }
}

/// The outcome of the expression `e` in the state `st`. `fuel` bounds how
/// deep calls nest and how often a loop repeats.
pub open spec fn eval_expression(p: ProgramArchive, fuel: nat, st: State, e: Expression) -> Outcome<
    AccessView,
>
    decreases fuel, 0nat, e, 1nat,
{
    match e {
        Expression::Call { id, args } => eval_call(p, fuel, st, e),
        Expression::InfixOp { lhe, infix_op, rhe } => {
            let o1 = eval_expression(p, fuel, st, *lhe);
            match o1.result {
                Err(x) => failed(o1.state, x),
                Ok(l) => {
                    let o2 = eval_expression(p, fuel, o1.state, *rhe);
                    match o2.result {
                        Err(x) => failed(o2.state, x),
                        Ok(r) => apply_infix(o2.state, infix_op, l, r),
                    }
                },
            }
        },
        Expression::Number(n) => eval_number(st, n.negative, n.magnitude@),
        Expression::Variable { name, access } => eval_access(p, fuel, st, name@, access@),
        _ => done(st, empty_access()),
    }
}

/// The access to `name` through the steps that `access` spells. Nothing is
/// read at the address.
pub open spec fn eval_access(
    p: ProgramArchive,
    fuel: nat,
    st: State,
    name: Seq<char>,
    access: Seq<Access>,
) -> Outcome<AccessView>
    decreases fuel, 0nat, access, access.len() + 1,
{
    let o = eval_path(p, fuel, st, access, 0, Seq::empty());
    match o.result {
        Err(x) => failed(o.state, x),
        Ok(path) => done(o.state, AccessView { name, path }),
    }
}

/// The steps that `access` spells from position `from` on, after `acc`: each
/// index is evaluated and must have a value.
pub open spec fn eval_path(
    p: ProgramArchive,
    fuel: nat,
    st: State,
    access: Seq<Access>,
    from: nat,
    acc: Seq<SubAccessView>,
) -> Outcome<Seq<SubAccessView>>
    decreases fuel, 0nat, access, access.len() - from,
{
    if from >= access.len() {
        done(st, acc)
    } else {
        match access[from as int] {
            Access::ArrayAccess(e) => {
                let o = eval_expression(p, fuel, st, e);
                match o.result {
                    Err(x) => failed(o.state, x),
                    Ok(a) => match read_scalar(o.state.runtime, a) {
                        Err(x) => failed(o.state, x),
                        Ok(index) => eval_path(
                            p,
                            fuel,
                            o.state,
                            access,
                            from + 1,
                            acc.push(SubAccessView::Array(index)),
                        ),
                    },
                }
            },
            Access::ComponentAccess(name) => eval_path(
                p,
                fuel,
                st,
                access,
                from + 1,
                acc.push(SubAccessView::Component(name@)),
            ),
        }
    }
}

/// The accesses that the expressions `exprs` evaluate to, from position
/// `from` on, after `acc`.
pub open spec fn eval_list(
    p: ProgramArchive,
    fuel: nat,
    st: State,
    exprs: Seq<Expression>,
    from: nat,
    acc: Seq<AccessView>,
) -> Outcome<Seq<AccessView>>
    decreases fuel, 0nat, exprs, exprs.len() - from,
{
    if from >= exprs.len() {
        done(st, acc)
    } else {
        let o = eval_expression(p, fuel, st, exprs[from as int]);
        match o.result {
            Err(x) => failed(o.state, x),
            Ok(a) => eval_list(p, fuel, o.state, exprs, from + 1, acc.push(a)),
        }
    }
}

/// The values of the arguments `args`, from position `from` on, after `acc`:
/// each is evaluated and read before the next.
pub open spec fn eval_args(
    p: ProgramArchive,
    fuel: nat,
    st: State,
    args: Seq<Expression>,
    from: nat,
    acc: Seq<u32>,
) -> Outcome<Seq<u32>>
    decreases fuel, 0nat, args, args.len() - from,
{
    if from >= args.len() {
        done(st, acc)
    } else {
        let o = eval_expression(p, fuel, st, args[from as int]);
        match o.result {
            Err(x) => failed(o.state, x),
            Ok(a) => match read_scalar(o.state.runtime, a) {
                Err(x) => failed(o.state, x),
                Ok(v) => eval_args(p, fuel, o.state, args, from + 1, acc.push(v)),
            },
        }
    }
}

/// The outcome of the call `e`: the arguments are evaluated in the caller's
/// frame, the body runs in a fresh frame that holds the parameters, and what
/// it produced comes back as a new item of the caller.
pub open spec fn eval_call(p: ProgramArchive, fuel: nat, st: State, e: Expression) -> Outcome<
    AccessView,
>
    decreases fuel, 0nat, e, 0nat,
{
    match e {
        Expression::Call { id, args } => match callee_of(p, id@) {
            None => failed(st, Failure::UndefinedFunctionOrTemplate),
            Some(callee) => {
                let oa = eval_args(p, fuel, st, args@, 0, Seq::empty());
                match oa.result {
                    Err(x) => failed(oa.state, x),
                    Ok(values) => if fuel == 0 {
                        failed(oa.state, Failure::LimitExceeded)
                    } else {
                        let st1 = enter(oa.state, false);
                        let (rt2, bound) = bind_params(
                            st1.runtime,
                            params_of(p, callee),
                            values,
                            0,
                        );
                        let st2 = State { runtime: rt2, ..st1 };
                        match bound {
                            Err(x) => failed(st2, Failure::RuntimeError(x)),
                            Ok(()) => {
                                let ob = eval_block(
                                    p,
                                    (fuel - 1) as nat,
                                    st2,
                                    body_of(p, callee),
                                    0,
                                );
                                match ob.result {
                                    Err(x) => failed(ob.state, x),
                                    Ok(()) => finish_call(p, ob.state, callee, id@),
                                }
                            },
                        }
                    },
                }
            },
        },
        _ => done(st, empty_access()),
    }
}

/// The outcome of the statement `s` in the state `st`.
pub open spec fn eval_statement(p: ProgramArchive, fuel: nat, st: State, s: Statement) -> Outcome<
    (),
>
    decreases fuel, 1nat, s, 1nat,
{
    match s {
        Statement::Block { stmts } => eval_block(p, fuel, st, stmts@, 0),
        Statement::InitializationBlock { initializations } => eval_block(
            p,
            fuel,
            st,
            initializations@,
            0,
        ),
        Statement::Declaration { xtype, name, dimensions } => {
            let o = eval_list(p, fuel, st, dimensions@, 0, Seq::empty());
            match o.result {
                Err(x) => failed(o.state, x),
                Ok(accesses) => match read_all(o.state.runtime, accesses, 0, Seq::empty()) {
                    Err(x) => failed(o.state, x),
                    Ok(dims) => apply_declaration(o.state, xtype, name@, dims),
                },
            }
        },
        Statement::While { cond, stmt } => {
            let o = eval_while(p, fuel, enter(st, true), s);
            match o.result {
                Err(x) => failed(o.state, x),
                Ok(()) => leave(o.state, true),
            }
        },
        Statement::IfThenElse { cond, if_case, else_case } => {
            let o = eval_expression(p, fuel, st, cond);
            match o.result {
                Err(x) => failed(o.state, x),
                Ok(a) => match read_scalar(o.state.runtime, a) {
                    Err(x) => failed(o.state, x),
                    Ok(c) => if c == 0 {
                        match else_case {
                            None => done(o.state, ()),
                            Some(other) => {
                                let ob = eval_statement(p, fuel, enter(o.state, true), *other);
                                match ob.result {
                                    Err(x) => failed(ob.state, x),
                                    Ok(()) => leave(ob.state, true),
                                }
                            },
                        }
                    } else {
                        let ob = eval_statement(p, fuel, enter(o.state, true), *if_case);
                        match ob.result {
                            Err(x) => failed(ob.state, x),
                            Ok(()) => leave(ob.state, true),
                        }
                    },
                },
            }
        },
        Statement::Substitution { var, access, op, rhe } => {
            let ol = eval_access(p, fuel, st, var@, access@);
            match ol.result {
                Err(x) => failed(ol.state, x),
                Ok(lh) => {
                    let or = eval_expression(p, fuel, ol.state, rhe);
                    match or.result {
                        Err(x) => failed(or.state, x),
                        Ok(rh) => apply_substitution(or.state, var@, op, lh, rh),
                    }
                },
            }
        },
        Statement::Return { value } => {
            let o = eval_expression(p, fuel, st, value);
            match o.result {
                Err(x) => failed(o.state, x),
                Ok(a) => apply_return(o.state, a),
            }
        },
        _ => done(st, ()),
    }
}

/// The outcome of the statements `stmts` in turn, from position `from` on.
/// The first failure ends the run.
pub open spec fn eval_block(
    p: ProgramArchive,
    fuel: nat,
    st: State,
    stmts: Seq<Statement>,
    from: nat,
) -> Outcome<()>
    decreases fuel, 1nat, stmts, stmts.len() - from,
{
    if from >= stmts.len() {
        done(st, ())
    } else {
        let o = eval_statement(p, fuel, st, stmts[from as int]);
        match o.result {
            Err(x) => failed(o.state, x),
            Ok(()) => eval_block(p, fuel, o.state, stmts, from + 1),
        }
    }
}

/// The outcome of the loop `s`, a `while`, inside the frame that was entered
/// for it: as long as the condition is not zero, the body runs in a frame of
/// its own. Each repetition takes one unit of `fuel`.
pub open spec fn eval_while(p: ProgramArchive, fuel: nat, st: State, s: Statement) -> Outcome<()>
    decreases fuel, 1nat, s, 0nat,
{
    match s {
        Statement::While { cond, stmt } => {
            let o = eval_expression(p, fuel, st, cond);
            match o.result {
                Err(x) => failed(o.state, x),
                Ok(a) => match read_scalar(o.state.runtime, a) {
                    Err(x) => failed(o.state, x),
                    Ok(c) => if c == 0 {
                        done(o.state, ())
                    } else {
                        let ob = eval_statement(p, fuel, enter(o.state, true), *stmt);
                        match ob.result {
                            Err(x) => failed(ob.state, x),
                            Ok(()) => {
                                let ol = leave(ob.state, true);
                                match ol.result {
                                    Err(x) => failed(ol.state, x),
                                    Ok(()) => if fuel == 0 {
                                        failed(ol.state, Failure::LimitExceeded)
                                    } else {
                                        eval_while(p, (fuel - 1) as nat, ol.state, s)
                                    },
                                }
                            },
                        }
                    },
                },
            }
        },
        _ => done(st, ()),
    }
}

} // verus!
