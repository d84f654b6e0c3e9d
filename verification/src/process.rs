//! The interpreter: statements and expressions, run against a circuit and a
//! run-time.

use crate::ast::{Access, AssignOp, DataType, Expression, ExpressionInfixOpcode, Statement};
use crate::circuit::{AGateType, ArithmeticCircuit, CircuitView};
use crate::names::{make_return_name, RETURN_VAR};
use crate::number::BigNumber;
use crate::program::{Failure, ProgramArchive, ProgramError};
use crate::runtime::{
    bindings_view, confined, lemma_bindings_view_push, lemma_scope_inside, lemma_scope_left,
    path_view, AccessView, Binding, DataAccess, Runtime, RuntimeError, RuntimeView, SubAccess,
    SubAccessView,
};
use crate::semantics::{
    apply_declaration, apply_infix, apply_return, apply_substitution, bind_params, connect,
    emit_gate, eval_access, eval_args, eval_block, eval_call, eval_expression, eval_list,
    eval_number, eval_path, eval_statement, eval_while, finish_function, finish_template,
    gather_signals, op_result, read_all, read_scalar, register_all, scalar, signal_for_access,
    store_value, Outcome, State,
};
use vstd::arithmetic::div_mod::*;
use vstd::arithmetic::power::*;
use vstd::prelude::*;
use vstd::string::*;

verus! {

/// The view of a result: its value as it is, its error as a `Failure`.
pub open spec fn scalar_view(r: Result<u32, ProgramError>) -> Result<u32, Failure> {
    match r {
        Ok(v) => Ok(v),
        Err(e) => Err(e@),
    }
}

/// One step of exponentiation by squaring, modulo 2^32.
proof fn lemma_pow_step(acc: int, b: int, e: nat)
    requires
        e > 0,
    ensures
        e % 2 == 1 ==> (((acc * b) % 0x1_0000_0000) * pow((b * b) % 0x1_0000_0000, e / 2))
            % 0x1_0000_0000 == (acc * pow(b, e)) % 0x1_0000_0000,
        e % 2 == 0 ==> (acc * pow((b * b) % 0x1_0000_0000, e / 2)) % 0x1_0000_0000 == (acc * pow(
            b,
            e,
        )) % 0x1_0000_0000,
{
    let m = 0x1_0000_0000int;
    let q = e / 2;
    let sq = pow((b * b) % m, q);
    // pow(b, 2q) == pow(b * b, q), and reducing the base keeps the residue
    lemma_pow_multiplies(b, 2, q);
    reveal_with_fuel(pow, 3);
    assert(pow(b, 2) == b * b) by {
        assert(pow(b, 2) == b * (b * 1));
        assert(b * 1 == b);
    }
    assert(pow(b * b, q) == pow(b, 2 * q));
    lemma_pow_mod_noop(b * b, q, m);
    assert(sq % m == pow(b, 2 * q) % m);
    if e % 2 == 1 {
        assert(e == 2 * q + 1);
        lemma_pow_adds(b, 2 * q, 1);
        lemma_pow1(b);
        assert(pow(b, e) == pow(b, 2 * q) * b);
        // ((acc*b) % m * sq) % m == (acc*b*sq) % m == (acc*b*pow(b,2q)) % m
        lemma_mul_mod_noop_general(acc * b, sq, m);
        lemma_mul_mod_noop_general(acc * b, pow(b, 2 * q), m);
        assert(((acc * b) % m * sq) % m == ((acc * b) * (sq % m)) % m);
        assert(((acc * b) * (sq % m)) % m == ((acc * b) * pow(b, 2 * q)) % m);
        assert((acc * b) * pow(b, 2 * q) == acc * (pow(b, 2 * q) * b)) by (nonlinear_arith);
    } else {
        assert(e == 2 * q);
        lemma_mul_mod_noop_general(acc, sq, m);
        lemma_mul_mod_noop_general(acc, pow(b, 2 * q), m);
    }
}

/// `base` to the power `exp`, modulo 2^32.
pub fn wrapping_pow(base: u32, exp: u32) -> (r: u32)
    ensures
        r == pow(base as int, exp as nat) % 0x1_0000_0000,
{
    let mut acc: u32 = 1;
    let mut b: u32 = base;
    let mut e: u32 = exp;
    proof {
        assert(1 * pow(base as int, exp as nat) == pow(base as int, exp as nat));
    }
    while e > 0
        invariant
            (acc * pow(b as int, e as nat)) % 0x1_0000_0000 == pow(base as int, exp as nat)
                % 0x1_0000_0000,
        decreases e,
    {
        proof {
            lemma_pow_step(acc as int, b as int, e as nat);
        }
        if e % 2 == 1 {
            acc = acc.wrapping_mul(b);
        }
        b = b.wrapping_mul(b);
        e = e / 2;
    }
    proof {
        lemma_pow0(b as int);
        assert(acc * 1 == acc);
    }
    acc
}

/// Applies the operator `op` to two 32-bit values.
///
/// A division or a remainder by zero is an `OperationError`. Sums, differences,
/// products and powers wrap around at 2^32.
pub fn execute_op(lhs: u32, rhs: u32, op: &ExpressionInfixOpcode) -> (r: Result<u32, ProgramError>)
    ensures
        scalar_view(r) == op_result(lhs, rhs, *op),
{
    let res: u32 = match op {
        ExpressionInfixOpcode::Mul => lhs.wrapping_mul(rhs),
        ExpressionInfixOpcode::Div => {
            if rhs == 0 {
                return Err(ProgramError::OperationError(String::from_str("Division by zero")));
            }
            lhs / rhs
        },
        ExpressionInfixOpcode::Add => lhs.wrapping_add(rhs),
        ExpressionInfixOpcode::Sub => lhs.wrapping_sub(rhs),
        ExpressionInfixOpcode::Pow => wrapping_pow(lhs, rhs),
        ExpressionInfixOpcode::IntDiv => {
            if rhs == 0 {
                return Err(
                    ProgramError::OperationError(String::from_str("Integer division by zero")),
                );
            }
            lhs / rhs
        },
        ExpressionInfixOpcode::Mod => {
            if rhs == 0 {
                return Err(ProgramError::OperationError(String::from_str("Modulo by zero")));
            }
            lhs % rhs
        },
        ExpressionInfixOpcode::ShiftL => lhs.wrapping_shl(rhs),
        ExpressionInfixOpcode::ShiftR => lhs.wrapping_shr(rhs),
        ExpressionInfixOpcode::LesserEq => if lhs <= rhs {
            1
        } else {
            0
        },
        ExpressionInfixOpcode::GreaterEq => if lhs >= rhs {
            1
        } else {
            0
        },
        ExpressionInfixOpcode::Lesser => if lhs < rhs {
            1
        } else {
            0
        },
        ExpressionInfixOpcode::Greater => if lhs > rhs {
            1
        } else {
            0
        },
        ExpressionInfixOpcode::Eq => if lhs == rhs {
            1
        } else {
            0
        },
        ExpressionInfixOpcode::NotEq => if lhs != rhs {
            1
        } else {
            0
        },
        ExpressionInfixOpcode::BoolOr => if lhs != 0 || rhs != 0 {
            1
        } else {
            0
        },
        ExpressionInfixOpcode::BoolAnd => if lhs != 0 && rhs != 0 {
            1
        } else {
            0
        },
        ExpressionInfixOpcode::BitOr => lhs | rhs,
        ExpressionInfixOpcode::BitAnd => lhs & rhs,
        ExpressionInfixOpcode::BitXor => lhs ^ rhs,
    };
    Ok(res)
}

/// The view of a result without a value.
pub open spec fn unit_view(r: Result<(), ProgramError>) -> Result<(), Failure> {
    match r {
        Ok(()) => Ok(()),
        Err(e) => Err(e@),
    }
}

/// The view of a result that is an access.
pub open spec fn access_view(r: Result<DataAccess, ProgramError>) -> Result<AccessView, Failure> {
    match r {
        Ok(a) => Ok(a@),
        Err(e) => Err(e@),
    }
}

/// The views of a list of accesses.
pub open spec fn accesses_view(accesses: Seq<DataAccess>) -> Seq<AccessView> {
    accesses.map_values(|a: DataAccess| a@)
}

/// The view of a result that is a list of numbers.
pub open spec fn values_view(r: Result<Vec<u32>, ProgramError>) -> Result<Seq<u32>, Failure> {
    match r {
        Ok(v) => Ok(v@),
        Err(e) => Err(e@),
    }
}

/// The view of a result that is a list of accesses.
pub open spec fn list_view(r: Result<Vec<DataAccess>, ProgramError>) -> Result<
    Seq<AccessView>,
    Failure,
> {
    match r {
        Ok(v) => Ok(accesses_view(v@)),
        Err(e) => Err(e@),
    }
}

/// The state that a circuit and a run-time make.
pub open spec fn state_of(circuit: CircuitView, runtime: RuntimeView) -> State {
    State { circuit, runtime }
}

/// A step that left `circuit` and `runtime` and gave `result` ended as `o`
/// says.
pub open spec fn refines<T>(
    circuit: CircuitView,
    runtime: RuntimeView,
    result: Result<T, Failure>,
    o: Outcome<T>,
) -> bool {
    state_of(circuit, runtime) == o.state && result == o.result
}

/// The access to the scalar item called `name`.
fn scalar_access(name: &str) -> (a: DataAccess)
    ensures
        a@ == scalar(name@),
{
    let steps: Vec<SubAccess> = Vec::new();
    assert(path_view(steps@) =~= Seq::<SubAccessView>::empty());
    DataAccess::new(name, steps)
}

/// The value of the variable leaf at `access`, which must have one.
fn read_value(runtime: &Runtime, access: &DataAccess) -> (r: Result<u32, ProgramError>)
    requires
        runtime.wf(),
    ensures
        scalar_view(r) == read_scalar(runtime@, access@),
{
    match runtime.get_variable_value(access) {
        Err(e) => Err(ProgramError::RuntimeError(e)),
        Ok(None) => Err(ProgramError::EmptyDataItem),
        Ok(Some(v)) => Ok(v),
    }
}

/// The id of the signal that stands for what is at `access`: the id of a
/// signal, the id that a component holds for one of its signals, or, for a
/// variable, its value, which is registered in the circuit as a constant.
pub fn get_signal_for_access(ac: &mut ArithmeticCircuit, runtime: &Runtime, access: &DataAccess)
    -> (r: Result<u32, ProgramError>)
    requires
        old(ac).wf(),
        runtime.wf(),
    ensures
        final(ac).wf(),
        final(ac)@.extends(old(ac)@),
        refines(
            final(ac)@,
            runtime@,
            scalar_view(r),
            signal_for_access(state_of(old(ac)@, runtime@), access@),
        ),
{
    proof {
        reveal(signal_for_access);
    }
    let data_type = match runtime.get_item_data_type(access.get_name()) {
        Ok(t) => t,
        Err(e) => {
            return Err(ProgramError::RuntimeError(e));
        },
    };
    match data_type {
        DataType::Signal => match runtime.get_signal_id(access) {
            Ok(id) => Ok(id),
            Err(e) => Err(ProgramError::RuntimeError(e)),
        },
        DataType::Variable => {
            let value = match read_value(runtime, access) {
                Ok(v) => v,
                Err(e) => {
                    return Err(e);
                },
            };
            match ac.add_const(value) {
                Ok(()) => Ok(value),
                Err(e) => Err(ProgramError::CircuitError(e)),
            }
        },
        DataType::Component => match runtime.get_component_signal_id(access) {
            Ok(id) => Ok(id),
            Err(e) => Err(ProgramError::RuntimeError(e)),
        },
    }
}

/// Keeps the value of the literal `n` in a new anonymous variable.
fn number_literal(runtime: &mut Runtime, n: &BigNumber) -> (r: Result<DataAccess, ProgramError>)
    requires
        old(runtime).wf(),
    ensures
        final(runtime).wf(),
        confined(old(runtime)@, final(runtime)@, r is Ok),
        forall|c: CircuitView|
            refines(
                c,
                final(runtime)@,
                access_view(r),
                #[trigger] eval_number(state_of(c, old(runtime)@), n.negative, n.magnitude@),
            ),
{
    proof {
        reveal(eval_number);
    }
    let access = match runtime.declare_random_item(DataType::Variable) {
        Ok(a) => a,
        Err(e) => {
            return Err(ProgramError::RuntimeError(e));
        },
    };
    let v = match n.to_u32() {
        Some(v) => v,
        None => {
            return Err(ProgramError::ParsingError);
        },
    };
    match runtime.set_variable(&access, Some(v)) {
        Ok(()) => Ok(access),
        Err(e) => Err(ProgramError::RuntimeError(e)),
    }
}

/// Keeps `v` in a new anonymous variable.
fn store(runtime: &mut Runtime, v: u32) -> (r: Result<DataAccess, ProgramError>)
    requires
        old(runtime).wf(),
    ensures
        final(runtime).wf(),
        confined(old(runtime)@, final(runtime)@, r is Ok),
        forall|c: CircuitView|
            refines(
                c,
                final(runtime)@,
                access_view(r),
                #[trigger] store_value(state_of(c, old(runtime)@), v),
            ),
{
    proof {
        reveal(store_value);
    }
    let access = match runtime.declare_random_item(DataType::Variable) {
        Ok(a) => a,
        Err(e) => {
            return Err(ProgramError::RuntimeError(e));
        },
    };
    match runtime.set_variable(&access, Some(v)) {
        Ok(()) => Ok(access),
        Err(e) => Err(ProgramError::RuntimeError(e)),
    }
}

/// Declares and registers a new anonymous signal and appends a gate that
/// drives it from `lhs` and `rhs`.
fn gate(
    ac: &mut ArithmeticCircuit,
    runtime: &mut Runtime,
    op: &ExpressionInfixOpcode,
    lhs: u32,
    rhs: u32,
) -> (r: Result<DataAccess, ProgramError>)
    requires
        old(ac).wf(),
        old(runtime).wf(),
    ensures
        final(ac).wf(),
        final(ac)@.extends(old(ac)@),
        final(runtime).wf(),
        confined(old(runtime)@, final(runtime)@, r is Ok),
        refines(
            final(ac)@,
            final(runtime)@,
            access_view(r),
            emit_gate(state_of(old(ac)@, old(runtime)@), *op, lhs, rhs),
        ),
{
    proof {
        reveal(emit_gate);
    }
    let out = match runtime.declare_random_item(DataType::Signal) {
        Ok(a) => a,
        Err(e) => {
            return Err(ProgramError::RuntimeError(e));
        },
    };
    let out_id = match runtime.get_signal_id(&out) {
        Ok(id) => id,
        Err(e) => {
            return Err(ProgramError::RuntimeError(e));
        },
    };
    match ac.add_signal(out_id) {
        Ok(()) => {},
        Err(e) => {
            return Err(ProgramError::CircuitError(e));
        },
    }
    match ac.add_gate(AGateType::from_opcode(op), lhs, rhs, out_id) {
        Ok(()) => Ok(out),
        Err(e) => Err(ProgramError::CircuitError(e)),
    }
}

/// Applies `op` to what is at `l` and `r`: arithmetic where both are
/// variables, a gate otherwise.
fn infix(
    ac: &mut ArithmeticCircuit,
    runtime: &mut Runtime,
    op: &ExpressionInfixOpcode,
    l: &DataAccess,
    r: &DataAccess,
) -> (res: Result<DataAccess, ProgramError>)
    requires
        old(ac).wf(),
        old(runtime).wf(),
    ensures
        final(ac).wf(),
        final(ac)@.extends(old(ac)@),
        final(runtime).wf(),
        confined(old(runtime)@, final(runtime)@, res is Ok),
        refines(
            final(ac)@,
            final(runtime)@,
            access_view(res),
            apply_infix(state_of(old(ac)@, old(runtime)@), *op, l@, r@),
        ),
{
    proof {
        reveal(apply_infix);
    }
    let lhs_type = match runtime.get_item_data_type(l.get_name()) {
        Ok(t) => t,
        Err(e) => {
            return Err(ProgramError::RuntimeError(e));
        },
    };
    let rhs_type = match runtime.get_item_data_type(r.get_name()) {
        Ok(t) => t,
        Err(e) => {
            return Err(ProgramError::RuntimeError(e));
        },
    };
    let both_variables = match (lhs_type, rhs_type) {
        (DataType::Variable, DataType::Variable) => true,
        _ => false,
    };
    if both_variables {
        let lhs_value = match read_value(runtime, l) {
            Ok(v) => v,
            Err(e) => {
                return Err(e);
            },
        };
        let rhs_value = match read_value(runtime, r) {
            Ok(v) => v,
            Err(e) => {
                return Err(e);
            },
        };
        let value = match execute_op(lhs_value, rhs_value, op) {
            Ok(v) => v,
            Err(e) => {
                return Err(e);
            },
        };
        return store(runtime, value);
    }
    let lhs_id = match get_signal_for_access(ac, runtime, l) {
        Ok(id) => id,
        Err(e) => {
            return Err(e);
        },
    };
    let rhs_id = match get_signal_for_access(ac, runtime, r) {
        Ok(id) => id,
        Err(e) => {
            return Err(e);
        },
    };
    gate(ac, runtime, op, lhs_id, rhs_id)
}

/// Connects the signal that stands for what is at `rh` to the signal `dst`.
fn connect_to(ac: &mut ArithmeticCircuit, runtime: &Runtime, rh: &DataAccess, dst: u32) -> (r:
    Result<(), ProgramError>)
    requires
        old(ac).wf(),
        runtime.wf(),
    ensures
        final(ac).wf(),
        final(ac)@.extends(old(ac)@),
        refines(
            final(ac)@,
            runtime@,
            unit_view(r),
            connect(state_of(old(ac)@, runtime@), rh@, dst),
        ),
{
    proof {
        reveal(connect);
    }
    let src = match get_signal_for_access(ac, runtime, rh) {
        Ok(id) => id,
        Err(e) => {
            return Err(e);
        },
    };
    match ac.add_connection(src, dst) {
        Ok(()) => Ok(()),
        Err(e) => Err(ProgramError::CircuitError(e)),
    }
}

/// Assigns what is at `rh` to the leaf `lh` of the item `var`.
fn substitute(
    ac: &mut ArithmeticCircuit,
    runtime: &mut Runtime,
    var: &str,
    op: &AssignOp,
    lh: &DataAccess,
    rh: &DataAccess,
) -> (r: Result<(), ProgramError>)
    requires
        old(ac).wf(),
        old(runtime).wf(),
    ensures
        final(ac).wf(),
        final(ac)@.extends(old(ac)@),
        final(runtime).wf(),
        confined(old(runtime)@, final(runtime)@, r is Ok),
        refines(
            final(ac)@,
            final(runtime)@,
            unit_view(r),
            apply_substitution(state_of(old(ac)@, old(runtime)@), var@, *op, lh@, rh@),
        ),
{
    proof {
        reveal(apply_substitution);
    }
    let data_type = match runtime.get_item_data_type(var) {
        Ok(t) => t,
        Err(e) => {
            return Err(ProgramError::RuntimeError(e));
        },
    };
    match data_type {
        DataType::Signal => {
            let dst = match runtime.get_signal_id(lh) {
                Ok(id) => id,
                Err(e) => {
                    return Err(ProgramError::RuntimeError(e));
                },
            };
            connect_to(ac, runtime, rh, dst)
        },
        DataType::Variable => {
            let value = match runtime.get_variable_value(rh) {
                Ok(v) => v,
                Err(e) => {
                    return Err(ProgramError::RuntimeError(e));
                },
            };
            match runtime.set_variable(lh, value) {
                Ok(()) => Ok(()),
                Err(e) => Err(ProgramError::RuntimeError(e)),
            }
        },
        DataType::Component => match op {
            AssignOp::AssignVar => {
                let bindings = match runtime.get_component_map(rh) {
                    Ok(b) => b,
                    Err(e) => {
                        return Err(ProgramError::RuntimeError(e));
                    },
                };
                match runtime.set_component(lh, bindings) {
                    Ok(()) => Ok(()),
                    Err(e) => Err(ProgramError::RuntimeError(e)),
                }
            },
            AssignOp::AssignConstraintSignal => {
                let dst = match runtime.get_component_signal_id(lh) {
                    Ok(id) => id,
                    Err(e) => {
                        return Err(ProgramError::RuntimeError(e));
                    },
                };
                connect_to(ac, runtime, rh, dst)
            },
            AssignOp::AssignSignal => Err(ProgramError::OperationNotSupported),
        },
    }
}

/// Keeps the value at `access` in the top frame under the reserved name.
fn return_value(runtime: &mut Runtime, access: &DataAccess) -> (r: Result<(), ProgramError>)
    requires
        old(runtime).wf(),
    ensures
        final(runtime).wf(),
        confined(old(runtime)@, final(runtime)@, r is Ok),
        forall|c: CircuitView|
            refines(
                c,
                final(runtime)@,
                unit_view(r),
                #[trigger] apply_return(state_of(c, old(runtime)@), access@),
            ),
{
    proof {
        reveal(apply_return);
    }
    let value = match read_value(runtime, access) {
        Ok(v) => v,
        Err(e) => {
            return Err(e);
        },
    };
    let none: Vec<u32> = Vec::new();
    assert(none@ =~= Seq::<u32>::empty());
    match runtime.declare_item(DataType::Variable, RETURN_VAR, none.as_slice()) {
        Ok(()) => {},
        Err(e) => {
            return Err(ProgramError::RuntimeError(e));
        },
    }
    match runtime.set_variable(&scalar_access(RETURN_VAR), Some(value)) {
        Ok(()) => Ok(()),
        Err(e) => Err(ProgramError::RuntimeError(e)),
    }
}

/// Declares `name` with the dimensions `dims` and, for a signal, registers
/// every leaf in the circuit, in row-major order.
fn declare(
    ac: &mut ArithmeticCircuit,
    runtime: &mut Runtime,
    xtype: &DataType,
    name: &str,
    dims: &Vec<u32>,
) -> (r: Result<(), ProgramError>)
    requires
        old(ac).wf(),
        old(runtime).wf(),
    ensures
        final(ac).wf(),
        final(ac)@.extends(old(ac)@),
        final(runtime).wf(),
        confined(old(runtime)@, final(runtime)@, r is Ok),
        refines(
            final(ac)@,
            final(runtime)@,
            unit_view(r),
            apply_declaration(state_of(old(ac)@, old(runtime)@), *xtype, name@, dims@),
        ),
{
    proof {
        reveal(apply_declaration);
    }
    match runtime.declare_item(*xtype, name, dims.as_slice()) {
        Ok(()) => {},
        Err(e) => {
            return Err(ProgramError::RuntimeError(e));
        },
    }
    match xtype {
        DataType::Signal => {
            let signal = match runtime.get_signal(name) {
                Ok(s) => s,
                Err(e) => {
                    return Err(ProgramError::RuntimeError(e));
                },
            };
            let ids = signal.ids();
            let ghost start = state_of(ac@, runtime@);
            let mut i: usize = 0;
            while i < ids.len()
                invariant
                    ac@.extends(old(ac)@),
                    confined(old(runtime)@, runtime@, true),
                    i <= ids.len(),
                    ac.wf(),
                    runtime.wf(),
                    runtime@ == start.runtime,
                    apply_declaration(state_of(old(ac)@, old(runtime)@), *xtype, name@, dims@)
                        == register_all(start, ids@, 0),
                    register_all(state_of(ac@, runtime@), ids@, i as int) == register_all(
                        start,
                        ids@,
                        0,
                    ),
                decreases ids.len() - i,
            {
                match ac.add_signal(ids[i]) {
                    Ok(()) => {},
                    Err(e) => {
                        return Err(ProgramError::CircuitError(e));
                    },
                }
                i += 1;
            }
            Ok(())
        },
        _ => Ok(()),
    }
}

/// Declares the parameters in the top frame and gives each its value, as
/// far as both lists go.
fn bind_parameters(runtime: &mut Runtime, params: &Vec<String>, values: &Vec<u32>) -> (r: Result<
    (),
    RuntimeError,
>)
    requires
        old(runtime).wf(),
    ensures
        final(runtime).wf(),
        confined(old(runtime)@, final(runtime)@, r is Ok),
        (final(runtime)@, r) == bind_params(old(runtime)@, params@, values@, 0),
{
    let mut i: usize = 0;
    let none: Vec<u32> = Vec::new();
    assert(none@ =~= Seq::<u32>::empty());
    while i < params.len() && i < values.len()
        invariant
            confined(old(runtime)@, runtime@, true),
            i <= params.len(),
            i <= values.len(),
            runtime.wf(),
            none@ == Seq::<u32>::empty(),
            bind_params(runtime@, params@, values@, i as int) == bind_params(
                old(runtime)@,
                params@,
                values@,
                0,
            ),
        decreases params.len() - i,
    {
        match runtime.declare_item(DataType::Variable, params[i].as_str(), none.as_slice()) {
            Ok(()) => {},
            Err(e) => {
                return Err(e);
            },
        }
        match runtime.set_variable(&scalar_access(params[i].as_str()), Some(values[i])) {
            Ok(()) => {},
            Err(e) => {
                return Err(e);
            },
        }
        i += 1;
    }
    Ok(())
}

/// Appends to `bindings` the record of each signal called by one of `names`.
fn gather(runtime: &Runtime, names: &Vec<String>, bindings: &mut Vec<Binding>) -> (r: Result<
    (),
    RuntimeError,
>)
    requires
        runtime.wf(),
    ensures
        match gather_signals(runtime@, names@, 0, bindings_view(old(bindings)@)) {
            Ok(all) => r is Ok && bindings_view(final(bindings)@) == all,
            Err(e) => r == Err::<(), RuntimeError>(e),
        },
{
    let mut i: usize = 0;
    while i < names.len()
        invariant
            i <= names.len(),
            runtime.wf(),
            gather_signals(runtime@, names@, i as int, bindings_view(bindings@)) == gather_signals(
                runtime@,
                names@,
                0,
                bindings_view(old(bindings)@),
            ),
        decreases names.len() - i,
    {
        let signal = match runtime.get_signal(names[i].as_str()) {
            Ok(s) => s,
            Err(e) => {
                return Err(e);
            },
        };
        let binding = Binding::new(names[i].as_str(), signal);
        proof {
            lemma_bindings_view_push(bindings@, binding);
        }
        bindings.push(binding);
        i += 1;
    }
    Ok(())
}

/// Ends a function call: takes what the body returned out of the callee's
/// frame, pops the frame and keeps the value in a new variable of the caller.
fn end_function(runtime: &mut Runtime, id: &str) -> (r: Result<DataAccess, ProgramError>)
    requires
        old(runtime).wf(),
    ensures
        final(runtime).wf(),
        (r is Err && final(runtime)@ == old(runtime)@) || (old(runtime)@.pop_context(false) matches Ok(
            popped,
        ) && confined(popped, final(runtime)@, r is Ok)),
        forall|c: CircuitView|
            refines(
                c,
                final(runtime)@,
                access_view(r),
                #[trigger] finish_function(state_of(c, old(runtime)@), id@),
            ),
{
    proof {
        reveal(finish_function);
    }
    let returned = match runtime.get_variable_value(&scalar_access(RETURN_VAR)) {
        Ok(v) => v,
        Err(_) => None,
    };
    match runtime.pop_context(false) {
        Ok(()) => {},
        Err(e) => {
            return Err(ProgramError::RuntimeError(e));
        },
    }
    let n = match runtime.generate_u32() {
        Ok(n) => n,
        Err(e) => {
            return Err(ProgramError::RuntimeError(e));
        },
    };
    let name = make_return_name(id, n);
    let none: Vec<u32> = Vec::new();
    assert(none@ =~= Seq::<u32>::empty());
    match runtime.declare_item(DataType::Variable, name.as_str(), none.as_slice()) {
        Ok(()) => {},
        Err(e) => {
            return Err(ProgramError::RuntimeError(e));
        },
    }
    let access = scalar_access(name.as_str());
    match runtime.set_variable(&access, returned) {
        Ok(()) => Ok(access),
        Err(e) => Err(ProgramError::RuntimeError(e)),
    }
}

/// Ends a template call: takes the records of the input and output signals
/// out of the callee's frame, pops the frame and binds them to a new
/// component of the caller.
fn end_template(runtime: &mut Runtime, id: &str, inputs: &Vec<String>, outputs: &Vec<String>) -> (r:
    Result<DataAccess, ProgramError>)
    requires
        old(runtime).wf(),
    ensures
        final(runtime).wf(),
        (r is Err && final(runtime)@ == old(runtime)@) || (old(runtime)@.pop_context(false) matches Ok(
            popped,
        ) && confined(popped, final(runtime)@, r is Ok)),
        forall|c: CircuitView|
            refines(
                c,
                final(runtime)@,
                access_view(r),
                #[trigger] finish_template(state_of(c, old(runtime)@), id@, inputs@, outputs@),
            ),
{
    proof {
        reveal(finish_template);
    }
    let mut bindings: Vec<Binding> = Vec::new();
    assert(bindings_view(bindings@) =~= Seq::empty());
    match gather(runtime, inputs, &mut bindings) {
        Ok(()) => {},
        Err(e) => {
            return Err(ProgramError::RuntimeError(e));
        },
    }
    match gather(runtime, outputs, &mut bindings) {
        Ok(()) => {},
        Err(e) => {
            return Err(ProgramError::RuntimeError(e));
        },
    }
    match runtime.pop_context(false) {
        Ok(()) => {},
        Err(e) => {
            return Err(ProgramError::RuntimeError(e));
        },
    }
    let n = match runtime.generate_u32() {
        Ok(n) => n,
        Err(e) => {
            return Err(ProgramError::RuntimeError(e));
        },
    };
    let name = make_return_name(id, n);
    let none: Vec<u32> = Vec::new();
    assert(none@ =~= Seq::<u32>::empty());
    match runtime.declare_item(DataType::Component, name.as_str(), none.as_slice()) {
        Ok(()) => {},
        Err(e) => {
            return Err(ProgramError::RuntimeError(e));
        },
    }
    let access = scalar_access(name.as_str());
    match runtime.set_component(&access, bindings) {
        Ok(()) => Ok(access),
        Err(e) => Err(ProgramError::RuntimeError(e)),
    }
}

/// The values at `accesses`, each of which must have one.
fn read_values(runtime: &Runtime, accesses: &Vec<DataAccess>) -> (r: Result<Vec<u32>, ProgramError>)
    requires
        runtime.wf(),
    ensures
        values_view(r) == read_all(runtime@, accesses_view(accesses@), 0, Seq::empty()),
{
    let mut values: Vec<u32> = Vec::new();
    let mut i: usize = 0;
    assert(values@ =~= Seq::<u32>::empty());
    while i < accesses.len()
        invariant
            i <= accesses.len(),
            runtime.wf(),
            read_all(runtime@, accesses_view(accesses@), i as int, values@) == read_all(
                runtime@,
                accesses_view(accesses@),
                0,
                Seq::empty(),
            ),
        decreases accesses.len() - i,
    {
        assert(accesses_view(accesses@)[i as int] == accesses@[i as int]@);
        let v = match read_value(runtime, &accesses[i]) {
            Ok(v) => v,
            Err(e) => {
                return Err(e);
            },
        };
        values.push(v);
        i += 1;
    }
    Ok(values)
}

/// The views of a list of steps that grew by one.
proof fn lemma_path_view_push(steps: Seq<SubAccess>, step: SubAccess)
    ensures
        path_view(steps.push(step)) == path_view(steps).push(step@),
{
    assert(path_view(steps.push(step)) =~= path_view(steps).push(step@));
}

/// The views of a list of accesses that grew by one.
proof fn lemma_accesses_view_push(accesses: Seq<DataAccess>, a: DataAccess)
    ensures
        accesses_view(accesses.push(a)) == accesses_view(accesses).push(a@),
{
    assert(accesses_view(accesses.push(a)) =~= accesses_view(accesses).push(a@));
}

/// Evaluates `expression` with `fuel` left for calls and loops.
fn run_expression(
    ac: &mut ArithmeticCircuit,
    runtime: &mut Runtime,
    program_archive: &ProgramArchive,
    fuel: u32,
    expression: &Expression,
) -> (r: Result<DataAccess, ProgramError>)
    requires
        old(ac).wf(),
        old(runtime).wf(),
    ensures
        final(ac).wf(),
        final(ac)@.extends(old(ac)@),
        final(runtime).wf(),
        confined(old(runtime)@, final(runtime)@, r is Ok),
        refines(
            final(ac)@,
            final(runtime)@,
            access_view(r),
            eval_expression(
                *program_archive,
                fuel as nat,
                state_of(old(ac)@, old(runtime)@),
                *expression,
            ),
        ),
    decreases fuel, 0nat, expression, 1nat,
{
    match expression {
        Expression::Call { .. } => handle_call(ac, runtime, program_archive, fuel, expression),
        Expression::InfixOp { .. } => handle_infix_op(
            ac,
            runtime,
            program_archive,
            fuel,
            expression,
        ),
        Expression::Number(n) => number_literal(runtime, n),
        Expression::Variable { name, access } => run_access(
            ac,
            runtime,
            program_archive,
            fuel,
            name.as_str(),
            access.as_slice(),
        ),
        _ => {
            proof {
                reveal_strlit("");
            }
            let a = scalar_access("");
            assert(a@.name =~= Seq::<char>::empty());
            Ok(a)
        },
    }
}

/// Evaluates both operands of the infix operation `expression`, then computes
/// the result where both are variables, and emits a gate otherwise.
fn handle_infix_op(
    ac: &mut ArithmeticCircuit,
    runtime: &mut Runtime,
    program_archive: &ProgramArchive,
    fuel: u32,
    expression: &Expression,
) -> (r: Result<DataAccess, ProgramError>)
    requires
        old(ac).wf(),
        old(runtime).wf(),
        expression is InfixOp,
    ensures
        final(ac).wf(),
        final(ac)@.extends(old(ac)@),
        final(runtime).wf(),
        confined(old(runtime)@, final(runtime)@, r is Ok),
        refines(
            final(ac)@,
            final(runtime)@,
            access_view(r),
            eval_expression(
                *program_archive,
                fuel as nat,
                state_of(old(ac)@, old(runtime)@),
                *expression,
            ),
        ),
    decreases fuel, 0nat, expression, 0nat,
{
    match expression {
        Expression::InfixOp { lhe, infix_op, rhe } => {
            let l = match run_expression(ac, runtime, program_archive, fuel, lhe) {
                Ok(a) => a,
                Err(e) => {
                    return Err(e);
                },
            };
            let r = match run_expression(ac, runtime, program_archive, fuel, rhe) {
                Ok(a) => a,
                Err(e) => {
                    return Err(e);
                },
            };
            infix(ac, runtime, infix_op, &l, &r)
        },
        _ => Ok(scalar_access("")),
    }
}

/// Builds the access to `name` through `access` with `fuel` left.
fn run_access(
    ac: &mut ArithmeticCircuit,
    runtime: &mut Runtime,
    program_archive: &ProgramArchive,
    fuel: u32,
    name: &str,
    access: &[Access],
) -> (r: Result<DataAccess, ProgramError>)
    requires
        old(ac).wf(),
        old(runtime).wf(),
    ensures
        final(ac).wf(),
        final(ac)@.extends(old(ac)@),
        final(runtime).wf(),
        confined(old(runtime)@, final(runtime)@, r is Ok),
        refines(
            final(ac)@,
            final(runtime)@,
            access_view(r),
            eval_access(
                *program_archive,
                fuel as nat,
                state_of(old(ac)@, old(runtime)@),
                name@,
                access@,
            ),
        ),
    decreases fuel, 0nat, access@, 0nat,
{
    let mut steps: Vec<SubAccess> = Vec::new();
    let mut i: usize = 0;
    let ghost start = state_of(ac@, runtime@);
    assert(path_view(steps@) =~= Seq::<SubAccessView>::empty());
    while i < access.len()
        invariant
            ac@.extends(old(ac)@),
            confined(old(runtime)@, runtime@, true),
            i <= access.len(),
            ac.wf(),
            runtime.wf(),
            start == state_of(old(ac)@, old(runtime)@),
            eval_path(
                *program_archive,
                fuel as nat,
                state_of(ac@, runtime@),
                access@,
                i as nat,
                path_view(steps@),
            ) == eval_path(*program_archive, fuel as nat, start, access@, 0, Seq::empty()),
        decreases access.len() - i,
    {
        match &access[i] {
            Access::ArrayAccess(e) => {
                let a = match run_expression(ac, runtime, program_archive, fuel, e) {
                    Ok(a) => a,
                    Err(x) => {
                        return Err(x);
                    },
                };
                let index = match read_value(runtime, &a) {
                    Ok(v) => v,
                    Err(x) => {
                        return Err(x);
                    },
                };
                let step = SubAccess::Array(index);
                proof {
                    lemma_path_view_push(steps@, step);
                }
                steps.push(step);
            },
            Access::ComponentAccess(signal) => {
                let step = SubAccess::Component(signal.clone());
                proof {
                    lemma_path_view_push(steps@, step);
                }
                steps.push(step);
            },
        }
        i += 1;
    }
    Ok(DataAccess::new(name, steps))
}

/// Evaluates the expressions in turn with `fuel` left and returns their
/// accesses.
fn run_list(
    ac: &mut ArithmeticCircuit,
    runtime: &mut Runtime,
    program_archive: &ProgramArchive,
    fuel: u32,
    exprs: &[Expression],
) -> (r: Result<Vec<DataAccess>, ProgramError>)
    requires
        old(ac).wf(),
        old(runtime).wf(),
    ensures
        final(ac).wf(),
        final(ac)@.extends(old(ac)@),
        final(runtime).wf(),
        confined(old(runtime)@, final(runtime)@, r is Ok),
        refines(
            final(ac)@,
            final(runtime)@,
            list_view(r),
            eval_list(
                *program_archive,
                fuel as nat,
                state_of(old(ac)@, old(runtime)@),
                exprs@,
                0,
                Seq::empty(),
            ),
        ),
    decreases fuel, 0nat, exprs@, 0nat,
{
    let mut accesses: Vec<DataAccess> = Vec::new();
    let mut i: usize = 0;
    let ghost start = state_of(ac@, runtime@);
    assert(accesses_view(accesses@) =~= Seq::<AccessView>::empty());
    while i < exprs.len()
        invariant
            ac@.extends(old(ac)@),
            confined(old(runtime)@, runtime@, true),
            i <= exprs.len(),
            ac.wf(),
            runtime.wf(),
            start == state_of(old(ac)@, old(runtime)@),
            eval_list(
                *program_archive,
                fuel as nat,
                state_of(ac@, runtime@),
                exprs@,
                i as nat,
                accesses_view(accesses@),
            ) == eval_list(*program_archive, fuel as nat, start, exprs@, 0, Seq::empty()),
        decreases exprs.len() - i,
    {
        let a = match run_expression(ac, runtime, program_archive, fuel, &exprs[i]) {
            Ok(a) => a,
            Err(x) => {
                return Err(x);
            },
        };
        proof {
            lemma_accesses_view_push(accesses@, a);
        }
        accesses.push(a);
        i += 1;
    }
    Ok(accesses)
}

/// Evaluates the arguments in turn with `fuel` left, reading the value of
/// each before the next.
fn run_args(
    ac: &mut ArithmeticCircuit,
    runtime: &mut Runtime,
    program_archive: &ProgramArchive,
    fuel: u32,
    args: &[Expression],
) -> (r: Result<Vec<u32>, ProgramError>)
    requires
        old(ac).wf(),
        old(runtime).wf(),
    ensures
        final(ac).wf(),
        final(ac)@.extends(old(ac)@),
        final(runtime).wf(),
        confined(old(runtime)@, final(runtime)@, r is Ok),
        refines(
            final(ac)@,
            final(runtime)@,
            values_view(r),
            eval_args(
                *program_archive,
                fuel as nat,
                state_of(old(ac)@, old(runtime)@),
                args@,
                0,
                Seq::empty(),
            ),
        ),
    decreases fuel, 0nat, args@, 0nat,
{
    let mut values: Vec<u32> = Vec::new();
    let mut i: usize = 0;
    let ghost start = state_of(ac@, runtime@);
    assert(values@ =~= Seq::<u32>::empty());
    while i < args.len()
        invariant
            ac@.extends(old(ac)@),
            confined(old(runtime)@, runtime@, true),
            i <= args.len(),
            ac.wf(),
            runtime.wf(),
            start == state_of(old(ac)@, old(runtime)@),
            eval_args(
                *program_archive,
                fuel as nat,
                state_of(ac@, runtime@),
                args@,
                i as nat,
                values@,
            ) == eval_args(*program_archive, fuel as nat, start, args@, 0, Seq::empty()),
        decreases args.len() - i,
    {
        let a = match run_expression(ac, runtime, program_archive, fuel, &args[i]) {
            Ok(a) => a,
            Err(x) => {
                return Err(x);
            },
        };
        let v = match read_value(runtime, &a) {
            Ok(v) => v,
            Err(x) => {
                return Err(x);
            },
        };
        values.push(v);
        i += 1;
    }
    Ok(values)
}

/// Runs the call `expression`: the arguments are evaluated in the caller's
/// frame, the body runs in a fresh frame that holds the parameters, and the
/// value of a function, or the signals of a template, come back as a new item
/// of the caller.
fn handle_call(
    ac: &mut ArithmeticCircuit,
    runtime: &mut Runtime,
    program_archive: &ProgramArchive,
    fuel: u32,
    expression: &Expression,
) -> (r: Result<DataAccess, ProgramError>)
    requires
        old(ac).wf(),
        old(runtime).wf(),
        expression is Call,
    ensures
        final(ac).wf(),
        final(ac)@.extends(old(ac)@),
        final(runtime).wf(),
        confined(old(runtime)@, final(runtime)@, r is Ok),
        refines(
            final(ac)@,
            final(runtime)@,
            access_view(r),
            eval_call(
                *program_archive,
                fuel as nat,
                state_of(old(ac)@, old(runtime)@),
                *expression,
            ),
        ),
    decreases fuel, 0nat, expression, 0nat,
{
    match expression {
        Expression::Call { id, args } => {
            let function = program_archive.function_index(id.as_str());
            let template = match function {
                Some(_) => None,
                None => program_archive.template_index(id.as_str()),
            };
            if function.is_none() && template.is_none() {
                return Err(ProgramError::UndefinedFunctionOrTemplate);
            }
            let values = match run_args(ac, runtime, program_archive, fuel, args.as_slice()) {
                Ok(v) => v,
                Err(e) => {
                    return Err(e);
                },
            };
            if fuel == 0 {
                return Err(ProgramError::LimitExceeded);
            }
            let ghost outside = runtime@;
            proof {
                runtime.lemma_has_frame();
            }
            runtime.push_context(false);
            match function {
                Some(f) => {
                    let data = &program_archive.functions[f];
                    match bind_parameters(runtime, &data.params, &values) {
                        Ok(()) => {},
                        Err(e) => {
                            proof {
                                lemma_scope_inside(outside, false, runtime@, false);
                            }
                            return Err(ProgramError::RuntimeError(e));
                        },
                    }
                    match run_statements(
                        ac,
                        runtime,
                        program_archive,
                        fuel - 1,
                        data.body.as_slice(),
                    ) {
                        Ok(()) => {},
                        Err(e) => {
                            proof {
                                lemma_scope_inside(outside, false, runtime@, false);
                            }
                            return Err(e);
                        },
                    }
                    let ghost inside = runtime@;
                    let r = end_function(runtime, id.as_str());
                    proof {
                        lemma_scope_inside(outside, false, inside, true);
                        if let Ok(popped) = inside.pop_context(false) {
                            lemma_scope_left(outside, false, inside, popped);
                        }
                    }
                    r
                },
                None => {
                    let t = template.unwrap();
                    let data = &program_archive.templates[t];
                    match bind_parameters(runtime, &data.params, &values) {
                        Ok(()) => {},
                        Err(e) => {
                            proof {
                                lemma_scope_inside(outside, false, runtime@, false);
                            }
                            return Err(ProgramError::RuntimeError(e));
                        },
                    }
                    match run_statements(
                        ac,
                        runtime,
                        program_archive,
                        fuel - 1,
                        data.body.as_slice(),
                    ) {
                        Ok(()) => {},
                        Err(e) => {
                            proof {
                                lemma_scope_inside(outside, false, runtime@, false);
                            }
                            return Err(e);
                        },
                    }
                    let ghost inside = runtime@;
                    let r = end_template(runtime, id.as_str(), &data.inputs, &data.outputs);
                    proof {
                        lemma_scope_inside(outside, false, inside, true);
                        if let Ok(popped) = inside.pop_context(false) {
                            lemma_scope_left(outside, false, inside, popped);
                        }
                    }
                    r
                },
            }
        },
        _ => Ok(scalar_access("")),
    }
}

/// Runs the statements in turn with `fuel` left, up to the first that fails.
fn run_statements(
    ac: &mut ArithmeticCircuit,
    runtime: &mut Runtime,
    program_archive: &ProgramArchive,
    fuel: u32,
    statements: &[Statement],
) -> (r: Result<(), ProgramError>)
    requires
        old(ac).wf(),
        old(runtime).wf(),
    ensures
        final(ac).wf(),
        final(ac)@.extends(old(ac)@),
        final(runtime).wf(),
        confined(old(runtime)@, final(runtime)@, r is Ok),
        refines(
            final(ac)@,
            final(runtime)@,
            unit_view(r),
            eval_block(
                *program_archive,
                fuel as nat,
                state_of(old(ac)@, old(runtime)@),
                statements@,
                0,
            ),
        ),
    decreases fuel, 1nat, statements@, 0nat,
{
    let mut i: usize = 0;
    let ghost start = state_of(ac@, runtime@);
    while i < statements.len()
        invariant
            ac@.extends(old(ac)@),
            confined(old(runtime)@, runtime@, true),
            i <= statements.len(),
            ac.wf(),
            runtime.wf(),
            start == state_of(old(ac)@, old(runtime)@),
            eval_block(
                *program_archive,
                fuel as nat,
                state_of(ac@, runtime@),
                statements@,
                i as nat,
            ) == eval_block(*program_archive, fuel as nat, start, statements@, 0),
        decreases statements.len() - i,
    {
        match run_statement(ac, runtime, program_archive, fuel, &statements[i]) {
            Ok(()) => {},
            Err(e) => {
                return Err(e);
            },
        }
        i += 1;
    }
    Ok(())
}

/// Runs the loop `statement` inside the frame that was entered for it, with
/// `fuel` left: each repetition of the body takes one unit.
fn run_while(
    ac: &mut ArithmeticCircuit,
    runtime: &mut Runtime,
    program_archive: &ProgramArchive,
    fuel: u32,
    statement: &Statement,
) -> (r: Result<(), ProgramError>)
    requires
        old(ac).wf(),
        old(runtime).wf(),
        statement is While,
    ensures
        final(ac).wf(),
        final(ac)@.extends(old(ac)@),
        final(runtime).wf(),
        confined(old(runtime)@, final(runtime)@, r is Ok),
        refines(
            final(ac)@,
            final(runtime)@,
            unit_view(r),
            eval_while(
                *program_archive,
                fuel as nat,
                state_of(old(ac)@, old(runtime)@),
                *statement,
            ),
        ),
    decreases fuel, 1nat, statement, 0nat,
{
    match statement {
        Statement::While { cond, stmt } => {
            let mut left: u32 = fuel;
            loop
                invariant
                    ac@.extends(old(ac)@),
                    confined(old(runtime)@, runtime@, true),
                    left <= fuel,
                    ac.wf(),
                    runtime.wf(),
                    *statement == (Statement::While { cond: *cond, stmt: *stmt }),
                    eval_while(
                        *program_archive,
                        left as nat,
                        state_of(ac@, runtime@),
                        *statement,
                    ) == eval_while(
                        *program_archive,
                        fuel as nat,
                        state_of(old(ac)@, old(runtime)@),
                        *statement,
                    ),
                decreases left,
            {
                let a = match run_expression(ac, runtime, program_archive, left, cond) {
                    Ok(a) => a,
                    Err(e) => {
                        return Err(e);
                    },
                };
                let c = match read_value(runtime, &a) {
                    Ok(v) => v,
                    Err(e) => {
                        return Err(e);
                    },
                };
                if c == 0 {
                    return Ok(());
                }
                let ghost outside = runtime@;
                proof {
                    runtime.lemma_has_frame();
                }
                runtime.push_context(true);
                match run_statement(ac, runtime, program_archive, left, stmt) {
                    Ok(()) => {},
                    Err(e) => {
                        proof {
                            lemma_scope_inside(outside, true, runtime@, false);
                        }
                        return Err(e);
                    },
                }
                let ghost inside = runtime@;
                match runtime.pop_context(true) {
                    Ok(()) => {
                        proof {
                            lemma_scope_left(outside, true, inside, runtime@);
                        }
                    },
                    Err(e) => {
                        proof {
                            lemma_scope_inside(outside, true, inside, true);
                        }
                        return Err(ProgramError::RuntimeError(e));
                    },
                }
                if left == 0 {
                    return Err(ProgramError::LimitExceeded);
                }
                left = left - 1;
            }
        },
        _ => Ok(()),
    }
}

/// Runs `statement` with `fuel` left for calls and loops.
fn run_statement(
    ac: &mut ArithmeticCircuit,
    runtime: &mut Runtime,
    program_archive: &ProgramArchive,
    fuel: u32,
    statement: &Statement,
) -> (r: Result<(), ProgramError>)
    requires
        old(ac).wf(),
        old(runtime).wf(),
    ensures
        final(ac).wf(),
        final(ac)@.extends(old(ac)@),
        final(runtime).wf(),
        confined(old(runtime)@, final(runtime)@, r is Ok),
        refines(
            final(ac)@,
            final(runtime)@,
            unit_view(r),
            eval_statement(
                *program_archive,
                fuel as nat,
                state_of(old(ac)@, old(runtime)@),
                *statement,
            ),
        ),
    decreases fuel, 1nat, statement, 1nat,
{
    match statement {
        Statement::Block { stmts } => run_statements(
            ac,
            runtime,
            program_archive,
            fuel,
            stmts.as_slice(),
        ),
        Statement::InitializationBlock { initializations } => run_statements(
            ac,
            runtime,
            program_archive,
            fuel,
            initializations.as_slice(),
        ),
        Statement::Declaration { xtype, name, dimensions } => {
            let listed = run_list(ac, runtime, program_archive, fuel, dimensions.as_slice());
            let accesses = match listed {
                Ok(a) => a,
                Err(e) => {
                    return Err(e);
                },
            };
            let dims = match read_values(runtime, &accesses) {
                Ok(d) => d,
                Err(e) => {
                    return Err(e);
                },
            };
            declare(ac, runtime, xtype, name.as_str(), &dims)
        },
        Statement::While { .. } => {
            let ghost outside = runtime@;
            proof {
                runtime.lemma_has_frame();
            }
            runtime.push_context(true);
            match run_while(ac, runtime, program_archive, fuel, statement) {
                Ok(()) => {},
                Err(e) => {
                    proof {
                        lemma_scope_inside(outside, true, runtime@, false);
                    }
                    return Err(e);
                },
            }
            let ghost inside = runtime@;
            match runtime.pop_context(true) {
                Ok(()) => {
                    proof {
                        lemma_scope_left(outside, true, inside, runtime@);
                    }
                    Ok(())
                },
                Err(e) => {
                    proof {
                        lemma_scope_inside(outside, true, inside, true);
                    }
                    Err(ProgramError::RuntimeError(e))
                },
            }
        },
        Statement::IfThenElse { cond, if_case, else_case } => {
            let a = match run_expression(ac, runtime, program_archive, fuel, cond) {
                Ok(a) => a,
                Err(e) => {
                    return Err(e);
                },
            };
            let c = match read_value(runtime, &a) {
                Ok(v) => v,
                Err(e) => {
                    return Err(e);
                },
            };
            if c == 0 {
                match else_case {
                    None => Ok(()),
                    Some(other) => {
                        let ghost outside = runtime@;
                        proof {
                            runtime.lemma_has_frame();
                        }
                        runtime.push_context(true);
                        match run_statement(ac, runtime, program_archive, fuel, other) {
                            Ok(()) => {},
                            Err(e) => {
                                proof {
                                    lemma_scope_inside(outside, true, runtime@, false);
                                }
                                return Err(e);
                            },
                        }
                        let ghost inside = runtime@;
                        match runtime.pop_context(true) {
                            Ok(()) => {
                                proof {
                                    lemma_scope_left(outside, true, inside, runtime@);
                                }
                                Ok(())
                            },
                            Err(e) => {
                                proof {
                                    lemma_scope_inside(outside, true, inside, true);
                                }
                                Err(ProgramError::RuntimeError(e))
                            },
                        }
                    },
                }
            } else {
                let ghost outside = runtime@;
                proof {
                    runtime.lemma_has_frame();
                }
                runtime.push_context(true);
                match run_statement(ac, runtime, program_archive, fuel, if_case) {
                    Ok(()) => {},
                    Err(e) => {
                        proof {
                            lemma_scope_inside(outside, true, runtime@, false);
                        }
                        return Err(e);
                    },
                }
                let ghost inside = runtime@;
                match runtime.pop_context(true) {
                    Ok(()) => {
                        proof {
                            lemma_scope_left(outside, true, inside, runtime@);
                        }
                        Ok(())
                    },
                    Err(e) => {
                        proof {
                            lemma_scope_inside(outside, true, inside, true);
                        }
                        Err(ProgramError::RuntimeError(e))
                    },
                }
            }
        },
        Statement::Substitution { var, access, op, rhe } => {
            let lh = match run_access(
                ac,
                runtime,
                program_archive,
                fuel,
                var.as_str(),
                access.as_slice(),
            ) {
                Ok(a) => a,
                Err(e) => {
                    return Err(e);
                },
            };
            let rh = match run_expression(ac, runtime, program_archive, fuel, rhe) {
                Ok(a) => a,
                Err(e) => {
                    return Err(e);
                },
            };
            substitute(ac, runtime, var.as_str(), op, &lh, &rh)
        },
        Statement::Return { value } => {
            let a = match run_expression(ac, runtime, program_archive, fuel, value) {
                Ok(a) => a,
                Err(e) => {
                    return Err(e);
                },
            };
            return_value(runtime, &a)
        },
        _ => Ok(()),
    }
}

/// Runs the statements in turn, up to the first that fails. Calls and loops
/// are bounded by the limit of the run-time; a run that goes beyond it ends
/// in `LimitExceeded`.
pub fn process_statements(
    ac: &mut ArithmeticCircuit,
    runtime: &mut Runtime,
    program_archive: &ProgramArchive,
    statements: &[Statement],
) -> (r: Result<(), ProgramError>)
    requires
        old(ac).wf(),
        old(runtime).wf(),
    ensures
        final(ac).wf(),
        final(ac)@.well_formed(),
        final(ac)@.extends(old(ac)@),
        final(runtime).wf(),
        final(runtime)@.well_formed(),
        confined(old(runtime)@, final(runtime)@, r is Ok),
        refines(
            final(ac)@,
            final(runtime)@,
            unit_view(r),
            eval_block(
                *program_archive,
                old(runtime)@.limit as nat,
                state_of(old(ac)@, old(runtime)@),
                statements@,
                0,
            ),
        ),
{
    let fuel = runtime.limit();
    let r = run_statements(ac, runtime, program_archive, fuel, statements);
    proof {
        ac.lemma_wf();
        runtime.lemma_wf();
    }
    r
}

/// Runs one statement: a declaration, an assignment, a block, a loop, a
/// choice or a return. The forms without meaning do nothing.
pub fn process_statement(
    ac: &mut ArithmeticCircuit,
    runtime: &mut Runtime,
    program_archive: &ProgramArchive,
    statement: &Statement,
) -> (r: Result<(), ProgramError>)
    requires
        old(ac).wf(),
        old(runtime).wf(),
    ensures
        final(ac).wf(),
        final(ac)@.well_formed(),
        final(ac)@.extends(old(ac)@),
        final(runtime).wf(),
        final(runtime)@.well_formed(),
        confined(old(runtime)@, final(runtime)@, r is Ok),
        refines(
            final(ac)@,
            final(runtime)@,
            unit_view(r),
            eval_statement(
                *program_archive,
                old(runtime)@.limit as nat,
                state_of(old(ac)@, old(runtime)@),
                *statement,
            ),
        ),
{
    let fuel = runtime.limit();
    let r = run_statement(ac, runtime, program_archive, fuel, statement);
    proof {
        ac.lemma_wf();
        runtime.lemma_wf();
    }
    r
}

/// Evaluates an expression and returns the access to its result: a new
/// variable for what was computed, a new signal for what a gate drives, a
/// new item for what a call gave back, and the address itself for a name.
pub fn process_expression(
    ac: &mut ArithmeticCircuit,
    runtime: &mut Runtime,
    program_archive: &ProgramArchive,
    expression: &Expression,
) -> (r: Result<DataAccess, ProgramError>)
    requires
        old(ac).wf(),
        old(runtime).wf(),
    ensures
        final(ac).wf(),
        final(ac)@.well_formed(),
        final(ac)@.extends(old(ac)@),
        final(runtime).wf(),
        final(runtime)@.well_formed(),
        confined(old(runtime)@, final(runtime)@, r is Ok),
        refines(
            final(ac)@,
            final(runtime)@,
            access_view(r),
            eval_expression(
                *program_archive,
                old(runtime)@.limit as nat,
                state_of(old(ac)@, old(runtime)@),
                *expression,
            ),
        ),
{
    let fuel = runtime.limit();
    let r = run_expression(ac, runtime, program_archive, fuel, expression);
    proof {
        ac.lemma_wf();
        runtime.lemma_wf();
    }
    r
}

/// Builds the access to `name` through `access`: every index is evaluated
/// and must have a value. Nothing is read at the address itself.
pub fn build_access(
    ac: &mut ArithmeticCircuit,
    runtime: &mut Runtime,
    program_archive: &ProgramArchive,
    name: &str,
    access: &[Access],
) -> (r: Result<DataAccess, ProgramError>)
    requires
        old(ac).wf(),
        old(runtime).wf(),
    ensures
        final(ac).wf(),
        final(ac)@.well_formed(),
        final(ac)@.extends(old(ac)@),
        final(runtime).wf(),
        final(runtime)@.well_formed(),
        confined(old(runtime)@, final(runtime)@, r is Ok),
        refines(
            final(ac)@,
            final(runtime)@,
            access_view(r),
            eval_access(
                *program_archive,
                old(runtime)@.limit as nat,
                state_of(old(ac)@, old(runtime)@),
                name@,
                access@,
            ),
        ),
{
    let fuel = runtime.limit();
    let r = run_access(ac, runtime, program_archive, fuel, name, access);
    proof {
        ac.lemma_wf();
        runtime.lemma_wf();
    }
    r
}

} // verus!
