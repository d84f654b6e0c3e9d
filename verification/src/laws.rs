//! Laws of the interpreter, proved of what it computes.

use crate::ast::{DataType, Expression, ExpressionInfixOpcode, Statement};
use crate::circuit::{CircuitView, SignalEntry};
use crate::process::refines;
use crate::program::{Failure, ProgramArchive};
use crate::runtime::{
    array_indices, flat_index, in_bounds, lemma_declare_random_variable, lemma_flat_index_bound,
    lemma_set_variable_keeps_types, lemma_with_new_item_locate, volume, AccessView, ContentView,
    ItemView, RuntimeView, SubAccessView,
};
use crate::semantics::{
    apply_declaration, apply_infix, eval_block, eval_expression, eval_number, read_scalar,
    register_all, store_value, Outcome, State,
};
use vstd::prelude::*;

verus! {

/// Whether `e` is made of number literals and operators alone.
pub open spec fn constant_only(e: Expression) -> bool
    decreases e,
{
    match e {
        Expression::Number(_) => true,
        Expression::InfixOp { lhe, infix_op, rhe } => constant_only(*lhe) && constant_only(*rhe),
        _ => false,
    }
}

/// A step from `st` to the outcome `o` that only computed: it left the
/// circuit as it was, kept the run-time well formed and every variable a
/// variable, and what it gave back, if anything, is a variable.
pub open spec fn only_computed(st: State, o: Outcome<AccessView>) -> bool {
    &&& o.state.circuit == st.circuit
    &&& o.state.runtime.well_formed()
    &&& forall|n: Seq<char>| st.runtime.is_variable(n) ==> #[trigger] o.state.runtime.is_variable(n)
    &&& o.result matches Ok(a) ==> o.state.runtime.is_variable(a.name)
}

/// Keeping a value in a new anonymous variable only computes.
pub proof fn lemma_store_value_only_computes(st: State, v: u32)
    requires
        st.runtime.well_formed(),
    ensures
        only_computed(st, store_value(st, v)),
{
    reveal(store_value);
    if let Ok((rt1, a)) = st.runtime.declare_random_item(DataType::Variable) {
        lemma_declare_random_variable(st.runtime);
        if let Ok(rt2) = rt1.set_variable(a, Some(v)) {
            lemma_set_variable_keeps_types(rt1, a, Some(v));
            assert forall|n: Seq<char>| st.runtime.is_variable(n) implies #[trigger]
                rt2.is_variable(n) by {
                assert(rt1.is_variable(n));
                assert(rt2.get_item_data_type(n) == rt1.get_item_data_type(n));
            }
            assert(rt2.get_item_data_type(a.name) == rt1.get_item_data_type(a.name));
        }
    }
}

/// A number literal only computes.
pub proof fn lemma_number_only_computes(st: State, negative: bool, magnitude: Seq<u8>)
    requires
        st.runtime.well_formed(),
    ensures
        only_computed(st, eval_number(st, negative, magnitude)),
{
    reveal(eval_number);
    if let Ok((rt1, a)) = st.runtime.declare_random_item(DataType::Variable) {
        lemma_declare_random_variable(st.runtime);
        if let Some(v) = crate::number::literal_to_u32(negative, magnitude) {
            if let Ok(rt2) = rt1.set_variable(a, Some(v)) {
                lemma_set_variable_keeps_types(rt1, a, Some(v));
                assert forall|n: Seq<char>| st.runtime.is_variable(n) implies #[trigger]
                    rt2.is_variable(n) by {
                    assert(rt1.is_variable(n));
                    assert(rt2.get_item_data_type(n) == rt1.get_item_data_type(n));
                }
                assert(rt2.get_item_data_type(a.name) == rt1.get_item_data_type(a.name));
            }
        }
    }
}

/// An operator between two variables only computes.
pub proof fn lemma_infix_of_variables_only_computes(
    st: State,
    op: ExpressionInfixOpcode,
    l: AccessView,
    r: AccessView,
)
    requires
        st.runtime.well_formed(),
        st.runtime.is_variable(l.name),
        st.runtime.is_variable(r.name),
    ensures
        only_computed(st, apply_infix(st, op, l, r)),
{
    reveal(apply_infix);
    if let Ok(lv) = read_scalar(st.runtime, l) {
        if let Ok(rv) = read_scalar(st.runtime, r) {
            if let Ok(v) = crate::semantics::op_result(lv, rv, op) {
                lemma_store_value_only_computes(st, v);
            }
        }
    }
}

/// An expression made of number literals and operators alone adds no signal,
/// no gate and no connection to the circuit, whether it has a value or
/// fails.
pub proof fn lemma_constant_expression_only_computes(
    p: ProgramArchive,
    fuel: nat,
    st: State,
    e: Expression,
)
    requires
        constant_only(e),
        st.runtime.well_formed(),
    ensures
        only_computed(st, eval_expression(p, fuel, st, e)),
        eval_expression(p, fuel, st, e).state.circuit == st.circuit,
    decreases e,
{
    match e {
        Expression::Number(n) => {
            lemma_number_only_computes(st, n.negative, n.magnitude@);
        },
        Expression::InfixOp { lhe, infix_op, rhe } => {
            lemma_constant_expression_only_computes(p, fuel, st, *lhe);
            let o1 = eval_expression(p, fuel, st, *lhe);
            if let Ok(l) = o1.result {
                lemma_constant_expression_only_computes(p, fuel, o1.state, *rhe);
                let o2 = eval_expression(p, fuel, o1.state, *rhe);
                if let Ok(r) = o2.result {
                    assert(o2.state.runtime.is_variable(l.name));
                    lemma_infix_of_variables_only_computes(o2.state, infix_op, l, r);
                    let o3 = apply_infix(o2.state, infix_op, l, r);
                    assert forall|n: Seq<char>| st.runtime.is_variable(n) implies #[trigger]
                        o3.state.runtime.is_variable(n) by {
                        assert(o1.state.runtime.is_variable(n));
                        assert(o2.state.runtime.is_variable(n));
                    }
                } else {
                    assert forall|n: Seq<char>| st.runtime.is_variable(n) implies #[trigger]
                        o2.state.runtime.is_variable(n) by {
                        assert(o1.state.runtime.is_variable(n));
                    }
                }
            }
        },
        _ => {},
    }
}

/// The entries of the signals `ids`.
pub open spec fn entries(ids: Seq<u32>) -> Seq<SignalEntry> {
    Seq::new(ids.len(), |k: int| SignalEntry { id: ids[k], constant: false })
}

/// Registering signals one after the other appends their entries, in their
/// order, and touches nothing else.
pub proof fn lemma_register_all(st: State, ids: Seq<u32>, from: int)
    requires
        0 <= from <= ids.len(),
    ensures
        ({
            let o = register_all(st, ids, from);
            &&& o.state.runtime == st.runtime
            &&& o.state.circuit.gates == st.circuit.gates
            &&& o.state.circuit.connections == st.circuit.connections
            &&& o.result is Ok ==> o.state.circuit.signals == st.circuit.signals + entries(
                ids.subrange(from, ids.len() as int),
            )
        }),
    decreases ids.len() - from,
{
    reveal(CircuitView::add_signal);
    let o = register_all(st, ids, from);
    if from < ids.len() {
        if let Ok(c) = st.circuit.add_signal(ids[from]) {
            let next = State { circuit: c, ..st };
            lemma_register_all(next, ids, from + 1);
            if o.result is Ok {
                let rest = entries(ids.subrange(from + 1, ids.len() as int));
                let all = entries(ids.subrange(from, ids.len() as int));
                assert(all =~= seq![SignalEntry { id: ids[from], constant: false }] + rest);
                assert(o.state.circuit.signals =~= st.circuit.signals + all);
            }
        }
    } else {
        assert(st.circuit.signals =~= st.circuit.signals + entries(
            ids.subrange(from, ids.len() as int),
        ));
    }
}

/// The access to the leaf of `name` at the indices `idx`.
pub open spec fn indexed(name: Seq<char>, idx: Seq<u32>) -> AccessView {
    AccessView { name, path: Seq::new(idx.len(), |k: int| SubAccessView::Array(idx[k])) }
}

/// Declaring a signal of dimensions `dims` registers exactly as many signals
/// as the product of the dimensions, with consecutive ids, and the leaf at
/// the indices `idx` has the id at the row-major position of `idx`: the last
/// index varies fastest.
pub proof fn lemma_signal_declaration_is_row_major(st: State, name: Seq<char>, dims: Seq<u32>)
    requires
        st.runtime.well_formed(),
        apply_declaration(st, DataType::Signal, name, dims).result is Ok,
    ensures
        ({
            let o = apply_declaration(st, DataType::Signal, name, dims);
            let first = st.runtime.next_signal_id;
            &&& first + volume(dims) <= u32::MAX
            &&& o.state.circuit.signals == st.circuit.signals + Seq::new(
                volume(dims),
                |k: int| SignalEntry { id: (first + k) as u32, constant: false },
            )
            &&& o.state.circuit.gates == st.circuit.gates
            &&& o.state.circuit.connections == st.circuit.connections
            &&& forall|idx: Seq<u32>|
                in_bounds(dims, idx) ==> #[trigger] o.state.runtime.get_signal_id(
                    indexed(name, idx),
                ) == Ok::<u32, crate::runtime::RuntimeError>(
                    (first + flat_index(dims, idx)) as u32,
                )
        }),
{
    reveal(apply_declaration);
    reveal(RuntimeView::declare_item);
    reveal(RuntimeView::get_signal);
    reveal(RuntimeView::get_signal_id);
    let o = apply_declaration(st, DataType::Signal, name, dims);
    let rt = st.runtime;
    let first = rt.next_signal_id;
    let count = volume(dims);
    let ids = Seq::new(count, |k: int| (first + k) as u32);
    let item = ItemView { name, dims, content: ContentView::Signal(ids) };
    let rt1 = rt.declare_item(DataType::Signal, name, dims)->Ok_0;
    let top = rt.top();
    let n = rt.frames[top].items.len() as int;
    lemma_with_new_item_locate(rt, item, name);
    assert(rt1.frames == rt.with_new_item(item).frames);
    assert(rt1.locate(name) == Some((top, n)));
    assert(rt1.frames[top].items[n] == item);
    let st1 = State { runtime: rt1, ..st };
    lemma_register_all(st1, ids, 0);
    assert(ids.subrange(0, ids.len() as int) =~= ids);
    assert(entries(ids) =~= Seq::new(
        volume(dims),
        |k: int| SignalEntry { id: (first + k) as u32, constant: false },
    ));
    assert(o.state.runtime == rt1);
    assert forall|idx: Seq<u32>| in_bounds(dims, idx) implies #[trigger] rt1.get_signal_id(
        indexed(name, idx),
    ) == Ok::<u32, crate::runtime::RuntimeError>((first + flat_index(dims, idx)) as u32) by {
        let path = indexed(name, idx).path;
        assert(array_indices(path).unwrap() =~= idx);
        lemma_flat_index_bound(dims, idx);
    }
}

/// Two runs of the same statements from the same circuit and run-time leave
/// the same signals, gates and connections, the same run-time and the same
/// result: nothing but the program, the circuit and the run-time goes into a
/// run.
pub proof fn lemma_runs_agree(
    p: ProgramArchive,
    st: State,
    statements: Seq<Statement>,
    circuit1: CircuitView,
    runtime1: RuntimeView,
    result1: Result<(), Failure>,
    circuit2: CircuitView,
    runtime2: RuntimeView,
    result2: Result<(), Failure>,
)
    requires
        refines(
            circuit1,
            runtime1,
            result1,
            eval_block(p, st.runtime.limit as nat, st, statements, 0),
        ),
        refines(
            circuit2,
            runtime2,
            result2,
            eval_block(p, st.runtime.limit as nat, st, statements, 0),
        ),
    ensures
        circuit1.signals == circuit2.signals,
        circuit1.gates == circuit2.gates,
        circuit1.connections == circuit2.connections,
        runtime1 == runtime2,
        result1 == result2,
{
}

} // verus!
