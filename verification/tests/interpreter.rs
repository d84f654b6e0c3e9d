use circom_arithc::ast::{
    Access, AssignOp, DataType, Expression, ExpressionInfixOpcode, Statement,
};
use circom_arithc::circuit::{
    AGateType, ArithmeticCircuit, CircuitError, Connection, Gate, SignalEntry,
};
use circom_arithc::number::BigNumber;
use circom_arithc::process::{
    build_access, get_signal_for_access, process_expression, process_statement,
    process_statements,
};
use circom_arithc::program::{FunctionData, ProgramArchive, ProgramError, TemplateData};
use circom_arithc::runtime::{DataAccess, Runtime, RuntimeError, SubAccess, FIRST_SIGNAL_ID};

fn num(v: u32) -> Expression {
    Expression::Number(BigNumber::from_u32(v))
}

fn var(name: &str) -> Expression {
    Expression::Variable { name: name.to_string(), access: vec![] }
}

fn elem(name: &str, indices: Vec<Expression>) -> Expression {
    Expression::Variable {
        name: name.to_string(),
        access: indices.into_iter().map(Access::ArrayAccess).collect(),
    }
}

fn field(name: &str, signal: &str) -> Expression {
    Expression::Variable {
        name: name.to_string(),
        access: vec![Access::ComponentAccess(signal.to_string())],
    }
}

fn op(o: ExpressionInfixOpcode, l: Expression, r: Expression) -> Expression {
    Expression::InfixOp { lhe: Box::new(l), infix_op: o, rhe: Box::new(r) }
}

fn call(id: &str, args: Vec<Expression>) -> Expression {
    Expression::Call { id: id.to_string(), args }
}

fn decl(xtype: DataType, name: &str, dimensions: Vec<Expression>) -> Statement {
    Statement::Declaration { xtype, name: name.to_string(), dimensions }
}

fn assign(name: &str, rhe: Expression) -> Statement {
    Statement::Substitution {
        var: name.to_string(),
        access: vec![],
        op: AssignOp::AssignVar,
        rhe,
    }
}

fn assign_at(name: &str, access: Vec<Access>, op: AssignOp, rhe: Expression) -> Statement {
    Statement::Substitution { var: name.to_string(), access, op, rhe }
}

fn constrain(name: &str, rhe: Expression) -> Statement {
    Statement::Substitution {
        var: name.to_string(),
        access: vec![],
        op: AssignOp::AssignConstraintSignal,
        rhe,
    }
}

fn block(stmts: Vec<Statement>) -> Statement {
    Statement::Block { stmts }
}

fn no_program() -> ProgramArchive {
    ProgramArchive::new(vec![], vec![])
}

fn value_of(rt: &Runtime, name: &str) -> Result<Option<u32>, RuntimeError> {
    rt.get_variable_value(&DataAccess::new(name, vec![]))
}

fn run(stmts: Vec<Statement>) -> (ArithmeticCircuit, Runtime, Result<(), ProgramError>) {
    run_in(&no_program(), stmts)
}

fn run_in(
    program: &ProgramArchive,
    stmts: Vec<Statement>,
) -> (ArithmeticCircuit, Runtime, Result<(), ProgramError>) {
    let mut ac = ArithmeticCircuit::new();
    let mut rt = Runtime::new();
    let r = process_statements(&mut ac, &mut rt, program, &stmts);
    (ac, rt, r)
}

fn signal(id: u32) -> SignalEntry {
    SignalEntry { id, constant: false }
}

fn constant(id: u32) -> SignalEntry {
    SignalEntry { id, constant: true }
}

const S0: u32 = FIRST_SIGNAL_ID;

#[test]
fn pure_arithmetic_makes_no_signals_and_no_gates() {
    let (ac, rt, r) = run(vec![
        decl(DataType::Variable, "a", vec![]),
        assign("a", num(3)),
        decl(DataType::Variable, "b", vec![]),
        assign("b", num(4)),
        decl(DataType::Variable, "c", vec![]),
        assign(
            "c",
            op(
                ExpressionInfixOpcode::Add,
                op(ExpressionInfixOpcode::Mul, var("a"), var("b")),
                num(1),
            ),
        ),
    ]);
    assert_eq!(r, Ok(()));
    assert!(ac.signals().is_empty());
    assert!(ac.gates().is_empty());
    assert!(ac.connections().is_empty());
    assert_eq!(value_of(&rt, "a"), Ok(Some(3)));
    assert_eq!(value_of(&rt, "b"), Ok(Some(4)));
    assert_eq!(value_of(&rt, "c"), Ok(Some(13)));
}

#[test]
fn a_sum_of_a_signal_and_a_number_is_one_gate() {
    let (ac, _rt, r) = run(vec![
        decl(DataType::Signal, "x", vec![]),
        decl(DataType::Signal, "y", vec![]),
        constrain("y", op(ExpressionInfixOpcode::Add, var("x"), num(1))),
    ]);
    assert_eq!(r, Ok(()));
    let (x, y, out) = (S0, S0 + 1, S0 + 2);
    assert_eq!(ac.signals(), &vec![signal(x), signal(y), constant(1), signal(out)]);
    assert_eq!(ac.gates(), &vec![Gate { gate_type: AGateType::Add, lhs: x, rhs: 1, out }]);
    assert_eq!(ac.connections(), &vec![Connection { src: out, dst: y }]);
}

#[test]
fn an_array_of_signals_registers_every_leaf_in_row_major_order() {
    let (ac, rt, r) = run(vec![decl(DataType::Signal, "s", vec![num(2), num(3)])]);
    assert_eq!(r, Ok(()));
    assert_eq!(ac.signals(), &(0..6u32).map(|k| signal(S0 + k)).collect::<Vec<_>>());
    assert!(ac.gates().is_empty());
    let mut expected = S0;
    for i in 0..2u32 {
        for j in 0..3u32 {
            let a = DataAccess::new("s", vec![SubAccess::Array(i), SubAccess::Array(j)]);
            assert_eq!(rt.get_signal_id(&a), Ok(expected));
            expected += 1;
        }
    }
}

#[test]
fn a_signal_without_leaves_registers_nothing() {
    let (ac, _rt, r) = run(vec![decl(DataType::Signal, "s", vec![num(3), num(0)])]);
    assert_eq!(r, Ok(()));
    assert!(ac.signals().is_empty());
}

#[test]
fn a_while_loop_over_variables_makes_no_gates() {
    let (ac, rt, r) = run(vec![
        decl(DataType::Variable, "i", vec![]),
        assign("i", num(0)),
        decl(DataType::Variable, "sum", vec![]),
        assign("sum", num(0)),
        Statement::While {
            cond: op(ExpressionInfixOpcode::Lesser, var("i"), num(4)),
            stmt: Box::new(block(vec![
                assign("sum", op(ExpressionInfixOpcode::Add, var("sum"), var("i"))),
                assign("i", op(ExpressionInfixOpcode::Add, var("i"), num(1))),
            ])),
        },
    ]);
    assert_eq!(r, Ok(()));
    assert!(ac.signals().is_empty());
    assert!(ac.gates().is_empty());
    assert_eq!(value_of(&rt, "sum"), Ok(Some(6)));
    assert_eq!(value_of(&rt, "i"), Ok(Some(4)));
    assert_eq!(rt.depth(), 1);
}

#[test]
fn what_a_loop_declares_is_gone_after_it() {
    let (_ac, rt, r) = run(vec![
        decl(DataType::Variable, "i", vec![]),
        assign("i", num(0)),
        Statement::While {
            cond: op(ExpressionInfixOpcode::Lesser, var("i"), num(3)),
            stmt: Box::new(block(vec![
                decl(DataType::Variable, "t", vec![]),
                assign("t", var("i")),
                assign("i", op(ExpressionInfixOpcode::Add, var("t"), num(1))),
            ])),
        },
    ]);
    assert_eq!(r, Ok(()));
    assert_eq!(value_of(&rt, "i"), Ok(Some(3)));
    assert_eq!(value_of(&rt, "t"), Err(RuntimeError::ItemNotDeclared));
}

fn mul_template() -> TemplateData {
    TemplateData {
        name: "Mul".to_string(),
        params: vec![],
        body: vec![
            decl(DataType::Signal, "a", vec![]),
            decl(DataType::Signal, "b", vec![]),
            decl(DataType::Signal, "c", vec![]),
            constrain("c", op(ExpressionInfixOpcode::Mul, var("a"), var("b"))),
        ],
        inputs: vec!["a".to_string(), "b".to_string()],
        outputs: vec!["c".to_string()],
    }
}

#[test]
fn a_template_gives_a_component_that_holds_its_signals() {
    let program = ProgramArchive::new(vec![], vec![mul_template()]);
    let (ac, rt, r) = run_in(
        &program,
        vec![
            decl(DataType::Signal, "x", vec![]),
            decl(DataType::Signal, "y", vec![]),
            decl(DataType::Signal, "z", vec![]),
            decl(DataType::Component, "m", vec![]),
            assign("m", call("Mul", vec![])),
            assign_at(
                "m",
                vec![Access::ComponentAccess("a".to_string())],
                AssignOp::AssignConstraintSignal,
                var("x"),
            ),
            assign_at(
                "m",
                vec![Access::ComponentAccess("b".to_string())],
                AssignOp::AssignConstraintSignal,
                var("y"),
            ),
            constrain("z", field("m", "c")),
        ],
    );
    assert_eq!(r, Ok(()));
    let (x, y, z, a, b, c, out) = (S0, S0 + 1, S0 + 2, S0 + 3, S0 + 4, S0 + 5, S0 + 6);
    assert_eq!(
        ac.signals(),
        &vec![signal(x), signal(y), signal(z), signal(a), signal(b), signal(c), signal(out)]
    );
    assert_eq!(ac.gates(), &vec![Gate { gate_type: AGateType::Mul, lhs: a, rhs: b, out }]);
    assert_eq!(
        ac.connections(),
        &vec![
            Connection { src: out, dst: c },
            Connection { src: x, dst: a },
            Connection { src: y, dst: b },
            Connection { src: c, dst: z },
        ]
    );
    assert_eq!(rt.depth(), 1);
    assert_eq!(rt.get_item_data_type("Mul_RETURN_1"), Ok(DataType::Component));
    assert_eq!(rt.get_item_data_type("a"), Err(RuntimeError::ItemNotDeclared));
    let bound = rt.get_component_map(&DataAccess::new("m", vec![])).unwrap();
    assert_eq!(bound.len(), 3);
    assert_eq!(bound[0].name(), "a");
    assert_eq!(bound[2].name(), "c");
    assert_eq!(bound[2].signal().ids(), &vec![c]);
}

fn square_plus_one() -> FunctionData {
    FunctionData {
        name: "f".to_string(),
        params: vec!["n".to_string()],
        body: vec![Statement::Return {
            value: op(
                ExpressionInfixOpcode::Add,
                op(ExpressionInfixOpcode::Mul, var("n"), var("n")),
                num(1),
            ),
        }],
    }
}

#[test]
fn a_function_gives_its_value_and_makes_no_gates() {
    let program = ProgramArchive::new(vec![square_plus_one()], vec![]);
    let (ac, rt, r) = run_in(
        &program,
        vec![decl(DataType::Variable, "v", vec![]), assign("v", call("f", vec![num(5)]))],
    );
    assert_eq!(r, Ok(()));
    assert_eq!(value_of(&rt, "v"), Ok(Some(26)));
    assert!(ac.gates().is_empty());
    assert!(ac.signals().is_empty());
    assert_eq!(rt.depth(), 1);
    assert_eq!(value_of(&rt, "n"), Err(RuntimeError::ItemNotDeclared));
    assert_eq!(value_of(&rt, "RETURN"), Err(RuntimeError::ItemNotDeclared));
}

#[test]
fn a_call_leaves_the_callers_names_alone() {
    let program = ProgramArchive::new(
        vec![FunctionData {
            name: "g".to_string(),
            params: vec!["n".to_string()],
            body: vec![
                decl(DataType::Variable, "a", vec![]),
                assign("a", num(99)),
                assign("n", num(98)),
                Statement::Return { value: var("a") },
            ],
        }],
        vec![],
    );
    let mut ac = ArithmeticCircuit::new();
    let mut rt = Runtime::new();
    let before = vec![
        decl(DataType::Variable, "a", vec![]),
        assign("a", num(1)),
        decl(DataType::Variable, "n", vec![]),
        assign("n", num(2)),
    ];
    assert_eq!(process_statements(&mut ac, &mut rt, &program, &before), Ok(()));
    let result = process_expression(&mut ac, &mut rt, &program, &call("g", vec![var("a")]));
    let result = result.unwrap();
    assert_eq!(rt.get_variable_value(&result), Ok(Some(99)));
    assert_eq!(value_of(&rt, "a"), Ok(Some(1)));
    assert_eq!(value_of(&rt, "n"), Ok(Some(2)));
    assert_eq!(rt.depth(), 1);
}

#[test]
fn a_function_that_returns_nothing_gives_no_value() {
    let program = ProgramArchive::new(
        vec![FunctionData { name: "h".to_string(), params: vec![], body: vec![] }],
        vec![],
    );
    let mut ac = ArithmeticCircuit::new();
    let mut rt = Runtime::new();
    let result = process_expression(&mut ac, &mut rt, &program, &call("h", vec![])).unwrap();
    assert_eq!(result.get_name(), "h_RETURN_0");
    assert_eq!(rt.get_variable_value(&result), Ok(None));
}

#[test]
fn two_runs_of_one_program_give_one_circuit() {
    let program = || ProgramArchive::new(vec![square_plus_one()], vec![mul_template()]);
    let stmts = || {
        vec![
            decl(DataType::Signal, "x", vec![num(2)]),
            decl(DataType::Signal, "z", vec![]),
            decl(DataType::Variable, "k", vec![]),
            assign("k", call("f", vec![num(2)])),
            decl(DataType::Component, "m", vec![]),
            assign("m", call("Mul", vec![])),
            assign_at(
                "m",
                vec![Access::ComponentAccess("a".to_string())],
                AssignOp::AssignConstraintSignal,
                op(ExpressionInfixOpcode::Add, elem("x", vec![num(0)]), var("k")),
            ),
            assign_at(
                "m",
                vec![Access::ComponentAccess("b".to_string())],
                AssignOp::AssignConstraintSignal,
                elem("x", vec![num(1)]),
            ),
            constrain("z", op(ExpressionInfixOpcode::Sub, field("m", "c"), num(7))),
        ]
    };
    let (first, _, r1) = run_in(&program(), stmts());
    let (second, _, r2) = run_in(&program(), stmts());
    assert_eq!(r1, Ok(()));
    assert_eq!(r2, Ok(()));
    assert_eq!(first.signals(), second.signals());
    assert_eq!(first.gates(), second.gates());
    assert_eq!(first.connections(), second.connections());
    assert_eq!(first.gates().len(), 3);
    for g in first.gates().iter() {
        assert!(first.is_registered(g.lhs));
        assert!(first.is_registered(g.rhs));
        assert!(first.is_registered(g.out));
    }
    for c in first.connections().iter() {
        assert!(first.is_registered(c.src) && first.is_registered(c.dst));
    }
}

#[test]
fn a_constant_expression_makes_no_gates_and_no_signals() {
    let mut ac = ArithmeticCircuit::new();
    let mut rt = Runtime::new();
    let e = op(
        ExpressionInfixOpcode::Sub,
        op(ExpressionInfixOpcode::Pow, num(2), num(10)),
        op(ExpressionInfixOpcode::Div, num(100), op(ExpressionInfixOpcode::Add, num(3), num(4))),
    );
    let a = process_expression(&mut ac, &mut rt, &no_program(), &e).unwrap();
    assert_eq!(rt.get_variable_value(&a), Ok(Some(1010)));
    assert!(ac.signals().is_empty());
    assert!(ac.gates().is_empty());
    assert!(ac.connections().is_empty());
}

#[test]
fn a_number_literal_too_large_is_a_parsing_error() {
    let mut ac = ArithmeticCircuit::new();
    let mut rt = Runtime::new();
    let big = Expression::Number(BigNumber { negative: false, magnitude: vec![1, 0, 0, 0, 0] });
    assert_eq!(
        process_expression(&mut ac, &mut rt, &no_program(), &big),
        Err(ProgramError::ParsingError)
    );
    let negative = Expression::Number(BigNumber { negative: true, magnitude: vec![1] });
    assert_eq!(
        process_expression(&mut ac, &mut rt, &no_program(), &negative),
        Err(ProgramError::ParsingError)
    );
    let fits = Expression::Number(BigNumber { negative: false, magnitude: vec![1, 0] });
    let a = process_expression(&mut ac, &mut rt, &no_program(), &fits).unwrap();
    assert_eq!(rt.get_variable_value(&a), Ok(Some(256)));
}

#[test]
fn reading_a_variable_without_a_value_is_an_error() {
    let use_of = |s: Statement| {
        let (_, _, r) = run(vec![
            decl(DataType::Variable, "u", vec![]),
            decl(DataType::Variable, "v", vec![num(2)]),
            decl(DataType::Signal, "s", vec![]),
            s,
        ]);
        r
    };
    let e = Err(ProgramError::EmptyDataItem);
    assert_eq!(use_of(assign("u", op(ExpressionInfixOpcode::Add, var("u"), num(1)))), e);
    assert_eq!(use_of(assign("u", op(ExpressionInfixOpcode::Add, num(1), var("u")))), e);
    assert_eq!(use_of(assign("u", elem("v", vec![var("u")]))), e);
    assert_eq!(use_of(decl(DataType::Variable, "w", vec![var("u")])), e);
    assert_eq!(use_of(Statement::Return { value: var("u") }), e);
    assert_eq!(use_of(constrain("s", var("u"))), e);
    assert_eq!(
        use_of(Statement::While { cond: var("u"), stmt: Box::new(block(vec![])) }),
        e
    );
    assert_eq!(
        use_of(Statement::IfThenElse {
            cond: var("u"),
            if_case: Box::new(block(vec![])),
            else_case: None
        }),
        e
    );
    assert_eq!(use_of(assign("u", op(ExpressionInfixOpcode::Mul, var("s"), var("u")))), e);
    // copying a variable that has no value is no read of its value
    assert_eq!(use_of(assign("u", elem("v", vec![num(1)]))), Ok(()));
}

#[test]
fn an_argument_without_a_value_is_an_error() {
    let program = ProgramArchive::new(vec![square_plus_one()], vec![]);
    let (_, rt, r) = run_in(
        &program,
        vec![
            decl(DataType::Variable, "u", vec![]),
            decl(DataType::Variable, "v", vec![]),
            assign("v", call("f", vec![var("u")])),
        ],
    );
    assert_eq!(r, Err(ProgramError::EmptyDataItem));
    assert_eq!(rt.depth(), 1);
}

#[test]
fn division_by_zero_stops_the_run() {
    for (o, message) in [
        (ExpressionInfixOpcode::Div, "Division by zero"),
        (ExpressionInfixOpcode::IntDiv, "Integer division by zero"),
        (ExpressionInfixOpcode::Mod, "Modulo by zero"),
    ] {
        let (ac, rt, r) = run(vec![
            decl(DataType::Variable, "a", vec![]),
            assign("a", op(o, num(7), num(0))),
            assign("a", num(1)),
        ]);
        assert_eq!(r, Err(ProgramError::OperationError(message.to_string())));
        assert_eq!(value_of(&rt, "a"), Ok(None));
        assert!(ac.gates().is_empty());
    }
}

#[test]
fn an_unknown_callee_is_an_error() {
    let (_, _, r) = run(vec![
        decl(DataType::Variable, "v", vec![]),
        assign("v", call("nobody", vec![num(1)])),
    ]);
    assert_eq!(r, Err(ProgramError::UndefinedFunctionOrTemplate));
}

#[test]
fn a_function_comes_before_a_template_of_its_name() {
    let mut t = mul_template();
    t.name = "f".to_string();
    let program = ProgramArchive::new(vec![square_plus_one()], vec![t]);
    assert!(program.contains_function("f"));
    assert!(program.contains_template("f"));
    assert!(!program.contains_function("Mul"));
    assert_eq!(program.function_index("f"), Some(0));
    assert_eq!(program.template_index("g"), None);
    let mut ac = ArithmeticCircuit::new();
    let mut rt = Runtime::new();
    let a = process_expression(&mut ac, &mut rt, &program, &call("f", vec![num(3)])).unwrap();
    assert_eq!(rt.get_variable_value(&a), Ok(Some(10)));
}

#[test]
fn surplus_arguments_and_parameters_are_left_out() {
    let program = ProgramArchive::new(
        vec![FunctionData {
            name: "first".to_string(),
            params: vec!["a".to_string(), "b".to_string()],
            body: vec![Statement::Return { value: var("a") }],
        }],
        vec![],
    );
    let mut ac = ArithmeticCircuit::new();
    let mut rt = Runtime::new();
    let e = call("first", vec![num(4), num(5), num(6)]);
    let a = process_expression(&mut ac, &mut rt, &program, &e).unwrap();
    assert_eq!(rt.get_variable_value(&a), Ok(Some(4)));
    let e = call("first", vec![num(8)]);
    let a = process_expression(&mut ac, &mut rt, &program, &e).unwrap();
    assert_eq!(rt.get_variable_value(&a), Ok(Some(8)));
    let e = call("first", vec![]);
    assert_eq!(
        process_expression(&mut ac, &mut rt, &program, &e),
        Err(ProgramError::RuntimeError(RuntimeError::ItemNotDeclared))
    );
}

#[test]
fn declaring_a_name_twice_is_an_error() {
    let (_, _, r) = run(vec![
        decl(DataType::Variable, "a", vec![]),
        decl(DataType::Signal, "a", vec![]),
    ]);
    assert_eq!(r, Err(ProgramError::RuntimeError(RuntimeError::AlreadyDeclared)));
    let (_, _, r) = run(vec![
        Statement::Return { value: num(1) },
        Statement::Return { value: num(2) },
    ]);
    assert_eq!(r, Err(ProgramError::RuntimeError(RuntimeError::AlreadyDeclared)));
}

#[test]
fn an_index_out_of_bounds_is_an_error() {
    let (_, _, r) = run(vec![
        decl(DataType::Variable, "a", vec![num(2)]),
        assign_at("a", vec![Access::ArrayAccess(num(2))], AssignOp::AssignVar, num(1)),
    ]);
    assert_eq!(r, Err(ProgramError::RuntimeError(RuntimeError::OutOfBounds)));
    let (_, rt, r) = run(vec![
        decl(DataType::Variable, "a", vec![num(2)]),
        assign_at("a", vec![Access::ArrayAccess(num(1))], AssignOp::AssignVar, num(5)),
        decl(DataType::Variable, "b", vec![]),
        assign("b", elem("a", vec![num(1)])),
    ]);
    assert_eq!(r, Ok(()));
    assert_eq!(value_of(&rt, "b"), Ok(Some(5)));
}

#[test]
fn a_component_takes_only_two_of_the_assignments() {
    let program = ProgramArchive::new(vec![], vec![mul_template()]);
    let (_, _, r) = run_in(
        &program,
        vec![
            decl(DataType::Component, "m", vec![]),
            assign_at("m", vec![], AssignOp::AssignSignal, call("Mul", vec![])),
        ],
    );
    assert_eq!(r, Err(ProgramError::OperationNotSupported));
}

#[test]
fn a_constant_that_collides_with_a_signal_is_refused() {
    let (ac, _, r) = run(vec![
        decl(DataType::Signal, "x", vec![]),
        decl(DataType::Signal, "y", vec![]),
        constrain("y", op(ExpressionInfixOpcode::Add, var("x"), num(S0))),
    ]);
    assert_eq!(r, Err(ProgramError::CircuitError(CircuitError::DuplicateSignal)));
    assert!(ac.gates().is_empty());
}

#[test]
fn if_runs_the_branch_that_the_condition_picks() {
    let branch = |c: u32, with_else: bool| {
        let (_, rt, r) = run(vec![
            decl(DataType::Variable, "a", vec![]),
            assign("a", num(0)),
            Statement::IfThenElse {
                cond: num(c),
                if_case: Box::new(block(vec![
                    decl(DataType::Variable, "t", vec![]),
                    assign("a", num(1)),
                ])),
                else_case: if with_else {
                    Some(Box::new(block(vec![assign("a", num(2))])))
                } else {
                    None
                },
            },
        ]);
        assert_eq!(r, Ok(()));
        assert_eq!(rt.depth(), 1);
        assert_eq!(rt.get_item_data_type("t"), Err(RuntimeError::ItemNotDeclared));
        value_of(&rt, "a").unwrap()
    };
    assert_eq!(branch(1, true), Some(1));
    assert_eq!(branch(7, false), Some(1));
    assert_eq!(branch(0, true), Some(2));
    assert_eq!(branch(0, false), Some(0));
}

#[test]
fn the_branch_not_taken_is_not_evaluated() {
    let (_, _, r) = run(vec![Statement::IfThenElse {
        cond: num(0),
        if_case: Box::new(assign("nowhere", num(1))),
        else_case: None,
    }]);
    assert_eq!(r, Ok(()));
    let (_, _, r) = run(vec![Statement::IfThenElse {
        cond: num(1),
        if_case: Box::new(block(vec![])),
        else_case: Some(Box::new(assign("nowhere", num(1)))),
    }]);
    assert_eq!(r, Ok(()));
}

#[test]
fn the_forms_without_meaning_do_nothing() {
    let (ac, rt, r) = run(vec![
        Statement::MultSubstitution,
        Statement::UnderscoreSubstitution,
        Statement::ConstraintEquality,
        Statement::LogCall,
        Statement::Assert,
        Statement::InitializationBlock {
            initializations: vec![decl(DataType::Variable, "a", vec![])],
        },
    ]);
    assert_eq!(r, Ok(()));
    assert!(ac.signals().is_empty());
    assert_eq!(value_of(&rt, "a"), Ok(None));
    let mut ac = ArithmeticCircuit::new();
    let mut rt = Runtime::new();
    for e in [
        Expression::PrefixOp,
        Expression::InlineSwitchOp,
        Expression::ParallelOp,
        Expression::AnonymousComp,
        Expression::ArrayInLine,
        Expression::Tuple,
        Expression::UniformArray,
    ] {
        let a = process_expression(&mut ac, &mut rt, &no_program(), &e).unwrap();
        assert_eq!(a, DataAccess::new("", vec![]));
    }
    assert!(ac.signals().is_empty());
}

#[test]
fn an_access_is_built_without_reading_its_leaf() {
    let mut ac = ArithmeticCircuit::new();
    let mut rt = Runtime::new();
    let access = vec![
        Access::ArrayAccess(op(ExpressionInfixOpcode::Add, num(1), num(2))),
        Access::ComponentAccess("out".to_string()),
        Access::ArrayAccess(num(0)),
    ];
    let a = build_access(&mut ac, &mut rt, &no_program(), "nothing", &access).unwrap();
    assert_eq!(
        a,
        DataAccess::new(
            "nothing",
            vec![
                SubAccess::Array(3),
                SubAccess::Component("out".to_string()),
                SubAccess::Array(0)
            ]
        )
    );
    assert!(ac.signals().is_empty());
}

#[test]
fn a_variable_becomes_a_constant_signal() {
    let mut ac = ArithmeticCircuit::new();
    let mut rt = Runtime::new();
    let stmts = vec![
        decl(DataType::Variable, "v", vec![]),
        assign("v", num(42)),
        decl(DataType::Variable, "u", vec![]),
        decl(DataType::Signal, "s", vec![]),
    ];
    assert_eq!(process_statements(&mut ac, &mut rt, &no_program(), &stmts), Ok(()));
    let v = DataAccess::new("v", vec![]);
    assert_eq!(get_signal_for_access(&mut ac, &rt, &v), Ok(42));
    assert_eq!(get_signal_for_access(&mut ac, &rt, &v), Ok(42));
    assert_eq!(ac.signals(), &vec![signal(S0), constant(42)]);
    assert_eq!(get_signal_for_access(&mut ac, &rt, &DataAccess::new("s", vec![])), Ok(S0));
    assert_eq!(
        get_signal_for_access(&mut ac, &rt, &DataAccess::new("u", vec![])),
        Err(ProgramError::EmptyDataItem)
    );
    assert_eq!(
        get_signal_for_access(&mut ac, &rt, &DataAccess::new("w", vec![])),
        Err(ProgramError::RuntimeError(RuntimeError::ItemNotDeclared))
    );
    assert_eq!(ac.signals().len(), 2);
}

#[test]
fn a_loop_that_does_not_end_runs_into_the_limit() {
    let mut ac = ArithmeticCircuit::new();
    let mut rt = Runtime::with_limit(10);
    let stmts = vec![
        decl(DataType::Variable, "i", vec![]),
        assign("i", num(0)),
        Statement::While {
            cond: num(1),
            stmt: Box::new(assign("i", op(ExpressionInfixOpcode::Add, var("i"), num(1)))),
        },
    ];
    assert_eq!(
        process_statements(&mut ac, &mut rt, &no_program(), &stmts),
        Err(ProgramError::LimitExceeded)
    );
    assert_eq!(value_of(&rt, "i"), Ok(Some(11)));
}

#[test]
fn a_recursion_that_does_not_end_runs_into_the_limit() {
    let program = ProgramArchive::new(
        vec![FunctionData {
            name: "down".to_string(),
            params: vec!["n".to_string()],
            body: vec![Statement::Return { value: call("down", vec![var("n")]) }],
        }],
        vec![],
    );
    let mut ac = ArithmeticCircuit::new();
    let mut rt = Runtime::with_limit(20);
    assert_eq!(
        process_expression(&mut ac, &mut rt, &program, &call("down", vec![num(1)])),
        Err(ProgramError::LimitExceeded)
    );
    assert_eq!(rt.depth(), 21);
}

#[test]
fn a_recursion_within_the_limit_ends() {
    // fact(n) = if n == 0 { 1 } else { n * fact(n - 1) }, with the result
    // kept in a variable of the function's own frame
    let program = ProgramArchive::new(
        vec![FunctionData {
            name: "fact".to_string(),
            params: vec!["n".to_string()],
            body: vec![
                decl(DataType::Variable, "r", vec![]),
                assign("r", num(1)),
                Statement::IfThenElse {
                    cond: var("n"),
                    if_case: Box::new(assign(
                        "r",
                        op(
                            ExpressionInfixOpcode::Mul,
                            var("n"),
                            call("fact", vec![op(ExpressionInfixOpcode::Sub, var("n"), num(1))]),
                        ),
                    )),
                    else_case: None,
                },
                Statement::Return { value: var("r") },
            ],
        }],
        vec![],
    );
    let mut ac = ArithmeticCircuit::new();
    let mut rt = Runtime::with_limit(6);
    let a = process_expression(&mut ac, &mut rt, &program, &call("fact", vec![num(5)])).unwrap();
    assert_eq!(rt.get_variable_value(&a), Ok(Some(120)));
    assert_eq!(
        process_expression(&mut ac, &mut rt, &program, &call("fact", vec![num(6)])),
        Err(ProgramError::LimitExceeded)
    );
}

#[test]
fn one_statement_runs_alone() {
    let mut ac = ArithmeticCircuit::new();
    let mut rt = Runtime::new();
    let p = no_program();
    let a = decl(DataType::Signal, "a", vec![]);
    assert_eq!(process_statement(&mut ac, &mut rt, &p, &a), Ok(()));
    let b = decl(DataType::Signal, "b", vec![]);
    assert_eq!(process_statement(&mut ac, &mut rt, &p, &b), Ok(()));
    let s = constrain("b", op(ExpressionInfixOpcode::Lesser, var("a"), var("a")));
    assert_eq!(process_statement(&mut ac, &mut rt, &p, &s), Ok(()));
    assert_eq!(
        ac.gates(),
        &vec![Gate { gate_type: AGateType::Lt, lhs: S0, rhs: S0, out: S0 + 2 }]
    );
    assert_eq!(ac.connections(), &vec![Connection { src: S0 + 2, dst: S0 + 1 }]);
}
