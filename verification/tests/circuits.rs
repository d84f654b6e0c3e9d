use circom_arithc::ast::ExpressionInfixOpcode;
use circom_arithc::circuit::{
    AGateType, ArithmeticCircuit, CircuitError, Connection, Gate, SignalEntry,
};

#[test]
fn a_new_circuit_is_empty() {
    let ac = ArithmeticCircuit::new();
    assert!(ac.signals().is_empty());
    assert!(ac.gates().is_empty());
    assert!(ac.connections().is_empty());
}

#[test]
fn signals_are_kept_in_the_order_of_registration() {
    let mut ac = ArithmeticCircuit::new();
    assert_eq!(ac.add_signal(9), Ok(()));
    assert_eq!(ac.add_signal(3), Ok(()));
    assert_eq!(ac.add_const(5), Ok(()));
    assert_eq!(
        ac.signals(),
        &vec![
            SignalEntry { id: 9, constant: false },
            SignalEntry { id: 3, constant: false },
            SignalEntry { id: 5, constant: true },
        ]
    );
    assert_eq!(ac.lookup(9), Some(false));
    assert_eq!(ac.lookup(5), Some(true));
    assert_eq!(ac.lookup(4), None);
    assert!(ac.is_registered(3));
    assert!(!ac.is_registered(4));
}

#[test]
fn a_signal_cannot_be_registered_twice() {
    let mut ac = ArithmeticCircuit::new();
    assert_eq!(ac.add_signal(1), Ok(()));
    assert_eq!(ac.add_signal(1), Err(CircuitError::DuplicateSignal));
    assert_eq!(ac.signals().len(), 1);
}

#[test]
fn a_constant_registered_twice_is_registered_once() {
    let mut once = ArithmeticCircuit::new();
    assert_eq!(once.add_const(7), Ok(()));
    let mut twice = ArithmeticCircuit::new();
    assert_eq!(twice.add_const(7), Ok(()));
    assert_eq!(twice.add_const(7), Ok(()));
    assert_eq!(once.signals(), twice.signals());
    assert_eq!(twice.signals(), &vec![SignalEntry { id: 7, constant: true }]);
}

#[test]
fn a_constant_and_a_signal_cannot_share_an_id() {
    let mut ac = ArithmeticCircuit::new();
    assert_eq!(ac.add_signal(7), Ok(()));
    assert_eq!(ac.add_const(7), Err(CircuitError::DuplicateSignal));
    assert_eq!(ac.add_const(8), Ok(()));
    assert_eq!(ac.add_signal(8), Err(CircuitError::DuplicateSignal));
    assert_eq!(ac.signals().len(), 2);
}

#[test]
fn a_gate_needs_registered_signals() {
    let mut ac = ArithmeticCircuit::new();
    ac.add_signal(1).unwrap();
    ac.add_signal(2).unwrap();
    assert_eq!(ac.add_gate(AGateType::Add, 1, 2, 3), Err(CircuitError::UnknownSignal));
    assert_eq!(ac.add_gate(AGateType::Add, 1, 4, 2), Err(CircuitError::UnknownSignal));
    assert_eq!(ac.add_gate(AGateType::Add, 5, 1, 2), Err(CircuitError::UnknownSignal));
    assert!(ac.gates().is_empty());
    ac.add_signal(3).unwrap();
    assert_eq!(ac.add_gate(AGateType::Add, 1, 2, 3), Ok(()));
    assert_eq!(ac.add_gate(AGateType::Mul, 3, 3, 1), Ok(()));
    assert_eq!(
        ac.gates(),
        &vec![
            Gate { gate_type: AGateType::Add, lhs: 1, rhs: 2, out: 3 },
            Gate { gate_type: AGateType::Mul, lhs: 3, rhs: 3, out: 1 },
        ]
    );
}

#[test]
fn a_connection_needs_registered_signals() {
    let mut ac = ArithmeticCircuit::new();
    ac.add_signal(1).unwrap();
    assert_eq!(ac.add_connection(1, 2), Err(CircuitError::UnknownSignal));
    assert_eq!(ac.add_connection(2, 1), Err(CircuitError::UnknownSignal));
    assert!(ac.connections().is_empty());
    ac.add_const(2).unwrap();
    assert_eq!(ac.add_connection(2, 1), Ok(()));
    assert_eq!(ac.connections(), &vec![Connection { src: 2, dst: 1 }]);
}

#[test]
fn every_id_that_a_gate_or_connection_names_is_registered() {
    let mut ac = ArithmeticCircuit::new();
    for id in [10u32, 11, 12, 13] {
        ac.add_signal(id).unwrap();
    }
    ac.add_const(2).unwrap();
    let _ = ac.add_gate(AGateType::Mul, 10, 2, 11);
    let _ = ac.add_gate(AGateType::Sub, 10, 99, 11);
    let _ = ac.add_connection(11, 12);
    let _ = ac.add_connection(98, 12);
    for g in ac.gates().iter() {
        assert!(ac.is_registered(g.lhs) && ac.is_registered(g.rhs) && ac.is_registered(g.out));
    }
    for c in ac.connections().iter() {
        assert!(ac.is_registered(c.src) && ac.is_registered(c.dst));
    }
    assert_eq!(ac.gates().len(), 1);
    assert_eq!(ac.connections().len(), 1);
}

#[test]
fn each_operator_has_its_gate() {
    let pairs = [
        (ExpressionInfixOpcode::Mul, AGateType::Mul),
        (ExpressionInfixOpcode::Div, AGateType::Div),
        (ExpressionInfixOpcode::Add, AGateType::Add),
        (ExpressionInfixOpcode::Sub, AGateType::Sub),
        (ExpressionInfixOpcode::Pow, AGateType::Pow),
        (ExpressionInfixOpcode::IntDiv, AGateType::IntDiv),
        (ExpressionInfixOpcode::Mod, AGateType::Mod),
        (ExpressionInfixOpcode::ShiftL, AGateType::ShiftL),
        (ExpressionInfixOpcode::ShiftR, AGateType::ShiftR),
        (ExpressionInfixOpcode::LesserEq, AGateType::Le),
        (ExpressionInfixOpcode::GreaterEq, AGateType::Ge),
        (ExpressionInfixOpcode::Lesser, AGateType::Lt),
        (ExpressionInfixOpcode::Greater, AGateType::Gt),
        (ExpressionInfixOpcode::Eq, AGateType::Eq),
        (ExpressionInfixOpcode::NotEq, AGateType::NotEq),
        (ExpressionInfixOpcode::BoolOr, AGateType::BoolOr),
        (ExpressionInfixOpcode::BoolAnd, AGateType::BoolAnd),
        (ExpressionInfixOpcode::BitOr, AGateType::BitOr),
        (ExpressionInfixOpcode::BitAnd, AGateType::BitAnd),
        (ExpressionInfixOpcode::BitXor, AGateType::BitXor),
    ];
    for (op, gate) in pairs.iter() {
        assert_eq!(AGateType::from_opcode(op), *gate);
    }
}
