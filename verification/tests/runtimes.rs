use circom_arithc::ast::DataType;
use circom_arithc::names::{append_decimal, make_random_name, make_return_name, RETURN_VAR};
use circom_arithc::number::BigNumber;
use circom_arithc::runtime::{
    copy_u32s, leaf_position, volume_of, Binding, DataAccess, Runtime, RuntimeError, SubAccess,
    DEFAULT_LIMIT, FIRST_SIGNAL_ID,
};

fn at(name: &str, indices: &[u32]) -> DataAccess {
    DataAccess::new(name, indices.iter().map(|i| SubAccess::Array(*i)).collect())
}

#[test]
fn a_new_runtime_has_one_frame() {
    let rt = Runtime::new();
    assert_eq!(rt.depth(), 1);
    assert_eq!(rt.limit(), DEFAULT_LIMIT);
    assert_eq!(Runtime::with_limit(5).limit(), 5);
}

#[test]
fn a_variable_starts_without_a_value() {
    let mut rt = Runtime::new();
    assert_eq!(rt.declare_item(DataType::Variable, "a", &[]), Ok(()));
    assert_eq!(rt.get_variable_value(&at("a", &[])), Ok(None));
    assert_eq!(rt.set_variable(&at("a", &[]), Some(3)), Ok(()));
    assert_eq!(rt.get_variable_value(&at("a", &[])), Ok(Some(3)));
    assert_eq!(rt.set_variable(&at("a", &[]), Some(4)), Ok(()));
    assert_eq!(rt.get_variable_value(&at("a", &[])), Ok(Some(4)));
    assert_eq!(rt.set_variable(&at("a", &[]), None), Ok(()));
    assert_eq!(rt.get_variable_value(&at("a", &[])), Ok(None));
}

#[test]
fn a_name_is_declared_once_in_a_frame() {
    let mut rt = Runtime::new();
    assert_eq!(rt.declare_item(DataType::Variable, "a", &[]), Ok(()));
    assert_eq!(rt.declare_item(DataType::Variable, "a", &[]), Err(RuntimeError::AlreadyDeclared));
    assert_eq!(rt.declare_item(DataType::Signal, "a", &[2]), Err(RuntimeError::AlreadyDeclared));
    rt.push_context(true);
    assert_eq!(rt.declare_item(DataType::Signal, "a", &[]), Ok(()));
    assert_eq!(rt.get_item_data_type("a"), Ok(DataType::Signal));
    assert_eq!(rt.pop_context(true), Ok(()));
    assert_eq!(rt.get_item_data_type("a"), Ok(DataType::Variable));
}

#[test]
fn an_unknown_name_is_not_declared() {
    let rt = Runtime::new();
    assert_eq!(rt.get_item_data_type("a"), Err(RuntimeError::ItemNotDeclared));
    assert_eq!(rt.get_variable_value(&at("a", &[])), Err(RuntimeError::ItemNotDeclared));
    assert_eq!(rt.get_signal_id(&at("a", &[])), Err(RuntimeError::ItemNotDeclared));
    assert_eq!(rt.get_signal("a"), Err(RuntimeError::ItemNotDeclared));
    assert_eq!(rt.get_component_signal_id(&at("a", &[])), Err(RuntimeError::ItemNotDeclared));
}

#[test]
fn items_have_their_type() {
    let mut rt = Runtime::new();
    rt.declare_item(DataType::Variable, "v", &[]).unwrap();
    rt.declare_item(DataType::Signal, "s", &[]).unwrap();
    rt.declare_item(DataType::Component, "c", &[]).unwrap();
    assert_eq!(rt.get_item_data_type("v"), Ok(DataType::Variable));
    assert_eq!(rt.get_item_data_type("s"), Ok(DataType::Signal));
    assert_eq!(rt.get_item_data_type("c"), Ok(DataType::Component));
    assert_eq!(rt.get_variable_value(&at("s", &[])), Err(RuntimeError::NotAVariable));
    assert_eq!(rt.get_variable_value(&at("c", &[])), Err(RuntimeError::NotAVariable));
    assert_eq!(rt.set_variable(&at("s", &[]), Some(1)), Err(RuntimeError::NotAVariable));
    assert_eq!(rt.get_signal_id(&at("v", &[])), Err(RuntimeError::NotASignal));
    assert_eq!(rt.get_signal("c"), Err(RuntimeError::NotASignal));
    assert_eq!(rt.get_component_map(&at("v", &[])).err(), Some(RuntimeError::NotAComponent));
    assert_eq!(rt.set_component(&at("s", &[]), vec![]), Err(RuntimeError::NotAComponent));
    assert_eq!(rt.get_component_signal_id(&at("s", &[])), Err(RuntimeError::NotAComponent));
}

#[test]
fn signal_ids_are_dense_and_in_order_of_allocation() {
    let mut rt = Runtime::new();
    rt.declare_item(DataType::Signal, "x", &[]).unwrap();
    rt.declare_item(DataType::Variable, "v", &[4]).unwrap();
    rt.declare_item(DataType::Signal, "y", &[2]).unwrap();
    rt.declare_item(DataType::Signal, "z", &[]).unwrap();
    assert_eq!(rt.get_signal_id(&at("x", &[])), Ok(FIRST_SIGNAL_ID));
    assert_eq!(rt.get_signal_id(&at("y", &[0])), Ok(FIRST_SIGNAL_ID + 1));
    assert_eq!(rt.get_signal_id(&at("y", &[1])), Ok(FIRST_SIGNAL_ID + 2));
    assert_eq!(rt.get_signal_id(&at("z", &[])), Ok(FIRST_SIGNAL_ID + 3));
}

#[test]
fn an_array_of_signals_is_numbered_row_major() {
    let mut rt = Runtime::new();
    rt.declare_item(DataType::Signal, "s", &[2, 3]).unwrap();
    let mut expected = FIRST_SIGNAL_ID;
    for i in 0..2u32 {
        for j in 0..3u32 {
            assert_eq!(rt.get_signal_id(&at("s", &[i, j])), Ok(expected));
            expected += 1;
        }
    }
    let record = rt.get_signal("s").unwrap();
    assert_eq!(record.dims(), &vec![2, 3]);
    assert_eq!(
        record.ids(),
        &(0..6u32).map(|k| FIRST_SIGNAL_ID + k).collect::<Vec<u32>>()
    );
    assert_eq!(record.duplicate(), record);
}

#[test]
fn indices_must_fit_the_dimensions() {
    let mut rt = Runtime::new();
    rt.declare_item(DataType::Variable, "a", &[2, 3]).unwrap();
    assert_eq!(rt.set_variable(&at("a", &[1, 2]), Some(9)), Ok(()));
    assert_eq!(rt.get_variable_value(&at("a", &[1, 2])), Ok(Some(9)));
    assert_eq!(rt.get_variable_value(&at("a", &[0, 0])), Ok(None));
    assert_eq!(rt.get_variable_value(&at("a", &[2, 0])), Err(RuntimeError::OutOfBounds));
    assert_eq!(rt.get_variable_value(&at("a", &[0, 3])), Err(RuntimeError::OutOfBounds));
    assert_eq!(rt.get_variable_value(&at("a", &[0])), Err(RuntimeError::OutOfBounds));
    assert_eq!(rt.get_variable_value(&at("a", &[])), Err(RuntimeError::OutOfBounds));
    assert_eq!(rt.get_variable_value(&at("a", &[0, 0, 0])), Err(RuntimeError::OutOfBounds));
    assert_eq!(rt.set_variable(&at("a", &[2, 2]), Some(1)), Err(RuntimeError::OutOfBounds));
    rt.declare_item(DataType::Variable, "b", &[]).unwrap();
    assert_eq!(rt.get_variable_value(&at("b", &[0])), Err(RuntimeError::OutOfBounds));
    let field = DataAccess::new("b", vec![SubAccess::Component("f".to_string())]);
    assert_eq!(rt.get_variable_value(&field), Err(RuntimeError::NotAComponent));
}

#[test]
fn the_leaves_of_an_array_are_apart() {
    let mut rt = Runtime::new();
    rt.declare_item(DataType::Variable, "a", &[3, 4, 5]).unwrap();
    let mut n = 0u32;
    for i in 0..3u32 {
        for j in 0..4u32 {
            for k in 0..5u32 {
                rt.set_variable(&at("a", &[i, j, k]), Some(n)).unwrap();
                n += 1;
            }
        }
    }
    let mut n = 0u32;
    for i in 0..3u32 {
        for j in 0..4u32 {
            for k in 0..5u32 {
                assert_eq!(rt.get_variable_value(&at("a", &[i, j, k])), Ok(Some(n)));
                n += 1;
            }
        }
    }
}

#[test]
fn the_position_of_a_leaf_is_row_major() {
    let steps: Vec<SubAccess> = vec![SubAccess::Array(1), SubAccess::Array(2)];
    assert_eq!(leaf_position(&vec![2, 3], &steps, 0, 2), Ok(5));
    assert_eq!(leaf_position(&vec![3], &steps, 1, 2), Ok(2));
    assert_eq!(leaf_position(&vec![2], &steps, 1, 2), Err(RuntimeError::OutOfBounds));
    assert_eq!(leaf_position(&vec![], &steps, 1, 1), Ok(0));
    assert_eq!(volume_of(&[]), Some(1));
    assert_eq!(volume_of(&[2, 3, 4]), Some(24));
    assert_eq!(volume_of(&[7, 0, 4]), Some(0));
    assert_eq!(volume_of(&[u32::MAX, u32::MAX, 0]), Some(0));
    assert_eq!(volume_of(&[65_536, 65_536]), None);
    assert_eq!(volume_of(&[65_535, 65_537]), Some(u32::MAX));
    assert_eq!(copy_u32s(&[1, 2, 3]), vec![1, 2, 3]);
}

#[test]
fn an_item_cannot_be_larger_than_the_ids() {
    let mut rt = Runtime::new();
    assert_eq!(
        rt.declare_item(DataType::Variable, "a", &[65_536, 65_536]),
        Err(RuntimeError::CapacityExceeded)
    );
    assert_eq!(
        rt.declare_item(DataType::Signal, "s", &[0x8000_0000]),
        Err(RuntimeError::CapacityExceeded)
    );
    assert_eq!(rt.get_item_data_type("a"), Err(RuntimeError::ItemNotDeclared));
    assert_eq!(rt.get_item_data_type("s"), Err(RuntimeError::ItemNotDeclared));
    assert_eq!(rt.declare_item(DataType::Variable, "e", &[3, 0]), Ok(()));
    assert_eq!(rt.get_variable_value(&at("e", &[0, 0])), Err(RuntimeError::OutOfBounds));
}

#[test]
fn an_inherited_frame_sees_and_writes_the_frames_below() {
    let mut rt = Runtime::new();
    rt.declare_item(DataType::Variable, "a", &[]).unwrap();
    rt.set_variable(&at("a", &[]), Some(1)).unwrap();
    rt.push_context(true);
    rt.push_context(true);
    assert_eq!(rt.depth(), 3);
    assert_eq!(rt.get_variable_value(&at("a", &[])), Ok(Some(1)));
    rt.declare_item(DataType::Variable, "t", &[]).unwrap();
    rt.set_variable(&at("a", &[]), Some(2)).unwrap();
    assert_eq!(rt.pop_context(true), Ok(()));
    assert_eq!(rt.pop_context(true), Ok(()));
    assert_eq!(rt.get_variable_value(&at("a", &[])), Ok(Some(2)));
    assert_eq!(rt.get_item_data_type("t"), Err(RuntimeError::ItemNotDeclared));
}

#[test]
fn a_fresh_frame_sees_its_own_names_only() {
    let mut rt = Runtime::new();
    rt.declare_item(DataType::Variable, "a", &[]).unwrap();
    rt.set_variable(&at("a", &[]), Some(1)).unwrap();
    rt.push_context(false);
    assert_eq!(rt.get_item_data_type("a"), Err(RuntimeError::ItemNotDeclared));
    assert_eq!(rt.set_variable(&at("a", &[]), Some(5)), Err(RuntimeError::ItemNotDeclared));
    rt.declare_item(DataType::Variable, "a", &[]).unwrap();
    rt.set_variable(&at("a", &[]), Some(7)).unwrap();
    rt.push_context(true);
    assert_eq!(rt.get_variable_value(&at("a", &[])), Ok(Some(7)));
    rt.set_variable(&at("a", &[]), Some(8)).unwrap();
    assert_eq!(rt.pop_context(true), Ok(()));
    assert_eq!(rt.pop_context(false), Ok(()));
    assert_eq!(rt.get_variable_value(&at("a", &[])), Ok(Some(1)));
    assert_eq!(rt.depth(), 1);
}

#[test]
fn a_pop_must_match_its_push() {
    let mut rt = Runtime::new();
    assert_eq!(rt.pop_context(false), Err(RuntimeError::UnbalancedPop));
    assert_eq!(rt.pop_context(true), Err(RuntimeError::UnbalancedPop));
    rt.push_context(true);
    assert_eq!(rt.pop_context(false), Err(RuntimeError::UnbalancedPop));
    assert_eq!(rt.depth(), 2);
    assert_eq!(rt.pop_context(true), Ok(()));
    rt.push_context(false);
    assert_eq!(rt.pop_context(true), Err(RuntimeError::UnbalancedPop));
    assert_eq!(rt.pop_context(false), Ok(()));
    assert_eq!(rt.depth(), 1);
}

#[test]
fn anonymous_items_have_different_names() {
    let mut rt = Runtime::new();
    let a = rt.declare_random_item(DataType::Variable).unwrap();
    let b = rt.declare_random_item(DataType::Variable).unwrap();
    let c = rt.declare_random_item(DataType::Signal).unwrap();
    assert_ne!(a.get_name(), b.get_name());
    assert_ne!(b.get_name(), c.get_name());
    assert_eq!(a.get_name(), "#0");
    assert_eq!(c.get_name(), "#2");
    assert!(a.get_access().is_empty());
    assert_eq!(rt.get_variable_value(&a), Ok(None));
    assert_eq!(rt.get_signal_id(&c), Ok(FIRST_SIGNAL_ID));
    assert_eq!(rt.generate_u32(), Ok(3));
    assert_eq!(rt.generate_u32(), Ok(4));
}

#[test]
fn synthetic_names_spell_their_number() {
    assert_eq!(make_random_name(0), "#0");
    assert_eq!(make_random_name(10), "#10");
    assert_eq!(make_random_name(4_294_967_295), "#4294967295");
    assert_eq!(make_return_name("f", 7), "f_RETURN_7");
    assert_eq!(make_return_name("Mul", 120), "Mul_RETURN_120");
    assert_eq!(RETURN_VAR, "RETURN");
    let mut s = String::from("n=");
    append_decimal(&mut s, 9078);
    assert_eq!(s, "n=9078");
}

#[test]
fn a_component_holds_the_signals_it_was_given() {
    let mut rt = Runtime::new();
    rt.declare_item(DataType::Signal, "a", &[]).unwrap();
    rt.declare_item(DataType::Signal, "out", &[2]).unwrap();
    rt.declare_item(DataType::Component, "c", &[2]).unwrap();
    let bindings = vec![
        Binding::new("a", rt.get_signal("a").unwrap()),
        Binding::new("out", rt.get_signal("out").unwrap()),
    ];
    assert_eq!(bindings[1].name(), "out");
    assert_eq!(bindings[1].signal().ids(), &vec![FIRST_SIGNAL_ID + 1, FIRST_SIGNAL_ID + 2]);
    assert_eq!(rt.get_component_map(&at("c", &[1])), Ok(vec![]));
    assert_eq!(rt.set_component(&at("c", &[1]), bindings), Ok(()));
    assert_eq!(rt.get_component_map(&at("c", &[1])).unwrap().len(), 2);
    assert_eq!(rt.get_component_map(&at("c", &[0])), Ok(vec![]));
    let field = |index: u32, name: &str, rest: &[u32]| {
        let mut steps = vec![SubAccess::Array(index), SubAccess::Component(name.to_string())];
        steps.extend(rest.iter().map(|i| SubAccess::Array(*i)));
        DataAccess::new("c", steps)
    };
    assert_eq!(rt.get_component_signal_id(&field(1, "a", &[])), Ok(FIRST_SIGNAL_ID));
    assert_eq!(rt.get_component_signal_id(&field(1, "out", &[0])), Ok(FIRST_SIGNAL_ID + 1));
    assert_eq!(rt.get_component_signal_id(&field(1, "out", &[1])), Ok(FIRST_SIGNAL_ID + 2));
    assert_eq!(
        rt.get_component_signal_id(&field(1, "out", &[2])),
        Err(RuntimeError::OutOfBounds)
    );
    assert_eq!(rt.get_component_signal_id(&field(1, "out", &[])), Err(RuntimeError::OutOfBounds));
    assert_eq!(rt.get_component_signal_id(&field(2, "a", &[])), Err(RuntimeError::OutOfBounds));
    assert_eq!(
        rt.get_component_signal_id(&field(1, "b", &[])),
        Err(RuntimeError::ItemNotDeclared)
    );
    assert_eq!(
        rt.get_component_signal_id(&field(0, "a", &[])),
        Err(RuntimeError::ItemNotDeclared)
    );
    assert_eq!(rt.get_component_signal_id(&at("c", &[1])), Err(RuntimeError::NotASignal));
    let twice = DataAccess::new(
        "c",
        vec![
            SubAccess::Array(1),
            SubAccess::Component("a".to_string()),
            SubAccess::Component("a".to_string()),
        ],
    );
    assert_eq!(rt.get_component_signal_id(&twice), Err(RuntimeError::NotAComponent));
}

#[test]
fn an_access_can_be_rebuilt() {
    let mut a = DataAccess::new("s", vec![]);
    assert_eq!(a.get_name(), "s");
    a.set_access(vec![SubAccess::Array(4)]);
    assert_eq!(a.get_access(), &vec![SubAccess::Array(4)]);
    assert_eq!(a, at("s", &[4]));
}

#[test]
fn a_literal_has_its_value_if_it_fits() {
    assert_eq!(BigNumber::from_u32(0).to_u32(), Some(0));
    assert_eq!(BigNumber::from_u32(1).to_u32(), Some(1));
    assert_eq!(BigNumber::from_u32(0x1234_5678).to_u32(), Some(0x1234_5678));
    assert_eq!(BigNumber::from_u32(u32::MAX).to_u32(), Some(u32::MAX));
    assert_eq!(BigNumber::from_u32(0x0102_0304).magnitude, vec![1, 2, 3, 4]);
    let n = BigNumber { negative: false, magnitude: vec![1, 0] };
    assert_eq!(n.to_u32(), Some(256));
    let n = BigNumber { negative: false, magnitude: vec![0, 0, 0, 0, 0, 0, 7] };
    assert_eq!(n.to_u32(), Some(7));
    let n = BigNumber { negative: false, magnitude: vec![] };
    assert_eq!(n.to_u32(), Some(0));
    let n = BigNumber { negative: false, magnitude: vec![0xff, 0xff, 0xff, 0xff] };
    assert_eq!(n.to_u32(), Some(u32::MAX));
}

#[test]
fn a_literal_that_is_negative_or_too_large_has_no_value() {
    let n = BigNumber { negative: false, magnitude: vec![1, 0, 0, 0, 0] };
    assert_eq!(n.to_u32(), None);
    let n = BigNumber { negative: true, magnitude: vec![1] };
    assert_eq!(n.to_u32(), None);
    let n = BigNumber { negative: true, magnitude: vec![0, 0] };
    assert_eq!(n.to_u32(), Some(0));
    let n = BigNumber { negative: true, magnitude: vec![] };
    assert_eq!(n.to_u32(), Some(0));
    let n = BigNumber { negative: false, magnitude: vec![0xff; 32] };
    assert_eq!(n.to_u32(), None);
}
