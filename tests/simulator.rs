use gate_sim::busses::{BitBus, BitBusValue, BusTrait, BusValueTrait, ErrorKind, VcdValue};
use gate_sim::component::Component;
use gate_sim::expr_nodes::{And, BusRef, Const, Evaluator, Expr, Nand, Nor, Not, Or, Xnor, Xor};
use gate_sim::renderer::Renderer;

fn bits(s: &str) -> BitBusValue {
    BitBusValue::from_string(s).unwrap()
}

fn bus_ref(name: &str) -> Box<Expr> {
    Box::new(Expr::BusRef(BusRef::new(name.to_string())))
}

fn constant(s: &str) -> Box<Expr> {
    Box::new(Expr::Const(Const::new(bits(s))))
}

fn value_of(c: &Component, name: &str) -> String {
    c.get_bus_value(name).unwrap()
}

fn inverter() -> Component {
    let mut c = Component::new("inv".to_string());
    c.create_bus("A".to_string(), 1);
    c.create_bus("B".to_string(), 1);
    c.set_assignment("B".to_string(), Expr::Not(Not::new(bus_ref("A"))));
    c.add_influence("A", "B").unwrap();
    c
}

fn chain() -> Component {
    let mut c = Component::new("chain".to_string());
    c.create_bus("A".to_string(), 1);
    c.create_bus("B".to_string(), 1);
    c.create_bus("C".to_string(), 1);
    c.set_assignment("B".to_string(), Expr::And(And::new(bus_ref("A"), constant("1"))));
    c.set_assignment("C".to_string(), Expr::Not(Not::new(bus_ref("B"))));
    c.add_influence("A", "B").unwrap();
    c.add_influence("B", "C").unwrap();
    c
}

#[test]
fn text_round_trip() {
    for s in ["", "0", "1", "1011", "000111000", "1111111111111111"] {
        assert_eq!(bits(s).to_string(), s);
        assert_eq!(bits(s).get_vcd_repr(), s);
    }
}

#[test]
fn from_string_reads_bits_in_order() {
    assert_eq!(bits("0110").raw_value, vec![false, true, true, false]);
    assert_eq!(BitBusValue::new(Some(vec![true, false])).to_string(), "10");
    assert_eq!(BitBusValue::new(None).to_string(), "0");
}

#[test]
fn from_string_names_bad_character() {
    let e = BitBusValue::from_string("10a1").unwrap_err();
    assert_eq!(e.kind, ErrorKind::InvalidBitText);
    assert!(e.message.contains("'a'"));
}

#[test]
fn default_value_is_one_zero_bit() {
    assert_eq!(BitBusValue::get_default().to_string(), "0");
    assert_eq!(<BitBusValue as BusValueTrait>::get_default().to_string(), "0");
}

#[test]
fn bitwise_operations() {
    let a = bits("1100");
    let b = bits("1010");
    assert_eq!(a.and(&b).to_string(), "1000");
    assert_eq!(a.or(&b).to_string(), "1110");
    assert_eq!(a.xor(&b).to_string(), "0110");
    assert_eq!(a.invert().to_string(), "0011");
}

#[test]
fn bitwise_operations_commute() {
    let samples = ["0000", "1111", "1010", "0110", "1100"];
    for x in samples {
        for y in samples {
            let (a, b) = (bits(x), bits(y));
            assert_eq!(a.and(&b), b.and(&a));
            assert_eq!(a.or(&b), b.or(&a));
            assert_eq!(a.xor(&b), b.xor(&a));
        }
    }
}

#[test]
fn complemented_gates_are_complements() {
    let busses: Vec<BitBus> = Vec::new();
    let samples = ["00", "01", "10", "11"];
    for x in samples {
        for y in samples {
            let and = And::new(constant(x), constant(y)).evaluate(&busses);
            let or = Or::new(constant(x), constant(y)).evaluate(&busses);
            let xor = Xor::new(constant(x), constant(y)).evaluate(&busses);
            assert_eq!(Nand::new(constant(x), constant(y)).evaluate(&busses), and.invert());
            assert_eq!(Nor::new(constant(x), constant(y)).evaluate(&busses), or.invert());
            assert_eq!(Xnor::new(constant(x), constant(y)).evaluate(&busses), xor.invert());
        }
    }
}

#[test]
fn unequal_widths_truncate_to_shorter() {
    assert_eq!(bits("101").and(&bits("11")).to_string(), "10");
    assert_eq!(bits("1").or(&bits("000")).to_string(), "1");
    assert_eq!(bits("").xor(&bits("1")).to_string(), "");
}

#[test]
fn new_bus_is_one_zero_bit() {
    let b = BitBus::new();
    assert!(b.id.is_none());
    assert_eq!(b.value.to_string(), "0");
    assert!(b.influence_list.is_empty());
    assert_eq!(b.get_valid_values(), vec!["[01]+".to_string()]);
}

#[test]
fn set_dimension_resets_to_zeros() {
    let mut b = BitBus::new();
    b.set_dimension(4);
    assert_eq!(b.value.to_string(), "0000");
    b.set_dimension(0);
    assert_eq!(b.value.to_string(), "");
}

#[test]
fn insert_value_strips_quotes() {
    let mut b = BitBus::new();
    b.set_dimension(3);
    b.insert_value("\"101\"").unwrap();
    assert_eq!(b.value.to_string(), "101");
    b.insert_value("011").unwrap();
    assert_eq!(b.value.to_string(), "011");
}

#[test]
fn insert_value_rejects_wrong_width() {
    let mut b = BitBus::new();
    b.set_dimension(2);
    let e = b.insert_value("101").unwrap_err();
    assert_eq!(e.kind, ErrorKind::WidthMismatch);
    assert!(e.message.contains("2 bits"));
    assert_eq!(b.value.to_string(), "00");
}

#[test]
fn insert_value_rejects_bad_text() {
    let mut b = BitBus::new();
    b.set_dimension(2);
    let e = BusTrait::insert_value(&mut b, "1x").unwrap_err();
    assert_eq!(e.kind, ErrorKind::InvalidBitText);
    assert_eq!(b.value.to_string(), "00");
}

#[test]
fn bus_trait_accessors() {
    let mut b = BitBus::new();
    BusTrait::set_id(&mut b, "x".to_string());
    BusTrait::set_value(&mut b, bits("11"));
    assert_eq!(BusTrait::get_id(&b).as_deref(), Some("x"));
    assert_eq!(BusTrait::get_value(&b).to_string(), "11");
}

#[test]
fn inverter_follows_input() {
    let mut c = inverter();
    c.set_bus_value("A".to_string(), "0".to_string()).unwrap();
    c.stabilize().unwrap();
    assert_eq!(value_of(&c, "B"), "1");
    c.set_bus_value("A".to_string(), "1".to_string()).unwrap();
    c.stabilize().unwrap();
    assert_eq!(value_of(&c, "B"), "0");
}

#[test]
fn chain_settles_after_input_change() {
    let mut c = chain();
    c.update_signals(vec![("A".to_string(), "1".to_string())]).unwrap();
    assert_eq!(value_of(&c, "B"), "1");
    assert_eq!(value_of(&c, "C"), "0");
    c.update_signals(vec![("A".to_string(), "0".to_string())]).unwrap();
    assert_eq!(value_of(&c, "B"), "0");
    assert_eq!(value_of(&c, "C"), "1");
}

#[test]
fn stabilize_twice_gives_same_values() {
    let mut c = chain();
    c.set_bus_value("A".to_string(), "1".to_string()).unwrap();
    c.stabilize().unwrap();
    let first = c.get_values();
    c.stabilize().unwrap();
    assert_eq!(c.get_values(), first);
}

#[test]
fn add_influence_to_unknown_bus_fails() {
    let mut c = inverter();
    let before = c.busses[0].influence_list.clone();
    let e = c.add_influence("A", "Z").unwrap_err();
    assert_eq!(e.kind, ErrorKind::BusNotFound);
    assert_eq!(c.busses[0].influence_list, before);
    let e = c.add_influence("Z", "A").unwrap_err();
    assert_eq!(e.kind, ErrorKind::BusNotFound);
}

#[test]
fn add_influence_ignores_duplicates() {
    let mut c = inverter();
    c.add_influence("A", "B").unwrap();
    assert_eq!(c.busses[0].influence_list, vec![1]);
}

#[test]
fn set_bus_value_wrong_width_leaves_value() {
    let mut c = Component::new("c".to_string());
    c.create_bus("X".to_string(), 3);
    c.set_bus_value("X".to_string(), "101".to_string()).unwrap();
    let e = c.set_bus_value("X".to_string(), "10".to_string()).unwrap_err();
    assert_eq!(e.kind, ErrorKind::WidthMismatch);
    assert_eq!(value_of(&c, "X"), "101");
}

#[test]
fn set_bus_value_unknown_bus() {
    let mut c = Component::new("c".to_string());
    let e = c.set_bus_value("X".to_string(), "1".to_string()).unwrap_err();
    assert_eq!(e.kind, ErrorKind::BusNotFound);
    assert_eq!(c.get_bus_value("X"), None);
}

#[test]
fn update_signals_stops_at_first_bad_write() {
    let mut c = chain();
    let e = c
        .update_signals(vec![
            ("A".to_string(), "1".to_string()),
            ("B".to_string(), "11".to_string()),
            ("C".to_string(), "1".to_string()),
        ])
        .unwrap_err();
    assert_eq!(e.kind, ErrorKind::WidthMismatch);
    assert_eq!(value_of(&c, "A"), "1");
    assert_eq!(value_of(&c, "B"), "0");
    assert_eq!(value_of(&c, "C"), "0");
}

#[test]
fn get_values_lists_buses_in_order() {
    let c = chain();
    assert_eq!(
        c.get_values(),
        vec![
            ("A".to_string(), "0".to_string()),
            ("B".to_string(), "0".to_string()),
            ("C".to_string(), "0".to_string()),
        ]
    );
}

#[test]
fn add_bus_replaces_same_name() {
    let mut c = Component::new("c".to_string());
    c.create_bus("X".to_string(), 1);
    c.create_bus("Y".to_string(), 1);
    c.create_bus("X".to_string(), 2);
    assert_eq!(c.busses.len(), 2);
    assert_eq!(value_of(&c, "X"), "00");
    assert_eq!(c.busses[0].id.as_deref(), Some("X"));
}

#[test]
fn missing_bus_reference_reads_default() {
    let mut c = Component::new("c".to_string());
    c.create_bus("Y".to_string(), 1);
    c.set_assignment("Y".to_string(), Expr::Not(Not::new(bus_ref("nowhere"))));
    c.stabilize().unwrap();
    assert_eq!(value_of(&c, "Y"), "1");
}

#[test]
fn feedback_loop_does_not_converge() {
    let mut c = Component::new("osc".to_string());
    c.create_bus("A".to_string(), 1);
    c.set_assignment("A".to_string(), Expr::Not(Not::new(bus_ref("A"))));
    c.add_influence("A", "A").unwrap();
    let e = c.stabilize().unwrap_err();
    assert_eq!(e.kind, ErrorKind::DidNotConverge);
}

const CHAIN_IR: &str = r#"{ "component": { "id": "chain", "busses": [
    { "id": "A", "value": "1", "influence_list": ["B"] },
    { "id": "B", "value": [false],
      "assignment": { "type": "and", "args": {
          "l_expr": { "type": "bus_ref", "args": { "id": "A" } },
          "r_expr": { "type": "const", "args": { "value": "1" } } } },
      "influence_list": ["C"] },
    { "id": "C", "assignment": { "type": "not", "args": { "expr": { "type": "bus_ref", "args": { "id": "B" } } } } }
] } }"#;

#[test]
fn render_builds_component() {
    let r = Renderer::new(CHAIN_IR.to_string());
    let c = r.get_component().unwrap();
    assert_eq!(c.id, "chain");
    assert_eq!(value_of(c, "A"), "1");
    assert_eq!(value_of(c, "B"), "0");
    assert_eq!(value_of(c, "C"), "0");
    assert_eq!(c.busses[0].influence_list, vec![1]);
    assert_eq!(c.busses[1].influence_list, vec![2]);
    assert_eq!(c.assignments.len(), 2);
}

#[test]
fn rendered_component_simulates() {
    let mut r = Renderer::new(CHAIN_IR.to_string());
    let c = r.get_component_mut().unwrap();
    c.stabilize().unwrap();
    assert_eq!(value_of(c, "B"), "1");
    assert_eq!(value_of(c, "C"), "0");
    c.update_signals(vec![("A".to_string(), "0".to_string())]).unwrap();
    assert_eq!(value_of(c, "B"), "0");
    assert_eq!(value_of(c, "C"), "1");
}

#[test]
fn render_rejects_unknown_influence_target() {
    let ir = r#"{ "component": { "id": "x", "busses": [
        { "id": "A", "influence_list": ["B", "Q"] },
        { "id": "B" } ] } }"#;
    let r = Renderer::new(ir.to_string());
    assert!(r.get_component().is_none());
    let e = r.render().unwrap_err();
    assert_eq!(e.kind, ErrorKind::UnknownBusReferenceInInfluenceList);
}

#[test]
fn render_accepts_forward_references() {
    let ir = r#"{ "component": { "id": "x", "busses": [
        { "id": "B", "assignment": { "type": "xnor", "args": {
            "l_expr": { "type": "bus_ref", "args": { "id": "A" } },
            "r_expr": { "type": "const", "args": { "value": [true] } } } } },
        { "id": "A", "value": [true], "influence_list": ["B"] } ] } }"#;
    let mut r = Renderer::new(ir.to_string());
    let c = r.get_component_mut().unwrap();
    c.stabilize().unwrap();
    assert_eq!(value_of(c, "B"), "1");
}

#[test]
fn render_rejects_bad_json() {
    let r = Renderer::new("{ not json".to_string());
    assert!(r.get_component().is_none());
    assert_eq!(r.render().unwrap_err().kind, ErrorKind::MalformedIr);
}

#[test]
fn render_rejects_missing_fields() {
    for ir in [
        r#"{ "nothing": 1 }"#,
        r#"{ "component": { "busses": [] } }"#,
        r#"{ "component": { "id": "x" } }"#,
        r#"{ "component": { "id": "x", "busses": [ { "value": "1" } ] } }"#,
        r#"{ "component": { "id": "x", "busses": [ { "id": "A", "assignment": { "args": {} } } ] } }"#,
        r#"{ "component": { "id": "x", "busses": [ { "id": "A", "assignment": { "type": "and", "args": { "l_expr": { "type": "const", "args": { "value": "1" } } } } } ] } }"#,
    ] {
        let r = Renderer::new(ir.to_string());
        assert_eq!(r.render().unwrap_err().kind, ErrorKind::MalformedIr, "{}", ir);
    }
}

#[test]
fn render_rejects_unknown_expression_type() {
    let ir = r#"{ "component": { "id": "x", "busses": [
        { "id": "A", "assignment": { "type": "mux", "args": {} } } ] } }"#;
    let r = Renderer::new(ir.to_string());
    let e = r.render().unwrap_err();
    assert_eq!(e.kind, ErrorKind::UnknownExpressionType);
    assert!(e.message.contains("mux"));
}

#[test]
fn render_rejects_bad_constant_text() {
    let ir = r#"{ "component": { "id": "x", "busses": [
        { "id": "A", "assignment": { "type": "const", "args": { "value": "12" } } } ] } }"#;
    let r = Renderer::new(ir.to_string());
    assert_eq!(r.render().unwrap_err().kind, ErrorKind::InvalidBitText);
}

#[test]
fn render_defaults_malformed_initial_value() {
    let ir = r#"{ "component": { "id": "x", "busses": [
        { "id": "A", "value": "1x1" }, { "id": "B", "value": 7 },
        { "id": "C", "value": [true, 1, false] }, { "id": "D", "assignment": null } ] } }"#;
    let r = Renderer::new(ir.to_string());
    let c = r.get_component().unwrap();
    assert_eq!(value_of(c, "A"), "0");
    assert_eq!(value_of(c, "B"), "0");
    assert_eq!(value_of(c, "C"), "100");
    assert_eq!(value_of(c, "D"), "0");
    assert!(c.assignments.is_empty());
}

#[test]
fn render_expr_compiles_each_node_kind() {
    let r = Renderer::new(CHAIN_IR.to_string());
    let busses = &r.get_component().unwrap().busses;
    let cases = [
        (r#"{ "type": "const", "args": { "value": "1010" } }"#, "1010"),
        (r#"{ "type": "bus_ref", "args": { "id": "A" } }"#, "1"),
        (r#"{ "type": "not", "args": { "expr": { "type": "const", "args": { "value": "10" } } } }"#, "01"),
        (r#"{ "type": "or", "args": { "l_expr": { "type": "const", "args": { "value": "10" } }, "r_expr": { "type": "const", "args": { "value": "01" } } } }"#, "11"),
        (r#"{ "type": "xor", "args": { "l_expr": { "type": "const", "args": { "value": "11" } }, "r_expr": { "type": "const", "args": { "value": "01" } } } }"#, "10"),
        (r#"{ "type": "nand", "args": { "l_expr": { "type": "const", "args": { "value": "11" } }, "r_expr": { "type": "const", "args": { "value": "01" } } } }"#, "10"),
        (r#"{ "type": "nor", "args": { "l_expr": { "type": "const", "args": { "value": "10" } }, "r_expr": { "type": "const", "args": { "value": "00" } } } }"#, "01"),
    ];
    for (text, expected) in cases {
        let j: serde_json::Value = serde_json::from_str(text).unwrap();
        let e = r.render_expr(&j).unwrap();
        assert_eq!(e.evaluate(busses).to_string(), expected, "{}", text);
    }
}

#[test]
fn update_signals_unknown_bus_fails() {
    let mut c = chain();
    let e = c
        .update_signals(vec![("Q".to_string(), "1".to_string())])
        .unwrap_err();
    assert_eq!(e.kind, ErrorKind::BusNotFound);
    assert_eq!(c.get_id(), "chain");
}
