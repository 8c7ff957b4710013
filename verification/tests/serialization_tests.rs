use nexus_core::{LedgerVerdict, NexusContext, NexusError, Op, KILOGRAM, METER, SCALAR, SECOND};

const EMPTY_TEXT: &str = "{\"agent_id\":1,\"next_auto_id\":4096,\"aliases\":[[\"NULL_TYPE\",0],[\"SCALAR\",1],[\"METER\",2],[\"KILOGRAM\",3],[\"SECOND\",4],[\"BIT\",5]],\"bridges\":[],\"ledger\":[],\"stack\":[],\"savepoints\":[],\"goal\":null,\"contradicted\":false}";

fn is_malformed(r: Result<NexusContext<u64>, NexusError>) -> bool {
    match r {
        Err(NexusError::ExecutionError(msg)) => msg == "malformed context text",
        _ => false,
    }
}

fn busy_context() -> NexusContext<u64> {
    let mut ctx = NexusContext::<u64>::new(7);
    let area = ctx.registry_mut().define("AREA").unwrap();
    ctx.registry_mut().define_explicit("PESOS", 0x2000).unwrap();
    ctx.registry_mut().bridge(METER, SECOND, Op::Multiply, 3);
    ctx.ledger().check(Op::Multiply, &[METER, METER], &[area]);
    ctx.push_tensor(vec![1, 2, 3, 4], vec![2, 2], METER);
    let sp = ctx.savepoint();
    assert_eq!(sp, 0);
    ctx.push_scalar(2.5f64.to_bits(), KILOGRAM);
    ctx.goal("Say \"hi\"\\now\n");
    ctx
}

#[test]
fn serialize_new_context_text() {
    let ctx = NexusContext::<u64>::new(1);
    assert_eq!(ctx.serialize().unwrap(), EMPTY_TEXT);
}

#[test]
fn roundtrip_new_context() {
    let ctx = NexusContext::<u64>::new(1);
    let json = ctx.serialize().unwrap();
    let back = NexusContext::<u64>::deserialize(&json).unwrap();
    assert_eq!(back.agent_id, 1);
    assert_eq!(back.stack_depth(), 0);
    assert_eq!(back.registry().get("METER").unwrap(), METER);
    assert_eq!(back.registry().get("SCALAR").unwrap(), SCALAR);
    assert!(back.current_goal().is_none());
    assert_eq!(back.serialize().unwrap(), json);
}

#[test]
fn serialize_busy_context_text() {
    let ctx = busy_context();
    let json = ctx.serialize().unwrap();
    let expected = format!(
        "{{\"agent_id\":7,\"next_auto_id\":8193,\"aliases\":[[\"NULL_TYPE\",0],[\"SCALAR\",1],[\"METER\",2],[\"KILOGRAM\",3],[\"SECOND\",4],[\"BIT\",5],[\"AREA\",4096],[\"PESOS\",8192]],\"bridges\":[[2,4,3,3]],\"ledger\":[[3,[2,2],[4096]]],\"stack\":[[2,[2,2],[1,2,3,4]],[3,[],[{}]]],\"savepoints\":[[[[2,[2,2],[1,2,3,4]]],[[3,[2,2],[4096]]]]],\"goal\":\"Say \\\"hi\\\"\\\\now\\u000a\",\"contradicted\":false}}",
        2.5f64.to_bits()
    );
    assert_eq!(json, expected);
}

#[test]
fn roundtrip_busy_context() {
    let ctx = busy_context();
    let json = ctx.serialize().unwrap();
    let mut back = NexusContext::<u64>::deserialize(&json).unwrap();
    assert_eq!(back.serialize().unwrap(), json);
    assert_eq!(back.agent_id, 7);
    assert_eq!(back.registry().get("AREA").unwrap(), 0x1000);
    assert_eq!(back.registry().get("PESOS").unwrap(), 0x2000);
    assert_eq!(back.registry_mut().define("NEXT").unwrap(), 0x2001);
    assert_eq!(back.registry().get_bridge(METER, SECOND), Some((Op::Multiply, 3)));
    assert_eq!(back.current_goal(), Some("Say \"hi\"\\now\n"));
    assert_eq!(back.stack_depth(), 2);
    let top = back.pop().unwrap();
    assert_eq!(f64::from_bits(top.scalar_value()), 2.5);
    assert_eq!(top.ontic_type, KILOGRAM);
    let below = back.pop().unwrap();
    assert_eq!(below.data, vec![1, 2, 3, 4]);
    assert_eq!(below.shape, vec![2, 2]);
    match back.ledger().check(Op::Multiply, &[METER, METER], &[0x1000]) {
        LedgerVerdict::Consistent => {}
        _ => panic!("expected a consistent verdict"),
    }
}

#[test]
fn roundtrip_keeps_savepoints() {
    let ctx = busy_context();
    let json = ctx.serialize().unwrap();
    let mut back = NexusContext::<u64>::deserialize(&json).unwrap();
    back.push_scalar(9, SECOND);
    back.rollback(0);
    assert_eq!(back.stack_depth(), 1);
    assert_eq!(back.peek().unwrap().ontic_type, METER);
}

#[test]
fn deserialize_rejects_empty_text() {
    assert!(is_malformed(NexusContext::<u64>::deserialize("")));
    assert!(is_malformed(NexusContext::<u64>::deserialize("{}")));
}

#[test]
fn deserialize_rejects_trailing_text() {
    let text = format!("{} ", EMPTY_TEXT);
    assert!(is_malformed(NexusContext::<u64>::deserialize(&text)));
}

#[test]
fn deserialize_rejects_whitespace_inside() {
    let text = EMPTY_TEXT.replace("\"agent_id\":1", "\"agent_id\": 1");
    assert!(is_malformed(NexusContext::<u64>::deserialize(&text)));
}

#[test]
fn deserialize_rejects_duplicate_alias() {
    let text = EMPTY_TEXT.replace("[\"BIT\",5]", "[\"BIT\",5],[\"METER\",9]");
    assert!(is_malformed(NexusContext::<u64>::deserialize(&text)));
}

#[test]
fn deserialize_rejects_alias_at_counter() {
    let text = EMPTY_TEXT.replace("[\"BIT\",5]", "[\"BIT\",4096]");
    assert!(is_malformed(NexusContext::<u64>::deserialize(&text)));
}

#[test]
fn deserialize_rejects_unknown_verb() {
    let text = EMPTY_TEXT.replace("\"ledger\":[]", "\"ledger\":[[7,[1],[2]]]");
    assert!(is_malformed(NexusContext::<u64>::deserialize(&text)));
    let good = EMPTY_TEXT.replace("\"ledger\":[]", "\"ledger\":[[6,[1],[2]]]");
    assert!(NexusContext::<u64>::deserialize(&good).is_ok());
}

#[test]
fn deserialize_rejects_repeated_ledger_entry() {
    let text = EMPTY_TEXT.replace("\"ledger\":[]", "\"ledger\":[[1,[1],[2]],[1,[1],[3]]]");
    assert!(is_malformed(NexusContext::<u64>::deserialize(&text)));
    let text = EMPTY_TEXT.replace("\"savepoints\":[]", "\"savepoints\":[[[],[[1,[1],[2]],[1,[1],[3]]]]]");
    assert!(is_malformed(NexusContext::<u64>::deserialize(&text)));
}

#[test]
fn deserialize_rejects_repeated_bridge() {
    let text = EMPTY_TEXT.replace("\"bridges\":[]", "\"bridges\":[[2,4,3,1],[2,4,1,2]]");
    assert!(is_malformed(NexusContext::<u64>::deserialize(&text)));
}

#[test]
fn deserialize_rejects_leading_zero() {
    let text = EMPTY_TEXT.replace("\"agent_id\":1", "\"agent_id\":01");
    assert!(is_malformed(NexusContext::<u64>::deserialize(&text)));
}

#[test]
fn deserialize_rejects_number_overflow() {
    let text = EMPTY_TEXT.replace("\"agent_id\":1", "\"agent_id\":18446744073709551616");
    assert!(is_malformed(NexusContext::<u64>::deserialize(&text)));
    let text = EMPTY_TEXT.replace("\"agent_id\":1", "\"agent_id\":18446744073709551615");
    assert_eq!(NexusContext::<u64>::deserialize(&text).unwrap().agent_id, u64::MAX);
}

#[test]
fn deserialize_reads_escapes() {
    let text = EMPTY_TEXT.replace("\"goal\":null", "\"goal\":\"a\\u0009b\\\\c\\\"d\"");
    let back = NexusContext::<u64>::deserialize(&text).unwrap();
    assert_eq!(back.current_goal(), Some("a\tb\\c\"d"));
    assert_eq!(back.serialize().unwrap(), text);
}

#[test]
fn deserialize_rejects_raw_control_character() {
    let text = EMPTY_TEXT.replace("\"goal\":null", "\"goal\":\"a\tb\"");
    assert!(is_malformed(NexusContext::<u64>::deserialize(&text)));
}

#[test]
fn deserialize_flag_true() {
    let text = EMPTY_TEXT.replace("\"contradicted\":false", "\"contradicted\":true");
    let back = NexusContext::<u64>::deserialize(&text).unwrap();
    assert_eq!(back.serialize().unwrap(), text);
}

fn float_context() -> NexusContext<f64> {
    let mut ctx = NexusContext::<f64>::new(3);
    ctx.registry_mut().bridge(METER, SECOND, Op::Divide, 0.5);
    ctx.push_tensor(vec![1.5, -2.25, 1e-300], vec![3], METER);
    ctx.savepoint();
    ctx.push_scalar(f64::MAX, KILOGRAM);
    ctx
}

#[test]
fn map_elements_maps_data_and_factors() {
    let ctx = busy_context();
    let doubled = ctx.map_elements(|x: u64| x.wrapping_mul(2));
    let json = doubled.serialize().unwrap();
    assert!(json.contains("\"bridges\":[[2,4,3,6]]"));
    assert!(json.contains("[2,[2,2],[2,4,6,8]]"));
    assert_eq!(doubled.registry().get("AREA").unwrap(), 0x1000);
    assert_eq!(doubled.current_goal(), ctx.current_goal());
}

#[test]
fn map_with_inverse_gives_back_context() {
    let ctx = busy_context();
    let json = ctx.serialize().unwrap();
    let there = ctx.map_elements(|x: u64| x ^ 0xff);
    assert_ne!(there.serialize().unwrap(), json);
    let back = there.map_elements(|x: u64| x ^ 0xff);
    assert_eq!(back.serialize().unwrap(), json);
}

#[test]
fn float_context_roundtrip_through_bits() {
    let ctx = float_context();
    let json = ctx.map_elements(f64::to_bits).serialize().unwrap();
    let mut back: NexusContext<f64> = NexusContext::<u64>::deserialize(&json).unwrap().map_elements(f64::from_bits);
    assert_eq!(back.registry().get_bridge(METER, SECOND), Some((Op::Divide, 0.5)));
    assert_eq!(back.pop().unwrap().scalar_value(), f64::MAX);
    let t = back.pop().unwrap();
    assert_eq!(t.data, vec![1.5, -2.25, 1e-300]);
    assert_eq!(t.shape, vec![3]);
    assert_eq!(back.map_elements(f64::to_bits).serialize().unwrap().len() > 0, true);
}

#[test]
fn deserialize_rejects_counter_below_user_range() {
    let text = EMPTY_TEXT.replace("\"next_auto_id\":4096", "\"next_auto_id\":4095");
    assert!(is_malformed(NexusContext::<u64>::deserialize(&text)));
}
