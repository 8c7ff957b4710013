use nexus_core::{
    Adverb, ConsistencyLedger, LedgerVerdict, NexusContext, NexusError, Op, KILOGRAM, METER, NULL_TYPE, SCALAR,
    SECOND, BIT,
};

/// Element arithmetic on `f64`, as the engine performs it.
fn exec(op: Op, a: f64, b: f64) -> Result<f64, NexusError> {
    match op {
        Op::Add => Ok(a + b),
        Op::Subtract => Ok(a - b),
        Op::Multiply => Ok(a * b),
        Op::Divide => {
            if b == 0.0 {
                return Err(NexusError::ExecutionError("Division by zero".to_string()));
            }
            Ok(a / b)
        }
        Op::Max => Ok(a.max(b)),
        Op::Min => Ok(a.min(b)),
    }
}

// ---- Type registry ----

#[test]
fn define_returns_id_above_user_range() {
    let mut ctx = NexusContext::<f64>::new(1);
    let id = ctx.registry_mut().define("AREA").unwrap();
    assert!(id >= 0x1000, "User-defined types must start at 0x1000+");
}

#[test]
fn define_explicit_id() {
    let mut ctx = NexusContext::<f64>::new(1);
    ctx.registry_mut().define_explicit("PESOS", 0x2001).unwrap();
    assert_eq!(ctx.registry().get("PESOS").unwrap(), 0x2001);
}

#[test]
fn reject_duplicate_alias() {
    let mut ctx = NexusContext::<f64>::new(1);
    ctx.registry_mut().define("AREA").unwrap();
    let err = ctx.registry_mut().define("AREA");
    assert!(err.is_err(), "Duplicate alias must be rejected");
}

#[test]
fn get_builtin_type() {
    let ctx = NexusContext::<f64>::new(1);
    assert_eq!(ctx.registry().get("METER").unwrap(), METER);
    assert_eq!(ctx.registry().get("SCALAR").unwrap(), SCALAR);
}

#[test]
fn get_missing_type_errors() {
    let ctx = NexusContext::<f64>::new(1);
    assert!(ctx.registry().get("NONEXISTENT").is_err());
}

#[test]
fn layer0_constants_present() {
    let ctx = NexusContext::<f64>::new(1);
    let r = ctx.registry();
    assert!(r.get("NULL_TYPE").is_ok());
    assert!(r.get("SCALAR").is_ok());
    assert!(r.get("METER").is_ok());
    assert!(r.get("KILOGRAM").is_ok());
    assert!(r.get("SECOND").is_ok());
    assert!(r.get("BIT").is_ok());
    assert_eq!(r.get("NULL_TYPE").unwrap(), NULL_TYPE);
    assert_eq!(r.get("KILOGRAM").unwrap(), KILOGRAM);
    assert_eq!(r.get("BIT").unwrap(), BIT);
}

#[test]
fn auto_id_increments() {
    let mut ctx = NexusContext::<f64>::new(1);
    let id1 = ctx.registry_mut().define("TYPE_A").unwrap();
    let id2 = ctx.registry_mut().define("TYPE_B").unwrap();
    assert_eq!(id2, id1 + 1);
}

#[test]
fn explicit_id_adjusts_auto_counter() {
    let mut ctx = NexusContext::<f64>::new(1);
    ctx.registry_mut().define_explicit("HIGH", 0x5000).unwrap();
    let next = ctx.registry_mut().define("AFTER_HIGH").unwrap();
    assert_eq!(next, 0x5001);
}

// ---- Stack ----

#[test]
fn push_pop_scalar_roundtrip() {
    let mut ctx = NexusContext::new(1);
    ctx.push_scalar(42.0, SCALAR);
    let val = ctx.pop().unwrap();
    assert_eq!(val.data, vec![42.0]);
    assert_eq!(val.ontic_type, SCALAR);
}

#[test]
fn pop_empty_stack_errors() {
    let mut ctx = NexusContext::<f64>::new(1);
    assert!(ctx.pop().is_err());
}

#[test]
fn stack_is_lifo() {
    let mut ctx = NexusContext::new(1);
    ctx.push_scalar(1.0, METER);
    ctx.push_scalar(2.0, SECOND);
    let top = ctx.pop().unwrap();
    assert_eq!(top.ontic_type, SECOND, "LIFO: last pushed should pop first");
    let next = ctx.pop().unwrap();
    assert_eq!(next.ontic_type, METER);
}

#[test]
fn multiple_items_depth() {
    let mut ctx = NexusContext::new(1);
    ctx.push_scalar(1.0, METER);
    ctx.push_scalar(2.0, METER);
    ctx.push_scalar(3.0, METER);
    assert_eq!(ctx.stack_depth(), 3);
}

#[test]
fn peek_returns_top_without_consuming() {
    let mut ctx = NexusContext::new(1);
    ctx.push_scalar(42.0, METER);
    let peeked = ctx.peek().unwrap();
    assert_eq!(peeked.ontic_type, METER);
    assert_eq!(ctx.stack_depth(), 1, "peek must not consume");
}

#[test]
fn peek_empty_stack_errors() {
    let ctx = NexusContext::<f64>::new(1);
    assert!(ctx.peek().is_err());
}

// ---- Apply ----

#[test]
fn add_two_scalars() {
    let mut ctx = NexusContext::new(1);
    ctx.push_scalar(3.0, METER);
    ctx.push_scalar(4.0, METER);
    ctx.apply(Op::Add, &[METER, METER], &[METER], exec).unwrap();
    let res = ctx.pop().unwrap();
    assert_eq!(res.scalar_value(), 7.0);
    assert_eq!(res.ontic_type, METER);
}

#[test]
fn multiply_two_scalars() {
    let mut ctx = NexusContext::new(1);
    let area = 0x1010;
    ctx.push_scalar(3.0, METER);
    ctx.push_scalar(3.0, METER);
    ctx.apply(Op::Multiply, &[METER, METER], &[area], exec).unwrap();
    let res = ctx.pop().unwrap();
    assert_eq!(res.scalar_value(), 9.0);
    assert_eq!(res.ontic_type, area);
}

#[test]
fn divide_by_zero_errors() {
    let mut ctx = NexusContext::new(1);
    ctx.push_scalar(1.0, SCALAR);
    ctx.push_scalar(0.0, SCALAR);
    let result = ctx.apply(Op::Divide, &[SCALAR, SCALAR], &[SCALAR], exec);
    assert!(result.is_err(), "Division by zero must error");
}

#[test]
fn type_mismatch_errors() {
    let mut ctx = NexusContext::new(1);
    ctx.push_scalar(1.0, METER);
    ctx.push_scalar(1.0, METER);
    let result = ctx.apply(Op::Add, &[SECOND, SECOND], &[SECOND], exec);
    assert!(result.is_err(), "Type mismatch must error");
}

#[test]
fn stack_underflow_on_apply() {
    let mut ctx = NexusContext::new(1);
    ctx.push_scalar(1.0, METER);
    let result = ctx.apply(Op::Add, &[METER, METER], &[METER], exec);
    assert!(result.is_err(), "Not enough values must underflow");
}

#[test]
fn all_pervasive_verbs_scalar() {
    let ops = [
        (Op::Add, 3.0, 2.0, 5.0),
        (Op::Subtract, 5.0, 3.0, 2.0),
        (Op::Multiply, 4.0, 3.0, 12.0),
        (Op::Divide, 10.0, 2.0, 5.0),
        (Op::Max, 3.0, 7.0, 7.0),
        (Op::Min, 3.0, 7.0, 3.0),
    ];
    for (op, a, b, expected) in ops {
        let mut ctx = NexusContext::new(1);
        ctx.push_scalar(a, SCALAR);
        ctx.push_scalar(b, SCALAR);
        ctx.apply(op, &[SCALAR, SCALAR], &[SCALAR], exec).unwrap();
        let res = ctx.pop().unwrap();
        assert_eq!(res.scalar_value(), expected, "Failed for {:?}", op);
    }
}

// ---- Consistency ledger ----

#[test]
fn novel_signature_recorded() {
    let mut ledger = ConsistencyLedger::new();
    let v = ledger.check(Op::Multiply, &[METER, METER], &[0x1010]);
    assert!(matches!(v, LedgerVerdict::Novel));
}

#[test]
fn consistent_reuse() {
    let mut ledger = ConsistencyLedger::new();
    ledger.check(Op::Multiply, &[METER, METER], &[0x1010]);
    let v = ledger.check(Op::Multiply, &[METER, METER], &[0x1010]);
    assert!(matches!(v, LedgerVerdict::Consistent));
}

#[test]
fn contradiction_detected() {
    let mut ledger = ConsistencyLedger::new();
    ledger.check(Op::Multiply, &[METER, METER], &[0x1010]);
    let v = ledger.check(Op::Multiply, &[METER, METER], &[0x9999]);
    assert!(matches!(v, LedgerVerdict::Contradiction(_)));
}

#[test]
fn contradiction_includes_prior_signature() {
    let mut ledger = ConsistencyLedger::new();
    ledger.check(Op::Multiply, &[METER, METER], &[0x1010]);
    let v = ledger.check(Op::Multiply, &[METER, METER], &[0x9999]);
    if let LedgerVerdict::Contradiction(prior) = v {
        assert_eq!(prior.outputs, vec![0x1010], "Prior sig must contain original output");
    } else {
        panic!("Expected Contradiction");
    }
}

#[test]
fn different_ops_dont_interfere() {
    let mut ledger = ConsistencyLedger::new();
    let v1 = ledger.check(Op::Add, &[METER, METER], &[METER]);
    let v2 = ledger.check(Op::Multiply, &[METER, METER], &[0x1010]);
    assert!(matches!(v1, LedgerVerdict::Novel));
    assert!(matches!(v2, LedgerVerdict::Novel));
}

#[test]
fn apply_returns_ledger_verdict() {
    let mut ctx = NexusContext::new(1);
    let area = 0x1010;

    ctx.push_scalar(2.0, METER);
    ctx.push_scalar(3.0, METER);
    let v1 = ctx.apply(Op::Multiply, &[METER, METER], &[area], exec).unwrap();
    assert!(matches!(v1, LedgerVerdict::Novel));

    ctx.push_scalar(4.0, METER);
    ctx.push_scalar(5.0, METER);
    let v2 = ctx.apply(Op::Multiply, &[METER, METER], &[area], exec).unwrap();
    assert!(matches!(v2, LedgerVerdict::Consistent));
}

// ---- Bridges ----

#[test]
fn bridge_converts_scalar() {
    let mut ctx = NexusContext::new(1);
    let seconds = ctx.registry_mut().define("SECONDS").unwrap();
    let minutes = ctx.registry_mut().define("MINUTES").unwrap();
    ctx.registry_mut().bridge(seconds, minutes, Op::Divide, 60.0);

    ctx.push_scalar(3600.0, seconds);
    ctx.convert_to(minutes, exec).unwrap();
    let res = ctx.pop().unwrap();
    assert_eq!(res.scalar_value(), 60.0);
    assert_eq!(res.ontic_type, minutes);
}

#[test]
fn convert_same_type_is_noop() {
    let mut ctx = NexusContext::new(1);
    ctx.push_scalar(42.0, METER);
    ctx.convert_to(METER, exec).unwrap();
    let res = ctx.pop().unwrap();
    assert_eq!(res.scalar_value(), 42.0);
    assert_eq!(res.ontic_type, METER);
}

#[test]
fn missing_bridge_errors() {
    let mut ctx = NexusContext::new(1);
    ctx.push_scalar(42.0, METER);
    let result = ctx.convert_to(SECOND, exec);
    assert!(result.is_err());
    // Value should be preserved on stack after failed conversion
    let res = ctx.pop().unwrap();
    assert_eq!(res.scalar_value(), 42.0);
    assert_eq!(res.ontic_type, METER);
}

#[test]
fn bridge_converts_all_tensor_elements() {
    let mut ctx = NexusContext::new(1);
    let cm = ctx.registry_mut().define("CM").unwrap();
    ctx.registry_mut().bridge(METER, cm, Op::Multiply, 100.0);

    ctx.push_tensor(vec![1.0, 2.0, 3.0], vec![3], METER);
    ctx.convert_to(cm, exec).unwrap();
    let res = ctx.pop().unwrap();
    assert_eq!(res.data, vec![100.0, 200.0, 300.0]);
    assert_eq!(res.ontic_type, cm);
}

// ---- Tensors ----

#[test]
fn tensor_scalar_broadcast_reversed() {
    let mut ctx = NexusContext::new(1);
    let result_type = 0x1020;
    ctx.push_scalar(2.0, SCALAR);
    ctx.push_tensor(vec![1.0, 2.0, 3.0], vec![3], METER);
    ctx.apply(Op::Multiply, &[SCALAR, METER], &[result_type], exec).unwrap();
    let res = ctx.pop().unwrap();
    assert_eq!(res.data, vec![2.0, 4.0, 6.0]);
}

#[test]
fn shape_mismatch_errors() {
    let mut ctx = NexusContext::new(1);
    ctx.push_tensor(vec![1.0, 2.0, 3.0], vec![3], METER);
    ctx.push_tensor(vec![1.0, 2.0], vec![2], METER);
    let result = ctx.apply(Op::Add, &[METER, METER], &[METER], exec);
    assert!(result.is_err());
}

#[test]
fn all_pervasive_verbs_vector() {
    let a = vec![10.0, 20.0, 30.0];
    let b = vec![3.0, 5.0, 10.0];
    let cases: Vec<(Op, Vec<f64>)> = vec![
        (Op::Add, vec![13.0, 25.0, 40.0]),
        (Op::Subtract, vec![7.0, 15.0, 20.0]),
        (Op::Multiply, vec![30.0, 100.0, 300.0]),
        (Op::Divide, vec![10.0 / 3.0, 4.0, 3.0]),
        (Op::Max, vec![10.0, 20.0, 30.0]),
        (Op::Min, vec![3.0, 5.0, 10.0]),
    ];
    for (op, expected) in cases {
        let mut ctx = NexusContext::new(1);
        ctx.push_tensor(a.clone(), vec![3], SCALAR);
        ctx.push_tensor(b.clone(), vec![3], SCALAR);
        ctx.apply(op, &[SCALAR, SCALAR], &[SCALAR], exec).unwrap();
        let res = ctx.pop().unwrap();
        assert_eq!(res.data, expected, "Failed for {:?}", op);
    }
}

// ---- Adverbs ----

#[test]
fn reduce_multiply() {
    let mut ctx = NexusContext::new(1);
    let volume = 0x1030;
    ctx.push_tensor(vec![2.0, 3.0, 4.0], vec![3], METER);
    ctx.apply_adverb(Adverb::Reduce, Op::Multiply, &[METER], &[volume], exec).unwrap();
    let res = ctx.pop().unwrap();
    assert_eq!(res.scalar_value(), 24.0);
}

#[test]
fn reduce_empty_errors() {
    let mut ctx = NexusContext::new(1);
    ctx.push_tensor(vec![], vec![0], METER);
    let result = ctx.apply_adverb(Adverb::Reduce, Op::Add, &[METER], &[METER], exec);
    assert!(result.is_err());
}

#[test]
fn scan_add_running_prefix() {
    let mut ctx = NexusContext::new(1);
    ctx.push_tensor(vec![1.0, 2.0, 3.0], vec![3], SECOND);
    ctx.apply_adverb(Adverb::Scan, Op::Add, &[SECOND], &[SECOND], exec).unwrap();
    let res = ctx.pop().unwrap();
    assert_eq!(res.data, vec![1.0, 3.0, 6.0]);
    assert_eq!(res.shape, vec![3]);
    assert_eq!(res.ontic_type, SECOND);
    assert_eq!(ctx.stack_depth(), 0);
}

#[test]
#[should_panic(expected = "not fully implemented")]
fn each_not_implemented() {
    let mut ctx = NexusContext::new(1);
    ctx.push_tensor(vec![4.0, 9.0, 16.0], vec![3], METER);
    ctx.apply_adverb(Adverb::Each, Op::Add, &[METER], &[METER], exec).unwrap();
}

#[test]
fn table_multiply_outer_product() {
    let mut ctx = NexusContext::new(1);
    let area = 0x1010;
    ctx.push_tensor(vec![2.0, 3.0], vec![2], METER);
    ctx.push_tensor(vec![4.0, 5.0], vec![2], METER);
    ctx.apply_adverb(Adverb::Table, Op::Multiply, &[METER, METER], &[area], exec).unwrap();
    let res = ctx.pop().unwrap();
    assert_eq!(res.data, vec![8.0, 10.0, 12.0, 15.0]);
    assert_eq!(res.shape, vec![2, 2]);
    assert_eq!(res.ontic_type, area);
    assert_eq!(ctx.stack_depth(), 0);
}

// ---- Goals ----

#[test]
fn goal_set_and_read() {
    let mut ctx = NexusContext::<f64>::new(1);
    assert!(ctx.current_goal().is_none());
    ctx.goal("Compute geometric mean");
    assert_eq!(ctx.current_goal(), Some("Compute geometric mean"));
}

#[test]
fn goal_done_clears() {
    let mut ctx = NexusContext::<f64>::new(1);
    ctx.goal("Compute geometric mean");
    ctx.goal_done();
    assert!(ctx.current_goal().is_none());
}

// ---- Workflows ----

#[test]
fn geometric_mean_pipeline() {
    let mut ctx = NexusContext::new(1);
    let area = ctx.registry_mut().define("AREA").unwrap();

    ctx.push_tensor(vec![4.0, 9.0], vec![2], METER);
    ctx.apply_adverb(Adverb::Reduce, Op::Multiply, &[METER], &[area], exec).unwrap();

    let res = ctx.pop().unwrap();
    assert_eq!(res.scalar_value(), 36.0);
    assert_eq!(res.ontic_type, area);
}

#[test]
fn full_contradiction_detection() {
    let mut ctx = NexusContext::new(1);
    let area = 0x1010;
    let velocity = 0x2020;

    ctx.push_scalar(3.0, METER);
    ctx.push_scalar(3.0, METER);
    let v1 = ctx.apply(Op::Multiply, &[METER, METER], &[area], exec).unwrap();
    assert!(matches!(v1, LedgerVerdict::Novel));
    ctx.pop().unwrap();

    ctx.push_scalar(3.0, METER);
    ctx.push_scalar(3.0, METER);
    let v2 = ctx.apply(Op::Multiply, &[METER, METER], &[velocity], exec).unwrap();
    assert!(matches!(v2, LedgerVerdict::Contradiction(_)));
}
