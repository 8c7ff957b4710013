use nexus_core::{
    Adverb, ConsistencyLedger, LedgerVerdict, NexusContext, NexusError, Op, TypeRegistry, TypedTensor, METER, SCALAR,
    SECOND,
};

fn exec(op: Op, a: f64, b: f64) -> Result<f64, NexusError> {
    match op {
        Op::Add => Ok(a + b),
        Op::Subtract => Ok(a - b),
        Op::Multiply => Ok(a * b),
        Op::Divide => {
            if b == 0.0 {
                return Err(NexusError::ExecutionError("Division by zero".to_string()));
            }
            Ok(a / b)
        }
        Op::Max => Ok(a.max(b)),
        Op::Min => Ok(a.min(b)),
    }
}

fn types(ctx: &mut NexusContext<f64>) -> Vec<u64> {
    let mut out = Vec::new();
    while let Ok(t) = ctx.pop() {
        out.push(t.ontic_type);
    }
    out
}

// ---- pick / drop_top ----

#[test]
fn pick_dup_copies_top() {
    let mut ctx = NexusContext::new(1);
    ctx.push_scalar(42.0, METER);
    ctx.pick(&[0, 0]).unwrap();
    assert_eq!(ctx.stack_depth(), 2);
    let a = ctx.pop().unwrap();
    let b = ctx.pop().unwrap();
    assert_eq!(a, b);
    assert_eq!(a.data, vec![42.0]);
    assert_eq!(a.ontic_type, METER);
}

#[test]
fn pick_swap_exchanges_top_two() {
    let mut ctx = NexusContext::new(1);
    ctx.push_scalar(1.0, METER);
    ctx.push_scalar(2.0, SECOND);
    ctx.pick(&[1, 0]).unwrap();
    assert_eq!(types(&mut ctx), vec![METER, SECOND]);
}

#[test]
fn pick_over_pattern() {
    let mut ctx = NexusContext::new(1);
    ctx.push_scalar(1.0, METER);
    ctx.push_scalar(2.0, SECOND);
    ctx.pick(&[0, 1, 0]).unwrap();
    assert_eq!(types(&mut ctx), vec![SECOND, METER, SECOND]);
}

#[test]
fn pick_rot_rotates_three() {
    let mut ctx = NexusContext::new(1);
    ctx.push_scalar(1.0, 10);
    ctx.push_scalar(2.0, 20);
    ctx.push_scalar(3.0, 30);
    ctx.pick(&[2, 0, 1]).unwrap();
    // bottom to top: 20, 30, 10
    assert_eq!(types(&mut ctx), vec![10, 30, 20]);
}

#[test]
fn pick_keeps_items_below() {
    let mut ctx = NexusContext::new(1);
    ctx.push_scalar(0.0, 5);
    ctx.push_scalar(1.0, METER);
    ctx.push_scalar(2.0, SECOND);
    ctx.pick(&[1, 0]).unwrap();
    assert_eq!(types(&mut ctx), vec![METER, SECOND, 5]);
}

#[test]
fn pick_underflow_leaves_stack() {
    let mut ctx = NexusContext::new(1);
    ctx.push_scalar(1.0, METER);
    let r = ctx.pick(&[1, 0]);
    assert!(matches!(r, Err(NexusError::StackUnderflow)));
    assert_eq!(ctx.stack_depth(), 1);
}

#[test]
fn pick_no_indices_is_noop() {
    let mut ctx = NexusContext::new(1);
    ctx.push_scalar(1.0, METER);
    ctx.pick(&[]).unwrap();
    assert_eq!(ctx.stack_depth(), 1);
}

#[test]
fn drop_top_removes_top() {
    let mut ctx = NexusContext::new(1);
    ctx.push_scalar(1.0, METER);
    ctx.push_scalar(2.0, SECOND);
    ctx.drop_top().unwrap();
    assert_eq!(types(&mut ctx), vec![METER]);
    assert!(matches!(ctx.drop_top(), Err(NexusError::StackUnderflow)));
}

// ---- savepoints and assertions ----

#[test]
fn savepoint_rollback_restores_stack() {
    let mut ctx = NexusContext::new(1);
    ctx.push_scalar(1.0, METER);
    let sp = ctx.savepoint();
    assert_eq!(sp, 0);
    ctx.push_scalar(2.0, SECOND);
    ctx.rollback(sp);
    assert_eq!(types(&mut ctx), vec![METER]);
}

#[test]
fn rollback_restores_ledger() {
    let mut ctx = NexusContext::new(1);
    let sp = ctx.savepoint();
    ctx.push_scalar(3.0, METER);
    ctx.push_scalar(3.0, METER);
    ctx.apply(Op::Multiply, &[METER, METER], &[0x1010], exec).unwrap();
    ctx.rollback(sp);
    ctx.push_scalar(3.0, METER);
    ctx.push_scalar(3.0, METER);
    let v = ctx.apply(Op::Multiply, &[METER, METER], &[0x2020], exec).unwrap();
    assert!(matches!(v, LedgerVerdict::Novel));
}

#[test]
fn rollback_unknown_id_is_noop() {
    let mut ctx = NexusContext::new(1);
    ctx.push_scalar(1.0, METER);
    ctx.rollback(7);
    assert_eq!(ctx.stack_depth(), 1);
}

#[test]
fn assert_consistent_passes_then_fails_with_rollback() {
    let mut ctx = NexusContext::new(1);
    let area = 0x1010;
    ctx.push_scalar(3.0, METER);
    ctx.push_scalar(3.0, METER);
    ctx.apply(Op::Multiply, &[METER, METER], &[area], exec).unwrap();
    ctx.assert_consistent().unwrap();
    assert_eq!(ctx.stack_depth(), 1);

    ctx.push_scalar(3.0, METER);
    ctx.push_scalar(3.0, METER);
    ctx.apply(Op::Multiply, &[METER, METER], &[0x9999], exec).unwrap();
    assert_eq!(ctx.stack_depth(), 2);
    let r = ctx.assert_consistent();
    assert!(r.is_err());
    assert_eq!(ctx.stack_depth(), 1, "rollback to the savepoint of the passing assertion");
    assert!(ctx.assert_consistent().is_ok(), "nothing pending after the rollback");
}

#[test]
fn assert_type_pass_and_fail() {
    let mut ctx = NexusContext::new(1);
    ctx.push_scalar(42.0, METER);
    ctx.assert_type(METER).unwrap();
    ctx.push_scalar(1.0, SECOND);
    let r = ctx.assert_type(METER);
    match r {
        Err(NexusError::ExecutionError(msg)) => assert_eq!(msg, "Type mismatch. Expected 2, found 4"),
        _ => panic!("expected a type mismatch"),
    }
    assert_eq!(types(&mut ctx), vec![METER]);
}

#[test]
fn assert_shape_pass_and_fail() {
    let mut ctx = NexusContext::new(1);
    ctx.push_tensor(vec![1.0, 2.0, 3.0], vec![3], METER);
    ctx.assert_shape(&[3]).unwrap();
    ctx.push_tensor(vec![1.0, 2.0], vec![2], METER);
    let r = ctx.assert_shape(&[3]);
    assert!(matches!(r, Err(NexusError::ShapeMismatch(ref a, ref b)) if a == &vec![3] && b == &vec![2]));
    assert_eq!(ctx.stack_depth(), 1);
}

#[test]
fn nested_savepoints_roll_back_to_latest() {
    let mut ctx = NexusContext::new(1);
    ctx.push_scalar(1.0, METER);
    ctx.assert_type(METER).unwrap(); // S1: one item
    ctx.push_scalar(2.0, METER);
    ctx.assert_type(METER).unwrap(); // S2: two items
    ctx.push_scalar(3.0, SECOND);
    assert!(ctx.assert_type(METER).is_err());
    assert_eq!(ctx.stack_depth(), 2);
}

#[test]
fn assert_on_empty_stack_underflows() {
    let mut ctx = NexusContext::<f64>::new(1);
    assert!(matches!(ctx.assert_type(METER), Err(NexusError::StackUnderflow)));
    assert!(matches!(ctx.assert_shape(&[]), Err(NexusError::StackUnderflow)));
}

// ---- apply details ----

#[test]
fn apply_mismatch_drops_popped_items() {
    let mut ctx = NexusContext::new(1);
    ctx.push_scalar(0.0, 7);
    ctx.push_scalar(1.0, METER);
    ctx.push_scalar(1.0, METER);
    let r = ctx.apply(Op::Add, &[SECOND, METER], &[SECOND], exec);
    match r {
        Err(NexusError::ExecutionError(msg)) => assert_eq!(msg, "Type mismatch. Expected 4, found 2"),
        _ => panic!("expected a type mismatch"),
    }
    assert_eq!(types(&mut ctx), vec![7]);
}

#[test]
fn apply_other_arity_pushes_defaults() {
    let mut ctx = NexusContext::new(1);
    ctx.push_scalar(5.0, METER);
    let v = ctx.apply(Op::Add, &[METER], &[SECOND, SCALAR], exec).unwrap();
    assert!(matches!(v, LedgerVerdict::Novel));
    let top = ctx.pop().unwrap();
    assert_eq!(top.data, vec![0.0]);
    assert_eq!(top.ontic_type, SCALAR);
    let next = ctx.pop().unwrap();
    assert_eq!(next.ontic_type, SECOND);
    assert_eq!(ctx.stack_depth(), 0);
}

#[test]
fn apply_divide_by_zero_in_vector_consumes_inputs() {
    let mut ctx = NexusContext::new(1);
    ctx.push_tensor(vec![1.0, 2.0], vec![2], SCALAR);
    ctx.push_tensor(vec![1.0, 0.0], vec![2], SCALAR);
    let r = ctx.apply(Op::Divide, &[SCALAR, SCALAR], &[SCALAR], exec);
    assert!(matches!(r, Err(NexusError::ExecutionError(ref m)) if m == "Division by zero"));
    assert_eq!(ctx.stack_depth(), 0);
}

#[test]
fn shape_mismatch_reports_shapes() {
    let mut ctx = NexusContext::new(1);
    ctx.push_tensor(vec![1.0, 2.0, 3.0], vec![3], METER);
    ctx.push_tensor(vec![1.0, 2.0], vec![2], METER);
    let r = ctx.apply(Op::Add, &[METER, METER], &[METER], exec);
    match r {
        Err(e) => assert_eq!(e.message(), "Shape mismatch: [3] vs [2]"),
        Ok(_) => panic!("expected a shape mismatch"),
    }
}

#[test]
fn matrix_elementwise() {
    let mut ctx = NexusContext::new(1);
    ctx.push_tensor(vec![1.0, 2.0, 3.0, 4.0, 5.0, 6.0], vec![2, 3], SCALAR);
    ctx.push_tensor(vec![6.0, 5.0, 4.0, 3.0, 2.0, 1.0], vec![2, 3], SCALAR);
    ctx.apply(Op::Add, &[SCALAR, SCALAR], &[SCALAR], exec).unwrap();
    let res = ctx.pop().unwrap();
    assert_eq!(res.data, vec![7.0; 6]);
    assert_eq!(res.shape, vec![2, 3]);
}

#[test]
fn missing_bridge_error_names_types() {
    let mut ctx = NexusContext::new(1);
    ctx.push_scalar(42.0, METER);
    let e = ctx.convert_to(SECOND, exec).unwrap_err();
    assert!(matches!(e, NexusError::ConversionNotFound(2, 4)));
    assert_eq!(e.message(), "No bridge found to convert from 2 to 4");
}

#[test]
fn reduce_type_mismatch_message() {
    let mut ctx = NexusContext::new(1);
    ctx.push_tensor(vec![1.0], vec![1], METER);
    let r = ctx.apply_adverb(Adverb::Reduce, Op::Add, &[SECOND], &[SECOND], exec);
    assert!(matches!(r, Err(NexusError::ExecutionError(ref m)) if m == "Type mismatch"));
    assert_eq!(ctx.stack_depth(), 0);
}

#[test]
fn reduce_subtract_folds_left() {
    let mut ctx = NexusContext::new(1);
    ctx.push_tensor(vec![10.0, 3.0, 2.0], vec![3], METER);
    ctx.apply_adverb(Adverb::Reduce, Op::Subtract, &[METER], &[METER], exec).unwrap();
    assert_eq!(ctx.pop().unwrap().scalar_value(), 5.0);
}

#[test]
fn unimplemented_adverb_leaves_stack() {
    let mut ctx = NexusContext::new(1);
    ctx.push_tensor(vec![1.0, 2.0], vec![2], METER);
    let r = ctx.apply_adverb(Adverb::Each, Op::Add, &[METER], &[METER], exec);
    assert!(matches!(r, Err(NexusError::ExecutionError(ref m)) if m == "Each not fully implemented"));
    assert_eq!(ctx.stack_depth(), 1);
}

// ---- tensors, errors, codes ----

#[test]
fn scalar_shapes_and_default_value() {
    let t = TypedTensor { data: Vec::<f64>::new(), shape: vec![], ontic_type: SCALAR };
    assert!(t.is_scalar());
    assert_eq!(t.scalar_value(), 0.0);
    let u = TypedTensor { data: vec![4.0], shape: vec![1], ontic_type: SCALAR };
    assert!(u.is_scalar());
    assert_eq!(u.scalar_value(), 4.0);
    let v = TypedTensor { data: vec![4.0, 5.0], shape: vec![2], ontic_type: SCALAR };
    assert!(!v.is_scalar());
}

#[test]
fn error_messages() {
    assert_eq!(NexusError::TypeAlreadyExists("AREA".to_string()).message(), "Type alias already exists: AREA");
    assert_eq!(NexusError::TypeNotFound("X".to_string()).message(), "Type alias not found: X");
    assert_eq!(NexusError::StackUnderflow.message(), "Not enough values on stack");
    assert_eq!(NexusError::ExecutionError("boom".to_string()).message(), "Execution error: boom");
    assert_eq!(NexusError::ShapeMismatch(vec![1, 2, 3], vec![]).message(), "Shape mismatch: [1, 2, 3] vs []");
    assert_eq!(NexusError::ConversionNotFound(4096, 0).message(), "No bridge found to convert from 4096 to 0");
}

#[test]
fn numeric_codes_round_trip() {
    for code in 0..10u32 {
        match Op::from_code(code) {
            Some(op) => assert_eq!(op.code(), code),
            None => assert!(code == 0 || code > 6),
        }
        match Adverb::from_code(code) {
            Some(a) => assert_eq!(a.code(), code),
            None => assert!(code == 0 || code > 4),
        }
    }
    assert_eq!(Op::from_code(3), Some(Op::Multiply));
    assert_eq!(Adverb::Table.code(), 4);
}

// ---- laws on concrete values ----

#[test]
fn ledger_first_declaration_wins() {
    let mut ledger = ConsistencyLedger::new();
    ledger.check(Op::Add, &[METER], &[METER]);
    ledger.check(Op::Add, &[METER], &[SECOND]);
    let v = ledger.check(Op::Add, &[METER], &[SECOND]);
    match v {
        LedgerVerdict::Contradiction(sig) => {
            assert_eq!(sig.op, Op::Add);
            assert_eq!(sig.inputs, vec![METER]);
            assert_eq!(sig.outputs, vec![METER]);
        }
        _ => panic!("the first declaration must stay recorded"),
    }
    assert!(matches!(ledger.check(Op::Add, &[METER], &[METER]), LedgerVerdict::Consistent));
}

#[test]
fn ledger_input_order_matters() {
    let mut ledger = ConsistencyLedger::new();
    ledger.check(Op::Multiply, &[METER, SECOND], &[0x1010]);
    let v = ledger.check(Op::Multiply, &[SECOND, METER], &[0x2020]);
    assert!(matches!(v, LedgerVerdict::Novel));
}

#[test]
fn registry_define_then_get_and_fresh_ids() {
    let mut r: TypeRegistry<f64> = TypeRegistry::new();
    r.define_explicit("LOW", 7).unwrap();
    let a = r.define("A").unwrap();
    assert_eq!(a, 0x1000);
    assert_eq!(r.get("A").unwrap(), a);
    assert_eq!(r.get("LOW").unwrap(), 7);
    let b = r.define("B").unwrap();
    assert_eq!(b, a + 1);
    assert!(matches!(r.define_explicit("A", 99), Err(NexusError::TypeAlreadyExists(ref n)) if n == "A"));
    assert!(matches!(r.get("NOPE"), Err(NexusError::TypeNotFound(ref n)) if n == "NOPE"));
}

#[test]
fn registry_bridge_replaces() {
    let mut r: TypeRegistry<f64> = TypeRegistry::default();
    assert_eq!(r.get_bridge(1, 2), None);
    r.bridge(1, 2, Op::Multiply, 3.0);
    r.bridge(1, 2, Op::Divide, 4.0);
    assert_eq!(r.get_bridge(1, 2), Some((Op::Divide, 4.0)));
    assert_eq!(r.get_bridge(2, 1), None);
}

#[test]
fn push_pop_restores_stack() {
    let mut ctx = NexusContext::new(9);
    ctx.push_scalar(1.0, METER);
    ctx.push_tensor(vec![1.0, 2.0], vec![2], SECOND);
    let t = ctx.pop().unwrap();
    assert_eq!(t.data, vec![1.0, 2.0]);
    assert_eq!(t.shape, vec![2]);
    assert_eq!(ctx.stack_depth(), 1);
    assert_eq!(ctx.agent_id, 9);
}

#[test]
fn define_explicit_refuses_identifier_in_use() {
    let mut r: TypeRegistry<f64> = TypeRegistry::new();
    assert!(matches!(r.define_explicit("LENGTH", METER), Err(NexusError::TypeAlreadyExists(ref n)) if n == "LENGTH"));
    assert!(matches!(r.get("LENGTH"), Err(NexusError::TypeNotFound(_))));
    r.define_explicit("PESOS", 0x2000).unwrap();
    assert!(r.define_explicit("DOLLARS", 0x2000).is_err());
    assert!(r.get("DOLLARS").is_err());
    assert_eq!(r.define("NEXT").unwrap(), 0x2001);
}

#[test]
fn define_hands_out_fresh_user_ids() {
    let mut r: TypeRegistry<f64> = TypeRegistry::new();
    r.define_explicit("HIGH", 0x5000).unwrap();
    let id = r.define("AFTER").unwrap();
    assert_eq!(id, 0x5001);
    assert!(id >= 0x1000);
}

#[test]
fn failed_bridge_arithmetic_keeps_top() {
    let mut ctx = NexusContext::new(1);
    ctx.registry_mut().bridge(METER, SECOND, Op::Divide, 0.0);
    ctx.push_tensor(vec![1.0, 2.0], vec![2], METER);
    let r = ctx.convert_to(SECOND, exec);
    assert!(matches!(r, Err(NexusError::ExecutionError(ref m)) if m == "Division by zero"));
    assert_eq!(ctx.stack_depth(), 1);
    let top = ctx.pop().unwrap();
    assert_eq!(top.data, vec![1.0, 2.0]);
    assert_eq!(top.ontic_type, METER);
}

#[test]
fn reduce_without_outputs_reports_failed_fold() {
    let mut ctx = NexusContext::new(1);
    ctx.push_tensor(vec![1.0, 0.0], vec![2], METER);
    let r = ctx.apply_adverb(Adverb::Reduce, Op::Divide, &[METER], &[], exec);
    assert!(matches!(r, Err(NexusError::ExecutionError(ref m)) if m == "Division by zero"));
}

// ---- scan and table ----

#[test]
fn scan_subtract_keeps_left_fold_order() {
    let mut ctx = NexusContext::new(1);
    ctx.push_tensor(vec![10.0, 3.0, 2.0, 1.0], vec![2, 2], METER);
    let v = ctx.apply_adverb(Adverb::Scan, Op::Subtract, &[METER], &[SECOND], exec).unwrap();
    assert!(matches!(v, LedgerVerdict::Novel));
    let res = ctx.pop().unwrap();
    assert_eq!(res.data, vec![10.0, 7.0, 5.0, 4.0]);
    assert_eq!(res.shape, vec![2, 2]);
    assert_eq!(res.ontic_type, SECOND);
}

#[test]
fn scan_of_empty_data_is_empty() {
    let mut ctx = NexusContext::new(1);
    ctx.push_tensor(vec![], vec![0], METER);
    ctx.apply_adverb(Adverb::Scan, Op::Add, &[METER], &[METER], exec).unwrap();
    let res = ctx.pop().unwrap();
    assert!(res.data.is_empty());
    assert_eq!(res.shape, vec![0]);
}

#[test]
fn scan_errors() {
    let mut ctx = NexusContext::new(1);
    let r = ctx.apply_adverb(Adverb::Scan, Op::Add, &[METER], &[METER], exec);
    assert!(matches!(r, Err(NexusError::StackUnderflow)));
    ctx.push_tensor(vec![1.0], vec![1], METER);
    let r = ctx.apply_adverb(Adverb::Scan, Op::Add, &[METER, METER], &[METER], exec);
    assert!(matches!(r, Err(NexusError::ExecutionError(ref m)) if m == "Scan takes one input type and one output type"));
    assert_eq!(ctx.stack_depth(), 1);
    let r = ctx.apply_adverb(Adverb::Scan, Op::Add, &[SECOND], &[SECOND], exec);
    assert!(matches!(r, Err(NexusError::ExecutionError(ref m)) if m == "Type mismatch. Expected 4, found 2"));
    assert_eq!(ctx.stack_depth(), 0);
    ctx.push_tensor(vec![1.0, 0.0], vec![2], METER);
    let r = ctx.apply_adverb(Adverb::Scan, Op::Divide, &[METER], &[METER], exec);
    assert!(matches!(r, Err(NexusError::ExecutionError(ref m)) if m == "Division by zero"));
    assert_eq!(ctx.stack_depth(), 0);
}

#[test]
fn table_subtract_keeps_operand_order() {
    let mut ctx = NexusContext::new(1);
    ctx.push_tensor(vec![10.0, 20.0, 30.0], vec![3], METER);
    ctx.push_tensor(vec![1.0, 2.0], vec![2], SECOND);
    ctx.apply_adverb(Adverb::Table, Op::Subtract, &[METER, SECOND], &[METER], exec).unwrap();
    let res = ctx.pop().unwrap();
    assert_eq!(res.data, vec![9.0, 8.0, 19.0, 18.0, 29.0, 28.0]);
    assert_eq!(res.shape, vec![3, 2]);
    assert_eq!(res.ontic_type, METER);
}

#[test]
fn table_errors() {
    let mut ctx = NexusContext::new(1);
    ctx.push_tensor(vec![1.0], vec![1], METER);
    let r = ctx.apply_adverb(Adverb::Table, Op::Add, &[METER, METER], &[METER], exec);
    assert!(matches!(r, Err(NexusError::StackUnderflow)));
    let r = ctx.apply_adverb(Adverb::Table, Op::Add, &[METER], &[METER], exec);
    assert!(matches!(r, Err(NexusError::ExecutionError(ref m)) if m == "Table takes two input types and one output type"));
    assert_eq!(ctx.stack_depth(), 1);
    ctx.push_tensor(vec![2.0], vec![1], SECOND);
    let r = ctx.apply_adverb(Adverb::Table, Op::Add, &[METER, METER], &[METER], exec);
    assert!(matches!(r, Err(NexusError::ExecutionError(ref m)) if m == "Type mismatch. Expected 2, found 4"));
    assert_eq!(ctx.stack_depth(), 1);
    ctx.push_tensor(vec![0.0, 1.0], vec![2], METER);
    let r = ctx.apply_adverb(Adverb::Table, Op::Divide, &[METER, METER], &[METER], exec);
    assert!(matches!(r, Err(NexusError::ExecutionError(ref m)) if m == "Division by zero"));
    assert_eq!(ctx.stack_depth(), 0);
}

#[test]
fn table_with_empty_side_is_empty() {
    let mut ctx = NexusContext::new(1);
    ctx.push_tensor(vec![1.0, 2.0], vec![2], METER);
    ctx.push_tensor(vec![], vec![0], METER);
    ctx.apply_adverb(Adverb::Table, Op::Divide, &[METER, METER], &[METER], exec).unwrap();
    let res = ctx.pop().unwrap();
    assert!(res.data.is_empty());
    assert_eq!(res.shape, vec![2, 0]);
}

#[test]
fn rollback_past_later_savepoints() {
    let mut ctx = NexusContext::new(1);
    ctx.push_scalar(1.0, METER);
    let sp = ctx.savepoint();
    ctx.push_scalar(2.0, SECOND);
    let later = ctx.savepoint();
    assert_eq!(later, sp + 1);
    ctx.push_scalar(3.0, SECOND);
    ctx.ledger().check(Op::Add, &[METER], &[METER]);
    ctx.rollback(sp);
    assert_eq!(ctx.stack_depth(), 1);
    assert_eq!(ctx.peek().unwrap().ontic_type, METER);
    assert!(matches!(ctx.ledger().check(Op::Add, &[METER], &[SECOND]), LedgerVerdict::Novel));
    ctx.rollback(later);
    assert_eq!(ctx.stack_depth(), 1);
}
