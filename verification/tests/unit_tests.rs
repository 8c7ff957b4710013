use nexus_core::{Adverb, NexusContext, NexusError, Op, METER, SCALAR};

fn exec(op: Op, a: f64, b: f64) -> Result<f64, NexusError> {
    match op {
        Op::Add => Ok(a + b),
        Op::Subtract => Ok(a - b),
        Op::Multiply => Ok(a * b),
        Op::Divide => {
            if b == 0.0 {
                return Err(NexusError::ExecutionError("Division by zero".to_string()));
            }
            Ok(a / b)
        }
        Op::Max => Ok(a.max(b)),
        Op::Min => Ok(a.min(b)),
    }
}

#[test]
fn test_push_pop() {
    let mut ctx = NexusContext::new(1);
    ctx.push_scalar(42.0, SCALAR);
    let val = ctx.pop().unwrap();
    assert_eq!(val.data, vec![42.0]);
    assert_eq!(val.shape, Vec::<usize>::new());
    assert_eq!(val.ontic_type, SCALAR);
}

#[test]
fn test_tensor_math() {
    let mut ctx = NexusContext::new(1);
    let area = 0x1010;

    ctx.push_tensor(vec![2.0, 3.0, 4.0], vec![3], METER);
    ctx.push_tensor(vec![5.0, 5.0, 5.0], vec![3], METER);

    ctx.apply(Op::Multiply, &[METER, METER], &[area], exec).unwrap();

    let res = ctx.pop().unwrap();
    assert_eq!(res.data, vec![10.0, 15.0, 20.0]);
    assert_eq!(res.shape, vec![3]);
    assert_eq!(res.ontic_type, area);
}

#[test]
fn test_scalar_broadcast() {
    let mut ctx = NexusContext::new(1);
    let double_meters = 0x1020;

    ctx.push_tensor(vec![1.0, 2.0, 3.0], vec![3], METER);
    ctx.push_scalar(2.0, SCALAR);

    ctx.apply(Op::Multiply, &[METER, SCALAR], &[double_meters], exec).unwrap();

    let res = ctx.pop().unwrap();
    assert_eq!(res.data, vec![2.0, 4.0, 6.0]);
    assert_eq!(res.ontic_type, double_meters);
}

#[test]
fn test_adverb_reduce() {
    let mut ctx = NexusContext::new(1);
    let total = 0x1030;

    ctx.push_tensor(vec![1.0, 2.0, 3.0, 4.0], vec![4], METER);
    ctx.apply_adverb(Adverb::Reduce, Op::Add, &[METER], &[total], exec).unwrap();

    let res = ctx.pop().unwrap();
    assert_eq!(res.data, vec![10.0]);
    assert_eq!(res.shape, Vec::<usize>::new());
    assert_eq!(res.ontic_type, total);
}
