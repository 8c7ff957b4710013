//! The element-wise work of the verbs and adverbs. The arithmetic on single
//! elements is supplied by the caller as a function `exec(op, a, b)`; this
//! module decides which elements meet and in what order.
use vstd::prelude::*;
use crate::types::{Op, NexusError, TensorModel, TypedTensor};

verus! {

/// `exec` accepts every verb and every pair of elements.
pub open spec fn total<T, F: Fn(Op, T, T) -> Result<T, NexusError>>(exec: F) -> bool {
    forall|op: Op, a: T, b: T| call_requires(exec, (op, a, b))
}

/// `out` holds, in order, results that `exec` may give on each pair.
pub open spec fn results_of<T, F: Fn(Op, T, T) -> Result<T, NexusError>>(
    exec: F,
    op: Op,
    pairs: Seq<(T, T)>,
    out: Seq<T>,
) -> bool {
    &&& out.len() == pairs.len()
    &&& forall|i: int| 0 <= i < pairs.len() ==> call_ensures(exec, (op, pairs[i].0, pairs[i].1), Ok::<T, NexusError>(#[trigger] out[i]))
}

/// `exec` may succeed on the pair `(a, b)`.
pub open spec fn succeeds<T, F: Fn(Op, T, T) -> Result<T, NexusError>>(exec: F, op: Op, a: T, b: T) -> bool {
    exists|r: T| call_ensures(exec, (op, a, b), Ok::<T, NexusError>(r))
}

/// `e` is the error that `exec` may give on some pair, every earlier pair
/// having been computed.
pub open spec fn first_failure<T, F: Fn(Op, T, T) -> Result<T, NexusError>>(
    exec: F,
    op: Op,
    pairs: Seq<(T, T)>,
    e: NexusError,
) -> bool {
    exists|k: int|
        0 <= k < pairs.len() && #[trigger] call_ensures(exec, (op, pairs[k].0, pairs[k].1), Err::<T, NexusError>(e))
            && forall|i: int| 0 <= i < k ==> #[trigger] succeeds(exec, op, pairs[i].0, pairs[i].1)
}

/// Two tensors can meet element-wise: one is a scalar or the shapes agree.
pub open spec fn broadcastable<T>(a: TensorModel<T>, b: TensorModel<T>) -> bool {
    a.scalar_shape() || b.scalar_shape() || a.shape == b.shape
}

/// The shape of the element-wise result of `a` and `b`.
pub open spec fn dyadic_shape<T>(a: TensorModel<T>, b: TensorModel<T>) -> Seq<usize> {
    if a.scalar_shape() && b.scalar_shape() {
        Seq::empty()
    } else if a.scalar_shape() {
        b.shape
    } else {
        a.shape
    }
}

/// The number of element pairs in the element-wise result of `a` and `b`.
pub open spec fn dyadic_len<T>(a: TensorModel<T>, b: TensorModel<T>) -> int {
    if a.scalar_shape() && b.scalar_shape() {
        1
    } else if a.scalar_shape() {
        b.data.len() as int
    } else if b.scalar_shape() {
        a.data.len() as int
    } else if a.data.len() <= b.data.len() {
        a.data.len() as int
    } else {
        b.data.len() as int
    }
}

/// The pair of elements at position `i` of the element-wise result: a scalar
/// is repeated against every element of the other side; two tensors meet
/// position by position. `d` is the default value.
pub open spec fn dyadic_pair<T>(a: TensorModel<T>, b: TensorModel<T>, d: T, i: int) -> (T, T) {
    if a.scalar_shape() && b.scalar_shape() {
        (a.scalar_elem(d), b.scalar_elem(d))
    } else if a.scalar_shape() {
        (a.scalar_elem(d), b.data[i])
    } else if b.scalar_shape() {
        (a.data[i], b.scalar_elem(d))
    } else {
        (a.data[i], b.data[i])
    }
}

/// All the element pairs of the element-wise result, in order.
pub open spec fn dyadic_pairs<T>(a: TensorModel<T>, b: TensorModel<T>, d: T) -> Seq<(T, T)> {
    Seq::new(dyadic_len(a, b) as nat, |i: int| dyadic_pair(a, b, d, i))
}

/// The pairs `(v, factor)` for each element `v`.
pub open spec fn with_factor<T>(data: Seq<T>, factor: T) -> Seq<(T, T)> {
    Seq::new(data.len(), |i: int| (data[i], factor))
}

/// Applies `exec` to the pairs, stopping at the first error.
fn run_pairs<T: Copy, F: Fn(Op, T, T) -> Result<T, NexusError>>(
    op: Op,
    a: &TypedTensor<T>,
    b: &TypedTensor<T>,
    d: T,
    exec: &F,
) -> (r: Result<Vec<T>, NexusError>)
    requires
        total(*exec),
        broadcastable(a@, b@),
    ensures
        r matches Ok(out) ==> results_of(*exec, op, dyadic_pairs(a@, b@, d), out@),
        r matches Err(e) ==> first_failure(*exec, op, dyadic_pairs(a@, b@, d), e),
{
    let sa = a.is_scalar();
    let sb = b.is_scalar();
    let xa = if a.data.len() > 0 { a.data[0] } else { d };
    let xb = if b.data.len() > 0 { b.data[0] } else { d };
    let n: usize = if sa && sb {
        1
    } else if sa {
        b.data.len()
    } else if sb {
        a.data.len()
    } else if a.data.len() <= b.data.len() {
        a.data.len()
    } else {
        b.data.len()
    };
    let ghost pairs = dyadic_pairs(a@, b@, d);
    assert(n == pairs.len());
    let mut out: Vec<T> = Vec::with_capacity(n);
    let mut i: usize = 0;
    while i < n
        invariant
            n == pairs.len(),
            pairs == dyadic_pairs(a@, b@, d),
            sa == a@.scalar_shape(),
            sb == b@.scalar_shape(),
            xa == a@.scalar_elem(d),
            xb == b@.scalar_elem(d),
            total(*exec),
            i <= n,
            out@.len() == i,
            forall|j: int| 0 <= j < i ==> call_ensures(*exec, (op, pairs[j].0, pairs[j].1), Ok::<T, NexusError>(#[trigger] out@[j])),
        decreases n - i,
    {
        let (x, y) = if sa && sb {
            (xa, xb)
        } else if sa {
            (xa, b.data[i])
        } else if sb {
            (a.data[i], xb)
        } else {
            (a.data[i], b.data[i])
        };
        assert((x, y) == pairs[i as int]);
        match exec(op, x, y) {
            Ok(v) => {
                out.push(v);
            },
            Err(e) => {
                proof {
                    assert forall|j: int| 0 <= j < i implies #[trigger] succeeds(*exec, op, pairs[j].0, pairs[j].1) by {
                        assert(call_ensures(*exec, (op, pairs[j].0, pairs[j].1), Ok::<T, NexusError>(out@[j])));
                    }
                    assert(call_ensures(*exec, (op, pairs[i as int].0, pairs[i as int].1), Err::<T, NexusError>(e)));
                }
                return Err(e);
            },
        }
        i = i + 1;
    }
    Ok(out)
}

/// Applies `exec` element-wise to `a` and `b`, with broadcasting of scalars.
/// Returns the result's data and shape, or the shapes when they cannot meet.
pub fn dyadic<T: Copy, F: Fn(Op, T, T) -> Result<T, NexusError>>(
    op: Op,
    a: &TypedTensor<T>,
    b: &TypedTensor<T>,
    d: T,
    exec: &F,
) -> (r: Result<(Vec<T>, Vec<usize>), NexusError>)
    requires
        total(*exec),
    ensures
        !broadcastable(a@, b@) ==> (r matches Err(NexusError::ShapeMismatch(s1, s2)) && s1@ == a@.shape && s2@ == b@.shape),
        r matches Ok((data, shape)) ==> broadcastable(a@, b@) && shape@ == dyadic_shape(a@, b@)
            && results_of(*exec, op, dyadic_pairs(a@, b@, d), data@),
        broadcastable(a@, b@) ==> (r matches Err(e) ==> first_failure(*exec, op, dyadic_pairs(a@, b@, d), e)),
{
    let sa = a.is_scalar();
    let sb = b.is_scalar();
    if !sa && !sb && !crate::seqs::same_usizes(a.shape.as_slice(), b.shape.as_slice()) {
        return Err(NexusError::ShapeMismatch(
            crate::seqs::copy_slice(a.shape.as_slice()),
            crate::seqs::copy_slice(b.shape.as_slice()),
        ));
    }
    let shape = if sa && sb {
        Vec::new()
    } else if sa {
        crate::seqs::copy_slice(b.shape.as_slice())
    } else {
        crate::seqs::copy_slice(a.shape.as_slice())
    };
    match run_pairs(op, a, b, d, exec) {
        Ok(data) => Ok((data, shape)),
        Err(e) => Err(e),
    }
}

/// Applies `exec(op, v, factor)` to every element `v`, stopping at the first
/// error.
pub fn map_with_factor<T: Copy, F: Fn(Op, T, T) -> Result<T, NexusError>>(
    op: Op,
    data: &[T],
    factor: T,
    exec: &F,
) -> (r: Result<Vec<T>, NexusError>)
    requires
        total(*exec),
    ensures
        r matches Ok(out) ==> results_of(*exec, op, with_factor(data@, factor), out@),
        r matches Err(e) ==> first_failure(*exec, op, with_factor(data@, factor), e),
{
    let ghost pairs = with_factor(data@, factor);
    let mut out: Vec<T> = Vec::with_capacity(data.len());
    let mut i: usize = 0;
    while i < data.len()
        invariant
            pairs == with_factor(data@, factor),
            total(*exec),
            i <= data@.len(),
            out@.len() == i,
            forall|j: int| 0 <= j < i ==> call_ensures(*exec, (op, pairs[j].0, pairs[j].1), Ok::<T, NexusError>(#[trigger] out@[j])),
        decreases data@.len() - i,
    {
        match exec(op, data[i], factor) {
            Ok(v) => {
                out.push(v);
            },
            Err(e) => {
                proof {
                    assert forall|j: int| 0 <= j < i implies #[trigger] succeeds(*exec, op, pairs[j].0, pairs[j].1) by {
                        assert(call_ensures(*exec, (op, pairs[j].0, pairs[j].1), Ok::<T, NexusError>(out@[j])));
                    }
                    assert(call_ensures(*exec, (op, pairs[i as int].0, pairs[i as int].1), Err::<T, NexusError>(e)));
                }
                return Err(e);
            },
        }
        i = i + 1;
    }
    Ok(out)
}

/// `accs` is a run of the left fold of `data` under `exec`: it starts with
/// the first element, and each next accumulator is a result of `exec` on the
/// previous one and the next element.
pub open spec fn fold_run<T, F: Fn(Op, T, T) -> Result<T, NexusError>>(
    exec: F,
    op: Op,
    data: Seq<T>,
    accs: Seq<T>,
) -> bool {
    &&& 0 < accs.len() <= data.len()
    &&& accs[0] == data[0]
    &&& forall|i: int| #![trigger accs[i], data[i]] 0 < i < accs.len() ==> call_ensures(exec, (op, accs[i - 1], data[i]), Ok::<T, NexusError>(accs[i]))
}

/// `r` is a value the left fold of `data` under `exec` may produce.
pub open spec fn folds_to<T, F: Fn(Op, T, T) -> Result<T, NexusError>>(exec: F, op: Op, data: Seq<T>, r: T) -> bool {
    exists|accs: Seq<T>| #[trigger] fold_run(exec, op, data, accs) && accs.len() == data.len() && accs.last() == r
}

/// `e` is an error the left fold of `data` under `exec` may stop with.
pub open spec fn fold_fails<T, F: Fn(Op, T, T) -> Result<T, NexusError>>(exec: F, op: Op, data: Seq<T>, e: NexusError) -> bool {
    exists|accs: Seq<T>| #[trigger] fold_run(exec, op, data, accs) && accs.len() < data.len()
        && call_ensures(exec, (op, accs.last(), data[accs.len() as int]), Err::<T, NexusError>(e))
}

/// Folds a non-empty sequence from the left under `exec`.
pub fn fold<T: Copy, F: Fn(Op, T, T) -> Result<T, NexusError>>(op: Op, data: &[T], exec: &F) -> (r: Result<T, NexusError>)
    requires
        total(*exec),
        data@.len() > 0,
    ensures
        r matches Ok(v) ==> folds_to(*exec, op, data@, v),
        r matches Err(e) ==> fold_fails(*exec, op, data@, e),
{
    let mut acc = data[0];
    let ghost mut accs: Seq<T> = seq![data@[0]];
    let mut i: usize = 1;
    while i < data.len()
        invariant
            total(*exec),
            1 <= i <= data@.len(),
            accs.len() == i,
            fold_run(*exec, op, data@, accs),
            accs.last() == acc,
        decreases data@.len() - i,
    {
        match exec(op, acc, data[i]) {
            Ok(v) => {
                proof {
                    let next = accs.push(v);
                    assert forall|j: int| #![trigger next[j], data@[j]] 0 < j < next.len() implies call_ensures(*exec, (op, next[j - 1], data@[j]), Ok::<T, NexusError>(next[j])) by {
                        if j < accs.len() {
                            assert(next[j - 1] == accs[j - 1] && next[j] == accs[j]);
                        }
                    }
                    accs = next;
                }
                acc = v;
            },
            Err(e) => {
                proof {
                    assert(fold_run(*exec, op, data@, accs));
                }
                return Err(e);
            },
        }
        i = i + 1;
    }
    proof {
        assert(fold_run(*exec, op, data@, accs));
    }
    Ok(acc)
}


/// `out` is the running prefix of the left fold of `data` under `exec`:
/// one accumulator per element, empty for empty data.
pub open spec fn scan_run<T, F: Fn(Op, T, T) -> Result<T, NexusError>>(exec: F, op: Op, data: Seq<T>, out: Seq<T>) -> bool {
    &&& out.len() == data.len()
    &&& (data.len() == 0 || fold_run(exec, op, data, out))
}

/// The running prefix of the left fold of `data` under `exec`.
pub fn scan<T: Copy, F: Fn(Op, T, T) -> Result<T, NexusError>>(op: Op, data: &[T], exec: &F) -> (r: Result<Vec<T>, NexusError>)
    requires
        total(*exec),
    ensures
        r matches Ok(out) ==> scan_run(*exec, op, data@, out@),
        r matches Err(e) ==> data@.len() > 0 && fold_fails(*exec, op, data@, e),
{
    let mut out: Vec<T> = Vec::with_capacity(data.len());
    if data.len() == 0 {
        return Ok(out);
    }
    out.push(data[0]);
    let mut i: usize = 1;
    while i < data.len()
        invariant
            total(*exec),
            1 <= i <= data@.len(),
            out@.len() == i,
            fold_run(*exec, op, data@, out@),
        decreases data@.len() - i,
    {
        match exec(op, out[i - 1], data[i]) {
            Ok(v) => {
                let ghost before = out@;
                out.push(v);
                proof {
                    assert forall|j: int| #![trigger out@[j], data@[j]] 0 < j < out@.len() implies call_ensures(*exec, (op, out@[j - 1], data@[j]), Ok::<T, NexusError>(out@[j])) by {
                        if j < before.len() {
                            assert(out@[j - 1] == before[j - 1] && out@[j] == before[j]);
                        }
                    }
                }
            },
            Err(e) => {
                return Err(e);
            },
        }
        i = i + 1;
    }
    Ok(out)
}

/// The element pairs of the outer product of `a` and `b`, row by row: each
/// element of `a`, in order, meets every element of `b`, in order.
pub open spec fn table_pairs<T>(a: Seq<T>, b: Seq<T>) -> Seq<(T, T)>
    decreases a.len(),
{
    if a.len() == 0 {
        Seq::empty()
    } else {
        table_pairs(a.drop_last(), b) + b.map_values(|y: T| (a.last(), y))
    }
}

/// The element pairs of the outer product of `a` and `b`.
pub fn make_table_pairs<T: Copy>(a: &[T], b: &[T]) -> (r: Vec<(T, T)>)
    ensures
        r@ == table_pairs(a@, b@),
{
    let mut r: Vec<(T, T)> = Vec::new();
    let mut i: usize = 0;
    proof {
        assert(a@.take(0) =~= Seq::<T>::empty());
        assert(r@ =~= table_pairs(a@.take(0), b@));
    }
    while i < a.len()
        invariant
            i <= a@.len(),
            r@ == table_pairs(a@.take(i as int), b@),
        decreases a@.len() - i,
    {
        let x = a[i];
        let ghost start = r@;
        let mut j: usize = 0;
        while j < b.len()
            invariant
                i < a@.len(),
                x == a@[i as int],
                j <= b@.len(),
                r@ == start + b@.take(j as int).map_values(|y: T| (x, y)),
            decreases b@.len() - j,
        {
            r.push((x, b[j]));
            j = j + 1;
            proof {
                assert(b@.take(j as int).map_values(|y: T| (x, y)) =~= b@.take(j - 1).map_values(|y: T| (x, y)).push((x, b@[j - 1])));
                assert(r@ =~= start + b@.take(j as int).map_values(|y: T| (x, y)));
            }
        }
        proof {
            let t = a@.take(i + 1);
            assert(t.drop_last() =~= a@.take(i as int));
            assert(t.last() == x);
            assert(b@.take(j as int) =~= b@);
            assert(r@ =~= table_pairs(t, b@));
        }
        i = i + 1;
    }
    proof {
        assert(a@.take(i as int) =~= a@);
    }
    r
}

/// Applies `exec` to each pair in order, stopping at the first error.
pub fn run_list<T: Copy, F: Fn(Op, T, T) -> Result<T, NexusError>>(op: Op, pairs: &Vec<(T, T)>, exec: &F) -> (r: Result<Vec<T>, NexusError>)
    requires
        total(*exec),
    ensures
        r matches Ok(out) ==> results_of(*exec, op, pairs@, out@),
        r matches Err(e) ==> first_failure(*exec, op, pairs@, e),
{
    let mut out: Vec<T> = Vec::with_capacity(pairs.len());
    let mut i: usize = 0;
    while i < pairs.len()
        invariant
            total(*exec),
            i <= pairs@.len(),
            out@.len() == i,
            forall|j: int| 0 <= j < i ==> call_ensures(*exec, (op, pairs@[j].0, pairs@[j].1), Ok::<T, NexusError>(#[trigger] out@[j])),
        decreases pairs@.len() - i,
    {
        let (x, y) = pairs[i];
        match exec(op, x, y) {
            Ok(v) => {
                out.push(v);
            },
            Err(e) => {
                proof {
                    assert forall|j: int| 0 <= j < i implies #[trigger] succeeds(*exec, op, pairs@[j].0, pairs@[j].1) by {
                        assert(call_ensures(*exec, (op, pairs@[j].0, pairs@[j].1), Ok::<T, NexusError>(out@[j])));
                    }
                    assert(call_ensures(*exec, (op, pairs@[i as int].0, pairs@[i as int].1), Err::<T, NexusError>(e)));
                }
                return Err(e);
            },
        }
        i = i + 1;
    }
    Ok(out)
}


/// With an empty side there is no pair.
pub proof fn lemma_table_pairs_empty<T>(a: Seq<T>, b: Seq<T>)
    requires
        a.len() == 0 || b.len() == 0,
    ensures
        table_pairs(a, b).len() == 0,
    decreases a.len(),
{
    if a.len() > 0 {
        lemma_table_pairs_empty(a.drop_last(), b);
    }
}


/// Which operands meet in an element-wise verb: the lower item is always
/// the left operand and the top item the right one. A scalar (shape `[]` or
/// `[1]`, standing for its first element, or `d` when it has none) meets
/// every element of the other side; two tensors meet position by position.
/// Each result is a result of `exec` on the verb and those two operands.
pub proof fn law_dyadic_operands<T, F: Fn(Op, T, T) -> Result<T, NexusError>>(
    exec: F,
    op: Op,
    a: TensorModel<T>,
    b: TensorModel<T>,
    d: T,
    out: Seq<T>,
)
    requires
        results_of(exec, op, dyadic_pairs(a, b, d), out),
    ensures
        ({
            let sa = a.shape.len() == 0 || (a.shape.len() == 1 && a.shape[0] == 1);
            let sb = b.shape.len() == 0 || (b.shape.len() == 1 && b.shape[0] == 1);
            let va = if a.data.len() > 0 { a.data[0] } else { d };
            let vb = if b.data.len() > 0 { b.data[0] } else { d };
            &&& sa && sb ==> out.len() == 1 && call_ensures(exec, (op, va, vb), Ok::<T, NexusError>(out[0]))
            &&& sa && !sb ==> out.len() == b.data.len() && forall|i: int| #![trigger out[i]] 0 <= i < b.data.len()
                ==> call_ensures(exec, (op, va, b.data[i]), Ok::<T, NexusError>(out[i]))
            &&& !sa && sb ==> out.len() == a.data.len() && forall|i: int| #![trigger out[i]] 0 <= i < a.data.len()
                ==> call_ensures(exec, (op, a.data[i], vb), Ok::<T, NexusError>(out[i]))
            &&& !sa && !sb ==> out.len() == (if a.data.len() <= b.data.len() { a.data.len() } else { b.data.len() })
                && forall|i: int| #![trigger out[i]] 0 <= i < out.len() ==> call_ensures(
                exec,
                (op, a.data[i], b.data[i]),
                Ok::<T, NexusError>(out[i]),
            )
        }),
{
    let p = dyadic_pairs(a, b, d);
    assert forall|i: int| 0 <= i < p.len() implies call_ensures(exec, (op, p[i].0, p[i].1), Ok::<T, NexusError>(#[trigger] out[i])) by {}
}

/// A bridge applies its verb to each element, in order, with the element
/// as the left operand and the factor as the right one.
pub proof fn law_factor_operands<T, F: Fn(Op, T, T) -> Result<T, NexusError>>(
    exec: F,
    op: Op,
    data: Seq<T>,
    factor: T,
    out: Seq<T>,
)
    requires
        results_of(exec, op, with_factor(data, factor), out),
    ensures
        out.len() == data.len(),
        forall|i: int| #![trigger out[i]] 0 <= i < data.len() ==> call_ensures(exec, (op, data[i], factor), Ok::<T, NexusError>(out[i])),
{
    let p = with_factor(data, factor);
    assert forall|i: int| 0 <= i < p.len() implies call_ensures(exec, (op, p[i].0, p[i].1), Ok::<T, NexusError>(#[trigger] out[i])) by {}
}

/// The left fold of a single element is that element.
pub proof fn law_fold_single<T, F: Fn(Op, T, T) -> Result<T, NexusError>>(exec: F, op: Op, x: T, r: T)
    ensures
        folds_to(exec, op, seq![x], r) <==> r == x,
{
    if r == x {
        assert(fold_run(exec, op, seq![x], seq![x]));
    }
}

/// The left fold of `data` followed by `x` is a result of `exec` on the
/// verb that was passed, the fold of `data` (left) and `x` (right).
pub proof fn law_fold_step<T, F: Fn(Op, T, T) -> Result<T, NexusError>>(exec: F, op: Op, data: Seq<T>, x: T, r: T)
    requires
        data.len() > 0,
    ensures
        folds_to(exec, op, data.push(x), r) <==> exists|r0: T| #[trigger] folds_to(exec, op, data, r0) && call_ensures(
            exec,
            (op, r0, x),
            Ok::<T, NexusError>(r),
        ),
{
    let d2 = data.push(x);
    if folds_to(exec, op, d2, r) {
        let accs = choose|accs: Seq<T>| #[trigger] fold_run(exec, op, d2, accs) && accs.len() == d2.len() && accs.last() == r;
        let a0 = accs.drop_last();
        assert forall|i: int| #![trigger a0[i], data[i]] 0 < i < a0.len() implies call_ensures(exec, (op, a0[i - 1], data[i]), Ok::<T, NexusError>(a0[i])) by {
            assert(accs[i] == a0[i] && d2[i] == data[i] && accs[i - 1] == a0[i - 1]);
        }
        assert(a0[0] == data[0]) by {
            assert(accs[0] == d2[0]);
        }
        assert(fold_run(exec, op, data, a0));
        let k = accs.len() - 1;
        assert(accs[k] == r && d2[k] == x);
        assert(call_ensures(exec, (op, accs[k - 1], d2[k]), Ok::<T, NexusError>(accs[k])));
        assert(folds_to(exec, op, data, a0.last()));
    }
    if exists|r0: T| #[trigger] folds_to(exec, op, data, r0) && call_ensures(exec, (op, r0, x), Ok::<T, NexusError>(r)) {
        let r0 = choose|r0: T| #[trigger] folds_to(exec, op, data, r0) && call_ensures(exec, (op, r0, x), Ok::<T, NexusError>(r));
        let a0 = choose|accs: Seq<T>| #[trigger] fold_run(exec, op, data, accs) && accs.len() == data.len() && accs.last() == r0;
        let accs = a0.push(r);
        assert forall|i: int| #![trigger accs[i], d2[i]] 0 < i < accs.len() implies call_ensures(exec, (op, accs[i - 1], d2[i]), Ok::<T, NexusError>(accs[i])) by {
            if i < a0.len() {
                assert(accs[i] == a0[i] && d2[i] == data[i] && accs[i - 1] == a0[i - 1]);
            } else {
                assert(accs[i - 1] == r0 && d2[i] == x);
            }
        }
        assert(accs[0] == d2[0]);
        assert(fold_run(exec, op, d2, accs));
        assert(accs.last() == r);
    }
}

/// Each element of a scan is a result of the left fold of the elements up
/// to it: the first is the first element, and each next one is a result of
/// `exec` on the verb that was passed, the one before (left) and the
/// element (right).
pub proof fn law_scan_steps<T, F: Fn(Op, T, T) -> Result<T, NexusError>>(exec: F, op: Op, data: Seq<T>, out: Seq<T>)
    requires
        scan_run(exec, op, data, out),
    ensures
        out.len() == data.len(),
        data.len() > 0 ==> out[0] == data[0],
        forall|i: int| #![trigger out[i]] 0 < i < data.len() ==> call_ensures(exec, (op, out[i - 1], data[i]), Ok::<T, NexusError>(out[i])),
{
    assert forall|i: int| #![trigger out[i]] 0 < i < data.len() implies call_ensures(exec, (op, out[i - 1], data[i]), Ok::<T, NexusError>(out[i])) by {
        assert(data[i] == data[i]);
    }
}

/// The outer product has one pair per element of `a` times element of `b`,
/// row by row: position `i * |b| + j` holds `(a[i], b[j])`, `a`'s element
/// on the left.
pub proof fn law_table_positions<T>(a: Seq<T>, b: Seq<T>)
    ensures
        table_pairs(a, b).len() == a.len() * b.len(),
        forall|i: int, j: int| 0 <= i < a.len() && 0 <= j < b.len() ==> #[trigger] table_pairs(a, b)[i * b.len() + j] == (
            a[i],
            b[j],
        ),
    decreases a.len(),
{
    if a.len() > 0 {
        let a0 = a.drop_last();
        law_table_positions(a0, b);
        let n = b.len() as int;
        let m = a0.len() as int;
        assert(table_pairs(a, b) == table_pairs(a0, b) + b.map_values(|y: T| (a.last(), y)));
        assert(a.len() * b.len() == m * n + n) by (nonlinear_arith)
            requires
                a.len() == m + 1,
                b.len() == n,
        ;
        assert forall|i: int, j: int| 0 <= i < a.len() && 0 <= j < b.len() implies #[trigger] table_pairs(a, b)[i * b.len() + j] == (
            a[i],
            b[j],
        ) by {
            if i < m {
                assert(i * n + j < m * n) by (nonlinear_arith)
                    requires
                        0 <= i < m,
                        0 <= j < n,
                ;
                assert(0 <= i * n) by (nonlinear_arith)
                    requires
                        0 <= i,
                        0 <= n,
                ;
                assert(a0[i] == a[i]);
                assert(table_pairs(a0, b)[i * b.len() + j] == (a0[i], b[j]));
            } else {
                assert(i * n == m * n);
            }
        }
    }
}


/// The shape of an element-wise result: a scalar (shape `[]` or `[1]`)
/// takes the other side's shape, two scalars give `[]`, and two tensors
/// meet only when their shapes agree, giving that shape.
pub proof fn law_dyadic_shape<T>(a: TensorModel<T>, b: TensorModel<T>)
    ensures
        ({
            let sa = a.shape.len() == 0 || (a.shape.len() == 1 && a.shape[0] == 1);
            let sb = b.shape.len() == 0 || (b.shape.len() == 1 && b.shape[0] == 1);
            &&& sa && sb ==> broadcastable(a, b) && dyadic_shape(a, b) == Seq::<usize>::empty()
            &&& sa && !sb ==> broadcastable(a, b) && dyadic_shape(a, b) == b.shape
            &&& !sa && sb ==> broadcastable(a, b) && dyadic_shape(a, b) == a.shape
            &&& !sa && !sb ==> (broadcastable(a, b) <==> a.shape == b.shape) && (broadcastable(a, b) ==> dyadic_shape(
                a,
                b,
            ) == a.shape && dyadic_shape(a, b) == b.shape)
        }),
{
}

} // verus!
