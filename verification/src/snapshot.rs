//! The text of a saved context: each part of a context written as JSON,
//! and the readers that take such text apart again.
use vstd::prelude::*;
use crate::text::{decimal, push_decimal};
use crate::types::{Op, TensorModel, TypedTensor};
use crate::ledger::Signature;
use crate::json::{
    alias_fn, alias_text, bool_text, char_at, chars_opt, goal_text, joined, json_list, lemma_joined_step,
    lemma_occurs_concat, lemma_occurs_first, lemma_occurs_split, lemma_occurs_sub, lit_at, num_fn, num_list_text,
    occurs_at, occurs_then_stop, op_text, parse_list, push_char, quote, read_alias, read_bool, read_goal, read_num,
    read_num_list, read_op, read_str, read_usize, read_usize_list, usize_fn, usize_list_text, views,
};

verus! {

/// A bridge entry: `[from,to,verb,factor]`.
pub open spec fn bridge_text(v: (u64, u64, Op, u64)) -> Seq<char> {
    seq!['[']
        + decimal((v.0) as nat)
        + seq![',']
        + decimal((v.1) as nat)
        + seq![',']
        + op_text(v.2)
        + seq![',']
        + decimal((v.3) as nat)
        + seq![']']
}

/// The text of bridge entries, as a function.
pub open spec fn bridge_fn() -> spec_fn((u64, u64, Op, u64)) -> Seq<char> {
    |v: (u64, u64, Op, u64)| bridge_text(v)
}

/// Where the pieces of a bridge text lie when it appears in `s` at `p`.
#[verifier::rlimit(40)]
proof fn lemma_bridge_layout(s: Seq<char>, p: int, v: (u64, u64, Op, u64))
    requires
        occurs_at(s, p, bridge_text(v)),
    ensures
        occurs_at(s, p + (0), seq!['[']),
        occurs_then_stop(s, p + (1), decimal((v.0) as nat)),
        occurs_at(s, p + (1 + (decimal((v.0) as nat)).len()), seq![',']),
        occurs_then_stop(s, p + (1 + (decimal((v.0) as nat)).len() + 1), decimal((v.1) as nat)),
        occurs_at(s, p + (1 + (decimal((v.0) as nat)).len() + 1 + (decimal((v.1) as nat)).len()), seq![',']),
        occurs_then_stop(s, p + (1 + (decimal((v.0) as nat)).len() + 1 + (decimal((v.1) as nat)).len() + 1), op_text(v.2)),
        occurs_at(s, p + (1 + (decimal((v.0) as nat)).len() + 1 + (decimal((v.1) as nat)).len() + 1 + (op_text(v.2)).len()), seq![',']),
        occurs_then_stop(s, p + (1 + (decimal((v.0) as nat)).len() + 1 + (decimal((v.1) as nat)).len() + 1 + (op_text(v.2)).len() + 1), decimal((v.3) as nat)),
        occurs_at(s, p + (1 + (decimal((v.0) as nat)).len() + 1 + (decimal((v.1) as nat)).len() + 1 + (op_text(v.2)).len() + 1 + (decimal((v.3) as nat)).len()), seq![']']),
{
    lemma_occurs_split(s, p, seq!['['] + decimal((v.0) as nat) + seq![','] + decimal((v.1) as nat) + seq![','] + op_text(v.2) + seq![','] + decimal((v.3) as nat), seq![']']);
    lemma_occurs_split(s, p, seq!['['] + decimal((v.0) as nat) + seq![','] + decimal((v.1) as nat) + seq![','] + op_text(v.2) + seq![','], decimal((v.3) as nat));
    lemma_occurs_split(s, p, seq!['['] + decimal((v.0) as nat) + seq![','] + decimal((v.1) as nat) + seq![','] + op_text(v.2), seq![',']);
    lemma_occurs_split(s, p, seq!['['] + decimal((v.0) as nat) + seq![','] + decimal((v.1) as nat) + seq![','], op_text(v.2));
    lemma_occurs_split(s, p, seq!['['] + decimal((v.0) as nat) + seq![','] + decimal((v.1) as nat), seq![',']);
    lemma_occurs_split(s, p, seq!['['] + decimal((v.0) as nat) + seq![','], decimal((v.1) as nat));
    lemma_occurs_split(s, p, seq!['['] + decimal((v.0) as nat), seq![',']);
    lemma_occurs_split(s, p, seq!['['], decimal((v.0) as nat));
    lemma_occurs_first(s, p + (0), seq!['[']);
    lemma_occurs_first(s, p + (1 + (decimal((v.0) as nat)).len()), seq![',']);
    lemma_occurs_first(s, p + (1 + (decimal((v.0) as nat)).len() + 1 + (decimal((v.1) as nat)).len()), seq![',']);
    lemma_occurs_first(s, p + (1 + (decimal((v.0) as nat)).len() + 1 + (decimal((v.1) as nat)).len() + 1 + (op_text(v.2)).len()), seq![',']);
    lemma_occurs_first(s, p + (1 + (decimal((v.0) as nat)).len() + 1 + (decimal((v.1) as nat)).len() + 1 + (op_text(v.2)).len() + 1 + (decimal((v.3) as nat)).len()), seq![']']);
}

/// Reads a bridge entry: `[from,to,verb,factor]`.
#[verifier::rlimit(40)]
pub fn read_bridge(s: &Vec<char>, p: usize) -> (r: Option<((u64, u64, Op, u64), usize)>)
    requires
        p <= s@.len(),
    ensures
        r matches Some((x, q)) ==> q == p + bridge_text(x@).len() && occurs_at(s@, p as int, bridge_text(x@)),
        forall|v: (u64, u64, Op, u64)| #![trigger bridge_text(v)] occurs_at(s@, p as int, bridge_text(v)) ==> (r matches Some((x, q)) && x@ == v),
{
    proof {
        assert forall|v: (u64, u64, Op, u64)| #[trigger] occurs_at(s@, p as int, bridge_text(v)) implies {
            &&& occurs_at(s@, p + (0), seq!['['])
            &&& occurs_then_stop(s@, p + (1), decimal((v.0) as nat))
            &&& occurs_at(s@, p + (1 + (decimal((v.0) as nat)).len()), seq![','])
            &&& occurs_then_stop(s@, p + (1 + (decimal((v.0) as nat)).len() + 1), decimal((v.1) as nat))
            &&& occurs_at(s@, p + (1 + (decimal((v.0) as nat)).len() + 1 + (decimal((v.1) as nat)).len()), seq![','])
            &&& occurs_then_stop(s@, p + (1 + (decimal((v.0) as nat)).len() + 1 + (decimal((v.1) as nat)).len() + 1), op_text(v.2))
            &&& occurs_at(s@, p + (1 + (decimal((v.0) as nat)).len() + 1 + (decimal((v.1) as nat)).len() + 1 + (op_text(v.2)).len()), seq![','])
            &&& occurs_then_stop(s@, p + (1 + (decimal((v.0) as nat)).len() + 1 + (decimal((v.1) as nat)).len() + 1 + (op_text(v.2)).len() + 1), decimal((v.3) as nat))
            &&& occurs_at(s@, p + (1 + (decimal((v.0) as nat)).len() + 1 + (decimal((v.1) as nat)).len() + 1 + (op_text(v.2)).len() + 1 + (decimal((v.3) as nat)).len()), seq![']'])
        } by {
            lemma_bridge_layout(s@, p as int, v);
        }
    }
    if !char_at(s, p, '[') {
        return None;
    }
    let q1 = p + 1;
    let (x1, q2) = match read_num(s, q1) {
        Some(x) => x,
        None => {
            return None;
        },
    };
    if !char_at(s, q2, ',') {
        return None;
    }
    let q3 = q2 + 1;
    let (x2, q4) = match read_num(s, q3) {
        Some(x) => x,
        None => {
            return None;
        },
    };
    if !char_at(s, q4, ',') {
        return None;
    }
    let q5 = q4 + 1;
    let (x3, q6) = match read_op(s, q5) {
        Some(x) => x,
        None => {
            return None;
        },
    };
    if !char_at(s, q6, ',') {
        return None;
    }
    let q7 = q6 + 1;
    let (x4, q8) = match read_num(s, q7) {
        Some(x) => x,
        None => {
            return None;
        },
    };
    if !char_at(s, q8, ']') {
        return None;
    }
    let q9 = q8 + 1;
    let x: (u64, u64, Op, u64) = (x1, x2, x3, x4);
    proof {
        lemma_occurs_concat(s@, p as int, seq!['['], decimal((x1) as nat));
        lemma_occurs_concat(s@, p as int, seq!['['] + decimal((x1) as nat), seq![',']);
        lemma_occurs_concat(s@, p as int, seq!['['] + decimal((x1) as nat) + seq![','], decimal((x2) as nat));
        lemma_occurs_concat(s@, p as int, seq!['['] + decimal((x1) as nat) + seq![','] + decimal((x2) as nat), seq![',']);
        lemma_occurs_concat(s@, p as int, seq!['['] + decimal((x1) as nat) + seq![','] + decimal((x2) as nat) + seq![','], op_text(x3));
        lemma_occurs_concat(s@, p as int, seq!['['] + decimal((x1) as nat) + seq![','] + decimal((x2) as nat) + seq![','] + op_text(x3), seq![',']);
        lemma_occurs_concat(s@, p as int, seq!['['] + decimal((x1) as nat) + seq![','] + decimal((x2) as nat) + seq![','] + op_text(x3) + seq![','], decimal((x4) as nat));
        lemma_occurs_concat(s@, p as int, seq!['['] + decimal((x1) as nat) + seq![','] + decimal((x2) as nat) + seq![','] + op_text(x3) + seq![','] + decimal((x4) as nat), seq![']']);
        assert(seq!['['] + decimal((x1) as nat) + seq![','] + decimal((x2) as nat) + seq![','] + op_text(x3) + seq![','] + decimal((x4) as nat) + seq![']'] =~= bridge_text(x@));
        assert forall|v: (u64, u64, Op, u64)| #[trigger] occurs_at(s@, p as int, bridge_text(v)) implies x@ == v by {
            assert(occurs_then_stop(s@, p + (1), decimal((v.0) as nat)));
            assert(x1 == v.0);
            assert(occurs_then_stop(s@, p + (1 + (decimal((v.0) as nat)).len() + 1), decimal((v.1) as nat)));
            assert(x2 == v.1);
            assert(occurs_then_stop(s@, p + (1 + (decimal((v.0) as nat)).len() + 1 + (decimal((v.1) as nat)).len() + 1), op_text(v.2)));
            assert(x3 == v.2);
            assert(occurs_then_stop(s@, p + (1 + (decimal((v.0) as nat)).len() + 1 + (decimal((v.1) as nat)).len() + 1 + (op_text(v.2)).len() + 1), decimal((v.3) as nat)));
            assert(x4 == v.3);
        }
    }
    Some((x, q9))
}

/// A ledger entry: `[verb,[inputs],[outputs]]`.
pub open spec fn sig_text(v: (Op, Seq<u64>, Seq<u64>)) -> Seq<char> {
    seq!['[']
        + op_text(v.0)
        + seq![',']
        + num_list_text(v.1)
        + seq![',']
        + num_list_text(v.2)
        + seq![']']
}

/// The text of sig entries, as a function.
pub open spec fn sig_fn() -> spec_fn((Op, Seq<u64>, Seq<u64>)) -> Seq<char> {
    |v: (Op, Seq<u64>, Seq<u64>)| sig_text(v)
}

/// Where the pieces of a sig text lie when it appears in `s` at `p`.
proof fn lemma_sig_layout(s: Seq<char>, p: int, v: (Op, Seq<u64>, Seq<u64>))
    requires
        occurs_at(s, p, sig_text(v)),
    ensures
        occurs_at(s, p + (0), seq!['[']),
        occurs_then_stop(s, p + (1), op_text(v.0)),
        occurs_at(s, p + (1 + (op_text(v.0)).len()), seq![',']),
        occurs_at(s, p + (1 + (op_text(v.0)).len() + 1), num_list_text(v.1)),
        occurs_at(s, p + (1 + (op_text(v.0)).len() + 1 + (num_list_text(v.1)).len()), seq![',']),
        occurs_at(s, p + (1 + (op_text(v.0)).len() + 1 + (num_list_text(v.1)).len() + 1), num_list_text(v.2)),
        occurs_at(s, p + (1 + (op_text(v.0)).len() + 1 + (num_list_text(v.1)).len() + 1 + (num_list_text(v.2)).len()), seq![']']),
{
    lemma_occurs_split(s, p, seq!['['] + op_text(v.0) + seq![','] + num_list_text(v.1) + seq![','] + num_list_text(v.2), seq![']']);
    lemma_occurs_split(s, p, seq!['['] + op_text(v.0) + seq![','] + num_list_text(v.1) + seq![','], num_list_text(v.2));
    lemma_occurs_split(s, p, seq!['['] + op_text(v.0) + seq![','] + num_list_text(v.1), seq![',']);
    lemma_occurs_split(s, p, seq!['['] + op_text(v.0) + seq![','], num_list_text(v.1));
    lemma_occurs_split(s, p, seq!['['] + op_text(v.0), seq![',']);
    lemma_occurs_split(s, p, seq!['['], op_text(v.0));
    lemma_occurs_first(s, p + (0), seq!['[']);
    lemma_occurs_first(s, p + (1 + (op_text(v.0)).len()), seq![',']);
    lemma_occurs_first(s, p + (1 + (op_text(v.0)).len() + 1 + (num_list_text(v.1)).len()), seq![',']);
    lemma_occurs_first(s, p + (1 + (op_text(v.0)).len() + 1 + (num_list_text(v.1)).len() + 1 + (num_list_text(v.2)).len()), seq![']']);
}

/// Reads a ledger entry: `[verb,[inputs],[outputs]]`.
pub fn read_sig(s: &Vec<char>, p: usize) -> (r: Option<(Signature, usize)>)
    requires
        p <= s@.len(),
    ensures
        r matches Some((x, q)) ==> q == p + sig_text(x@).len() && occurs_at(s@, p as int, sig_text(x@)),
        forall|v: (Op, Seq<u64>, Seq<u64>)| #![trigger sig_text(v)] occurs_at(s@, p as int, sig_text(v)) ==> (r matches Some((x, q)) && x@ == v),
{
    proof {
        assert forall|v: (Op, Seq<u64>, Seq<u64>)| #[trigger] occurs_at(s@, p as int, sig_text(v)) implies {
            &&& occurs_at(s@, p + (0), seq!['['])
            &&& occurs_then_stop(s@, p + (1), op_text(v.0))
            &&& occurs_at(s@, p + (1 + (op_text(v.0)).len()), seq![','])
            &&& occurs_at(s@, p + (1 + (op_text(v.0)).len() + 1), num_list_text(v.1))
            &&& occurs_at(s@, p + (1 + (op_text(v.0)).len() + 1 + (num_list_text(v.1)).len()), seq![','])
            &&& occurs_at(s@, p + (1 + (op_text(v.0)).len() + 1 + (num_list_text(v.1)).len() + 1), num_list_text(v.2))
            &&& occurs_at(s@, p + (1 + (op_text(v.0)).len() + 1 + (num_list_text(v.1)).len() + 1 + (num_list_text(v.2)).len()), seq![']'])
        } by {
            lemma_sig_layout(s@, p as int, v);
        }
    }
    if !char_at(s, p, '[') {
        return None;
    }
    let q1 = p + 1;
    let (x1, q2) = match read_op(s, q1) {
        Some(x) => x,
        None => {
            return None;
        },
    };
    if !char_at(s, q2, ',') {
        return None;
    }
    let q3 = q2 + 1;
    let (x2, q4) = match read_num_list(s, q3) {
        Some(x) => x,
        None => {
            return None;
        },
    };
    if !char_at(s, q4, ',') {
        return None;
    }
    let q5 = q4 + 1;
    let (x3, q6) = match read_num_list(s, q5) {
        Some(x) => x,
        None => {
            return None;
        },
    };
    if !char_at(s, q6, ']') {
        return None;
    }
    let q7 = q6 + 1;
    let x: Signature = Signature { op: x1, inputs: x2, outputs: x3 };
    proof {
        lemma_occurs_concat(s@, p as int, seq!['['], op_text(x1));
        lemma_occurs_concat(s@, p as int, seq!['['] + op_text(x1), seq![',']);
        lemma_occurs_concat(s@, p as int, seq!['['] + op_text(x1) + seq![','], num_list_text(x2@));
        lemma_occurs_concat(s@, p as int, seq!['['] + op_text(x1) + seq![','] + num_list_text(x2@), seq![',']);
        lemma_occurs_concat(s@, p as int, seq!['['] + op_text(x1) + seq![','] + num_list_text(x2@) + seq![','], num_list_text(x3@));
        lemma_occurs_concat(s@, p as int, seq!['['] + op_text(x1) + seq![','] + num_list_text(x2@) + seq![','] + num_list_text(x3@), seq![']']);
        assert(seq!['['] + op_text(x1) + seq![','] + num_list_text(x2@) + seq![','] + num_list_text(x3@) + seq![']'] =~= sig_text(x@));
        assert forall|v: (Op, Seq<u64>, Seq<u64>)| #[trigger] occurs_at(s@, p as int, sig_text(v)) implies x@ == v by {
            assert(occurs_then_stop(s@, p + (1), op_text(v.0)));
            assert(x1 == v.0);
            assert(occurs_at(s@, p + (1 + (op_text(v.0)).len() + 1), num_list_text(v.1)));
            assert(x2@ == v.1);
            assert(occurs_at(s@, p + (1 + (op_text(v.0)).len() + 1 + (num_list_text(v.1)).len() + 1), num_list_text(v.2)));
            assert(x3@ == v.2);
        }
    }
    Some((x, q7))
}

/// A tensor: `[type,[shape],[data]]`.
pub open spec fn tensor_text(v: TensorModel<u64>) -> Seq<char> {
    seq!['[']
        + decimal((v.ontic_type) as nat)
        + seq![',']
        + usize_list_text(v.shape)
        + seq![',']
        + num_list_text(v.data)
        + seq![']']
}

/// The text of tensor entries, as a function.
pub open spec fn tensor_fn() -> spec_fn(TensorModel<u64>) -> Seq<char> {
    |v: TensorModel<u64>| tensor_text(v)
}

/// Where the pieces of a tensor text lie when it appears in `s` at `p`.
proof fn lemma_tensor_layout(s: Seq<char>, p: int, v: TensorModel<u64>)
    requires
        occurs_at(s, p, tensor_text(v)),
    ensures
        occurs_at(s, p + (0), seq!['[']),
        occurs_then_stop(s, p + (1), decimal((v.ontic_type) as nat)),
        occurs_at(s, p + (1 + (decimal((v.ontic_type) as nat)).len()), seq![',']),
        occurs_at(s, p + (1 + (decimal((v.ontic_type) as nat)).len() + 1), usize_list_text(v.shape)),
        occurs_at(s, p + (1 + (decimal((v.ontic_type) as nat)).len() + 1 + (usize_list_text(v.shape)).len()), seq![',']),
        occurs_at(s, p + (1 + (decimal((v.ontic_type) as nat)).len() + 1 + (usize_list_text(v.shape)).len() + 1), num_list_text(v.data)),
        occurs_at(s, p + (1 + (decimal((v.ontic_type) as nat)).len() + 1 + (usize_list_text(v.shape)).len() + 1 + (num_list_text(v.data)).len()), seq![']']),
{
    lemma_occurs_split(s, p, seq!['['] + decimal((v.ontic_type) as nat) + seq![','] + usize_list_text(v.shape) + seq![','] + num_list_text(v.data), seq![']']);
    lemma_occurs_split(s, p, seq!['['] + decimal((v.ontic_type) as nat) + seq![','] + usize_list_text(v.shape) + seq![','], num_list_text(v.data));
    lemma_occurs_split(s, p, seq!['['] + decimal((v.ontic_type) as nat) + seq![','] + usize_list_text(v.shape), seq![',']);
    lemma_occurs_split(s, p, seq!['['] + decimal((v.ontic_type) as nat) + seq![','], usize_list_text(v.shape));
    lemma_occurs_split(s, p, seq!['['] + decimal((v.ontic_type) as nat), seq![',']);
    lemma_occurs_split(s, p, seq!['['], decimal((v.ontic_type) as nat));
    lemma_occurs_first(s, p + (0), seq!['[']);
    lemma_occurs_first(s, p + (1 + (decimal((v.ontic_type) as nat)).len()), seq![',']);
    lemma_occurs_first(s, p + (1 + (decimal((v.ontic_type) as nat)).len() + 1 + (usize_list_text(v.shape)).len()), seq![',']);
    lemma_occurs_first(s, p + (1 + (decimal((v.ontic_type) as nat)).len() + 1 + (usize_list_text(v.shape)).len() + 1 + (num_list_text(v.data)).len()), seq![']']);
}

/// Reads a tensor: `[type,[shape],[data]]`.
pub fn read_tensor(s: &Vec<char>, p: usize) -> (r: Option<(TypedTensor<u64>, usize)>)
    requires
        p <= s@.len(),
    ensures
        r matches Some((x, q)) ==> q == p + tensor_text(x@).len() && occurs_at(s@, p as int, tensor_text(x@)),
        forall|v: TensorModel<u64>| #![trigger tensor_text(v)] occurs_at(s@, p as int, tensor_text(v)) ==> (r matches Some((x, q)) && x@ == v),
{
    proof {
        assert forall|v: TensorModel<u64>| #[trigger] occurs_at(s@, p as int, tensor_text(v)) implies {
            &&& occurs_at(s@, p + (0), seq!['['])
            &&& occurs_then_stop(s@, p + (1), decimal((v.ontic_type) as nat))
            &&& occurs_at(s@, p + (1 + (decimal((v.ontic_type) as nat)).len()), seq![','])
            &&& occurs_at(s@, p + (1 + (decimal((v.ontic_type) as nat)).len() + 1), usize_list_text(v.shape))
            &&& occurs_at(s@, p + (1 + (decimal((v.ontic_type) as nat)).len() + 1 + (usize_list_text(v.shape)).len()), seq![','])
            &&& occurs_at(s@, p + (1 + (decimal((v.ontic_type) as nat)).len() + 1 + (usize_list_text(v.shape)).len() + 1), num_list_text(v.data))
            &&& occurs_at(s@, p + (1 + (decimal((v.ontic_type) as nat)).len() + 1 + (usize_list_text(v.shape)).len() + 1 + (num_list_text(v.data)).len()), seq![']'])
        } by {
            lemma_tensor_layout(s@, p as int, v);
        }
    }
    if !char_at(s, p, '[') {
        return None;
    }
    let q1 = p + 1;
    let (x1, q2) = match read_num(s, q1) {
        Some(x) => x,
        None => {
            return None;
        },
    };
    if !char_at(s, q2, ',') {
        return None;
    }
    let q3 = q2 + 1;
    let (x2, q4) = match read_usize_list(s, q3) {
        Some(x) => x,
        None => {
            return None;
        },
    };
    if !char_at(s, q4, ',') {
        return None;
    }
    let q5 = q4 + 1;
    let (x3, q6) = match read_num_list(s, q5) {
        Some(x) => x,
        None => {
            return None;
        },
    };
    if !char_at(s, q6, ']') {
        return None;
    }
    let q7 = q6 + 1;
    let x: TypedTensor<u64> = TypedTensor { data: x3, shape: x2, ontic_type: x1 };
    proof {
        lemma_occurs_concat(s@, p as int, seq!['['], decimal((x1) as nat));
        lemma_occurs_concat(s@, p as int, seq!['['] + decimal((x1) as nat), seq![',']);
        lemma_occurs_concat(s@, p as int, seq!['['] + decimal((x1) as nat) + seq![','], usize_list_text(x2@));
        lemma_occurs_concat(s@, p as int, seq!['['] + decimal((x1) as nat) + seq![','] + usize_list_text(x2@), seq![',']);
        lemma_occurs_concat(s@, p as int, seq!['['] + decimal((x1) as nat) + seq![','] + usize_list_text(x2@) + seq![','], num_list_text(x3@));
        lemma_occurs_concat(s@, p as int, seq!['['] + decimal((x1) as nat) + seq![','] + usize_list_text(x2@) + seq![','] + num_list_text(x3@), seq![']']);
        assert(seq!['['] + decimal((x1) as nat) + seq![','] + usize_list_text(x2@) + seq![','] + num_list_text(x3@) + seq![']'] =~= tensor_text(x@));
        assert forall|v: TensorModel<u64>| #[trigger] occurs_at(s@, p as int, tensor_text(v)) implies x@ == v by {
            assert(occurs_then_stop(s@, p + (1), decimal((v.ontic_type) as nat)));
            assert(x1 == v.ontic_type);
            assert(occurs_at(s@, p + (1 + (decimal((v.ontic_type) as nat)).len() + 1), usize_list_text(v.shape)));
            assert(x2@ == v.shape);
            assert(occurs_at(s@, p + (1 + (decimal((v.ontic_type) as nat)).len() + 1 + (usize_list_text(v.shape)).len() + 1), num_list_text(v.data)));
            assert(x3@ == v.data);
        }
    }
    Some((x, q7))
}

/// Every alias entry is accepted.
pub open spec fn any_alias() -> spec_fn((Seq<char>, u64)) -> bool {
    |v: (Seq<char>, u64)| true
}

/// A JSON list of alias entries.
pub open spec fn alias_list_text(v: Seq<(Seq<char>, u64)>) -> Seq<char> {
    json_list(v.map_values(alias_fn()))
}

/// Reads a JSON list of alias entries.
pub fn read_alias_list(s: &Vec<char>, p: usize) -> (r: Option<(Vec<(Vec<char>, u64)>, usize)>)
    requires
        p <= s@.len(),
    ensures
        r matches Some((v, q)) ==> q == p + alias_list_text(views(v@)).len() && occurs_at(s@, p as int, alias_list_text(views(v@))),
        forall|w: Seq<(Seq<char>, u64)>| #[trigger] occurs_at(s@, p as int, alias_list_text(w)) ==> (r matches Some((v, q)) && views(v@) == w),
{
    proof {
        assert forall|v: (Seq<char>, u64)| #[trigger] any_alias()(v) implies alias_fn()(v).len() > 0 && alias_fn()(v)[0] != ']' by {
            assert(alias_text(v)[0] == '[');
        }
        assert forall|s2: &Vec<char>, p2: usize, v: (Seq<char>, u64), r2: Option<((Vec<char>, u64), usize)>|
            #![trigger call_ensures(read_alias, (s2, p2), r2), any_alias()(v)]
            p2 <= s2@.len() && any_alias()(v) && occurs_then_stop(s2@, p2 as int, alias_fn()(v)) && call_ensures(read_alias, (s2, p2), r2)
            implies (r2 matches Some((x, q)) && x@ == v) by {
            assert(occurs_at(s2@, p2 as int, alias_text(v)));
        }
    }
    let r = parse_list(s, p, &read_alias, Ghost(alias_fn()), Ghost(any_alias()));
    proof {
        assert forall|w: Seq<(Seq<char>, u64)>| #[trigger] occurs_at(s@, p as int, alias_list_text(w)) implies (r matches Some((v, q)) && views(v@) == w) by {
            assert(forall|i: int| 0 <= i < w.len() ==> #[trigger] any_alias()(w[i]));
        }
    }
    r
}

/// Every bridge entry is accepted.
pub open spec fn any_bridge() -> spec_fn((u64, u64, Op, u64)) -> bool {
    |v: (u64, u64, Op, u64)| true
}

/// A JSON list of bridge entries.
pub open spec fn bridge_list_text(v: Seq<(u64, u64, Op, u64)>) -> Seq<char> {
    json_list(v.map_values(bridge_fn()))
}

/// Reads a JSON list of bridge entries.
pub fn read_bridge_list(s: &Vec<char>, p: usize) -> (r: Option<(Vec<(u64, u64, Op, u64)>, usize)>)
    requires
        p <= s@.len(),
    ensures
        r matches Some((v, q)) ==> q == p + bridge_list_text(views(v@)).len() && occurs_at(s@, p as int, bridge_list_text(views(v@))),
        forall|w: Seq<(u64, u64, Op, u64)>| #[trigger] occurs_at(s@, p as int, bridge_list_text(w)) ==> (r matches Some((v, q)) && views(v@) == w),
{
    proof {
        assert forall|v: (u64, u64, Op, u64)| #[trigger] any_bridge()(v) implies bridge_fn()(v).len() > 0 && bridge_fn()(v)[0] != ']' by {
            assert(bridge_text(v)[0] == '[');
        }
        assert forall|s2: &Vec<char>, p2: usize, v: (u64, u64, Op, u64), r2: Option<((u64, u64, Op, u64), usize)>|
            #![trigger call_ensures(read_bridge, (s2, p2), r2), any_bridge()(v)]
            p2 <= s2@.len() && any_bridge()(v) && occurs_then_stop(s2@, p2 as int, bridge_fn()(v)) && call_ensures(read_bridge, (s2, p2), r2)
            implies (r2 matches Some((x, q)) && x@ == v) by {
            assert(occurs_at(s2@, p2 as int, bridge_text(v)));
        }
    }
    let r = parse_list(s, p, &read_bridge, Ghost(bridge_fn()), Ghost(any_bridge()));
    proof {
        assert forall|w: Seq<(u64, u64, Op, u64)>| #[trigger] occurs_at(s@, p as int, bridge_list_text(w)) implies (r matches Some((v, q)) && views(v@) == w) by {
            assert(forall|i: int| 0 <= i < w.len() ==> #[trigger] any_bridge()(w[i]));
        }
    }
    r
}

/// Every sig entry is accepted.
pub open spec fn any_sig() -> spec_fn((Op, Seq<u64>, Seq<u64>)) -> bool {
    |v: (Op, Seq<u64>, Seq<u64>)| true
}

/// A JSON list of ledger entries.
pub open spec fn sig_list_text(v: Seq<(Op, Seq<u64>, Seq<u64>)>) -> Seq<char> {
    json_list(v.map_values(sig_fn()))
}

/// Reads a JSON list of ledger entries.
pub fn read_sig_list(s: &Vec<char>, p: usize) -> (r: Option<(Vec<Signature>, usize)>)
    requires
        p <= s@.len(),
    ensures
        r matches Some((v, q)) ==> q == p + sig_list_text(views(v@)).len() && occurs_at(s@, p as int, sig_list_text(views(v@))),
        forall|w: Seq<(Op, Seq<u64>, Seq<u64>)>| #[trigger] occurs_at(s@, p as int, sig_list_text(w)) ==> (r matches Some((v, q)) && views(v@) == w),
{
    proof {
        assert forall|v: (Op, Seq<u64>, Seq<u64>)| #[trigger] any_sig()(v) implies sig_fn()(v).len() > 0 && sig_fn()(v)[0] != ']' by {
            assert(sig_text(v)[0] == '[');
        }
        assert forall|s2: &Vec<char>, p2: usize, v: (Op, Seq<u64>, Seq<u64>), r2: Option<(Signature, usize)>|
            #![trigger call_ensures(read_sig, (s2, p2), r2), any_sig()(v)]
            p2 <= s2@.len() && any_sig()(v) && occurs_then_stop(s2@, p2 as int, sig_fn()(v)) && call_ensures(read_sig, (s2, p2), r2)
            implies (r2 matches Some((x, q)) && x@ == v) by {
            assert(occurs_at(s2@, p2 as int, sig_text(v)));
        }
    }
    let r = parse_list(s, p, &read_sig, Ghost(sig_fn()), Ghost(any_sig()));
    proof {
        assert forall|w: Seq<(Op, Seq<u64>, Seq<u64>)>| #[trigger] occurs_at(s@, p as int, sig_list_text(w)) implies (r matches Some((v, q)) && views(v@) == w) by {
            assert(forall|i: int| 0 <= i < w.len() ==> #[trigger] any_sig()(w[i]));
        }
    }
    r
}

/// Every tensor entry is accepted.
pub open spec fn any_tensor() -> spec_fn(TensorModel<u64>) -> bool {
    |v: TensorModel<u64>| true
}

/// A JSON list of tensors.
pub open spec fn tensor_list_text(v: Seq<TensorModel<u64>>) -> Seq<char> {
    json_list(v.map_values(tensor_fn()))
}

/// Reads a JSON list of tensors.
pub fn read_tensor_list(s: &Vec<char>, p: usize) -> (r: Option<(Vec<TypedTensor<u64>>, usize)>)
    requires
        p <= s@.len(),
    ensures
        r matches Some((v, q)) ==> q == p + tensor_list_text(views(v@)).len() && occurs_at(s@, p as int, tensor_list_text(views(v@))),
        forall|w: Seq<TensorModel<u64>>| #[trigger] occurs_at(s@, p as int, tensor_list_text(w)) ==> (r matches Some((v, q)) && views(v@) == w),
{
    proof {
        assert forall|v: TensorModel<u64>| #[trigger] any_tensor()(v) implies tensor_fn()(v).len() > 0 && tensor_fn()(v)[0] != ']' by {
            assert(tensor_text(v)[0] == '[');
        }
        assert forall|s2: &Vec<char>, p2: usize, v: TensorModel<u64>, r2: Option<(TypedTensor<u64>, usize)>|
            #![trigger call_ensures(read_tensor, (s2, p2), r2), any_tensor()(v)]
            p2 <= s2@.len() && any_tensor()(v) && occurs_then_stop(s2@, p2 as int, tensor_fn()(v)) && call_ensures(read_tensor, (s2, p2), r2)
            implies (r2 matches Some((x, q)) && x@ == v) by {
            assert(occurs_at(s2@, p2 as int, tensor_text(v)));
        }
    }
    let r = parse_list(s, p, &read_tensor, Ghost(tensor_fn()), Ghost(any_tensor()));
    proof {
        assert forall|w: Seq<TensorModel<u64>>| #[trigger] occurs_at(s@, p as int, tensor_list_text(w)) implies (r matches Some((v, q)) && views(v@) == w) by {
            assert(forall|i: int| 0 <= i < w.len() ==> #[trigger] any_tensor()(w[i]));
        }
    }
    r
}

/// A savepoint as it is written: the saved stack and the saved ledger entries.
pub struct SavedState {
    pub stack: Vec<TypedTensor<u64>>,
    pub history: Vec<Signature>,
}

impl View for SavedState {
    type V = (Seq<TensorModel<u64>>, Seq<(Op, Seq<u64>, Seq<u64>)>);

    open spec fn view(&self) -> (Seq<TensorModel<u64>>, Seq<(Op, Seq<u64>, Seq<u64>)>) {
        (views(self.stack@), views(self.history@))
    }
}

/// The parts of a context, in the order in which they are written.
pub struct ContextParts {
    pub agent_id: u64,
    pub next_auto_id: u64,
    pub aliases: Vec<(Vec<char>, u64)>,
    pub bridges: Vec<(u64, u64, Op, u64)>,
    pub history: Vec<Signature>,
    pub stack: Vec<TypedTensor<u64>>,
    pub saved: Vec<SavedState>,
    pub goal: Option<Vec<char>>,
    pub contradicted: bool,
}

/// The model of the parts of a context.
pub struct PartsModel {
    pub agent_id: u64,
    pub next_auto_id: u64,
    /// The alias entries: name and identifier.
    pub aliases: Seq<(Seq<char>, u64)>,
    /// The bridge entries: from, to, verb and factor.
    pub bridges: Seq<(u64, u64, Op, u64)>,
    /// The ledger entries: verb, inputs and outputs.
    pub ledger: Seq<(Op, Seq<u64>, Seq<u64>)>,
    pub stack: Seq<TensorModel<u64>>,
    /// The savepoints: stack and ledger entries.
    pub savepoints: Seq<(Seq<TensorModel<u64>>, Seq<(Op, Seq<u64>, Seq<u64>)>)>,
    pub goal: Option<Seq<char>>,
    pub contradicted: bool,
}

impl View for ContextParts {
    type V = PartsModel;

    open spec fn view(&self) -> PartsModel {
        PartsModel {
            agent_id: self.agent_id,
            next_auto_id: self.next_auto_id,
            aliases: views(self.aliases@),
            bridges: views(self.bridges@),
            ledger: views(self.history@),
            stack: views(self.stack@),
            savepoints: views(self.saved@),
            goal: chars_opt(self.goal),
            contradicted: self.contradicted,
        }
    }
}

/// A savepoint: `[[stack],[ledger]]`.
pub open spec fn saved_text(v: (Seq<TensorModel<u64>>, Seq<(Op, Seq<u64>, Seq<u64>)>)) -> Seq<char> {
    seq!['[']
        + tensor_list_text(v.0)
        + seq![',']
        + sig_list_text(v.1)
        + seq![']']
}

/// The text of saved entries, as a function.
pub open spec fn saved_fn() -> spec_fn((Seq<TensorModel<u64>>, Seq<(Op, Seq<u64>, Seq<u64>)>)) -> Seq<char> {
    |v: (Seq<TensorModel<u64>>, Seq<(Op, Seq<u64>, Seq<u64>)>)| saved_text(v)
}

/// Where the pieces of a saved text lie when it appears in `s` at `p`.
proof fn lemma_saved_layout(s: Seq<char>, p: int, v: (Seq<TensorModel<u64>>, Seq<(Op, Seq<u64>, Seq<u64>)>))
    requires
        occurs_at(s, p, saved_text(v)),
    ensures
        occurs_at(s, p + (0), seq!['[']),
        occurs_at(s, p + (1), tensor_list_text(v.0)),
        occurs_at(s, p + (1 + (tensor_list_text(v.0)).len()), seq![',']),
        occurs_at(s, p + (1 + (tensor_list_text(v.0)).len() + 1), sig_list_text(v.1)),
        occurs_at(s, p + (1 + (tensor_list_text(v.0)).len() + 1 + (sig_list_text(v.1)).len()), seq![']']),
{
    lemma_occurs_split(s, p, seq!['['] + tensor_list_text(v.0) + seq![','] + sig_list_text(v.1), seq![']']);
    lemma_occurs_split(s, p, seq!['['] + tensor_list_text(v.0) + seq![','], sig_list_text(v.1));
    lemma_occurs_split(s, p, seq!['['] + tensor_list_text(v.0), seq![',']);
    lemma_occurs_split(s, p, seq!['['], tensor_list_text(v.0));
    lemma_occurs_first(s, p + (0), seq!['[']);
    lemma_occurs_first(s, p + (1 + (tensor_list_text(v.0)).len()), seq![',']);
    lemma_occurs_first(s, p + (1 + (tensor_list_text(v.0)).len() + 1 + (sig_list_text(v.1)).len()), seq![']']);
}

/// Reads a savepoint: `[[stack],[ledger]]`.
pub fn read_saved(s: &Vec<char>, p: usize) -> (r: Option<(SavedState, usize)>)
    requires
        p <= s@.len(),
    ensures
        r matches Some((x, q)) ==> q == p + saved_text(x@).len() && occurs_at(s@, p as int, saved_text(x@)),
        forall|v: (Seq<TensorModel<u64>>, Seq<(Op, Seq<u64>, Seq<u64>)>)| #![trigger saved_text(v)] occurs_at(s@, p as int, saved_text(v)) ==> (r matches Some((x, q)) && x@ == v),
{
    proof {
        assert forall|v: (Seq<TensorModel<u64>>, Seq<(Op, Seq<u64>, Seq<u64>)>)| #[trigger] occurs_at(s@, p as int, saved_text(v)) implies {
            &&& occurs_at(s@, p + (0), seq!['['])
            &&& occurs_at(s@, p + (1), tensor_list_text(v.0))
            &&& occurs_at(s@, p + (1 + (tensor_list_text(v.0)).len()), seq![','])
            &&& occurs_at(s@, p + (1 + (tensor_list_text(v.0)).len() + 1), sig_list_text(v.1))
            &&& occurs_at(s@, p + (1 + (tensor_list_text(v.0)).len() + 1 + (sig_list_text(v.1)).len()), seq![']'])
        } by {
            lemma_saved_layout(s@, p as int, v);
        }
    }
    if !char_at(s, p, '[') {
        return None;
    }
    let q1 = p + 1;
    let (x1, q2) = match read_tensor_list(s, q1) {
        Some(x) => x,
        None => {
            return None;
        },
    };
    if !char_at(s, q2, ',') {
        return None;
    }
    let q3 = q2 + 1;
    let (x2, q4) = match read_sig_list(s, q3) {
        Some(x) => x,
        None => {
            return None;
        },
    };
    if !char_at(s, q4, ']') {
        return None;
    }
    let q5 = q4 + 1;
    let x: SavedState = SavedState { stack: x1, history: x2 };
    proof {
        lemma_occurs_concat(s@, p as int, seq!['['], tensor_list_text(views(x1@)));
        lemma_occurs_concat(s@, p as int, seq!['['] + tensor_list_text(views(x1@)), seq![',']);
        lemma_occurs_concat(s@, p as int, seq!['['] + tensor_list_text(views(x1@)) + seq![','], sig_list_text(views(x2@)));
        lemma_occurs_concat(s@, p as int, seq!['['] + tensor_list_text(views(x1@)) + seq![','] + sig_list_text(views(x2@)), seq![']']);
        assert(seq!['['] + tensor_list_text(views(x1@)) + seq![','] + sig_list_text(views(x2@)) + seq![']'] =~= saved_text(x@));
        assert forall|v: (Seq<TensorModel<u64>>, Seq<(Op, Seq<u64>, Seq<u64>)>)| #[trigger] occurs_at(s@, p as int, saved_text(v)) implies x@ == v by {
            assert(occurs_at(s@, p + (1), tensor_list_text(v.0)));
            assert(views(x1@) == v.0);
            assert(occurs_at(s@, p + (1 + (tensor_list_text(v.0)).len() + 1), sig_list_text(v.1)));
            assert(views(x2@) == v.1);
        }
    }
    Some((x, q5))
}

/// Every saved entry is accepted.
pub open spec fn any_saved() -> spec_fn((Seq<TensorModel<u64>>, Seq<(Op, Seq<u64>, Seq<u64>)>)) -> bool {
    |v: (Seq<TensorModel<u64>>, Seq<(Op, Seq<u64>, Seq<u64>)>)| true
}

/// A JSON list of savepoints.
pub open spec fn saved_list_text(v: Seq<(Seq<TensorModel<u64>>, Seq<(Op, Seq<u64>, Seq<u64>)>)>) -> Seq<char> {
    json_list(v.map_values(saved_fn()))
}

/// Reads a JSON list of savepoints.
pub fn read_saved_list(s: &Vec<char>, p: usize) -> (r: Option<(Vec<SavedState>, usize)>)
    requires
        p <= s@.len(),
    ensures
        r matches Some((v, q)) ==> q == p + saved_list_text(views(v@)).len() && occurs_at(s@, p as int, saved_list_text(views(v@))),
        forall|w: Seq<(Seq<TensorModel<u64>>, Seq<(Op, Seq<u64>, Seq<u64>)>)>| #[trigger] occurs_at(s@, p as int, saved_list_text(w)) ==> (r matches Some((v, q)) && views(v@) == w),
{
    proof {
        assert forall|v: (Seq<TensorModel<u64>>, Seq<(Op, Seq<u64>, Seq<u64>)>)| #[trigger] any_saved()(v) implies saved_fn()(v).len() > 0 && saved_fn()(v)[0] != ']' by {
            assert(saved_text(v)[0] == '[');
        }
        assert forall|s2: &Vec<char>, p2: usize, v: (Seq<TensorModel<u64>>, Seq<(Op, Seq<u64>, Seq<u64>)>), r2: Option<(SavedState, usize)>|
            #![trigger call_ensures(read_saved, (s2, p2), r2), any_saved()(v)]
            p2 <= s2@.len() && any_saved()(v) && occurs_then_stop(s2@, p2 as int, saved_fn()(v)) && call_ensures(read_saved, (s2, p2), r2)
            implies (r2 matches Some((x, q)) && x@ == v) by {
            assert(occurs_at(s2@, p2 as int, saved_text(v)));
        }
    }
    let r = parse_list(s, p, &read_saved, Ghost(saved_fn()), Ghost(any_saved()));
    proof {
        assert forall|w: Seq<(Seq<TensorModel<u64>>, Seq<(Op, Seq<u64>, Seq<u64>)>)>| #[trigger] occurs_at(s@, p as int, saved_list_text(w)) implies (r matches Some((v, q)) && views(v@) == w) by {
            assert(forall|i: int| 0 <= i < w.len() ==> #[trigger] any_saved()(w[i]));
        }
    }
    r
}

/// The first parts of a context: agent, counter, aliases and bridges.
pub struct PartsHead {
    pub agent_id: u64,
    pub next_auto_id: u64,
    pub aliases: Vec<(Vec<char>, u64)>,
    pub bridges: Vec<(u64, u64, Op, u64)>,
}

impl View for PartsHead {
    type V = (u64, u64, Seq<(Seq<char>, u64)>, Seq<(u64, u64, Op, u64)>);

    open spec fn view(&self) -> (u64, u64, Seq<(Seq<char>, u64)>, Seq<(u64, u64, Op, u64)>) {
        (self.agent_id, self.next_auto_id, views(self.aliases@), views(self.bridges@))
    }
}

/// The last parts of a context: ledger, stack, savepoints, goal and flag.
pub struct PartsTail {
    pub history: Vec<Signature>,
    pub stack: Vec<TypedTensor<u64>>,
    pub saved: Vec<SavedState>,
    pub goal: Option<Vec<char>>,
    pub contradicted: bool,
}

impl View for PartsTail {
    type V = (Seq<(Op, Seq<u64>, Seq<u64>)>, Seq<TensorModel<u64>>, Seq<(Seq<TensorModel<u64>>, Seq<(Op, Seq<u64>, Seq<u64>)>)>, Option<Seq<char>>, bool);

    open spec fn view(&self) -> (Seq<(Op, Seq<u64>, Seq<u64>)>, Seq<TensorModel<u64>>, Seq<(Seq<TensorModel<u64>>, Seq<(Op, Seq<u64>, Seq<u64>)>)>, Option<Seq<char>>, bool) {
        (views(self.history@), views(self.stack@), views(self.saved@), chars_opt(self.goal), self.contradicted)
    }
}

/// The first parts of a context model.
pub open spec fn head_of(v: PartsModel) -> (u64, u64, Seq<(Seq<char>, u64)>, Seq<(u64, u64, Op, u64)>) {
    (v.agent_id, v.next_auto_id, v.aliases, v.bridges)
}

/// The last parts of a context model.
pub open spec fn tail_of(v: PartsModel) -> (Seq<(Op, Seq<u64>, Seq<u64>)>, Seq<TensorModel<u64>>, Seq<(Seq<TensorModel<u64>>, Seq<(Op, Seq<u64>, Seq<u64>)>)>, Option<Seq<char>>, bool) {
    (v.ledger, v.stack, v.savepoints, v.goal, v.contradicted)
}

/// The opening of a context object, up to its bridges.
pub open spec fn head_text(v: (u64, u64, Seq<(Seq<char>, u64)>, Seq<(u64, u64, Op, u64)>)) -> Seq<char> {
    "{\"agent_id\":"@
        + decimal((v.0) as nat)
        + ",\"next_auto_id\":"@
        + decimal((v.1) as nat)
        + ",\"aliases\":"@
        + alias_list_text(v.2)
        + ",\"bridges\":"@
        + bridge_list_text(v.3)
}

/// Reads the opening of a context object, up to its bridges.
proof fn lemma_head_lit0()
    ensures
        "{\"agent_id\":"@.len() == 12,
        "{\"agent_id\":"@[0] == '{',
{
    reveal_strlit("{\"agent_id\":");
}

proof fn lemma_head_lit2()
    ensures
        ",\"next_auto_id\":"@.len() == 16,
        ",\"next_auto_id\":"@[0] == ',',
{
    reveal_strlit(",\"next_auto_id\":");
}

proof fn lemma_head_lit4()
    ensures
        ",\"aliases\":"@.len() == 11,
        ",\"aliases\":"@[0] == ',',
{
    reveal_strlit(",\"aliases\":");
}

proof fn lemma_head_lit6()
    ensures
        ",\"bridges\":"@.len() == 11,
        ",\"bridges\":"@[0] == ',',
{
    reveal_strlit(",\"bridges\":");
}

/// Where the pieces of a head text lie when it appears in `s` at `p`.
#[verifier::rlimit(60)]
proof fn lemma_head_layout(s: Seq<char>, p: int, v: (u64, u64, Seq<(Seq<char>, u64)>, Seq<(u64, u64, Op, u64)>))
    requires
        occurs_at(s, p, head_text(v)),
    ensures
        occurs_at(s, p + (0), "{\"agent_id\":"@),
        occurs_then_stop(s, p + (12), decimal((v.0) as nat)),
        occurs_at(s, p + (12 + (decimal((v.0) as nat)).len()), ",\"next_auto_id\":"@),
        occurs_then_stop(s, p + (12 + (decimal((v.0) as nat)).len() + 16), decimal((v.1) as nat)),
        occurs_at(s, p + (12 + (decimal((v.0) as nat)).len() + 16 + (decimal((v.1) as nat)).len()), ",\"aliases\":"@),
        occurs_at(s, p + (12 + (decimal((v.0) as nat)).len() + 16 + (decimal((v.1) as nat)).len() + 11), alias_list_text(v.2)),
        occurs_at(s, p + (12 + (decimal((v.0) as nat)).len() + 16 + (decimal((v.1) as nat)).len() + 11 + (alias_list_text(v.2)).len()), ",\"bridges\":"@),
        occurs_at(s, p + (12 + (decimal((v.0) as nat)).len() + 16 + (decimal((v.1) as nat)).len() + 11 + (alias_list_text(v.2)).len() + 11), bridge_list_text(v.3)),
{
    lemma_head_lit0();
    lemma_head_lit2();
    lemma_head_lit4();
    lemma_head_lit6();
    lemma_occurs_split(s, p, "{\"agent_id\":"@ + decimal((v.0) as nat) + ",\"next_auto_id\":"@ + decimal((v.1) as nat) + ",\"aliases\":"@ + alias_list_text(v.2) + ",\"bridges\":"@, bridge_list_text(v.3));
    lemma_occurs_split(s, p, "{\"agent_id\":"@ + decimal((v.0) as nat) + ",\"next_auto_id\":"@ + decimal((v.1) as nat) + ",\"aliases\":"@ + alias_list_text(v.2), ",\"bridges\":"@);
    lemma_occurs_split(s, p, "{\"agent_id\":"@ + decimal((v.0) as nat) + ",\"next_auto_id\":"@ + decimal((v.1) as nat) + ",\"aliases\":"@, alias_list_text(v.2));
    lemma_occurs_split(s, p, "{\"agent_id\":"@ + decimal((v.0) as nat) + ",\"next_auto_id\":"@ + decimal((v.1) as nat), ",\"aliases\":"@);
    lemma_occurs_split(s, p, "{\"agent_id\":"@ + decimal((v.0) as nat) + ",\"next_auto_id\":"@, decimal((v.1) as nat));
    lemma_occurs_split(s, p, "{\"agent_id\":"@ + decimal((v.0) as nat), ",\"next_auto_id\":"@);
    lemma_occurs_split(s, p, "{\"agent_id\":"@, decimal((v.0) as nat));
    lemma_occurs_first(s, p + (0), "{\"agent_id\":"@);
    lemma_occurs_first(s, p + (12 + (decimal((v.0) as nat)).len()), ",\"next_auto_id\":"@);
    lemma_occurs_first(s, p + (12 + (decimal((v.0) as nat)).len() + 16 + (decimal((v.1) as nat)).len()), ",\"aliases\":"@);
    lemma_occurs_first(s, p + (12 + (decimal((v.0) as nat)).len() + 16 + (decimal((v.1) as nat)).len() + 11 + (alias_list_text(v.2)).len()), ",\"bridges\":"@);
}

#[verifier::rlimit(60)]
pub fn read_head(s: &Vec<char>, p: usize) -> (r: Option<(PartsHead, usize)>)
    requires
        p <= s@.len(),
    ensures
        r matches Some((x, q)) ==> q == p + head_text(x@).len() && occurs_at(s@, p as int, head_text(x@)),
        forall|v: (u64, u64, Seq<(Seq<char>, u64)>, Seq<(u64, u64, Op, u64)>)| #![trigger head_text(v)] occurs_at(s@, p as int, head_text(v)) ==> (r matches Some((x, q)) && x@ == v),
{
    proof {
        lemma_head_lit0();
        lemma_head_lit2();
        lemma_head_lit4();
        lemma_head_lit6();
        assert forall|v: (u64, u64, Seq<(Seq<char>, u64)>, Seq<(u64, u64, Op, u64)>)| #[trigger] occurs_at(s@, p as int, head_text(v)) implies {
            &&& occurs_at(s@, p + (0), "{\"agent_id\":"@)
            &&& occurs_then_stop(s@, p + (12), decimal((v.0) as nat))
            &&& occurs_at(s@, p + (12 + (decimal((v.0) as nat)).len()), ",\"next_auto_id\":"@)
            &&& occurs_then_stop(s@, p + (12 + (decimal((v.0) as nat)).len() + 16), decimal((v.1) as nat))
            &&& occurs_at(s@, p + (12 + (decimal((v.0) as nat)).len() + 16 + (decimal((v.1) as nat)).len()), ",\"aliases\":"@)
            &&& occurs_at(s@, p + (12 + (decimal((v.0) as nat)).len() + 16 + (decimal((v.1) as nat)).len() + 11), alias_list_text(v.2))
            &&& occurs_at(s@, p + (12 + (decimal((v.0) as nat)).len() + 16 + (decimal((v.1) as nat)).len() + 11 + (alias_list_text(v.2)).len()), ",\"bridges\":"@)
            &&& occurs_at(s@, p + (12 + (decimal((v.0) as nat)).len() + 16 + (decimal((v.1) as nat)).len() + 11 + (alias_list_text(v.2)).len() + 11), bridge_list_text(v.3))
        } by {
            lemma_head_layout(s@, p as int, v);
        }
    }
    if !lit_at(s, p, "{\"agent_id\":") {
        return None;
    }
    let q1 = p + 12;
    let (x1, q2) = match read_num(s, q1) {
        Some(x) => x,
        None => {
            return None;
        },
    };
    if !lit_at(s, q2, ",\"next_auto_id\":") {
        return None;
    }
    let q3 = q2 + 16;
    let (x2, q4) = match read_num(s, q3) {
        Some(x) => x,
        None => {
            return None;
        },
    };
    if !lit_at(s, q4, ",\"aliases\":") {
        return None;
    }
    let q5 = q4 + 11;
    let (x3, q6) = match read_alias_list(s, q5) {
        Some(x) => x,
        None => {
            return None;
        },
    };
    if !lit_at(s, q6, ",\"bridges\":") {
        return None;
    }
    let q7 = q6 + 11;
    let (x4, q8) = match read_bridge_list(s, q7) {
        Some(x) => x,
        None => {
            return None;
        },
    };
    let x: PartsHead = PartsHead { agent_id: x1, next_auto_id: x2, aliases: x3, bridges: x4 };
    proof {
        lemma_occurs_concat(s@, p as int, "{\"agent_id\":"@, decimal((x1) as nat));
        lemma_occurs_concat(s@, p as int, "{\"agent_id\":"@ + decimal((x1) as nat), ",\"next_auto_id\":"@);
        lemma_occurs_concat(s@, p as int, "{\"agent_id\":"@ + decimal((x1) as nat) + ",\"next_auto_id\":"@, decimal((x2) as nat));
        lemma_occurs_concat(s@, p as int, "{\"agent_id\":"@ + decimal((x1) as nat) + ",\"next_auto_id\":"@ + decimal((x2) as nat), ",\"aliases\":"@);
        lemma_occurs_concat(s@, p as int, "{\"agent_id\":"@ + decimal((x1) as nat) + ",\"next_auto_id\":"@ + decimal((x2) as nat) + ",\"aliases\":"@, alias_list_text(views(x3@)));
        lemma_occurs_concat(s@, p as int, "{\"agent_id\":"@ + decimal((x1) as nat) + ",\"next_auto_id\":"@ + decimal((x2) as nat) + ",\"aliases\":"@ + alias_list_text(views(x3@)), ",\"bridges\":"@);
        lemma_occurs_concat(s@, p as int, "{\"agent_id\":"@ + decimal((x1) as nat) + ",\"next_auto_id\":"@ + decimal((x2) as nat) + ",\"aliases\":"@ + alias_list_text(views(x3@)) + ",\"bridges\":"@, bridge_list_text(views(x4@)));
        assert("{\"agent_id\":"@ + decimal((x1) as nat) + ",\"next_auto_id\":"@ + decimal((x2) as nat) + ",\"aliases\":"@ + alias_list_text(views(x3@)) + ",\"bridges\":"@ + bridge_list_text(views(x4@)) =~= head_text(x@));
        assert forall|v: (u64, u64, Seq<(Seq<char>, u64)>, Seq<(u64, u64, Op, u64)>)| #[trigger] occurs_at(s@, p as int, head_text(v)) implies x@ == v by {
            assert(occurs_then_stop(s@, p + (12), decimal((v.0) as nat)));
            assert(x1 == v.0);
            assert(occurs_then_stop(s@, p + (12 + (decimal((v.0) as nat)).len() + 16), decimal((v.1) as nat)));
            assert(x2 == v.1);
            assert(occurs_at(s@, p + (12 + (decimal((v.0) as nat)).len() + 16 + (decimal((v.1) as nat)).len() + 11), alias_list_text(v.2)));
            assert(views(x3@) == v.2);
            assert(occurs_at(s@, p + (12 + (decimal((v.0) as nat)).len() + 16 + (decimal((v.1) as nat)).len() + 11 + (alias_list_text(v.2)).len() + 11), bridge_list_text(v.3)));
            assert(views(x4@) == v.3);
        }
    }
    Some((x, q8))
}

/// The rest of a context object, from its ledger on.
pub open spec fn tail_text(v: (Seq<(Op, Seq<u64>, Seq<u64>)>, Seq<TensorModel<u64>>, Seq<(Seq<TensorModel<u64>>, Seq<(Op, Seq<u64>, Seq<u64>)>)>, Option<Seq<char>>, bool)) -> Seq<char> {
    ",\"ledger\":"@
        + sig_list_text(v.0)
        + ",\"stack\":"@
        + tensor_list_text(v.1)
        + ",\"savepoints\":"@
        + saved_list_text(v.2)
        + ",\"goal\":"@
        + goal_text(v.3)
        + ",\"contradicted\":"@
        + bool_text(v.4)
        + seq!['}']
}

/// Reads the rest of a context object, from its ledger on.
proof fn lemma_tail_lit0()
    ensures
        ",\"ledger\":"@.len() == 10,
        ",\"ledger\":"@[0] == ',',
{
    reveal_strlit(",\"ledger\":");
}

proof fn lemma_tail_lit2()
    ensures
        ",\"stack\":"@.len() == 9,
        ",\"stack\":"@[0] == ',',
{
    reveal_strlit(",\"stack\":");
}

proof fn lemma_tail_lit4()
    ensures
        ",\"savepoints\":"@.len() == 14,
        ",\"savepoints\":"@[0] == ',',
{
    reveal_strlit(",\"savepoints\":");
}

proof fn lemma_tail_lit6()
    ensures
        ",\"goal\":"@.len() == 8,
        ",\"goal\":"@[0] == ',',
{
    reveal_strlit(",\"goal\":");
}

proof fn lemma_tail_lit8()
    ensures
        ",\"contradicted\":"@.len() == 16,
        ",\"contradicted\":"@[0] == ',',
{
    reveal_strlit(",\"contradicted\":");
}

/// Where the pieces of a tail text lie when it appears in `s` at `p`.
#[verifier::rlimit(60)]
proof fn lemma_tail_layout(s: Seq<char>, p: int, v: (Seq<(Op, Seq<u64>, Seq<u64>)>, Seq<TensorModel<u64>>, Seq<(Seq<TensorModel<u64>>, Seq<(Op, Seq<u64>, Seq<u64>)>)>, Option<Seq<char>>, bool))
    requires
        occurs_at(s, p, tail_text(v)),
    ensures
        occurs_at(s, p + (0), ",\"ledger\":"@),
        occurs_at(s, p + (10), sig_list_text(v.0)),
        occurs_at(s, p + (10 + (sig_list_text(v.0)).len()), ",\"stack\":"@),
        occurs_at(s, p + (10 + (sig_list_text(v.0)).len() + 9), tensor_list_text(v.1)),
        occurs_at(s, p + (10 + (sig_list_text(v.0)).len() + 9 + (tensor_list_text(v.1)).len()), ",\"savepoints\":"@),
        occurs_at(s, p + (10 + (sig_list_text(v.0)).len() + 9 + (tensor_list_text(v.1)).len() + 14), saved_list_text(v.2)),
        occurs_at(s, p + (10 + (sig_list_text(v.0)).len() + 9 + (tensor_list_text(v.1)).len() + 14 + (saved_list_text(v.2)).len()), ",\"goal\":"@),
        occurs_at(s, p + (10 + (sig_list_text(v.0)).len() + 9 + (tensor_list_text(v.1)).len() + 14 + (saved_list_text(v.2)).len() + 8), goal_text(v.3)),
        occurs_at(s, p + (10 + (sig_list_text(v.0)).len() + 9 + (tensor_list_text(v.1)).len() + 14 + (saved_list_text(v.2)).len() + 8 + (goal_text(v.3)).len()), ",\"contradicted\":"@),
        occurs_at(s, p + (10 + (sig_list_text(v.0)).len() + 9 + (tensor_list_text(v.1)).len() + 14 + (saved_list_text(v.2)).len() + 8 + (goal_text(v.3)).len() + 16), bool_text(v.4)),
        occurs_at(s, p + (10 + (sig_list_text(v.0)).len() + 9 + (tensor_list_text(v.1)).len() + 14 + (saved_list_text(v.2)).len() + 8 + (goal_text(v.3)).len() + 16 + (bool_text(v.4)).len()), seq!['}']),
{
    lemma_tail_lit0();
    lemma_tail_lit2();
    lemma_tail_lit4();
    lemma_tail_lit6();
    lemma_tail_lit8();
    lemma_occurs_split(s, p, ",\"ledger\":"@ + sig_list_text(v.0) + ",\"stack\":"@ + tensor_list_text(v.1) + ",\"savepoints\":"@ + saved_list_text(v.2) + ",\"goal\":"@ + goal_text(v.3) + ",\"contradicted\":"@ + bool_text(v.4), seq!['}']);
    lemma_occurs_split(s, p, ",\"ledger\":"@ + sig_list_text(v.0) + ",\"stack\":"@ + tensor_list_text(v.1) + ",\"savepoints\":"@ + saved_list_text(v.2) + ",\"goal\":"@ + goal_text(v.3) + ",\"contradicted\":"@, bool_text(v.4));
    lemma_occurs_split(s, p, ",\"ledger\":"@ + sig_list_text(v.0) + ",\"stack\":"@ + tensor_list_text(v.1) + ",\"savepoints\":"@ + saved_list_text(v.2) + ",\"goal\":"@ + goal_text(v.3), ",\"contradicted\":"@);
    lemma_occurs_split(s, p, ",\"ledger\":"@ + sig_list_text(v.0) + ",\"stack\":"@ + tensor_list_text(v.1) + ",\"savepoints\":"@ + saved_list_text(v.2) + ",\"goal\":"@, goal_text(v.3));
    lemma_occurs_split(s, p, ",\"ledger\":"@ + sig_list_text(v.0) + ",\"stack\":"@ + tensor_list_text(v.1) + ",\"savepoints\":"@ + saved_list_text(v.2), ",\"goal\":"@);
    lemma_occurs_split(s, p, ",\"ledger\":"@ + sig_list_text(v.0) + ",\"stack\":"@ + tensor_list_text(v.1) + ",\"savepoints\":"@, saved_list_text(v.2));
    lemma_occurs_split(s, p, ",\"ledger\":"@ + sig_list_text(v.0) + ",\"stack\":"@ + tensor_list_text(v.1), ",\"savepoints\":"@);
    lemma_occurs_split(s, p, ",\"ledger\":"@ + sig_list_text(v.0) + ",\"stack\":"@, tensor_list_text(v.1));
    lemma_occurs_split(s, p, ",\"ledger\":"@ + sig_list_text(v.0), ",\"stack\":"@);
    lemma_occurs_split(s, p, ",\"ledger\":"@, sig_list_text(v.0));
    lemma_occurs_first(s, p + (0), ",\"ledger\":"@);
    lemma_occurs_first(s, p + (10 + (sig_list_text(v.0)).len()), ",\"stack\":"@);
    lemma_occurs_first(s, p + (10 + (sig_list_text(v.0)).len() + 9 + (tensor_list_text(v.1)).len()), ",\"savepoints\":"@);
    lemma_occurs_first(s, p + (10 + (sig_list_text(v.0)).len() + 9 + (tensor_list_text(v.1)).len() + 14 + (saved_list_text(v.2)).len()), ",\"goal\":"@);
    lemma_occurs_first(s, p + (10 + (sig_list_text(v.0)).len() + 9 + (tensor_list_text(v.1)).len() + 14 + (saved_list_text(v.2)).len() + 8 + (goal_text(v.3)).len()), ",\"contradicted\":"@);
    lemma_occurs_first(s, p + (10 + (sig_list_text(v.0)).len() + 9 + (tensor_list_text(v.1)).len() + 14 + (saved_list_text(v.2)).len() + 8 + (goal_text(v.3)).len() + 16 + (bool_text(v.4)).len()), seq!['}']);
}

#[verifier::rlimit(60)]
pub fn read_tail(s: &Vec<char>, p: usize) -> (r: Option<(PartsTail, usize)>)
    requires
        p <= s@.len(),
    ensures
        r matches Some((x, q)) ==> q == p + tail_text(x@).len() && occurs_at(s@, p as int, tail_text(x@)),
        forall|v: (Seq<(Op, Seq<u64>, Seq<u64>)>, Seq<TensorModel<u64>>, Seq<(Seq<TensorModel<u64>>, Seq<(Op, Seq<u64>, Seq<u64>)>)>, Option<Seq<char>>, bool)| #![trigger tail_text(v)] occurs_at(s@, p as int, tail_text(v)) ==> (r matches Some((x, q)) && x@ == v),
{
    proof {
        lemma_tail_lit0();
        lemma_tail_lit2();
        lemma_tail_lit4();
        lemma_tail_lit6();
        lemma_tail_lit8();
        assert forall|v: (Seq<(Op, Seq<u64>, Seq<u64>)>, Seq<TensorModel<u64>>, Seq<(Seq<TensorModel<u64>>, Seq<(Op, Seq<u64>, Seq<u64>)>)>, Option<Seq<char>>, bool)| #[trigger] occurs_at(s@, p as int, tail_text(v)) implies {
            &&& occurs_at(s@, p + (0), ",\"ledger\":"@)
            &&& occurs_at(s@, p + (10), sig_list_text(v.0))
            &&& occurs_at(s@, p + (10 + (sig_list_text(v.0)).len()), ",\"stack\":"@)
            &&& occurs_at(s@, p + (10 + (sig_list_text(v.0)).len() + 9), tensor_list_text(v.1))
            &&& occurs_at(s@, p + (10 + (sig_list_text(v.0)).len() + 9 + (tensor_list_text(v.1)).len()), ",\"savepoints\":"@)
            &&& occurs_at(s@, p + (10 + (sig_list_text(v.0)).len() + 9 + (tensor_list_text(v.1)).len() + 14), saved_list_text(v.2))
            &&& occurs_at(s@, p + (10 + (sig_list_text(v.0)).len() + 9 + (tensor_list_text(v.1)).len() + 14 + (saved_list_text(v.2)).len()), ",\"goal\":"@)
            &&& occurs_at(s@, p + (10 + (sig_list_text(v.0)).len() + 9 + (tensor_list_text(v.1)).len() + 14 + (saved_list_text(v.2)).len() + 8), goal_text(v.3))
            &&& occurs_at(s@, p + (10 + (sig_list_text(v.0)).len() + 9 + (tensor_list_text(v.1)).len() + 14 + (saved_list_text(v.2)).len() + 8 + (goal_text(v.3)).len()), ",\"contradicted\":"@)
            &&& occurs_at(s@, p + (10 + (sig_list_text(v.0)).len() + 9 + (tensor_list_text(v.1)).len() + 14 + (saved_list_text(v.2)).len() + 8 + (goal_text(v.3)).len() + 16), bool_text(v.4))
            &&& occurs_at(s@, p + (10 + (sig_list_text(v.0)).len() + 9 + (tensor_list_text(v.1)).len() + 14 + (saved_list_text(v.2)).len() + 8 + (goal_text(v.3)).len() + 16 + (bool_text(v.4)).len()), seq!['}'])
        } by {
            lemma_tail_layout(s@, p as int, v);
        }
    }
    if !lit_at(s, p, ",\"ledger\":") {
        return None;
    }
    let q1 = p + 10;
    let (x1, q2) = match read_sig_list(s, q1) {
        Some(x) => x,
        None => {
            return None;
        },
    };
    if !lit_at(s, q2, ",\"stack\":") {
        return None;
    }
    let q3 = q2 + 9;
    let (x2, q4) = match read_tensor_list(s, q3) {
        Some(x) => x,
        None => {
            return None;
        },
    };
    if !lit_at(s, q4, ",\"savepoints\":") {
        return None;
    }
    let q5 = q4 + 14;
    let (x3, q6) = match read_saved_list(s, q5) {
        Some(x) => x,
        None => {
            return None;
        },
    };
    if !lit_at(s, q6, ",\"goal\":") {
        return None;
    }
    let q7 = q6 + 8;
    let (x4, q8) = match read_goal(s, q7) {
        Some(x) => x,
        None => {
            return None;
        },
    };
    if !lit_at(s, q8, ",\"contradicted\":") {
        return None;
    }
    let q9 = q8 + 16;
    let (x5, q10) = match read_bool(s, q9) {
        Some(x) => x,
        None => {
            return None;
        },
    };
    if !char_at(s, q10, '}') {
        return None;
    }
    let q11 = q10 + 1;
    let x: PartsTail = PartsTail { history: x1, stack: x2, saved: x3, goal: x4, contradicted: x5 };
    proof {
        lemma_occurs_concat(s@, p as int, ",\"ledger\":"@, sig_list_text(views(x1@)));
        lemma_occurs_concat(s@, p as int, ",\"ledger\":"@ + sig_list_text(views(x1@)), ",\"stack\":"@);
        lemma_occurs_concat(s@, p as int, ",\"ledger\":"@ + sig_list_text(views(x1@)) + ",\"stack\":"@, tensor_list_text(views(x2@)));
        lemma_occurs_concat(s@, p as int, ",\"ledger\":"@ + sig_list_text(views(x1@)) + ",\"stack\":"@ + tensor_list_text(views(x2@)), ",\"savepoints\":"@);
        lemma_occurs_concat(s@, p as int, ",\"ledger\":"@ + sig_list_text(views(x1@)) + ",\"stack\":"@ + tensor_list_text(views(x2@)) + ",\"savepoints\":"@, saved_list_text(views(x3@)));
        lemma_occurs_concat(s@, p as int, ",\"ledger\":"@ + sig_list_text(views(x1@)) + ",\"stack\":"@ + tensor_list_text(views(x2@)) + ",\"savepoints\":"@ + saved_list_text(views(x3@)), ",\"goal\":"@);
        lemma_occurs_concat(s@, p as int, ",\"ledger\":"@ + sig_list_text(views(x1@)) + ",\"stack\":"@ + tensor_list_text(views(x2@)) + ",\"savepoints\":"@ + saved_list_text(views(x3@)) + ",\"goal\":"@, goal_text(chars_opt(x4)));
        lemma_occurs_concat(s@, p as int, ",\"ledger\":"@ + sig_list_text(views(x1@)) + ",\"stack\":"@ + tensor_list_text(views(x2@)) + ",\"savepoints\":"@ + saved_list_text(views(x3@)) + ",\"goal\":"@ + goal_text(chars_opt(x4)), ",\"contradicted\":"@);
        lemma_occurs_concat(s@, p as int, ",\"ledger\":"@ + sig_list_text(views(x1@)) + ",\"stack\":"@ + tensor_list_text(views(x2@)) + ",\"savepoints\":"@ + saved_list_text(views(x3@)) + ",\"goal\":"@ + goal_text(chars_opt(x4)) + ",\"contradicted\":"@, bool_text(x5));
        lemma_occurs_concat(s@, p as int, ",\"ledger\":"@ + sig_list_text(views(x1@)) + ",\"stack\":"@ + tensor_list_text(views(x2@)) + ",\"savepoints\":"@ + saved_list_text(views(x3@)) + ",\"goal\":"@ + goal_text(chars_opt(x4)) + ",\"contradicted\":"@ + bool_text(x5), seq!['}']);
        assert(",\"ledger\":"@ + sig_list_text(views(x1@)) + ",\"stack\":"@ + tensor_list_text(views(x2@)) + ",\"savepoints\":"@ + saved_list_text(views(x3@)) + ",\"goal\":"@ + goal_text(chars_opt(x4)) + ",\"contradicted\":"@ + bool_text(x5) + seq!['}'] =~= tail_text(x@));
        assert forall|v: (Seq<(Op, Seq<u64>, Seq<u64>)>, Seq<TensorModel<u64>>, Seq<(Seq<TensorModel<u64>>, Seq<(Op, Seq<u64>, Seq<u64>)>)>, Option<Seq<char>>, bool)| #[trigger] occurs_at(s@, p as int, tail_text(v)) implies x@ == v by {
            assert(occurs_at(s@, p + (10), sig_list_text(v.0)));
            assert(views(x1@) == v.0);
            assert(occurs_at(s@, p + (10 + (sig_list_text(v.0)).len() + 9), tensor_list_text(v.1)));
            assert(views(x2@) == v.1);
            assert(occurs_at(s@, p + (10 + (sig_list_text(v.0)).len() + 9 + (tensor_list_text(v.1)).len() + 14), saved_list_text(v.2)));
            assert(views(x3@) == v.2);
            assert(occurs_at(s@, p + (10 + (sig_list_text(v.0)).len() + 9 + (tensor_list_text(v.1)).len() + 14 + (saved_list_text(v.2)).len() + 8), goal_text(v.3)));
            assert(chars_opt(x4) == v.3);
            assert(occurs_at(s@, p + (10 + (sig_list_text(v.0)).len() + 9 + (tensor_list_text(v.1)).len() + 14 + (saved_list_text(v.2)).len() + 8 + (goal_text(v.3)).len() + 16), bool_text(v.4)));
            assert(x5 == v.4);
        }
    }
    Some((x, q11))
}

/// A whole context: an object with its parts in a fixed order.
pub open spec fn parts_text(v: PartsModel) -> Seq<char> {
    head_text(head_of(v)) + tail_text(tail_of(v))
}

/// Reads a whole context object.
pub fn read_parts(s: &Vec<char>, p: usize) -> (r: Option<(ContextParts, usize)>)
    requires
        p <= s@.len(),
    ensures
        r matches Some((x, q)) ==> q == p + parts_text(x@).len() && occurs_at(s@, p as int, parts_text(x@)),
        forall|v: PartsModel| #![trigger parts_text(v)] occurs_at(s@, p as int, parts_text(v)) ==> (r matches Some((x, q)) && x@ == v),
{
    proof {
        assert forall|v: PartsModel| #![trigger parts_text(v)] occurs_at(s@, p as int, parts_text(v)) implies occurs_at(
            s@,
            p as int,
            head_text(head_of(v)),
        ) && occurs_at(s@, p + head_text(head_of(v)).len(), tail_text(tail_of(v))) by {
            lemma_occurs_split(s@, p as int, head_text(head_of(v)), tail_text(tail_of(v)));
        }
    }
    let (h, q1) = match read_head(s, p) {
        Some(x) => x,
        None => {
            return None;
        },
    };
    let (t, q2) = match read_tail(s, q1) {
        Some(x) => x,
        None => {
            proof {
                assert forall|v: PartsModel| #![trigger parts_text(v)] occurs_at(s@, p as int, parts_text(v)) implies false by {
                    assert(occurs_at(s@, p as int, head_text(head_of(v))));
                    assert(h@ == head_of(v));
                }
            }
            return None;
        },
    };
    let x = ContextParts {
        agent_id: h.agent_id,
        next_auto_id: h.next_auto_id,
        aliases: h.aliases,
        bridges: h.bridges,
        history: t.history,
        stack: t.stack,
        saved: t.saved,
        goal: t.goal,
        contradicted: t.contradicted,
    };
    proof {
        assert(head_of(x@) == h@);
        assert(tail_of(x@) == t@);
        lemma_occurs_concat(s@, p as int, head_text(h@), tail_text(t@));
        assert forall|v: PartsModel| #![trigger parts_text(v)] occurs_at(s@, p as int, parts_text(v)) implies x@ == v by {
            assert(occurs_at(s@, p as int, head_text(head_of(v))));
            assert(h@ == head_of(v));
            assert(occurs_at(s@, p + head_text(head_of(v)).len(), tail_text(tail_of(v))));
            assert(t@ == tail_of(v));
        }
    }
    Some((x, q2))
}

/// Appends a JSON list of integers.
pub fn push_num_list(out: &mut String, v: &Vec<u64>)
    ensures
        final(out)@ == old(out)@ + num_list_text(v@),
{
    let ghost items = (v@).map_values(num_fn());
    let ghost start = out@;
    push_char(out, '[');
    let mut i: usize = 0;
    while i < v.len()
        invariant
            i <= v@.len(),
            (v@).len() == v@.len(),
            items == (v@).map_values(num_fn()),
            out@ == start + seq!['['] + joined(items.take(i as int)),
        decreases v@.len() - i,
    {
        proof {
            lemma_joined_step(items, i as int);
        }
        let ghost before = out@;
        if i > 0 {
            push_char(out, ',');
        }
        push_decimal(out, v[i]);
        proof {
            if i == 0 {
                assert(out@ =~= start + seq!['['] + joined(items.take(i + 1)));
            } else {
                assert(out@ =~= start + seq!['['] + joined(items.take(i + 1)));
            }
        }
        i = i + 1;
    }
    proof {
        assert(items.take(i as int) =~= items);
    }
    push_char(out, ']');
    assert(out@ =~= start + num_list_text(v@));
}

/// Appends a JSON list of sizes.
pub fn push_usize_list(out: &mut String, v: &Vec<usize>)
    ensures
        final(out)@ == old(out)@ + usize_list_text(v@),
{
    let ghost items = (v@).map_values(usize_fn());
    let ghost start = out@;
    push_char(out, '[');
    let mut i: usize = 0;
    while i < v.len()
        invariant
            i <= v@.len(),
            (v@).len() == v@.len(),
            items == (v@).map_values(usize_fn()),
            out@ == start + seq!['['] + joined(items.take(i as int)),
        decreases v@.len() - i,
    {
        proof {
            lemma_joined_step(items, i as int);
        }
        let ghost before = out@;
        if i > 0 {
            push_char(out, ',');
        }
        push_decimal(out, v[i] as u64);
        proof {
            if i == 0 {
                assert(out@ =~= start + seq!['['] + joined(items.take(i + 1)));
            } else {
                assert(out@ =~= start + seq!['['] + joined(items.take(i + 1)));
            }
        }
        i = i + 1;
    }
    proof {
        assert(items.take(i as int) =~= items);
    }
    push_char(out, ']');
    assert(out@ =~= start + usize_list_text(v@));
}

/// Appends a bridge entry.
pub fn push_bridge(out: &mut String, x: &(u64, u64, Op, u64))
    ensures
        final(out)@ == old(out)@ + bridge_text(x@),
{
    let ghost start = out@;
    push_char(out, '[');
    push_decimal(out, x.0);
    push_char(out, ',');
    push_decimal(out, x.1);
    push_char(out, ',');
    push_decimal(out, x.2.code() as u64);
    push_char(out, ',');
    push_decimal(out, x.3);
    push_char(out, ']');
    assert(out@ =~= start + bridge_text(x@));
}

/// Appends a ledger entry.
pub fn push_sig(out: &mut String, x: &Signature)
    ensures
        final(out)@ == old(out)@ + sig_text(x@),
{
    let ghost start = out@;
    push_char(out, '[');
    push_decimal(out, x.op.code() as u64);
    push_char(out, ',');
    push_num_list(out, &x.inputs);
    push_char(out, ',');
    push_num_list(out, &x.outputs);
    push_char(out, ']');
    assert(out@ =~= start + sig_text(x@));
}

/// Appends a tensor.
pub fn push_tensor(out: &mut String, x: &TypedTensor<u64>)
    ensures
        final(out)@ == old(out)@ + tensor_text(x@),
{
    let ghost start = out@;
    push_char(out, '[');
    push_decimal(out, x.ontic_type);
    push_char(out, ',');
    push_usize_list(out, &x.shape);
    push_char(out, ',');
    push_num_list(out, &x.data);
    push_char(out, ']');
    assert(out@ =~= start + tensor_text(x@));
}

/// Appends a JSON list of ledger entries.
pub fn push_sig_list(out: &mut String, v: &Vec<Signature>)
    ensures
        final(out)@ == old(out)@ + sig_list_text(views(v@)),
{
    let ghost items = (views(v@)).map_values(sig_fn());
    let ghost start = out@;
    push_char(out, '[');
    let mut i: usize = 0;
    while i < v.len()
        invariant
            i <= v@.len(),
            (views(v@)).len() == v@.len(),
            items == (views(v@)).map_values(sig_fn()),
            out@ == start + seq!['['] + joined(items.take(i as int)),
        decreases v@.len() - i,
    {
        proof {
            lemma_joined_step(items, i as int);
        }
        let ghost before = out@;
        if i > 0 {
            push_char(out, ',');
        }
        push_sig(out, &v[i]);
        proof {
            if i == 0 {
                assert(out@ =~= start + seq!['['] + joined(items.take(i + 1)));
            } else {
                assert(out@ =~= start + seq!['['] + joined(items.take(i + 1)));
            }
        }
        i = i + 1;
    }
    proof {
        assert(items.take(i as int) =~= items);
    }
    push_char(out, ']');
    assert(out@ =~= start + sig_list_text(views(v@)));
}

/// Appends a JSON list of tensors.
pub fn push_tensor_list(out: &mut String, v: &Vec<TypedTensor<u64>>)
    ensures
        final(out)@ == old(out)@ + tensor_list_text(views(v@)),
{
    let ghost items = (views(v@)).map_values(tensor_fn());
    let ghost start = out@;
    push_char(out, '[');
    let mut i: usize = 0;
    while i < v.len()
        invariant
            i <= v@.len(),
            (views(v@)).len() == v@.len(),
            items == (views(v@)).map_values(tensor_fn()),
            out@ == start + seq!['['] + joined(items.take(i as int)),
        decreases v@.len() - i,
    {
        proof {
            lemma_joined_step(items, i as int);
        }
        let ghost before = out@;
        if i > 0 {
            push_char(out, ',');
        }
        push_tensor(out, &v[i]);
        proof {
            if i == 0 {
                assert(out@ =~= start + seq!['['] + joined(items.take(i + 1)));
            } else {
                assert(out@ =~= start + seq!['['] + joined(items.take(i + 1)));
            }
        }
        i = i + 1;
    }
    proof {
        assert(items.take(i as int) =~= items);
    }
    push_char(out, ']');
    assert(out@ =~= start + tensor_list_text(views(v@)));
}

} // verus!
