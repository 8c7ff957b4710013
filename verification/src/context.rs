//! The Nexus context: a stack of typed tensors together with a type registry,
//! a consistency ledger, savepoints and a goal.
use vstd::prelude::*;
use crate::types::{
    Adverb, NexusError, Op, TensorModel, TypedTensor, adverb_name, is_default, mismatch_message, mismatch_text, tensor_mapped,
};
use crate::registry::{RegistryModel, TypeRegistry, alias_id, alias_name, bridge_ends, bridge_rule, initial_registry, registry_entries_ok};
use crate::assoc::assoc;
use crate::ledger::{ConsistencyLedger, LedgerMap, LedgerVerdict, entry_key, entry_outputs, ledger_entries_ok, record, verdict_of};
use crate::text::push_decimal;
use crate::json::{chars_of, joined, lemma_joined_step, push_char, push_quoted_str, string_from_chars, views};
use crate::snapshot::{
    ContextParts, PartsModel, parts_text, push_tensor_list, read_parts, saved_fn, saved_list_text, saved_text, tensor_list_text,
};
use crate::ops::{
    total, results_of, first_failure, broadcastable, dyadic, dyadic_pairs, dyadic_shape, fold, fold_fails, folds_to,
    law_scan_steps, law_table_positions, lemma_table_pairs_empty, make_table_pairs, map_with_factor, run_list, scan, scan_run, table_pairs, with_factor,
};

verus! {

/// An identifier of a savepoint, handed out by `savepoint`.
pub type SavepointId = usize;

/// The model of a context.
pub struct ContextModel<T> {
    pub agent_id: u64,
    pub registry: RegistryModel<T>,
    pub ledger: LedgerMap,
    /// The stack, bottom first: the last item is the top.
    pub stack: Seq<TensorModel<T>>,
    /// The snapshots of stack and ledger, oldest first.
    pub savepoints: Seq<(Seq<TensorModel<T>>, LedgerMap)>,
    pub goal: Option<Seq<char>>,
    /// Whether an operation met a ledger contradiction since the last savepoint.
    pub contradicted: bool,
}

impl<T> ContextModel<T> {
    /// This model with another stack.
    pub open spec fn with_stack(self, stack: Seq<TensorModel<T>>) -> Self {
        ContextModel { stack, ..self }
    }
}

/// The model of a new context.
pub open spec fn initial_context<T>(agent_id: u64) -> ContextModel<T> {
    ContextModel {
        agent_id,
        registry: initial_registry(),
        ledger: Map::empty(),
        stack: Seq::empty(),
        savepoints: Seq::empty(),
        goal: None,
        contradicted: false,
    }
}

/// The model of a stack of tensors.
pub open spec fn stack_model<T>(s: Seq<TypedTensor<T>>) -> Seq<TensorModel<T>> {
    s.map_values(|t: TypedTensor<T>| t@)
}

/// The number of items from the top that `pick` takes: one more than the
/// largest index, or none for no index.
pub open spec fn pick_width(idx: Seq<usize>) -> nat
    decreases idx.len(),
{
    if idx.len() == 0 {
        0
    } else {
        let w = pick_width(idx.drop_last());
        if idx.last() + 1 > w {
            (idx.last() + 1) as nat
        } else {
            w
        }
    }
}

/// The stack after `pick(idx)`: the top `pick_width(idx)` items are replaced
/// by the items that `idx` names, counting 0 from the top, `idx[0]` becoming
/// the new top.
pub open spec fn picked<T>(stack: Seq<TensorModel<T>>, idx: Seq<usize>) -> Seq<TensorModel<T>> {
    stack.take(stack.len() - pick_width(idx)) + Seq::new(
        idx.len(),
        |j: int| stack[stack.len() - 1 - idx[idx.len() - 1 - j]],
    )
}

proof fn lemma_pick_width(idx: Seq<usize>)
    ensures
        forall|j: int| 0 <= j < idx.len() ==> idx[j] < pick_width(idx),
        idx.len() > 0 ==> exists|j: int| 0 <= j < idx.len() && idx[j] + 1 == pick_width(idx),
        idx.len() == 0 ==> pick_width(idx) == 0,
    decreases idx.len(),
{
    if idx.len() > 0 {
        let t = idx.drop_last();
        lemma_pick_width(t);
        assert forall|j: int| 0 <= j < idx.len() implies idx[j] < pick_width(idx) by {
            if j < idx.len() - 1 {
                assert(idx[j] == t[j]);
            }
        }
        if idx.last() + 1 > pick_width(t) {
            assert(idx[idx.len() - 1] + 1 == pick_width(idx));
        } else {
            let j = choose|j: int| 0 <= j < t.len() && t[j] + 1 == pick_width(t);
            assert(idx[j] + 1 == pick_width(idx));
        }
    }
}

/// How many items at the top of the stack carry the types declared for them,
/// counting from the top (position `k` from the top meets `expected[n-1-k]`)
/// and stopping at the first that does not; `n` when all do.
pub open spec fn top_match_count<T>(stack: Seq<TensorModel<T>>, expected: Seq<u64>, k: nat) -> nat
    decreases expected.len() - k,
{
    if k >= expected.len() {
        expected.len()
    } else if stack[stack.len() - 1 - k].ontic_type != expected[expected.len() - 1 - k] {
        k
    } else {
        top_match_count(stack, expected, k + 1)
    }
}

/// `got` holds, for each output type in order, a scalar of that type
/// holding a default value.
pub open spec fn default_scalars<T: Default>(types: Seq<u64>, got: Seq<TensorModel<T>>) -> bool {
    &&& got.len() == types.len()
    &&& forall|i: int| #![trigger got[i]] 0 <= i < got.len() ==> got[i].shape.len() == 0 && got[i].ontic_type == types[i]
        && got[i].data.len() == 1 && is_default(got[i].data[0])
}

/// All the items that an operation pops carry their declared types.
pub open spec fn inputs_found<T>(m: ContextModel<T>, ins: Seq<u64>) -> bool {
    m.stack.len() >= ins.len() && top_match_count(m.stack, ins, 0) == ins.len()
}

/// There are enough items, but one of them does not carry its declared type.
pub open spec fn has_mismatch<T>(m: ContextModel<T>, ins: Seq<u64>) -> bool {
    m.stack.len() >= ins.len() && top_match_count(m.stack, ins, 0) < ins.len()
}

/// The text reported for the first item (from the top) whose type is not the
/// declared one.
pub open spec fn mismatch_report<T>(m: ContextModel<T>, ins: Seq<u64>) -> Seq<char> {
    let k = top_match_count(m.stack, ins, 0);
    mismatch_text(ins[ins.len() - 1 - k], m.stack[m.stack.len() - 1 - k].ontic_type)
}

/// The stack after a type mismatch: the items popped up to and including the
/// mismatching one are gone.
pub open spec fn stack_after_mismatch<T>(m: ContextModel<T>, ins: Seq<u64>) -> Seq<TensorModel<T>> {
    m.stack.take(m.stack.len() - 1 - top_match_count(m.stack, ins, 0))
}

/// The signature has two inputs and one output, the case that computes.
pub open spec fn is_dyadic(ins: Seq<u64>, outs: Seq<u64>) -> bool {
    ins.len() == 2 && outs.len() == 1
}

/// The left operand of a dyadic verb: the item below the top.
pub open spec fn lhs<T>(m: ContextModel<T>) -> TensorModel<T> {
    m.stack[m.stack.len() - 2]
}

/// The right operand of a dyadic verb: the top item.
pub open spec fn rhs<T>(m: ContextModel<T>) -> TensorModel<T> {
    m.stack[m.stack.len() - 1]
}

/// The model after a successful operation: the ledger has judged the
/// signature, and a contradiction is remembered until the next savepoint.
pub open spec fn after_verdict<T>(m: ContextModel<T>, stack: Seq<TensorModel<T>>, op: Op, ins: Seq<u64>, outs: Seq<u64>) -> ContextModel<T> {
    ContextModel {
        stack,
        ledger: record(m.ledger, op, ins, outs),
        contradicted: m.contradicted || verdict_of(m.ledger, op, ins, outs) is Contradiction,
        ..m
    }
}

/// The text of the error for an adverb that is not implemented.
pub open spec fn not_implemented_text(adverb: Adverb) -> Seq<char> {
    adverb_name(adverb) + " not fully implemented"@
}

/// The model with a new savepoint holding its stack and ledger; no
/// contradiction is pending afterwards.
pub open spec fn with_savepoint<T>(m: ContextModel<T>) -> ContextModel<T> {
    ContextModel { savepoints: m.savepoints.push((m.stack, m.ledger)), contradicted: false, ..m }
}

/// The model rolled back to savepoint `to`: its stack and ledger come back,
/// the later savepoints are dropped, and no contradiction is pending. An
/// unknown savepoint changes nothing.
pub open spec fn rolled_back<T>(m: ContextModel<T>, to: int) -> ContextModel<T> {
    if 0 <= to < m.savepoints.len() {
        ContextModel {
            stack: m.savepoints[to].0,
            ledger: m.savepoints[to].1,
            savepoints: m.savepoints.take(to + 1),
            contradicted: false,
            ..m
        }
    } else {
        m
    }
}

/// The model rolled back to its latest savepoint, if it has one.
pub open spec fn rolled_back_to_last<T>(m: ContextModel<T>) -> ContextModel<T> {
    rolled_back(m, m.savepoints.len() - 1)
}

/// The text of the error of a failed consistency assertion.
pub open spec fn contradiction_text() -> Seq<char> {
    "Ledger contradiction since the last savepoint"@
}

/// The text of the error for a scan declared with other than one input
/// type and one output type.
pub open spec fn scan_arity_text() -> Seq<char> {
    "Scan takes one input type and one output type"@
}

/// The text of the error for a table declared with other than two input
/// types and one output type.
pub open spec fn table_arity_text() -> Seq<char> {
    "Table takes two input types and one output type"@
}

/// What `Scan` does. It needs one input type and one output type. It takes
/// the top item, checked against the input type as `apply` checks, and
/// pushes the running prefix of the left fold of its data under `exec` (one
/// value per element; nothing to compute for empty data), with the item's
/// shape and the output type; the ledger then judges the signature. When
/// the arithmetic fails, the item is gone.
pub open spec fn scan_outcome<T, F: Fn(Op, T, T) -> Result<T, NexusError>>(
    exec: F,
    op: Op,
    ins: Seq<u64>,
    outs: Seq<u64>,
    m: ContextModel<T>,
    f: ContextModel<T>,
    r: Result<LedgerVerdict, NexusError>,
) -> bool {
    &&& (ins.len() != 1 || outs.len() != 1) ==> (r matches Err(NexusError::ExecutionError(msg)) && msg@
        == scan_arity_text()) && f == m
    &&& (ins.len() == 1 && outs.len() == 1 && m.stack.len() == 0) ==> (r matches Err(NexusError::StackUnderflow))
        && f == m
    &&& (ins.len() == 1 && outs.len() == 1 && has_mismatch(m, ins)) ==> (r matches Err(NexusError::ExecutionError(msg))
        && msg@ == mismatch_report(m, ins)) && f == m.with_stack(stack_after_mismatch(m, ins))
    &&& (ins.len() == 1 && outs.len() == 1 && inputs_found(m, ins) && m.stack.last().data.len() == 0) ==> r is Ok
    &&& (ins.len() == 1 && outs.len() == 1 && inputs_found(m, ins)) ==> (r matches Err(e) ==> fold_fails(
        exec,
        op,
        m.stack.last().data,
        e,
    ) && f == m.with_stack(m.stack.drop_last()))
    &&& (ins.len() == 1 && outs.len() == 1 && inputs_found(m, ins) && r is Ok) ==> f == after_verdict(
        m,
        m.stack.drop_last().push(
            TensorModel { data: f.stack.last().data, shape: m.stack.last().shape, ontic_type: outs[0] },
        ),
        op,
        ins,
        outs,
    ) && scan_run(exec, op, m.stack.last().data, f.stack.last().data)
}

/// What `Table` does. It needs two input types and one output type. It
/// takes the two top items, checked against the input types as `apply`
/// checks, and pushes their outer product under `exec`: each element of the
/// lower item, in order, meets every element of the top item, in order
/// (nothing to compute when either is empty); the result has shape
/// `[lower length, top length]` and the output type, and the ledger then
/// judges the signature. When the arithmetic fails, both items are gone.
pub open spec fn table_outcome<T, F: Fn(Op, T, T) -> Result<T, NexusError>>(
    exec: F,
    op: Op,
    ins: Seq<u64>,
    outs: Seq<u64>,
    m: ContextModel<T>,
    f: ContextModel<T>,
    r: Result<LedgerVerdict, NexusError>,
) -> bool {
    &&& (ins.len() != 2 || outs.len() != 1) ==> (r matches Err(NexusError::ExecutionError(msg)) && msg@
        == table_arity_text()) && f == m
    &&& (ins.len() == 2 && outs.len() == 1 && m.stack.len() < 2) ==> (r matches Err(NexusError::StackUnderflow))
        && f == m
    &&& (ins.len() == 2 && outs.len() == 1 && has_mismatch(m, ins)) ==> (r matches Err(NexusError::ExecutionError(msg))
        && msg@ == mismatch_report(m, ins)) && f == m.with_stack(stack_after_mismatch(m, ins))
    &&& (ins.len() == 2 && outs.len() == 1 && inputs_found(m, ins) && (lhs(m).data.len() == 0 || rhs(m).data.len()
        == 0)) ==> r is Ok
    &&& (ins.len() == 2 && outs.len() == 1 && inputs_found(m, ins)) ==> (r matches Err(e) ==> first_failure(
        exec,
        op,
        table_pairs(lhs(m).data, rhs(m).data),
        e,
    ) && f == m.with_stack(m.stack.drop_last().drop_last()))
    &&& (ins.len() == 2 && outs.len() == 1 && inputs_found(m, ins) && r is Ok) ==> f == after_verdict(
        m,
        m.stack.drop_last().drop_last().push(
            TensorModel {
                data: f.stack.last().data,
                shape: seq![lhs(m).data.len() as usize, rhs(m).data.len() as usize],
                ontic_type: outs[0],
            },
        ),
        op,
        ins,
        outs,
    ) && results_of(exec, op, table_pairs(lhs(m).data, rhs(m).data), f.stack.last().data)
}

/// `b` is the stack `a` with every element mapped through `g`.
pub open spec fn stack_mapped<T, U, G: Fn(T) -> U>(a: Seq<TensorModel<T>>, b: Seq<TensorModel<U>>, g: G) -> bool {
    &&& b.len() == a.len()
    &&& forall|i: int| 0 <= i < a.len() ==> tensor_mapped(a[i], #[trigger] b[i], g)
}

/// `b` is the context `a` with every tensor element (on the stack and in
/// the savepoints) and every bridge factor mapped through `g`; everything
/// else is the same.
pub open spec fn context_mapped<T, U, G: Fn(T) -> U>(a: ContextModel<T>, b: ContextModel<U>, g: G) -> bool {
    &&& b.agent_id == a.agent_id
    &&& b.registry.aliases == a.registry.aliases
    &&& b.registry.next_auto_id == a.registry.next_auto_id
    &&& b.registry.bridges.dom() == a.registry.bridges.dom()
    &&& forall|k: (u64, u64)| #[trigger] a.registry.bridges.contains_key(k) ==> b.registry.bridges[k].0
        == a.registry.bridges[k].0 && call_ensures(g, (a.registry.bridges[k].1,), b.registry.bridges[k].1)
    &&& b.ledger == a.ledger
    &&& stack_mapped(a.stack, b.stack, g)
    &&& b.savepoints.len() == a.savepoints.len()
    &&& forall|i: int| 0 <= i < a.savepoints.len() ==> stack_mapped(a.savepoints[i].0, (#[trigger] b.savepoints[i]).0, g)
        && b.savepoints[i].1 == a.savepoints[i].1
    &&& b.goal == a.goal
    &&& b.contradicted == a.contradicted
}

/// A stack with every element mapped through `g`.
fn map_stack<T: Copy, U, G: Fn(T) -> U>(s: &Vec<TypedTensor<T>>, g: &G) -> (r: Vec<TypedTensor<U>>)
    requires
        forall|x: T| call_requires(*g, (x,)),
    ensures
        stack_mapped(stack_model(s@), stack_model(r@), *g),
{
    let mut r: Vec<TypedTensor<U>> = Vec::with_capacity(s.len());
    let mut i: usize = 0;
    while i < s.len()
        invariant
            i <= s@.len(),
            r@.len() == i,
            forall|x: T| call_requires(*g, (x,)),
            forall|j: int| 0 <= j < i ==> tensor_mapped(s@[j]@, (#[trigger] r@[j])@, *g),
        decreases s@.len() - i,
    {
        let t = s[i].map_data(g);
        r.push(t);
        i = i + 1;
    }
    proof {
        assert forall|j: int| 0 <= j < s@.len() implies tensor_mapped(stack_model(s@)[j], #[trigger] stack_model(r@)[j], *g) by {
            assert(stack_model(s@)[j] == s@[j]@);
            assert(stack_model(r@)[j] == r@[j]@);
        }
    }
    r
}

/// The computation context.
pub struct NexusContext<T> {
    pub agent_id: u64,
    registry: TypeRegistry<T>,
    ledger: ConsistencyLedger,
    stack: Vec<TypedTensor<T>>,
    savepoints: Vec<(Vec<TypedTensor<T>>, ConsistencyLedger)>,
    goal_text: Option<String>,
    contradicted: bool,
}

impl<T> View for NexusContext<T> {
    type V = ContextModel<T>;

    closed spec fn view(&self) -> ContextModel<T> {
        ContextModel {
            agent_id: self.agent_id,
            registry: self.registry@,
            ledger: self.ledger@,
            stack: stack_model(self.stack@),
            savepoints: self.savepoints@.map_values(
                |p: (Vec<TypedTensor<T>>, ConsistencyLedger)| (stack_model(p.0@), p.1@),
            ),
            goal: match self.goal_text {
                Some(g) => Some(g@),
                None => None,
            },
            contradicted: self.contradicted,
        }
    }
}

impl<T: Copy + Default> NexusContext<T> {
    /// The context's validity: its registry and ledgers are valid.
    pub closed spec fn wf(&self) -> bool {
        &&& self.registry.wf()
        &&& self.ledger.wf()
        &&& forall|i: int| 0 <= i < self.savepoints@.len() ==> (#[trigger] self.savepoints@[i]).1.wf()
    }

    /// A new context with the built-in types, an empty ledger and an empty stack.
    pub fn new(agent_id: u64) -> (c: Self)
        ensures
            c.wf(),
            c@ == initial_context::<T>(agent_id),
    {
        let c = NexusContext {
            agent_id,
            registry: TypeRegistry::new(),
            ledger: ConsistencyLedger::new(),
            stack: Vec::new(),
            savepoints: Vec::new(),
            goal_text: None,
            contradicted: false,
        };
        proof {
            assert(stack_model(c.stack@) =~= Seq::<TensorModel<T>>::empty());
            assert(c@.savepoints =~= Seq::<(Seq<TensorModel<T>>, LedgerMap)>::empty());
        }
        c
    }

    /// The type registry.
    pub fn registry(&self) -> (r: &TypeRegistry<T>)
        requires
            self.wf(),
        ensures
            r.wf(),
            r@ == self@.registry,
    {
        &self.registry
    }

    /// The type registry, for changes.
    pub fn registry_mut(&mut self) -> (r: &mut TypeRegistry<T>)
        requires
            old(self).wf(),
        ensures
            r.wf(),
            r@ == old(self)@.registry,
            final(self)@ == (ContextModel { registry: final(r)@, ..old(self)@ }),
            final(r).wf() ==> final(self).wf(),
    {
        &mut self.registry
    }

    /// The consistency ledger, for checks made by hand.
    pub fn ledger(&mut self) -> (r: &mut ConsistencyLedger)
        requires
            old(self).wf(),
        ensures
            r.wf(),
            r@ == old(self)@.ledger,
            final(self)@ == (ContextModel { ledger: final(r)@, ..old(self)@ }),
            final(r).wf() ==> final(self).wf(),
    {
        &mut self.ledger
    }

    /// Pushes a tensor.
    pub fn push_tensor(&mut self, data: Vec<T>, shape: Vec<usize>, ontic_type: u64)
        requires
            old(self).wf(),
        ensures
            final(self).wf(),
            final(self)@ == old(self)@.with_stack(
                old(self)@.stack.push(TensorModel { data: data@, shape: shape@, ontic_type }),
            ),
    {
        let ghost old_stack = self.stack@;
        self.stack.push(TypedTensor { data, shape, ontic_type });
        proof {
            assert(stack_model(self.stack@) =~= stack_model(old_stack).push(
                TensorModel { data: data@, shape: shape@, ontic_type },
            ));
        }
    }

    /// Pushes a scalar: a tensor of shape `[]` holding one value.
    pub fn push_scalar(&mut self, value: T, ontic_type: u64)
        requires
            old(self).wf(),
        ensures
            final(self).wf(),
            final(self)@ == old(self)@.with_stack(
                old(self)@.stack.push(TensorModel { data: seq![value], shape: Seq::empty(), ontic_type }),
            ),
    {
        let mut data: Vec<T> = Vec::new();
        data.push(value);
        self.push_tensor(data, Vec::new(), ontic_type);
        proof {
            assert(data@ =~= seq![value]);
        }
    }

    /// Removes and returns the top of the stack.
    pub fn pop(&mut self) -> (r: Result<TypedTensor<T>, NexusError>)
        requires
            old(self).wf(),
        ensures
            final(self).wf(),
            old(self)@.stack.len() == 0 ==> (r matches Err(NexusError::StackUnderflow)) && final(self)@ == old(self)@,
            old(self)@.stack.len() > 0 ==> (r matches Ok(t) && t@ == old(self)@.stack.last())
                && final(self)@ == old(self)@.with_stack(old(self)@.stack.drop_last()),
    {
        let ghost old_stack = self.stack@;
        match self.stack.pop() {
            Some(t) => {
                proof {
                    assert(stack_model(self.stack@) =~= stack_model(old_stack).drop_last());
                }
                Ok(t)
            },
            None => Err(NexusError::StackUnderflow),
        }
    }

    /// The top of the stack, left in place.
    pub fn peek(&self) -> (r: Result<&TypedTensor<T>, NexusError>)
        ensures
            self@.stack.len() == 0 ==> r matches Err(NexusError::StackUnderflow),
            self@.stack.len() > 0 ==> (r matches Ok(t) && t@ == self@.stack.last()),
    {
        let n = self.stack.len();
        if n == 0 {
            Err(NexusError::StackUnderflow)
        } else {
            Ok(&self.stack[n - 1])
        }
    }

    /// The number of items on the stack.
    pub fn stack_depth(&self) -> (n: usize)
        ensures
            n == self@.stack.len(),
    {
        self.stack.len()
    }

    /// Rearranges the top of the stack. Takes the `max(indices) + 1` items
    /// at the top (index 0 is the top) and pushes back the items that
    /// `indices` names, `indices[0]` ending on top: `[0, 0]` duplicates the
    /// top, `[1, 0]` swaps the top two, `[2, 0, 1]` rotates the top three.
    pub fn pick(&mut self, indices: &[usize]) -> (r: Result<(), NexusError>)
        requires
            old(self).wf(),
        ensures
            final(self).wf(),
            pick_width(indices@) > old(self)@.stack.len() ==> (r matches Err(NexusError::StackUnderflow))
                && final(self)@ == old(self)@,
            pick_width(indices@) <= old(self)@.stack.len() ==> r is Ok && final(self)@ == old(self)@.with_stack(
                picked(old(self)@.stack, indices@),
            ),
    {
        let ghost old_self = self@;
        proof { lemma_pick_width(indices@); }
        let len = self.stack.len();
        let mut w: usize = 0;
        let mut j: usize = 0;
        while j < indices.len()
            invariant
                self.wf(),
                self@ == old_self,
                len == self.stack@.len(),
                j <= indices@.len(),
                w == pick_width(indices@.take(j as int)),
                w <= len,
            decreases indices@.len() - j,
        {
            proof { lemma_pick_width(indices@); }
            if indices[j] >= len {
                return Err(NexusError::StackUnderflow);
            }
            if indices[j] + 1 > w {
                w = indices[j] + 1;
            }
            assert(indices@.take(j + 1).drop_last() == indices@.take(j as int));
            j = j + 1;
        }
        assert(indices@.take(j as int) == indices@);
        let k = indices.len();
        let mut extra: Vec<TypedTensor<T>> = Vec::with_capacity(k);
        let mut i: usize = 0;
        while i < k
            invariant
                len == self.stack@.len(),
                k == indices@.len(),
                w == pick_width(indices@),
                w <= len,
                forall|q: int| 0 <= q < k ==> indices@[q] < w,
                i <= k,
                extra@.len() == i,
                self@ == old_self,
                forall|q: int| 0 <= q < i ==> (#[trigger] extra@[q])@ == old_self.stack[len - 1 - indices@[k - 1 - q]],
            decreases k - i,
        {
            let pos = len - 1 - indices[k - 1 - i];
            let t = self.stack[pos].duplicate();
            extra.push(t);
            i = i + 1;
        }
        let ghost old_stack = self.stack@;
        self.stack.truncate(len - w);
        self.stack.append(&mut extra);
        proof {
            assert(stack_model(self.stack@) =~= picked(old_self.stack, indices@));
        }
        Ok(())
    }

    /// Discards the top of the stack.
    pub fn drop_top(&mut self) -> (r: Result<(), NexusError>)
        requires
            old(self).wf(),
        ensures
            final(self).wf(),
            old(self)@.stack.len() == 0 ==> (r matches Err(NexusError::StackUnderflow)) && final(self)@ == old(self)@,
            old(self)@.stack.len() > 0 ==> r is Ok && final(self)@ == old(self)@.with_stack(old(self)@.stack.drop_last()),
    {
        match self.pop() {
            Ok(_) => Ok(()),
            Err(e) => Err(e),
        }
    }

    fn judge(&mut self, op: Op, inputs: &[u64], outputs: &[u64]) -> (v: LedgerVerdict)
        requires
            old(self).wf(),
        ensures
            final(self).wf(),
            final(self)@ == after_verdict(old(self)@, old(self)@.stack, op, inputs@, outputs@),
            v@ == verdict_of(old(self)@.ledger, op, inputs@, outputs@),
            v matches LedgerVerdict::Contradiction(sig) ==> sig.op == op && sig.inputs@ == inputs@,
    {
        let v = self.ledger.check(op, inputs, outputs);
        match &v {
            LedgerVerdict::Contradiction(_) => {
                self.contradicted = true;
            },
            _ => {},
        }
        v
    }

    /// Checks the top items against the declared input types, from the top
    /// down; on a mismatch, the items up to and including the mismatching
    /// one are gone.
    fn check_inputs(&mut self, expected_inputs: &[u64]) -> (r: Result<(), NexusError>)
        requires
            old(self).wf(),
        ensures
            final(self).wf(),
            old(self)@.stack.len() < expected_inputs@.len() ==> (r matches Err(NexusError::StackUnderflow))
                && final(self)@ == old(self)@,
            has_mismatch(old(self)@, expected_inputs@) ==> (r matches Err(NexusError::ExecutionError(msg))
                && msg@ == mismatch_report(old(self)@, expected_inputs@))
                && final(self)@ == old(self)@.with_stack(stack_after_mismatch(old(self)@, expected_inputs@)),
            inputs_found(old(self)@, expected_inputs@) ==> r is Ok && final(self)@ == old(self)@,
            r is Ok ==> inputs_found(old(self)@, expected_inputs@) && final(self)@ == old(self)@,
    {
        let ghost m = self@;
        let n = expected_inputs.len();
        let len = self.stack.len();
        if len < n {
            return Err(NexusError::StackUnderflow);
        }
        let mut k: usize = 0;
        while k < n
            invariant
                self@ == m,
                m == old(self)@,
                self.wf(),
                n == expected_inputs@.len(),
                len == m.stack.len(),
                len >= n,
                k <= n,
                top_match_count(m.stack, expected_inputs@, 0) == top_match_count(m.stack, expected_inputs@, k as nat),
            decreases n - k,
        {
            let found = self.stack[len - 1 - k].ontic_type;
            let want = expected_inputs[n - 1 - k];
            if found != want {
                proof {
                    assert(m.stack[len - 1 - k].ontic_type == found);
                    assert(top_match_count(m.stack, expected_inputs@, k as nat) == k);
                }
                self.stack.truncate(len - 1 - k);
                proof {
                    assert(stack_model(self.stack@) =~= m.stack.take(len - 1 - k));
                }
                return Err(NexusError::ExecutionError(mismatch_message(want, found)));
            }
            proof {
                assert(m.stack[len - 1 - k].ontic_type == found);
            }
            k = k + 1;
        }
        assert(top_match_count(m.stack, expected_inputs@, 0) == n);
        Ok(())
    }

    fn scan_top<F: Fn(Op, T, T) -> Result<T, NexusError>>(
        &mut self,
        op: Op,
        expected_inputs: &[u64],
        outputs: &[u64],
        exec: F,
    ) -> (r: Result<LedgerVerdict, NexusError>)
        requires
            old(self).wf(),
            total(exec),
        ensures
            final(self).wf(),
            scan_outcome(exec, op, expected_inputs@, outputs@, old(self)@, final(self)@, r),
            r matches Ok(v) ==> v@ == verdict_of(old(self)@.ledger, op, expected_inputs@, outputs@),
            r matches Ok(LedgerVerdict::Contradiction(sig)) ==> sig.op == op && sig.inputs@ == expected_inputs@,
    {
        if expected_inputs.len() != 1 || outputs.len() != 1 {
            return Err(NexusError::ExecutionError("Scan takes one input type and one output type".to_owned()));
        }
        let ghost m = self@;
        match self.check_inputs(expected_inputs) {
            Ok(()) => {},
            Err(e) => {
                return Err(e);
            },
        }
        let t = match self.pop() {
            Ok(t) => t,
            Err(e) => {
                return Err(e);
            },
        };
        match scan(op, t.data.as_slice(), &exec) {
            Ok(out) => {
                let ghost got = out@;
                self.push_tensor(out, t.shape, outputs[0]);
                proof {
                    assert(self@.stack.last().data == got);
                    assert(self@.stack =~= m.stack.drop_last().push(
                        TensorModel { data: got, shape: m.stack.last().shape, ontic_type: outputs@[0] },
                    ));
                }
            },
            Err(e) => {
                return Err(e);
            },
        }
        let v = self.judge(op, expected_inputs, outputs);
        Ok(v)
    }

    fn table_top<F: Fn(Op, T, T) -> Result<T, NexusError>>(
        &mut self,
        op: Op,
        expected_inputs: &[u64],
        outputs: &[u64],
        exec: F,
    ) -> (r: Result<LedgerVerdict, NexusError>)
        requires
            old(self).wf(),
            total(exec),
        ensures
            final(self).wf(),
            table_outcome(exec, op, expected_inputs@, outputs@, old(self)@, final(self)@, r),
            r matches Ok(v) ==> v@ == verdict_of(old(self)@.ledger, op, expected_inputs@, outputs@),
            r matches Ok(LedgerVerdict::Contradiction(sig)) ==> sig.op == op && sig.inputs@ == expected_inputs@,
    {
        if expected_inputs.len() != 2 || outputs.len() != 1 {
            return Err(NexusError::ExecutionError("Table takes two input types and one output type".to_owned()));
        }
        let ghost m = self@;
        match self.check_inputs(expected_inputs) {
            Ok(()) => {},
            Err(e) => {
                return Err(e);
            },
        }
        let len = self.stack.len();
        assert(self.stack@[len - 2]@ == lhs(m));
        assert(self.stack@[len - 1]@ == rhs(m));
        let pairs = make_table_pairs(self.stack[len - 2].data.as_slice(), self.stack[len - 1].data.as_slice());
        let na = self.stack[len - 2].data.len();
        let nb = self.stack[len - 1].data.len();
        self.stack.truncate(len - 2);
        proof {
            assert(stack_model(self.stack@) =~= m.stack.drop_last().drop_last());
        }
        match run_list(op, &pairs, &exec) {
            Ok(out) => {
                let ghost got = out@;
                let mut shape: Vec<usize> = Vec::new();
                shape.push(na);
                shape.push(nb);
                self.push_tensor(out, shape, outputs[0]);
                proof {
                    assert(shape@ =~= seq![lhs(m).data.len() as usize, rhs(m).data.len() as usize]);
                    assert(self@.stack.last().data == got);
                    assert(self@.stack =~= m.stack.drop_last().drop_last().push(
                        TensorModel {
                            data: got,
                            shape: seq![lhs(m).data.len() as usize, rhs(m).data.len() as usize],
                            ontic_type: outputs@[0],
                        },
                    ));
                }
            },
            Err(e) => {
                proof {
                    if lhs(m).data.len() == 0 || rhs(m).data.len() == 0 {
                        lemma_table_pairs_empty(lhs(m).data, rhs(m).data);
                    }
                }
                return Err(e);
            },
        }
        let v = self.judge(op, expected_inputs, outputs);
        Ok(v)
    }

    /// Applies a verb. Pops one value per declared input type, checking each
    /// against its declared type; for two inputs and one output, computes the
    /// element-wise result with `exec` (a scalar meets every element of the
    /// other side; two tensors must have one shape) and pushes it with the
    /// declared output type; otherwise pushes one default scalar per output
    /// type. The ledger then judges the signature.
    pub fn apply<F: Fn(Op, T, T) -> Result<T, NexusError>>(
        &mut self,
        op: Op,
        expected_inputs: &[u64],
        outputs: &[u64],
        exec: F,
    ) -> (r: Result<LedgerVerdict, NexusError>)
        requires
            old(self).wf(),
            total(exec),
        ensures
            final(self).wf(),
            old(self)@.stack.len() < expected_inputs@.len() ==> (r matches Err(NexusError::StackUnderflow))
                && final(self)@ == old(self)@,
            has_mismatch(old(self)@, expected_inputs@) ==> (r matches Err(NexusError::ExecutionError(msg))
                && msg@ == mismatch_report(old(self)@, expected_inputs@))
                && final(self)@ == old(self)@.with_stack(stack_after_mismatch(old(self)@, expected_inputs@)),
            inputs_found(old(self)@, expected_inputs@) && is_dyadic(expected_inputs@, outputs@)
                && !broadcastable(lhs(old(self)@), rhs(old(self)@)) ==> (r matches Err(
                NexusError::ShapeMismatch(s1, s2),
            ) && s1@ == lhs(old(self)@).shape && s2@ == rhs(old(self)@).shape) && final(self)@ == old(
                self,
            )@.with_stack(old(self)@.stack.drop_last().drop_last()),
            inputs_found(old(self)@, expected_inputs@) && is_dyadic(expected_inputs@, outputs@)
                && broadcastable(lhs(old(self)@), rhs(old(self)@)) ==> (r matches Err(e) ==> (exists|d: T|
                is_default(d) && first_failure(exec, op, dyadic_pairs(lhs(old(self)@), rhs(old(self)@), d), e))
                && final(self)@ == old(self)@.with_stack(old(self)@.stack.drop_last().drop_last())),
            inputs_found(old(self)@, expected_inputs@) && is_dyadic(expected_inputs@, outputs@)
                && broadcastable(lhs(old(self)@), rhs(old(self)@)) && r is Ok ==> final(self)@ == after_verdict(
                old(self)@,
                old(self)@.stack.drop_last().drop_last().push(final(self)@.stack.last()),
                op,
                expected_inputs@,
                outputs@,
            ) && final(self)@.stack.last().shape == dyadic_shape(lhs(old(self)@), rhs(old(self)@))
                && final(self)@.stack.last().ontic_type == outputs@[0] && (exists|d: T|
                is_default(d) && results_of(
                exec,
                op,
                dyadic_pairs(lhs(old(self)@), rhs(old(self)@), d),
                final(self)@.stack.last().data,
            )),
            inputs_found(old(self)@, expected_inputs@) && !is_dyadic(expected_inputs@, outputs@) ==> r is Ok
                && final(self)@ == after_verdict(old(self)@, final(self)@.stack, op, expected_inputs@, outputs@)
                && final(self)@.stack.take(old(self)@.stack.len() - expected_inputs@.len()) == old(
                self,
            )@.stack.take(old(self)@.stack.len() - expected_inputs@.len()) && default_scalars(
                outputs@,
                final(self)@.stack.skip(old(self)@.stack.len() - expected_inputs@.len()),
            ),
            r matches Ok(v) ==> v@ == verdict_of(old(self)@.ledger, op, expected_inputs@, outputs@),
            r matches Ok(LedgerVerdict::Contradiction(sig)) ==> sig.op == op && sig.inputs@ == expected_inputs@,
    {
        let ghost m = self@;
        let n = expected_inputs.len();
        match self.check_inputs(expected_inputs) {
            Ok(()) => {},
            Err(e) => {
                return Err(e);
            },
        }
        let len = self.stack.len();
        assert(top_match_count(m.stack, expected_inputs@, 0) == n);
        let d = T::default();
        assert(is_default(d));
        if n == 2 && outputs.len() == 1 {
            assert(self.stack@[len - 2]@ == lhs(m));
            assert(self.stack@[len - 1]@ == rhs(m));
            let res = dyadic(op, &self.stack[len - 2], &self.stack[len - 1], d, &exec);
            self.stack.truncate(len - 2);
            proof {
                assert(stack_model(self.stack@) =~= m.stack.take(len - 2));
                assert(m.stack.take(len - 2) =~= m.stack.drop_last().drop_last());
            }
            match res {
                Ok((data, shape)) => {
                    let ghost out = data@;
                    self.push_tensor(data, shape, outputs[0]);
                    proof {
                        assert(is_default(d) && results_of(exec, op, dyadic_pairs(lhs(m), rhs(m), d), out));
                        assert(self@.stack.last().data == out);
                        assert(self@.stack =~= m.stack.drop_last().drop_last().push(self@.stack.last()));
                    }
                },
                Err(e) => {
                    proof {
                        if broadcastable(lhs(m), rhs(m)) {
                            assert(is_default(d) && first_failure(exec, op, dyadic_pairs(lhs(m), rhs(m), d), e));
                        }
                    }
                    return Err(e);
                },
            }
        } else {
            self.stack.truncate(len - n);
            proof {
                assert(stack_model(self.stack@) =~= m.stack.take(len - n));
            }
            let mut i: usize = 0;
            while i < outputs.len()
                invariant
                    self.wf(),
                    len >= n,
                    i <= outputs@.len(),
                    is_default(d),
                    self@ == m.with_stack(self@.stack),
                    self@.stack.len() == len - n + i,
                    self@.stack.take(len - n) == m.stack.take(len - n),
                    default_scalars(outputs@.take(i as int), self@.stack.skip(len - n)),
                decreases outputs@.len() - i,
            {
                let ghost before = self@.stack;
                self.push_scalar(d, outputs[i]);
                proof {
                    assert(self@.stack.take(len - n) =~= before.take(len - n));
                    let got = self@.stack.skip(len - n);
                    assert(got =~= before.skip(len - n).push(self@.stack.last()));
                    assert(outputs@.take(i + 1) =~= outputs@.take(i as int).push(outputs@[i as int]));
                    assert forall|q: int| #![trigger got[q]] 0 <= q < got.len() implies got[q].shape.len() == 0
                        && got[q].ontic_type == outputs@.take(i + 1)[q] && got[q].data.len() == 1
                        && is_default(got[q].data[0]) by {
                        if q < i {
                            assert(got[q] == before.skip(len - n)[q]);
                        }
                    }
                }
                i = i + 1;
            }
            proof {
                assert(outputs@.take(i as int) =~= outputs@);
            }
        }
        let ghost mid = self@;
        let v = self.judge(op, expected_inputs, outputs);
        Ok(v)
    }

    /// Applies an adverb to a verb. `Reduce` pops a tensor of the declared
    /// input type, folds its data from the left with `exec`, pushes the
    /// result as a scalar of the declared output type, and lets the ledger
    /// judge the signature. `Scan` and `Table` do what `scan_outcome` and
    /// `table_outcome` say. `Each` is refused.
    pub fn apply_adverb<F: Fn(Op, T, T) -> Result<T, NexusError>>(
        &mut self,
        adverb: Adverb,
        op: Op,
        expected_inputs: &[u64],
        outputs: &[u64],
        exec: F,
    ) -> (r: Result<LedgerVerdict, NexusError>)
        requires
            old(self).wf(),
            total(exec),
            adverb == Adverb::Reduce && old(self)@.stack.len() > 0 ==> expected_inputs@.len() >= 1,
            adverb == Adverb::Reduce && old(self)@.stack.len() > 0 && old(self)@.stack.last().ontic_type
                == expected_inputs@[0] && old(self)@.stack.last().data.len() > 0 && (exists|v: T| folds_to(
                exec,
                op,
                old(self)@.stack.last().data,
                v,
            )) ==> outputs@.len() >= 1,
        ensures
            final(self).wf(),
            adverb == Adverb::Each ==> (r matches Err(NexusError::ExecutionError(msg)) && msg@ == not_implemented_text(
                adverb,
            )) && final(self)@ == old(self)@,
            adverb == Adverb::Scan ==> scan_outcome(exec, op, expected_inputs@, outputs@, old(self)@, final(self)@, r),
            adverb == Adverb::Table ==> table_outcome(exec, op, expected_inputs@, outputs@, old(self)@, final(self)@, r),
            adverb == Adverb::Reduce && old(self)@.stack.len() == 0 ==> (r matches Err(NexusError::StackUnderflow))
                && final(self)@ == old(self)@,
            adverb == Adverb::Reduce && old(self)@.stack.len() > 0 && old(self)@.stack.last().ontic_type
                != expected_inputs@[0] ==> (r matches Err(NexusError::ExecutionError(msg)) && msg@ == "Type mismatch"@)
                && final(self)@ == old(self)@.with_stack(old(self)@.stack.drop_last()),
            adverb == Adverb::Reduce && old(self)@.stack.len() > 0 && old(self)@.stack.last().ontic_type
                == expected_inputs@[0] && old(self)@.stack.last().data.len() == 0 ==> (r matches Err(
                NexusError::ExecutionError(msg),
            ) && msg@ == "Reduce on empty array"@) && final(self)@ == old(self)@.with_stack(
                old(self)@.stack.drop_last(),
            ),
            adverb == Adverb::Reduce && old(self)@.stack.len() > 0 && old(self)@.stack.last().ontic_type
                == expected_inputs@[0] && old(self)@.stack.last().data.len() > 0 ==> (r matches Err(e) ==> fold_fails(
                exec,
                op,
                old(self)@.stack.last().data,
                e,
            ) && final(self)@ == old(self)@.with_stack(old(self)@.stack.drop_last())),
            adverb == Adverb::Reduce && old(self)@.stack.len() > 0 && old(self)@.stack.last().ontic_type
                == expected_inputs@[0] && old(self)@.stack.last().data.len() > 0 && r is Ok ==> final(self)@
                == after_verdict(
                old(self)@,
                old(self)@.stack.drop_last().push(final(self)@.stack.last()),
                op,
                expected_inputs@,
                outputs@,
            ) && final(self)@.stack.last().shape.len() == 0 && final(self)@.stack.last().ontic_type == outputs@[0]
                && final(self)@.stack.last().data.len() == 1 && folds_to(
                exec,
                op,
                old(self)@.stack.last().data,
                final(self)@.stack.last().data[0],
            ),
            r matches Ok(v) ==> v@ == verdict_of(old(self)@.ledger, op, expected_inputs@, outputs@),
            r matches Ok(LedgerVerdict::Contradiction(sig)) ==> sig.op == op && sig.inputs@ == expected_inputs@,
    {
        if adverb == Adverb::Scan {
            return self.scan_top(op, expected_inputs, outputs, exec);
        }
        if adverb == Adverb::Table {
            return self.table_top(op, expected_inputs, outputs, exec);
        }
        if adverb != Adverb::Reduce {
            let mut msg = String::new();
            msg.append(adverb.name());
            msg.append(" not fully implemented");
            return Err(NexusError::ExecutionError(msg));
        }
        let ghost m = self@;
        let t = match self.pop() {
            Ok(t) => t,
            Err(e) => {
                return Err(e);
            },
        };
        if t.ontic_type != expected_inputs[0] {
            return Err(NexusError::ExecutionError("Type mismatch".to_owned()));
        }
        if t.data.len() == 0 {
            return Err(NexusError::ExecutionError("Reduce on empty array".to_owned()));
        }
        match fold(op, t.data.as_slice(), &exec) {
            Ok(acc) => {
                proof {
                    assert(folds_to(exec, op, m.stack.last().data, acc));
                }
                self.push_scalar(acc, outputs[0]);
                proof {
                    assert(self@.stack =~= m.stack.drop_last().push(self@.stack.last()));
                }
            },
            Err(e) => {
                return Err(e);
            },
        }
        let v = self.judge(op, expected_inputs, outputs);
        Ok(v)
    }

    /// Converts the top of the stack to `target_type` through the registered
    /// bridge, which applies its verb with its factor to every element. The
    /// top is left unchanged when it already has the target type, when no
    /// bridge is registered, and when the arithmetic fails (both errors).
    pub fn convert_to<F: Fn(Op, T, T) -> Result<T, NexusError>>(&mut self, target_type: u64, exec: F) -> (r: Result<(), NexusError>)
        requires
            old(self).wf(),
            total(exec),
        ensures
            final(self).wf(),
            old(self)@.stack.len() == 0 ==> (r matches Err(NexusError::StackUnderflow)) && final(self)@ == old(self)@,
            old(self)@.stack.len() > 0 && old(self)@.stack.last().ontic_type == target_type ==> r is Ok && final(self)@
                == old(self)@,
            old(self)@.stack.len() > 0 && old(self)@.stack.last().ontic_type != target_type
                && !old(self)@.registry.bridges.contains_key((old(self)@.stack.last().ontic_type, target_type)) ==> (r matches Err(
                NexusError::ConversionNotFound(from, to),
            ) && from == old(self)@.stack.last().ontic_type && to == target_type) && final(self)@ == old(self)@,
            old(self)@.stack.len() > 0 && old(self)@.stack.last().ontic_type != target_type
                && old(self)@.registry.bridges.contains_key((old(self)@.stack.last().ontic_type, target_type)) ==> ({
                let bridge = old(self)@.registry.bridges[(old(self)@.stack.last().ontic_type, target_type)];
                let pairs = with_factor(old(self)@.stack.last().data, bridge.1);
                &&& r matches Err(e) ==> first_failure(exec, bridge.0, pairs, e) && final(self)@ == old(self)@
                &&& r is Ok ==> final(self)@ == old(self)@.with_stack(
                    old(self)@.stack.drop_last().push(
                        TensorModel {
                            data: final(self)@.stack.last().data,
                            shape: old(self)@.stack.last().shape,
                            ontic_type: target_type,
                        },
                    ),
                ) && results_of(exec, bridge.0, pairs, final(self)@.stack.last().data)
            }),
    {
        let ghost m = self@;
        let len = self.stack.len();
        if len == 0 {
            return Err(NexusError::StackUnderflow);
        }
        let from = self.stack[len - 1].ontic_type;
        if from == target_type {
            return Ok(());
        }
        match self.registry.get_bridge(from, target_type) {
            None => Err(NexusError::ConversionNotFound(from, target_type)),
            Some((bop, factor)) => {
                match map_with_factor(bop, self.stack[len - 1].data.as_slice(), factor, &exec) {
                    Ok(data) => {
                        let t = match self.pop() {
                            Ok(t) => t,
                            Err(e) => {
                                return Err(e);
                            },
                        };
                        self.push_tensor(data, t.shape, target_type);
                        Ok(())
                    },
                    Err(e) => Err(e),
                }
            },
        }
    }

    /// This context with every tensor element and every bridge factor
    /// mapped through `g`.
    pub fn map_elements<U: Copy + Default, G: Fn(T) -> U>(&self, g: G) -> (r: NexusContext<U>)
        requires
            self.wf(),
            forall|x: T| call_requires(g, (x,)),
        ensures
            r.wf(),
            context_mapped(self@, r@, g),
    {
        let registry = self.registry.map_factors(&g);
        let ledger = self.ledger.duplicate();
        let stack = map_stack(&self.stack, &g);
        let mut savepoints: Vec<(Vec<TypedTensor<U>>, ConsistencyLedger)> = Vec::with_capacity(self.savepoints.len());
        let mut i: usize = 0;
        while i < self.savepoints.len()
            invariant
                self.wf(),
                i <= self.savepoints@.len(),
                savepoints@.len() == i,
                forall|x: T| call_requires(g, (x,)),
                forall|j: int| 0 <= j < i ==> (#[trigger] savepoints@[j]).1.wf() && savepoints@[j].1@ == self.savepoints@[j].1@
                    && stack_mapped(stack_model(self.savepoints@[j].0@), stack_model(savepoints@[j].0@), g),
            decreases self.savepoints@.len() - i,
        {
            let sp = &self.savepoints[i];
            let st = map_stack(&sp.0, &g);
            let lg = sp.1.duplicate();
            savepoints.push((st, lg));
            i = i + 1;
        }
        let goal_text = match &self.goal_text {
            Some(t) => Some(t.clone()),
            None => None,
        };
        let r = NexusContext {
            agent_id: self.agent_id,
            registry,
            ledger,
            stack,
            savepoints,
            goal_text,
            contradicted: self.contradicted,
        };
        proof {
            assert forall|j: int| 0 <= j < self@.savepoints.len() implies stack_mapped(
                self@.savepoints[j].0,
                (#[trigger] r@.savepoints[j]).0,
                g,
            ) && r@.savepoints[j].1 == self@.savepoints[j].1 by {
                assert(r.savepoints@[j] == savepoints@[j]);
            }
        }
        r
    }

    fn copy_stack(s: &Vec<TypedTensor<T>>) -> (r: Vec<TypedTensor<T>>)
        ensures
            stack_model(r@) == stack_model(s@),
    {
        let mut r: Vec<TypedTensor<T>> = Vec::with_capacity(s.len());
        let mut i: usize = 0;
        while i < s.len()
            invariant
                i <= s@.len(),
                stack_model(r@) == stack_model(s@).take(i as int),
            decreases s@.len() - i,
        {
            let t = s[i].duplicate();
            let ghost prev = r@;
            r.push(t);
            proof {
                assert(stack_model(r@) =~= stack_model(prev).push(s@[i as int]@));
                assert(stack_model(s@).take(i + 1) =~= stack_model(s@).take(i as int).push(s@[i as int]@));
            }
            i = i + 1;
        }
        assert(stack_model(s@).take(i as int) =~= stack_model(s@));
        r
    }

    /// Records a savepoint holding the current stack and ledger, and returns
    /// its identifier.
    pub fn savepoint(&mut self) -> (id: SavepointId)
        requires
            old(self).wf(),
        ensures
            final(self).wf(),
            id == old(self)@.savepoints.len(),
            final(self)@ == with_savepoint(old(self)@),
    {
        let id = self.savepoints.len();
        let stack = Self::copy_stack(&self.stack);
        let ledger = self.ledger.duplicate();
        let ghost old_sp = self.savepoints@;
        self.savepoints.push((stack, ledger));
        self.contradicted = false;
        proof {
            assert forall|i: int| 0 <= i < self.savepoints@.len() implies (#[trigger] self.savepoints@[i]).1.wf() by {
                if i < old_sp.len() {
                    assert(self.savepoints@[i] == old_sp[i]);
                }
            }
            assert(self@.savepoints =~= old(self)@.savepoints.push((old(self)@.stack, old(self)@.ledger)));
        }
        id
    }

    /// Rolls back to savepoint `to`: its stack and ledger come back and the
    /// later savepoints are dropped. An unknown savepoint changes nothing.
    pub fn rollback(&mut self, to: SavepointId)
        requires
            old(self).wf(),
        ensures
            final(self).wf(),
            final(self)@ == rolled_back(old(self)@, to as int),
    {
        if to < self.savepoints.len() {
            let stack = Self::copy_stack(&self.savepoints[to].0);
            let ledger = self.savepoints[to].1.duplicate();
            let ghost old_sp = self.savepoints@;
            self.stack = stack;
            self.ledger = ledger;
            self.savepoints.truncate(to + 1);
            self.contradicted = false;
            proof {
                assert forall|i: int| 0 <= i < self.savepoints@.len() implies (#[trigger] self.savepoints@[i]).1.wf() by {
                    assert(self.savepoints@[i] == old_sp[i]);
                }
                assert(self@.savepoints =~= old(self)@.savepoints.take(to + 1));
            }
        }
    }

    fn roll_back_to_last(&mut self)
        requires
            old(self).wf(),
        ensures
            final(self).wf(),
            final(self)@ == rolled_back_to_last(old(self)@),
    {
        let n = self.savepoints.len();
        if n > 0 {
            self.rollback(n - 1);
        }
    }

    /// Asserts that no operation met a ledger contradiction since the last
    /// savepoint. On success records a new savepoint; on failure rolls back
    /// to the latest savepoint.
    pub fn assert_consistent(&mut self) -> (r: Result<(), NexusError>)
        requires
            old(self).wf(),
        ensures
            final(self).wf(),
            !old(self)@.contradicted ==> r is Ok && final(self)@ == with_savepoint(old(self)@),
            old(self)@.contradicted ==> (r matches Err(NexusError::ExecutionError(msg)) && msg@ == contradiction_text())
                && final(self)@ == rolled_back_to_last(old(self)@),
    {
        if self.contradicted {
            self.roll_back_to_last();
            Err(NexusError::ExecutionError("Ledger contradiction since the last savepoint".to_owned()))
        } else {
            self.savepoint();
            Ok(())
        }
    }

    /// Asserts that the top of the stack has the ontic type `expected`. On
    /// success records a new savepoint; on failure rolls back to the latest
    /// savepoint.
    pub fn assert_type(&mut self, expected: u64) -> (r: Result<(), NexusError>)
        requires
            old(self).wf(),
        ensures
            final(self).wf(),
            old(self)@.stack.len() == 0 ==> (r matches Err(NexusError::StackUnderflow)) && final(self)@
                == rolled_back_to_last(old(self)@),
            old(self)@.stack.len() > 0 && old(self)@.stack.last().ontic_type == expected ==> r is Ok && final(self)@
                == with_savepoint(old(self)@),
            old(self)@.stack.len() > 0 && old(self)@.stack.last().ontic_type != expected ==> (r matches Err(
                NexusError::ExecutionError(msg),
            ) && msg@ == mismatch_text(expected, old(self)@.stack.last().ontic_type)) && final(self)@ == rolled_back_to_last(
                old(self)@,
            ),
    {
        let len = self.stack.len();
        if len == 0 {
            self.roll_back_to_last();
            return Err(NexusError::StackUnderflow);
        }
        let found = self.stack[len - 1].ontic_type;
        if found == expected {
            self.savepoint();
            Ok(())
        } else {
            self.roll_back_to_last();
            Err(NexusError::ExecutionError(mismatch_message(expected, found)))
        }
    }

    /// Asserts that the top of the stack has the shape `expected`. On success
    /// records a new savepoint; on failure rolls back to the latest
    /// savepoint.
    pub fn assert_shape(&mut self, expected: &[usize]) -> (r: Result<(), NexusError>)
        requires
            old(self).wf(),
        ensures
            final(self).wf(),
            old(self)@.stack.len() == 0 ==> (r matches Err(NexusError::StackUnderflow)) && final(self)@
                == rolled_back_to_last(old(self)@),
            old(self)@.stack.len() > 0 && old(self)@.stack.last().shape == expected@ ==> r is Ok && final(self)@
                == with_savepoint(old(self)@),
            old(self)@.stack.len() > 0 && old(self)@.stack.last().shape != expected@ ==> (r matches Err(
                NexusError::ShapeMismatch(want, found),
            ) && want@ == expected@ && found@ == old(self)@.stack.last().shape) && final(self)@ == rolled_back_to_last(
                old(self)@,
            ),
    {
        let len = self.stack.len();
        if len == 0 {
            self.roll_back_to_last();
            return Err(NexusError::StackUnderflow);
        }
        if crate::seqs::same_usizes(self.stack[len - 1].shape.as_slice(), expected) {
            self.savepoint();
            Ok(())
        } else {
            let found = crate::seqs::copy_slice(self.stack[len - 1].shape.as_slice());
            self.roll_back_to_last();
            Err(NexusError::ShapeMismatch(crate::seqs::copy_slice(expected), found))
        }
    }

    /// Sets the goal.
    pub fn goal(&mut self, description: &str)
        requires
            old(self).wf(),
        ensures
            final(self).wf(),
            final(self)@ == (ContextModel { goal: Some(description@), ..old(self)@ }),
    {
        self.goal_text = Some(description.to_owned());
    }

    /// Clears the goal.
    pub fn goal_done(&mut self)
        requires
            old(self).wf(),
        ensures
            final(self).wf(),
            final(self)@ == (ContextModel { goal: None, ..old(self)@ }),
    {
        self.goal_text = None;
    }

    /// The goal, if one is set.
    pub fn current_goal(&self) -> (r: Option<&str>)
        ensures
            r is None <==> self@.goal is None,
            r matches Some(g) ==> self@.goal == Some(g@),
    {
        match &self.goal_text {
            Some(g) => Some(g.as_str()),
            None => None,
        }
    }
}

/// A savepoint as a saved stack and the saved ledger's entries.
spec fn saved_entry_view() -> spec_fn((Vec<TypedTensor<u64>>, ConsistencyLedger)) -> (
    Seq<TensorModel<u64>>,
    Seq<(Op, Seq<u64>, Seq<u64>)>,
) {
    |p: (Vec<TypedTensor<u64>>, ConsistencyLedger)| (stack_model(p.0@), p.1.entries())
}

/// Parts that make up a valid context: valid registry entries and ledgers.
pub open spec fn parts_ok(m: PartsModel) -> bool {
    &&& registry_entries_ok(m.aliases, m.bridges, m.next_auto_id)
    &&& ledger_entries_ok(m.ledger)
    &&& forall|i: int| 0 <= i < m.savepoints.len() ==> ledger_entries_ok(#[trigger] m.savepoints[i].1)
}

/// The text of a malformed saved context.
pub open spec fn malformed_text() -> Seq<char> {
    "malformed context text"@
}

/// Appends a savepoint.
fn push_saved_entry(out: &mut String, p: &(Vec<TypedTensor<u64>>, ConsistencyLedger))
    ensures
        final(out)@ == old(out)@ + saved_text(saved_entry_view()(*p)),
{
    let ghost start = out@;
    push_char(out, '[');
    push_tensor_list(out, &p.0);
    push_char(out, ',');
    p.1.write_entries(out);
    push_char(out, ']');
    assert(views(p.0@) =~= stack_model(p.0@));
    assert(out@ =~= start + saved_text(saved_entry_view()(*p)));
}

/// Appends a JSON list of savepoints.
fn push_saved_list(out: &mut String, v: &Vec<(Vec<TypedTensor<u64>>, ConsistencyLedger)>)
    ensures
        final(out)@ == old(out)@ + saved_list_text(v@.map_values(saved_entry_view())),
{
    let ghost items = (v@.map_values(saved_entry_view())).map_values(saved_fn());
    let ghost start = out@;
    push_char(out, '[');
    let mut i: usize = 0;
    while i < v.len()
        invariant
            i <= v@.len(),
            (v@.map_values(saved_entry_view())).len() == v@.len(),
            items == (v@.map_values(saved_entry_view())).map_values(saved_fn()),
            out@ == start + seq!['['] + joined(items.take(i as int)),
        decreases v@.len() - i,
    {
        proof {
            lemma_joined_step(items, i as int);
        }
        let ghost before = out@;
        if i > 0 {
            push_char(out, ',');
        }
        push_saved_entry(out, &v[i]);
        proof {
            if i == 0 {
                assert(out@ =~= start + seq!['['] + joined(items.take(i + 1)));
            } else {
                assert(out@ =~= start + seq!['['] + joined(items.take(i + 1)));
            }
        }
        i = i + 1;
    }
    proof {
        assert(items.take(i as int) =~= items);
    }
    push_char(out, ']');
    assert(out@ =~= start + saved_list_text(v@.map_values(saved_entry_view())));
}

impl NexusContext<u64> {
    /// The parts of this context, in the order in which `serialize` writes
    /// them.
    pub closed spec fn parts(&self) -> PartsModel {
        PartsModel {
            agent_id: self.agent_id,
            next_auto_id: self.registry@.next_auto_id,
            aliases: self.registry.alias_entries(),
            bridges: self.registry.bridge_entries(),
            ledger: self.ledger.entries(),
            stack: stack_model(self.stack@),
            savepoints: self.savepoints@.map_values(saved_entry_view()),
            goal: match self.goal_text {
                Some(g) => Some(g@),
                None => None,
            },
            contradicted: self.contradicted,
        }
    }

    /// The parts hold the whole context: its agent, counter, stack, goal
    /// and flag as they are, and entries that stand for its aliases,
    /// bridges, ledger and savepoints.
    pub proof fn lemma_parts_model(&self)
        ensures
            self.parts().agent_id == self@.agent_id,
            self.parts().next_auto_id == self@.registry.next_auto_id,
            assoc(self.parts().aliases, alias_name::<u64>(), alias_id()) == self@.registry.aliases,
            assoc(self.parts().bridges, bridge_ends::<u64>(), bridge_rule::<u64>()) == self@.registry.bridges,
            assoc(self.parts().ledger, entry_key(), entry_outputs()) == self@.ledger,
            self.parts().stack == self@.stack,
            self.parts().savepoints.len() == self@.savepoints.len(),
            forall|i: int| 0 <= i < self@.savepoints.len() ==> (#[trigger] self.parts().savepoints[i]).0 == self@.savepoints[i].0
                && assoc(self.parts().savepoints[i].1, entry_key(), entry_outputs()) == self@.savepoints[i].1,
            self.parts().goal == self@.goal,
            self.parts().contradicted == self@.contradicted,
    {
        self.registry.lemma_entries_model();
        self.ledger.lemma_entries_model();
        assert forall|i: int| 0 <= i < self@.savepoints.len() implies (#[trigger] self.parts().savepoints[i]).0
            == self@.savepoints[i].0 && assoc(self.parts().savepoints[i].1, entry_key(), entry_outputs())
            == self@.savepoints[i].1 by {
            self.savepoints@[i].1.lemma_entries_model();
        }
    }

    /// A valid context's parts are valid.
    pub proof fn lemma_parts_ok(&self)
        requires
            self.wf(),
        ensures
            parts_ok(self.parts()),
    {
        self.registry.lemma_entries_ok();
        self.ledger.lemma_entries_ok();
        assert forall|i: int| 0 <= i < self.parts().savepoints.len() implies ledger_entries_ok(
            #[trigger] self.parts().savepoints[i].1,
        ) by {
            self.savepoints@[i].1.lemma_entries_ok();
        }
    }

    /// Contexts with the same parts have the same model.
    pub proof fn lemma_parts_determine(&self, other: &Self)
        requires
            self.parts() == other.parts(),
        ensures
            self@ == other@,
    {
        self.registry.lemma_entries_determine(&other.registry);
        self.ledger.lemma_entries_determine(&other.ledger);
        let a = self@.savepoints;
        let b = other@.savepoints;
        assert(self.savepoints@.len() == self.parts().savepoints.len());
        assert(other.savepoints@.len() == other.parts().savepoints.len());
        assert forall|i: int| 0 <= i < a.len() implies a[i] == b[i] by {
            assert(self.parts().savepoints[i] == other.parts().savepoints[i]);
            self.savepoints@[i].1.lemma_entries_determine(&other.savepoints@[i].1);
        }
        assert(a =~= b);
        assert(self@.goal == other@.goal);
    }

    /// Appends the opening of the context object, up to its bridges.
    fn write_head(&self, out: &mut String)
        ensures
            final(out)@ == old(out)@ + crate::snapshot::head_text(crate::snapshot::head_of(self.parts())),
    {
        let ghost start = out@;
        out.append("{\"agent_id\":");
        push_decimal(out, self.agent_id);
        out.append(",\"next_auto_id\":");
        push_decimal(out, self.registry.next_id());
        out.append(",\"aliases\":");
        self.registry.write_aliases(out);
        out.append(",\"bridges\":");
        self.registry.write_bridges(out);
        assert(out@ =~= start + crate::snapshot::head_text(crate::snapshot::head_of(self.parts())));
    }

    /// The goal's characters, if a goal is set.
    spec fn goal_chars(&self) -> Option<Seq<char>> {
        match self.goal_text {
            Some(g) => Some(g@),
            None => None,
        }
    }

    /// Appends the ledger, the stack and the savepoints.
    fn write_records(&self, out: &mut String)
        ensures
            final(out)@ == old(out)@ + (",\"ledger\":"@ + crate::snapshot::sig_list_text(self.ledger.entries())
                + ",\"stack\":"@ + tensor_list_text(stack_model(self.stack@)) + ",\"savepoints\":"@
                + saved_list_text(self.savepoints@.map_values(saved_entry_view()))),
    {
        let ghost start = out@;
        out.append(",\"ledger\":");
        self.ledger.write_entries(out);
        out.append(",\"stack\":");
        push_tensor_list(out, &self.stack);
        proof {
            assert(views(self.stack@) =~= stack_model(self.stack@));
        }
        out.append(",\"savepoints\":");
        push_saved_list(out, &self.savepoints);
        assert(out@ =~= start + (",\"ledger\":"@ + crate::snapshot::sig_list_text(self.ledger.entries())
            + ",\"stack\":"@ + tensor_list_text(stack_model(self.stack@)) + ",\"savepoints\":"@
            + saved_list_text(self.savepoints@.map_values(saved_entry_view()))));
    }

    /// Appends the goal, the contradiction flag and the closing brace.
    fn write_flags(&self, out: &mut String)
        ensures
            final(out)@ == old(out)@ + (",\"goal\":"@ + crate::json::goal_text(self.goal_chars()) + ",\"contradicted\":"@
                + crate::json::bool_text(self.contradicted) + seq!['}']),
    {
        let ghost start = out@;
        out.append(",\"goal\":");
        match &self.goal_text {
            Some(g) => push_quoted_str(out, g.as_str()),
            None => {
                proof {
                    reveal_strlit("null");
                    assert("null"@ =~= seq!['n', 'u', 'l', 'l']);
                }
                out.append("null");
            },
        }
        out.append(",\"contradicted\":");
        if self.contradicted {
            proof {
                reveal_strlit("true");
                assert("true"@ =~= seq!['t', 'r', 'u', 'e']);
            }
            out.append("true");
        } else {
            proof {
                reveal_strlit("false");
                assert("false"@ =~= seq!['f', 'a', 'l', 's', 'e']);
            }
            out.append("false");
        }
        proof {
            reveal_strlit("}");
            assert("}"@ =~= seq!['}']);
        }
        out.append("}");
        assert(out@ =~= start + (",\"goal\":"@ + crate::json::goal_text(self.goal_chars()) + ",\"contradicted\":"@
            + crate::json::bool_text(self.contradicted) + seq!['}']));
    }

    /// Appends the rest of the context object, from its ledger on.
    fn write_tail(&self, out: &mut String)
        ensures
            final(out)@ == old(out)@ + crate::snapshot::tail_text(crate::snapshot::tail_of(self.parts())),
    {
        let ghost start = out@;
        self.write_records(out);
        self.write_flags(out);
        assert(out@ =~= start + crate::snapshot::tail_text(crate::snapshot::tail_of(self.parts())));
    }

    /// Writes the whole context as JSON: its agent, registry counter,
    /// aliases, bridges, ledger, stack, savepoints, goal and contradiction
    /// flag, in that order. Stack elements and bridge factors are written as
    /// decimal integers.
    pub fn serialize(&self) -> (r: Result<String, NexusError>)
        ensures
            r matches Ok(s) && s@ == parts_text(self.parts()),
    {
        let mut out = String::new();
        self.write_head(&mut out);
        self.write_tail(&mut out);
        assert(out@ =~= parts_text(self.parts()));
        Ok(out)
    }

    /// Reads a context from the JSON that `serialize` writes. The text must
    /// hold exactly one context object whose aliases, bridges and ledger
    /// entries are each given once, whose alias identifiers lie below its
    /// counter, and whose counter lies in the user range; any other text
    /// gives an execution error.
    pub fn deserialize(json: &str) -> (r: Result<Self, NexusError>)
        ensures
            forall|m: PartsModel| parts_ok(m) && json@ == parts_text(m) ==> (r matches Ok(c) && c.parts() == m),
            r matches Ok(c) ==> c.wf() && parts_ok(c.parts()) && json@ == parts_text(c.parts()),
            r matches Err(e) ==> (e matches NexusError::ExecutionError(msg) && msg@ == malformed_text()),
            forall|c0: Self| c0.wf() && json@ == parts_text(c0.parts()) ==> (r matches Ok(c) && c@ == c0@),
    {
        let chars = chars_of(json);
        let malformed = "malformed context text";
        proof {
            assert forall|c0: Self| c0.wf() && json@ == parts_text(c0.parts()) implies parts_ok(c0.parts()) by {
                c0.lemma_parts_ok();
            }
            assert forall|m: PartsModel| #![trigger parts_text(m)] json@ == parts_text(m) implies crate::json::occurs_at(
                chars@,
                0,
                parts_text(m),
            ) by {
                assert(chars@.subrange(0, parts_text(m).len() as int) =~= parts_text(m));
            }
        }
        let (parts, q) = match read_parts(&chars, 0) {
            Some(x) => x,
            None => {
                return Err(NexusError::ExecutionError(malformed.to_owned()));
            },
        };
        if q != chars.len() {
            return Err(NexusError::ExecutionError(malformed.to_owned()));
        }
        proof {
            assert(chars@.subrange(0, q as int) =~= chars@);
            assert(malformed@ == malformed_text());
        }
        let registry = match TypeRegistry::from_entries(&parts.aliases, &parts.bridges, parts.next_auto_id) {
            Some(g) => g,
            None => {
                return Err(NexusError::ExecutionError(malformed.to_owned()));
            },
        };
        let ledger = match ConsistencyLedger::from_entries(&parts.history) {
            Some(l) => l,
            None => {
                return Err(NexusError::ExecutionError(malformed.to_owned()));
            },
        };
        let ghost pv = parts@;
        let mut savepoints: Vec<(Vec<TypedTensor<u64>>, ConsistencyLedger)> = Vec::new();
        let mut i: usize = 0;
        while i < parts.saved.len()
            invariant
                i <= parts.saved@.len(),
                pv == parts@,
                savepoints@.len() == i,
                malformed@ == malformed_text(),
                forall|m: PartsModel| #![trigger parts_text(m)] parts_ok(m) && json@ == parts_text(m) ==> m == pv,
                forall|j: int| 0 <= j < i ==> (#[trigger] savepoints@[j]).1.wf(),
                savepoints@.map_values(saved_entry_view()) == pv.savepoints.take(i as int),
                forall|j: int| 0 <= j < i ==> ledger_entries_ok(#[trigger] pv.savepoints[j].1),
            decreases parts.saved@.len() - i,
        {
            let sv = &parts.saved[i];
            let st = Self::copy_stack(&sv.stack);
            let lg = match ConsistencyLedger::from_entries(&sv.history) {
                Some(l) => l,
                None => {
                    proof {
                        assert(pv.savepoints[i as int] == sv@);
                        assert forall|m: PartsModel| parts_ok(m) && json@ == parts_text(m) implies false by {
                            assert(m == pv);
                            assert(ledger_entries_ok(m.savepoints[i as int].1));
                        }
                        assert forall|c0: Self| c0.wf() && json@ == parts_text(c0.parts()) implies false by {
                            c0.lemma_parts_ok();
                            assert(c0.parts() == pv);
                            assert(ledger_entries_ok(c0.parts().savepoints[i as int].1));
                        }
                    }
                    return Err(NexusError::ExecutionError(malformed.to_owned()));
                },
            };
            let ghost prev = savepoints@;
            savepoints.push((st, lg));
            proof {
                assert(pv.savepoints[i as int] == sv@);
                assert(views(sv.stack@) =~= stack_model(sv.stack@));
                assert(savepoints@.map_values(saved_entry_view()) =~= pv.savepoints.take(i + 1)) by {
                    assert(prev.map_values(saved_entry_view()) == pv.savepoints.take(i as int));
                    assert forall|j: int| 0 <= j < i implies #[trigger] savepoints@.map_values(saved_entry_view())[j]
                        == pv.savepoints.take(i + 1)[j] by {
                        assert(savepoints@[j] == prev[j]);
                        assert(prev.map_values(saved_entry_view())[j] == pv.savepoints.take(i as int)[j]);
                    }
                }
            }
            i = i + 1;
        }
        proof {
            assert(pv.savepoints.take(i as int) =~= pv.savepoints);
        }
        let goal_text = match &parts.goal {
            Some(g) => Some(string_from_chars(g)),
            None => None,
        };
        let c = NexusContext {
            agent_id: parts.agent_id,
            registry,
            ledger,
            stack: parts.stack,
            savepoints,
            goal_text,
            contradicted: parts.contradicted,
        };
        proof {
            assert(views(parts.stack@) =~= stack_model(parts.stack@));
            assert(c.parts() =~= pv);
            c.lemma_parts_ok();
            assert forall|c0: Self| c0.wf() && json@ == parts_text(c0.parts()) implies c@ == c0@ by {
                c0.lemma_parts_ok();
                c.lemma_parts_determine(&c0);
            }
        }
        Ok(c)
    }
}

} // verus!

verus! {

/// What is pushed is what is popped, and the stack below is untouched.
pub proof fn law_push_then_pop<T>(m: ContextModel<T>, t: TensorModel<T>)
    ensures
        m.with_stack(m.stack.push(t)).stack.last() == t,
        m.with_stack(m.stack.push(t)).with_stack(m.stack.push(t).drop_last()) == m,
{
    assert(m.stack.push(t).drop_last() =~= m.stack);
}

/// `pick` keeps every item below the ones it takes, and the stack grows by
/// the number of indices less the number of items taken.
pub proof fn law_pick_keeps_below<T>(s: Seq<TensorModel<T>>, idx: Seq<usize>)
    requires
        pick_width(idx) <= s.len(),
    ensures
        picked(s, idx).len() == s.len() - pick_width(idx) + idx.len(),
        picked(s, idx).take(s.len() - pick_width(idx)) == s.take(s.len() - pick_width(idx)),
{
    assert(picked(s, idx).take(s.len() - pick_width(idx)) =~= s.take(s.len() - pick_width(idx)));
}

/// `pick([0, 0])` duplicates the top.
pub proof fn law_pick_dup<T>(s: Seq<TensorModel<T>>)
    requires
        s.len() >= 1,
    ensures
        picked(s, seq![0usize, 0usize]) == s.push(s.last()),
{
    reveal_with_fuel(pick_width, 3);
    assert(seq![0usize, 0usize].drop_last() =~= seq![0usize]);
    assert(seq![0usize].drop_last() =~= Seq::<usize>::empty());
    assert(picked(s, seq![0usize, 0usize]) =~= s.push(s.last()));
}

/// `pick([1, 0])` swaps the top two items, and swapping twice gives back the
/// original stack.
pub proof fn law_pick_swap<T>(s: Seq<TensorModel<T>>)
    requires
        s.len() >= 2,
    ensures
        picked(s, seq![1usize, 0usize]) == s.drop_last().drop_last().push(s.last()).push(s[s.len() - 2]),
        picked(picked(s, seq![1usize, 0usize]), seq![1usize, 0usize]) == s,
{
    reveal_with_fuel(pick_width, 3);
    assert(seq![1usize, 0usize].drop_last() =~= seq![1usize]);
    assert(seq![1usize].drop_last() =~= Seq::<usize>::empty());
    let t = picked(s, seq![1usize, 0usize]);
    assert(t =~= s.drop_last().drop_last().push(s.last()).push(s[s.len() - 2]));
    assert(picked(t, seq![1usize, 0usize]) =~= s);
}

/// `pick([2, 0, 1])` rotates the top three items, bringing the third to the
/// top; three rotations give back the original stack.
pub proof fn law_pick_rot<T>(s: Seq<TensorModel<T>>)
    requires
        s.len() >= 3,
    ensures
        picked(s, seq![2usize, 0usize, 1usize]) == s.take(s.len() - 3).push(s[s.len() - 2]).push(s[s.len() - 1]).push(
            s[s.len() - 3],
        ),
        picked(picked(picked(s, seq![2usize, 0usize, 1usize]), seq![2usize, 0usize, 1usize]), seq![2usize, 0usize, 1usize])
            == s,
{
    reveal_with_fuel(pick_width, 4);
    let idx = seq![2usize, 0usize, 1usize];
    assert(idx.drop_last() =~= seq![2usize, 0usize]);
    assert(seq![2usize, 0usize].drop_last() =~= seq![2usize]);
    assert(seq![2usize].drop_last() =~= Seq::<usize>::empty());
    assert(pick_width(idx) == 3);
    let t1 = picked(s, idx);
    assert(t1 =~= s.take(s.len() - 3).push(s[s.len() - 2]).push(s[s.len() - 1]).push(s[s.len() - 3]));
    let t2 = picked(t1, idx);
    assert(t2 =~= s.take(s.len() - 3).push(s[s.len() - 1]).push(s[s.len() - 3]).push(s[s.len() - 2]));
    let t3 = picked(t2, idx);
    assert(t3 =~= s);
}

/// Rolling back to a savepoint brings back the stack and ledger it holds,
/// whatever happened to the stack, ledger, registry, goal and later
/// savepoints since it was taken (as long as it is still held: only a
/// rollback to an earlier savepoint drops it), keeps it for later
/// rollbacks, and drops the savepoints taken after it.
pub proof fn law_rollback_restores<T>(m: ContextModel<T>, later: ContextModel<T>)
    requires
        later.savepoints.len() > m.savepoints.len(),
        later.savepoints[m.savepoints.len() as int] == (m.stack, m.ledger),
    ensures
        rolled_back(later, m.savepoints.len() as int).stack == m.stack,
        rolled_back(later, m.savepoints.len() as int).ledger == m.ledger,
        rolled_back(later, m.savepoints.len() as int).savepoints == later.savepoints.take(m.savepoints.len() + 1int),
        rolled_back(later, m.savepoints.len() as int).savepoints.last() == (m.stack, m.ledger),
        !rolled_back(later, m.savepoints.len() as int).contradicted,
{
}

/// A failed assertion returns to the latest savepoint, not an earlier one:
/// with savepoints S1 then S2, the stack and ledger of S2 come back and both
/// savepoints remain.
pub proof fn law_failed_assert_returns_to_latest<T>(m: ContextModel<T>)
    requires
        m.savepoints.len() >= 2,
    ensures
        rolled_back_to_last(m).stack == m.savepoints.last().0,
        rolled_back_to_last(m).ledger == m.savepoints.last().1,
        rolled_back_to_last(m).savepoints == m.savepoints,
{
    assert(m.savepoints.take(m.savepoints.len() as int) =~= m.savepoints);
}

/// After a successful assertion nothing is pending: a consistency assertion
/// made right after it passes; after a contradiction, it fails.
pub proof fn law_contradiction_gates_assertion<T>(m: ContextModel<T>, stack: Seq<TensorModel<T>>, op: crate::types::Op, ins: Seq<u64>, outs: Seq<u64>)
    ensures
        !with_savepoint(m).contradicted,
        verdict_of(with_savepoint(m).ledger, op, ins, outs) is Contradiction ==> after_verdict(
            with_savepoint(m),
            stack,
            op,
            ins,
            outs,
        ).contradicted,
        !(verdict_of(with_savepoint(m).ledger, op, ins, outs) is Contradiction) ==> !after_verdict(
            with_savepoint(m),
            stack,
            op,
            ins,
            outs,
        ).contradicted,
{
}


/// Mapping a context's elements through `g` and then through `h`, where `h`
/// undoes `g`, gives back the context.
pub proof fn law_map_inverse<T, U, G: Fn(T) -> U, H: Fn(U) -> T>(
    a: ContextModel<T>,
    b: ContextModel<U>,
    c: ContextModel<T>,
    g: G,
    h: H,
)
    requires
        context_mapped(a, b, g),
        context_mapped(b, c, h),
        forall|x: T, y: U, z: T| #![trigger call_ensures(g, (x,), y), call_ensures(h, (y,), z)] call_ensures(g, (x,), y) && call_ensures(h, (y,), z) ==> z == x,
    ensures
        c == a,
{
    assert forall|k: (u64, u64)| #[trigger] a.registry.bridges.contains_key(k) implies c.registry.bridges[k] == a.registry.bridges[k] by {
        assert(b.registry.bridges.contains_key(k));
    }
    assert(c.registry.bridges =~= a.registry.bridges);
    assert(c.registry == a.registry);
    assert forall|s: Seq<TensorModel<T>>, t: Seq<TensorModel<U>>, u: Seq<TensorModel<T>>| #[trigger] stack_mapped(s, t, g) && #[trigger] stack_mapped(t, u, h) implies u == s by {
        assert forall|i: int| 0 <= i < s.len() implies #[trigger] u[i] == s[i] by {
            assert(tensor_mapped(s[i], t[i], g));
            assert(tensor_mapped(t[i], u[i], h));
            assert(u[i].data =~= s[i].data) by {
                assert forall|j: int| 0 <= j < s[i].data.len() implies u[i].data[j] == s[i].data[j] by {
                    assert(call_ensures(g, (s[i].data[j],), t[i].data[j]));
                    assert(call_ensures(h, (t[i].data[j],), u[i].data[j]));
                }
            }
        }
        assert(u =~= s);
    }
    assert(c.stack == a.stack);
    assert forall|i: int| 0 <= i < a.savepoints.len() implies #[trigger] c.savepoints[i] == a.savepoints[i] by {
        assert(stack_mapped(a.savepoints[i].0, b.savepoints[i].0, g));
        assert(stack_mapped(b.savepoints[i].0, c.savepoints[i].0, h));
    }
    assert(c.savepoints =~= a.savepoints);
}


/// After `pick`, the item at position `j` from the top, for each index
/// position `j`, is the old item at position `indices[j]` from the top
/// (so `indices[0]` ends on top, whatever the number of indices); the
/// items below the ones taken stay, and the number taken is one more than
/// the largest index.
pub proof fn law_pick_positions<T>(s: Seq<TensorModel<T>>, idx: Seq<usize>)
    requires
        pick_width(idx) <= s.len(),
    ensures
        picked(s, idx).len() == s.len() - pick_width(idx) + idx.len(),
        forall|j: int| 0 <= j < idx.len() ==> #[trigger] picked(s, idx)[picked(s, idx).len() - 1 - j] == s[s.len() - 1
            - idx[j]],
        forall|i: int| 0 <= i < s.len() - pick_width(idx) ==> #[trigger] picked(s, idx)[i] == s[i],
        forall|j: int| 0 <= j < idx.len() ==> #[trigger] idx[j] < pick_width(idx),
        idx.len() > 0 ==> exists|j: int| 0 <= j < idx.len() && #[trigger] idx[j] + 1 == pick_width(idx),
        idx.len() == 0 ==> pick_width(idx) == 0,
{
    lemma_pick_width(idx);
    let p = picked(s, idx);
    let base = s.len() - pick_width(idx);
    assert forall|j: int| 0 <= j < idx.len() implies #[trigger] p[p.len() - 1 - j] == s[s.len() - 1 - idx[j]] by {
        let q = idx.len() - 1 - j;
        assert(p.len() - 1 - j == base + q);
        assert(idx[idx.len() - 1 - q] == idx[j]);
    }
}

/// Once an operation meets a ledger contradiction, the context stays marked
/// until the next savepoint or rollback, whatever later operations judge;
/// a contradiction marks it, and nothing else does.
pub proof fn law_contradiction_persists<T>(
    m: ContextModel<T>,
    stack: Seq<TensorModel<T>>,
    op: Op,
    ins: Seq<u64>,
    outs: Seq<u64>,
)
    ensures
        m.contradicted ==> after_verdict(m, stack, op, ins, outs).contradicted,
        verdict_of(m.ledger, op, ins, outs) is Contradiction ==> after_verdict(m, stack, op, ins, outs).contradicted,
        !m.contradicted && !(verdict_of(m.ledger, op, ins, outs) is Contradiction) ==> !after_verdict(
            m,
            stack,
            op,
            ins,
            outs,
        ).contradicted,
        !with_savepoint(m).contradicted,
        m.savepoints.len() > 0 ==> !rolled_back_to_last(m).contradicted,
{
}


/// A successful scan replaces the top item by one with the same shape, the
/// declared output type and one value per element: the first element, then
/// each a result of `exec` on the verb that was passed, the value before
/// (left) and the element (right).
pub proof fn law_scan_result<T, F: Fn(Op, T, T) -> Result<T, NexusError>>(
    exec: F,
    op: Op,
    ins: Seq<u64>,
    outs: Seq<u64>,
    m: ContextModel<T>,
    f: ContextModel<T>,
    r: Result<LedgerVerdict, NexusError>,
)
    requires
        scan_outcome(exec, op, ins, outs, m, f, r),
        ins.len() == 1,
        outs.len() == 1,
        inputs_found(m, ins),
        r is Ok,
    ensures
        ({
            let t = m.stack.last();
            let u = f.stack.last();
            &&& f.stack.len() == m.stack.len()
            &&& f.stack.take(f.stack.len() - 1) == m.stack.take(m.stack.len() - 1)
            &&& u.shape == t.shape
            &&& u.ontic_type == outs[0]
            &&& u.data.len() == t.data.len()
            &&& t.data.len() > 0 ==> u.data[0] == t.data[0]
            &&& forall|i: int| #![trigger u.data[i]] 0 < i < t.data.len() ==> call_ensures(
                exec,
                (op, u.data[i - 1], t.data[i]),
                Ok::<T, NexusError>(u.data[i]),
            )
        }),
{
    law_scan_steps(exec, op, m.stack.last().data, f.stack.last().data);
    assert(f.stack.take(f.stack.len() - 1) =~= m.stack.take(m.stack.len() - 1));
}

/// A successful table replaces the two top items by one with shape
/// `[lower length, top length]` and the declared output type, whose value at
/// position `i * (top length) + j` is a result of `exec` on the verb that
/// was passed, the lower item's element `i` (left) and the top item's
/// element `j` (right).
pub proof fn law_table_result<T, F: Fn(Op, T, T) -> Result<T, NexusError>>(
    exec: F,
    op: Op,
    ins: Seq<u64>,
    outs: Seq<u64>,
    m: ContextModel<T>,
    f: ContextModel<T>,
    r: Result<LedgerVerdict, NexusError>,
)
    requires
        table_outcome(exec, op, ins, outs, m, f, r),
        ins.len() == 2,
        outs.len() == 1,
        inputs_found(m, ins),
        r is Ok,
    ensures
        ({
            let a = m.stack[m.stack.len() - 2].data;
            let b = m.stack[m.stack.len() - 1].data;
            let u = f.stack.last();
            &&& f.stack.len() == m.stack.len() - 1
            &&& f.stack.take(f.stack.len() - 1) == m.stack.take(m.stack.len() - 2)
            &&& u.shape == seq![a.len() as usize, b.len() as usize]
            &&& u.ontic_type == outs[0]
            &&& u.data.len() == a.len() * b.len()
            &&& forall|i: int, j: int| 0 <= i < a.len() && 0 <= j < b.len() ==> call_ensures(
                exec,
                (op, a[i], b[j]),
                Ok::<T, NexusError>(#[trigger] u.data[i * b.len() + j]),
            )
        }),
{
    let a = m.stack[m.stack.len() - 2].data;
    let b = m.stack[m.stack.len() - 1].data;
    let u = f.stack.last();
    law_table_positions(a, b);
    let p = table_pairs(a, b);
    assert forall|i: int, j: int| 0 <= i < a.len() && 0 <= j < b.len() implies call_ensures(
        exec,
        (op, a[i], b[j]),
        Ok::<T, NexusError>(#[trigger] u.data[i * b.len() + j]),
    ) by {
        let k = i * b.len() + j;
        assert(p[k] == (a[i], b[j]));
        assert(0 <= k < p.len()) by {
            assert(0 <= i * b.len()) by (nonlinear_arith)
                requires
                    0 <= i,
            ;
            assert(i * b.len() + j < a.len() * b.len()) by (nonlinear_arith)
                requires
                    0 <= i < a.len(),
                    0 <= j < b.len(),
            ;
        }
        assert(call_ensures(exec, (op, p[k].0, p[k].1), Ok::<T, NexusError>(u.data[k])));
    }
    assert(f.stack.take(f.stack.len() - 1) =~= m.stack.take(m.stack.len() - 2));
}

} // verus!
