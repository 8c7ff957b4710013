//! The consistency ledger: it records, for each operation and list of input
//! types, the output types that were first declared, and judges every later
//! declaration against that record.
use vstd::prelude::*;
use crate::types::Op;
use crate::seqs::{copy_slice, same_u64s};
use crate::assoc::{assoc, keys_distinct, lemma_assoc, lemma_assoc_push, lemma_assoc_congruent};
use crate::json::views;
use crate::snapshot::{push_sig_list, sig_list_text};

verus! {

/// An operation signature: a verb, its input types and its output types.
#[derive(Debug, Clone, PartialEq, Eq, Hash)]
pub struct Signature {
    pub op: Op,
    pub inputs: Vec<u64>,
    pub outputs: Vec<u64>,
}

impl View for Signature {
    type V = (Op, Seq<u64>, Seq<u64>);

    open spec fn view(&self) -> (Op, Seq<u64>, Seq<u64>) {
        (self.op, self.inputs@, self.outputs@)
    }
}

/// The ledger's judgement of a declared signature.
pub enum LedgerVerdict {
    /// The verb and input types were never seen: the signature is recorded.
    Novel,
    /// The declared outputs equal the recorded ones.
    Consistent,
    /// The declared outputs differ from the recorded signature, given here.
    Contradiction(Signature),
}

/// The abstract value of a verdict; a contradiction names the recorded outputs.
pub enum VerdictModel {
    Novel,
    Consistent,
    Contradiction(Seq<u64>),
}

impl View for LedgerVerdict {
    type V = VerdictModel;

    open spec fn view(&self) -> VerdictModel {
        match self {
            LedgerVerdict::Novel => VerdictModel::Novel,
            LedgerVerdict::Consistent => VerdictModel::Consistent,
            LedgerVerdict::Contradiction(sig) => VerdictModel::Contradiction(sig.outputs@),
        }
    }
}

/// The ledger's model: each recorded (verb, input types) maps to its outputs.
pub type LedgerMap = Map<(Op, Seq<u64>), Seq<u64>>;

/// The verdict on declaring `outs` for `(op, ins)` against the record `h`.
pub open spec fn verdict_of(h: LedgerMap, op: Op, ins: Seq<u64>, outs: Seq<u64>) -> VerdictModel {
    if !h.contains_key((op, ins)) {
        VerdictModel::Novel
    } else if h[(op, ins)] == outs {
        VerdictModel::Consistent
    } else {
        VerdictModel::Contradiction(h[(op, ins)])
    }
}

/// The record after declaring `outs` for `(op, ins)`: only a novel signature
/// is added; a recorded one is never changed.
pub open spec fn record(h: LedgerMap, op: Op, ins: Seq<u64>, outs: Seq<u64>) -> LedgerMap {
    if h.contains_key((op, ins)) {
        h
    } else {
        h.insert((op, ins), outs)
    }
}

/// The key under which a signature is recorded.
pub open spec fn sig_key(s: Signature) -> (Op, Seq<u64>) {
    (s.op, s.inputs@)
}

/// The key of a recorded signature, as a function.
pub open spec fn sig_key_fn() -> spec_fn(Signature) -> (Op, Seq<u64>) {
    |e: Signature| sig_key(e)
}

/// The recorded outputs of a signature, as a function.
pub open spec fn sig_out_fn() -> spec_fn(Signature) -> Seq<u64> {
    |e: Signature| e.outputs@
}

/// The map that a list of recorded signatures stands for.
pub open spec fn history_map(s: Seq<Signature>) -> LedgerMap {
    assoc(s, sig_key_fn(), sig_out_fn())
}

/// No two recorded signatures share a key.
pub open spec fn distinct_keys(s: Seq<Signature>) -> bool {
    keys_distinct(s, sig_key_fn())
}

/// The key of a ledger entry: its verb and inputs.
pub open spec fn entry_key() -> spec_fn((Op, Seq<u64>, Seq<u64>)) -> (Op, Seq<u64>) {
    |e: (Op, Seq<u64>, Seq<u64>)| (e.0, e.1)
}

/// The outputs of a ledger entry.
pub open spec fn entry_outputs() -> spec_fn((Op, Seq<u64>, Seq<u64>)) -> Seq<u64> {
    |e: (Op, Seq<u64>, Seq<u64>)| e.2
}

/// Entries that make up a valid ledger: no verb and inputs recorded twice.
pub open spec fn ledger_entries_ok(e: Seq<(Op, Seq<u64>, Seq<u64>)>) -> bool {
    keys_distinct(e, entry_key())
}

/// The consistency ledger.
#[derive(Debug, Clone)]
pub struct ConsistencyLedger {
    history: Vec<Signature>,
}

impl View for ConsistencyLedger {
    type V = LedgerMap;

    closed spec fn view(&self) -> LedgerMap {
        history_map(self.history@)
    }
}

impl ConsistencyLedger {
    /// The ledger's internal validity: no signature is recorded twice.
    pub closed spec fn wf(&self) -> bool {
        distinct_keys(self.history@)
    }

    /// The recorded entries, oldest first.
    pub closed spec fn entries(&self) -> Seq<(Op, Seq<u64>, Seq<u64>)> {
        views(self.history@)
    }

    /// A valid ledger's entries are valid.
    pub proof fn lemma_entries_ok(&self)
        requires
            self.wf(),
        ensures
            ledger_entries_ok(self.entries()),
    {
        lemma_assoc_congruent(
            self.history@,
            self.entries(),
            sig_key_fn(),
            sig_out_fn(),
            entry_key(),
            |e: (Op, Seq<u64>, Seq<u64>)| e.2,
        );
    }

    /// The entries stand for the ledger's record.
    pub proof fn lemma_entries_model(&self)
        ensures
            assoc(self.entries(), entry_key(), entry_outputs()) == self@,
    {
        lemma_assoc_congruent(self.history@, self.entries(), sig_key_fn(), sig_out_fn(), entry_key(), entry_outputs());
    }

    /// Ledgers with the same entries have the same model.
    pub proof fn lemma_entries_determine(&self, other: &Self)
        requires
            self.entries() == other.entries(),
        ensures
            self@ == other@,
    {
        assert(self.history@.len() == self.entries().len());
        assert(other.history@.len() == other.entries().len());
        assert forall|j: int| 0 <= j < self.history@.len() implies sig_key_fn()(#[trigger] self.history@[j]) == sig_key_fn()(
            other.history@[j],
        ) && sig_out_fn()(self.history@[j]) == sig_out_fn()(other.history@[j]) by {
            assert(self.entries()[j] == other.entries()[j]);
        }
        lemma_assoc_congruent(self.history@, other.history@, sig_key_fn(), sig_out_fn(), sig_key_fn(), sig_out_fn());
    }

    /// Appends the recorded entries as a JSON list.
    pub fn write_entries(&self, out: &mut String)
        ensures
            final(out)@ == old(out)@ + sig_list_text(self.entries()),
    {
        push_sig_list(out, &self.history);
    }

    /// The ledger made of the given entries, if no verb and inputs occur
    /// twice among them.
    pub fn from_entries(history: &Vec<Signature>) -> (r: Option<Self>)
        ensures
            r is Some <==> ledger_entries_ok(views(history@)),
            r matches Some(l) ==> l.wf() && l.entries() == views(history@),
    {
        let ghost vh = views(history@);
        let mut l = ConsistencyLedger { history: Vec::new() };
        proof {
            assert(l.entries() =~= vh.take(0));
        }
        let mut i: usize = 0;
        while i < history.len()
            invariant
                i <= history@.len(),
                vh == views(history@),
                l.wf(),
                l.entries() == vh.take(i as int),
                keys_distinct(vh.take(i as int), entry_key()),
            decreases history@.len() - i,
        {
            let e = &history[i];
            proof {
                lemma_assoc(l.history@, sig_key_fn(), sig_out_fn());
                assert(vh[i as int] == (e.op, e.inputs@, e.outputs@));
                assert(l.entries().len() == i);
                assert(l.history@.len() == i);
            }
            if l.find(e.op, e.inputs.as_slice()).is_some() {
                proof {
                    let j = choose|j: int| 0 <= j < l.history@.len() && sig_key_fn()(l.history@[j]) == (e.op, e.inputs@);
                    assert(vh.take(i as int)[j] == vh[j]);
                    assert(l.entries()[j] == vh[j]);
                    assert(entry_key()(vh[j]) == entry_key()(vh[i as int]));
                }
                return None;
            }
            let sig = Signature { op: e.op, inputs: copy_slice(e.inputs.as_slice()), outputs: copy_slice(e.outputs.as_slice()) };
            let ghost old_l = l;
            proof {
                lemma_assoc_push(l.history@, sig, sig_key_fn(), sig_out_fn());
            }
            l.history.push(sig);
            proof {
                assert(l.history@ == old_l.history@.push(sig));
                assert forall|j: int| 0 <= j < i implies #[trigger] l.entries()[j] == vh.take(i + 1)[j] by {
                    assert(l.history@[j] == old_l.history@[j]);
                    assert(old_l.entries()[j] == vh.take(i as int)[j]);
                }
                assert(l.entries()[i as int] == vh[i as int]);
                assert(l.entries() =~= vh.take(i + 1));
                assert forall|a: int, b: int| #![trigger vh.take(i + 1)[a], vh.take(i + 1)[b]] 0 <= a < i + 1 && 0 <= b < i + 1 && a != b implies entry_key()(
                    vh.take(i + 1)[a],
                ) != entry_key()(vh.take(i + 1)[b]) by {
                    if a < i && b < i {
                        assert(vh.take(i as int)[a] == vh[a] && vh.take(i as int)[b] == vh[b]);
                    } else if a < i {
                        assert(old_l.entries()[a] == vh[a]);
                        assert(old_l@.contains_key(sig_key_fn()(old_l.history@[a])));
                    } else {
                        assert(old_l.entries()[b] == vh[b]);
                        assert(old_l@.contains_key(sig_key_fn()(old_l.history@[b])));
                    }
                }
            }
            i = i + 1;
        }
        proof {
            assert(vh.take(i as int) =~= vh);
        }
        Some(l)
    }

    /// An empty ledger.
    pub fn new() -> (l: Self)
        ensures
            l.wf(),
            l@ == LedgerMap::empty(),
    {
        ConsistencyLedger { history: Vec::new() }
    }

    fn find(&self, op: Op, inputs: &[u64]) -> (r: Option<usize>)
        requires
            self.wf(),
        ensures
            r is None <==> !self@.contains_key((op, inputs@)),
            r matches Some(i) ==> i < self.history@.len() && sig_key(self.history@[i as int]) == (op, inputs@)
                && self@[(op, inputs@)] == self.history@[i as int].outputs@,
    {
        proof { lemma_assoc(self.history@, sig_key_fn(), sig_out_fn()); }
        let mut i: usize = 0;
        while i < self.history.len()
            invariant
                self.wf(),
                i <= self.history@.len(),
                forall|j: int| 0 <= j < i ==> sig_key(self.history@[j]) != (op, inputs@),
            decreases self.history@.len() - i,
        {
            let entry = &self.history[i];
            if entry.op == op && same_u64s(entry.inputs.as_slice(), inputs) {
                assert(sig_key(self.history@[i as int]) == (op, inputs@));
                proof { lemma_assoc(self.history@, sig_key_fn(), sig_out_fn()); }
                return Some(i);
            }
            i = i + 1;
        }
        assert(!self@.contains_key((op, inputs@)));
        None
    }

    /// Judges the signature `(op, inputs) -> outputs` against the record and
    /// records it when it is novel.
    pub fn check(&mut self, op: Op, inputs: &[u64], outputs: &[u64]) -> (v: LedgerVerdict)
        requires
            old(self).wf(),
        ensures
            final(self).wf(),
            final(self)@ == record(old(self)@, op, inputs@, outputs@),
            v@ == verdict_of(old(self)@, op, inputs@, outputs@),
            v matches LedgerVerdict::Contradiction(sig) ==> sig.op == op && sig.inputs@ == inputs@,
    {
        match self.find(op, inputs) {
            Some(i) => {
                let prior = &self.history[i];
                if same_u64s(prior.outputs.as_slice(), outputs) {
                    LedgerVerdict::Consistent
                } else {
                    LedgerVerdict::Contradiction(Signature {
                        op,
                        inputs: copy_slice(inputs),
                        outputs: copy_slice(prior.outputs.as_slice()),
                    })
                }
            },
            None => {
                let sig = Signature { op, inputs: copy_slice(inputs), outputs: copy_slice(outputs) };
                proof { lemma_assoc(self.history@, sig_key_fn(), sig_out_fn()); }
                proof { lemma_assoc_push(self.history@, sig, sig_key_fn(), sig_out_fn()); }
                self.history.push(sig);
                LedgerVerdict::Novel
            },
        }
    }

    /// A copy of this ledger.
    pub fn duplicate(&self) -> (l: Self)
        requires
            self.wf(),
        ensures
            l.wf(),
            l@ == self@,
    {
        let mut history: Vec<Signature> = Vec::with_capacity(self.history.len());
        let mut i: usize = 0;
        while i < self.history.len()
            invariant
                i <= self.history@.len(),
                history@.len() == i,
                forall|j: int| 0 <= j < i ==> sig_key(#[trigger] history@[j]) == sig_key(self.history@[j])
                    && history@[j].outputs@ == self.history@[j].outputs@,
            decreases self.history@.len() - i,
        {
            let e = &self.history[i];
            history.push(Signature {
                op: e.op,
                inputs: copy_slice(e.inputs.as_slice()),
                outputs: copy_slice(e.outputs.as_slice()),
            });
            i = i + 1;
        }
        let l = ConsistencyLedger { history };
        proof { lemma_assoc_congruent(l.history@, self.history@, sig_key_fn(), sig_out_fn(), sig_key_fn(), sig_out_fn()); }
        l
    }
}

} // verus!

verus! {

impl Default for ConsistencyLedger {
    /// An empty ledger, as `new`.
    fn default() -> (l: Self)
        ensures
            l.wf(),
            l@ == LedgerMap::empty(),
    {
        Self::new()
    }
}

/// Declaring a signature never forgets or rewrites what the ledger recorded:
/// the old record is contained in the new one, and the outputs recorded for
/// the declared verb and inputs are the first ones ever declared.
pub proof fn law_first_declaration_wins(h: LedgerMap, op: Op, ins: Seq<u64>, outs: Seq<u64>)
    ensures
        h.submap_of(record(h, op, ins, outs)),
        record(h, op, ins, outs).contains_key((op, ins)),
        record(h, op, ins, outs)[(op, ins)] == (if h.contains_key((op, ins)) { h[(op, ins)] } else { outs }),
{
}

/// Declaring again a signature that was novel or consistent is consistent.
pub proof fn law_repeat_is_consistent(h: LedgerMap, op: Op, ins: Seq<u64>, outs: Seq<u64>)
    requires
        !(verdict_of(h, op, ins, outs) is Contradiction),
    ensures
        verdict_of(record(h, op, ins, outs), op, ins, outs) == VerdictModel::Consistent,
{
}

/// A contradiction leaves the record unchanged, names the recorded outputs,
/// which differ from the declared ones, and is reported again on a repeat.
pub proof fn law_contradiction_is_stable(h: LedgerMap, op: Op, ins: Seq<u64>, outs: Seq<u64>)
    requires
        verdict_of(h, op, ins, outs) is Contradiction,
    ensures
        record(h, op, ins, outs) == h,
        verdict_of(h, op, ins, outs) == VerdictModel::Contradiction(h[(op, ins)]),
        h[(op, ins)] != outs,
        verdict_of(record(h, op, ins, outs), op, ins, outs) == verdict_of(h, op, ins, outs),
{
}

/// Declaring one signature does not change the verdict on any signature with
/// another verb or other input types.
pub proof fn law_other_signatures_unaffected(
    h: LedgerMap,
    op: Op,
    ins: Seq<u64>,
    outs: Seq<u64>,
    op2: Op,
    ins2: Seq<u64>,
    outs2: Seq<u64>,
)
    requires
        (op, ins) != (op2, ins2),
    ensures
        verdict_of(record(h, op, ins, outs), op2, ins2, outs2) == verdict_of(h, op2, ins2, outs2),
{
}

/// On a fresh verb and input types, the first declaration is novel; a second
/// one is consistent when it declares the same outputs and otherwise a
/// contradiction that names the first outputs.
pub proof fn law_second_declaration(h: LedgerMap, op: Op, ins: Seq<u64>, first: Seq<u64>, second: Seq<u64>)
    requires
        !h.contains_key((op, ins)),
    ensures
        verdict_of(h, op, ins, first) == VerdictModel::Novel,
        verdict_of(record(h, op, ins, first), op, ins, second) == (if first == second {
            VerdictModel::Consistent
        } else {
            VerdictModel::Contradiction(first)
        }),
{
}

} // verus!
