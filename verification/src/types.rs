//! The ontic type constants, the verbs and adverbs, the error type and the
//! typed tensor.
use vstd::prelude::*;
use crate::text::{decimal, list_text, push_decimal, push_list};
use crate::seqs::copy_slice;

verus! {

/// Absence of type.
pub const NULL_TYPE: u64 = 0x0000;
/// Dimensionless quantity.
pub const SCALAR: u64 = 0x0001;
/// Length.
pub const METER: u64 = 0x0002;
/// Mass.
pub const KILOGRAM: u64 = 0x0003;
/// Time.
pub const SECOND: u64 = 0x0004;
/// Boolean or predicate result.
pub const BIT: u64 = 0x0005;
/// The first identifier handed out to user-defined types.
pub const FIRST_USER_TYPE: u64 = 0x1000;

/// The dyadic verbs. Each applies element-wise to tensors.
#[derive(Debug, Clone, Copy, PartialEq, Eq, Hash, Structural)]
pub enum Op {
    Add,
    Subtract,
    Multiply,
    Divide,
    Max,
    Min,
}

/// The adverbs, which modify how a verb is applied.
#[derive(Debug, Clone, Copy, PartialEq, Eq, Hash, Structural)]
pub enum Adverb {
    Reduce,
    Scan,
    Each,
    Table,
}

/// The numeric code of a verb, as used across the C interface.
pub open spec fn op_code_spec(op: Op) -> u32 {
    match op {
        Op::Add => 1,
        Op::Subtract => 2,
        Op::Multiply => 3,
        Op::Divide => 4,
        Op::Max => 5,
        Op::Min => 6,
    }
}

/// The numeric code of an adverb, as used across the C interface.
pub open spec fn adverb_code_spec(adverb: Adverb) -> u32 {
    match adverb {
        Adverb::Reduce => 1,
        Adverb::Scan => 2,
        Adverb::Each => 3,
        Adverb::Table => 4,
    }
}

impl View for Op {
    type V = Op;

    open spec fn view(&self) -> Op {
        *self
    }
}

/// The numeric codes of the verbs: Add 1, Subtract 2, Multiply 3, Divide 4,
/// Max 5, Min 6; and of the adverbs: Reduce 1, Scan 2, Each 3, Table 4.
/// Reading a code gives back the verb or adverb with that code, and no
/// other code names one.
pub proof fn law_codes()
    ensures
        op_code_spec(Op::Add) == 1,
        op_code_spec(Op::Subtract) == 2,
        op_code_spec(Op::Multiply) == 3,
        op_code_spec(Op::Divide) == 4,
        op_code_spec(Op::Max) == 5,
        op_code_spec(Op::Min) == 6,
        adverb_code_spec(Adverb::Reduce) == 1,
        adverb_code_spec(Adverb::Scan) == 2,
        adverb_code_spec(Adverb::Each) == 3,
        adverb_code_spec(Adverb::Table) == 4,
        forall|op: Op| 1 <= #[trigger] op_code_spec(op) <= 6,
        forall|a: Adverb| 1 <= #[trigger] adverb_code_spec(a) <= 4,
{
}

/// Distinct verbs have distinct codes.
pub proof fn lemma_op_code_injective(a: Op, b: Op)
    ensures
        op_code_spec(a) == op_code_spec(b) ==> a == b,
{
}

impl Op {
    /// The numeric code of this verb (`Add` is 1, ..., `Min` is 6).
    pub fn code(&self) -> (c: u32)
        ensures
            c == op_code_spec(*self),
    {
        match self {
            Op::Add => 1,
            Op::Subtract => 2,
            Op::Multiply => 3,
            Op::Divide => 4,
            Op::Max => 5,
            Op::Min => 6,
        }
    }

    /// The verb with the given numeric code, if there is one.
    pub fn from_code(code: u32) -> (r: Option<Op>)
        ensures
            r matches Some(op) ==> op_code_spec(op) == code,
            r is None <==> !(1 <= code <= 6),
    {
        if code == 1 {
            Some(Op::Add)
        } else if code == 2 {
            Some(Op::Subtract)
        } else if code == 3 {
            Some(Op::Multiply)
        } else if code == 4 {
            Some(Op::Divide)
        } else if code == 5 {
            Some(Op::Max)
        } else if code == 6 {
            Some(Op::Min)
        } else {
            None
        }
    }
}

/// The name of an adverb, as its debug rendering spells it.
pub open spec fn adverb_name(adverb: Adverb) -> Seq<char> {
    match adverb {
        Adverb::Reduce => "Reduce"@,
        Adverb::Scan => "Scan"@,
        Adverb::Each => "Each"@,
        Adverb::Table => "Table"@,
    }
}

impl Adverb {
    /// The numeric code of this adverb (`Reduce` is 1, ..., `Table` is 4).
    pub fn code(&self) -> (c: u32)
        ensures
            c == adverb_code_spec(*self),
    {
        match self {
            Adverb::Reduce => 1,
            Adverb::Scan => 2,
            Adverb::Each => 3,
            Adverb::Table => 4,
        }
    }

    /// The adverb with the given numeric code, if there is one.
    pub fn from_code(code: u32) -> (r: Option<Adverb>)
        ensures
            r matches Some(a) ==> adverb_code_spec(a) == code,
            r is None <==> !(1 <= code <= 4),
    {
        if code == 1 {
            Some(Adverb::Reduce)
        } else if code == 2 {
            Some(Adverb::Scan)
        } else if code == 3 {
            Some(Adverb::Each)
        } else if code == 4 {
            Some(Adverb::Table)
        } else {
            None
        }
    }

    /// The name of this adverb.
    pub fn name(&self) -> (s: &'static str)
        ensures
            s@ == adverb_name(*self),
    {
        match self {
            Adverb::Reduce => "Reduce",
            Adverb::Scan => "Scan",
            Adverb::Each => "Each",
            Adverb::Table => "Table",
        }
    }
}

/// The errors of the library.
#[derive(Debug, Clone)]
pub enum NexusError {
    TypeAlreadyExists(String),
    TypeNotFound(String),
    StackUnderflow,
    ConversionNotFound(u64, u64),
    ExecutionError(String),
    ShapeMismatch(Vec<usize>, Vec<usize>),
}

/// The human-readable text of an error.
pub open spec fn error_text(e: NexusError) -> Seq<char> {
    match e {
        NexusError::TypeAlreadyExists(name) => "Type alias already exists: "@ + name@,
        NexusError::TypeNotFound(name) => "Type alias not found: "@ + name@,
        NexusError::StackUnderflow => "Not enough values on stack"@,
        NexusError::ConversionNotFound(from, to) => "No bridge found to convert from "@ + decimal(
            from as nat,
        ) + " to "@ + decimal(to as nat),
        NexusError::ExecutionError(msg) => "Execution error: "@ + msg@,
        NexusError::ShapeMismatch(s1, s2) => "Shape mismatch: "@ + list_text(s1@) + " vs "@
            + list_text(s2@),
    }
}

impl NexusError {
    /// The human-readable text of this error.
    pub fn message(&self) -> (s: String)
        ensures
            s@ == error_text(*self),
    {
        let mut s = String::new();
        match self {
            NexusError::TypeAlreadyExists(name) => {
                s.append("Type alias already exists: ");
                s.append(name.as_str());
            },
            NexusError::TypeNotFound(name) => {
                s.append("Type alias not found: ");
                s.append(name.as_str());
            },
            NexusError::StackUnderflow => {
                s.append("Not enough values on stack");
            },
            NexusError::ConversionNotFound(from, to) => {
                s.append("No bridge found to convert from ");
                push_decimal(&mut s, *from);
                s.append(" to ");
                push_decimal(&mut s, *to);
            },
            NexusError::ExecutionError(msg) => {
                s.append("Execution error: ");
                s.append(msg.as_str());
            },
            NexusError::ShapeMismatch(s1, s2) => {
                s.append("Shape mismatch: ");
                push_list(&mut s, s1.as_slice());
                s.append(" vs ");
                push_list(&mut s, s2.as_slice());
            },
        }
        s
    }
}

/// The text of a type mismatch between a declared and a found ontic type.
pub open spec fn mismatch_text(expected: u64, found: u64) -> Seq<char> {
    "Type mismatch. Expected "@ + decimal(expected as nat) + ", found "@ + decimal(found as nat)
}

/// Builds the text of a type mismatch.
pub fn mismatch_message(expected: u64, found: u64) -> (s: String)
    ensures
        s@ == mismatch_text(expected, found),
{
    let mut s = String::new();
    s.append("Type mismatch. Expected ");
    push_decimal(&mut s, expected);
    s.append(", found ");
    push_decimal(&mut s, found);
    s
}

/// Whether `d` is a value that `T::default()` may return.
pub open spec fn is_default<T: Default>(d: T) -> bool {
    call_ensures(T::default, (), d)
}

/// The model of a tensor.
pub struct TensorModel<T> {
    pub data: Seq<T>,
    pub shape: Seq<usize>,
    pub ontic_type: u64,
}

impl<T> TensorModel<T> {
    /// A tensor counts as a scalar when its shape is `[]` or `[1]`.
    pub open spec fn scalar_shape(self) -> bool {
        self.shape.len() == 0 || (self.shape.len() == 1 && self.shape[0] == 1)
    }

    /// The value a scalar stands for: its first element, or `d` (the
    /// default value) when it holds no data.
    pub open spec fn scalar_elem(self, d: T) -> T {
        if self.data.len() > 0 { self.data[0] } else { d }
    }
}

/// A tensor: flat data, a shape, and the ontic type of the whole.
#[derive(Debug, Clone, PartialEq)]
pub struct TypedTensor<T> {
    pub data: Vec<T>,
    pub shape: Vec<usize>,
    pub ontic_type: u64,
}

impl<T> View for TypedTensor<T> {
    type V = TensorModel<T>;

    open spec fn view(&self) -> TensorModel<T> {
        TensorModel { data: self.data@, shape: self.shape@, ontic_type: self.ontic_type }
    }
}

impl<T> TypedTensor<T> {
    /// Whether this tensor counts as a scalar (shape `[]` or `[1]`).
    pub fn is_scalar(&self) -> (r: bool)
        ensures
            r == self@.scalar_shape(),
    {
        self.shape.len() == 0 || (self.shape.len() == 1 && self.shape[0] == 1)
    }
}

impl<T: Copy> TypedTensor<T> {
    /// A copy of this tensor.
    pub fn duplicate(&self) -> (r: Self)
        ensures
            r@ == self@,
    {
        TypedTensor {
            data: copy_slice(self.data.as_slice()),
            shape: copy_slice(self.shape.as_slice()),
            ontic_type: self.ontic_type,
        }
    }
}

/// `b` is `a` with every element mapped through `g`: same type and shape,
/// and each element of `b` a result of `g` on the element of `a` at its
/// position.
pub open spec fn tensor_mapped<T, U, G: Fn(T) -> U>(a: TensorModel<T>, b: TensorModel<U>, g: G) -> bool {
    &&& b.shape == a.shape
    &&& b.ontic_type == a.ontic_type
    &&& b.data.len() == a.data.len()
    &&& forall|i: int| 0 <= i < a.data.len() ==> call_ensures(g, (a.data[i],), #[trigger] b.data[i])
}

impl<T: Copy> TypedTensor<T> {
    /// This tensor with every element mapped through `g`.
    pub fn map_data<U, G: Fn(T) -> U>(&self, g: &G) -> (r: TypedTensor<U>)
        requires
            forall|x: T| call_requires(*g, (x,)),
        ensures
            tensor_mapped(self@, r@, *g),
    {
        let mut data: Vec<U> = Vec::with_capacity(self.data.len());
        let mut i: usize = 0;
        while i < self.data.len()
            invariant
                i <= self.data@.len(),
                data@.len() == i,
                forall|x: T| call_requires(*g, (x,)),
                forall|j: int| 0 <= j < i ==> call_ensures(*g, (self.data@[j],), #[trigger] data@[j]),
            decreases self.data@.len() - i,
        {
            let y = g(self.data[i]);
            data.push(y);
            i = i + 1;
        }
        TypedTensor { data, shape: copy_slice(self.shape.as_slice()), ontic_type: self.ontic_type }
    }
}

impl<T: Copy + Default> TypedTensor<T> {
    /// The first element, or the default value when there is no data.
    pub fn scalar_value(&self) -> (r: T)
        ensures
            self.data@.len() > 0 ==> r == self.data@[0],
            self.data@.len() == 0 ==> is_default(r),
    {
        if self.data.len() == 0 {
            T::default()
        } else {
            self.data[0]
        }
    }
}

} // verus!
