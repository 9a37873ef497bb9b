//! Ops, their abstract values, and the meaning of every primitive op on the
//! operand stack.
use vstd::prelude::*;

verus! {

/// One element of an execution stream.
pub enum Op {
    Num(i64),
    Add,
    Sub,
    Mul,
    Div,
    Dot,
    Emit,
    Swap,
    Dup,
    Over,
    Rot,
    Drop,
    Word(String),
}

/// The abstract value of an `Op`: a word is named by its characters.
pub enum OpV {
    Num(i64),
    Add,
    Sub,
    Mul,
    Div,
    Dot,
    Emit,
    Swap,
    Dup,
    Over,
    Rot,
    Drop,
    Word(Seq<char>),
}

impl View for Op {
    type V = OpV;

    open spec fn view(&self) -> OpV {
        match self {
            Op::Num(n) => OpV::Num(*n),
            Op::Add => OpV::Add,
            Op::Sub => OpV::Sub,
            Op::Mul => OpV::Mul,
            Op::Div => OpV::Div,
            Op::Dot => OpV::Dot,
            Op::Emit => OpV::Emit,
            Op::Swap => OpV::Swap,
            Op::Dup => OpV::Dup,
            Op::Over => OpV::Over,
            Op::Rot => OpV::Rot,
            Op::Drop => OpV::Drop,
            Op::Word(w) => OpV::Word(w@),
        }
    }
}

/// The abstract value of a sequence of ops.
pub open spec fn ops_view(s: Seq<Op>) -> Seq<OpV> {
    s.map_values(|o: Op| o@)
}

impl Op {
    /// A copy of this op.
    pub fn duplicate(&self) -> (r: Op)
        ensures
            r@ == self@,
    {
        match self {
            Op::Num(n) => Op::Num(*n),
            Op::Add => Op::Add,
            Op::Sub => Op::Sub,
            Op::Mul => Op::Mul,
            Op::Div => Op::Div,
            Op::Dot => Op::Dot,
            Op::Emit => Op::Emit,
            Op::Swap => Op::Swap,
            Op::Dup => Op::Dup,
            Op::Over => Op::Over,
            Op::Rot => Op::Rot,
            Op::Drop => Op::Drop,
            Op::Word(w) => Op::Word(w.clone()),
        }
    }
}

/// A copy of a sequence of ops.
pub fn copy_ops(v: &Vec<Op>) -> (r: Vec<Op>)
    ensures
        ops_view(r@) == ops_view(v@),
{
    let mut r: Vec<Op> = Vec::new();
    let mut i: usize = 0;
    while i < v.len()
        invariant
            i <= v.len(),
            r@.len() == i,
            forall|j: int| 0 <= j < i ==> (#[trigger] r@[j])@ == v@[j]@,
        decreases v.len() - i,
    {
        r.push(v[i].duplicate());
        i = i + 1;
    }
    assert(ops_view(r@) =~= ops_view(v@));
    r
}

/// Failures of the interpreter.
#[derive(PartialEq, Eq, Structural, Clone, Copy, Debug)]
pub enum OpError {
    StackUnderflow,
    UndefinedWord,
    InvalidCharCode,
    /// A division by zero, or of the least `i64` by -1: the native code traps
    /// on both.
    InvalidDivision,
}

impl OpError {
    /// The lowercase name of the failure, as the REPL reports it.
    pub fn message(&self) -> (r: &'static str)
        ensures
            r@ == error_message(*self),
    {
        match self {
            OpError::StackUnderflow => "stack underflow",
            OpError::UndefinedWord => "undefined word",
            OpError::InvalidCharCode => "invalid char code",
            OpError::InvalidDivision => "invalid division",
        }
    }
}

pub open spec fn error_message(e: OpError) -> Seq<char> {
    match e {
        OpError::StackUnderflow => "stack underflow"@,
        OpError::UndefinedWord => "undefined word"@,
        OpError::InvalidCharCode => "invalid char code"@,
        OpError::InvalidDivision => "invalid division"@,
    }
}

/// Something an op writes to standard output.
#[derive(PartialEq, Eq, Structural, Clone, Copy, Debug)]
pub enum Out {
    /// The decimal rendering of an integer.
    Int(i64),
    /// One character, given by its Unicode scalar value.
    Char(u32),
}

/// A Unicode scalar value: in range and not a surrogate.
pub open spec fn is_scalar(a: int) -> bool {
    (0 <= a && a <= 0xD7FF) || (0xE000 <= a && a <= 0x10FFFF)
}

/// The quotient of a signed division truncated toward zero, or `None` where it
/// faults (zero divisor, or the one quotient that does not fit).
pub open spec fn quotient(a: i64, b: i64) -> Option<i64> {
    a.checked_div(b)
}

/// What a primitive op (anything but a word call) does to the stack, and what
/// it prints. The second-popped operand is the left one.
pub open spec fn apply_op(s: Seq<i64>, op: OpV) -> Result<(Seq<i64>, Seq<Out>), OpError> {
    let n = s.len();
    match op {
        OpV::Num(v) => Ok((s.push(v), seq![])),
        OpV::Word(_) => Err(OpError::UndefinedWord),
        OpV::Add | OpV::Sub | OpV::Mul | OpV::Div | OpV::Swap | OpV::Over => {
            if n < 2 {
                Err(OpError::StackUnderflow)
            } else {
                let a = s[n - 2];
                let b = s[n - 1];
                let base = s.take(n - 2);
                match op {
                    OpV::Add => Ok((base.push(a.wrapping_add(b)), seq![])),
                    OpV::Sub => Ok((base.push(a.wrapping_sub(b)), seq![])),
                    OpV::Mul => Ok((base.push(a.wrapping_mul(b)), seq![])),
                    OpV::Div => match quotient(a, b) {
                        Some(q) => Ok((base.push(q), seq![])),
                        None => Err(OpError::InvalidDivision),
                    },
                    OpV::Swap => Ok((base.push(b).push(a), seq![])),
                    _ => Ok((base.push(a).push(b).push(a), seq![])),
                }
            }
        },
        OpV::Rot => {
            if n < 3 {
                Err(OpError::StackUnderflow)
            } else {
                Ok((s.take(n - 3).push(s[n - 2]).push(s[n - 1]).push(s[n - 3]), seq![]))
            }
        },
        OpV::Dup | OpV::Drop | OpV::Dot | OpV::Emit => {
            if n < 1 {
                Err(OpError::StackUnderflow)
            } else {
                let a = s[n - 1];
                let base = s.take(n - 1);
                match op {
                    OpV::Dup => Ok((s.push(a), seq![])),
                    OpV::Drop => Ok((base, seq![])),
                    OpV::Dot => Ok((base, seq![Out::Int(a)])),
                    _ => if is_scalar(a as int) {
                        Ok((base, seq![Out::Char(a as u32)]))
                    } else {
                        Err(OpError::InvalidCharCode)
                    },
                }
            }
        },
    }
}

/// The stack that a failing primitive op leaves: it has already popped what it
/// could, and nothing is put back.
pub open spec fn stack_after_failure(s: Seq<i64>, op: OpV) -> Seq<i64> {
    let n = s.len();
    match op {
        OpV::Add | OpV::Sub | OpV::Mul | OpV::Div | OpV::Swap | OpV::Over => {
            if n < 2 { seq![] } else { s.take(n - 2) }
        },
        OpV::Rot => seq![],
        OpV::Dup | OpV::Drop | OpV::Dot | OpV::Emit => {
            if n < 1 { seq![] } else { s.take(n - 1) }
        },
        _ => s,
    }
}

/// Interpretation of a sequence of primitive ops from `s`: the final stack and
/// everything printed, or the first failure. A word call fails here, as it
/// would against an empty dictionary.
pub open spec fn run_prims(s: Seq<i64>, ops: Seq<OpV>) -> Result<(Seq<i64>, Seq<Out>), OpError>
    decreases ops.len(),
{
    if ops.len() == 0 {
        Ok((s, seq![]))
    } else {
        match run_prims(s, ops.drop_last()) {
            Ok((s1, out1)) => match apply_op(s1, ops.last()) {
                Ok((s2, out2)) => Ok((s2, out1 + out2)),
                Err(e) => Err(e),
            },
            Err(e) => Err(e),
        }
    }
}

} // verus!
