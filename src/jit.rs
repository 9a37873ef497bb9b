//! Shadow-stack lowering of a word body to straight-line code for the JIT.
//!
//! The code is in SSA form: instruction `k` defines value `k` (an instruction
//! that yields nothing defines 0). Values live in registers; the operand stack
//! is reached only through the host's `pop` and `push` callbacks, so a body
//! made of literals, arithmetic and shuffles touches it only to read missing
//! operands and, at the end, to write its results.
use vstd::prelude::*;
use crate::ops::{Op, OpV, Out, apply_op, ops_view, quotient, run_prims};
use crate::words::Words;

verus! {

/// The arithmetic instructions.
#[derive(PartialEq, Eq, Structural, Clone, Copy, Debug)]
pub enum BinOp {
    Add,
    Sub,
    Mul,
    Div,
}

/// One instruction of a compiled word.
pub enum Inst {
    /// A constant.
    Const(i64),
    /// Arithmetic on two earlier values.
    Bin(BinOp, usize, usize),
    /// Call the host's pop callback; its result is the value.
    Pop,
    /// Call the host's push callback with an earlier value.
    Push(usize),
    /// Call the host's print callback with an earlier value.
    Print(usize),
    /// Flushed call of another word, by name.
    Call(String),
}

/// The abstract value of an `Inst`.
pub enum InstV {
    Const(i64),
    Bin(BinOp, usize, usize),
    Pop,
    Push(usize),
    Print(usize),
    Call(Seq<char>),
}

impl View for Inst {
    type V = InstV;

    open spec fn view(&self) -> InstV {
        match self {
            Inst::Const(n) => InstV::Const(*n),
            Inst::Bin(b, x, y) => InstV::Bin(*b, *x, *y),
            Inst::Pop => InstV::Pop,
            Inst::Push(v) => InstV::Push(*v),
            Inst::Print(v) => InstV::Print(*v),
            Inst::Call(w) => InstV::Call(w@),
        }
    }
}

pub open spec fn insts_view(s: Seq<Inst>) -> Seq<InstV> {
    s.map_values(|i: Inst| i@)
}

/// Why a word cannot be compiled.
#[derive(PartialEq, Eq, Structural, Clone, Copy, Debug)]
pub enum JitError {
    /// The body holds an op that the compiler does not lower (`emit`).
    Unsupported,
    /// The body calls a word that the batch does not define.
    UnresolvedWord,
}

// ----- the lowering, stated -----

/// An operand for the next op: the top of the shadow stack, or, when that is
/// empty, the result of a new pop callback.
pub open spec fn take_value(code: Seq<InstV>, shadow: Seq<usize>) -> (Seq<InstV>, Seq<usize>, usize) {
    if shadow.len() > 0 {
        (code, shadow.drop_last(), shadow.last())
    } else {
        (code.push(InstV::Pop), shadow, code.len() as usize)
    }
}

/// The code followed by one push callback per shadow value, bottom first.
pub open spec fn flushed(code: Seq<InstV>, shadow: Seq<usize>) -> Seq<InstV> {
    code + shadow.map_values(|v: usize| InstV::Push(v))
}

pub open spec fn bin_of(op: OpV) -> BinOp {
    match op {
        OpV::Add => BinOp::Add,
        OpV::Sub => BinOp::Sub,
        OpV::Mul => BinOp::Mul,
        _ => BinOp::Div,
    }
}

/// Lowering of one op, from the code and shadow stack so far; `None` where
/// the op is not lowered.
pub open spec fn lower_op(code: Seq<InstV>, sh: Seq<usize>, op: OpV) -> Option<(Seq<InstV>, Seq<usize>)> {
    match op {
        OpV::Num(n) => Some((code.push(InstV::Const(n)), sh.push(code.len() as usize))),
        OpV::Add | OpV::Sub | OpV::Mul | OpV::Div => {
            let (c1, s1, b) = take_value(code, sh);
            let (c2, s2, a) = take_value(c1, s1);
            Some((c2.push(InstV::Bin(bin_of(op), a, b)), s2.push(c2.len() as usize)))
        },
        OpV::Dot => {
            let (c1, s1, a) = take_value(code, sh);
            Some((c1.push(InstV::Print(a)), s1))
        },
        OpV::Dup => {
            let (c1, s1, a) = take_value(code, sh);
            Some((c1, s1.push(a).push(a)))
        },
        OpV::Swap => {
            let (c1, s1, b) = take_value(code, sh);
            let (c2, s2, a) = take_value(c1, s1);
            Some((c2, s2.push(b).push(a)))
        },
        OpV::Over => {
            let (c1, s1, b) = take_value(code, sh);
            let (c2, s2, a) = take_value(c1, s1);
            Some((c2, s2.push(a).push(b).push(a)))
        },
        OpV::Rot => {
            let (c1, s1, c) = take_value(code, sh);
            let (c2, s2, b) = take_value(c1, s1);
            let (c3, s3, a) = take_value(c2, s2);
            Some((c3, s3.push(b).push(c).push(a)))
        },
        OpV::Drop => {
            let (c1, s1, a) = take_value(code, sh);
            Some((c1, s1))
        },
        OpV::Word(w) => Some((flushed(code, sh).push(InstV::Call(w)), seq![])),
        OpV::Emit => None,
    }
}

/// The code and shadow stack after lowering `ops`, before the final flush.
pub open spec fn lower_ops(ops: Seq<OpV>) -> Option<(Seq<InstV>, Seq<usize>)>
    decreases ops.len(),
{
    if ops.len() == 0 {
        Some((seq![], seq![]))
    } else {
        match lower_ops(ops.drop_last()) {
            Some((code, sh)) => lower_op(code, sh, ops.last()),
            None => None,
        }
    }
}

/// The compiled body of a word: its lowering and a final flush.
pub open spec fn lowered(ops: Seq<OpV>) -> Option<Seq<InstV>> {
    match lower_ops(ops) {
        Some((code, sh)) => Some(flushed(code, sh)),
        None => None,
    }
}

/// The instructions that define a value: a constant, arithmetic, a pop.
pub open spec fn defines_value(i: InstV) -> bool {
    i is Const || i is Bin || i is Pop
}

/// Operand `v` of instruction `k` is a value defined before it.
pub open spec fn operand_ok(code: Seq<InstV>, k: int, v: usize) -> bool {
    v < k && defines_value(code[v as int])
}

/// Every operand of the code names a value defined earlier.
pub open spec fn code_wf(code: Seq<InstV>) -> bool {
    forall|k: int| 0 <= k < code.len() ==> match #[trigger] code[k] {
        InstV::Bin(_, a, b) => operand_ok(code, k, a) && operand_ok(code, k, b),
        InstV::Push(v) => operand_ok(code, k, v),
        InstV::Print(v) => operand_ok(code, k, v),
        _ => true,
    }
}

/// Every shadow entry names a value that the code defines.
pub open spec fn shadow_ok(code: Seq<InstV>, sh: Seq<usize>) -> bool {
    forall|j: int| 0 <= j < sh.len() ==> #[trigger] sh[j] < code.len() && defines_value(code[sh[j] as int])
}

proof fn lemma_wf_push(code: Seq<InstV>, i: InstV)
    requires
        code_wf(code),
        match i {
            InstV::Bin(_, a, b) => operand_ok(code, code.len() as int, a) && operand_ok(code, code.len() as int, b),
            InstV::Push(v) => operand_ok(code, code.len() as int, v),
            InstV::Print(v) => operand_ok(code, code.len() as int, v),
            _ => true,
        },
    ensures
        code_wf(code.push(i)),
        forall|k: int| 0 <= k < code.len() ==> code.push(i)[k] == code[k],
{
    let c = code.push(i);
    assert forall|k: int| 0 <= k < c.len() implies match #[trigger] c[k] {
        InstV::Bin(_, a, b) => operand_ok(c, k, a) && operand_ok(c, k, b),
        InstV::Push(v) => operand_ok(c, k, v),
        InstV::Print(v) => operand_ok(c, k, v),
        _ => true,
    } by {
        if k < code.len() {
            assert(c[k] == code[k]);
            match code[k] {
                InstV::Bin(_, a, b) => { assert(c[a as int] == code[a as int]); assert(c[b as int] == code[b as int]); },
                InstV::Push(v) => { assert(c[v as int] == code[v as int]); },
                InstV::Print(v) => { assert(c[v as int] == code[v as int]); },
                _ => {},
            }
        } else {
            match i {
                InstV::Bin(_, a, b) => { assert(c[a as int] == code[a as int]); assert(c[b as int] == code[b as int]); },
                InstV::Push(v) => { assert(c[v as int] == code[v as int]); },
                InstV::Print(v) => { assert(c[v as int] == code[v as int]); },
                _ => {},
            }
        }
    }
}

proof fn lemma_wf_take(code: Seq<InstV>, sh: Seq<usize>)
    requires
        code_wf(code),
        shadow_ok(code, sh),
        code.len() < usize::MAX,
    ensures
        ({
            let (c1, s1, v) = take_value(code, sh);
            &&& code_wf(c1)
            &&& shadow_ok(c1, s1)
            &&& v < c1.len() && defines_value(c1[v as int])
            &&& c1.len() >= code.len()
        }),
{
    if sh.len() > 0 {
        assert(sh.last() == sh[sh.len() - 1]);
        let s1 = sh.drop_last();
        assert forall|j: int| 0 <= j < s1.len() implies #[trigger] s1[j] < code.len() && defines_value(code[s1[j] as int]) by {
            assert(s1[j] == sh[j]);
        }
    } else {
        lemma_wf_push(code, InstV::Pop);
        let c1 = code.push(InstV::Pop);
        assert(c1[code.len() as int] == InstV::Pop);
    }
}

proof fn lemma_shadow_grow(code: Seq<InstV>, c2: Seq<InstV>, sh: Seq<usize>, v: usize)
    requires
        shadow_ok(code, sh),
        c2.len() >= code.len(),
        forall|k: int| 0 <= k < code.len() ==> c2[k] == code[k],
        v < c2.len() && defines_value(c2[v as int]),
    ensures
        shadow_ok(c2, sh),
        shadow_ok(c2, sh.push(v)),
{
    assert forall|j: int| 0 <= j < sh.push(v).len() implies #[trigger] sh.push(v)[j] < c2.len() && defines_value(c2[sh.push(v)[j] as int]) by {
        if j < sh.len() {
            assert(sh.push(v)[j] == sh[j]);
            assert(c2[sh[j] as int] == code[sh[j] as int]);
        }
    }
    assert forall|j: int| 0 <= j < sh.len() implies #[trigger] sh[j] < c2.len() && defines_value(c2[sh[j] as int]) by {
        assert(c2[sh[j] as int] == code[sh[j] as int]);
    }
}

proof fn lemma_wf_flush(code: Seq<InstV>, sh: Seq<usize>, k: int)
    requires
        code_wf(code),
        shadow_ok(code, sh),
        0 <= k <= sh.len(),
    ensures
        code_wf(flushed(code, sh.take(k))),
        flushed(code, sh.take(k)).len() == code.len() + k,
        forall|i: int| 0 <= i < code.len() ==> flushed(code, sh.take(k))[i] == code[i],
    decreases k,
{
    if k == 0 {
        assert(flushed(code, sh.take(0)) =~= code);
    } else {
        lemma_wf_flush(code, sh, k - 1);
        let f = flushed(code, sh.take(k - 1));
        assert(flushed(code, sh.take(k)) =~= f.push(InstV::Push(sh[k - 1])));
        assert(sh[k - 1] < code.len());
        assert(f[sh[k - 1] as int] == code[sh[k - 1] as int]);
        lemma_wf_push(f, InstV::Push(sh[k - 1]));
    }
}

proof fn lemma_wf_op(code: Seq<InstV>, sh: Seq<usize>, op: OpV, n: int)
    requires
        code_wf(code),
        shadow_ok(code, sh),
        code.len() + sh.len() <= 6 * n,
        n + 1 <= usize::MAX / 8,
        lower_op(code, sh, op) is Some,
    ensures
        code_wf(lower_op(code, sh, op).unwrap().0),
        shadow_ok(lower_op(code, sh, op).unwrap().0, lower_op(code, sh, op).unwrap().1),
        lower_op(code, sh, op).unwrap().0.len() + lower_op(code, sh, op).unwrap().1.len() <= 6 * (n + 1),
{
    match op {
        OpV::Num(x) => {
            lemma_wf_push(code, InstV::Const(x));
            let c = code.push(InstV::Const(x));
            assert(c[code.len() as int] == InstV::Const(x));
            lemma_shadow_grow(code, c, sh, code.len() as usize);
        },
        OpV::Word(w) => {
            lemma_wf_flush(code, sh, sh.len() as int);
            assert(sh.take(sh.len() as int) =~= sh);
            lemma_wf_push(flushed(code, sh), InstV::Call(w));
        },
        OpV::Emit => {},
        _ => {
            lemma_wf_take(code, sh);
            let (c1, s1, v1) = take_value(code, sh);
            if op is Dot {
                lemma_wf_push(c1, InstV::Print(v1));
            } else if op is Drop {
            } else if op is Dup {
                lemma_shadow_grow(c1, c1, s1, v1);
                lemma_shadow_grow(c1, c1, s1.push(v1), v1);
            } else {
                lemma_wf_take(c1, s1);
                let (c2, s2, v2) = take_value(c1, s1);
                assert(forall|k: int| 0 <= k < c1.len() ==> c2[k] == c1[k]);
                if op is Swap {
                    assert(c2[v1 as int] == c1[v1 as int]);
                    lemma_shadow_grow(c2, c2, s2, v1);
                    lemma_shadow_grow(c2, c2, s2.push(v1), v2);
                } else if op is Over {
                    lemma_shadow_grow(c2, c2, s2, v2);
                    assert(c2[v1 as int] == c1[v1 as int]);
                    lemma_shadow_grow(c2, c2, s2.push(v2), v1);
                    lemma_shadow_grow(c2, c2, s2.push(v2).push(v1), v2);
                } else if op is Rot {
                    lemma_wf_take(c2, s2);
                    let (c3, s3, v3) = take_value(c2, s2);
                    assert(forall|k: int| 0 <= k < c2.len() ==> c3[k] == c2[k]);
                    assert(c3[v1 as int] == c1[v1 as int]);
                    assert(c3[v2 as int] == c2[v2 as int]);
                    lemma_shadow_grow(c3, c3, s3, v2);
                    lemma_shadow_grow(c3, c3, s3.push(v2), v1);
                    lemma_shadow_grow(c3, c3, s3.push(v2).push(v1), v3);
                } else {
                    let i = InstV::Bin(bin_of(op), v2, v1);
                    assert(c2[v1 as int] == c1[v1 as int]);
                    lemma_wf_push(c2, i);
                    let c = c2.push(i);
                    assert(c[c2.len() as int] == i);
                    lemma_shadow_grow(c2, c, s2, c2.len() as usize);
                }
            }
        },
    }
}

/// Lowered code is well formed: every operand names a value defined earlier.
pub proof fn lemma_lowered_wf(ops: Seq<OpV>)
    requires
        lowered(ops) is Some,
        ops.len() <= usize::MAX / 8,
    ensures
        code_wf(lowered(ops).unwrap()),
{
    lemma_lower_wf(ops);
    let (code, sh) = lower_ops(ops).unwrap();
    lemma_wf_flush(code, sh, sh.len() as int);
    assert(sh.take(sh.len() as int) =~= sh);
}

proof fn lemma_lower_wf(ops: Seq<OpV>)
    requires
        lower_ops(ops) is Some,
        ops.len() <= usize::MAX / 8,
    ensures
        code_wf(lower_ops(ops).unwrap().0),
        shadow_ok(lower_ops(ops).unwrap().0, lower_ops(ops).unwrap().1),
        lower_ops(ops).unwrap().0.len() + lower_ops(ops).unwrap().1.len() <= 6 * ops.len(),
    decreases ops.len(),
{
    if ops.len() > 0 {
        lemma_lower_wf(ops.drop_last());
        let (code, sh) = lower_ops(ops.drop_last()).unwrap();
        lemma_wf_op(code, sh, ops.last(), ops.len() - 1);
    }
}

/// Every call in the code calls a word that `ops` calls.
pub open spec fn calls_named_in(code: Seq<InstV>, ops: Seq<OpV>) -> bool {
    forall|k: int| 0 <= k < code.len() && (#[trigger] code[k]) is Call ==> exists|i: int|
        0 <= i < ops.len() && ops[i] == OpV::Word(code[k]->Call_0)
}

/// `c2` is `c1` followed by instructions that call no word.
spec fn no_new_calls(c2: Seq<InstV>, c1: Seq<InstV>) -> bool {
    &&& c2.len() >= c1.len()
    &&& forall|k: int| 0 <= k < c1.len() ==> #[trigger] c2[k] == c1[k]
    &&& forall|k: int| c1.len() <= k < c2.len() ==> !(#[trigger] c2[k] is Call)
}

proof fn lemma_no_new_calls_trans(c3: Seq<InstV>, c2: Seq<InstV>, c1: Seq<InstV>)
    requires
        no_new_calls(c3, c2),
        no_new_calls(c2, c1),
    ensures
        no_new_calls(c3, c1),
{
    assert forall|k: int| c1.len() <= k < c3.len() implies !(#[trigger] c3[k] is Call) by {
        if k < c2.len() {
            assert(c3[k] == c2[k]);
        }
    }
}

proof fn lemma_take_no_calls(code: Seq<InstV>, sh: Seq<usize>)
    ensures
        no_new_calls(take_value(code, sh).0, code),
{
    let c = take_value(code, sh).0;
    if sh.len() == 0 {
        assert(c[code.len() as int] == InstV::Pop);
    }
}

proof fn lemma_flush_no_calls(code: Seq<InstV>, sh: Seq<usize>)
    ensures
        no_new_calls(flushed(code, sh), code),
{
    let f = flushed(code, sh);
    assert forall|k: int| code.len() <= k < f.len() implies !(#[trigger] f[k] is Call) by {
        assert(f[k] == InstV::Push(sh[k - code.len()]));
    }
}

proof fn lemma_op_calls(code: Seq<InstV>, sh: Seq<usize>, op: OpV)
    requires
        lower_op(code, sh, op) is Some,
        !(op is Word),
    ensures
        no_new_calls(lower_op(code, sh, op).unwrap().0, code),
{
    let (c1, s1, v1) = take_value(code, sh);
    let (c2, s2, v2) = take_value(c1, s1);
    let (c3, s3, v3) = take_value(c2, s2);
    lemma_take_no_calls(code, sh);
    lemma_take_no_calls(c1, s1);
    lemma_take_no_calls(c2, s2);
    lemma_no_new_calls_trans(c2, c1, code);
    lemma_no_new_calls_trans(c3, c2, code);
    let r = lower_op(code, sh, op).unwrap().0;
    match op {
        OpV::Num(n) => {
            assert(r[code.len() as int] == InstV::Const(n));
        },
        OpV::Add | OpV::Sub | OpV::Mul | OpV::Div => {
            assert(r[c2.len() as int] == InstV::Bin(bin_of(op), v2, v1));
            assert(no_new_calls(r, c2));
            lemma_no_new_calls_trans(r, c2, code);
        },
        OpV::Dot => {
            assert(r[c1.len() as int] == InstV::Print(v1));
            assert(no_new_calls(r, c1));
            lemma_no_new_calls_trans(r, c1, code);
        },
        _ => {},
    }
}

proof fn lemma_lower_calls(ops: Seq<OpV>)
    requires
        lower_ops(ops) is Some,
    ensures
        calls_named_in(lower_ops(ops).unwrap().0, ops),
    decreases ops.len(),
{
    if ops.len() > 0 {
        let pre = ops.drop_last();
        lemma_lower_calls(pre);
        let (code, sh) = lower_ops(pre).unwrap();
        let r = lower_ops(ops).unwrap().0;
        let op = ops.last();
        assert forall|k: int| 0 <= k < r.len() && (#[trigger] r[k]) is Call implies exists|i: int|
            0 <= i < ops.len() && ops[i] == OpV::Word(r[k]->Call_0) by {
            if op is Word {
                let f = flushed(code, sh);
                lemma_flush_no_calls(code, sh);
                if k == f.len() {
                    assert(ops[ops.len() - 1] == op);
                } else if k < code.len() {
                    assert(r[k] == f[k]);
                    assert(f[k] == code[k]);
                    let i = choose|i: int| 0 <= i < pre.len() && pre[i] == OpV::Word(code[k]->Call_0);
                    assert(ops[i] == pre[i]);
                } else {
                    assert(r[k] == f[k]);
                }
            } else {
                lemma_op_calls(code, sh, op);
                if k < code.len() {
                    assert(r[k] == code[k]);
                    let i = choose|i: int| 0 <= i < pre.len() && pre[i] == OpV::Word(code[k]->Call_0);
                    assert(ops[i] == pre[i]);
                }
            }
        }
    }
}

/// Every call in compiled code calls a word that the body calls.
pub proof fn lemma_lowered_calls(ops: Seq<OpV>)
    requires
        lowered(ops) is Some,
    ensures
        calls_named_in(lowered(ops).unwrap(), ops),
{
    lemma_lower_calls(ops);
    let (code, sh) = lower_ops(ops).unwrap();
    lemma_flush_no_calls(code, sh);
    let f = flushed(code, sh);
    assert forall|k: int| 0 <= k < f.len() && (#[trigger] f[k]) is Call implies exists|i: int|
        0 <= i < ops.len() && ops[i] == OpV::Word(f[k]->Call_0) by {
        assert(f[k] == code[k]);
    }
}

// ----- the lowering, executed -----

fn take_operand(code: &mut Vec<Inst>, shadow: &mut Vec<usize>) -> (v: usize)
    requires
        old(code)@.len() < usize::MAX,
    ensures
        (insts_view(final(code)@), final(shadow)@, v) == take_value(insts_view(old(code)@), old(shadow)@),
        final(code)@.len() <= old(code)@.len() + 1,
        final(code)@.len() + final(shadow)@.len() <= old(code)@.len() + old(shadow)@.len() + 1,
{
    match shadow.pop() {
        Some(v) => v,
        None => {
            let v = code.len();
            code.push(Inst::Pop);
            proof {
                assert(insts_view(code@) =~= insts_view(old(code)@).push(InstV::Pop));
            }
            v
        },
    }
}

fn emit(code: &mut Vec<Inst>, inst: Inst) -> (v: usize)
    ensures
        insts_view(final(code)@) == insts_view(old(code)@).push(inst@),
        v == old(code)@.len(),
        final(code)@.len() == old(code)@.len() + 1,
{
    let v = code.len();
    code.push(inst);
    proof {
        assert(insts_view(code@) =~= insts_view(old(code)@).push(inst@));
    }
    v
}

fn flush(code: &mut Vec<Inst>, shadow: &mut Vec<usize>)
    ensures
        insts_view(final(code)@) == flushed(insts_view(old(code)@), old(shadow)@),
        final(shadow)@.len() == 0,
        final(code)@.len() == old(code)@.len() + old(shadow)@.len(),
{
    let mut k: usize = 0;
    while k < shadow.len()
        invariant
            k <= shadow@.len(),
            shadow@ == old(shadow)@,
            insts_view(code@) == flushed(insts_view(old(code)@), shadow@.take(k as int)),
            code@.len() == old(code)@.len() + k,
        decreases shadow@.len() - k,
    {
        let v = shadow[k];
        emit(code, Inst::Push(v));
        k = k + 1;
        proof {
            assert(shadow@.take(k as int) =~= shadow@.take(k - 1).push(v));
            assert(insts_view(code@) =~= flushed(insts_view(old(code)@), shadow@.take(k as int)));
        }
    }
    proof {
        assert(shadow@.take(k as int) =~= shadow@);
    }
    shadow.clear();
}

/// Lowers one word body with the shadow-stack scheme. Fails on `emit`, which
/// the compiler does not lower.
pub fn lower_word(ops: &Vec<Op>) -> (r: Result<Vec<Inst>, JitError>)
    requires
        ops@.len() <= usize::MAX / 8,
    ensures
        match r {
            Ok(code) => lowered(ops_view(ops@)) == Some(insts_view(code@)) && code_wf(insts_view(code@)),
            Err(e) => lowered(ops_view(ops@)) is None && e == JitError::Unsupported,
        },
        r is Err <==> exists|i: int| 0 <= i < ops@.len() && ops@[i] is Emit,
{
    let mut code: Vec<Inst> = Vec::new();
    let mut shadow: Vec<usize> = Vec::new();
    let ghost opsv = ops_view(ops@);
    let mut i: usize = 0;
    proof {
        assert(insts_view(code@) =~= seq![]);
    }
    while i < ops.len()
        invariant
            i <= ops@.len(),
            ops@.len() <= usize::MAX / 8,
            opsv == ops_view(ops@),
            code@.len() + shadow@.len() <= 6 * i,
            lower_ops(opsv.take(i as int)) == Some((insts_view(code@), shadow@)),
            forall|j: int| 0 <= j < i ==> !(ops@[j] is Emit),
        decreases ops@.len() - i,
    {
        proof {
            assert(opsv.take(i + 1).drop_last() =~= opsv.take(i as int));
        }
        match &ops[i] {
            Op::Num(n) => {
                let v = emit(&mut code, Inst::Const(*n));
                shadow.push(v);
            },
            Op::Add | Op::Sub | Op::Mul | Op::Div => {
                let b = take_operand(&mut code, &mut shadow);
                let a = take_operand(&mut code, &mut shadow);
                let kind = match &ops[i] {
                    Op::Add => BinOp::Add,
                    Op::Sub => BinOp::Sub,
                    Op::Mul => BinOp::Mul,
                    _ => BinOp::Div,
                };
                let v = emit(&mut code, Inst::Bin(kind, a, b));
                shadow.push(v);
            },
            Op::Dot => {
                let a = take_operand(&mut code, &mut shadow);
                emit(&mut code, Inst::Print(a));
            },
            Op::Dup => {
                let a = take_operand(&mut code, &mut shadow);
                shadow.push(a);
                shadow.push(a);
            },
            Op::Swap => {
                let b = take_operand(&mut code, &mut shadow);
                let a = take_operand(&mut code, &mut shadow);
                shadow.push(b);
                shadow.push(a);
            },
            Op::Over => {
                let b = take_operand(&mut code, &mut shadow);
                let a = take_operand(&mut code, &mut shadow);
                shadow.push(a);
                shadow.push(b);
                shadow.push(a);
            },
            Op::Rot => {
                let c = take_operand(&mut code, &mut shadow);
                let b = take_operand(&mut code, &mut shadow);
                let a = take_operand(&mut code, &mut shadow);
                shadow.push(b);
                shadow.push(c);
                shadow.push(a);
            },
            Op::Drop => {
                take_operand(&mut code, &mut shadow);
            },
            Op::Word(w) => {
                flush(&mut code, &mut shadow);
                emit(&mut code, Inst::Call(w.clone()));
            },
            Op::Emit => {
                proof {
                    lemma_lower_none_extends(opsv, i as int + 1);
                }
                return Err(JitError::Unsupported);
            },
        }
        i = i + 1;
    }
    proof {
        assert(opsv.take(i as int) =~= opsv);
    }
    flush(&mut code, &mut shadow);
    proof {
        lemma_lowered_wf(opsv);
    }
    Ok(code)
}

/// Some word of the dictionary calls a word that it does not define.
pub open spec fn has_unresolved(m: Map<Seq<char>, Seq<OpV>>) -> bool {
    exists|k: Seq<char>, i: int| #[trigger] m.contains_key(k) && 0 <= i < m[k].len()
        && #[trigger] m[k][i] is Word && !m.contains_key(m[k][i]->Word_0)
}

/// Some word of the dictionary uses an op that the compiler does not lower.
pub open spec fn has_unsupported(m: Map<Seq<char>, Seq<OpV>>) -> bool {
    exists|k: Seq<char>, i: int| #[trigger] m.contains_key(k) && 0 <= i < m[k].len() && #[trigger] m[k][i] is Emit
}

/// Every call in the code calls a word of the dictionary.
pub open spec fn calls_defined(code: Seq<InstV>, m: Map<Seq<char>, Seq<OpV>>) -> bool {
    forall|k: int| 0 <= k < code.len() && (#[trigger] code[k]) is Call ==> m.contains_key(code[k]->Call_0)
}

/// Lowers every word of the dictionary as one batch. The batch fails as a
/// whole where a word calls a word outside it, or else where a word cannot
/// be lowered; otherwise each word appears with its lowered body.
pub fn lower_batch(words: &Words) -> (r: Result<Vec<(String, Vec<Inst>)>, JitError>)
    requires
        forall|k: Seq<char>| #[trigger] words@.contains_key(k) ==> words@[k].len() <= usize::MAX / 8,
    ensures
        r == Err::<Vec<(String, Vec<Inst>)>, JitError>(JitError::UnresolvedWord) <==> has_unresolved(words@),
        r == Err::<Vec<(String, Vec<Inst>)>, JitError>(JitError::Unsupported) <==> !has_unresolved(words@) && has_unsupported(words@),
        r matches Ok(batch) ==> {
            &&& forall|t: int| 0 <= t < batch@.len() ==> words@.contains_key((#[trigger] batch@[t]).0@)
                && lowered(words@[batch@[t].0@]) == Some(insts_view(batch@[t].1@))
            &&& forall|k: Seq<char>| #[trigger] words@.contains_key(k) ==> exists|t: int| 0 <= t < batch@.len() && (#[trigger] batch@[t]).0@ == k
            &&& forall|t: int| 0 <= t < batch@.len() ==> code_wf(insts_view((#[trigger] batch@[t]).1@))
            &&& forall|t: int| 0 <= t < batch@.len() ==> calls_defined(insts_view((#[trigger] batch@[t]).1@), words@)
        },
{
    let defs = words.definitions();
    let mut t: usize = 0;
    while t < defs.len()
        invariant
            forall|u: int| 0 <= u < defs@.len() ==> words@.contains_key((#[trigger] defs@[u]).0@)
                && words@[defs@[u].0@] == ops_view(defs@[u].1@),
            forall|k: Seq<char>| #[trigger] words@.contains_key(k) ==> exists|u: int| 0 <= u < defs@.len() && (#[trigger] defs@[u]).0@ == k,
            t <= defs@.len(),
            forall|u: int, i: int| 0 <= u < t && 0 <= i < defs@[u].1@.len() && #[trigger] defs@[u].1@[i] is Word
                ==> words@.contains_key((#[trigger] defs@[u].1@[i])->Word_0@),
        decreases defs@.len() - t,
    {
        let body = &defs[t].1;
        let mut i: usize = 0;
        while i < body.len()
            invariant
                forall|u: int| 0 <= u < defs@.len() ==> words@.contains_key((#[trigger] defs@[u]).0@)
                    && words@[defs@[u].0@] == ops_view(defs@[u].1@),
                forall|k: Seq<char>| #[trigger] words@.contains_key(k) ==> exists|u: int| 0 <= u < defs@.len() && (#[trigger] defs@[u]).0@ == k,
                t < defs@.len(),
                body == &defs@[t as int].1,
                i <= body@.len(),
                forall|u: int, i: int| 0 <= u < t && 0 <= i < defs@[u].1@.len() && #[trigger] defs@[u].1@[i] is Word
                    ==> words@.contains_key((#[trigger] defs@[u].1@[i])->Word_0@),
                forall|j: int| 0 <= j < i && #[trigger] body@[j] is Word ==> words@.contains_key(body@[j]->Word_0@),
            decreases body@.len() - i,
        {
            if let Op::Word(w) = &body[i] {
                if words.find(w.as_str()).is_err() {
                    proof {
                        let k = defs@[t as int].0@;
                        assert(words@[k] == ops_view(body@));
                        assert(words@[k][i as int] == body@[i as int]@);
                    }
                    return Err(JitError::UnresolvedWord);
                }
            }
            i = i + 1;
        }
        t = t + 1;
    }
    proof {
        assert forall|k: Seq<char>, i: int| #[trigger] words@.contains_key(k) && 0 <= i < words@[k].len() && #[trigger] words@[k][i] is Word
            implies words@.contains_key(words@[k][i]->Word_0) by {
            let u = choose|u: int| 0 <= u < defs@.len() && (#[trigger] defs@[u]).0@ == k;
            assert(words@[k] == ops_view(defs@[u].1@));
            assert(words@[k][i] == defs@[u].1@[i]@);
        }
    }
    let mut batch: Vec<(String, Vec<Inst>)> = Vec::new();
    let mut t: usize = 0;
    while t < defs.len()
        invariant
            forall|u: int| 0 <= u < defs@.len() ==> words@.contains_key((#[trigger] defs@[u]).0@)
                && words@[defs@[u].0@] == ops_view(defs@[u].1@),
            forall|k: Seq<char>| #[trigger] words@.contains_key(k) ==> exists|u: int| 0 <= u < defs@.len() && (#[trigger] defs@[u]).0@ == k,
            t <= defs@.len(),
            !has_unresolved(words@),
            forall|k: Seq<char>| #[trigger] words@.contains_key(k) ==> words@[k].len() <= usize::MAX / 8,
            batch@.len() == t,
            forall|u: int| 0 <= u < t ==> (#[trigger] batch@[u]).0@ == defs@[u].0@
                && lowered(words@[batch@[u].0@]) == Some(insts_view(batch@[u].1@)),
        decreases defs@.len() - t,
    {
        let k = Ghost(defs@[t as int].0@);
        assert(words@.contains_key(k@));
        match lower_word(&defs[t].1) {
            Ok(code) => {
                batch.push((defs[t].0.clone(), code));
            },
            Err(e) => {
                proof {
                    let i = choose|i: int| 0 <= i < defs@[t as int].1@.len() && (#[trigger] defs@[t as int].1@[i]) is Emit;
                    assert(words@[k@][i] == defs@[t as int].1@[i]@);
                }
                return Err(e);
            },
        }
        t = t + 1;
    }
    proof {
        assert forall|k: Seq<char>, i: int| #[trigger] words@.contains_key(k) && 0 <= i < words@[k].len()
            implies !(#[trigger] words@[k][i] is Emit) by {
            let u = choose|u: int| 0 <= u < defs@.len() && (#[trigger] defs@[u]).0@ == k;
            assert(words@[k] == ops_view(defs@[u].1@));
            assert(words@[k][i] == defs@[u].1@[i]@);
            assert(batch@[u].0@ == k);
            assert(lowered(ops_view(defs@[u].1@)) is Some);
            if defs@[u].1@[i] is Emit {
                lemma_emit_not_lowered(ops_view(defs@[u].1@), i);
            }
        }
        assert forall|k: Seq<char>| #[trigger] words@.contains_key(k) implies exists|t: int| 0 <= t < batch@.len() && (#[trigger] batch@[t]).0@ == k by {
            let u = choose|u: int| 0 <= u < defs@.len() && (#[trigger] defs@[u]).0@ == k;
            assert(batch@[u].0@ == k);
        }
        assert forall|t: int| 0 <= t < batch@.len() implies code_wf(insts_view((#[trigger] batch@[t]).1@))
            && calls_defined(insts_view(batch@[t].1@), words@) by {
            let body = words@[batch@[t].0@];
            let cv = insts_view(batch@[t].1@);
            lemma_lowered_wf(body);
            lemma_lowered_calls(body);
            assert forall|k: int| 0 <= k < cv.len() && (#[trigger] cv[k]) is Call implies words@.contains_key(cv[k]->Call_0) by {
                let i = choose|i: int| 0 <= i < body.len() && body[i] == OpV::Word(cv[k]->Call_0);
                assert(words@.contains_key(batch@[t].0@) && 0 <= i < words@[batch@[t].0@].len()
                    && words@[batch@[t].0@][i] is Word);
            }
        }
    }
    Ok(batch)
}

/// A body holding `emit` does not lower.
proof fn lemma_emit_not_lowered(ops: Seq<OpV>, i: int)
    requires
        0 <= i < ops.len(),
        ops[i] is Emit,
    ensures
        lowered(ops) is None,
    decreases ops.len(),
{
    if i == ops.len() - 1 {
        assert(ops.last() is Emit);
    } else {
        lemma_emit_not_lowered(ops.drop_last(), i);
    }
}

/// Once a prefix fails to lower, so does every longer prefix.
proof fn lemma_lower_none_extends(ops: Seq<OpV>, k: int)
    requires
        0 <= k <= ops.len(),
        lower_ops(ops.take(k)) is None,
    ensures
        lower_ops(ops) is None,
    decreases ops.len() - k,
{
    if k < ops.len() {
        assert(ops.take(k + 1).drop_last() =~= ops.take(k));
        lemma_lower_none_extends(ops, k + 1);
    } else {
        assert(ops.take(k) =~= ops);
    }
}

// ----- what compiled code does -----

/// The value of an arithmetic instruction, or `None` where the native
/// division traps.
pub open spec fn bin_value(op: BinOp, a: i64, b: i64) -> Option<i64> {
    match op {
        BinOp::Add => Some(a.wrapping_add(b)),
        BinOp::Sub => Some(a.wrapping_sub(b)),
        BinOp::Mul => Some(a.wrapping_mul(b)),
        BinOp::Div => quotient(a, b),
    }
}

/// The operand stack, the values defined so far, and what was printed.
pub type RunState = (Seq<i64>, Seq<i64>, Seq<Out>);

/// One instruction run against the host callbacks: `pop` yields 0 on an empty
/// stack. `None` where the code traps, refers to a value not yet defined, or
/// calls another word (whose effect is not described here).
pub open spec fn run_inst(st: RunState, inst: InstV) -> Option<RunState> {
    let (stack, env, out) = st;
    match inst {
        InstV::Const(n) => Some((stack, env.push(n), out)),
        InstV::Bin(op, a, b) => if a < env.len() && b < env.len() {
            match bin_value(op, env[a as int], env[b as int]) {
                Some(v) => Some((stack, env.push(v), out)),
                None => None,
            }
        } else {
            None
        },
        InstV::Pop => if stack.len() == 0 {
            Some((stack, env.push(0), out))
        } else {
            Some((stack.drop_last(), env.push(stack.last()), out))
        },
        InstV::Push(v) => if v < env.len() {
            Some((stack.push(env[v as int]), env.push(0), out))
        } else {
            None
        },
        InstV::Print(v) => if v < env.len() {
            Some((stack, env.push(0), out.push(Out::Int(env[v as int]))))
        } else {
            None
        },
        InstV::Call(_) => None,
    }
}

/// Compiled code run from the stack `s`.
pub open spec fn run_code(code: Seq<InstV>, s: Seq<i64>) -> Option<RunState>
    decreases code.len(),
{
    if code.len() == 0 {
        Some((s, seq![], seq![]))
    } else {
        match run_code(code.drop_last(), s) {
            Some(st) => run_inst(st, code.last()),
            None => None,
        }
    }
}

/// A body of literals, arithmetic, shuffles and `.` only.
pub open spec fn straight_line(ops: Seq<OpV>) -> bool {
    forall|i: int| 0 <= i < ops.len() ==> !(#[trigger] ops[i] is Word) && !(ops[i] is Emit)
}

/// The values that a shadow stack stands for.
pub open spec fn shadow_values(sh: Seq<usize>, env: Seq<i64>) -> Seq<i64> {
    sh.map_values(|v: usize| env[v as int])
}

/// Compiled code so far, with the shadow stack `sh`, stands for the
/// interpreter's stack `stk` and output `out`.
spec fn simulates(code: Seq<InstV>, sh: Seq<usize>, s: Seq<i64>, stk: Seq<i64>, out: Seq<Out>) -> bool {
    &&& run_code(code, s) is Some
    &&& run_code(code, s).unwrap().1.len() == code.len()
    &&& run_code(code, s).unwrap().2 == out
    &&& forall|j: int| 0 <= j < sh.len() ==> #[trigger] sh[j] < code.len()
    &&& stk == run_code(code, s).unwrap().0 + shadow_values(sh, run_code(code, s).unwrap().1)
}

spec fn env_of(code: Seq<InstV>, s: Seq<i64>) -> Seq<i64> {
    run_code(code, s).unwrap().1
}

proof fn lemma_define(code: Seq<InstV>, sh: Seq<usize>, s: Seq<i64>, stk: Seq<i64>, out: Seq<Out>, inst: InstV, x: i64)
    requires
        simulates(code, sh, s, stk, out),
        code.len() < usize::MAX,
        run_inst(run_code(code, s).unwrap(), inst) == Some((run_code(code, s).unwrap().0, env_of(code, s).push(x), out)),
    ensures
        simulates(code.push(inst), sh.push(code.len() as usize), s, stk.push(x), out),
        forall|k: int| 0 <= k < code.len() ==> env_of(code.push(inst), s)[k] == env_of(code, s)[k],
        env_of(code.push(inst), s)[code.len() as int] == x,
{
    let c2 = code.push(inst);
    assert(c2.drop_last() =~= code);
    let env = env_of(code, s);
    let env2 = env.push(x);
    assert(shadow_values(sh.push(code.len() as usize), env2) =~= shadow_values(sh, env).push(x));
}

proof fn lemma_reuse(code: Seq<InstV>, sh: Seq<usize>, s: Seq<i64>, stk: Seq<i64>, out: Seq<Out>, v: usize)
    requires
        simulates(code, sh, s, stk, out),
        v < code.len(),
    ensures
        simulates(code, sh.push(v), s, stk.push(env_of(code, s)[v as int]), out),
{
    assert(shadow_values(sh.push(v), env_of(code, s)) =~= shadow_values(sh, env_of(code, s)).push(env_of(code, s)[v as int]));
}

proof fn lemma_take(code: Seq<InstV>, sh: Seq<usize>, s: Seq<i64>, stk: Seq<i64>, out: Seq<Out>)
    requires
        simulates(code, sh, s, stk, out),
        stk.len() >= 1,
        code.len() < usize::MAX,
    ensures
        ({
            let (c2, s2, v) = take_value(code, sh);
            &&& simulates(c2, s2, s, stk.drop_last(), out)
            &&& v < c2.len()
            &&& env_of(c2, s)[v as int] == stk.last()
            &&& code.len() <= c2.len() <= code.len() + 1
            &&& forall|k: int| 0 <= k < code.len() ==> env_of(c2, s)[k] == env_of(code, s)[k]
        }),
{
    let env = env_of(code, s);
    let r = run_code(code, s).unwrap().0;
    if sh.len() > 0 {
        assert(shadow_values(sh, env) =~= shadow_values(sh.drop_last(), env).push(env[sh.last() as int]));
        assert(stk.drop_last() =~= r + shadow_values(sh.drop_last(), env));
    } else {
        assert(shadow_values(sh, env) =~= seq![]);
        assert(stk =~= r);
        let c2 = code.push(InstV::Pop);
        assert(c2.drop_last() =~= code);
        assert(shadow_values(sh, env.push(r.last())) =~= seq![]);
        assert(stk.drop_last() =~= r.drop_last() + shadow_values(sh, env.push(r.last())));
    }
}

proof fn lemma_flush_run(code: Seq<InstV>, sh: Seq<usize>, s: Seq<i64>, stk: Seq<i64>, out: Seq<Out>, k: int)
    requires
        simulates(code, sh, s, stk, out),
        0 <= k <= sh.len(),
    ensures
        ({
            let c = code + sh.take(k).map_values(|v: usize| InstV::Push(v));
            &&& run_code(c, s) is Some
            &&& run_code(c, s).unwrap().0 == run_code(code, s).unwrap().0 + shadow_values(sh.take(k), env_of(code, s))
            &&& run_code(c, s).unwrap().2 == out
            &&& run_code(c, s).unwrap().1.len() == c.len()
            &&& forall|j: int| 0 <= j < code.len() ==> run_code(c, s).unwrap().1[j] == env_of(code, s)[j]
        }),
    decreases k,
{
    let c = code + sh.take(k).map_values(|v: usize| InstV::Push(v));
    if k == 0 {
        assert(c =~= code);
        assert(shadow_values(sh.take(k), env_of(code, s)) =~= seq![]);
    } else {
        lemma_flush_run(code, sh, s, stk, out, k - 1);
        let c1 = code + sh.take(k - 1).map_values(|v: usize| InstV::Push(v));
        assert(c.drop_last() =~= c1);
        assert(c.last() == InstV::Push(sh[k - 1]));
        assert(sh[k - 1] < code.len());
        assert(shadow_values(sh.take(k), env_of(code, s)) =~= shadow_values(sh.take(k - 1), env_of(code, s)).push(env_of(code, s)[sh[k - 1] as int]));
    }
}

proof fn lemma_op(code: Seq<InstV>, sh: Seq<usize>, s: Seq<i64>, stk: Seq<i64>, out: Seq<Out>, op: OpV, n: int)
    requires
        simulates(code, sh, s, stk, out),
        !(op is Word),
        !(op is Emit),
        apply_op(stk, op) is Ok,
        code.len() + sh.len() <= 6 * n,
        n + 1 <= usize::MAX / 8,
    ensures
        lower_op(code, sh, op) is Some,
        simulates(lower_op(code, sh, op).unwrap().0, lower_op(code, sh, op).unwrap().1, s,
            apply_op(stk, op).unwrap().0, out + apply_op(stk, op).unwrap().1),
        lower_op(code, sh, op).unwrap().0.len() + lower_op(code, sh, op).unwrap().1.len() <= 6 * (n + 1),
{
    let m = stk.len();
    assert(out + seq![] =~= out);
    match op {
        OpV::Num(x) => {
            lemma_define(code, sh, s, stk, out, InstV::Const(x), x);
        },
        OpV::Add | OpV::Sub | OpV::Mul | OpV::Div => {
            lemma_take(code, sh, s, stk, out);
            let (c1, s1, b) = take_value(code, sh);
            lemma_take(c1, s1, s, stk.drop_last(), out);
            let (c2, s2, a) = take_value(c1, s1);
            let x = bin_value(bin_of(op), env_of(c2, s)[a as int], env_of(c2, s)[b as int]).unwrap();
            assert(stk.drop_last().drop_last() =~= stk.take(m - 2));
            lemma_define(c2, s2, s, stk.take(m - 2), out, InstV::Bin(bin_of(op), a, b), x);
        },
        OpV::Dot => {
            lemma_take(code, sh, s, stk, out);
            let (c1, s1, a) = take_value(code, sh);
            let c2 = c1.push(InstV::Print(a));
            assert(c2.drop_last() =~= c1);
            assert(stk.drop_last() =~= stk.take(m - 1));
            let env2 = env_of(c1, s).push(0);
            assert(shadow_values(s1, env2) =~= shadow_values(s1, env_of(c1, s)));
        },
        OpV::Dup => {
            lemma_take(code, sh, s, stk, out);
            let (c1, s1, a) = take_value(code, sh);
            lemma_reuse(c1, s1, s, stk.drop_last(), out, a);
            lemma_reuse(c1, s1.push(a), s, stk.drop_last().push(stk.last()), out, a);
            assert(stk.drop_last().push(stk.last()).push(stk.last()) =~= stk.push(stk[m - 1]));
        },
        OpV::Drop => {
            lemma_take(code, sh, s, stk, out);
            assert(stk.drop_last() =~= stk.take(m - 1));
        },
        OpV::Swap | OpV::Over => {
            lemma_take(code, sh, s, stk, out);
            let (c1, s1, b) = take_value(code, sh);
            lemma_take(c1, s1, s, stk.drop_last(), out);
            let (c2, s2, a) = take_value(c1, s1);
            let base = stk.take(m - 2);
            assert(stk.drop_last().drop_last() =~= base);
            if op is Swap {
                lemma_reuse(c2, s2, s, base, out, b);
                lemma_reuse(c2, s2.push(b), s, base.push(stk[m - 1]), out, a);
            } else {
                lemma_reuse(c2, s2, s, base, out, a);
                lemma_reuse(c2, s2.push(a), s, base.push(stk[m - 2]), out, b);
                lemma_reuse(c2, s2.push(a).push(b), s, base.push(stk[m - 2]).push(stk[m - 1]), out, a);
            }
        },
        OpV::Rot => {
            lemma_take(code, sh, s, stk, out);
            let (c1, s1, c) = take_value(code, sh);
            lemma_take(c1, s1, s, stk.drop_last(), out);
            let (c2, s2, b) = take_value(c1, s1);
            lemma_take(c2, s2, s, stk.drop_last().drop_last(), out);
            let (c3, s3, a) = take_value(c2, s2);
            let base = stk.take(m - 3);
            assert(stk.drop_last().drop_last().drop_last() =~= base);
            lemma_reuse(c3, s3, s, base, out, b);
            lemma_reuse(c3, s3.push(b), s, base.push(stk[m - 2]), out, c);
            lemma_reuse(c3, s3.push(b).push(c), s, base.push(stk[m - 2]).push(stk[m - 1]), out, a);
        },
        _ => {},
    }
}

proof fn lemma_simulation(ops: Seq<OpV>, s: Seq<i64>)
    requires
        straight_line(ops),
        run_prims(s, ops) is Ok,
        ops.len() <= usize::MAX / 8,
    ensures
        lower_ops(ops) is Some,
        simulates(lower_ops(ops).unwrap().0, lower_ops(ops).unwrap().1, s,
            run_prims(s, ops).unwrap().0, run_prims(s, ops).unwrap().1),
        lower_ops(ops).unwrap().0.len() + lower_ops(ops).unwrap().1.len() <= 6 * ops.len(),
    decreases ops.len(),
{
    if ops.len() == 0 {
        assert(shadow_values(seq![], seq![]) =~= seq![]);
        assert(s + seq![] =~= s);
    } else {
        let pre = ops.drop_last();
        assert(straight_line(pre)) by {
            assert forall|i: int| 0 <= i < pre.len() implies !(#[trigger] pre[i] is Word) && !(pre[i] is Emit) by {
                assert(pre[i] == ops[i]);
            }
        }
        lemma_simulation(pre, s);
        let (code, sh) = lower_ops(pre).unwrap();
        let (stk, out) = run_prims(s, pre).unwrap();
        assert(ops.last() == ops[ops.len() - 1]);
        lemma_op(code, sh, s, stk, out, ops.last(), pre.len() as int);
    }
}

/// JIT/interpreter agreement: a body made only of literals, arithmetic,
/// shuffles and `.` compiles, and wherever interpreting it from a stack
/// succeeds, its compiled code run from that stack ends with the same stack
/// and has printed the same things in the same order.
pub proof fn lemma_compiled_agrees(ops: Seq<OpV>, s: Seq<i64>)
    requires
        straight_line(ops),
        run_prims(s, ops) is Ok,
        ops.len() <= usize::MAX / 8,
    ensures
        lowered(ops) is Some,
        run_code(lowered(ops).unwrap(), s) is Some,
        run_code(lowered(ops).unwrap(), s).unwrap().0 == run_prims(s, ops).unwrap().0,
        run_code(lowered(ops).unwrap(), s).unwrap().2 == run_prims(s, ops).unwrap().1,
{
    lemma_simulation(ops, s);
    let (code, sh) = lower_ops(ops).unwrap();
    let (stk, out) = run_prims(s, ops).unwrap();
    lemma_flush_run(code, sh, s, stk, out, sh.len() as int);
    assert(sh.take(sh.len() as int) =~= sh);
}

// ----- compiled code where the stack runs short -----

/// The top of a stack, or 0 where it is empty: what the pop callback yields.
pub open spec fn top_or_zero(s: Seq<i64>) -> i64 {
    if s.len() > 0 { s.last() } else { 0 }
}

/// A stack without its top; an empty stack stays empty.
pub open spec fn below(s: Seq<i64>) -> Seq<i64> {
    if s.len() > 0 { s.drop_last() } else { s }
}

/// What a straight-line op does where each missing operand reads as 0, as
/// compiled code does it; `None` where the division faults.
pub open spec fn apply_op_zero(s: Seq<i64>, op: OpV) -> Option<(Seq<i64>, Seq<Out>)> {
    let x = top_or_zero(s);
    let s1 = below(s);
    let y = top_or_zero(s1);
    let s2 = below(s1);
    let z = top_or_zero(s2);
    let s3 = below(s2);
    match op {
        OpV::Num(v) => Some((s.push(v), seq![])),
        OpV::Add | OpV::Sub | OpV::Mul | OpV::Div => match bin_value(bin_of(op), y, x) {
            Some(r) => Some((s2.push(r), seq![])),
            None => None,
        },
        OpV::Dot => Some((s1, seq![Out::Int(x)])),
        OpV::Dup => Some((s1.push(x).push(x), seq![])),
        OpV::Swap => Some((s2.push(x).push(y), seq![])),
        OpV::Over => Some((s2.push(y).push(x).push(y), seq![])),
        OpV::Rot => Some((s3.push(y).push(x).push(z), seq![])),
        OpV::Drop => Some((s1, seq![])),
        _ => None,
    }
}

/// A straight-line sequence run with missing operands read as 0.
pub open spec fn run_prims_zero(s: Seq<i64>, ops: Seq<OpV>) -> Option<(Seq<i64>, Seq<Out>)>
    decreases ops.len(),
{
    if ops.len() == 0 {
        Some((s, seq![]))
    } else {
        match run_prims_zero(s, ops.drop_last()) {
            Some((s1, out1)) => match apply_op_zero(s1, ops.last()) {
                Some((s2, out2)) => Some((s2, out1 + out2)),
                None => None,
            },
            None => None,
        }
    }
}

proof fn lemma_take_zero(code: Seq<InstV>, sh: Seq<usize>, s: Seq<i64>, stk: Seq<i64>, out: Seq<Out>)
    requires
        simulates(code, sh, s, stk, out),
        code.len() < usize::MAX,
    ensures
        ({
            let (c2, s2, v) = take_value(code, sh);
            &&& simulates(c2, s2, s, below(stk), out)
            &&& v < c2.len()
            &&& env_of(c2, s)[v as int] == top_or_zero(stk)
            &&& code.len() <= c2.len() <= code.len() + 1
            &&& forall|k: int| 0 <= k < code.len() ==> env_of(c2, s)[k] == env_of(code, s)[k]
        }),
{
    if stk.len() >= 1 {
        lemma_take(code, sh, s, stk, out);
    } else {
        let env = env_of(code, s);
        let r = run_code(code, s).unwrap().0;
        assert(shadow_values(sh, env).len() == sh.len());
        assert(sh.len() == 0 && r.len() == 0);
        let c2 = code.push(InstV::Pop);
        assert(c2.drop_last() =~= code);
        assert(shadow_values(sh, env.push(0)) =~= seq![]);
        assert(stk =~= r + shadow_values(sh, env.push(0)));
    }
}

proof fn lemma_op_zero(code: Seq<InstV>, sh: Seq<usize>, s: Seq<i64>, stk: Seq<i64>, out: Seq<Out>, op: OpV, n: int)
    requires
        simulates(code, sh, s, stk, out),
        !(op is Word),
        !(op is Emit),
        apply_op_zero(stk, op) is Some,
        code.len() + sh.len() <= 6 * n,
        n + 1 <= usize::MAX / 8,
    ensures
        lower_op(code, sh, op) is Some,
        simulates(lower_op(code, sh, op).unwrap().0, lower_op(code, sh, op).unwrap().1, s,
            apply_op_zero(stk, op).unwrap().0, out + apply_op_zero(stk, op).unwrap().1),
        lower_op(code, sh, op).unwrap().0.len() + lower_op(code, sh, op).unwrap().1.len() <= 6 * (n + 1),
{
    assert(out + seq![] =~= out);
    let s1 = below(stk);
    let s2 = below(s1);
    let s3 = below(s2);
    match op {
        OpV::Num(x) => {
            lemma_define(code, sh, s, stk, out, InstV::Const(x), x);
        },
        OpV::Add | OpV::Sub | OpV::Mul | OpV::Div => {
            lemma_take_zero(code, sh, s, stk, out);
            let (c1, q1, b) = take_value(code, sh);
            lemma_take_zero(c1, q1, s, s1, out);
            let (c2, q2, a) = take_value(c1, q1);
            let x = bin_value(bin_of(op), env_of(c2, s)[a as int], env_of(c2, s)[b as int]).unwrap();
            lemma_define(c2, q2, s, s2, out, InstV::Bin(bin_of(op), a, b), x);
        },
        OpV::Dot => {
            lemma_take_zero(code, sh, s, stk, out);
            let (c1, q1, a) = take_value(code, sh);
            let c2 = c1.push(InstV::Print(a));
            assert(c2.drop_last() =~= c1);
            let env2 = env_of(c1, s).push(0);
            assert(shadow_values(q1, env2) =~= shadow_values(q1, env_of(c1, s)));
        },
        OpV::Dup => {
            lemma_take_zero(code, sh, s, stk, out);
            let (c1, q1, a) = take_value(code, sh);
            lemma_reuse(c1, q1, s, s1, out, a);
            lemma_reuse(c1, q1.push(a), s, s1.push(top_or_zero(stk)), out, a);
        },
        OpV::Drop => {
            lemma_take_zero(code, sh, s, stk, out);
        },
        OpV::Swap | OpV::Over => {
            lemma_take_zero(code, sh, s, stk, out);
            let (c1, q1, b) = take_value(code, sh);
            lemma_take_zero(c1, q1, s, s1, out);
            let (c2, q2, a) = take_value(c1, q1);
            let x = top_or_zero(stk);
            let y = top_or_zero(s1);
            if op is Swap {
                lemma_reuse(c2, q2, s, s2, out, b);
                lemma_reuse(c2, q2.push(b), s, s2.push(x), out, a);
            } else {
                lemma_reuse(c2, q2, s, s2, out, a);
                lemma_reuse(c2, q2.push(a), s, s2.push(y), out, b);
                lemma_reuse(c2, q2.push(a).push(b), s, s2.push(y).push(x), out, a);
            }
        },
        OpV::Rot => {
            lemma_take_zero(code, sh, s, stk, out);
            let (c1, q1, c) = take_value(code, sh);
            lemma_take_zero(c1, q1, s, s1, out);
            let (c2, q2, b) = take_value(c1, q1);
            lemma_take_zero(c2, q2, s, s2, out);
            let (c3, q3, a) = take_value(c2, q2);
            let x = top_or_zero(stk);
            let y = top_or_zero(s1);
            lemma_reuse(c3, q3, s, s3, out, b);
            lemma_reuse(c3, q3.push(b), s, s3.push(y), out, c);
            lemma_reuse(c3, q3.push(b).push(c), s, s3.push(y).push(x), out, a);
        },
        _ => {},
    }
}

proof fn lemma_simulation_zero(ops: Seq<OpV>, s: Seq<i64>)
    requires
        straight_line(ops),
        run_prims_zero(s, ops) is Some,
        ops.len() <= usize::MAX / 8,
    ensures
        lower_ops(ops) is Some,
        simulates(lower_ops(ops).unwrap().0, lower_ops(ops).unwrap().1, s,
            run_prims_zero(s, ops).unwrap().0, run_prims_zero(s, ops).unwrap().1),
        lower_ops(ops).unwrap().0.len() + lower_ops(ops).unwrap().1.len() <= 6 * ops.len(),
    decreases ops.len(),
{
    if ops.len() == 0 {
        assert(shadow_values(seq![], seq![]) =~= seq![]);
        assert(s + seq![] =~= s);
    } else {
        let pre = ops.drop_last();
        assert(straight_line(pre)) by {
            assert forall|i: int| 0 <= i < pre.len() implies !(#[trigger] pre[i] is Word) && !(pre[i] is Emit) by {
                assert(pre[i] == ops[i]);
            }
        }
        lemma_simulation_zero(pre, s);
        let (code, sh) = lower_ops(pre).unwrap();
        let (stk, out) = run_prims_zero(s, pre).unwrap();
        assert(ops.last() == ops[ops.len() - 1]);
        lemma_op_zero(code, sh, s, stk, out, ops.last(), pre.len() as int);
    }
}

/// Compiled code of a straight-line body run from any stack, even one that
/// runs short, ends as the body run with missing operands read as 0, and
/// prints the same things in the same order.
pub proof fn lemma_compiled_reads_zero(ops: Seq<OpV>, s: Seq<i64>)
    requires
        straight_line(ops),
        run_prims_zero(s, ops) is Some,
        ops.len() <= usize::MAX / 8,
    ensures
        lowered(ops) is Some,
        run_code(lowered(ops).unwrap(), s) is Some,
        run_code(lowered(ops).unwrap(), s).unwrap().0 == run_prims_zero(s, ops).unwrap().0,
        run_code(lowered(ops).unwrap(), s).unwrap().2 == run_prims_zero(s, ops).unwrap().1,
{
    lemma_simulation_zero(ops, s);
    let (code, sh) = lower_ops(ops).unwrap();
    let (stk, out) = run_prims_zero(s, ops).unwrap();
    lemma_flush_run(code, sh, s, stk, out, sh.len() as int);
    assert(sh.take(sh.len() as int) =~= sh);
}

} // verus!
