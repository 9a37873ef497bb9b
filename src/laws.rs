//! Laws of the interpreter and of compiled code.
use vstd::prelude::*;
use crate::ops::{OpV, run_prims};
use crate::jit::{InstV, run_prims_zero, lemma_compiled_reads_zero, flushed, lower_op, lower_ops, lowered, run_code, straight_line, take_value, lemma_compiled_agrees};

verus! {

proof fn lemma_run3(s: Seq<i64>, x: OpV, y: OpV, z: OpV)
    ensures
        run_prims(s, seq![x, y, z]) == match run_prims(s, seq![x, y]) {
            Ok((s1, o1)) => match crate::ops::apply_op(s1, z) {
                Ok((s2, o2)) => Ok((s2, o1 + o2)),
                Err(e) => Err(e),
            },
            Err(e) => Err(e),
        },
        run_prims(s, seq![x, y]) == match run_prims(s, seq![x]) {
            Ok((s1, o1)) => match crate::ops::apply_op(s1, y) {
                Ok((s2, o2)) => Ok((s2, o1 + o2)),
                Err(e) => Err(e),
            },
            Err(e) => Err(e),
        },
        run_prims(s, seq![x]) == match crate::ops::apply_op(s, x) {
            Ok((s2, o2)) => Ok((s2, Seq::<crate::ops::Out>::empty() + o2)),
            Err(e) => Err(e),
        },
{
    assert(seq![x, y, z].drop_last() =~= seq![x, y]);
    assert(seq![x, y].drop_last() =~= seq![x]);
    assert(seq![x].drop_last() =~= Seq::<OpV>::empty());
    assert(run_prims(s, Seq::<OpV>::empty()) == Ok::<(Seq<i64>, Seq<crate::ops::Out>), crate::ops::OpError>((s, seq![])));
}

/// Arithmetic order: `a b -` leaves `a - b` on top and `a b /` leaves the
/// quotient of `a` by `b` truncated toward zero, interpreted or compiled.
pub proof fn lemma_arithmetic_order(s: Seq<i64>, a: i64, b: i64)
    ensures
        i64::MIN <= a - b <= i64::MAX ==> run_prims(s, seq![OpV::Num(a), OpV::Num(b), OpV::Sub])
            == Ok::<(Seq<i64>, Seq<crate::ops::Out>), crate::ops::OpError>((s.push((a - b) as i64), seq![])),
        b != 0 && !(a == i64::MIN && b == -1) ==> ({
            let q = run_prims(s, seq![OpV::Num(a), OpV::Num(b), OpV::Div]).unwrap().0.last() as int;
            let rem = a - q * b;
            &&& run_prims(s, seq![OpV::Num(a), OpV::Num(b), OpV::Div]) is Ok
            &&& run_prims(s, seq![OpV::Num(a), OpV::Num(b), OpV::Div]).unwrap().0.len() == s.len() + 1
            &&& run_prims(s, seq![OpV::Num(a), OpV::Num(b), OpV::Div]).unwrap().0.drop_last() == s
            &&& (if rem >= 0 { rem } else { -rem }) < (if b >= 0 { b as int } else { -b })
            &&& (rem == 0 || (rem < 0) == (a < 0))
        }),
        run_prims(s, seq![OpV::Num(a), OpV::Num(b), OpV::Sub]) is Ok
            ==> run_code(lowered(seq![OpV::Num(a), OpV::Num(b), OpV::Sub]).unwrap(), s).unwrap().0
                == run_prims(s, seq![OpV::Num(a), OpV::Num(b), OpV::Sub]).unwrap().0,
        run_prims(s, seq![OpV::Num(a), OpV::Num(b), OpV::Div]) is Ok
            ==> run_code(lowered(seq![OpV::Num(a), OpV::Num(b), OpV::Div]).unwrap(), s).unwrap().0
                == run_prims(s, seq![OpV::Num(a), OpV::Num(b), OpV::Div]).unwrap().0,
{
    lemma_run3(s, OpV::Num(a), OpV::Num(b), OpV::Sub);
    lemma_run3(s, OpV::Num(a), OpV::Num(b), OpV::Div);
    let t = s.push(a).push(b);
    assert(t.take(t.len() - 2) =~= s);
    assert(Seq::<crate::ops::Out>::empty() + Seq::<crate::ops::Out>::empty() =~= Seq::<crate::ops::Out>::empty());
    if b != 0 && !(a == i64::MIN && b == -1) {
        let x = a as int;
        let d = b as int;
        let q = run_prims(s, seq![OpV::Num(a), OpV::Num(b), OpV::Div]).unwrap().0.last() as int;
        if x > 0 && d > 0 {
            assert(q == x / d);
            assert(0 <= x - q * d < d) by (nonlinear_arith) requires q == x / d, d > 0, x > 0;
        } else if x < 0 && d < 0 {
            let o = (x * -1) / (d * -1);
            if d == -1 {
                assert(o == x * -1) by (nonlinear_arith) requires o == (x * -1) / (d * -1), d == -1;
            } else {
                assert(o * 2 <= x * -1) by (nonlinear_arith) requires o == (x * -1) / (d * -1), d <= -2, x < 0;
            }
            assert(q == (x * -1) / (d * -1));
            assert(d < x - q * d <= 0) by (nonlinear_arith) requires q == (x * -1) / (d * -1), d < 0, x < 0;
        } else if x < 0 && d > 0 {
            assert(q == ((x * -1) / d) * -1);
            assert(-d < x - q * d <= 0) by (nonlinear_arith) requires q == ((x * -1) / d) * -1, d > 0, x < 0;
        } else if x > 0 && d < 0 {
            assert(q == (x / (d * -1)) * -1);
            assert(0 <= x - q * d < -d) by (nonlinear_arith) requires q == (x / (d * -1)) * -1, d < 0, x > 0;
        }
    }
    lemma_agree3(s, a, b, OpV::Sub);
    lemma_agree3(s, a, b, OpV::Div);
}

proof fn lemma_agree3(s: Seq<i64>, a: i64, b: i64, op: OpV)
    requires
        op == OpV::Sub || op == OpV::Div,
    ensures
        run_prims(s, seq![OpV::Num(a), OpV::Num(b), op]) is Ok
            ==> run_code(lowered(seq![OpV::Num(a), OpV::Num(b), op]).unwrap(), s).unwrap().0
                == run_prims(s, seq![OpV::Num(a), OpV::Num(b), op]).unwrap().0,
{
    let ops = seq![OpV::Num(a), OpV::Num(b), op];
    if run_prims(s, ops) is Ok {
        assert(straight_line(ops)) by {
            assert forall|i: int| 0 <= i < ops.len() implies !(#[trigger] ops[i] is Word) && !(ops[i] is Emit) by {
                if i == 0 { assert(ops[i] == OpV::Num(a)); } else if i == 1 { assert(ops[i] == OpV::Num(b)); } else { assert(ops[i] == op); }
            }
        }
        lemma_compiled_agrees(ops, s);
    }
}

/// `dup dup drop drop` changes nothing.
pub proof fn lemma_dup_dup_drop_drop(s: Seq<i64>, a: i64)
    ensures
        run_prims(s.push(a), seq![OpV::Dup, OpV::Dup, OpV::Drop, OpV::Drop])
            == Ok::<(Seq<i64>, Seq<crate::ops::Out>), crate::ops::OpError>((s.push(a), seq![])),
{
    let t = s.push(a);
    let ops = seq![OpV::Dup, OpV::Dup, OpV::Drop, OpV::Drop];
    lemma_run3(t, OpV::Dup, OpV::Dup, OpV::Drop);
    assert(ops.drop_last() =~= seq![OpV::Dup, OpV::Dup, OpV::Drop]);
    let t3 = t.push(a).push(a);
    assert(t3.take(t3.len() - 1) =~= t.push(a));
    let t2 = t.push(a);
    assert(t2.take(t2.len() - 1) =~= t);
    assert(Seq::<crate::ops::Out>::empty() + Seq::<crate::ops::Out>::empty() =~= Seq::<crate::ops::Out>::empty());
}

/// `swap swap` changes nothing.
pub proof fn lemma_swap_swap(s: Seq<i64>, a: i64, b: i64)
    ensures
        run_prims(s.push(a).push(b), seq![OpV::Swap, OpV::Swap])
            == Ok::<(Seq<i64>, Seq<crate::ops::Out>), crate::ops::OpError>((s.push(a).push(b), seq![])),
{
    let t = s.push(a).push(b);
    lemma_run3(t, OpV::Swap, OpV::Swap, OpV::Swap);
    assert(t.take(t.len() - 2) =~= s);
    let u = s.push(b).push(a);
    assert(u.take(u.len() - 2) =~= s);
    assert(Seq::<crate::ops::Out>::empty() + Seq::<crate::ops::Out>::empty() =~= Seq::<crate::ops::Out>::empty());
}

/// `over over` on `a b` leaves `a b a b`.
pub proof fn lemma_over_over(s: Seq<i64>, a: i64, b: i64)
    ensures
        run_prims(s.push(a).push(b), seq![OpV::Over, OpV::Over])
            == Ok::<(Seq<i64>, Seq<crate::ops::Out>), crate::ops::OpError>((s.push(a).push(b).push(a).push(b), seq![])),
{
    let t = s.push(a).push(b);
    lemma_run3(t, OpV::Over, OpV::Over, OpV::Over);
    assert(t.take(t.len() - 2) =~= s);
    let u = s.push(a).push(b).push(a);
    assert(u.take(u.len() - 2) =~= s.push(a));
    assert(s.push(a).push(b).push(a).push(b) =~= s.push(a).push(b).push(a).push(b));
    assert(Seq::<crate::ops::Out>::empty() + Seq::<crate::ops::Out>::empty() =~= Seq::<crate::ops::Out>::empty());
}

/// `rot rot rot` changes nothing.
pub proof fn lemma_rot_rot_rot(s: Seq<i64>, a: i64, b: i64, c: i64)
    ensures
        run_prims(s.push(a).push(b).push(c), seq![OpV::Rot, OpV::Rot, OpV::Rot])
            == Ok::<(Seq<i64>, Seq<crate::ops::Out>), crate::ops::OpError>((s.push(a).push(b).push(c), seq![])),
{
    let t = s.push(a).push(b).push(c);
    lemma_run3(t, OpV::Rot, OpV::Rot, OpV::Rot);
    assert(t.take(t.len() - 3) =~= s);
    let u = s.push(b).push(c).push(a);
    assert(u.take(u.len() - 3) =~= s);
    let v = s.push(c).push(a).push(b);
    assert(v.take(v.len() - 3) =~= s);
    assert(Seq::<crate::ops::Out>::empty() + Seq::<crate::ops::Out>::empty() =~= Seq::<crate::ops::Out>::empty());
}

/// `a` starts with `b`.
spec fn extends(a: Seq<InstV>, b: Seq<InstV>) -> bool {
    a.len() >= b.len() && a.take(b.len() as int) == b
}

proof fn lemma_extends_trans(a: Seq<InstV>, b: Seq<InstV>, c: Seq<InstV>)
    requires
        extends(a, b),
        extends(b, c),
    ensures
        extends(a, c),
{
    assert(a.take(c.len() as int) =~= b.take(c.len() as int));
}

proof fn lemma_take_extends(code: Seq<InstV>, sh: Seq<usize>)
    ensures
        extends(take_value(code, sh).0, code),
{
    assert(code.push(InstV::Pop).take(code.len() as int) =~= code);
    assert(code.take(code.len() as int) =~= code);
}

proof fn lemma_push_extends(code: Seq<InstV>, i: InstV)
    ensures
        extends(code.push(i), code),
{
    assert(code.push(i).take(code.len() as int) =~= code);
}

/// Lowering an op only appends code.
proof fn lemma_op_extends(code: Seq<InstV>, sh: Seq<usize>, op: OpV)
    requires
        lower_op(code, sh, op) is Some,
    ensures
        extends(lower_op(code, sh, op).unwrap().0, code),
{
    let (c1, s1, v1) = take_value(code, sh);
    let (c2, s2, v2) = take_value(c1, s1);
    let (c3, s3, v3) = take_value(c2, s2);
    lemma_take_extends(code, sh);
    lemma_take_extends(c1, s1);
    lemma_take_extends(c2, s2);
    lemma_extends_trans(c2, c1, code);
    lemma_extends_trans(c3, c2, code);
    assert(code.take(code.len() as int) =~= code);
    match op {
        OpV::Num(n) => lemma_push_extends(code, InstV::Const(n)),
        OpV::Add | OpV::Sub | OpV::Mul | OpV::Div => {
            lemma_push_extends(c2, InstV::Bin(crate::jit::bin_of(op), v2, v1));
            lemma_extends_trans(c2.push(InstV::Bin(crate::jit::bin_of(op), v2, v1)), c2, code);
        },
        OpV::Dot => {
            lemma_push_extends(c1, InstV::Print(v1));
            lemma_extends_trans(c1.push(InstV::Print(v1)), c1, code);
        },
        OpV::Word(w) => {
            let f = flushed(code, sh);
            assert(f.take(code.len() as int) =~= code);
            lemma_push_extends(f, InstV::Call(w));
            lemma_extends_trans(f.push(InstV::Call(w)), f, code);
        },
        _ => {},
    }
}

/// Lowering a longer body only appends code.
proof fn lemma_lower_extends(x: Seq<OpV>, y: Seq<OpV>)
    requires
        lower_ops(x + y) is Some,
    ensures
        lower_ops(x) is Some,
        extends(lower_ops(x + y).unwrap().0, lower_ops(x).unwrap().0),
    decreases y.len(),
{
    if y.len() == 0 {
        assert(x + y =~= x);
        let c = lower_ops(x).unwrap().0;
        assert(c.take(c.len() as int) =~= c);
    } else {
        assert((x + y).drop_last() =~= x + y.drop_last());
        lemma_lower_extends(x, y.drop_last());
        let (c, sh) = lower_ops(x + y.drop_last()).unwrap();
        lemma_op_extends(c, sh, (x + y).last());
        lemma_extends_trans(lower_ops(x + y).unwrap().0, c, lower_ops(x).unwrap().0);
    }
}

/// Flush before call: in a compiled word, the code before a call of another
/// word is the whole compiled prefix, final flush included, so every value
/// produced before the call is on the operand stack when the callee starts.
/// From any stack, that stack is the prefix run with missing operands read as
/// 0; where the prefix interprets without underflow, it is also the stack
/// that interpretation leaves.
pub proof fn lemma_flush_before_call(pre: Seq<OpV>, w: Seq<char>, post: Seq<OpV>, s: Seq<i64>)
    requires
        straight_line(pre),
        run_prims_zero(s, pre) is Some,
        pre.len() <= usize::MAX / 8,
    ensures
        lowered(pre) is Some,
        lower_ops(pre.push(OpV::Word(w))) == Some((lowered(pre).unwrap().push(InstV::Call(w)), Seq::<usize>::empty())),
        run_code(lowered(pre).unwrap(), s) is Some,
        run_code(lowered(pre).unwrap(), s).unwrap().0 == run_prims_zero(s, pre).unwrap().0,
        run_prims(s, pre) is Ok ==> run_code(lowered(pre).unwrap(), s).unwrap().0 == run_prims(s, pre).unwrap().0,
        lowered(pre.push(OpV::Word(w)) + post) is Some ==> lowered(pre.push(OpV::Word(w)) + post).unwrap().take(
            lowered(pre).unwrap().len() + 1 as int) == lowered(pre).unwrap().push(InstV::Call(w)),
{
    lemma_compiled_reads_zero(pre, s);
    if run_prims(s, pre) is Ok {
        lemma_compiled_agrees(pre, s);
    }
    let x = pre.push(OpV::Word(w));
    assert(x.drop_last() =~= pre);
    if lowered(x + post) is Some {
        lemma_lower_extends(x, post);
        let (c, sh) = lower_ops(x + post).unwrap();
        let f = flushed(c, sh);
        assert(f.take(c.len() as int) =~= c);
        lemma_extends_trans(f, c, lower_ops(x).unwrap().0);
    }
}

} // verus!
