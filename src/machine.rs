//! The interpreter. It owns the operand stack and runs op sequences one op
//! per step, so that whoever drives it can print what it prints and run the
//! native code of compiled words, handing the same stack to that code.
use vstd::prelude::*;
use crate::ops::{Op, OpV, OpError, Out, apply_op, copy_ops, ops_view, stack_after_failure};
use crate::words::Words;

verus! {

/// An op sequence being run, and the position of its next op.
pub struct Frame {
    ops: Vec<Op>,
    pc: usize,
}

/// What one step asks of its driver.
pub enum Action {
    /// Nothing: step again.
    Continue,
    /// Write this to standard output, then step again.
    Output(Out),
    /// Run the compiled entry point of this word on the stack, then step again.
    CallCompiled(String),
    /// The op sequence has run to its end.
    Done,
    /// The run stopped on this failure; what it did before stays done.
    Failed(OpError),
}

/// The interpreter: the operand stack, the dictionary, the names of the words
/// whose compiled entry points are installed, and the op sequences under way
/// (the innermost last).
pub struct Machine {
    pub stack: Vec<i64>,
    pub words: Words,
    compiled: Vec<String>,
    frames: Vec<Frame>,
}

impl Default for Machine {
    fn default() -> (r: Machine)
        ensures
            r.wf(),
            r.operands() == Seq::<i64>::empty(),
            r.dictionary() == Map::<Seq<char>, Seq<OpV>>::empty(),
            r.compiled() == Set::<Seq<char>>::empty(),
            r.pending() == Seq::<Seq<OpV>>::empty(),
    {
        Machine::new()
    }
}

/// The op sequences under way after the innermost one has taken its next op.
pub open spec fn advanced(p: Seq<Seq<OpV>>) -> Seq<Seq<OpV>> {
    p.update(p.len() - 1, p.last().drop_first())
}

impl Machine {
    /// The operand stack, bottom first.
    pub closed spec fn operands(&self) -> Seq<i64> {
        self.stack@
    }

    /// The dictionary.
    pub closed spec fn dictionary(&self) -> Map<Seq<char>, Seq<OpV>> {
        self.words@
    }

    /// The ops still to run, innermost sequence last.
    pub closed spec fn pending(&self) -> Seq<Seq<OpV>> {
        self.frames@.map_values(|f: Frame| ops_view(f.ops@).skip(f.pc as int))
    }

    /// The names of the words with installed compiled entry points.
    pub closed spec fn compiled(&self) -> Set<Seq<char>> {
        Set::new(|n: Seq<char>| exists|i: int| 0 <= i < self.compiled@.len() && (#[trigger] self.compiled@[i])@ == n)
    }

    pub closed spec fn wf(&self) -> bool {
        forall|i: int| 0 <= i < self.frames@.len() ==> (#[trigger] self.frames@[i]).pc <= self.frames@[i].ops@.len()
    }

    /// A machine with an empty stack, an empty dictionary and nothing compiled.
    pub fn new() -> (r: Machine)
        ensures
            r.wf(),
            r.operands() == Seq::<i64>::empty(),
            r.dictionary() == Map::<Seq<char>, Seq<OpV>>::empty(),
            r.compiled() == Set::<Seq<char>>::empty(),
            r.pending() == Seq::<Seq<OpV>>::empty(),
    {
        let r = Machine { stack: Vec::new(), words: Words::new(), compiled: Vec::new(), frames: Vec::new() };
        proof {
            assert(r.compiled() =~= Set::<Seq<char>>::empty());
            assert(r.pending() =~= Seq::<Seq<OpV>>::empty());
        }
        r
    }

    /// Installs a new table of compiled words, replacing the previous one.
    pub fn set_jit(&mut self, compiled_words: Vec<String>)
        requires
            old(self).wf(),
        ensures
            final(self).wf(),
            final(self).compiled() == Set::new(|n: Seq<char>| exists|i: int| 0 <= i < compiled_words@.len() && (#[trigger] compiled_words@[i])@ == n),
            final(self).operands() == old(self).operands(),
            final(self).dictionary() == old(self).dictionary(),
            final(self).pending() == old(self).pending(),
    {
        self.compiled = compiled_words;
    }

    /// Sets `ops` to run from its first op; whatever was under way is dropped.
    pub fn start(&mut self, ops: &Vec<Op>)
        requires
            old(self).wf(),
        ensures
            final(self).wf(),
            final(self).pending() == seq![ops_view(ops@)],
            final(self).operands() == old(self).operands(),
            final(self).dictionary() == old(self).dictionary(),
            final(self).compiled() == old(self).compiled(),
    {
        self.frames.clear();
        self.frames.push(Frame { ops: copy_ops(ops), pc: 0 });
        proof {
            assert(ops_view(self.frames@[0].ops@).skip(0) =~= ops_view(ops@));
            assert(self.pending() =~= seq![ops_view(ops@)]);
        }
    }

    fn is_compiled(&self, name: &String) -> (r: bool)
        ensures
            r == self.compiled().contains(name@),
    {
        let mut i: usize = 0;
        while i < self.compiled.len()
            invariant
                i <= self.compiled@.len(),
                forall|j: int| 0 <= j < i ==> (#[trigger] self.compiled@[j])@ != name@,
            decreases self.compiled@.len() - i,
        {
            if self.compiled[i] == *name {
                return true;
            }
            i = i + 1;
        }
        false
    }

    fn pop1(&mut self) -> (r: Option<i64>)
        ensures
            old(self).operands().len() >= 1 ==> r == Some(old(self).operands().last())
                && final(self).operands() == old(self).operands().drop_last(),
            old(self).operands().len() < 1 ==> r is None && final(self).operands() == Seq::<i64>::empty(),
            final(self).words == old(self).words,
            final(self).compiled == old(self).compiled,
            final(self).frames == old(self).frames,
    {
        self.stack.pop()
    }

    fn pop2(&mut self) -> (r: Option<(i64, i64)>)
        ensures
            ({
                let s = old(self).operands();
                let n = s.len();
                &&& n >= 2 ==> r == Some((s[n - 2], s[n - 1])) && final(self).operands() == s.take(n - 2)
                &&& n < 2 ==> r is None && final(self).operands() == Seq::<i64>::empty()
            }),
            final(self).words == old(self).words,
            final(self).compiled == old(self).compiled,
            final(self).frames == old(self).frames,
    {
        let b = self.pop1();
        let a = self.pop1();
        proof {
            let s = old(self).operands();
            if s.len() >= 2 {
                assert(s.drop_last().drop_last() =~= s.take(s.len() - 2));
            }
        }
        match (a, b) {
            (Some(a), Some(b)) => Some((a, b)),
            _ => None,
        }
    }

    fn pop3(&mut self) -> (r: Option<(i64, i64, i64)>)
        ensures
            ({
                let s = old(self).operands();
                let n = s.len();
                &&& n >= 3 ==> r == Some((s[n - 3], s[n - 2], s[n - 1])) && final(self).operands() == s.take(n - 3)
                &&& n < 3 ==> r is None && final(self).operands() == Seq::<i64>::empty()
            }),
            final(self).words == old(self).words,
            final(self).compiled == old(self).compiled,
            final(self).frames == old(self).frames,
    {
        let c = self.pop1();
        let ab = self.pop2();
        proof {
            let s = old(self).operands();
            if s.len() >= 3 {
                assert(s.drop_last().take(s.len() - 3) =~= s.take(s.len() - 3));
            }
        }
        match (ab, c) {
            (Some((a, b)), Some(c)) => Some((a, b, c)),
            _ => None,
        }
    }

    /// Runs a primitive op on the stack.
    fn apply(&mut self, op: &Op) -> (r: Result<Option<Out>, OpError>)
        requires
            !(op is Word),
        ensures
            match apply_op(old(self).operands(), op@) {
                Ok((s2, out)) => final(self).operands() == s2 && r == Ok::<Option<Out>, OpError>(
                    if out.len() == 0 { None } else { Some(out[0]) }) && out.len() <= 1,
                Err(e) => final(self).operands() == stack_after_failure(old(self).operands(), op@)
                    && r == Err::<Option<Out>, OpError>(e),
            },
            final(self).words == old(self).words,
            final(self).compiled == old(self).compiled,
            final(self).frames == old(self).frames,
    {
        let ghost s = self.stack@;
        let ghost n = s.len();
        match op {
            Op::Num(v) => {
                self.stack.push(*v);
                Ok(None)
            },
            Op::Add | Op::Sub | Op::Mul | Op::Div | Op::Swap | Op::Over => {
                match self.pop2() {
                    None => Err(OpError::StackUnderflow),
                    Some((a, b)) => {
                        match op {
                            Op::Add => self.stack.push(a.wrapping_add(b)),
                            Op::Sub => self.stack.push(a.wrapping_sub(b)),
                            Op::Mul => self.stack.push(a.wrapping_mul(b)),
                            Op::Div => {
                                match a.checked_div(b) {
                                    Some(q) => self.stack.push(q),
                                    None => {
                                        return Err(OpError::InvalidDivision);
                                    },
                                }
                            },
                            Op::Swap => {
                                self.stack.push(b);
                                self.stack.push(a);
                            },
                            _ => {
                                self.stack.push(a);
                                self.stack.push(b);
                                self.stack.push(a);
                            },
                        }
                        Ok(None)
                    },
                }
            },
            Op::Rot => {
                match self.pop3() {
                    None => Err(OpError::StackUnderflow),
                    Some((a, b, c)) => {
                        self.stack.push(b);
                        self.stack.push(c);
                        self.stack.push(a);
                        Ok(None)
                    },
                }
            },
            _ => {
                match self.pop1() {
                    None => Err(OpError::StackUnderflow),
                    Some(a) => {
                        proof {
                            assert(s.drop_last() =~= s.take(n - 1));
                            assert(s.drop_last().push(a) =~= s);
                        }
                        match op {
                            Op::Dup => {
                                self.stack.push(a);
                                self.stack.push(a);
                                Ok(None)
                            },
                            Op::Drop => Ok(None),
                            Op::Dot => Ok(Some(Out::Int(a))),
                            _ => {
                                if (0 <= a && a <= 0xD7FF) || (0xE000 <= a && a <= 0x10FFFF) {
                                    Ok(Some(Out::Char(a as u32)))
                                } else {
                                    Err(OpError::InvalidCharCode)
                                }
                            },
                        }
                    },
                }
            },
        }
    }

    /// Runs the next op of the innermost sequence under way. A word call goes
    /// to its compiled entry point where one is installed, and otherwise runs
    /// the word's op sequence from the dictionary.
    pub fn step(&mut self) -> (r: Action)
        requires
            old(self).wf(),
        ensures
            final(self).wf(),
            final(self).dictionary() == old(self).dictionary(),
            final(self).compiled() == old(self).compiled(),
            ({
                let p = old(self).pending();
                let s = old(self).operands();
                if p.len() == 0 {
                    r is Done && final(self).operands() == s && final(self).pending() == p
                } else if p.last().len() == 0 {
                    r is Continue && final(self).operands() == s && final(self).pending() == p.drop_last()
                } else {
                    let op = p.last()[0];
                    match op {
                        OpV::Word(w) => if old(self).compiled().contains(w) {
                            r matches Action::CallCompiled(n) && n@ == w
                                && final(self).operands() == s && final(self).pending() == advanced(p)
                        } else if old(self).dictionary().contains_key(w) {
                            r is Continue && final(self).operands() == s
                                && final(self).pending() == advanced(p).push(old(self).dictionary()[w])
                        } else {
                            r == Action::Failed(OpError::UndefinedWord) && final(self).operands() == s
                                && final(self).pending().len() == 0
                        },
                        _ => match apply_op(s, op) {
                            Ok((s2, out)) => final(self).operands() == s2 && final(self).pending() == advanced(p)
                                && if out.len() == 0 { r is Continue } else { r == Action::Output(out[0]) },
                            Err(e) => r == Action::Failed(e) && final(self).operands() == stack_after_failure(s, op)
                                && final(self).pending().len() == 0,
                        },
                    }
                }
            }),
    {
        let ghost p = self.pending();
        if self.frames.len() == 0 {
            return Action::Done;
        }
        let ghost frames0 = self.frames@;
        let mut f = self.frames.pop().unwrap();
        proof {
            assert(frames0 =~= self.frames@.push(f));
            assert(p.last() == ops_view(f.ops@).skip(f.pc as int));
            assert(self.pending() =~= p.drop_last());
        }
        if f.pc >= f.ops.len() {
            return Action::Continue;
        }
        let op = f.ops[f.pc].duplicate();
        proof {
            assert(p.last()[0] == op@);
        }
        f.pc = f.pc + 1;
        self.frames.push(f);
        proof {
            assert(ops_view(f.ops@).skip(f.pc as int) =~= p.last().drop_first());
            assert(self.pending() =~= advanced(p));
        }
        match op {
            Op::Word(w) => {
                if self.is_compiled(&w) {
                    Action::CallCompiled(w)
                } else {
                    match self.words.find(w.as_str()) {
                        Ok(body) => {
                            let ghost before = self.frames@;
                            self.frames.push(Frame { ops: body, pc: 0 });
                            proof {
                                assert(ops_view(body@).skip(0) =~= ops_view(body@));
                                assert(self.pending() =~= advanced(p).push(self.words@[w@]));
                            }
                            Action::Continue
                        },
                        Err(e) => {
                            self.frames.clear();
                            Action::Failed(e)
                        },
                    }
                }
            },
            _ => {
                match self.apply(&op) {
                    Ok(None) => Action::Continue,
                    Ok(Some(out)) => Action::Output(out),
                    Err(e) => {
                        self.frames.clear();
                        Action::Failed(e)
                    },
                }
            },
        }
    }
}

} // verus!
