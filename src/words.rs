//! The dictionary: word names mapped to their op sequences. It only grows; a
//! later definition of a name shadows the earlier ones.
use vstd::prelude::*;
use crate::ops::{Op, OpV, OpError, copy_ops, ops_view};

verus! {

/// The meaning of a list of definitions, applied in order: last one wins.
pub open spec fn defs_map(s: Seq<(String, Vec<Op>)>) -> Map<Seq<char>, Seq<OpV>>
    decreases s.len(),
{
    if s.len() == 0 {
        Map::empty()
    } else {
        defs_map(s.drop_last()).insert(s.last().0@, ops_view(s.last().1@))
    }
}

/// No later definition than the one at `i` has its name.
pub open spec fn is_latest(s: Seq<(String, Vec<Op>)>, i: int) -> bool {
    forall|j: int| i < j < s.len() ==> (#[trigger] s[j]).0@ != s[i].0@
}

/// The latest definition of a name is what the dictionary holds for it.
pub proof fn lemma_latest(s: Seq<(String, Vec<Op>)>, i: int)
    requires
        0 <= i < s.len(),
        is_latest(s, i),
    ensures
        defs_map(s).contains_key(s[i].0@),
        defs_map(s)[s[i].0@] == ops_view(s[i].1@),
    decreases s.len(),
{
    if i < s.len() - 1 {
        let p = s.drop_last();
        assert(is_latest(p, i)) by {
            assert forall|j: int| i < j < p.len() implies (#[trigger] p[j]).0@ != p[i].0@ by {
                assert(p[j] == s[j]);
            }
        }
        lemma_latest(p, i);
        assert(s.last() == s[s.len() - 1]);
    }
}

/// A name is in the dictionary exactly when some definition has it.
pub proof fn lemma_domain(s: Seq<(String, Vec<Op>)>, k: Seq<char>)
    ensures
        defs_map(s).contains_key(k) <==> exists|i: int| 0 <= i < s.len() && (#[trigger] s[i]).0@ == k,
    decreases s.len(),
{
    if s.len() > 0 {
        let p = s.drop_last();
        lemma_domain(p, k);
        if exists|i: int| 0 <= i < p.len() && (#[trigger] p[i]).0@ == k {
            let i = choose|i: int| 0 <= i < p.len() && (#[trigger] p[i]).0@ == k;
            assert(s[i] == p[i]);
        }
        if exists|i: int| 0 <= i < s.len() && (#[trigger] s[i]).0@ == k {
            let i = choose|i: int| 0 <= i < s.len() && (#[trigger] s[i]).0@ == k;
            if i < p.len() {
                assert(p[i] == s[i]);
            }
        }
    }
}

/// Each name that a definition has, has a latest definition.
pub proof fn lemma_has_latest(s: Seq<(String, Vec<Op>)>, i: int)
    requires
        0 <= i < s.len(),
    ensures
        exists|m: int| i <= m < s.len() && s[m].0@ == s[i].0@ && is_latest(s, m),
    decreases s.len() - i,
{
    if !is_latest(s, i) {
        let j = choose|j: int| i < j < s.len() && (#[trigger] s[j]).0@ != s[i].0@ == false;
        lemma_has_latest(s, j);
    }
}

/// A dictionary of words.
pub struct Words {
    entries: Vec<(String, Vec<Op>)>,
}

impl View for Words {
    type V = Map<Seq<char>, Seq<OpV>>;

    closed spec fn view(&self) -> Map<Seq<char>, Seq<OpV>> {
        defs_map(self.entries@)
    }
}

impl Default for Words {
    fn default() -> (r: Words)
        ensures
            r@ == Map::<Seq<char>, Seq<OpV>>::empty(),
    {
        Words::new()
    }
}

impl Words {
    /// An empty dictionary.
    pub fn new() -> (r: Words)
        ensures
            r@ == Map::<Seq<char>, Seq<OpV>>::empty(),
    {
        Words { entries: Vec::new() }
    }

    /// Defines (or redefines) one word.
    pub fn define(&mut self, name: String, ops: Vec<Op>)
        ensures
            final(self)@ == old(self)@.insert(name@, ops_view(ops@)),
    {
        let ghost e = self.entries@;
        self.entries.push((name, ops));
        proof {
            assert(self.entries@.drop_last() =~= e);
        }
    }

    /// Adds all definitions of `words`; theirs win over the ones already here.
    pub fn extend(&mut self, words: Words)
        ensures
            final(self)@ == old(self)@.union_prefer_right(words@),
    {
        let ghost base = self@;
        let ghost src = words.entries@;
        let mut k: usize = 0;
        while k < words.entries.len()
            invariant
                k <= src.len(),
                src == words.entries@,
                self@ == base.union_prefer_right(defs_map(src.take(k as int))),
            decreases src.len() - k,
        {
            let name = words.entries[k].0.clone();
            let ops = copy_ops(&words.entries[k].1);
            self.define(name, ops);
            proof {
                assert(src.take(k + 1).drop_last() =~= src.take(k as int));
                assert(self@ =~= base.union_prefer_right(defs_map(src.take(k + 1))));
            }
            k = k + 1;
        }
        proof {
            assert(src.take(k as int) =~= src);
        }
    }

    /// The op sequence of a word.
    pub fn find(&self, word: &str) -> (r: Result<Vec<Op>, OpError>)
        ensures
            match r {
                Ok(ops) => self@.contains_key(word@) && ops_view(ops@) == self@[word@],
                Err(e) => !self@.contains_key(word@) && e == OpError::UndefinedWord,
            },
    {
        let key = word.to_owned();
        let mut i: usize = self.entries.len();
        while i > 0
            invariant
                i <= self.entries@.len(),
                key@ == word@,
                forall|j: int| i <= j < self.entries@.len() ==> (#[trigger] self.entries@[j]).0@ != word@,
            decreases i,
        {
            if self.entries[i - 1].0 == key {
                proof {
                    lemma_latest(self.entries@, i - 1);
                }
                return Ok(copy_ops(&self.entries[i - 1].1));
            }
            i = i - 1;
        }
        proof {
            lemma_domain(self.entries@, word@);
        }
        Err(OpError::UndefinedWord)
    }

    /// The current definition of every word, one entry per name.
    pub fn definitions(&self) -> (r: Vec<(String, Vec<Op>)>)
        ensures
            forall|t: int| 0 <= t < r@.len() ==> self@.contains_key((#[trigger] r@[t]).0@)
                && self@[r@[t].0@] == ops_view(r@[t].1@),
            forall|k: Seq<char>| #[trigger] self@.contains_key(k) ==> exists|t: int| 0 <= t < r@.len() && (#[trigger] r@[t]).0@ == k,
    {
        let ghost s = self.entries@;
        let n = self.entries.len();
        let mut r: Vec<(String, Vec<Op>)> = Vec::new();
        let mut i: usize = 0;
        while i < n
            invariant
                n == s.len(),
                s == self.entries@,
                i <= n,
                forall|t: int| 0 <= t < r@.len() ==> self@.contains_key((#[trigger] r@[t]).0@)
                    && self@[r@[t].0@] == ops_view(r@[t].1@),
                forall|m: int| 0 <= m < i && is_latest(s, m) ==> exists|t: int| 0 <= t < r@.len() && (#[trigger] r@[t]).0@ == s[m].0@,
            decreases n - i,
        {
            let mut latest = true;
            let mut j: usize = i + 1;
            while j < n
                invariant
                    n == s.len(),
                    s == self.entries@,
                    i < j <= n,
                    latest == (forall|q: int| i < q < j ==> (#[trigger] s[q]).0@ != s[i as int].0@),
                decreases n - j,
            {
                if self.entries[j].0 == self.entries[i].0 {
                    latest = false;
                }
                j = j + 1;
            }
            let ghost r0 = r@;
            proof {
                assert(latest == is_latest(s, i as int));
            }
            if latest {
                proof {
                    lemma_latest(s, i as int);
                }
                let name = self.entries[i].0.clone();
                let ops = copy_ops(&self.entries[i].1);
                r.push((name, ops));
                proof {
                    assert(r@[r@.len() - 1].0@ == s[i as int].0@);
                }
            }
            proof {
                assert forall|m: int| 0 <= m < i + 1 && is_latest(s, m) implies exists|t: int| 0 <= t < r@.len() && (#[trigger] r@[t]).0@ == s[m].0@ by {
                    if m < i {
                        let t0 = choose|t: int| 0 <= t < r0.len() && (#[trigger] r0[t]).0@ == s[m].0@;
                        assert(r@[t0] == r0[t0]);
                    } else {
                        assert(r@[r@.len() - 1].0@ == s[m].0@);
                    }
                }
            }
            i = i + 1;
        }
        proof {
            assert forall|k: Seq<char>| #[trigger] self@.contains_key(k) implies exists|t: int| 0 <= t < r@.len() && (#[trigger] r@[t]).0@ == k by {
                lemma_domain(s, k);
                let i0 = choose|i0: int| 0 <= i0 < s.len() && (#[trigger] s[i0]).0@ == k;
                lemma_has_latest(s, i0);
            }
        }
        r
    }
}

} // verus!
