use vstd::prelude::*;

verus! {

/// A set of propositional variable symbols, kept as a list without repeats.
pub struct VariableSet {
    symbols: Vec<char>,
}

impl View for VariableSet {
    type V = Set<char>;

    closed spec fn view(&self) -> Set<char> {
        self.symbols@.to_set()
    }
}

impl VariableSet {
    /// No symbol is listed twice.
    pub closed spec fn wf(&self) -> bool {
        self.symbols@.no_duplicates()
    }

    pub fn new() -> (r: VariableSet)
        ensures
            r.wf(),
            r@ == Set::<char>::empty(),
    {
        let r = VariableSet { symbols: Vec::new() };
        proof {
            assert(r.symbols@.to_set() =~= Set::<char>::empty());
        }
        r
    }

    pub fn contains(&self, c: char) -> (r: bool)
        requires
            self.wf(),
        ensures
            r == self@.contains(c),
    {
        let mut i: usize = 0;
        while i < self.symbols.len()
            invariant
                0 <= i <= self.symbols@.len(),
                forall|j: int| 0 <= j < i ==> self.symbols@[j] != c,
            decreases self.symbols@.len() - i,
        {
            if self.symbols[i] == c {
                proof {
                    assert(self.symbols@.contains(c));
                }
                return true;
            }
            i = i + 1;
        }
        proof {
            assert(!self.symbols@.contains(c));
        }
        false
    }

    /// Adds `c`; returns whether it was absent before.
    pub fn insert(&mut self, c: char) -> (r: bool)
        requires
            old(self).wf(),
        ensures
            final(self).wf(),
            final(self)@ == old(self)@.insert(c),
            r == !old(self)@.contains(c),
    {
        if self.contains(c) {
            proof {
                assert(self.symbols@.to_set().insert(c) =~= self.symbols@.to_set());
            }
            false
        } else {
            let ghost before = self.symbols@;
            self.symbols.push(c);
            proof {
                assert(self.symbols@ == before.push(c));
                before.lemma_push_to_set_commute(c);
            }
            true
        }
    }

    /// Adds every symbol of `other`.
    pub fn extend(&mut self, other: &VariableSet)
        requires
            old(self).wf(),
        ensures
            final(self).wf(),
            final(self)@ == old(self)@.union(other@),
    {
        let mut i: usize = 0;
        while i < other.symbols.len()
            invariant
                self.wf(),
                i <= other.symbols@.len(),
                self@ == old(self)@.union(other.symbols@.subrange(0, i as int).to_set()),
            decreases other.symbols@.len() - i,
        {
            let ghost before = self@;
            self.insert(other.symbols[i]);
            proof {
                let s = other.symbols@;
                assert(s.subrange(0, i + 1) =~= s.subrange(0, i as int).push(s[i as int]));
                s.subrange(0, i as int).lemma_push_to_set_commute(s[i as int]);
                assert(self@ =~= old(self)@.union(s.subrange(0, i + 1).to_set()));
            }
            i = i + 1;
        }
        proof {
            assert(other.symbols@.subrange(0, i as int) =~= other.symbols@);
        }
    }

    pub fn len(&self) -> (r: usize)
        requires
            self.wf(),
        ensures
            r == self@.len(),
    {
        proof {
            self.symbols@.unique_seq_to_set();
        }
        self.symbols.len()
    }

    /// The symbols, each once, in the order in which they were first added.
    pub fn symbols(&self) -> (r: &Vec<char>)
        ensures
            r@.to_set() == self@,
            self.wf() ==> r@.no_duplicates(),
    {
        &self.symbols
    }
}

} // verus!
