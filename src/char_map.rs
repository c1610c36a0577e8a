use vstd::prelude::*;

verus! {

/// A map keyed by symbol: at most one value for each character.
pub struct CharMap<V> {
    keys: Vec<char>,
    values: Vec<V>,
}

/// A rewrite rule set: at most one replacement string for each symbol.
pub type Rules = CharMap<String>;

impl<V: View> CharMap<V> {
    /// Keys and replacements pair up one for one, and no key repeats.
    pub closed spec fn wf(&self) -> bool {
        &&& self.keys.len() == self.values.len()
        &&& self.keys@.no_duplicates()
    }

    spec fn slot(&self, c: char) -> int {
        choose|i: int| 0 <= i < self.keys.len() && self.keys@[i] == c
    }

    proof fn lemma_slot(&self, c: char, i: int)
        requires
            self.wf(),
            0 <= i < self.keys.len(),
            self.keys@[i] == c,
        ensures
            self.slot(c) == i,
    {
        let j = self.slot(c);
        assert(0 <= j < self.keys.len() && self.keys@[j] == c);
    }

    /// An empty map.
    pub fn new() -> (r: CharMap<V>)
        ensures
            r.wf(),
            r@ == Map::<char, V::V>::empty(),
    {
        let r = CharMap { keys: Vec::new(), values: Vec::new() };
        assert(r@ =~= Map::<char, V::V>::empty());
        r
    }

    /// Where the value of `c` is stored, if `c` has one.
    fn find(&self, c: char) -> (r: Option<usize>)
        requires
            self.wf(),
        ensures
            match r {
                Some(i) => i < self.keys.len() && self.keys@[i as int] == c,
                None => !self.keys@.contains(c),
            },
    {
        let mut i: usize = 0;
        while i < self.keys.len()
            invariant
                i <= self.keys.len(),
                forall|j: int| 0 <= j < i ==> self.keys@[j] != c,
            decreases self.keys.len() - i,
        {
            if self.keys[i] == c {
                return Some(i);
            }
            i = i + 1;
        }
        None
    }

    /// Sets the value of `c` to `s`, replacing any earlier one.
    pub fn insert(&mut self, c: char, s: V)
        requires
            old(self).wf(),
        ensures
            final(self).wf(),
            final(self)@ == old(self)@.insert(c, s@),
    {
        let ghost before = *self;
        match self.find(c) {
            Some(i) => {
                self.values.set(i, s);
                proof {
                    assert forall|k: char| #[trigger] self.keys@.contains(k) implies self.slot(k)
                        == before.slot(k) by {
                        let j = before.slot(k);
                        assert(before.keys@.contains(k));
                        assert(0 <= j < before.keys.len() && before.keys@[j] == k);
                        self.lemma_slot(k, j);
                    }
                    self.lemma_slot(c, i as int);
                    assert(self@ =~= before@.insert(c, s@));
                }
            },
            None => {
                self.keys.push(c);
                self.values.push(s);
                proof {
                    let n = before.keys.len() as int;
                    assert(self.keys@ =~= before.keys@.push(c));
                    assert forall|k: char| #[trigger] before.keys@.contains(k) implies self.slot(k)
                        == before.slot(k) by {
                        let j = before.slot(k);
                        assert(0 <= j < before.keys.len() && before.keys@[j] == k);
                        self.lemma_slot(k, j);
                    }
                    assert(self.keys@[n] == c);
                    self.lemma_slot(c, n);
                    assert forall|k: char| #[trigger] self.keys@.contains(k) <==> (
                    before.keys@.contains(k) || k == c) by {
                        if self.keys@.contains(k) {
                            let j = choose|j: int| 0 <= j < self.keys.len() && self.keys@[j] == k;
                            if j < n {
                                assert(before.keys@[j] == k);
                            }
                        }
                        if before.keys@.contains(k) {
                            let j = choose|j: int|
                                0 <= j < before.keys.len() && before.keys@[j] == k;
                            assert(self.keys@[j] == k);
                        }
                    }
                    assert(self@ =~= before@.insert(c, s@));
                }
            },
        }
    }

    /// The value of `c`, if the map has one.
    pub fn get(&self, c: char) -> (r: Option<&V>)
        requires
            self.wf(),
        ensures
            match r {
                Some(v) => self@.contains_key(c) && v@ == self@[c],
                None => !self@.contains_key(c),
            },
    {
        match self.find(c) {
            Some(i) => {
                proof {
                    self.lemma_slot(c, i as int);
                }
                Some(&self.values[i])
            },
            None => None,
        }
    }
}

impl<V: View> View for CharMap<V> {
    type V = Map<char, V::V>;

    /// Each symbol that has a value, mapped to the view of that value.
    closed spec fn view(&self) -> Map<char, V::V> {
        Map::new(|c: char| self.keys@.contains(c), |c: char| self.values@[self.slot(c)]@)
    }
}

} // verus!
