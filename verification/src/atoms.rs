//! A small set of atomic letters.
//!
//! The engine collects the letters that occur on the left of a sequent and
//! the counter-model synthesizer later replays them as valuations.  The set
//! is kept as a duplicate-free vector in first-insertion order, so that two
//! runs over the same input walk the letters in the same order; its
//! mathematical view is the set of characters it holds.

use vstd::prelude::*;

verus! {

/// A set of atomic letters, viewed as a `Set<char>`.
#[derive(Debug, PartialEq)]
pub struct AtomSet {
    pub chars: Vec<char>,
}

impl View for AtomSet {
    type V = Set<char>;

    open spec fn view(&self) -> Set<char> {
        Set::new(|c: char| self.chars@.contains(c))
    }
}

impl AtomSet {
    /// The empty set.
    pub fn new() -> (r: AtomSet)
        ensures
            r@ == Set::<char>::empty(),
            r.chars@ == Seq::<char>::empty(),
    {
        let r = AtomSet { chars: Vec::new() };
        proof {
            assert(r@ =~= Set::<char>::empty());
        }
        r
    }

    /// Whether the letter is in the set.
    pub fn contains(&self, c: char) -> (r: bool)
        ensures
            r == self@.contains(c),
    {
        let mut i: usize = 0;
        while i < self.chars.len()
            invariant
                0 <= i <= self.chars@.len(),
                forall|j: int| 0 <= j < i ==> self.chars@[j] != c,
            decreases self.chars@.len() - i,
        {
            if self.chars[i] == c {
                return true;
            }
            i += 1;
        }
        false
    }

    /// Adds the letter; a letter already present is kept once.
    pub fn insert(&mut self, c: char)
        ensures
            final(self)@ == old(self)@.insert(c),
            old(self)@.contains(c) ==> final(self).chars@ == old(self).chars@,
            !old(self)@.contains(c) ==> final(self).chars@ == old(self).chars@.push(c),
    {
        if !self.contains(c) {
            self.chars.push(c);
            proof {
                let oc = old(self).chars@;
                assert forall|d: char| self.chars@.contains(d) implies (oc.contains(d) || d
                    == c) by {
                    let i = choose|i: int|
                        0 <= i < self.chars@.len() && self.chars@[i] == d;
                    if i < oc.len() {
                        assert(oc[i] == d);
                    }
                }
                assert forall|d: char| oc.contains(d) implies self.chars@.contains(d) by {
                    let i = choose|i: int| 0 <= i < oc.len() && oc[i] == d;
                    assert(self.chars@[i] == d);
                }
                assert(self.chars@[oc.len() as int] == c);
            }
        }
        proof {
            assert(self@ =~= old(self)@.insert(c));
        }
    }

    /// How many distinct letters the set holds.
    pub fn len(&self) -> (r: usize)
        ensures
            r == self.chars@.len(),
    {
        self.chars.len()
    }

    /// The letter at a position of the underlying insertion order.
    pub fn get(&self, i: usize) -> (r: char)
        requires
            i < self.chars@.len(),
        ensures
            r == self.chars@[i as int],
            self@.contains(r),
    {
        self.chars[i]
    }
}

} // verus!
