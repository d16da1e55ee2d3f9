//! An insertion-ordered set of characters.

use vstd::prelude::*;

verus! {

/// A finite set of characters.
///
/// The members are kept in the order in which they were first inserted, and
/// that order is the order in which the set is enumerated. The view is the
/// sequence of members; it never holds a character twice.
#[derive(Debug)]
pub struct CharSet {
    members: Vec<char>,
}

impl View for CharSet {
    type V = Seq<char>;

    closed spec fn view(&self) -> Seq<char> {
        self.members@
    }
}

impl CharSet {
    #[verifier::type_invariant]
    spec fn distinct(&self) -> bool {
        self.members@.no_duplicates()
    }

    /// The members as a mathematical set.
    pub open spec fn members(&self) -> Set<char> {
        self@.to_set()
    }

    /// The empty set.
    pub fn new() -> (s: Self)
        ensures
            s@ == Seq::<char>::empty(),
    {
        CharSet { members: Vec::new() }
    }

    /// The number of members.
    pub fn len(&self) -> (n: usize)
        ensures
            n == self@.len(),
            n == self.members().len(),
            self@.no_duplicates(),
    {
        proof {
            use_type_invariant(self);
            self.members@.unique_seq_to_set();
        }
        self.members.len()
    }

    /// The member at position `i` of the enumeration.
    pub fn get(&self, i: usize) -> (c: char)
        requires
            i < self@.len(),
        ensures
            c == self@[i as int],
    {
        self.members[i]
    }

    /// Whether `c` is a member.
    pub fn contains(&self, c: char) -> (found: bool)
        ensures
            found == self@.contains(c),
    {
        let n: usize = self.members.len();
        let mut i: usize = 0;
        while i < n
            invariant
                n == self.members@.len(),
                i <= n,
                forall|k: int| 0 <= k < i ==> self.members@[k] != c,
            decreases n - i,
        {
            if self.members[i] == c {
                return true;
            }
            i += 1;
        }
        false
    }

    /// Adds `c` unless it is a member already, and says whether it was added.
    /// A new member goes to the end of the enumeration.
    pub fn insert(&mut self, c: char) -> (added: bool)
        ensures
            added == !old(self)@.contains(c),
            final(self)@ == if added {
                old(self)@.push(c)
            } else {
                old(self)@
            },
    {
        if self.contains(c) {
            false
        } else {
            proof {
                use_type_invariant(&*self);
            }
            // The members are replaced as a whole, so that the set is never
            // borrowed while its invariant is in doubt.
            let mut members: Vec<char> = self.members.clone();
            members.push(c);
            self.members = members;
            true
        }
    }
}

} // verus!
