//! Identities of the parties inside a protocol.

use vstd::prelude::*;

verus! {

/// The position of a party in the ring of parties.
#[derive(Clone, Copy, Debug, PartialEq, Eq, PartialOrd, Ord, Hash, Structural)]
pub struct Role {
    pub index: usize,
}

impl Role {
    /// The role with the given position.
    pub fn new(index: usize) -> (r: Role)
        ensures
            r.index == index,
    {
        Role { index }
    }

    /// The position of the role.
    pub fn index(&self) -> (r: usize)
        ensures
            r == self.index,
    {
        self.index
    }

    /// The role after this one in a ring of `count` parties.
    pub fn next(&self, count: usize) -> (r: Role)
        requires
            self.index < count,
        ensures
            r.index == (self.index + 1) % count as int,
    {
        if self.index + 1 == count {
            proof {
                vstd::arithmetic::div_mod::lemma_mod_self_0(count as int);
            }
            Role { index: 0 }
        } else {
            proof {
                vstd::arithmetic::div_mod::lemma_small_mod((self.index + 1) as nat, count as nat);
            }
            Role { index: self.index + 1 }
        }
    }

    /// The role before this one in a ring of `count` parties.
    pub fn prev(&self, count: usize) -> (r: Role)
        requires
            self.index < count,
        ensures
            r.index == (self.index + count - 1) % count as int,
    {
        if self.index == 0 {
            proof {
                vstd::arithmetic::div_mod::lemma_small_mod((count - 1) as nat, count as nat);
            }
            Role { index: count - 1 }
        } else {
            proof {
                vstd::arithmetic::div_mod::lemma_mod_add_multiples_vanish(
                    self.index - 1,
                    count as int,
                );
                vstd::arithmetic::div_mod::lemma_small_mod(
                    (self.index - 1) as nat,
                    count as nat,
                );
            }
            Role { index: self.index - 1 }
        }
    }
}

} // verus!
