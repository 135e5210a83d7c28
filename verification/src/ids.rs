//! Commit identifiers.
//!
//! A commit id is a 20-byte opaque value. It is held here as the big-endian
//! split of those bytes into a 16-byte high part and a 4-byte low part, so
//! that equality and the total order by byte sequence become integer
//! equality and the lexicographic order on `(hi, lo)`.

use vstd::prelude::*;

verus! {

/// A 20-byte commit identifier, ordered by byte sequence.
#[derive(Clone, Copy, Debug, Hash, PartialEq, Eq, Structural)]
pub struct CommitId {
    /// The first 16 bytes, big-endian.
    pub hi: u128,
    /// The last 4 bytes, big-endian.
    pub lo: u32,
}

impl CommitId {
    /// The whole identifier as one mathematical integer; the order on ids
    /// is the order of these integers.
    pub open spec fn as_int(self) -> int {
        self.hi * 0x1_0000_0000 + self.lo
    }

    /// Strict order by byte sequence.
    pub open spec fn spec_lt(self, other: CommitId) -> bool {
        self.hi < other.hi || (self.hi == other.hi && self.lo < other.lo)
    }

    /// Builds an id from its two big-endian halves.
    pub fn new(hi: u128, lo: u32) -> (r: CommitId)
        ensures
            r == (CommitId { hi, lo }),
    {
        CommitId { hi, lo }
    }

    /// A convenience constructor for small ids.
    pub fn from_number(n: u32) -> (r: CommitId)
        ensures
            r == (CommitId { hi: 0u128, lo: n }),
    {
        CommitId { hi: 0, lo: n }
    }

    /// Equality test.
    pub fn eq_id(&self, other: &CommitId) -> (r: bool)
        ensures
            r == (*self == *other),
    {
        self.hi == other.hi && self.lo == other.lo
    }

    /// Strict order test by byte sequence.
    pub fn lt_id(&self, other: &CommitId) -> (r: bool)
        ensures
            r == self.spec_lt(*other),
    {
        self.hi < other.hi || (self.hi == other.hi && self.lo < other.lo)
    }

    /// The successor id, when the byte sequence is read as one big-endian
    /// number; `None` at the greatest id.
    pub fn next(&self) -> (r: Option<CommitId>)
        ensures
            match r {
                Some(n) => n.as_int() == self.as_int() + 1,
                None => self.hi == u128::MAX && self.lo == u32::MAX,
            },
    {
        if self.lo < u32::MAX {
            Some(CommitId { hi: self.hi, lo: self.lo + 1 })
        } else if self.hi < u128::MAX {
            Some(CommitId { hi: self.hi + 1, lo: 0 })
        } else {
            None
        }
    }
}

/// The strict order `spec_lt` agrees with the order of `as_int`.
pub proof fn lemma_lt_is_int_lt(a: CommitId, b: CommitId)
    ensures
        a.spec_lt(b) <==> a.as_int() < b.as_int(),
{
    assert(a.spec_lt(b) <==> a.as_int() < b.as_int()) by (nonlinear_arith)
        requires
            a.lo < 0x1_0000_0000,
            b.lo < 0x1_0000_0000,
    {}
}

/// The successor of an id, as [`CommitId::next`] computes it; meaningful
/// only below the greatest id.
pub open spec fn spec_succ(c: CommitId) -> CommitId {
    if c.lo < u32::MAX {
        CommitId { hi: c.hi, lo: (c.lo + 1) as u32 }
    } else {
        CommitId { hi: (c.hi + 1) as u128, lo: 0 }
    }
}

/// Two ids with the same integer value are the same id.
pub proof fn lemma_as_int_injective(a: CommitId, b: CommitId)
    requires
        a.as_int() == b.as_int(),
    ensures
        a == b,
{
    lemma_lt_is_int_lt(a, b);
    lemma_lt_is_int_lt(b, a);
}

} // verus!
