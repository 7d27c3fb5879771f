use vstd::prelude::*;

verus! {

/// One of the four children of a rectangle split at its midpoint.
///
/// `T` is the half with the larger y, `B` the half with the smaller y,
/// `L` the half with the smaller x and `R` the half with the larger x.
/// Each quadrant has a two-bit code: the low bit is the x half, the high
/// bit the y half.
#[derive(Clone, Copy, Debug, PartialEq, Eq, Structural, Hash)]
pub enum Quadrant {
    TL,
    TR,
    BL,
    BR,
}

impl Quadrant {
    /// The two-bit code of the quadrant.
    pub open spec fn code(self) -> u32 {
        match self {
            Quadrant::BL => 0,
            Quadrant::BR => 1,
            Quadrant::TL => 2,
            Quadrant::TR => 3,
        }
    }

    /// The quadrant whose code is the two low bits of `c`.
    pub open spec fn from_code(c: u32) -> Quadrant {
        let c = c & 3;
        if c == 0 {
            Quadrant::BL
        } else if c == 1 {
            Quadrant::BR
        } else if c == 2 {
            Quadrant::TL
        } else {
            Quadrant::TR
        }
    }

    /// Returns the two-bit code of the quadrant.
    pub fn to_code(self) -> (r: u32)
        ensures
            r == self.code(),
            r < 4,
    {
        match self {
            Quadrant::BL => 0,
            Quadrant::BR => 1,
            Quadrant::TL => 2,
            Quadrant::TR => 3,
        }
    }

    /// Returns the quadrant whose code is the two low bits of `c`.
    pub fn from_bits(c: u32) -> (r: Quadrant)
        ensures
            r == Quadrant::from_code(c),
            r.code() == c & 3,
    {
        let b = c & 3;
        assert(c & 3 < 4) by (bit_vector);
        if b == 0 {
            Quadrant::BL
        } else if b == 1 {
            Quadrant::BR
        } else if b == 2 {
            Quadrant::TL
        } else {
            Quadrant::TR
        }
    }
}

/// Every quadrant is the quadrant of its own code.
pub proof fn lemma_code_round_trip(q: Quadrant)
    ensures
        Quadrant::from_code(q.code()) == q,
        q.code() < 4,
{
    assert(0u32 & 3 == 0 && 1u32 & 3 == 1 && 2u32 & 3 == 2 && 3u32 & 3 == 3) by (bit_vector);
}

} // verus!
