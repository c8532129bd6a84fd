use vstd::prelude::*;

use crate::float_bits::{
    float_le, float_lt, less_or_equal, less_than, INFINITY_BITS, NEG_INFINITY_BITS,
};
use crate::identity::{is_random_uuid, SurfaceId};

verus! {

/// Why a surface's parameters were refused.
#[derive(Clone, Copy, Debug, PartialEq, Eq, Structural)]
pub enum ShapeError {
    /// The lower end of the extent lies above the upper end, or one of them
    /// is NaN.
    InvalidExtent,
}

/// A cylinder of unit radius around the local y axis, cut to the extent
/// `minimum < y < maximum` and capped at both ends when `closed`.
///
/// The ends are held as bit patterns of single-precision numbers; the
/// extent is well formed when `minimum <= maximum`.
#[derive(Clone, Copy, Debug, PartialEq, Eq, Structural)]
pub struct Cylinder {
    pub id: SurfaceId,
    pub minimum_bits: u32,
    pub maximum_bits: u32,
    pub closed: bool,
}

impl Cylinder {
    /// The extent is well formed.
    pub open spec fn wf(&self) -> bool {
        float_le(self.minimum_bits, self.maximum_bits)
    }

    /// A height strictly inside the extent.
    pub open spec fn spans(&self, y_bits: u32) -> bool {
        float_lt(self.minimum_bits, y_bits) && float_lt(y_bits, self.maximum_bits)
    }

    /// A cylinder cut at `minimum` and `maximum`; refused unless
    /// `minimum <= maximum`.
    pub fn with_extent(minimum_bits: u32, maximum_bits: u32, closed: bool) -> (r: Result<
        Cylinder,
        ShapeError,
    >)
        ensures
            match r {
                Ok(c) => float_le(minimum_bits, maximum_bits) && c.minimum_bits == minimum_bits
                    && c.maximum_bits == maximum_bits && c.closed == closed && is_random_uuid(
                    c.id.value,
                ),
                Err(e) => !float_le(minimum_bits, maximum_bits) && e == ShapeError::InvalidExtent,
            },
    {
        if !less_or_equal(minimum_bits, maximum_bits) {
            return Err(ShapeError::InvalidExtent);
        }
        Ok(Cylinder { id: SurfaceId::new_random(), minimum_bits, maximum_bits, closed })
    }

    /// Moves the lower end to `bits`; refused, and nothing changed, when it
    /// would lie above the upper end.
    pub fn set_minimum(&mut self, bits: u32) -> (r: Result<(), ShapeError>)
        ensures
            final(self).id == old(self).id,
            final(self).maximum_bits == old(self).maximum_bits,
            final(self).closed == old(self).closed,
            match r {
                Ok(_) => float_le(bits, old(self).maximum_bits) && final(self).minimum_bits
                    == bits,
                Err(e) => !float_le(bits, old(self).maximum_bits) && *final(self) == *old(self)
                    && e == ShapeError::InvalidExtent,
            },
    {
        if !less_or_equal(bits, self.maximum_bits) {
            return Err(ShapeError::InvalidExtent);
        }
        self.minimum_bits = bits;
        Ok(())
    }

    /// Moves the upper end to `bits`; refused, and nothing changed, when it
    /// would lie below the lower end.
    pub fn set_maximum(&mut self, bits: u32) -> (r: Result<(), ShapeError>)
        ensures
            final(self).id == old(self).id,
            final(self).minimum_bits == old(self).minimum_bits,
            final(self).closed == old(self).closed,
            match r {
                Ok(_) => float_le(old(self).minimum_bits, bits) && final(self).maximum_bits
                    == bits,
                Err(e) => !float_le(old(self).minimum_bits, bits) && *final(self) == *old(self)
                    && e == ShapeError::InvalidExtent,
            },
    {
        if !less_or_equal(self.minimum_bits, bits) {
            return Err(ShapeError::InvalidExtent);
        }
        self.maximum_bits = bits;
        Ok(())
    }

    /// Caps, or uncaps, both ends.
    pub fn set_closed(&mut self, closed: bool)
        ensures
            *final(self) == (Cylinder { closed, ..*old(self) }),
    {
        self.closed = closed;
    }

    /// Whether a point at height `y_bits` lies strictly between the ends:
    /// the rule that keeps a root of the side wall.
    pub fn spans_height(&self, y_bits: u32) -> (r: bool)
        ensures
            r == self.spans(y_bits),
    {
        less_than(self.minimum_bits, y_bits) && less_than(y_bits, self.maximum_bits)
    }
}

/// An open cylinder without ends: minimum negative infinity, maximum
/// positive infinity.
pub fn cylinder() -> (r: Cylinder)
    ensures
        r.minimum_bits == NEG_INFINITY_BITS,
        r.maximum_bits == INFINITY_BITS,
        !r.closed,
        r.wf(),
        is_random_uuid(r.id.value),
{
    proof {
        assert(0xff80_0000u32 & 0x7fff_ffffu32 == 0x7f80_0000u32) by (bit_vector);
        assert(0x7f80_0000u32 & 0x7fff_ffffu32 == 0x7f80_0000u32) by (bit_vector);
    }
    Cylinder {
        id: SurfaceId::new_random(),
        minimum_bits: NEG_INFINITY_BITS,
        maximum_bits: INFINITY_BITS,
        closed: false,
    }
}

} // verus!
