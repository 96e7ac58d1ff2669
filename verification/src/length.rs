//! Fixed-point lengths and saturating arithmetic on them.
//!
//! Positions and offsets are `i64` fixed-point lengths.  Sums and
//! differences saturate at the ends of the `i64` range, so the solver never
//! panics however large the inputs are; `clip` is the specification of that
//! saturation.  `Extent` is a length extended with a positive infinity, used
//! for the upper end of an interval constraint and for group slack.

use vstd::prelude::*;

verus! {

/// Saturation of a mathematical integer into the `i64` range.
pub open spec fn clip(x: int) -> int {
    if x > i64::MAX as int {
        i64::MAX as int
    } else if x < i64::MIN as int {
        i64::MIN as int
    } else {
        x
    }
}

/// A length extended with positive infinity.
///
/// The upper end of an interval constraint is either a finite length or
/// unbounded, and a group's slack is infinite while no constraint out of the
/// group has been seen.
#[derive(Clone, Copy, Debug, PartialEq, Eq, Structural)]
pub enum Extent {
    Fin(i64),
    Inf,
}

impl Extent {
    pub open spec fn is_fin(self) -> bool {
        self is Fin
    }

    pub open spec fn fin_val(self) -> int {
        self->Fin_0 as int
    }

    /// `self <= other`, with `Inf` above every finite length.
    pub open spec fn spec_le(self, other: Extent) -> bool {
        match self {
            Extent::Fin(a) => match other {
                Extent::Fin(b) => a <= b,
                Extent::Inf => true,
            },
            Extent::Inf => other is Inf,
        }
    }

    /// The smaller of two extents.
    pub open spec fn spec_min(self, other: Extent) -> Extent {
        if self.spec_le(other) {
            self
        } else {
            other
        }
    }

    /// Replaces `self` with the smaller of `self` and `other`.
    pub fn set_min(&mut self, other: Extent)
        ensures
            *final(self) == old(self).spec_min(other),
    {
        match *self {
            Extent::Inf => {
                *self = other;
            }
            Extent::Fin(a) => {
                match other {
                    Extent::Inf => {}
                    Extent::Fin(b) => {
                        if b < a {
                            *self = other;
                        }
                    }
                }
            }
        }
    }
}

/// `a + b`, saturating at the ends of the `i64` range.
pub fn add_clip(a: i64, b: i64) -> (r: i64)
    ensures
        r as int == clip(a + b),
{
    let s: i128 = a as i128 + b as i128;
    if s > i64::MAX as i128 {
        i64::MAX
    } else if s < i64::MIN as i128 {
        i64::MIN
    } else {
        s as i64
    }
}

/// `a - b`, saturating at the ends of the `i64` range.
pub fn sub_clip(a: i64, b: i64) -> (r: i64)
    ensures
        r as int == clip(a - b),
{
    let s: i128 = a as i128 - b as i128;
    if s > i64::MAX as i128 {
        i64::MAX
    } else if s < i64::MIN as i128 {
        i64::MIN
    } else {
        s as i64
    }
}

/// Saturation keeps order: a smaller integer never clips above a larger one.
pub proof fn lemma_clip_monotone(x: int, y: int)
    requires
        x <= y,
    ensures
        clip(x) <= clip(y),
{
}

/// A value already in range is left unchanged by saturation.
pub proof fn lemma_clip_id(x: int)
    requires
        i64::MIN <= x <= i64::MAX,
    ensures
        clip(x) == x,
{
}

} // verus!
