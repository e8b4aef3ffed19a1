use vstd::prelude::*;

verus! {

/// Largest reflection coefficient magnitude that the lighting model accepts.
pub const REFLECT_LIMIT: i64 = 0x100_0000_0000;

/// How strongly a material reflects each channel: fixed-point coefficients
/// (see `SCALE`), usually between zero and one but not limited to that.
#[derive(Clone, Copy, Debug, PartialEq, Eq, Structural)]
pub struct ReflectionValue {
    pub r: i64,
    pub g: i64,
    pub b: i64,
}

impl ReflectionValue {
    pub open spec fn in_range(&self) -> bool {
        -REFLECT_LIMIT <= self.r <= REFLECT_LIMIT && -REFLECT_LIMIT <= self.g <= REFLECT_LIMIT
            && -REFLECT_LIMIT <= self.b <= REFLECT_LIMIT
    }

    /// No reflection at all.
    pub fn new() -> (v: ReflectionValue)
        ensures
            v == (ReflectionValue { r: 0, g: 0, b: 0 }),
    {
        ReflectionValue { r: 0, g: 0, b: 0 }
    }

    pub fn new_values(r: i64, g: i64, b: i64) -> (v: ReflectionValue)
        ensures
            v == (ReflectionValue { r, g, b }),
    {
        ReflectionValue { r, g, b }
    }

    /// Whether every coefficient lies within `REFLECT_LIMIT`.
    pub fn is_in_range(&self) -> (ok: bool)
        ensures
            ok == self.in_range(),
    {
        -REFLECT_LIMIT <= self.r && self.r <= REFLECT_LIMIT && -REFLECT_LIMIT <= self.g && self.g
            <= REFLECT_LIMIT && -REFLECT_LIMIT <= self.b && self.b <= REFLECT_LIMIT
    }
}

} // verus!
