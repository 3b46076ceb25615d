//! Colors: vectors read as red, green and blue, and their way to eight bits.

use vstd::prelude::*;
use crate::scalar::{Scalar, SCALE};
use crate::vec3::Vec3;

verus! {

/// A vector read as red, green and blue; one is full intensity.
pub type Color = Vec3;

/// `v` held between `min` and `max`: `min` where `v` is below it, else `max`
/// where `v` is above that, else `v` itself.
pub open spec fn spec_clamp(v: Scalar, min: Scalar, max: Scalar) -> Scalar {
    if v.raw < min.raw {
        min
    } else if v.raw > max.raw {
        max
    } else {
        v
    }
}

/// Holds `v` between `min` and `max`.
pub fn clamp(v: Scalar, min: Scalar, max: Scalar) -> (r: Scalar)
    ensures
        r == spec_clamp(v, min, max),
{
    if v.raw < min.raw {
        min
    } else if v.raw > max.raw {
        max
    } else {
        v
    }
}

/// Raw upper end of what a channel is held to before it is cut to eight
/// bits: `0.999`.
pub const CHANNEL_MAX: i64 = 999_000_000_000;

/// The eight-bit value of the intensity `v`: its square root (gamma two),
/// held to `[0, 0.999]`, times 256, rounded down.
pub open spec fn spec_channel(v: Scalar) -> int {
    Scalar::of(256 * SCALE).times(
        spec_clamp(v.root(), Scalar { raw: 0 }, Scalar { raw: CHANNEL_MAX }),
    ).whole()
}

/// The eight-bit value of the intensity `v`.
pub fn channel(v: Scalar) -> (r: u8)
    ensures
        r == spec_channel(v),
{
    let held = clamp(v.sqrt(), Scalar::zero(), Scalar::from_raw(CHANNEL_MAX));
    let scaled = Scalar::from_int(256) * held;
    assert(scaled.raw == 256 * held.raw) by {
        assert(256 * SCALE * held.raw == (256 * held.raw) * SCALE) by (nonlinear_arith);
        assert(((256 * held.raw) * SCALE) / (SCALE as int) == 256 * held.raw) by (nonlinear_arith);
    }
    let level: i64 = scaled.trunc();
    assert(0 <= level <= 255);
    level as u8
}

impl Vec3 {
    /// The color as three eight-bit values: red, green, blue.
    pub open spec fn spec_rgb(self) -> (int, int, int) {
        (spec_channel(self.x), spec_channel(self.y), spec_channel(self.z))
    }

    /// The color as three eight-bit values, gamma-corrected: red, green, blue.
    pub fn rgb(&self) -> (r: (u8, u8, u8))
        ensures
            (r.0 as int, r.1 as int, r.2 as int) == self.spec_rgb(),
    {
        (channel(self.x), channel(self.y), channel(self.z))
    }

    /// Black: no light in any channel.
    pub open spec fn spec_black() -> Color {
        Vec3::origin()
    }

    /// White: full intensity in every channel.
    pub open spec fn spec_white() -> Color {
        Vec3 { x: Scalar { raw: SCALE }, y: Scalar { raw: SCALE }, z: Scalar { raw: SCALE } }
    }

    /// The blue of the sky: `(0.5, 0.7, 1.0)`.
    pub open spec fn spec_sky() -> Color {
        Vec3 {
            x: Scalar { raw: 500_000_000_000 },
            y: Scalar { raw: 700_000_000_000 },
            z: Scalar { raw: SCALE },
        }
    }

    /// Black: no light in any channel.
    pub fn black() -> (r: Color)
        ensures
            r == Color::spec_black(),
    {
        Vec3::zero()
    }

    /// White: full intensity in every channel.
    pub fn white() -> (r: Color)
        ensures
            r == Color::spec_white(),
    {
        Vec3 { x: Scalar::one(), y: Scalar::one(), z: Scalar::one() }
    }

    /// The blue of the sky: `(0.5, 0.7, 1.0)`.
    pub fn sky() -> (r: Color)
        ensures
            r == Color::spec_sky(),
    {
        Vec3 {
            x: Scalar { raw: 500_000_000_000 },
            y: Scalar { raw: 700_000_000_000 },
            z: Scalar::one(),
        }
    }
}

} // verus!
