//! Which way a sphere faces a ray that starts inside it.
//!
//! The hit record tells front from back by the sign of a dot product that is
//! formed from rounded numbers. This module shows that rounding cannot turn
//! the sign where the ray cuts a chord of more than a few trillionths from
//! the sphere.

use vstd::prelude::*;
use crate::scalar::{lemma_quot_error, quot, SCALE};

verus! {

/// The magnitude of an integer.
pub open spec fn size(x: int) -> int {
    if x < 0 {
        -x
    } else {
        x
    }
}

/// One coordinate of the outward normal: `r g` is within `r` of `w SCALE`,
/// so `r d g` is within `r |d|` of `SCALE d w`.
pub proof fn lemma_normal_share(d: int, w: int, g: int, r: int)
    requires
        r > 0,
        g == quot(w * SCALE, r),
    ensures
        r * (d * g) >= SCALE * (d * w) - r * size(d),
{
    lemma_quot_error(w * SCALE, r);
    let e = w * SCALE - r * g;
    assert(-r < e < r);
    assert(r * (d * g) == SCALE * (d * w) - d * e) by (nonlinear_arith)
        requires
            e == w * SCALE - r * g,
    ;
    assert(d * e <= r * size(d)) by (nonlinear_arith)
        requires
            -r < e < r,
            size(d) == d || size(d) == -d,
            size(d) >= 0,
    ;
}

/// One coordinate of the step to the hit point: `SCALE m` is within `SCALE`
/// of `t d`.
pub proof fn lemma_step_share(d: int, oc: int, m: int, t: int)
    requires
        m == quot(t * d, SCALE as int),
    ensures
        SCALE * (d * (oc + m)) >= SCALE * (d * oc) + t * (d * d) - SCALE * size(d),
{
    lemma_quot_error(t * d, SCALE as int);
    let e = t * d - SCALE * m;
    assert(-SCALE < e < SCALE);
    assert(SCALE * (d * (oc + m)) == SCALE * (d * oc) + t * (d * d) - d * e) by (nonlinear_arith)
        requires
            e == t * d - SCALE * m,
    ;
    assert(d * e <= SCALE * size(d)) by (nonlinear_arith)
        requires
            -SCALE < e < SCALE,
            size(d) == d || size(d) == -d,
            size(d) >= 0,
    ;
}

} // verus!
