//! Verified decision logic of an analytic optical ray tracer: how crossings of
//! two child solids combine under a boolean operation, which object a ray
//! meets first, and what a ray does at each surface it meets.

use vstd::prelude::*;

pub mod csg;
pub mod trace;

verus! {

} // verus!
