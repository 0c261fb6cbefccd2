//! The sliders at the top left of the screen.

use vstd::prelude::*;
use crate::float::{Float, dec};
use crate::vector::Vec2;

verus! {

/// The number of sliders: air damping, room size and time scale.
pub const SLIDERS: usize = 3;

/// Where a slider is drawn, and the range it covers.
#[derive(Clone, Copy, Debug)]
pub struct SliderDef {
    pub y: Float,
    pub lo: Float,
    pub hi: Float,
}

/// The left end of every slider.
#[verifier::allow_in_spec]
pub fn slider_x() -> Float
    returns
        dec(18, 1),
{
    dec(18, 1)
}

/// The length of every slider.
#[verifier::allow_in_spec]
pub fn slider_w() -> Float
    returns
        dec(200, 1),
{
    dec(200, 1)
}

/// Slider number `i`.
#[verifier::allow_in_spec]
pub fn slider(i: usize) -> SliderDef
    requires
        i < SLIDERS,
    returns
        (if i == 0 {
            SliderDef { y: dec(92, 1), lo: dec(0, 1), hi: dec(25, 100) }
        } else if i == 1 {
            SliderDef { y: dec(124, 1), lo: dec(4, 10), hi: dec(18, 10) }
        } else {
            SliderDef { y: dec(156, 1), lo: dec(5, 100), hi: dec(2, 1) }
        }),
{
    if i == 0 {
        SliderDef { y: dec(92, 1), lo: dec(0, 1), hi: dec(25, 100) }
    } else if i == 1 {
        SliderDef { y: dec(124, 1), lo: dec(4, 10), hi: dec(18, 10) }
    } else {
        SliderDef { y: dec(156, 1), lo: dec(5, 100), hi: dec(2, 1) }
    }
}

/// The name of slider `i`.
pub open spec fn label_of(i: usize) -> Seq<char> {
    if i == 0 {
        "air damping"@
    } else if i == 1 {
        "room size"@
    } else {
        "time scale"@
    }
}

/// The name of slider `i`.
pub fn slider_label(i: usize) -> (s: &'static str)
    requires
        i < SLIDERS,
    ensures
        s@ == label_of(i),
{
    if i == 0 {
        "air damping"
    } else if i == 1 {
        "room size"
    } else {
        "time scale"
    }
}

/// Whether a point is on slider `i`, or near enough.
#[verifier::allow_in_spec]
pub fn slider_hit(i: usize, m: Vec2) -> bool
    requires
        i < SLIDERS,
    returns
        (slider_x().sub(dec(10, 1)).le(m.x) && m.x.le(slider_x().add(slider_w()).add(dec(10, 1)))
            && m.y.sub(slider(i).y).abs().le(dec(12, 1))),
{
    slider_x().sub(dec(10, 1)).le(m.x) && m.x.le(slider_x().add(slider_w()).add(dec(10, 1)))
        && m.y.sub(slider(i).y).abs().le(dec(12, 1))
}

/// The value of slider `i` with its knob under `mx`.
#[verifier::allow_in_spec]
pub fn slider_value_from_mouse(i: usize, mx: Float) -> Float
    requires
        i < SLIDERS,
    returns
        slider(i).lo.add(
            mx.sub(slider_x()).div(slider_w()).clamp(dec(0, 1), dec(1, 1)).mul(
                slider(i).hi.sub(slider(i).lo),
            ),
        ),
{
    let s = slider(i);
    let frac = mx.sub(slider_x()).div(slider_w()).clamp(dec(0, 1), dec(1, 1));
    s.lo.add(frac.mul(s.hi.sub(s.lo)))
}

/// Which slider is under a point.
pub open spec fn slider_at(m: Vec2) -> Option<usize> {
    if slider_hit(0, m) {
        Some(0)
    } else if slider_hit(1, m) {
        Some(1)
    } else if slider_hit(2, m) {
        Some(2)
    } else {
        None
    }
}

/// Which slider is under a point; the topmost where there are two.
pub fn find_slider(m: Vec2) -> (r: Option<usize>)
    ensures
        r == slider_at(m),
        r matches Some(i) ==> i < SLIDERS,
{
    let mut i: usize = 0;
    while i < SLIDERS
        invariant
            i <= SLIDERS,
            forall|j: usize| j < i ==> !slider_hit(j, m),
        decreases SLIDERS - i,
    {
        if slider_hit(i, m) {
            assert(i == 0 || !slider_hit(0, m));
            assert(i <= 1 || !slider_hit(1, m));
            return Some(i);
        }
        i = i + 1;
    }
    assert(!slider_hit(0, m) && !slider_hit(1, m) && !slider_hit(2, m));
    None
}

} // verus!
