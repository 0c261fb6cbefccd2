//! Points and velocities of the plane.

use vstd::prelude::*;
use crate::float::Float;

verus! {

/// A point or a velocity, in pixels.
#[derive(Clone, Copy, Debug)]
pub struct Vec2 {
    pub x: Float,
    pub y: Float,
}

/// The vector with the given components.
#[verifier::allow_in_spec]
pub fn vec2(x: Float, y: Float) -> Vec2
    returns
        (Vec2 { x, y }),
{
    Vec2 { x, y }
}

impl Vec2 {
    pub open spec fn spec_add(self, b: Vec2) -> Vec2 {
        vec2(self.x.add(b.x), self.y.add(b.y))
    }

    pub open spec fn spec_sub(self, b: Vec2) -> Vec2 {
        vec2(self.x.sub(b.x), self.y.sub(b.y))
    }

    pub open spec fn spec_scale(self, k: Float) -> Vec2 {
        vec2(self.x.mul(k), self.y.mul(k))
    }

    pub open spec fn spec_length_squared(self) -> Float {
        self.x.mul(self.x).add(self.y.mul(self.y))
    }

    pub open spec fn spec_length(self) -> Float {
        self.spec_length_squared().sqrt()
    }

    /// The sum by components.
    #[verifier::when_used_as_spec(spec_add)]
    pub fn add(self, b: Vec2) -> (r: Vec2)
        ensures
            r == self.spec_add(b),
    {
        vec2(self.x.add(b.x), self.y.add(b.y))
    }

    /// The difference by components.
    #[verifier::when_used_as_spec(spec_sub)]
    pub fn sub(self, b: Vec2) -> (r: Vec2)
        ensures
            r == self.spec_sub(b),
    {
        vec2(self.x.sub(b.x), self.y.sub(b.y))
    }

    /// Each component times `k`.
    #[verifier::when_used_as_spec(spec_scale)]
    pub fn scale(self, k: Float) -> (r: Vec2)
        ensures
            r == self.spec_scale(k),
    {
        vec2(self.x.mul(k), self.y.mul(k))
    }

    /// The square of the length.
    #[verifier::when_used_as_spec(spec_length_squared)]
    pub fn length_squared(self) -> (r: Float)
        ensures
            r == self.spec_length_squared(),
    {
        self.x.mul(self.x).add(self.y.mul(self.y))
    }

    /// The length.
    #[verifier::when_used_as_spec(spec_length)]
    pub fn length(self) -> (r: Float)
        ensures
            r == self.spec_length(),
    {
        self.length_squared().sqrt()
    }
}

} // verus!
