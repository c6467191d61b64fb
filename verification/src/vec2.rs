//! Two-component vector shared by every other module.

use vstd::prelude::*;

verus! {

/// A pair of coordinates of any component type.
#[derive(Default, Copy, Clone, Debug, PartialEq)]
pub struct Vec2<T> {
    pub x: T,
    pub y: T,
}

impl<T> Vec2<T> {
    /// Builds the vector `(x, y)`.
    pub fn new(x: T, y: T) -> (v: Vec2<T>)
        ensures
            v.x == x,
            v.y == y,
    {
        Vec2::<T> { x, y }
    }

    /// Overwrites both components.
    pub fn set(&mut self, x: T, y: T)
        ensures
            final(self).x == x,
            final(self).y == y,
    {
        self.x = x;
        self.y = y;
    }
}

} // verus!
