//! The component records that entities carry.
//!
//! `Position` and `Speed` are generic in the number type of their
//! coordinates; how two such numbers are added is the caller's to say.

use vstd::prelude::*;

verus! {

/// Position of an entity in three dimensions.
#[derive(Clone, Copy, Debug, PartialEq)]
pub struct Position<T> {
    pub x: T,
    pub y: T,
    pub z: T,
}

/// Speed of an entity: the change of its position in one tick.
#[derive(Clone, Copy, Debug, PartialEq)]
pub struct Speed<T> {
    pub dx: T,
    pub dy: T,
    pub dz: T,
}

/// A mesh to draw an entity with.
#[derive(Clone, Copy, Debug, PartialEq, Eq, Structural)]
pub struct Mesh {
    pub handle: u64,
    pub y: usize,
}

/// A sphere's tessellation.
#[derive(Clone, Copy, Debug, PartialEq, Eq, Structural)]
pub struct Sphere {
    pub u: i32,
    pub v: i32,
}

/// Whether `after` is `before` moved by `speed`: each coordinate of
/// `after` is what `plus` gives for that coordinate of `before` and the
/// matching delta of `speed`.
pub open spec fn moved<T, F: Fn(T, T) -> T>(
    plus: F,
    before: Position<T>,
    speed: Speed<T>,
    after: Position<T>,
) -> bool {
    &&& call_ensures(plus, (before.x, speed.dx), after.x)
    &&& call_ensures(plus, (before.y, speed.dy), after.y)
    &&& call_ensures(plus, (before.z, speed.dz), after.z)
}

impl<T: Copy> Position<T> {
    /// Moves the position by `speed`, coordinate by coordinate.
    pub fn add_speed<F: Fn(T, T) -> T>(&mut self, speed: &Speed<T>, plus: &F)
        requires
            forall|a: T, b: T| call_requires(*plus, (a, b)),
        ensures
            moved(*plus, *old(self), *speed, *final(self)),
    {
        self.x = plus(self.x, speed.dx);
        self.y = plus(self.y, speed.dy);
        self.z = plus(self.z, speed.dz);
    }
}

} // verus!
