//! The logical shape of a node: a disc.

use vstd::prelude::*;
use crate::geometry::{Pos2, dist_sq};
use crate::event::Event;

verus! {

/// The radius that a new circle starts with.
pub const DEFAULT_RADIUS: u32 = 10;

/// A disc given by its centre and radius.
#[derive(Clone, Copy, Debug, PartialEq, Eq, Structural)]
pub struct Circle {
    pub center: Pos2,
    pub radius: u32,
}

impl Circle {
    /// Whether `point` lies strictly inside the disc: its Euclidean distance
    /// to the centre is less than the radius.
    pub open spec fn covers(self, point: Pos2) -> bool {
        dist_sq(point, self.center) < self.radius * self.radius
    }

    /// The disc after it has seen `event`: a pointer move carries the centre
    /// along, nothing else touches it.
    pub open spec fn followed(self, event: Event) -> Circle {
        match event.moved_to() {
            Some(p) => Circle { center: p, radius: self.radius },
            None => self,
        }
    }

    pub fn new(center: Pos2) -> (c: Circle)
        ensures
            c == (Circle { center, radius: DEFAULT_RADIUS }),
    {
        Circle { center, radius: DEFAULT_RADIUS }
    }

    pub fn set_radius(&mut self, radius: u32)
        ensures
            *final(self) == (Circle { center: old(self).center, radius }),
    {
        self.radius = radius;
    }

    pub fn set_center(&mut self, center: Pos2)
        ensures
            *final(self) == (Circle { center, radius: old(self).radius }),
    {
        self.center = center;
    }

    pub fn center(&self) -> (c: Pos2)
        ensures
            c == self.center,
    {
        self.center
    }

    pub fn radius(&self) -> (r: u32)
        ensures
            r == self.radius,
    {
        self.radius
    }

    /// Hit test against the disc.
    pub fn contains(&self, point: Pos2) -> (hit: bool)
        ensures
            hit == self.covers(point),
    {
        let r: u128 = self.radius as u128;
        assert(r * r <= 0xFFFF_FFFE_0000_0001) by (nonlinear_arith)
            requires
                0 <= r <= 0xFFFF_FFFF,
        ;
        point.distance_sq(self.center) < r * r
    }

    /// Moves the centre to where a pointer move reports the pointer.
    pub fn follow_mouse(&mut self, event: &Event)
        ensures
            *final(self) == old(self).followed(*event),
    {
        if let Event::PointerMoved(pos) = event {
            self.center = *pos;
        }
    }
}

} // verus!
