//! Plain message shapes: instants in time and stamped rigid transforms.

use vstd::prelude::*;

verus! {

/// An instant, split into whole seconds and nanoseconds.
#[derive(Clone, Copy, PartialEq, Eq, Debug)]
pub struct Time {
    pub sec: u32,
    pub nsec: u32,
}

impl Time {
    /// The instant as one mathematical nanosecond count.
    pub open spec fn nanos(self) -> int {
        self.sec * 1_000_000_000 + self.nsec
    }

    /// The nanosecond count of this instant; it always fits in 64 bits.
    pub fn as_nanos(&self) -> (r: u64)
        ensures
            r == self.nanos(),
    {
        self.sec as u64 * 1_000_000_000 + self.nsec as u64
    }

    /// The signed nanosecond distance from `earlier` to `self`.
    pub fn nanos_since(&self, earlier: &Time) -> (r: i64)
        ensures
            r == self.nanos() - earlier.nanos(),
    {
        self.as_nanos() as i64 - earlier.as_nanos() as i64
    }
}

/// A signed span of time, mirroring the (sec, nsec) wire shape. Lookup
/// operations accept one as a timeout; the store itself never waits, so the
/// value is carried but not acted on.
#[derive(Clone, Copy, PartialEq, Eq, Debug)]
pub struct Duration {
    pub sec: i32,
    pub nsec: i32,
}

/// A rotation, as the four components of a unit quaternion. Each component
/// is the bit pattern of an IEEE-754 double: the store routes these values
/// untouched, and the surrounding math layer does the arithmetic.
#[derive(Clone, Copy, PartialEq, Eq, Debug)]
pub struct Quaternion {
    pub x: u64,
    pub y: u64,
    pub z: u64,
    pub w: u64,
}

/// A 3D translation; components are IEEE-754 double bit patterns, as in
/// [`Quaternion`].
#[derive(Clone, Copy, PartialEq, Eq, Debug)]
pub struct Vector3 {
    pub x: u64,
    pub y: u64,
    pub z: u64,
}

/// A rigid transform: the pose of a child frame relative to its parent frame
/// at one instant.
///
/// When `inverted` is set, the recorded components stand for the algebraic
/// inverse of the transform they spell out; the math layer applies that
/// inversion when it realizes the value. The store marks, rather than
/// computes, inverses: numeric inversion is the math layer's job.
#[derive(Clone, Copy, PartialEq, Eq, Debug)]
pub struct Transform {
    pub rotation: Quaternion,
    pub translation: Vector3,
    pub inverted: bool,
}

/// The stamped header of an observation: a sequence counter, the observation
/// instant, and the parent frame's name.
#[derive(PartialEq, Eq, Debug)]
pub struct Header {
    pub seq: u32,
    pub stamp: Time,
    pub frame_id: String,
}

impl Clone for Header {
    fn clone(&self) -> (r: Header)
        ensures
            r == *self,
    {
        Header { seq: self.seq, stamp: self.stamp, frame_id: self.frame_id.clone() }
    }
}

/// One observed relationship: the pose of `child_frame_id` relative to the
/// header's `frame_id` at the header's instant.
#[derive(PartialEq, Eq, Debug)]
pub struct TransformStamped {
    pub header: Header,
    pub child_frame_id: String,
    pub transform: Transform,
}

impl Clone for TransformStamped {
    fn clone(&self) -> (r: TransformStamped)
        ensures
            r == *self,
    {
        TransformStamped {
            header: self.header.clone(),
            child_frame_id: self.child_frame_id.clone(),
            transform: self.transform,
        }
    }
}

/// A batch of observed relationships, delivered together.
#[derive(PartialEq, Eq, Debug)]
pub struct TFMessage {
    pub transforms: Vec<TransformStamped>,
}

} // verus!
