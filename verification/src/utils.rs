//! Small helpers on stamped transforms.

use vstd::prelude::*;
use crate::msg::{Header, Transform, TransformStamped};

verus! {

/// The algebraic inverse of a stamped observation: parent and child roles
/// swap, the stamp stays, and the transform is marked inverted (the math
/// layer performs the numeric inversion when it realizes the value).
pub open spec fn tf_inverse(t: TransformStamped) -> TransformStamped {
    TransformStamped {
        header: Header { seq: t.header.seq, stamp: t.header.stamp, frame_id: t.child_frame_id },
        child_frame_id: t.header.frame_id,
        transform: Transform {
            rotation: t.transform.rotation,
            translation: t.transform.translation,
            inverted: !t.transform.inverted,
        },
    }
}

/// Builds the algebraic inverse of `transform`; see [`tf_inverse`].
pub fn get_inverse(transform: TransformStamped) -> (r: TransformStamped)
    ensures
        r == tf_inverse(transform),
{
    TransformStamped {
        header: Header {
            seq: transform.header.seq,
            stamp: transform.header.stamp,
            frame_id: transform.child_frame_id,
        },
        child_frame_id: transform.header.frame_id,
        transform: Transform {
            rotation: transform.transform.rotation,
            translation: transform.transform.translation,
            inverted: !transform.transform.inverted,
        },
    }
}

} // verus!
