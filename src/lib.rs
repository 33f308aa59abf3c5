//! Assembly of an engine-ready character model (skeleton, skin bindings and
//! animation tracks) from the plain data of a scene interchange document.
//!
//! Floating-point values are carried as the bit patterns of IEEE-754 binary32
//! numbers (`Scalar`): the library moves, compares and deduplicates them but
//! never does arithmetic on them.
use vstd::prelude::*;

pub mod animation;
pub mod binding;
pub mod determinism;
pub mod document;
pub mod model;
pub mod load;
pub mod skeleton;

verus! {

/// Bit pattern of an IEEE-754 single-precision number.
pub type Scalar = u32;

/// Bit pattern of `0.0f32`.
pub const SCALAR_ZERO: Scalar = 0;

/// Bit pattern of `1.0f32`.
pub const SCALAR_ONE: Scalar = 0x3F80_0000;

/// A 4x4 matrix, column-major.
pub type Matrix4<T> = [[T; 4]; 4];

/// Index of a vertex in its mesh.
pub type VertexIndex = usize;

/// Index into a binding's weight pool.
pub type WeightIndex = usize;

/// Index of a joint in a skeleton, or in a binding's joint-name list.
pub type JointIndex = u8;

/// Parent index of a root joint: the largest `JointIndex`, which no joint can have.
pub const ROOT_JOINT_PARENT_INDEX: JointIndex = 255;

/// Most joints a skeleton can hold: every index but the root sentinel.
pub const MAX_JOINTS: usize = 255;

/// `m` is the identity: ones on the diagonal, zeros elsewhere.
pub open spec fn is_identity(m: Matrix4<Scalar>) -> bool {
    forall|c: int, r: int|
        0 <= c < 4 && 0 <= r < 4 ==> #[trigger] m[c][r] == if c == r {
            SCALAR_ONE
        } else {
            SCALAR_ZERO
        }
}

/// The identity matrix.
pub fn mat4_id() -> (m: Matrix4<Scalar>)
    ensures
        is_identity(m),
{
    let one = SCALAR_ONE;
    let zero = SCALAR_ZERO;
    let m = [[one, zero, zero, zero], [zero, one, zero, zero], [zero, zero, one, zero], [
        zero,
        zero,
        zero,
        one,
    ]];
    assert(m[0][0] == one && m[1][1] == one && m[2][2] == one && m[3][3] == one);
    m
}

} // verus!
