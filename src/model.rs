//! The assembled model: skeleton, skin bindings, animation tracks.
use vstd::prelude::*;
use crate::{JointIndex, Matrix4, Scalar, VertexIndex, WeightIndex, MAX_JOINTS, ROOT_JOINT_PARENT_INDEX};

verus! {

pub struct Skeleton {
    /// All joints, each parent before its children.
    pub joints: Vec<Joint>,
    /// Default parent-relative transform of each joint at bind time, column-major.
    pub bind_poses: Vec<Matrix4<Scalar>>,
}

pub struct Joint {
    pub name: String,
    /// Position of the parent in the skeleton's joints, or `ROOT_JOINT_PARENT_INDEX`.
    pub parent_index: JointIndex,
    /// Transform from model space to this joint's space at bind time, column-major.
    pub inverse_bind_pose: Matrix4<Scalar>,
}

impl Joint {
    pub fn is_root(&self) -> (r: bool)
        ensures
            r == (self.parent_index == ROOT_JOINT_PARENT_INDEX),
    {
        self.parent_index == ROOT_JOINT_PARENT_INDEX
    }
}

/// Every joint that has a parent comes after it.
pub open spec fn parents_precede(joints: Seq<Joint>) -> bool {
    forall|i: int|
        0 <= i < joints.len() && #[trigger] joints[i].parent_index != ROOT_JOINT_PARENT_INDEX
            ==> joints[i].parent_index < i
}

impl Skeleton {
    /// Parent before child, one bind pose per joint, and room for the root sentinel.
    pub open spec fn wf(&self) -> bool {
        &&& parents_precede(self.joints@)
        &&& self.joints.len() == self.bind_poses.len()
        &&& self.joints.len() <= MAX_JOINTS
    }
}

/// Positive and negative zero are the same time: the time a bit pattern stands for,
/// with negative zero written as positive zero.
pub open spec fn canonical_time(t: Scalar) -> Scalar {
    if t == 0x8000_0000u32 {
        0u32
    } else {
        t
    }
}

/// The bit pattern is a NaN: all exponent bits set and a mantissa that is not zero.
pub open spec fn is_nan(t: Scalar) -> bool {
    t & 0x7F80_0000u32 == 0x7F80_0000u32 && t & 0x007F_FFFFu32 != 0
}

/// Order of sample times: the order of the numbers the bits stand for (the IEEE-754
/// total order, with both zeros in one place).
pub open spec fn time_key(t: Scalar) -> u32 {
    let c = canonical_time(t);
    if c & 0x8000_0000u32 != 0 {
        !c
    } else {
        c | 0x8000_0000u32
    }
}

/// The order key of a time, computed.
pub fn time_order_key(t: Scalar) -> (r: u32)
    ensures
        r == time_key(t),
{
    let c = if t == 0x8000_0000u32 {
        0u32
    } else {
        t
    };
    if c & 0x8000_0000u32 != 0 {
        !c
    } else {
        c | 0x8000_0000u32
    }
}

/// Whether the bit pattern is a NaN.
pub fn is_nan_time(t: Scalar) -> (r: bool)
    ensures
        r == is_nan(t),
{
    t & 0x7F80_0000u32 == 0x7F80_0000u32 && t & 0x007F_FFFFu32 != 0
}

/// No time is a NaN, and each comes strictly after the one before it.
pub open spec fn strictly_increasing(times: Seq<Scalar>) -> bool {
    &&& forall|i: int| 0 <= i < times.len() ==> !is_nan(#[trigger] times[i])
    &&& forall|i: int| 0 <= i < times.len() - 1 ==> time_key(#[trigger] times[i]) < time_key(times[i + 1])
}

/// Pose samples over time for one node.
pub struct Animation {
    /// Name of the animated node (usually a joint).
    pub target: String,
    /// Time of each sample, in seconds.
    pub sample_times: Vec<Scalar>,
    /// Node-local pose of each sample, column-major.
    pub sample_poses: Vec<Matrix4<Scalar>>,
}

impl Animation {
    pub open spec fn wf(&self) -> bool {
        &&& self.sample_times.len() == self.sample_poses.len()
        &&& strictly_increasing(self.sample_times@)
    }
}

pub struct BindDataSet {
    pub bind_data: Vec<BindData>,
}

/// How one mesh is bound to a skeleton.
pub struct BindData {
    pub object_name: String,
    /// Name of the skeleton the mesh is bound to.
    pub skeleton_name: String,
    /// This binding's own joint list; `VertexWeight::joint` indexes it.
    pub joint_names: Vec<String>,
    pub vertex_weights: Vec<VertexWeight>,
    /// Distinct weight values, in the order first used; `VertexWeight::weight` indexes it.
    pub weights: Vec<Scalar>,
    /// Inverse bind pose of each entry of `joint_names`, column-major.
    pub inverse_bind_poses: Vec<Matrix4<Scalar>>,
}

impl BindData {
    pub open spec fn wf(&self) -> bool {
        &&& self.joint_names.len() == self.inverse_bind_poses.len()
        &&& forall|i: int|
            0 <= i < self.vertex_weights.len() ==> (#[trigger] self.vertex_weights[i]).joint
                < self.joint_names.len() && self.vertex_weights[i].weight < self.weights.len()
    }
}

/// One influence of a joint on a vertex.
#[derive(Clone, Copy, Debug, PartialEq, Eq, Structural)]
pub struct VertexWeight {
    pub vertex: VertexIndex,
    /// Index into the binding's `joint_names`.
    pub joint: JointIndex,
    /// Index into the binding's `weights`.
    pub weight: WeightIndex,
}

/// Where in the document a malformed part stands.
#[derive(Clone, Copy, Debug, PartialEq, Eq, Structural)]
pub enum Location {
    /// The scene node at this position.
    Node(usize),
    /// The skin controller at this position.
    Controller(usize),
}

/// A failure that stops the whole load.
#[derive(Clone, Debug, PartialEq, Eq)]
pub enum LoadError {
    /// A required part is missing or invalid.
    MalformedDocument(Location),
    /// More joints than an index can name; holds how many there were.
    CapacityExceeded(usize),
}

/// A problem confined to one binding or animation; the load goes on without it.
#[derive(Clone, Debug, PartialEq, Eq)]
pub enum Warning {
    /// A name that no joint of the skeleton has.
    UnresolvedJointReference(String),
    /// A channel of this target whose times and poses disagree, in number or order.
    SampleMismatch(String),
}

} // verus!
