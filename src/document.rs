//! The plain data that a document reader extracts from a scene interchange document.
use vstd::prelude::*;
use crate::{Matrix4, Scalar};

verus! {

/// One node of the visual scene, listed in document order.
pub struct SceneNode {
    /// The node's name; a joint node without one is malformed.
    pub name: Option<String>,
    /// Whether the document marks the node as a joint.
    pub is_joint: bool,
    /// Position of the enclosing node in the list, which comes before this one.
    pub parent: Option<usize>,
}

/// Bind-time transforms a skin controller gives for one joint, by name.
pub struct BindTransform {
    pub joint_name: String,
    /// Parent-relative transform at bind time.
    pub bind_pose: Matrix4<Scalar>,
    /// Model space to joint space at bind time.
    pub inverse_bind_pose: Matrix4<Scalar>,
}

/// One (joint, weight) pair of a skin controller, by position in its lists.
#[derive(Clone, Copy, Debug, PartialEq, Eq, Structural)]
pub struct InfluencePair {
    /// Position in the controller's `joint_names`.
    pub joint: usize,
    /// Position in the controller's `weights`.
    pub weight: usize,
}

/// One influence with its vertex.
#[derive(Clone, Copy, Debug, PartialEq, Eq, Structural)]
pub struct Influence {
    pub vertex: usize,
    pub joint: usize,
    pub weight: usize,
}

/// A skin controller: how one mesh is weighted to joints.
pub struct SkinController {
    pub object_name: String,
    pub skeleton_name: String,
    pub joint_names: Vec<String>,
    /// One per entry of `joint_names`.
    pub inverse_bind_poses: Vec<Matrix4<Scalar>>,
    /// Weight values that the pairs point into.
    pub weights: Vec<Scalar>,
    /// For each vertex in turn, how many of the pairs belong to it.
    pub influence_counts: Vec<usize>,
    /// The pairs of all vertices, one vertex after another.
    pub pairs: Vec<InfluencePair>,
}

/// What an animation channel drives.
#[derive(Clone, Copy, Debug, PartialEq, Eq, Structural)]
pub enum ChannelOutput {
    /// The node's whole transform.
    Transform,
    /// Anything else (a color, a texture offset, ...).
    Other,
}

/// One animation channel: sampled values of one output of one node.
pub struct Channel {
    /// Name of the node driven.
    pub target: String,
    pub output: ChannelOutput,
    /// Sample times in seconds.
    pub times: Vec<Scalar>,
    /// The node's pose at each sample.
    pub poses: Vec<Matrix4<Scalar>>,
}

/// All that the assembly reads from one document.
pub struct Document {
    pub nodes: Vec<SceneNode>,
    pub bind_transforms: Vec<BindTransform>,
    pub controllers: Vec<SkinController>,
    pub channels: Vec<Channel>,
}

} // verus!
