//! Joint indexing: scene nodes to a flat, parent-before-child joint array.
use vstd::prelude::*;
use crate::document::SceneNode;
use crate::model::{Joint, LoadError, Location, parents_precede};
use crate::{is_identity, mat4_id, JointIndex, MAX_JOINTS, ROOT_JOINT_PARENT_INDEX};

verus! {

/// The node at `k` encloses only earlier nodes, and has a name if it is a joint.
pub open spec fn node_ok(nodes: Seq<SceneNode>, k: int) -> bool {
    &&& (nodes[k].parent matches Some(p) ==> p < k)
    &&& (nodes[k].is_joint ==> nodes[k].name is Some)
}

/// Every node of the list is well formed.
pub open spec fn nodes_ok(nodes: Seq<SceneNode>) -> bool {
    forall|k: int| 0 <= k < nodes.len() ==> #[trigger] node_ok(nodes, k)
}

/// How many of the first `k` nodes are joints.
pub open spec fn joints_before(nodes: Seq<SceneNode>, k: int) -> nat
    decreases k,
{
    if k <= 0 {
        0
    } else {
        joints_before(nodes, k - 1) + if nodes[k - 1].is_joint {
            1nat
        } else {
            0nat
        }
    }
}

/// Number of joint nodes in the list.
pub open spec fn joint_count(nodes: Seq<SceneNode>) -> nat {
    joints_before(nodes, nodes.len() as int)
}

/// Index of the nearest joint among the node at `k` and its enclosing nodes.
pub open spec fn joint_at_or_above(nodes: Seq<SceneNode>, k: int) -> Option<nat>
    decreases k,
{
    if k < 0 || k >= nodes.len() {
        None
    } else if nodes[k].is_joint {
        Some(joints_before(nodes, k))
    } else {
        match nodes[k].parent {
            Some(p) => if p < k {
                joint_at_or_above(nodes, p as int)
            } else {
                None
            },
            None => None,
        }
    }
}

/// Parent index of the joint made from the node at `k`: its nearest enclosing joint.
pub open spec fn parent_joint_index(nodes: Seq<SceneNode>, k: int) -> JointIndex {
    match nodes[k].parent {
        Some(p) => match joint_at_or_above(nodes, p as int) {
            Some(j) => j as JointIndex,
            None => ROOT_JOINT_PARENT_INDEX,
        },
        None => ROOT_JOINT_PARENT_INDEX,
    }
}

/// The joint array made from well-formed nodes: the joint nodes in document order.
pub open spec fn joints_match(nodes: Seq<SceneNode>, joints: Seq<Joint>) -> bool {
    &&& joints.len() == joint_count(nodes)
    &&& forall|k: int|
        0 <= k < nodes.len() && (#[trigger] nodes[k]).is_joint ==> {
            let j = joints[joints_before(nodes, k) as int];
            &&& nodes[k].name matches Some(n) && j.name@ == n@
            &&& j.parent_index == parent_joint_index(nodes, k)
            &&& is_identity(j.inverse_bind_pose)
        }
}

pub proof fn lemma_joints_before_mono(nodes: Seq<SceneNode>, a: int, b: int)
    requires
        0 <= a <= b,
    ensures
        joints_before(nodes, a) <= joints_before(nodes, b),
    decreases b - a,
{
    if a < b {
        lemma_joints_before_mono(nodes, a, b - 1);
    }
}

proof fn lemma_joint_above_bound(nodes: Seq<SceneNode>, k: int)
    requires
        0 <= k < nodes.len(),
    ensures
        joint_at_or_above(nodes, k) matches Some(j) ==> j < joints_before(nodes, k + 1),
    decreases k,
{
    if !nodes[k].is_joint {
        if let Some(p) = nodes[k].parent {
            if p < k {
                lemma_joint_above_bound(nodes, p as int);
                lemma_joints_before_mono(nodes, p + 1, k + 1);
            }
        }
    }
}

/// The first malformed node, if any.
fn first_malformed(nodes: &Vec<SceneNode>) -> (r: Option<usize>)
    ensures
        r matches Some(k) ==> k < nodes.len() && !node_ok(nodes@, k as int) && forall|j: int|
            0 <= j < k ==> #[trigger] node_ok(nodes@, j),
        r is None ==> nodes_ok(nodes@),
{
    let mut k: usize = 0;
    while k < nodes.len()
        invariant
            k <= nodes.len(),
            forall|j: int| 0 <= j < k ==> #[trigger] node_ok(nodes@, j),
        decreases nodes.len() - k,
    {
        let n = &nodes[k];
        let parent_ok = match n.parent {
            Some(p) => p < k,
            None => true,
        };
        if !parent_ok || (n.is_joint && n.name.is_none()) {
            return Some(k);
        }
        k = k + 1;
    }
    None
}

/// Flattens the joint nodes into an indexed joint array: document order (a pre-order
/// walk of each joint tree), each joint pointing at its nearest enclosing joint, an
/// identity inverse bind pose. Fails on the first malformed node, or when there are
/// more joints than `MAX_JOINTS`.
pub fn index_joints(nodes: &Vec<SceneNode>) -> (r: Result<Vec<Joint>, LoadError>)
    ensures
        match r {
            Ok(joints) => nodes_ok(nodes@) && joint_count(nodes@) <= MAX_JOINTS && joints_match(
                nodes@,
                joints@,
            ) && parents_precede(joints@),
            Err(LoadError::MalformedDocument(Location::Node(k))) => k < nodes.len() && !node_ok(nodes@, k as int)
                && forall|j: int| 0 <= j < k ==> #[trigger] node_ok(nodes@, j),
            Err(LoadError::CapacityExceeded(n)) => nodes_ok(nodes@) && n == joint_count(nodes@)
                && n > MAX_JOINTS,
            Err(LoadError::MalformedDocument(Location::Controller(_))) => false,
        },
{
    if let Some(k) = first_malformed(nodes) {
        return Err(LoadError::MalformedDocument(Location::Node(k)));
    }
    let mut count: usize = 0;
    let mut k: usize = 0;
    while k < nodes.len()
        invariant
            k <= nodes.len(),
            count == joints_before(nodes@, k as int),
            count <= k,
        decreases nodes.len() - k,
    {
        if nodes[k].is_joint {
            count = count + 1;
        }
        k = k + 1;
    }
    if count > MAX_JOINTS {
        return Err(LoadError::CapacityExceeded(count));
    }
    // nearest[k]: the joint at or above node k, with the root sentinel for none
    let mut nearest: Vec<JointIndex> = Vec::new();
    let mut joints: Vec<Joint> = Vec::new();
    let mut k: usize = 0;
    while k < nodes.len()
        invariant
            k <= nodes.len(),
            nodes_ok(nodes@),
            joint_count(nodes@) <= MAX_JOINTS,
            nearest.len() == k,
            joints.len() == joints_before(nodes@, k as int),
            forall|i: int|
                0 <= i < k ==> #[trigger] nearest[i] == match joint_at_or_above(nodes@, i) {
                    Some(j) => j as JointIndex,
                    None => ROOT_JOINT_PARENT_INDEX,
                },
            forall|i: int|
                0 <= i < k && (#[trigger] nodes@[i]).is_joint ==> {
                    let j = joints[joints_before(nodes@, i) as int];
                    &&& nodes@[i].name matches Some(n) && j.name@ == n@
                    &&& j.parent_index == parent_joint_index(nodes@, i)
                    &&& is_identity(j.inverse_bind_pose)
                },
            parents_precede(joints@),
        decreases nodes.len() - k,
    {
        proof {
            assert(node_ok(nodes@, k as int));
            lemma_joint_above_bound(nodes@, k as int);
            lemma_joints_before_mono(nodes@, k as int + 1, nodes@.len() as int);
        }
        let n = &nodes[k];
        let parent_index: JointIndex = match n.parent {
            Some(p) => nearest[p],
            None => ROOT_JOINT_PARENT_INDEX,
        };
        proof {
            if let Some(p) = n.parent {
                lemma_joint_above_bound(nodes@, p as int);
                lemma_joints_before_mono(nodes@, p as int + 1, k as int);
                lemma_joints_before_mono(nodes@, p as int + 1, nodes@.len() as int);
            }
        }
        proof {
            assert forall|i: int| 0 <= i < k && (#[trigger] nodes@[i]).is_joint implies joints_before(
                nodes@,
                i,
            ) < joints.len() by {
                lemma_joints_before_mono(nodes@, i + 1, k as int);
            }
        }
        if n.is_joint {
            let idx = joints.len() as JointIndex;
            let name = match &n.name {
                Some(s) => s.clone(),
                None => String::new(),
            };
            joints.push(Joint { name, parent_index, inverse_bind_pose: mat4_id() });
            nearest.push(idx);
        } else {
            nearest.push(parent_index);
        }
        k = k + 1;
    }
    Ok(joints)
}

/// Each index below the number of joints among the first `n` nodes is the index of
/// one of them.
pub proof fn lemma_index_reached(nodes: Seq<SceneNode>, n: int, i: int)
    requires
        0 <= n <= nodes.len(),
        0 <= i < joints_before(nodes, n),
    ensures
        exists|k: int| 0 <= k < n && (#[trigger] nodes[k]).is_joint && joints_before(nodes, k) == i,
    decreases n,
{
    if i < joints_before(nodes, n - 1) {
        lemma_index_reached(nodes, n - 1, i);
        let k = choose|k: int| 0 <= k < n - 1 && (#[trigger] nodes[k]).is_joint && joints_before(nodes, k) == i;
        assert(nodes[k].is_joint);
    } else {
        assert(nodes[n - 1].is_joint && joints_before(nodes, n - 1) == i);
    }
}

} // verus!
