use collada::animation::{extract_animation, extract_animations, times_increasing};
use collada::binding::{assemble_binding, expand_influences, find_joint, resolve_bind_poses};
use collada::document::{
    BindTransform, Channel, ChannelOutput, Document, Influence, InfluencePair, SceneNode,
    SkinController,
};
use collada::load::{load_model, Model};
use collada::model::{Joint, LoadError, Location, VertexWeight, Warning, time_order_key};
use collada::skeleton::index_joints;
use collada::{mat4_id, Matrix4, Scalar, MAX_JOINTS, ROOT_JOINT_PARENT_INDEX, SCALAR_ONE, SCALAR_ZERO};

fn node(name: &str, is_joint: bool, parent: Option<usize>) -> SceneNode {
    SceneNode { name: Some(name.to_string()), is_joint, parent }
}

fn bits(x: f32) -> Scalar {
    x.to_bits()
}

fn scaled(s: f32) -> Matrix4<Scalar> {
    let mut m = mat4_id();
    for i in 0..3 {
        m[i][i] = bits(s);
    }
    m
}

fn empty_doc(nodes: Vec<SceneNode>) -> Document {
    Document { nodes, bind_transforms: vec![], controllers: vec![], channels: vec![] }
}

fn controller(names: &[&str], weights: &[f32], counts: Vec<usize>, pairs: &[(usize, usize)]) -> SkinController {
    SkinController {
        object_name: "Body".to_string(),
        skeleton_name: "Rig".to_string(),
        joint_names: names.iter().map(|n| n.to_string()).collect(),
        inverse_bind_poses: names.iter().map(|_| mat4_id()).collect(),
        weights: weights.iter().map(|w| bits(*w)).collect(),
        influence_counts: counts,
        pairs: pairs.iter().map(|&(joint, weight)| InfluencePair { joint, weight }).collect(),
    }
}

fn channel(target: &str, times: &[f32], n_poses: usize) -> Channel {
    Channel {
        target: target.to_string(),
        output: ChannelOutput::Transform,
        times: times.iter().map(|t| bits(*t)).collect(),
        poses: (0..n_poses).map(|i| scaled(i as f32 + 2.0)).collect(),
    }
}

fn chain() -> Vec<SceneNode> {
    vec![node("Hips", true, None), node("Spine", true, Some(0))]
}

fn joints_of(nodes: Vec<SceneNode>) -> Vec<Joint> {
    index_joints(&nodes).unwrap()
}

fn as_f32(m: &Matrix4<Scalar>) -> [[f32; 4]; 4] {
    let mut out = [[0.0f32; 4]; 4];
    for c in 0..4 {
        for r in 0..4 {
            out[c][r] = f32::from_bits(m[c][r]);
        }
    }
    out
}

#[test]
fn identity_has_ones_on_the_diagonal() {
    let m = as_f32(&mat4_id());
    for c in 0..4 {
        for r in 0..4 {
            assert_eq!(m[c][r], if c == r { 1.0 } else { 0.0 });
        }
    }
    assert_eq!(SCALAR_ONE, 1.0f32.to_bits());
    assert_eq!(SCALAR_ZERO, 0.0f32.to_bits());
}

#[test]
fn identity_leaves_vectors_unchanged() {
    let m = as_f32(&mat4_id());
    let v = [3.5f32, -2.0, 0.25, 1.0];
    for r in 0..4 {
        let mut sum = 0.0f32;
        for c in 0..4 {
            sum += m[c][r] * v[c];
        }
        assert!((sum - v[r]).abs() < 1e-6);
    }
}

#[test]
fn single_root_joint() {
    let m = load_model(&empty_doc(vec![node("Hips", true, None)])).unwrap();
    assert_eq!(m.skeleton.joints.len(), 1);
    assert_eq!(m.skeleton.joints[0].name, "Hips");
    assert_eq!(m.skeleton.joints[0].parent_index, ROOT_JOINT_PARENT_INDEX);
    assert!(m.skeleton.joints[0].is_root());
    assert_eq!(m.skeleton.bind_poses.len(), 1);
    assert_eq!(m.skeleton.bind_poses[0], mat4_id());
    assert_eq!(m.skeleton.joints[0].inverse_bind_pose, mat4_id());
}

#[test]
fn chain_of_two_joints() {
    let m = load_model(&empty_doc(chain())).unwrap();
    assert_eq!(m.skeleton.joints[0].name, "Hips");
    assert_eq!(m.skeleton.joints[0].parent_index, ROOT_JOINT_PARENT_INDEX);
    assert_eq!(m.skeleton.joints[1].name, "Spine");
    assert_eq!(m.skeleton.joints[1].parent_index, 0);
    assert!(!m.skeleton.joints[1].is_root());
}

#[test]
fn joints_skip_plain_nodes_and_keep_document_order() {
    let nodes = vec![
        node("Scene", false, None),
        node("Hips", true, Some(0)),
        node("Group", false, Some(1)),
        node("LeftLeg", true, Some(2)),
        node("RightLeg", true, Some(1)),
        node("Prop", true, Some(0)),
    ];
    let joints = joints_of(nodes);
    let names: Vec<&str> = joints.iter().map(|j| j.name.as_str()).collect();
    assert_eq!(names, vec!["Hips", "LeftLeg", "RightLeg", "Prop"]);
    let parents: Vec<u8> = joints.iter().map(|j| j.parent_index).collect();
    assert_eq!(parents, vec![255, 0, 0, 255]);
    for (i, j) in joints.iter().enumerate() {
        assert!(j.is_root() || (j.parent_index as usize) < i);
    }
}

#[test]
fn joint_without_name_is_malformed() {
    let nodes = vec![node("Hips", true, None), SceneNode { name: None, is_joint: true, parent: Some(0) }];
    assert_eq!(index_joints(&nodes).err(), Some(LoadError::MalformedDocument(Location::Node(1))));
    let plain = vec![node("Hips", true, None), SceneNode { name: None, is_joint: false, parent: Some(0) }];
    assert_eq!(index_joints(&plain).unwrap().len(), 1);
}

#[test]
fn parent_after_child_is_malformed() {
    let nodes = vec![node("A", true, None), node("B", true, Some(1)), node("C", true, Some(5))];
    assert_eq!(
        load_model(&empty_doc(nodes)).err(),
        Some(LoadError::MalformedDocument(Location::Node(1)))
    );
}

#[test]
fn largest_skeleton_fits() {
    let mut nodes = vec![node("J0", true, None)];
    for i in 1..MAX_JOINTS {
        nodes.push(node(&format!("J{}", i), true, Some(i - 1)));
    }
    let m = load_model(&empty_doc(nodes)).unwrap();
    assert_eq!(m.skeleton.joints.len(), 255);
    assert_eq!(m.skeleton.bind_poses.len(), 255);
    assert_eq!(m.skeleton.joints[254].parent_index, 253);
}

#[test]
fn too_many_joints() {
    let mut nodes = vec![];
    for i in 0..256 {
        nodes.push(node(&format!("J{}", i), true, None));
    }
    assert_eq!(load_model(&empty_doc(nodes)).err(), Some(LoadError::CapacityExceeded(256)));
}

#[test]
fn bind_transforms_by_name() {
    let joints = joints_of(chain());
    let transforms = vec![
        BindTransform { joint_name: "Spine".to_string(), bind_pose: scaled(2.0), inverse_bind_pose: scaled(0.5) },
        BindTransform { joint_name: "Spine".to_string(), bind_pose: scaled(3.0), inverse_bind_pose: scaled(4.0) },
        BindTransform { joint_name: "Tail".to_string(), bind_pose: scaled(5.0), inverse_bind_pose: scaled(6.0) },
    ];
    let s = resolve_bind_poses(joints, &transforms);
    assert_eq!(s.bind_poses[0], mat4_id());
    assert_eq!(s.joints[0].inverse_bind_pose, mat4_id());
    assert_eq!(s.bind_poses[1], scaled(2.0));
    assert_eq!(s.joints[1].inverse_bind_pose, scaled(0.5));
    assert_eq!(s.joints[1].name, "Spine");
    assert_eq!(s.joints[1].parent_index, 0);
}

#[test]
fn find_joint_gives_first_match() {
    let joints = joints_of(vec![node("A", true, None), node("B", true, None), node("B", true, None)]);
    assert_eq!(find_joint(&joints, &"B".to_string()), Some(1));
    assert_eq!(find_joint(&joints, &"C".to_string()), None);
}

#[test]
fn influences_get_their_vertices() {
    let pairs = vec![
        InfluencePair { joint: 0, weight: 0 },
        InfluencePair { joint: 1, weight: 1 },
        InfluencePair { joint: 0, weight: 2 },
    ];
    let infl = expand_influences(&vec![2, 0, 1], &pairs).unwrap();
    assert_eq!(
        infl,
        vec![
            Influence { vertex: 0, joint: 0, weight: 0 },
            Influence { vertex: 0, joint: 1, weight: 1 },
            Influence { vertex: 2, joint: 0, weight: 2 },
        ]
    );
    assert_eq!(expand_influences(&vec![2, 2], &pairs), None);
    assert_eq!(expand_influences(&vec![1], &pairs), None);
}

#[test]
fn weights_are_pooled_in_first_use_order() {
    let joints = joints_of(chain());
    let ctrl = controller(&["Hips", "Spine"], &[0.5, 1.0, 0.5], vec![2, 1], &[(0, 0), (1, 2), (1, 1)]);
    let (bd, ws) = assemble_binding(&ctrl, &joints, 0).unwrap();
    assert!(ws.is_empty());
    assert_eq!(bd.weights, vec![bits(0.5), bits(1.0)]);
    assert_eq!(
        bd.vertex_weights,
        vec![
            VertexWeight { vertex: 0, joint: 0, weight: 0 },
            VertexWeight { vertex: 0, joint: 1, weight: 0 },
            VertexWeight { vertex: 1, joint: 1, weight: 1 },
        ]
    );
    assert_eq!(bd.object_name, "Body");
    assert_eq!(bd.skeleton_name, "Rig");
    assert_eq!(bd.joint_names, vec!["Hips".to_string(), "Spine".to_string()]);
    assert_eq!(bd.inverse_bind_poses.len(), bd.joint_names.len());
}

#[test]
fn zero_weights_are_kept() {
    let joints = joints_of(chain());
    let ctrl = controller(&["Hips"], &[0.0], vec![1], &[(0, 0)]);
    let (bd, _) = assemble_binding(&ctrl, &joints, 0).unwrap();
    assert_eq!(bd.weights, vec![bits(0.0)]);
    assert_eq!(bd.vertex_weights.len(), 1);
}

#[test]
fn unknown_joint_in_controller() {
    let mut doc = empty_doc(chain());
    doc.controllers.push(controller(&["Hips", "Head"], &[0.25, 0.75], vec![2], &[(0, 0), (1, 1)]));
    let m = load_model(&doc).unwrap();
    assert_eq!(m.warnings, vec![Warning::UnresolvedJointReference("Head".to_string())]);
    let bd = &m.bind_data_set.bind_data[0];
    assert_eq!(bd.joint_names, vec!["Hips".to_string(), "Head".to_string()]);
    assert_eq!(bd.vertex_weights, vec![VertexWeight { vertex: 0, joint: 0, weight: 0 }]);
    assert_eq!(bd.weights, vec![bits(0.25)]);
}

#[test]
fn weights_of_one_vertex_sum_to_one() {
    let joints = joints_of(chain());
    let ctrl = controller(
        &["Hips", "Spine"],
        &[0.3, 0.7],
        vec![0, 0, 0, 0, 0, 2],
        &[(0, 0), (1, 1)],
    );
    let (bd, _) = assemble_binding(&ctrl, &joints, 0).unwrap();
    let for_five: Vec<&VertexWeight> = bd.vertex_weights.iter().filter(|w| w.vertex == 5).collect();
    assert_eq!(for_five.len(), 2);
    let sum: f32 = for_five.iter().map(|w| f32::from_bits(bd.weights[w.weight])).sum();
    assert!((sum - 1.0).abs() < 1e-5);
}

#[test]
fn malformed_controllers() {
    let joints = joints_of(chain());
    let bad_count = controller(&["Hips"], &[1.0], vec![2], &[(0, 0)]);
    assert_eq!(
        assemble_binding(&bad_count, &joints, 3).err(),
        Some(LoadError::MalformedDocument(Location::Controller(3)))
    );
    let bad_joint = controller(&["Hips"], &[1.0], vec![1], &[(1, 0)]);
    assert_eq!(
        assemble_binding(&bad_joint, &joints, 0).err(),
        Some(LoadError::MalformedDocument(Location::Controller(0)))
    );
    let bad_weight = controller(&["Hips"], &[1.0], vec![1], &[(0, 1)]);
    assert!(assemble_binding(&bad_weight, &joints, 0).is_err());
    let mut bad_poses = controller(&["Hips"], &[1.0], vec![1], &[(0, 0)]);
    bad_poses.inverse_bind_poses.clear();
    assert!(assemble_binding(&bad_poses, &joints, 0).is_err());
    let mut doc = empty_doc(chain());
    doc.controllers.push(controller(&["Hips"], &[1.0], vec![1], &[(0, 0)]));
    doc.controllers.push(bad_count);
    assert_eq!(load_model(&doc).err(), Some(LoadError::MalformedDocument(Location::Controller(1))));
}

#[test]
fn controller_with_too_many_joints() {
    let joints = joints_of(chain());
    let names: Vec<String> = (0..256).map(|i| format!("J{}", i)).collect();
    let refs: Vec<&str> = names.iter().map(|s| s.as_str()).collect();
    let ctrl = controller(&refs, &[], vec![], &[]);
    assert_eq!(assemble_binding(&ctrl, &joints, 0).err(), Some(LoadError::CapacityExceeded(256)));
}

#[test]
fn single_channel_animation() {
    let mut doc = empty_doc(chain());
    doc.channels.push(channel("Spine", &[0.0, 0.5, 1.0], 3));
    let m = load_model(&doc).unwrap();
    assert_eq!(m.animations.len(), 1);
    let a = &m.animations[0];
    assert_eq!(a.target, "Spine");
    let times: Vec<f32> = a.sample_times.iter().map(|t| f32::from_bits(*t)).collect();
    assert_eq!(times, vec![0.0, 0.5, 1.0]);
    assert_eq!(a.sample_poses, vec![scaled(2.0), scaled(3.0), scaled(4.0)]);
}

#[test]
fn channel_with_missing_pose_is_dropped() {
    let mut doc = empty_doc(chain());
    doc.channels.push(channel("Hips", &[0.0, 0.5, 1.0], 2));
    doc.channels.push(channel("Spine", &[0.0, 1.0], 2));
    let m = load_model(&doc).unwrap();
    assert_eq!(m.animations.len(), 1);
    assert_eq!(m.animations[0].target, "Spine");
    assert_eq!(m.warnings, vec![Warning::SampleMismatch("Hips".to_string())]);
}

#[test]
fn channel_times_must_rise() {
    let joints = joints_of(chain());
    let ch = channel("Hips", &[0.0, 1.0, 1.0], 3);
    assert_eq!(extract_animation(&ch, &joints).err(), Some(Warning::SampleMismatch("Hips".to_string())));
    let back = channel("Hips", &[0.5, 0.25], 2);
    assert!(extract_animation(&back, &joints).is_err());
    assert!(times_increasing(&vec![bits(-1.0), bits(-0.5), bits(0.0), bits(2.0)]));
    assert!(!times_increasing(&vec![bits(-0.5), bits(-1.0)]));
    assert!(times_increasing(&vec![]));
    assert!(time_order_key(bits(-3.0)) < time_order_key(bits(0.5)));
    assert!(!times_increasing(&vec![bits(-0.0), bits(0.0)]));
    assert_eq!(time_order_key(bits(-0.0)), time_order_key(bits(0.0)));
    assert!(!times_increasing(&vec![bits(f32::INFINITY), bits(f32::NAN)]));
    assert!(!times_increasing(&vec![bits(f32::NAN)]));
    let nan_channel = channel("Hips", &[0.0, f32::NAN], 2);
    assert_eq!(
        extract_animation(&nan_channel, &joints).err(),
        Some(Warning::SampleMismatch("Hips".to_string()))
    );
}

#[test]
fn channel_of_unknown_node() {
    let joints = joints_of(chain());
    let chs = vec![
        channel("Camera", &[0.0], 1),
        Channel { output: ChannelOutput::Other, ..channel("Hips", &[0.0], 5) },
        channel("Hips", &[0.0], 1),
    ];
    let (anims, tracks, ws) = extract_animations(&chs, &joints);
    assert!(tracks.is_empty());
    assert_eq!(anims.len(), 1);
    assert_eq!(anims[0].target, "Hips");
    assert_eq!(ws, vec![Warning::UnresolvedJointReference("Camera".to_string())]);
}

fn full_doc() -> Document {
    let mut doc = empty_doc(vec![
        node("Hips", true, None),
        node("Spine", true, Some(0)),
        node("Head", true, Some(1)),
    ]);
    doc.bind_transforms.push(BindTransform {
        joint_name: "Spine".to_string(),
        bind_pose: scaled(2.0),
        inverse_bind_pose: scaled(0.5),
    });
    doc.controllers.push(controller(&["Spine", "Tail", "Head"], &[0.5, 0.5, 1.0], vec![2, 1], &[(0, 0), (2, 1), (1, 2)]));
    doc.channels.push(channel("Head", &[0.0, 0.5], 2));
    doc.channels.push(channel("Tail", &[0.0], 1));
    doc
}

fn same_model(a: &Model, b: &Model) -> bool {
    let ja: Vec<(String, u8, Matrix4<Scalar>)> =
        a.skeleton.joints.iter().map(|j| (j.name.clone(), j.parent_index, j.inverse_bind_pose)).collect();
    let jb: Vec<(String, u8, Matrix4<Scalar>)> =
        b.skeleton.joints.iter().map(|j| (j.name.clone(), j.parent_index, j.inverse_bind_pose)).collect();
    let ba = &a.bind_data_set.bind_data;
    let bb = &b.bind_data_set.bind_data;
    ja == jb
        && a.skeleton.bind_poses == b.skeleton.bind_poses
        && ba.len() == bb.len()
        && ba.iter().zip(bb.iter()).all(|(x, y)| {
            x.object_name == y.object_name
                && x.skeleton_name == y.skeleton_name
                && x.joint_names == y.joint_names
                && x.vertex_weights == y.vertex_weights
                && x.weights == y.weights
                && x.inverse_bind_poses == y.inverse_bind_poses
        })
        && a.animations.len() == b.animations.len()
        && a.animations.iter().zip(b.animations.iter()).all(|(x, y)| {
            x.target == y.target && x.sample_times == y.sample_times && x.sample_poses == y.sample_poses
        })
        && a.warnings == b.warnings
}

#[test]
fn loading_twice_gives_the_same_model() {
    let doc = full_doc();
    let a = load_model(&doc).unwrap();
    let b = load_model(&doc).unwrap();
    assert!(same_model(&a, &b));
    assert_eq!(
        a.warnings,
        vec![
            Warning::UnresolvedJointReference("Tail".to_string()),
            Warning::UnresolvedJointReference("Tail".to_string()),
        ]
    );
    assert_eq!(a.skeleton.joints[1].inverse_bind_pose, scaled(0.5));
    assert_eq!(a.skeleton.bind_poses[1], scaled(2.0));
    assert_eq!(a.skeleton.bind_poses[2], mat4_id());
    let bd = &a.bind_data_set.bind_data[0];
    assert_eq!(
        bd.vertex_weights,
        vec![VertexWeight { vertex: 0, joint: 0, weight: 0 }, VertexWeight { vertex: 0, joint: 2, weight: 0 }]
    );
    assert_eq!(bd.weights, vec![bits(0.5)]);
    assert_eq!(a.animations.len(), 1);
    assert_eq!(a.animations[0].target, "Head");
}

#[test]
fn two_channels_on_one_joint_are_composed() {
    let mut doc = empty_doc(chain());
    doc.channels.push(channel("Spine", &[0.0, 1.0], 2));
    doc.channels.push(channel("Hips", &[0.0], 1));
    doc.channels.push(Channel { output: ChannelOutput::Other, ..channel("Spine", &[0.25], 1) });
    doc.channels.push(channel("Spine", &[-0.0, 0.5], 2));
    let m = load_model(&doc).unwrap();
    assert_eq!(m.animations.len(), 1);
    assert_eq!(m.animations[0].target, "Hips");
    assert_eq!(m.composed_tracks.len(), 1);
    let t = &m.composed_tracks[0];
    assert_eq!(t.target, "Spine");
    assert_eq!(t.channels, vec![0, 3]);
    let times: Vec<f32> = t.plan.sample_times.iter().map(|x| f32::from_bits(*x)).collect();
    assert_eq!(times, vec![0.0, 0.5, 1.0]);
    assert_eq!(t.plan.sample_times[0], bits(0.0));
    assert_eq!(t.plan.points.len(), 2);
    assert!(m.warnings.is_empty());
}

#[test]
fn composed_joint_with_bad_channel_is_dropped() {
    let mut doc = empty_doc(chain());
    doc.channels.push(channel("Spine", &[0.0, 1.0], 2));
    doc.channels.push(channel("Spine", &[0.0, 0.5, 1.0], 2));
    doc.channels.push(channel("Head", &[0.0], 1));
    doc.channels.push(channel("Head", &[0.5], 1));
    let m = load_model(&doc).unwrap();
    assert!(m.animations.is_empty());
    assert!(m.composed_tracks.is_empty());
    assert_eq!(
        m.warnings,
        vec![
            Warning::SampleMismatch("Spine".to_string()),
            Warning::UnresolvedJointReference("Head".to_string()),
        ]
    );
}
