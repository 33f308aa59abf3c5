//! The whole assembly: document data in, skeleton, bindings and animations out.
use vstd::prelude::*;
use crate::animation::{
    animations_match, extract_animations, group_of, lemma_first_channel_exists, lemma_members_contain,
    lemma_one_first_channel, lemma_targets_contain, lemma_targets_with, leads_target, members_of, outcome_of,
    rejection,
    same_target, targets_with, ComposedTrack, TargetOutcome,
};
use crate::binding::{
    is_known_joint, assemble_binding, binding_matches, controller_ok, joint_names_of, poses_given, resolve_bind_poses,
    transform_for, unresolved_names,
};
use crate::document::{ChannelOutput, Document, SkinController};
use crate::model::{Animation, BindData, BindDataSet, LoadError, Location, Skeleton, Warning};
use crate::skeleton::{
    index_joints, joint_count, joints_before, lemma_index_reached, lemma_joints_before_mono, node_ok,
    nodes_ok, parent_joint_index,
};
use crate::{is_identity, MAX_JOINTS};

verus! {

/// What a load produces.
pub struct Model {
    pub skeleton: Skeleton,
    pub bind_data_set: BindDataSet,
    /// Animations of the joints that one transform channel drives.
    pub animations: Vec<Animation>,
    /// Plans for the joints that several transform channels drive.
    pub composed_tracks: Vec<ComposedTrack>,
    /// Problems confined to one binding or animation: first those of the bindings,
    /// in controller order, then those of the animated joints, in the order of their first channels.
    pub warnings: Vec<Warning>,
}

/// The controller is sound and its joints can be indexed.
pub open spec fn controller_fits(ctrl: SkinController) -> bool {
    controller_ok(ctrl) && ctrl.joint_names.len() <= MAX_JOINTS
}

/// The unresolved joint names of the first `n` controllers, one controller after another.
pub open spec fn binding_warning_names(ctrls: Seq<SkinController>, known: Seq<Seq<char>>, n: int) -> Seq<Seq<char>>
    decreases n,
{
    if n <= 0 {
        seq![]
    } else {
        let c = ctrls[n - 1];
        binding_warning_names(ctrls, known, n - 1) + unresolved_names(c.joint_names@, known, c.joint_names.len() as int)
    }
}

/// The skeleton made from the scene nodes, with the bind transforms applied.
pub open spec fn skeleton_matches(doc: Document, s: Skeleton) -> bool {
    let nodes = doc.nodes@;
    &&& s.wf()
    &&& s.joints.len() == joint_count(nodes)
    &&& forall|k: int|
        0 <= k < nodes.len() && (#[trigger] nodes[k]).is_joint ==> {
            let i = joints_before(nodes, k) as int;
            &&& nodes[k].name matches Some(n) && s.joints[i].name@ == n@
            &&& s.joints[i].parent_index == parent_joint_index(nodes, k)
            &&& poses_given(doc.bind_transforms@, s.joints[i].name@, s.bind_poses[i], s.joints[i].inverse_bind_pose)
        }
}

/// `m` is the model assembled from `doc`.
pub open spec fn model_matches(doc: Document, m: Model) -> bool {
    let known = joint_names_of(m.skeleton.joints@);
    let ctrls = doc.controllers@;
    let names = binding_warning_names(ctrls, known, ctrls.len() as int);
    let bad = targets_with(doc.channels@, known, doc.channels.len() as int, TargetOutcome::Rejected);
    &&& skeleton_matches(doc, m.skeleton)
    &&& m.bind_data_set.bind_data.len() == ctrls.len()
    &&& forall|c: int|
        0 <= c < ctrls.len() ==> (#[trigger] m.bind_data_set.bind_data[c]).wf() && binding_matches(ctrls[c], known, m.bind_data_set.bind_data[c])
    &&& animations_match(doc.channels@, known, m.animations@, m.composed_tracks@, m.warnings@.subrange(names.len() as int, m.warnings.len() as int))
    &&& m.warnings.len() == names.len() + bad.len()
    &&& forall|i: int|
        0 <= i < names.len() ==> (#[trigger] m.warnings[i] matches Warning::UnresolvedJointReference(n) && n@ == names[i])
}

/// The nodes give a skeleton and every controller before the `n`-th fits.
pub open spec fn fits_before(doc: Document, n: int) -> bool {
    &&& nodes_ok(doc.nodes@)
    &&& joint_count(doc.nodes@) <= MAX_JOINTS
    &&& forall|c: int| 0 <= c < n ==> controller_fits(#[trigger] doc.controllers@[c])
}

/// `m` is what a successful load of `doc` gives.
pub open spec fn loaded(doc: Document, m: Model) -> bool {
    fits_before(doc, doc.controllers.len() as int) && model_matches(doc, m)
}

/// Assembles the model. Fails on the first malformed scene node, on more joints than
/// `MAX_JOINTS`, and then on the first skin controller that is malformed or names too
/// many joints; everything else that goes wrong is a warning beside the model.
pub fn load_model(doc: &Document) -> (r: Result<Model, LoadError>)
    ensures
        match r {
            Ok(m) => loaded(*doc, m),
            Err(LoadError::MalformedDocument(Location::Node(k))) => k < doc.nodes.len() && !node_ok(
                doc.nodes@,
                k as int,
            ) && forall|j: int| 0 <= j < k ==> #[trigger] node_ok(doc.nodes@, j),
            Err(LoadError::MalformedDocument(Location::Controller(c))) => c < doc.controllers.len()
                && fits_before(*doc, c as int) && !controller_ok(doc.controllers@[c as int]),
            Err(LoadError::CapacityExceeded(n)) => nodes_ok(doc.nodes@) && n > MAX_JOINTS && (n
                == joint_count(doc.nodes@) || exists|c: int|
                0 <= c < doc.controllers.len() && fits_before(*doc, c) && controller_ok(
                    #[trigger] doc.controllers@[c],
                ) && n == doc.controllers@[c].joint_names.len()),
        },
{
    let joints = match index_joints(&doc.nodes) {
        Ok(j) => j,
        Err(e) => {
            return Err(e);
        },
    };
    let ghost js = joints@;
    let skeleton = resolve_bind_poses(joints, &doc.bind_transforms);
    assert(skeleton_matches(*doc, skeleton)) by {
        let nodes = doc.nodes@;
        assert forall|k: int| 0 <= k < nodes.len() && (#[trigger] nodes[k]).is_joint implies {
            let i = joints_before(nodes, k) as int;
            &&& nodes[k].name matches Some(n) && skeleton.joints[i].name@ == n@
            &&& skeleton.joints[i].parent_index == parent_joint_index(nodes, k)
            &&& poses_given(doc.bind_transforms@, skeleton.joints[i].name@, skeleton.bind_poses[i], skeleton.joints[i].inverse_bind_pose)
        } by {
            let i = joints_before(nodes, k) as int;
            lemma_joints_before_mono(nodes, k + 1, nodes.len() as int);
            assert(skeleton.joints[i].name@ == js[i].name@);
        }
    }
    let mut bind_data: Vec<BindData> = Vec::new();
    let mut warnings: Vec<Warning> = Vec::new();
    let mut c: usize = 0;
    while c < doc.controllers.len()
        invariant
            c <= doc.controllers.len(),
            fits_before(*doc, c as int),
            bind_data.len() == c,
            forall|d: int|
                0 <= d < c ==> (#[trigger] bind_data[d]).wf() && binding_matches(doc.controllers@[d], joint_names_of(skeleton.joints@), bind_data[d]),
            warnings.len() == binding_warning_names(doc.controllers@, joint_names_of(skeleton.joints@), c as int).len(),
            forall|i: int|
                0 <= i < warnings.len() ==> (#[trigger] warnings[i] matches Warning::UnresolvedJointReference(n)
                    && n@ == binding_warning_names(doc.controllers@, joint_names_of(skeleton.joints@), c as int)[i]),
        decreases doc.controllers.len() - c,
    {
        match assemble_binding(&doc.controllers[c], &skeleton.joints, c) {
            Ok((bd, ws)) => {
                let ghost old_ws = warnings@;
                let ghost ws0 = ws@;
                let mut ws = ws;
                bind_data.push(bd);
                warnings.append(&mut ws);
                proof {
                    let all = doc.controllers@;
                    let js = joint_names_of(skeleton.joints@);
                    assert(binding_warning_names(all, js, c as int + 1) == binding_warning_names(all, js, c as int)
                        + unresolved_names(all[c as int].joint_names@, js, all[c as int].joint_names.len() as int));
                    assert forall|i: int| 0 <= i < warnings.len() implies (#[trigger] warnings[i] matches Warning::UnresolvedJointReference(n)
                        && n@ == binding_warning_names(all, js, c as int + 1)[i]) by {
                        if i >= old_ws.len() {
                            assert(warnings[i] == ws0[i - old_ws.len()]);
                        } else {
                            assert(warnings[i] == old_ws[i]);
                        }
                    }
                }
            },
            Err(e) => {
                return Err(e);
            },
        }
        c = c + 1;
    }
    let (animations, composed_tracks, anim_warnings) = extract_animations(&doc.channels, &skeleton.joints);
    let ghost bw = warnings@;
    let ghost aw = anim_warnings@;
    let mut anim_warnings = anim_warnings;
    warnings.append(&mut anim_warnings);
    assert(warnings@.subrange(bw.len() as int, warnings.len() as int) =~= aw);
    assert forall|i: int| 0 <= i < bw.len() implies (#[trigger] warnings[i] matches Warning::UnresolvedJointReference(n)
        && n@ == binding_warning_names(doc.controllers@, joint_names_of(skeleton.joints@), doc.controllers.len() as int)[i]) by {
        assert(warnings[i] == bw[i]);
    }
    Ok(Model { skeleton, bind_data_set: BindDataSet { bind_data }, animations, composed_tracks, warnings })
}

/// Every loaded model keeps the structural invariants: each joint's parent comes
/// before it, there is one bind pose per joint and at most `MAX_JOINTS` joints, every
/// animation has one pose per strictly increasing time, and every binding has one
/// inverse bind pose per joint name and indices inside its own joint names and weights.
pub proof fn lemma_loaded_model_wf(doc: Document, m: Model)
    requires
        loaded(doc, m),
    ensures
        m.skeleton.wf(),
        forall|i: int| 0 <= i < m.animations.len() ==> (#[trigger] m.animations[i]).wf(),
        forall|c: int| 0 <= c < m.bind_data_set.bind_data.len() ==> (#[trigger] m.bind_data_set.bind_data[c]).wf(),
{
}

/// A joint that no bind transform names gets the identity as bind pose and as inverse
/// bind pose.
pub proof fn lemma_unbound_joint_identity(doc: Document, m: Model, i: int)
    requires
        loaded(doc, m),
        0 <= i < m.skeleton.joints.len(),
        transform_for(doc.bind_transforms@, m.skeleton.joints[i].name@) is None,
    ensures
        is_identity(m.skeleton.bind_poses[i]),
        is_identity(m.skeleton.joints[i].inverse_bind_pose),
{
    let nodes = doc.nodes@;
    lemma_index_reached(nodes, nodes.len() as int, i);
    let k = choose|k: int| 0 <= k < nodes.len() && (#[trigger] nodes[k]).is_joint && joints_before(nodes, k) == i;
    assert(nodes[k].is_joint);
}

/// A joint with a transform channel whose times and poses differ in number gets no
/// animation and no composed track, and one sample mismatch warning names it.
pub proof fn lemma_mismatched_channel_dropped(doc: Document, m: Model, c: int)
    requires
        loaded(doc, m),
        0 <= c < doc.channels.len(),
        doc.channels@[c].output == ChannelOutput::Transform,
        is_known_joint(joint_names_of(m.skeleton.joints@), doc.channels@[c].target@),
        doc.channels@[c].times.len() != doc.channels@[c].poses.len(),
    ensures
        forall|i: int| 0 <= i < m.animations.len() ==> (#[trigger] m.animations[i]).target@ != doc.channels@[c].target@,
        forall|i: int|
            0 <= i < m.composed_tracks.len() ==> (#[trigger] m.composed_tracks[i]).target@ != doc.channels@[c].target@,
        exists|i: int|
            0 <= i < m.warnings.len() && (#[trigger] m.warnings[i] matches Warning::SampleMismatch(t) && t@
                == doc.channels@[c].target@),
{
    let chs = doc.channels@;
    let known = joint_names_of(m.skeleton.joints@);
    let n = chs.len() as int;
    assert(same_target(chs, c, c));
    lemma_first_channel_exists(chs, c, c);
    let f = choose|f: int| 0 <= f <= c && leads_target(chs, f) && #[trigger] chs[f].target@ == chs[c].target@;
    assert(same_target(chs, f, c));
    lemma_members_contain(chs, f, c, n);
    let k = choose|k: int| 0 <= k < members_of(chs, f, n).len() && #[trigger] members_of(chs, f, n)[k] == c;
    assert(group_of(chs, f)[k] == chs[c]);
    assert(outcome_of(chs, known, f) == TargetOutcome::Rejected);
    lemma_targets_contain(chs, known, n, TargetOutcome::Rejected, f);
    let bad = targets_with(chs, known, n, TargetOutcome::Rejected);
    let j = choose|j: int| 0 <= j < bad.len() && #[trigger] bad[j] == f;
    let names = binding_warning_names(doc.controllers@, known, doc.controllers.len() as int);
    let rest = m.warnings@.subrange(names.len() as int, m.warnings.len() as int);
    assert(rejection(chs[bad[j]], known, rest[j]));
    assert(m.warnings[names.len() + j] == rest[j]);
    lemma_targets_with(chs, known, n, TargetOutcome::Single);
    lemma_targets_with(chs, known, n, TargetOutcome::Composed);
    assert forall|i: int| 0 <= i < m.animations.len() implies (#[trigger] m.animations[i]).target@ != chs[c].target@ by {
        let s = targets_with(chs, known, n, TargetOutcome::Single)[i];
        if m.animations[i].target@ == chs[c].target@ {
            lemma_one_first_channel(chs, s, f);
        }
    }
    assert forall|i: int| 0 <= i < m.composed_tracks.len() implies (#[trigger] m.composed_tracks[i]).target@ != chs[c].target@ by {
        let s = targets_with(chs, known, n, TargetOutcome::Composed)[i];
        if m.composed_tracks[i].target@ == chs[c].target@ {
            lemma_one_first_channel(chs, s, f);
        }
    }
}

proof fn lemma_unresolved_listed(names: Seq<String>, known: Seq<Seq<char>>, n: int, k: int)
    requires
        0 <= k < n <= names.len(),
        !is_known_joint(known, names[k]@),
    ensures
        unresolved_names(names, known, n).contains(names[k]@),
    decreases n,
{
    if k < n - 1 {
        lemma_unresolved_listed(names, known, n - 1, k);
        let i = choose|i: int| 0 <= i < unresolved_names(names, known, n - 1).len() && #[trigger] unresolved_names(names, known, n - 1)[i] == names[k]@;
        assert(unresolved_names(names, known, n)[i] == names[k]@);
    } else {
        assert(unresolved_names(names, known, n)[unresolved_names(names, known, n).len() - 1] == names[k]@);
    }
}

proof fn lemma_binding_warning_listed(ctrls: Seq<SkinController>, known: Seq<Seq<char>>, n: int, c: int, x: Seq<char>)
    requires
        0 <= c < n <= ctrls.len(),
        unresolved_names(ctrls[c].joint_names@, known, ctrls[c].joint_names.len() as int).contains(x),
    ensures
        binding_warning_names(ctrls, known, n).contains(x),
    decreases n,
{
    let prev = binding_warning_names(ctrls, known, n - 1);
    let last = unresolved_names(ctrls[n - 1].joint_names@, known, ctrls[n - 1].joint_names.len() as int);
    if c < n - 1 {
        lemma_binding_warning_listed(ctrls, known, n - 1, c, x);
        let i = choose|i: int| 0 <= i < prev.len() && #[trigger] prev[i] == x;
        assert(binding_warning_names(ctrls, known, n)[i] == x);
    } else {
        let i = choose|i: int| 0 <= i < last.len() && #[trigger] last[i] == x;
        assert(binding_warning_names(ctrls, known, n)[prev.len() + i] == x);
    }
}

/// Each joint name that a skin controller lists and the skeleton lacks is reported as
/// an unresolved joint reference, and the load still succeeds with the rest.
pub proof fn lemma_unresolved_name_reported(doc: Document, m: Model, c: int, k: int)
    requires
        loaded(doc, m),
        0 <= c < doc.controllers.len(),
        0 <= k < doc.controllers@[c].joint_names.len(),
        !is_known_joint(joint_names_of(m.skeleton.joints@), doc.controllers@[c].joint_names@[k]@),
    ensures
        exists|i: int|
            0 <= i < m.warnings.len() && (#[trigger] m.warnings[i] matches Warning::UnresolvedJointReference(n) && n@
                == doc.controllers@[c].joint_names@[k]@),
{
    let known = joint_names_of(m.skeleton.joints@);
    let ctrls = doc.controllers@;
    let x = ctrls[c].joint_names@[k]@;
    lemma_unresolved_listed(ctrls[c].joint_names@, known, ctrls[c].joint_names.len() as int, k);
    lemma_binding_warning_listed(ctrls, known, ctrls.len() as int, c, x);
    let names = binding_warning_names(ctrls, known, ctrls.len() as int);
    let i = choose|i: int| 0 <= i < names.len() && #[trigger] names[i] == x;
    assert(m.warnings[i] matches Warning::UnresolvedJointReference(n) && n@ == names[i]);
}

} // verus!
