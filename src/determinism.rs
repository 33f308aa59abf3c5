//! Loading is a function of the document: two loads of it agree in every name,
//! index and value.
use vstd::prelude::*;
use crate::binding::{
    binding_matches, joint_names_of, kept_of, lemma_distinct_no_duplicates, poses_given, transform_for,
    weight_values,
};
use crate::animation::{
    group_of, lemma_increasing_all, lemma_targets_with, lemma_time_key_injective, is_canonical, outcome_of,
    plan_matches, point_of, samples_ok, targets_with, ComposedTrack, SamplePoint, TargetOutcome, TrackPlan,
};
use crate::document::{Channel, Document, SkinController};
use crate::load::{binding_warning_names, loaded, Model};
use crate::model::{Animation, BindData, Joint, Skeleton, Warning};
use crate::skeleton::{joints_before, lemma_index_reached};
use crate::model::{strictly_increasing, time_key};
use crate::{is_identity, Matrix4, Scalar};

verus! {

/// Same name, parent and inverse bind pose.
pub open spec fn same_joint(a: Joint, b: Joint) -> bool {
    &&& a.name@ == b.name@
    &&& a.parent_index == b.parent_index
    &&& a.inverse_bind_pose == b.inverse_bind_pose
}

pub open spec fn same_skeleton(a: Skeleton, b: Skeleton) -> bool {
    &&& a.joints.len() == b.joints.len()
    &&& forall|i: int| 0 <= i < a.joints.len() ==> same_joint(#[trigger] a.joints[i], b.joints[i])
    &&& a.bind_poses@ == b.bind_poses@
}

pub open spec fn same_binding(a: BindData, b: BindData) -> bool {
    &&& a.object_name@ == b.object_name@
    &&& a.skeleton_name@ == b.skeleton_name@
    &&& a.joint_names.len() == b.joint_names.len()
    &&& forall|i: int| 0 <= i < a.joint_names.len() ==> (#[trigger] a.joint_names[i])@ == b.joint_names[i]@
    &&& a.vertex_weights@ == b.vertex_weights@
    &&& a.weights@ == b.weights@
    &&& a.inverse_bind_poses@ == b.inverse_bind_poses@
}

pub open spec fn same_animation(a: Animation, b: Animation) -> bool {
    &&& a.target@ == b.target@
    &&& a.sample_times@ == b.sample_times@
    &&& a.sample_poses@ == b.sample_poses@
}

pub open spec fn same_warning(a: Warning, b: Warning) -> bool {
    match (a, b) {
        (Warning::UnresolvedJointReference(x), Warning::UnresolvedJointReference(y)) => x@ == y@,
        (Warning::SampleMismatch(x), Warning::SampleMismatch(y)) => x@ == y@,
        _ => false,
    }
}

pub open spec fn same_track(a: ComposedTrack, b: ComposedTrack) -> bool {
    &&& a.target@ == b.target@
    &&& a.channels@ == b.channels@
    &&& a.plan.sample_times@ == b.plan.sample_times@
    &&& a.plan.points.len() == b.plan.points.len()
    &&& forall|c: int| 0 <= c < a.plan.points.len() ==> (#[trigger] a.plan.points[c])@ == b.plan.points[c]@
}

/// The two models hold the same names, indices and values, in the same order.
pub open spec fn same_model(a: Model, b: Model) -> bool {
    &&& same_skeleton(a.skeleton, b.skeleton)
    &&& a.bind_data_set.bind_data.len() == b.bind_data_set.bind_data.len()
    &&& forall|c: int|
        0 <= c < a.bind_data_set.bind_data.len() ==> same_binding(
            #[trigger] a.bind_data_set.bind_data[c],
            b.bind_data_set.bind_data[c],
        )
    &&& a.animations.len() == b.animations.len()
    &&& forall|i: int| 0 <= i < a.animations.len() ==> same_animation(#[trigger] a.animations[i], b.animations[i])
    &&& a.composed_tracks.len() == b.composed_tracks.len()
    &&& forall|i: int| 0 <= i < a.composed_tracks.len() ==> same_track(#[trigger] a.composed_tracks[i], b.composed_tracks[i])
    &&& a.warnings.len() == b.warnings.len()
    &&& forall|i: int| 0 <= i < a.warnings.len() ==> same_warning(#[trigger] a.warnings[i], b.warnings[i])
}

proof fn lemma_identity_unique(a: Matrix4<Scalar>, b: Matrix4<Scalar>)
    requires
        is_identity(a),
        is_identity(b),
    ensures
        a == b,
{
    assert forall|c: int| 0 <= c < 4 implies a[c] == b[c] by {
        assert(a[c] =~= b[c]);
    }
    assert(a =~= b);
}

proof fn lemma_poses_unique(
    doc: Document,
    name: Seq<char>,
    p1: Matrix4<Scalar>,
    i1: Matrix4<Scalar>,
    p2: Matrix4<Scalar>,
    i2: Matrix4<Scalar>,
)
    requires
        poses_given(doc.bind_transforms@, name, p1, i1),
        poses_given(doc.bind_transforms@, name, p2, i2),
    ensures
        p1 == p2 && i1 == i2,
{
    if transform_for(doc.bind_transforms@, name) is None {
        lemma_identity_unique(p1, p2);
        lemma_identity_unique(i1, i2);
    }
}

proof fn lemma_same_binding(ctrl: SkinController, known: Seq<Seq<char>>, a: BindData, b: BindData)
    requires
        binding_matches(ctrl, known, a),
        binding_matches(ctrl, known, b),
    ensures
        same_binding(a, b),
{
    let vals = weight_values(kept_of(ctrl, known), ctrl.weights@);
    lemma_distinct_no_duplicates(vals);
    assert forall|i: int| 0 <= i < a.vertex_weights.len() implies a.vertex_weights[i] == b.vertex_weights[i] by {
        assert(a.weights[a.vertex_weights[i].weight as int] == vals[i]);
        assert(b.weights[b.vertex_weights[i].weight as int] == vals[i]);
    }
    assert(a.vertex_weights@ =~= b.vertex_weights@);
}

proof fn lemma_increasing_le(times: Seq<Scalar>)
    requires
        strictly_increasing(times),
    ensures
        forall|p: int, q: int| 0 <= p <= q < times.len() ==> time_key(#[trigger] times[p]) <= time_key(#[trigger] times[q]),
{
    assert forall|p: int, q: int| 0 <= p <= q < times.len() implies time_key(#[trigger] times[p]) <= time_key(#[trigger] times[q]) by {
        if p < q {
            lemma_increasing_all(times, p, q);
        }
    }
}

/// Strictly increasing times without negative zero are fixed by which times they hold.
#[verifier::rlimit(60)]
proof fn lemma_sorted_unique(s1: Seq<Scalar>, s2: Seq<Scalar>)
    requires
        strictly_increasing(s1),
        strictly_increasing(s2),
        is_canonical(s1),
        is_canonical(s2),
        forall|x: Scalar| s1.contains(x) <==> s2.contains(x),
    ensures
        s1 == s2,
    decreases s1.len(),
{
    if s1.len() == 0 || s2.len() == 0 {
        if s1.len() > 0 {
            assert(s1.contains(s1[0]));
        }
        if s2.len() > 0 {
            assert(s2.contains(s2[0]));
        }
        assert(s1 =~= s2);
    } else {
        assert(s1.contains(s1[0]));
        assert(s2.contains(s2[0]));
        let k2 = choose|k: int| 0 <= k < s2.len() && s2[k] == s1[0];
        let k1 = choose|k: int| 0 <= k < s1.len() && s1[k] == s2[0];
        if k2 > 0 {
            lemma_increasing_all(s2, 0, k2);
        }
        if k1 > 0 {
            lemma_increasing_all(s1, 0, k1);
        }
        lemma_time_key_injective(s1[0], s2[0]);
        let t1 = s1.drop_first();
        let t2 = s2.drop_first();
        assert forall|x: Scalar| t1.contains(x) <==> t2.contains(x) by {
            if t1.contains(x) {
                let k = choose|k: int| 0 <= k < t1.len() && t1[k] == x;
                assert(s1[k + 1] == x);
                assert(s1.contains(x));
                let j = choose|j: int| 0 <= j < s2.len() && s2[j] == x;
                lemma_increasing_all(s1, 0, k + 1);
                if j == 0 {
                    assert(false);
                }
                assert(t2[j - 1] == x);
            }
            if t2.contains(x) {
                let k = choose|k: int| 0 <= k < t2.len() && t2[k] == x;
                assert(s2[k + 1] == x);
                assert(s2.contains(x));
                let j = choose|j: int| 0 <= j < s1.len() && s1[j] == x;
                lemma_increasing_all(s2, 0, k + 1);
                if j == 0 {
                    assert(false);
                }
                assert(t1[j - 1] == x);
            }
        }
        assert(strictly_increasing(t1)) by {
            assert forall|i: int| 0 <= i < t1.len() - 1 implies time_key(#[trigger] t1[i]) < time_key(t1[i + 1]) by {
                assert(t1[i] == s1[i + 1] && t1[i + 1] == s1[i + 2]);
            }
        }
        assert(strictly_increasing(t2)) by {
            assert forall|i: int| 0 <= i < t2.len() - 1 implies time_key(#[trigger] t2[i]) < time_key(t2[i + 1]) by {
                assert(t2[i] == s2[i + 1] && t2[i + 1] == s2[i + 2]);
            }
        }
        lemma_sorted_unique(t1, t2);
        assert(s1 =~= s2) by {
            assert forall|i: int| 0 < i < s1.len() implies s1[i] == s2[i] by {
                assert(s1[i] == t1[i - 1] && s2[i] == t2[i - 1]);
            }
        }
    }
}

/// Among strictly increasing times, a time falls in one place only.
proof fn lemma_point_unique(times: Seq<Scalar>, t: Scalar, p1: SamplePoint, p2: SamplePoint)
    requires
        strictly_increasing(times),
        point_of(times, t, p1),
        point_of(times, t, p2),
    ensures
        p1 == p2,
{
    lemma_increasing_le(times);
    match (p1, p2) {
        (SamplePoint::At(a), SamplePoint::At(b)) => {
            if a < b {
                lemma_increasing_all(times, a as int, b as int);
            } else if b < a {
                lemma_increasing_all(times, b as int, a as int);
            }
        },
        (SamplePoint::Between(a), SamplePoint::Between(b)) => {
            if a < b {
                assert(time_key(times[a + 1]) <= time_key(times[b as int]));
            } else if b < a {
                assert(time_key(times[b + 1]) <= time_key(times[a as int]));
            }
        },
        (SamplePoint::At(a), SamplePoint::Between(b)) => {
            if a <= b {
                assert(time_key(times[a as int]) <= time_key(times[b as int]));
            } else {
                assert(time_key(times[b + 1]) <= time_key(times[a as int]));
            }
        },
        (SamplePoint::Between(b), SamplePoint::At(a)) => {
            if a <= b {
                assert(time_key(times[a as int]) <= time_key(times[b as int]));
            } else {
                assert(time_key(times[b + 1]) <= time_key(times[a as int]));
            }
        },
        (SamplePoint::At(a), _) => {
            assert(time_key(times[0]) <= time_key(times[a as int]));
            assert(time_key(times[a as int]) <= time_key(times[times.len() - 1]));
        },
        (_, SamplePoint::At(a)) => {
            assert(time_key(times[0]) <= time_key(times[a as int]));
            assert(time_key(times[a as int]) <= time_key(times[times.len() - 1]));
        },
        (SamplePoint::Between(b), _) => {
            assert(time_key(times[0]) <= time_key(times[b as int]));
            assert(time_key(times[b + 1]) <= time_key(times[times.len() - 1]));
        },
        (_, SamplePoint::Between(b)) => {
            assert(time_key(times[0]) <= time_key(times[b as int]));
            assert(time_key(times[b + 1]) <= time_key(times[times.len() - 1]));
        },
        _ => {
            if times.len() > 0 {
                assert(time_key(times[0]) <= time_key(times[times.len() - 1]));
            }
        },
    }
}

proof fn lemma_same_row(times: Seq<Scalar>, at: Seq<Scalar>, ra: Seq<SamplePoint>, rb: Seq<SamplePoint>)
    requires
        strictly_increasing(times),
        ra.len() == at.len(),
        rb.len() == at.len(),
        forall|i: int| 0 <= i < at.len() ==> point_of(times, at[i], #[trigger] ra[i]),
        forall|i: int| 0 <= i < at.len() ==> point_of(times, at[i], #[trigger] rb[i]),
    ensures
        ra == rb,
{
    assert forall|i: int| 0 <= i < ra.len() implies ra[i] == rb[i] by {
        lemma_point_unique(times, at[i], ra[i], rb[i]);
    }
    assert(ra =~= rb);
}

proof fn lemma_same_plan(parts: Seq<Channel>, a: TrackPlan, b: TrackPlan)
    requires
        plan_matches(parts, a),
        plan_matches(parts, b),
        forall|c: int| 0 <= c < parts.len() ==> samples_ok(#[trigger] parts[c]),
    ensures
        a.sample_times@ == b.sample_times@,
        a.points.len() == b.points.len(),
        forall|c: int| 0 <= c < a.points.len() ==> (#[trigger] a.points[c])@ == b.points[c]@,
{
    lemma_sorted_unique(a.sample_times@, b.sample_times@);
    assert forall|c: int| 0 <= c < a.points.len() implies (#[trigger] a.points[c])@ == b.points[c]@ by {
        assert(samples_ok(parts[c]));
        lemma_same_row(parts[c].times@, a.sample_times@, a.points[c]@, b.points[c]@);
    }
}

/// Loading the same document twice gives the same model: the same joints, bindings,
/// animations and warnings, in the same order, with the same indices and values.
pub proof fn lemma_load_deterministic(doc: Document, a: Model, b: Model)
    requires
        loaded(doc, a),
        loaded(doc, b),
    ensures
        same_model(a, b),
{
    let nodes = doc.nodes@;
    let ja = a.skeleton.joints;
    let jb = b.skeleton.joints;
    assert forall|i: int| 0 <= i < ja.len() implies same_joint(#[trigger] ja[i], jb[i])
        && a.skeleton.bind_poses[i] == b.skeleton.bind_poses[i] by {
        lemma_index_reached(nodes, nodes.len() as int, i);
        let k = choose|k: int| 0 <= k < nodes.len() && (#[trigger] nodes[k]).is_joint && joints_before(nodes, k) == i;
        assert(nodes[k].is_joint);
        lemma_poses_unique(
            doc,
            ja[i].name@,
            a.skeleton.bind_poses[i],
            ja[i].inverse_bind_pose,
            b.skeleton.bind_poses[i],
            jb[i].inverse_bind_pose,
        );
    }
    assert forall|i: int| 0 <= i < a.skeleton.bind_poses.len() implies #[trigger] a.skeleton.bind_poses@[i]
        == b.skeleton.bind_poses@[i] by {
        assert(same_joint(ja[i], jb[i]));
    }
    assert(a.skeleton.bind_poses@ =~= b.skeleton.bind_poses@);
    let known = joint_names_of(ja@);
    assert(known =~= joint_names_of(jb@));
    assert forall|c: int| 0 <= c < a.bind_data_set.bind_data.len() implies same_binding(
        #[trigger] a.bind_data_set.bind_data[c],
        b.bind_data_set.bind_data[c],
    ) by {
        lemma_same_binding(doc.controllers@[c], known, a.bind_data_set.bind_data[c], b.bind_data_set.bind_data[c]);
    }
    let chs = doc.channels@;
    assert forall|i: int| 0 <= i < a.composed_tracks.len() implies same_track(#[trigger] a.composed_tracks[i], b.composed_tracks[i]) by {
        let t = targets_with(chs, known, chs.len() as int, TargetOutcome::Composed)[i];
        lemma_targets_with(chs, known, chs.len() as int, TargetOutcome::Composed);
        assert(outcome_of(chs, known, t) == TargetOutcome::Composed);
        let g = group_of(chs, t);
        assert(forall|k: int| 0 <= k < g.len() ==> samples_ok(#[trigger] g[k]));
        lemma_same_plan(g, a.composed_tracks[i].plan, b.composed_tracks[i].plan);
    }
    let n = binding_warning_names(doc.controllers@, known, doc.controllers.len() as int).len() as int;
    assert forall|i: int| 0 <= i < a.warnings.len() implies same_warning(#[trigger] a.warnings[i], b.warnings[i]) by {
        if i >= n {
            assert(a.warnings@.subrange(n, a.warnings.len() as int)[i - n] == a.warnings[i]);
            assert(b.warnings@.subrange(n, b.warnings.len() as int)[i - n] == b.warnings[i]);
        }
    }
}

} // verus!
