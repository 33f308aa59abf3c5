//! Bind poses of the skeleton's joints, and the weight bindings of skinned meshes.
use vstd::prelude::*;
use crate::document::{BindTransform, Influence, InfluencePair, SkinController};
use crate::model::{BindData, Joint, LoadError, Location, Skeleton, VertexWeight, Warning, parents_precede};
use crate::{is_identity, mat4_id, Matrix4, Scalar, JointIndex, MAX_JOINTS};

verus! {

/// The name is among the skeleton's joint names.
pub open spec fn is_known_joint(known: Seq<Seq<char>>, name: Seq<char>) -> bool {
    known.contains(name)
}

/// The names of the joints, in order.
pub open spec fn joint_names_of(joints: Seq<Joint>) -> Seq<Seq<char>> {
    joints.map_values(|j: Joint| j.name@)
}

/// Position of the first joint with this name.
pub fn find_joint(joints: &Vec<Joint>, name: &String) -> (r: Option<usize>)
    ensures
        r matches Some(i) ==> i < joints.len() && joints[i as int].name@ == name@ && forall|j: int|
            0 <= j < i ==> (#[trigger] joints[j]).name@ != name@,
        r is None <==> !is_known_joint(joint_names_of(joints@), name@),
{
    let mut i: usize = 0;
    while i < joints.len()
        invariant
            i <= joints.len(),
            forall|j: int| 0 <= j < i ==> (#[trigger] joints[j]).name@ != name@,
        decreases joints.len() - i,
    {
        if joints[i].name == *name {
            assert(joint_names_of(joints@)[i as int] == name@);
            return Some(i);
        }
        i = i + 1;
    }
    assert(!joint_names_of(joints@).contains(name@)) by {
        if joint_names_of(joints@).contains(name@) {
            let k = choose|k: int| 0 <= k < joints.len() && joint_names_of(joints@)[k] == name@;
            assert(joints[k].name@ == name@);
        }
    }
    None
}

/// Position of the first of the first `n` transforms given for this joint name.
pub open spec fn transform_index(ts: Seq<BindTransform>, name: Seq<char>, n: int) -> Option<int>
    decreases n,
{
    if n <= 0 {
        None
    } else {
        match transform_index(ts, name, n - 1) {
            Some(t) => Some(t),
            None => if ts[n - 1].joint_name@ == name {
                Some(n - 1)
            } else {
                None
            },
        }
    }
}

/// Position of the first transform given for this joint name.
pub open spec fn transform_for(ts: Seq<BindTransform>, name: Seq<char>) -> Option<int> {
    transform_index(ts, name, ts.len() as int)
}

fn find_transform(ts: &Vec<BindTransform>, name: &String) -> (r: Option<usize>)
    ensures
        r matches Some(t) ==> t < ts.len() && transform_for(ts@, name@) == Some(t as int),
        r is None ==> transform_for(ts@, name@) is None,
{
    let mut i: usize = 0;
    while i < ts.len()
        invariant
            i <= ts.len(),
            transform_index(ts@, name@, i as int) is None,
        decreases ts.len() - i,
    {
        if ts[i].joint_name == *name {
            proof {
                assert(transform_index(ts@, name@, i + 1) == Some(i as int));
                lemma_transform_from(ts@, name@, i as int + 1, ts.len() as int);
            }
            return Some(i);
        }
        i = i + 1;
    }
    None
}

proof fn lemma_transform_from(ts: Seq<BindTransform>, name: Seq<char>, a: int, b: int)
    requires
        0 <= a <= b,
        transform_index(ts, name, a) is Some,
    ensures
        transform_index(ts, name, b) == transform_index(ts, name, a),
    decreases b - a,
{
    if a < b {
        lemma_transform_from(ts, name, a, b - 1);
    }
}

/// The bind pose and inverse bind pose a joint of this name gets: those of the first
/// transform given for it, or the identity where none is.
pub open spec fn poses_given(ts: Seq<BindTransform>, name: Seq<char>, bind_pose: Matrix4<Scalar>, inverse: Matrix4<Scalar>) -> bool {
    match transform_for(ts, name) {
        Some(t) => bind_pose == ts[t].bind_pose && inverse == ts[t].inverse_bind_pose,
        None => is_identity(bind_pose) && is_identity(inverse),
    }
}

/// Gives each joint its bind pose and inverse bind pose from the transforms of the
/// same name (the first one given wins); a joint without any gets the identity for
/// both. Transforms naming no joint are not used.
pub fn resolve_bind_poses(joints: Vec<Joint>, transforms: &Vec<BindTransform>) -> (r: Skeleton)
    requires
        parents_precede(joints@),
        joints.len() <= MAX_JOINTS,
    ensures
        r.wf(),
        r.joints.len() == joints.len(),
        forall|i: int|
            0 <= i < joints.len() ==> {
                &&& (#[trigger] r.joints[i]).name@ == joints[i].name@
                &&& r.joints[i].parent_index == joints[i].parent_index
                &&& poses_given(transforms@, joints[i].name@, r.bind_poses[i], r.joints[i].inverse_bind_pose)
            },
{
    let mut out: Vec<Joint> = Vec::new();
    let mut bind_poses: Vec<Matrix4<Scalar>> = Vec::new();
    let mut i: usize = 0;
    while i < joints.len()
        invariant
            i <= joints.len(),
            joints.len() <= MAX_JOINTS,
            parents_precede(joints@),
            out.len() == i,
            bind_poses.len() == i,
            forall|k: int|
                0 <= k < i ==> {
                    &&& (#[trigger] out[k]).name@ == joints[k].name@
                    &&& out[k].parent_index == joints[k].parent_index
                    &&& poses_given(transforms@, joints[k].name@, bind_poses[k], out[k].inverse_bind_pose)
                },
        decreases joints.len() - i,
    {
        let j = &joints[i];
        let (bind_pose, inverse) = match find_transform(transforms, &j.name) {
            Some(t) => (transforms[t].bind_pose, transforms[t].inverse_bind_pose),
            None => (mat4_id(), mat4_id()),
        };
        out.push(Joint { name: j.name.clone(), parent_index: j.parent_index, inverse_bind_pose: inverse });
        bind_poses.push(bind_pose);
        i = i + 1;
    }
    let r = Skeleton { joints: out, bind_poses };
    assert(parents_precede(r.joints@)) by {
        assert forall|k: int| 0 <= k < r.joints.len() && #[trigger] r.joints@[k].parent_index != crate::ROOT_JOINT_PARENT_INDEX
            implies r.joints@[k].parent_index < k by {
            assert(joints@[k].parent_index == r.joints@[k].parent_index);
        }
    }
    r
}

/// How many pairs the first `v` vertices own together.
pub open spec fn count_sum(counts: Seq<usize>, v: int) -> nat
    decreases v,
{
    if v <= 0 {
        0
    } else {
        count_sum(counts, v - 1) + counts[v - 1] as nat
    }
}

proof fn lemma_count_sum_mono(counts: Seq<usize>, a: int, b: int)
    requires
        0 <= a <= b,
    ensures
        count_sum(counts, a) <= count_sum(counts, b),
    decreases b - a,
{
    if a < b {
        lemma_count_sum_mono(counts, a, b - 1);
    }
}

/// Gives each pair its vertex: the first `counts[0]` pairs belong to vertex 0, the next
/// `counts[1]` to vertex 1, and so on. `None` when the counts do not add up to the
/// number of pairs.
pub fn expand_influences(counts: &Vec<usize>, pairs: &Vec<InfluencePair>) -> (r: Option<Vec<Influence>>)
    ensures
        r is None <==> count_sum(counts@, counts.len() as int) != pairs.len(),
        r matches Some(infl) ==> infl@ == expanded(counts@, pairs@),
        r matches Some(infl) ==> infl.len() == pairs.len() && forall|p: int|
            0 <= p < infl.len() ==> {
                let v = (#[trigger] infl[p]).vertex as int;
                &&& infl[p].joint == pairs[p].joint
                &&& infl[p].weight == pairs[p].weight
                &&& v < counts.len()
                &&& count_sum(counts@, v) <= p < count_sum(counts@, v + 1)
            },
{
    let mut out: Vec<Influence> = Vec::new();
    let mut v: usize = 0;
    while v < counts.len()
        invariant
            v <= counts.len(),
            out.len() == count_sum(counts@, v as int),
            out.len() <= pairs.len(),
            forall|p: int|
                0 <= p < out.len() ==> {
                    let w = (#[trigger] out[p]).vertex as int;
                    &&& out[p].joint == pairs[p].joint
                    &&& out[p].weight == pairs[p].weight
                    &&& w < v
                    &&& count_sum(counts@, w) <= p < count_sum(counts@, w + 1)
                },
        decreases counts.len() - v,
    {
        let n = counts[v];
        if n > pairs.len() - out.len() {
            proof {
                lemma_count_sum_mono(counts@, v as int + 1, counts.len() as int);
            }
            return None;
        }
        let start = out.len();
        let mut j: usize = 0;
        while j < n
            invariant
                j <= n,
                start + n <= pairs.len(),
                start == count_sum(counts@, v as int),
                v < counts.len(),
                n == counts[v as int],
                out.len() == start + j,
                forall|p: int|
                    0 <= p < out.len() ==> {
                        let w = (#[trigger] out[p]).vertex as int;
                        &&& out[p].joint == pairs[p].joint
                        &&& out[p].weight == pairs[p].weight
                        &&& w <= v
                        &&& count_sum(counts@, w) <= p < count_sum(counts@, w + 1)
                    },
            decreases n - j,
        {
            let pair = pairs[start + j];
            out.push(Influence { vertex: v, joint: pair.joint, weight: pair.weight });
            j = j + 1;
        }
        v = v + 1;
    }
    if out.len() != pairs.len() {
        return None;
    }
    proof {
        assert forall|p: int| 0 <= p < out.len() implies out[p] == expanded(counts@, pairs@)[p] by {
            lemma_vertex_of(counts@, p, out[p].vertex as int);
        }
        assert(out@ =~= expanded(counts@, pairs@));
    }
    Some(out)
}

/// The vertex that owns pair `p`.
pub open spec fn vertex_of(counts: Seq<usize>, p: int) -> int {
    choose|v: int| 0 <= v < counts.len() && #[trigger] count_sum(counts, v) <= p < count_sum(counts, v + 1)
}

/// The pairs, each with the vertex that owns it.
pub open spec fn expanded(counts: Seq<usize>, pairs: Seq<InfluencePair>) -> Seq<Influence> {
    Seq::new(
        pairs.len(),
        |p: int| Influence { vertex: vertex_of(counts, p) as usize, joint: pairs[p].joint, weight: pairs[p].weight },
    )
}

proof fn lemma_vertex_of(counts: Seq<usize>, p: int, v: int)
    requires
        0 <= v < counts.len(),
        count_sum(counts, v) <= p < count_sum(counts, v + 1),
    ensures
        vertex_of(counts, p) == v,
{
    let w = vertex_of(counts, p);
    if w < v {
        lemma_count_sum_mono(counts, w + 1, v);
    } else if w > v {
        lemma_count_sum_mono(counts, v + 1, w);
    }
}

/// Whether each joint name of a binding is one of the skeleton's.
pub open spec fn resolved_names(names: Seq<String>, known: Seq<Seq<char>>) -> Seq<bool> {
    Seq::new(names.len(), |i: int| is_known_joint(known, names[i]@))
}

/// The first `n` influences, without those of a joint that the skeleton lacks.
pub open spec fn kept_influences(infl: Seq<Influence>, resolved: Seq<bool>, n: int) -> Seq<Influence>
    decreases n,
{
    if n <= 0 {
        seq![]
    } else {
        let s = kept_influences(infl, resolved, n - 1);
        if resolved[infl[n - 1].joint as int] {
            s.push(infl[n - 1])
        } else {
            s
        }
    }
}

/// The weight value of each influence.
pub open spec fn weight_values(ks: Seq<Influence>, weights: Seq<Scalar>) -> Seq<Scalar> {
    ks.map_values(|x: Influence| weights[x.weight as int])
}

/// The distinct values, in the order in which each first occurs.
pub open spec fn distinct_in_order(vals: Seq<Scalar>) -> Seq<Scalar>
    decreases vals.len(),
{
    if vals.len() == 0 {
        seq![]
    } else {
        let p = distinct_in_order(vals.drop_last());
        if p.contains(vals.last()) {
            p
        } else {
            p.push(vals.last())
        }
    }
}

pub proof fn lemma_distinct_no_duplicates(vals: Seq<Scalar>)
    ensures
        distinct_in_order(vals).no_duplicates(),
    decreases vals.len(),
{
    if vals.len() > 0 {
        lemma_distinct_no_duplicates(vals.drop_last());
    }
}

/// The first `n` joint names that the skeleton lacks, in order.
pub open spec fn unresolved_names(names: Seq<String>, known: Seq<Seq<char>>, n: int) -> Seq<Seq<char>>
    decreases n,
{
    if n <= 0 {
        seq![]
    } else {
        let s = unresolved_names(names, known, n - 1);
        if is_known_joint(known, names[n - 1]@) {
            s
        } else {
            s.push(names[n - 1]@)
        }
    }
}

/// Every pair points inside the controller's joint names and weights.
pub open spec fn pairs_in_range(ctrl: SkinController) -> bool {
    forall|p: int|
        0 <= p < ctrl.pairs.len() ==> (#[trigger] ctrl.pairs@[p]).joint < ctrl.joint_names.len()
            && ctrl.pairs@[p].weight < ctrl.weights.len()
}

/// The controller's lists agree with each other.
pub open spec fn controller_ok(ctrl: SkinController) -> bool {
    &&& ctrl.joint_names.len() == ctrl.inverse_bind_poses.len()
    &&& count_sum(ctrl.influence_counts@, ctrl.influence_counts.len() as int) == ctrl.pairs.len()
    &&& pairs_in_range(ctrl)
}

/// The influences of a controller that the binding keeps.
pub open spec fn kept_of(ctrl: SkinController, known: Seq<Seq<char>>) -> Seq<Influence> {
    kept_influences(
        expanded(ctrl.influence_counts@, ctrl.pairs@),
        resolved_names(ctrl.joint_names@, known),
        ctrl.pairs.len() as int,
    )
}

/// `bd` is the binding made from `ctrl` against a skeleton with these joints.
pub open spec fn binding_matches(ctrl: SkinController, known: Seq<Seq<char>>, bd: BindData) -> bool {
    let ks = kept_of(ctrl, known);
    let vals = weight_values(ks, ctrl.weights@);
    &&& bd.object_name@ == ctrl.object_name@
    &&& bd.skeleton_name@ == ctrl.skeleton_name@
    &&& bd.joint_names.len() == ctrl.joint_names.len()
    &&& forall|i: int| 0 <= i < bd.joint_names.len() ==> (#[trigger] bd.joint_names[i])@ == ctrl.joint_names[i]@
    &&& bd.inverse_bind_poses@ == ctrl.inverse_bind_poses@
    &&& bd.weights@ == distinct_in_order(vals)
    &&& bd.vertex_weights.len() == ks.len()
    &&& forall|i: int|
        0 <= i < ks.len() ==> {
            &&& (#[trigger] bd.vertex_weights[i]).vertex == ks[i].vertex
            &&& bd.vertex_weights[i].joint == ks[i].joint
            &&& bd.vertex_weights[i].weight < bd.weights.len()
            &&& bd.weights[bd.vertex_weights[i].weight as int] == vals[i]
        }
}

/// The warnings of a binding: one unresolved reference per joint name that the
/// skeleton lacks, in the order of the names.
pub open spec fn warnings_match(ctrl: SkinController, known: Seq<Seq<char>>, ws: Seq<Warning>) -> bool {
    let un = unresolved_names(ctrl.joint_names@, known, ctrl.joint_names.len() as int);
    &&& ws.len() == un.len()
    &&& forall|i: int|
        0 <= i < ws.len() ==> (#[trigger] ws[i] matches Warning::UnresolvedJointReference(n) && n@ == un[i])
}

fn position_of(pool: &Vec<Scalar>, w: Scalar) -> (r: Option<usize>)
    ensures
        r matches Some(j) ==> j < pool.len() && pool[j as int] == w,
        r is None ==> !pool@.contains(w),
{
    let mut j: usize = 0;
    while j < pool.len()
        invariant
            j <= pool.len(),
            forall|k: int| 0 <= k < j ==> pool[k] != w,
        decreases pool.len() - j,
    {
        if pool[j] == w {
            return Some(j);
        }
        j = j + 1;
    }
    None
}

/// Builds the binding of one skin controller (the `index`-th) against the skeleton's
/// joints. Influences of a joint name that the skeleton lacks are left out, and each
/// such name is reported once; the name itself stays in `joint_names`, so that the
/// other indices keep their meaning. Weight values are pooled without repeats, in the
/// order first used. Zero weights are kept. Fails when the controller's lists
/// disagree, or when it names more joints than a `JointIndex` can address.
pub fn assemble_binding(ctrl: &SkinController, joints: &Vec<Joint>, index: usize) -> (r: Result<(BindData, Vec<Warning>), LoadError>)
    ensures
        match r {
            Ok((bd, ws)) => controller_ok(*ctrl) && ctrl.joint_names.len() <= MAX_JOINTS && bd.wf()
                && binding_matches(*ctrl, joint_names_of(joints@), bd) && warnings_match(*ctrl, joint_names_of(joints@), ws@),
            Err(LoadError::MalformedDocument(loc)) => loc == Location::Controller(index) && !controller_ok(*ctrl),
            Err(LoadError::CapacityExceeded(n)) => controller_ok(*ctrl) && n == ctrl.joint_names.len() && n > MAX_JOINTS,
        },
{
    if ctrl.joint_names.len() != ctrl.inverse_bind_poses.len() {
        return Err(LoadError::MalformedDocument(Location::Controller(index)));
    }
    let mut p: usize = 0;
    while p < ctrl.pairs.len()
        invariant
            p <= ctrl.pairs.len(),
            forall|q: int|
                0 <= q < p ==> (#[trigger] ctrl.pairs@[q]).joint < ctrl.joint_names.len()
                    && ctrl.pairs@[q].weight < ctrl.weights.len(),
        decreases ctrl.pairs.len() - p,
    {
        let pair = ctrl.pairs[p];
        if pair.joint >= ctrl.joint_names.len() || pair.weight >= ctrl.weights.len() {
            assert(!pairs_in_range(*ctrl));
            return Err(LoadError::MalformedDocument(Location::Controller(index)));
        }
        p = p + 1;
    }
    let infl = match expand_influences(&ctrl.influence_counts, &ctrl.pairs) {
        Some(infl) => infl,
        None => {
            return Err(LoadError::MalformedDocument(Location::Controller(index)));
        },
    };
    if ctrl.joint_names.len() > MAX_JOINTS {
        return Err(LoadError::CapacityExceeded(ctrl.joint_names.len()));
    }
    let ghost resolved_spec = resolved_names(ctrl.joint_names@, joint_names_of(joints@));
    let mut resolved: Vec<bool> = Vec::new();
    let mut warnings: Vec<Warning> = Vec::new();
    let mut joint_names: Vec<String> = Vec::new();
    let mut inverse_bind_poses: Vec<Matrix4<Scalar>> = Vec::new();
    let mut i: usize = 0;
    while i < ctrl.joint_names.len()
        invariant
            i <= ctrl.joint_names.len(),
            ctrl.joint_names.len() == ctrl.inverse_bind_poses.len(),
            resolved@ =~= resolved_spec.subrange(0, i as int),
            resolved_spec == resolved_names(ctrl.joint_names@, joint_names_of(joints@)),
            joint_names.len() == i,
            forall|k: int| 0 <= k < i ==> (#[trigger] joint_names[k])@ == ctrl.joint_names[k]@,
            inverse_bind_poses@ =~= ctrl.inverse_bind_poses@.subrange(0, i as int),
            warnings.len() == unresolved_names(ctrl.joint_names@, joint_names_of(joints@), i as int).len(),
            forall|k: int|
                0 <= k < warnings.len() ==> (#[trigger] warnings[k] matches Warning::UnresolvedJointReference(n)
                    && n@ == unresolved_names(ctrl.joint_names@, joint_names_of(joints@), i as int)[k]),
        decreases ctrl.joint_names.len() - i,
    {
        let known = find_joint(joints, &ctrl.joint_names[i]).is_some();
        resolved.push(known);
        if !known {
            warnings.push(Warning::UnresolvedJointReference(ctrl.joint_names[i].clone()));
        }
        joint_names.push(ctrl.joint_names[i].clone());
        inverse_bind_poses.push(ctrl.inverse_bind_poses[i]);
        i = i + 1;
    }
    proof {
        assert(resolved@ =~= resolved_spec);
        assert(inverse_bind_poses@ =~= ctrl.inverse_bind_poses@);
    }
    let mut vertex_weights: Vec<VertexWeight> = Vec::new();
    let mut pool: Vec<Scalar> = Vec::new();
    let mut p: usize = 0;
    while p < infl.len()
        invariant
            p <= infl.len(),
            infl@ == expanded(ctrl.influence_counts@, ctrl.pairs@),
            infl.len() == ctrl.pairs.len(),
            pairs_in_range(*ctrl),
            ctrl.joint_names.len() <= MAX_JOINTS,
            resolved@ == resolved_names(ctrl.joint_names@, joint_names_of(joints@)),
            pool@ == distinct_in_order(weight_values(kept_influences(infl@, resolved@, p as int), ctrl.weights@)),
            pool@.no_duplicates(),
            vertex_weights.len() == kept_influences(infl@, resolved@, p as int).len(),
            forall|k: int|
                0 <= k < vertex_weights.len() ==> {
                    let ks = kept_influences(infl@, resolved@, p as int);
                    &&& (#[trigger] vertex_weights[k]).vertex == ks[k].vertex
                    &&& vertex_weights[k].joint == ks[k].joint
                    &&& vertex_weights[k].weight < pool.len()
                    &&& pool[vertex_weights[k].weight as int] == weight_values(ks, ctrl.weights@)[k]
                    &&& ks[k].joint < ctrl.joint_names.len()
                },
        decreases infl.len() - p,
    {
        let x = infl[p];
        let ghost ks_old = kept_influences(infl@, resolved@, p as int);
        let ghost vals_old = weight_values(ks_old, ctrl.weights@);
        assert(ctrl.pairs[p as int].joint < ctrl.joint_names.len());
        if resolved[x.joint] {
            let w = ctrl.weights[x.weight];
            let ghost ks_new = ks_old.push(x);
            let ghost vals_new = weight_values(ks_new, ctrl.weights@);
            assert(vals_new.drop_last() =~= vals_old);
            let j = match position_of(&pool, w) {
                Some(j) => j,
                None => {
                    pool.push(w);
                    proof {
                        lemma_distinct_no_duplicates(vals_new);
                    }
                    pool.len() - 1
                },
            };
            vertex_weights.push(VertexWeight { vertex: x.vertex, joint: x.joint as JointIndex, weight: j });
            assert(kept_influences(infl@, resolved@, p as int + 1) == ks_new);
        }
        p = p + 1;
    }
    proof {
        lemma_distinct_no_duplicates(weight_values(kept_influences(infl@, resolved@, p as int), ctrl.weights@));
    }
    let bd = BindData {
        object_name: ctrl.object_name.clone(),
        skeleton_name: ctrl.skeleton_name.clone(),
        joint_names,
        vertex_weights,
        weights: pool,
        inverse_bind_poses,
    };
    Ok((bd, warnings))
}

} // verus!
