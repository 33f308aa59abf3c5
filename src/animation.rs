//! Animation tracks from the channels that drive a joint's transform.
use vstd::prelude::*;
use crate::binding::{find_joint, is_known_joint, joint_names_of};
use crate::document::{Channel, ChannelOutput};
use crate::model::{
    canonical_time, is_nan, is_nan_time, strictly_increasing, time_key, time_order_key, Animation, Joint,
    Warning,
};
use crate::{Matrix4, Scalar};

verus! {

/// The channel's times rise strictly and each has a pose.
pub open spec fn samples_ok(ch: Channel) -> bool {
    ch.times.len() == ch.poses.len() && strictly_increasing(ch.times@)
}

/// The channel becomes an animation: it names a joint and its samples are sound.
pub open spec fn channel_ok(ch: Channel, known: Seq<Seq<char>>) -> bool {
    is_known_joint(known, ch.target@) && samples_ok(ch)
}

/// Whether the times rise strictly.
#[verifier::rlimit(40)]
pub fn times_increasing(times: &Vec<Scalar>) -> (r: bool)
    ensures
        r == strictly_increasing(times@),
{
    let mut i: usize = 0;
    while i < times.len()
        invariant
            i <= times.len(),
            forall|k: int| 0 <= k < i ==> !is_nan(#[trigger] times@[k]),
            forall|k: int| 0 <= k < i - 1 ==> time_key(#[trigger] times@[k]) < time_key(times@[k + 1]),
        decreases times.len() - i,
    {
        if is_nan_time(times[i]) {
            return false;
        }
        if i > 0 && time_order_key(times[i - 1]) >= time_order_key(times[i]) {
            return false;
        }
        i = i + 1;
    }
    true
}

/// The warning for a channel that does not become an animation.
pub open spec fn rejection(ch: Channel, known: Seq<Seq<char>>, w: Warning) -> bool {
    if !is_known_joint(known, ch.target@) {
        w matches Warning::UnresolvedJointReference(n) && n@ == ch.target@
    } else {
        w matches Warning::SampleMismatch(n) && n@ == ch.target@
    }
}

/// `a` carries the channel's target and samples unchanged.
pub open spec fn animation_of(ch: Channel, a: Animation) -> bool {
    &&& a.target@ == ch.target@
    &&& a.sample_times@ == ch.times@
    &&& a.sample_poses@ == ch.poses@
}

/// Turns one transform channel into an animation of its target. A target that is
/// no joint of the skeleton, or times that do not rise strictly or do not match the
/// poses in number, give a warning instead.
pub fn extract_animation(ch: &Channel, joints: &Vec<Joint>) -> (r: Result<Animation, Warning>)
    ensures
        r matches Ok(a) ==> channel_ok(*ch, joint_names_of(joints@)) && a.wf() && animation_of(*ch, a),
        r matches Err(w) ==> !channel_ok(*ch, joint_names_of(joints@)) && rejection(*ch, joint_names_of(joints@), w),
{
    if find_joint(joints, &ch.target).is_none() {
        return Err(Warning::UnresolvedJointReference(ch.target.clone()));
    }
    if ch.times.len() != ch.poses.len() || !times_increasing(&ch.times) {
        return Err(Warning::SampleMismatch(ch.target.clone()));
    }
    let mut times: Vec<Scalar> = Vec::new();
    let mut poses: Vec<Matrix4<Scalar>> = Vec::new();
    let mut i: usize = 0;
    while i < ch.times.len()
        invariant
            i <= ch.times.len(),
            ch.times.len() == ch.poses.len(),
            times@ =~= ch.times@.subrange(0, i as int),
            poses@ =~= ch.poses@.subrange(0, i as int),
        decreases ch.times.len() - i,
    {
        times.push(ch.times[i]);
        poses.push(ch.poses[i]);
        i = i + 1;
    }
    assert(times@ =~= ch.times@);
    assert(poses@ =~= ch.poses@);
    Ok(Animation { target: ch.target.clone(), sample_times: times, sample_poses: poses })
}

/// Channel `d` drives the whole transform of the node that channel `c` drives.
pub open spec fn same_target(chs: Seq<Channel>, c: int, d: int) -> bool {
    chs[d].output == ChannelOutput::Transform && chs[d].target@ == chs[c].target@
}

/// Channel `c` is the first transform channel of its node.
pub open spec fn leads_target(chs: Seq<Channel>, c: int) -> bool {
    chs[c].output == ChannelOutput::Transform && forall|d: int| 0 <= d < c ==> !#[trigger] same_target(chs, c, d)
}

/// Positions, among the first `n` channels, of the transform channels of the node of
/// channel `c`.
pub open spec fn members_of(chs: Seq<Channel>, c: int, n: int) -> Seq<usize>
    decreases n,
{
    if n <= 0 {
        seq![]
    } else {
        let s = members_of(chs, c, n - 1);
        if same_target(chs, c, n - 1) {
            s.push((n - 1) as usize)
        } else {
            s
        }
    }
}

/// All the transform channels of the node of channel `c`.
pub open spec fn group_of(chs: Seq<Channel>, c: int) -> Seq<Channel> {
    member_channels(chs, members_of(chs, c, chs.len() as int))
}

/// The node of channel `c` is a joint and all its transform channels have sound samples.
pub open spec fn group_ok(chs: Seq<Channel>, known: Seq<Seq<char>>, c: int) -> bool {
    &&& is_known_joint(known, chs[c].target@)
    &&& forall|k: int| 0 <= k < group_of(chs, c).len() ==> samples_ok(#[trigger] group_of(chs, c)[k])
}

/// What becomes of the node of a channel.
#[derive(Clone, Copy, Debug, PartialEq, Eq, Structural)]
pub enum TargetOutcome {
    /// The channel is not the first transform channel of its node.
    NotFirst,
    /// One channel drives the node: it becomes an animation.
    Single,
    /// Several channels drive the node: they are composed into one track.
    Composed,
    /// The node is no joint, or a channel's samples are unsound: a warning.
    Rejected,
}

pub open spec fn outcome_of(chs: Seq<Channel>, known: Seq<Seq<char>>, c: int) -> TargetOutcome {
    if !leads_target(chs, c) {
        TargetOutcome::NotFirst
    } else if !group_ok(chs, known, c) {
        TargetOutcome::Rejected
    } else if members_of(chs, c, chs.len() as int).len() == 1 {
        TargetOutcome::Single
    } else {
        TargetOutcome::Composed
    }
}

/// Positions, among the first `n` channels, of the first channels of nodes with the
/// given outcome.
pub open spec fn targets_with(chs: Seq<Channel>, known: Seq<Seq<char>>, n: int, o: TargetOutcome) -> Seq<int>
    decreases n,
{
    if n <= 0 {
        seq![]
    } else {
        let s = targets_with(chs, known, n - 1, o);
        if outcome_of(chs, known, n - 1) == o {
            s.push(n - 1)
        } else {
            s
        }
    }
}

/// Each listed position is below `n` and has the given outcome.
pub proof fn lemma_targets_with(chs: Seq<Channel>, known: Seq<Seq<char>>, n: int, o: TargetOutcome)
    ensures
        forall|i: int|
            0 <= i < targets_with(chs, known, n, o).len() ==> 0 <= #[trigger] targets_with(chs, known, n, o)[i] < n
                && outcome_of(chs, known, targets_with(chs, known, n, o)[i]) == o,
    decreases n,
{
    if n > 0 {
        lemma_targets_with(chs, known, n - 1, o);
    }
}

/// A transform channel of the node is among the node's channels.
pub proof fn lemma_members_contain(chs: Seq<Channel>, c: int, d: int, n: int)
    requires
        0 <= d < n <= chs.len() <= usize::MAX,
        same_target(chs, c, d),
    ensures
        exists|k: int| 0 <= k < members_of(chs, c, n).len() && #[trigger] members_of(chs, c, n)[k] == d,
    decreases n,
{
    if d < n - 1 {
        lemma_members_contain(chs, c, d, n - 1);
        let k = choose|k: int| 0 <= k < members_of(chs, c, n - 1).len() && #[trigger] members_of(chs, c, n - 1)[k] == d;
        assert(members_of(chs, c, n)[k] == d);
    } else {
        assert(members_of(chs, c, n)[members_of(chs, c, n).len() - 1] == d);
    }
}

/// A transform channel at or before `e` drives the node of `c`: some channel is the
/// node's first.
pub proof fn lemma_first_channel_exists(chs: Seq<Channel>, c: int, e: int)
    requires
        0 <= e < chs.len(),
        same_target(chs, c, e),
    ensures
        exists|f: int| 0 <= f <= e && leads_target(chs, f) && #[trigger] chs[f].target@ == chs[c].target@,
    decreases e,
{
    if exists|d: int| 0 <= d < e && #[trigger] same_target(chs, c, d) {
        let d = choose|d: int| 0 <= d < e && #[trigger] same_target(chs, c, d);
        lemma_first_channel_exists(chs, c, d);
    } else {
        assert forall|d: int| 0 <= d < e implies !#[trigger] same_target(chs, e, d) by {
            assert(!same_target(chs, c, d));
        }
        assert(leads_target(chs, e));
    }
}

/// A position below `n` with the given outcome is listed.
pub proof fn lemma_targets_contain(chs: Seq<Channel>, known: Seq<Seq<char>>, n: int, o: TargetOutcome, c: int)
    requires
        0 <= c < n,
        outcome_of(chs, known, c) == o,
    ensures
        exists|i: int| 0 <= i < targets_with(chs, known, n, o).len() && #[trigger] targets_with(chs, known, n, o)[i] == c,
    decreases n,
{
    if c < n - 1 {
        lemma_targets_contain(chs, known, n - 1, o, c);
        let i = choose|i: int| 0 <= i < targets_with(chs, known, n - 1, o).len() && #[trigger] targets_with(chs, known, n - 1, o)[i] == c;
        assert(targets_with(chs, known, n, o)[i] == c);
    } else {
        assert(targets_with(chs, known, n, o)[targets_with(chs, known, n, o).len() - 1] == c);
    }
}

/// Two first channels of the same node are one channel.
pub proof fn lemma_one_first_channel(chs: Seq<Channel>, c: int, d: int)
    requires
        0 <= c < chs.len(),
        0 <= d < chs.len(),
        leads_target(chs, c),
        leads_target(chs, d),
        chs[c].target@ == chs[d].target@,
    ensures
        c == d,
{
    if c < d {
        assert(same_target(chs, d, c));
    } else if d < c {
        assert(same_target(chs, c, d));
    }
}

/// A node driven by several transform channels, and the plan that composes them.
pub struct ComposedTrack {
    pub target: String,
    /// Positions of the node's transform channels, in document order.
    pub channels: Vec<usize>,
    pub plan: TrackPlan,
}

/// One result per node driven by transform channels, in the order of each node's first
/// channel: an animation where one channel drives it, a composed track where several
/// do, a warning where the node is no joint or a channel's samples are unsound.
pub open spec fn animations_match(
    chs: Seq<Channel>,
    known: Seq<Seq<char>>,
    anims: Seq<Animation>,
    tracks: Seq<ComposedTrack>,
    ws: Seq<Warning>,
) -> bool {
    let n = chs.len() as int;
    let single = targets_with(chs, known, n, TargetOutcome::Single);
    let composed = targets_with(chs, known, n, TargetOutcome::Composed);
    let bad = targets_with(chs, known, n, TargetOutcome::Rejected);
    &&& anims.len() == single.len()
    &&& forall|i: int|
        0 <= i < anims.len() ==> (#[trigger] anims[i]).wf() && animation_of(chs[single[i]], anims[i])
    &&& tracks.len() == composed.len()
    &&& forall|i: int|
        0 <= i < tracks.len() ==> {
            &&& (#[trigger] tracks[i]).target@ == chs[composed[i]].target@
            &&& tracks[i].channels@ == members_of(chs, composed[i], n)
            &&& plan_matches(group_of(chs, composed[i]), tracks[i].plan)
        }
    &&& ws.len() == bad.len()
    &&& forall|i: int| 0 <= i < ws.len() ==> rejection(chs[bad[i]], known, #[trigger] ws[i])
}

/// Makes one result per node driven by transform channels, in the order of each
/// node's first channel: an animation of a node driven by one channel, a composed
/// track of one driven by several, and a warning of one that is no joint of the
/// skeleton or has a channel whose samples are unsound. Channels that drive anything
/// else are passed over.
pub fn extract_animations(channels: &Vec<Channel>, joints: &Vec<Joint>) -> (r: (Vec<Animation>, Vec<ComposedTrack>, Vec<Warning>))
    ensures
        animations_match(channels@, joint_names_of(joints@), r.0@, r.1@, r.2@),
{
    let ghost chs = channels@;
    let ghost known = joint_names_of(joints@);
    let ghost n = channels.len() as int;
    let mut anims: Vec<Animation> = Vec::new();
    let mut tracks: Vec<ComposedTrack> = Vec::new();
    let mut warnings: Vec<Warning> = Vec::new();
    let mut c: usize = 0;
    while c < channels.len()
        invariant
            c <= channels.len(),
            chs == channels@,
            known == joint_names_of(joints@),
            n == channels.len(),
            anims.len() == targets_with(chs, known, c as int, TargetOutcome::Single).len(),
            forall|i: int|
                0 <= i < anims.len() ==> (#[trigger] anims[i]).wf() && animation_of(
                    chs[targets_with(chs, known, c as int, TargetOutcome::Single)[i]],
                    anims[i],
                ),
            tracks.len() == targets_with(chs, known, c as int, TargetOutcome::Composed).len(),
            forall|i: int|
                0 <= i < tracks.len() ==> {
                    let t = targets_with(chs, known, c as int, TargetOutcome::Composed)[i];
                    &&& (#[trigger] tracks[i]).target@ == chs[t].target@
                    &&& tracks[i].channels@ == members_of(chs, t, n)
                    &&& plan_matches(group_of(chs, t), tracks[i].plan)
                },
            warnings.len() == targets_with(chs, known, c as int, TargetOutcome::Rejected).len(),
            forall|i: int|
                0 <= i < warnings.len() ==> rejection(
                    chs[targets_with(chs, known, c as int, TargetOutcome::Rejected)[i]],
                    known,
                    #[trigger] warnings[i],
                ),
        decreases channels.len() - c,
    {
        let ch = &channels[c];
        if ch.output == ChannelOutput::Transform {
            let mut first = true;
            let mut d: usize = 0;
            while d < c && first
                invariant
                    d <= c < channels.len(),
                    chs == channels@,
                    ch == &channels@[c as int],
                    first ==> forall|e: int| 0 <= e < d ==> !#[trigger] same_target(chs, c as int, e),
                    !first ==> d < c && same_target(chs, c as int, d as int),
                decreases c - d + (if first { 1int } else { 0int }),
            {
                if channels[d].output == ChannelOutput::Transform && channels[d].target == ch.target {
                    first = false;
                } else {
                    d = d + 1;
                }
            }
            if first {
                let mut members: Vec<usize> = Vec::new();
                let mut e: usize = 0;
                while e < channels.len()
                    invariant
                        e <= channels.len(),
                        chs == channels@,
                        c < channels.len(),
                        ch == &channels@[c as int],
                        members@ == members_of(chs, c as int, e as int),
                        ch.output == ChannelOutput::Transform,
                        c < e ==> exists|k: int| 0 <= k < members.len() && members[k] == c,
                        forall|k: int|
                            0 <= k < members.len() ==> #[trigger] members[k] < e && same_target(
                                chs,
                                c as int,
                                members[k] as int,
                            ),
                    decreases channels.len() - e,
                {
                    let ghost before = members@;
                    if channels[e].output == ChannelOutput::Transform && channels[e].target == ch.target {
                        members.push(e);
                        assert(members[members.len() - 1] == e);
                    }
                    proof {
                        if c < e {
                            let k = choose|k: int| 0 <= k < before.len() && before[k] == c;
                            assert(members[k] == c);
                        } else if c == e {
                            assert(channels@[e as int].target@ == ch.target@);
                            assert(members[members.len() - 1] == c);
                        }
                    }
                    e = e + 1;
                }
                assert(leads_target(chs, c as int));
                let ghost group = group_of(chs, c as int);
                assert(group == member_channels(channels@, members@));
                if find_joint(joints, &ch.target).is_none() {
                    warnings.push(Warning::UnresolvedJointReference(ch.target.clone()));
                    assert(outcome_of(chs, known, c as int) == TargetOutcome::Rejected);
                } else if members.len() == 1 {
                    let m = members[0];
                    assert(m == c);
                    assert(group[0] == chs[m as int]);
                    match extract_animation(&channels[m], joints) {
                        Ok(a) => {
                            assert(outcome_of(chs, known, c as int) == TargetOutcome::Single);
                            anims.push(a);
                        },
                        Err(w) => {
                            assert(outcome_of(chs, known, c as int) == TargetOutcome::Rejected);
                            warnings.push(w);
                        },
                    }
                } else {
                    match compose_track(channels, &members) {
                        Some(plan) => {
                            assert(outcome_of(chs, known, c as int) == TargetOutcome::Composed);
                            tracks.push(ComposedTrack { target: ch.target.clone(), channels: members, plan });
                        },
                        None => {
                            assert(outcome_of(chs, known, c as int) == TargetOutcome::Rejected);
                            warnings.push(Warning::SampleMismatch(ch.target.clone()));
                        },
                    }
                }
            } else {
                assert(!leads_target(chs, c as int));
            }
        }
        c = c + 1;
    }
    (anims, tracks, warnings)
}

/// Two times have the same key only when they stand for the same number.
pub proof fn lemma_time_key_injective(x: Scalar, y: Scalar)
    ensures
        time_key(x) == time_key(y) ==> canonical_time(x) == canonical_time(y),
{
    let cx = canonical_time(x);
    let cy = canonical_time(y);
    assert((if cx & 0x8000_0000u32 != 0 { !cx } else { cx | 0x8000_0000u32 }) == (if cy & 0x8000_0000u32
        != 0 {
        !cy
    } else {
        cy | 0x8000_0000u32
    }) ==> cx == cy) by (bit_vector);
}

/// The times with negative zero written as positive zero.
pub open spec fn canonical_times(times: Seq<Scalar>) -> Seq<Scalar> {
    times.map_values(|t: Scalar| canonical_time(t))
}

/// No time is written as negative zero.
pub open spec fn is_canonical(times: Seq<Scalar>) -> bool {
    forall|i: int| 0 <= i < times.len() ==> canonical_time(#[trigger] times[i]) == times[i]
}

/// Writes negative zero as positive zero; the order of the times is kept.
pub fn canonicalize(times: &Vec<Scalar>) -> (r: Vec<Scalar>)
    requires
        strictly_increasing(times@),
    ensures
        r@ == canonical_times(times@),
        strictly_increasing(r@),
        is_canonical(r@),
{
    assert(0x8000_0000u32 & 0x7F80_0000u32 != 0x7F80_0000u32) by (bit_vector);
    assert(0u32 & 0x7F80_0000u32 != 0x7F80_0000u32) by (bit_vector);
    let mut out: Vec<Scalar> = Vec::new();
    let mut i: usize = 0;
    while i < times.len()
        invariant
            i <= times.len(),
            strictly_increasing(times@),
            out@ =~= canonical_times(times@).subrange(0, i as int),
            !is_nan(0x8000_0000u32),
            !is_nan(0u32),
        decreases times.len() - i,
    {
        let t = times[i];
        out.push(if t == 0x8000_0000u32 {
            0u32
        } else {
            t
        });
        i = i + 1;
    }
    assert(out@ =~= canonical_times(times@));
    assert(forall|k: int| 0 <= k < out.len() - 1 ==> time_key(#[trigger] out@[k]) == time_key(times@[k]) && time_key(out@[k + 1]) == time_key(times@[k + 1]));
    out
}

/// In strictly increasing times, every earlier time comes before every later one.
pub proof fn lemma_increasing_all(times: Seq<Scalar>, p: int, q: int)
    requires
        strictly_increasing(times),
        0 <= p < q < times.len(),
    ensures
        time_key(times[p]) < time_key(times[q]),
    decreases q - p,
{
    if p + 1 < q {
        lemma_increasing_all(times, p + 1, q);
    }
    assert(time_key(times[p]) < time_key(times[p + 1]));
}

/// The times of two tracks together, each once, in increasing order: the times at
/// which a track composed of both is sampled.
pub fn merge_times(a: &Vec<Scalar>, b: &Vec<Scalar>) -> (r: Vec<Scalar>)
    requires
        strictly_increasing(a@),
        strictly_increasing(b@),
        is_canonical(a@),
        is_canonical(b@),
    ensures
        strictly_increasing(r@),
        is_canonical(r@),
        forall|x: Scalar| r@.contains(x) <==> (a@.contains(x) || b@.contains(x)),
{
    let mut out: Vec<Scalar> = Vec::new();
    let mut i: usize = 0;
    let mut j: usize = 0;
    while i < a.len() || j < b.len()
        invariant
            i <= a.len(),
            j <= b.len(),
            strictly_increasing(a@),
            strictly_increasing(b@),
            is_canonical(a@),
            is_canonical(b@),
            strictly_increasing(out@),
            is_canonical(out@),
            out.len() > 0 && i < a.len() ==> time_key(out@.last()) < time_key(a@[i as int]),
            out.len() > 0 && j < b.len() ==> time_key(out@.last()) < time_key(b@[j as int]),
            forall|x: Scalar|
                out@.contains(x) <==> (a@.subrange(0, i as int).contains(x) || b@.subrange(0, j as int).contains(x)),
        decreases a.len() + b.len() - i - j,
    {
        let ghost old_out = out@;
        let ghost (oi, oj) = (i as int, j as int);
        let take_a = i < a.len() && (j == b.len() || time_order_key(a[i]) <= time_order_key(b[j]));
        let v = if take_a {
            a[i]
        } else {
            b[j]
        };
        if take_a {
            if j < b.len() && time_order_key(a[i]) == time_order_key(b[j]) {
                proof {
                    lemma_time_key_injective(a@[i as int], b@[j as int]);
                }
                j = j + 1;
            }
            i = i + 1;
        } else {
            j = j + 1;
        }
        out.push(v);
        proof {
            assert(out@ == old_out.push(v));
            if oi < a.len() {
                assert(a@.subrange(0, oi + 1) =~= a@.subrange(0, oi).push(a@[oi]));
            }
            if oj < b.len() {
                assert(b@.subrange(0, oj + 1) =~= b@.subrange(0, oj).push(b@[oj]));
            }
            assert forall|x: Scalar| out@.contains(x) <==> (a@.subrange(0, i as int).contains(x) || b@.subrange(
                0,
                j as int,
            ).contains(x)) by {
                if out@.contains(x) && !old_out.contains(x) {
                    let k = choose|k: int| 0 <= k < out@.len() && out@[k] == x;
                    assert(k == old_out.len());
                }
                if old_out.contains(x) {
                    let k = choose|k: int| 0 <= k < old_out.len() && old_out[k] == x;
                    assert(out@[k] == x);
                }
                if x == v {
                    assert(out@[old_out.len() as int] == x);
                }
                if a@.subrange(0, i as int).contains(x) && !a@.subrange(0, oi).contains(x) {
                    let k = choose|k: int| 0 <= k < i && a@.subrange(0, i as int)[k] == x;
                    assert(k == oi);
                }
                if b@.subrange(0, j as int).contains(x) && !b@.subrange(0, oj).contains(x) {
                    let k = choose|k: int| 0 <= k < j && b@.subrange(0, j as int)[k] == x;
                    assert(k == oj);
                }
                if a@.subrange(0, oi).contains(x) {
                    let k = choose|k: int| 0 <= k < oi && a@.subrange(0, oi)[k] == x;
                    assert(a@.subrange(0, i as int)[k] == x);
                }
                if b@.subrange(0, oj).contains(x) {
                    let k = choose|k: int| 0 <= k < oj && b@.subrange(0, oj)[k] == x;
                    assert(b@.subrange(0, j as int)[k] == x);
                }
                if i as int > oi {
                    assert(a@.subrange(0, i as int)[oi] == a@[oi]);
                }
                if j as int > oj {
                    assert(b@.subrange(0, j as int)[oj] == b@[oj]);
                }
            }
            if i < a.len() {
                if i as int > oi {
                    lemma_increasing_all(a@, oi, i as int);
                }
            }
            if j < b.len() {
                if j as int > oj {
                    lemma_increasing_all(b@, oj, j as int);
                }
            }
        }
    }
    proof {
        assert(a@.subrange(0, a.len() as int) =~= a@);
        assert(b@.subrange(0, b.len() as int) =~= b@);
    }
    out
}

/// Where a time falls among the samples of one channel.
#[derive(Clone, Copy, Debug, PartialEq, Eq, Structural)]
pub enum SamplePoint {
    /// On the sample at this position (the same number of seconds).
    At(usize),
    /// Strictly between the sample at this position and the next one.
    Between(usize),
    /// Before the first sample.
    BeforeFirst,
    /// After the last sample.
    AfterLast,
    /// The channel has no samples.
    NoSamples,
}

/// `p` says where `t` falls among `times`.
pub open spec fn point_of(times: Seq<Scalar>, t: Scalar, p: SamplePoint) -> bool {
    match p {
        SamplePoint::At(k) => k < times.len() && time_key(times[k as int]) == time_key(t),
        SamplePoint::Between(k) => k + 1 < times.len() && time_key(times[k as int]) < time_key(t) && time_key(t)
            < time_key(times[k + 1]),
        SamplePoint::BeforeFirst => times.len() > 0 && time_key(t) < time_key(times[0]),
        SamplePoint::AfterLast => times.len() > 0 && time_key(times[times.len() - 1]) < time_key(t),
        SamplePoint::NoSamples => times.len() == 0,
    }
}

/// Finds where `t` falls among strictly increasing sample times: on a sample, between
/// two, or outside them all.
pub fn locate_sample(times: &Vec<Scalar>, t: Scalar) -> (r: SamplePoint)
    requires
        strictly_increasing(times@),
    ensures
        point_of(times@, t, r),
{
    if times.len() == 0 {
        return SamplePoint::NoSamples;
    }
    let key = time_order_key(t);
    if key < time_order_key(times[0]) {
        return SamplePoint::BeforeFirst;
    }
    let mut k: usize = 0;
    while k < times.len()
        invariant
            k < times.len(),
            strictly_increasing(times@),
            key == time_key(t),
            time_key(times@[k as int]) <= key,
        decreases times.len() - k,
    {
        if time_order_key(times[k]) == key {
            return SamplePoint::At(k);
        }
        if k + 1 == times.len() {
            return SamplePoint::AfterLast;
        }
        if key < time_order_key(times[k + 1]) {
            return SamplePoint::Between(k);
        }
        k = k + 1;
    }
    SamplePoint::AfterLast
}

/// The plan of a track composed of several channels of one node (a translation, a
/// rotation, a scale): the times of all of them together, and where each time falls
/// among each channel's own samples, from which the caller interpolates.
pub struct TrackPlan {
    pub sample_times: Vec<Scalar>,
    /// For each channel, one point per entry of `sample_times`.
    pub points: Vec<Vec<SamplePoint>>,
}

/// The channels at the given positions.
pub open spec fn member_channels(chs: Seq<Channel>, members: Seq<usize>) -> Seq<Channel> {
    Seq::new(members.len(), |k: int| chs[members[k] as int])
}

/// Some channel among the first `n` has this time (with zero written positive).
pub open spec fn some_channel_has(parts: Seq<Channel>, n: int, x: Scalar) -> bool {
    exists|c: int| 0 <= c < n && canonical_times((#[trigger] parts[c]).times@).contains(x)
}

/// `plan` composes the channels: it is sampled at every time that any of them has, each
/// once and in increasing order, and says where each such time falls in each channel.
pub open spec fn plan_matches(parts: Seq<Channel>, plan: TrackPlan) -> bool {
    &&& strictly_increasing(plan.sample_times@)
    &&& is_canonical(plan.sample_times@)
    &&& forall|x: Scalar| plan.sample_times@.contains(x) <==> some_channel_has(parts, parts.len() as int, x)
    &&& plan.points.len() == parts.len()
    &&& forall|c: int|
        0 <= c < parts.len() ==> (#[trigger] plan.points[c]).len() == plan.sample_times.len() && forall|i: int|
            0 <= i < plan.sample_times.len() ==> point_of(
                parts[c].times@,
                plan.sample_times[i],
                #[trigger] plan.points[c][i],
            )
}

/// Plans the composition of the channels at positions `members` (channels of one
/// node) into one track, sampled at every time that any of them has. `None` when a
/// channel's times do not rise strictly or do not match its poses in number.
pub fn compose_track(channels: &Vec<Channel>, members: &Vec<usize>) -> (r: Option<TrackPlan>)
    requires
        forall|k: int| 0 <= k < members.len() ==> #[trigger] members[k] < channels.len(),
    ensures
        r is None <==> exists|c: int|
            0 <= c < members.len() && !samples_ok(#[trigger] member_channels(channels@, members@)[c]),
        r matches Some(plan) ==> plan_matches(member_channels(channels@, members@), plan),
{
    let ghost parts = member_channels(channels@, members@);
    let mut times: Vec<Scalar> = Vec::new();
    let mut c: usize = 0;
    while c < members.len()
        invariant
            c <= members.len(),
            parts == member_channels(channels@, members@),
            forall|k: int| 0 <= k < members.len() ==> #[trigger] members[k] < channels.len(),
            strictly_increasing(times@),
            is_canonical(times@),
            forall|d: int| 0 <= d < c ==> samples_ok(#[trigger] parts[d]),
            forall|x: Scalar| times@.contains(x) <==> some_channel_has(parts, c as int, x),
        decreases members.len() - c,
    {
        let part = &channels[members[c]];
        assert(parts[c as int] == *part);
        if part.times.len() != part.poses.len() || !times_increasing(&part.times) {
            return None;
        }
        let ct = canonicalize(&part.times);
        let merged = merge_times(&times, &ct);
        proof {
            assert forall|x: Scalar| merged@.contains(x) <==> some_channel_has(parts, c + 1, x) by {
                if some_channel_has(parts, c + 1, x) {
                    let d = choose|d: int| 0 <= d < c + 1 && canonical_times((#[trigger] parts[d]).times@).contains(x);
                    if d < c {
                        assert(some_channel_has(parts, c as int, x));
                    }
                }
                if times@.contains(x) {
                    let d = choose|d: int| 0 <= d < c && canonical_times((#[trigger] parts[d]).times@).contains(x);
                    assert(canonical_times(parts[d].times@).contains(x));
                }
                if ct@.contains(x) {
                    assert(canonical_times(parts[c as int].times@).contains(x));
                }
            }
        }
        times = merged;
        c = c + 1;
    }
    let mut points: Vec<Vec<SamplePoint>> = Vec::new();
    let mut c: usize = 0;
    while c < members.len()
        invariant
            c <= members.len(),
            parts == member_channels(channels@, members@),
            forall|k: int| 0 <= k < members.len() ==> #[trigger] members[k] < channels.len(),
            forall|d: int| 0 <= d < members.len() ==> samples_ok(#[trigger] parts[d]),
            points.len() == c,
            forall|d: int|
                0 <= d < c ==> (#[trigger] points[d]).len() == times.len() && forall|i: int|
                    0 <= i < times.len() ==> point_of(parts[d].times@, times[i], #[trigger] points[d][i]),
        decreases members.len() - c,
    {
        let part = &channels[members[c]];
        assert(parts[c as int] == *part);
        assert(samples_ok(parts[c as int]));
        let mut row: Vec<SamplePoint> = Vec::new();
        let mut i: usize = 0;
        while i < times.len()
            invariant
                i <= times.len(),
                strictly_increasing(part.times@),
                row.len() == i,
                forall|k: int| 0 <= k < i ==> point_of(part.times@, times[k], #[trigger] row[k]),
            decreases times.len() - i,
        {
            row.push(locate_sample(&part.times, times[i]));
            i = i + 1;
        }
        points.push(row);
        c = c + 1;
    }
    Some(TrackPlan { sample_times: times, points })
}

} // verus!
