use collada::animation::{compose_track, locate_sample, merge_times, SamplePoint};
use collada::document::{Channel, ChannelOutput};
use collada::{mat4_id, Scalar};

fn times(ts: &[f32]) -> Vec<Scalar> {
    ts.iter().map(|t| t.to_bits()).collect()
}

fn part(target: &str, ts: &[f32], n_poses: usize) -> Channel {
    Channel {
        target: target.to_string(),
        output: ChannelOutput::Transform,
        times: times(ts),
        poses: (0..n_poses).map(|_| mat4_id()).collect(),
    }
}

#[test]
fn merged_times_are_sorted_and_unique() {
    let a = times(&[0.0, 0.5, 1.0]);
    let b = times(&[-0.5, 0.5, 0.75, 2.0]);
    assert_eq!(merge_times(&a, &b), times(&[-0.5, 0.0, 0.5, 0.75, 1.0, 2.0]));
    assert_eq!(merge_times(&a, &vec![]), a);
    assert_eq!(merge_times(&vec![], &vec![]), Vec::<Scalar>::new());
}

#[test]
fn samples_are_located() {
    let ts = times(&[0.0, 0.5, 1.0]);
    assert_eq!(locate_sample(&ts, 0.5f32.to_bits()), SamplePoint::At(1));
    assert_eq!(locate_sample(&ts, 0.25f32.to_bits()), SamplePoint::Between(0));
    assert_eq!(locate_sample(&ts, 0.75f32.to_bits()), SamplePoint::Between(1));
    assert_eq!(locate_sample(&ts, (-1.0f32).to_bits()), SamplePoint::BeforeFirst);
    assert_eq!(locate_sample(&ts, 3.0f32.to_bits()), SamplePoint::AfterLast);
    assert_eq!(locate_sample(&vec![], 3.0f32.to_bits()), SamplePoint::NoSamples);
    assert_eq!(locate_sample(&ts, (-0.0f32).to_bits()), SamplePoint::At(0));
}

#[test]
fn track_of_two_channels() {
    let parts = vec![part("Hips", &[0.0, 1.0], 2), part("Hips", &[0.5], 1)];
    let plan = compose_track(&parts, &vec![0, 1]).unwrap();
    assert_eq!(plan.sample_times, times(&[0.0, 0.5, 1.0]));
    assert_eq!(plan.points[0], vec![SamplePoint::At(0), SamplePoint::Between(0), SamplePoint::At(1)]);
    assert_eq!(plan.points[1], vec![SamplePoint::BeforeFirst, SamplePoint::At(0), SamplePoint::AfterLast]);
}

#[test]
fn track_with_mismatched_channel() {
    let parts = vec![part("Hips", &[0.0, 1.0], 2), part("Hips", &[0.0, 0.5, 1.0], 2)];
    assert!(compose_track(&parts, &vec![0, 1]).is_none());
    let unsorted = vec![part("Hips", &[1.0, 0.0], 2)];
    assert!(compose_track(&unsorted, &vec![0]).is_none());
}

#[test]
fn track_of_chosen_channels() {
    let parts = vec![part("Hips", &[0.0, 1.0], 2), part("Spine", &[0.2], 1), part("Hips", &[-0.0, 2.0], 2)];
    let plan = compose_track(&parts, &vec![0, 2]).unwrap();
    assert_eq!(plan.sample_times, times(&[0.0, 1.0, 2.0]));
    assert_eq!(plan.points[1], vec![SamplePoint::At(0), SamplePoint::Between(0), SamplePoint::At(1)]);
}
