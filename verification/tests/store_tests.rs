use rustros_tf::buffer::{StampedTransformPlan, TfBuffer, TimeTravelPlan};
use rustros_tf::chain::{TfIndividualTransformChain, TransformSample};
use rustros_tf::error::TfError;
use rustros_tf::msg::{Duration, Header, Quaternion, TFMessage, Time, Transform, TransformStamped, Vector3};
use rustros_tf::utils::get_inverse;

// ---- A small rigid-transform math layer over the plans the store returns.
// The store carries scalar components as f64 bit patterns and never does
// numeric work; these helpers realize its answers into numbers.

#[derive(Clone, Copy, Debug)]
struct RealTransform {
    // rotation quaternion
    qx: f64,
    qy: f64,
    qz: f64,
    qw: f64,
    // translation
    tx: f64,
    ty: f64,
    tz: f64,
}

fn identity() -> RealTransform {
    RealTransform { qx: 0.0, qy: 0.0, qz: 0.0, qw: 1.0, tx: 0.0, ty: 0.0, tz: 0.0 }
}

fn rotate(q: &RealTransform, x: f64, y: f64, z: f64) -> (f64, f64, f64) {
    // v' = v + 2 * r x (r x v + w v), with r the quaternion's vector part
    let (rx, ry, rz, w) = (q.qx, q.qy, q.qz, q.qw);
    let cx = ry * z - rz * y + w * x;
    let cy = rz * x - rx * z + w * y;
    let cz = rx * y - ry * x + w * z;
    (
        x + 2.0 * (ry * cz - rz * cy),
        y + 2.0 * (rz * cx - rx * cz),
        z + 2.0 * (rx * cy - ry * cx),
    )
}

fn compose(a: &RealTransform, b: &RealTransform) -> RealTransform {
    let (bx, by, bz) = rotate(a, b.tx, b.ty, b.tz);
    RealTransform {
        qx: a.qw * b.qx + a.qx * b.qw + a.qy * b.qz - a.qz * b.qy,
        qy: a.qw * b.qy - a.qx * b.qz + a.qy * b.qw + a.qz * b.qx,
        qz: a.qw * b.qz + a.qx * b.qy - a.qy * b.qx + a.qz * b.qw,
        qw: a.qw * b.qw - a.qx * b.qx - a.qy * b.qy - a.qz * b.qz,
        tx: a.tx + bx,
        ty: a.ty + by,
        tz: a.tz + bz,
    }
}

fn invert(t: &RealTransform) -> RealTransform {
    let conj = RealTransform { qx: -t.qx, qy: -t.qy, qz: -t.qz, qw: t.qw, tx: 0.0, ty: 0.0, tz: 0.0 };
    let (ix, iy, iz) = rotate(&conj, -t.tx, -t.ty, -t.tz);
    RealTransform { qx: conj.qx, qy: conj.qy, qz: conj.qz, qw: conj.qw, tx: ix, ty: iy, tz: iz }
}

fn realize_raw(tf: &Transform) -> RealTransform {
    let raw = RealTransform {
        qx: f64::from_bits(tf.rotation.x),
        qy: f64::from_bits(tf.rotation.y),
        qz: f64::from_bits(tf.rotation.z),
        qw: f64::from_bits(tf.rotation.w),
        tx: f64::from_bits(tf.translation.x),
        ty: f64::from_bits(tf.translation.y),
        tz: f64::from_bits(tf.translation.z),
    };
    if tf.inverted { invert(&raw) } else { raw }
}

// linear blend with normalized rotation; `w1` goes to `a`
fn blend(a: &RealTransform, b: &RealTransform, w1: f64) -> RealTransform {
    let w2 = 1.0 - w1;
    let (qx, qy, qz, qw) = (
        a.qx * w1 + b.qx * w2,
        a.qy * w1 + b.qy * w2,
        a.qz * w1 + b.qz * w2,
        a.qw * w1 + b.qw * w2,
    );
    let norm = (qx * qx + qy * qy + qz * qz + qw * qw).sqrt();
    RealTransform {
        qx: qx / norm,
        qy: qy / norm,
        qz: qz / norm,
        qw: qw / norm,
        tx: a.tx * w1 + b.tx * w2,
        ty: a.ty * w1 + b.ty * w2,
        tz: a.tz * w1 + b.tz * w2,
    }
}

fn realize_sample(s: &TransformSample) -> RealTransform {
    match s {
        TransformSample::Exact(t) => realize_raw(&t.transform),
        TransformSample::Interpolated { first, second, numer, denom } => {
            let alpha = *numer as f64 / *denom as f64;
            blend(&realize_raw(&first.transform), &realize_raw(&second.transform), 1.0 - alpha)
        }
    }
}

fn realize_steps(steps: &[TransformSample]) -> RealTransform {
    let mut acc = identity();
    for s in steps {
        let r = realize_sample(s);
        acc = compose(&acc, &r);
    }
    acc
}

fn realize_plan(plan: &StampedTransformPlan) -> RealTransform {
    realize_steps(&plan.steps)
}

fn realize_time_travel(plan: &TimeTravelPlan) -> RealTransform {
    let target = realize_steps(&plan.target_steps);
    let source = realize_steps(&plan.source_steps);
    compose(&target, &invert(&source))
}

fn assert_close(a: &RealTransform, b: &RealTransform) {
    assert!((a.qx - b.qx).abs() < 1e-9);
    assert!((a.qy - b.qy).abs() < 1e-9);
    assert!((a.qz - b.qz).abs() < 1e-9);
    assert!((a.qw - b.qw).abs() < 1e-9);
    assert!((a.tx - b.tx).abs() < 1e-9);
    assert!((a.ty - b.ty).abs() < 1e-9);
    assert!((a.tz - b.tz).abs() < 1e-9);
}

// ---- Builders.

fn bits(v: f64) -> u64 {
    v.to_bits()
}

fn stamped(parent: &str, child: &str, stamp: Time, x: f64, y: f64, z: f64) -> TransformStamped {
    TransformStamped {
        header: Header { seq: 1, stamp, frame_id: parent.to_string() },
        child_frame_id: child.to_string(),
        transform: Transform {
            rotation: Quaternion { x: bits(0.0), y: bits(0.0), z: bits(0.0), w: bits(1.0) },
            translation: Vector3 { x: bits(x), y: bits(y), z: bits(z) },
            inverted: false,
        },
    }
}

fn ingest_one(buffer: &mut TfBuffer, t: TransformStamped, is_static: bool) {
    buffer.handle_incoming_transforms(TFMessage { transforms: vec![t] }, is_static);
}

/// The tree used by the scenarios: an `item` fixed at (1,0,0) in `world`, a
/// robot `base_link` at (0,t,0) at time t, and a `camera` at (0.5,0,0) from
/// the base.
fn build_test_tree(buffer: &mut TfBuffer, time: f64) {
    let nsecs = ((time - ((time.floor() as i64) as f64)) * 1E9) as u32;
    let stamp = Time { sec: time.floor() as u32, nsec: nsecs };

    ingest_one(buffer, stamped("world", "item", stamp, 1.0, 0.0, 0.0), true);
    ingest_one(buffer, stamped("world", "base_link", stamp, 0.0, time, 0.0), false);
    ingest_one(buffer, stamped("base_link", "camera", stamp, 0.5, 0.0, 0.0), true);
}

// ---- The scenarios.

#[test]
fn test_basic_tf_lookup() {
    let mut tf_buffer = TfBuffer::new();
    build_test_tree(&mut tf_buffer, 0f64);
    let res = tf_buffer.lookup_transform("camera", "item", Time { sec: 0, nsec: 0 });
    let plan = res.unwrap();
    assert_eq!(plan.frame_id, "camera".to_string());
    assert_eq!(plan.child_frame_id, "item".to_string());
    assert_eq!(plan.stamp, Time { sec: 0, nsec: 0 });
    assert_eq!(plan.seq, 1);
    let got = realize_plan(&plan);
    let expected = RealTransform { tx: 0.5, ty: 0.0, tz: 0.0, ..identity() };
    assert_eq!(got.tx, expected.tx);
    assert_eq!(got.ty, expected.ty);
    assert_eq!(got.tz, expected.tz);
    assert_eq!(got.qx, 0.0);
    assert_eq!(got.qy, 0.0);
    assert_eq!(got.qz, 0.0);
    assert_eq!(got.qw, 1.0);
}

#[test]
fn test_basic_tf_interpolation() {
    let mut tf_buffer = TfBuffer::new();
    build_test_tree(&mut tf_buffer, 0f64);
    build_test_tree(&mut tf_buffer, 1f64);
    let res = tf_buffer.lookup_transform("camera", "item", Time { sec: 0, nsec: 700_000_000 });
    let plan = res.unwrap();
    assert_eq!(plan.frame_id, "camera".to_string());
    assert_eq!(plan.child_frame_id, "item".to_string());
    assert_eq!(plan.stamp, Time { sec: 0, nsec: 700_000_000 });
    let got = realize_plan(&plan);
    assert_eq!(got.tx, 0.5);
    assert_eq!(got.ty, -0.7);
    assert_eq!(got.tz, 0.0);
    assert_eq!(got.qw, 1.0);
}

#[test]
fn test_basic_tf_timetravel() {
    let mut tf_buffer = TfBuffer::new();
    build_test_tree(&mut tf_buffer, 0f64);
    build_test_tree(&mut tf_buffer, 1f64);
    let res = tf_buffer.lookup_transform_with_time_travel(
        "camera",
        Time { sec: 0, nsec: 400_000_000 },
        "camera",
        Time { sec: 0, nsec: 700_000_000 },
        "item",
        Duration { sec: 0, nsec: 700_000_000 },
    );
    let plan = res.unwrap();
    assert_eq!(plan.frame_id, "camera".to_string());
    assert_eq!(plan.child_frame_id, "camera".to_string());
    assert_eq!(plan.stamp, Time { sec: 0, nsec: 700_000_000 });
    assert_eq!(plan.seq, 0);
    let got = realize_time_travel(&plan);
    let expected = RealTransform { tx: 0.0, ty: 0.3, tz: 0.0, ..identity() };
    assert_close(&got, &expected);
}

// ---- Ingestion records each relationship together with its inverse.

#[test]
fn inverse_relationship_is_recorded() {
    let mut buffer = TfBuffer::new();
    build_test_tree(&mut buffer, 0f64);
    let forward = buffer.lookup_transform("world", "item", Time { sec: 0, nsec: 0 }).unwrap();
    let backward = buffer.lookup_transform("item", "world", Time { sec: 0, nsec: 0 }).unwrap();
    let expected = invert(&realize_plan(&forward));
    assert_close(&realize_plan(&backward), &expected);
}

#[test]
fn get_inverse_swaps_frames_and_marks_inversion() {
    let t = stamped("world", "item", Time { sec: 3, nsec: 5 }, 1.0, 2.0, 3.0);
    let inv = get_inverse(t.clone());
    assert_eq!(inv.header.frame_id, "item".to_string());
    assert_eq!(inv.child_frame_id, "world".to_string());
    assert_eq!(inv.header.stamp, t.header.stamp);
    assert!(inv.transform.inverted);
    assert_eq!(inv.transform.translation, t.transform.translation);
    let expected = invert(&realize_raw(&t.transform));
    assert_close(&realize_raw(&inv.transform), &expected);
}

// ---- A lookup from a frame to itself is the identity.

#[test]
fn self_lookup_is_identity() {
    let mut buffer = TfBuffer::new();
    build_test_tree(&mut buffer, 0f64);
    let plan = buffer.lookup_transform("camera", "camera", Time { sec: 7, nsec: 0 }).unwrap();
    assert_eq!(plan.steps.len(), 0);
    let got = realize_plan(&plan);
    assert_close(&got, &identity());
}

// ---- Static and dynamic buffers.

#[test]
fn static_chain_returns_latest_for_any_time() {
    let mut chain = TfIndividualTransformChain::new(true);
    chain.add_to_buffer(stamped("a", "b", Time { sec: 10, nsec: 0 }, 1.0, 0.0, 0.0));
    chain.add_to_buffer(stamped("a", "b", Time { sec: 20, nsec: 0 }, 2.0, 0.0, 0.0));
    for query in [Time { sec: 0, nsec: 0 }, Time { sec: 15, nsec: 0 }, Time { sec: 99, nsec: 0 }] {
        match chain.get_closest_transform(query).unwrap() {
            TransformSample::Exact(t) => {
                assert_eq!(t.header.stamp, Time { sec: 20, nsec: 0 });
                assert_eq!(f64::from_bits(t.transform.translation.x), 2.0);
            }
            other => panic!("static chain interpolated: {:?}", other),
        }
    }
}

#[test]
fn static_chain_equal_stamps_latest_insert_wins() {
    let mut chain = TfIndividualTransformChain::new(true);
    chain.add_to_buffer(stamped("a", "b", Time { sec: 5, nsec: 0 }, 1.0, 0.0, 0.0));
    chain.add_to_buffer(stamped("a", "b", Time { sec: 5, nsec: 0 }, 2.0, 0.0, 0.0));
    match chain.get_closest_transform(Time { sec: 0, nsec: 0 }).unwrap() {
        TransformSample::Exact(t) => assert_eq!(f64::from_bits(t.transform.translation.x), 2.0),
        other => panic!("static chain interpolated: {:?}", other),
    }
}

#[test]
fn dynamic_chain_exact_match_returns_sample_unchanged() {
    let mut chain = TfIndividualTransformChain::new(false);
    let s = stamped("a", "b", Time { sec: 10, nsec: 0 }, 1.0, 2.0, 3.0);
    chain.add_to_buffer(s.clone());
    chain.add_to_buffer(stamped("a", "b", Time { sec: 20, nsec: 0 }, 9.0, 9.0, 9.0));
    match chain.get_closest_transform(Time { sec: 10, nsec: 0 }).unwrap() {
        TransformSample::Exact(t) => assert_eq!(t, s),
        other => panic!("expected the stored sample, got {:?}", other),
    }
}

#[test]
fn empty_dynamic_chain_fails_in_past() {
    let chain = TfIndividualTransformChain::new(false);
    let err = chain.get_closest_transform(Time { sec: 1, nsec: 0 }).unwrap_err();
    assert_eq!(err, TfError::AttemptedLookupInPast);
}

#[test]
fn empty_static_chain_finds_nothing() {
    let chain = TfIndividualTransformChain::new(true);
    let err = chain.get_closest_transform(Time { sec: 1, nsec: 0 }).unwrap_err();
    assert_eq!(err, TfError::CouldNotFindTransform);
}

#[test]
fn placeholder_operations_hand_input_back() {
    let buffer = TfBuffer::new();
    let value: u32 = 7;
    let out: u32 = 0;
    assert_eq!(*buffer.transform_to_output(&value, &out, "item", None), 7);
    assert_eq!(buffer.transform_from_input(vec![1, 2, 3], "item", None), vec![1, 2, 3]);
}

#[test]
fn dynamic_chain_before_earliest_fails_in_past() {
    let mut chain = TfIndividualTransformChain::new(false);
    chain.add_to_buffer(stamped("a", "b", Time { sec: 10, nsec: 0 }, 1.0, 0.0, 0.0));
    let err = chain.get_closest_transform(Time { sec: 9, nsec: 999_999_999 }).unwrap_err();
    assert_eq!(err, TfError::AttemptedLookupInPast);
}

#[test]
fn dynamic_chain_after_latest_fails_in_future() {
    let mut chain = TfIndividualTransformChain::new(false);
    chain.add_to_buffer(stamped("a", "b", Time { sec: 10, nsec: 0 }, 1.0, 0.0, 0.0));
    let err = chain.get_closest_transform(Time { sec: 10, nsec: 1 }).unwrap_err();
    assert_eq!(err, TfError::AttemptedLookupInFuture);
}

#[test]
fn dynamic_chain_interpolates_between_samples() {
    let mut chain = TfIndividualTransformChain::new(false);
    chain.add_to_buffer(stamped("a", "b", Time { sec: 10, nsec: 0 }, 0.0, 0.0, 0.0));
    chain.add_to_buffer(stamped("a", "b", Time { sec: 14, nsec: 0 }, 8.0, 0.0, 0.0));
    match chain.get_closest_transform(Time { sec: 11, nsec: 0 }).unwrap() {
        TransformSample::Interpolated { first, second, numer, denom } => {
            assert_eq!(first.header.stamp, Time { sec: 10, nsec: 0 });
            assert_eq!(second.header.stamp, Time { sec: 14, nsec: 0 });
            assert_eq!(numer, 1_000_000_000);
            assert_eq!(denom, 4_000_000_000);
            let got = realize_sample(&TransformSample::Interpolated { first, second, numer, denom });
            assert_eq!(got.tx, 2.0);
        }
        other => panic!("expected interpolation, got {:?}", other),
    }
}

// ---- Capacity: more than 100 samples keep 100, the first slot drops.

#[test]
fn over_one_hundred_samples_drop_the_oldest() {
    let mut chain = TfIndividualTransformChain::new(false);
    for i in 0..101u32 {
        chain.add_to_buffer(stamped("a", "b", Time { sec: i, nsec: 0 }, i as f64, 0.0, 0.0));
    }
    // the sample at second 0 was evicted: the stored range now starts at 1
    let err = chain.get_closest_transform(Time { sec: 0, nsec: 500 }).unwrap_err();
    assert_eq!(err, TfError::AttemptedLookupInPast);
    match chain.get_closest_transform(Time { sec: 1, nsec: 0 }).unwrap() {
        TransformSample::Exact(t) => assert_eq!(t.header.stamp, Time { sec: 1, nsec: 0 }),
        other => panic!("expected the second sample to survive, got {:?}", other),
    }
    match chain.get_closest_transform(Time { sec: 100, nsec: 0 }).unwrap() {
        TransformSample::Exact(t) => assert_eq!(t.header.stamp, Time { sec: 100, nsec: 0 }),
        other => panic!("expected the newest sample, got {:?}", other),
    }
}

// ---- Unconnected frames.

#[test]
fn lookup_between_unconnected_frames_fails() {
    let mut buffer = TfBuffer::new();
    ingest_one(&mut buffer, stamped("a", "b", Time { sec: 0, nsec: 0 }, 1.0, 0.0, 0.0), true);
    ingest_one(&mut buffer, stamped("c", "d", Time { sec: 0, nsec: 0 }, 1.0, 0.0, 0.0), true);
    let err = buffer.lookup_transform("a", "d", Time { sec: 0, nsec: 0 }).unwrap_err();
    assert_eq!(err, TfError::CouldNotFindTransform);
    let err = buffer.lookup_transform("a", "nowhere", Time { sec: 0, nsec: 0 }).unwrap_err();
    assert_eq!(err, TfError::CouldNotFindTransform);
}

#[test]
fn lookup_error_propagates_out_of_range_times() {
    let mut buffer = TfBuffer::new();
    build_test_tree(&mut buffer, 1f64);
    build_test_tree(&mut buffer, 2f64);
    let err = buffer.lookup_transform("camera", "item", Time { sec: 0, nsec: 0 }).unwrap_err();
    assert_eq!(err, TfError::AttemptedLookupInPast);
    let err = buffer.lookup_transform("camera", "item", Time { sec: 3, nsec: 0 }).unwrap_err();
    assert_eq!(err, TfError::AttemptedLookupInFuture);
}

// ---- The declared capability probes.

#[test]
fn can_transform_reports_connectivity() {
    let mut buffer = TfBuffer::new();
    build_test_tree(&mut buffer, 0f64);
    let timeout = Duration { sec: 0, nsec: 0 };
    assert_eq!(buffer.can_transform("item", "camera", Time { sec: 0, nsec: 0 }, timeout), Ok(true));
    assert_eq!(buffer.can_transform("ghost", "camera", Time { sec: 0, nsec: 0 }, timeout), Ok(false));
    assert_eq!(
        buffer.can_transform_with_time_travel(
            "camera",
            Time { sec: 0, nsec: 0 },
            "camera",
            Time { sec: 0, nsec: 0 },
            "item",
            timeout,
        ),
        Ok(true)
    );
}

#[test]
fn time_and_error_helpers() {
    let a = Time { sec: 2, nsec: 500_000_000 };
    let b = Time { sec: 1, nsec: 0 };
    assert_eq!(a.as_nanos(), 2_500_000_000);
    assert_eq!(a.nanos_since(&b), 1_500_000_000);
    assert_eq!(b.nanos_since(&a), -1_500_000_000);
    assert_eq!(TfError::CouldNotFindTransform.describe(), "could not find transform");
    assert_eq!(TfError::AttemptedLookupInPast.describe(), "attempted lookup in past");
    assert_eq!(TfError::AttemptedLookupInFuture.describe(), "attempted lookup in future");
    assert_eq!(TfError::InternalInconsistency.describe(), "internal inconsistency");
}
