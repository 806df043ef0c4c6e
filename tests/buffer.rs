use rustros_tf::{
    get_inverse, Closest, StampedTransform, TfBuffer, TfError, Time, TransformUpdate,
};

/// A rigid transform as the tests see it: translation plus unit quaternion.
#[derive(Clone, Copy, Debug, PartialEq)]
struct Pose {
    translation: [f64; 3],
    rotation: [f64; 4],
}

const IDENTITY_ROTATION: [f64; 4] = [0.0, 0.0, 0.0, 1.0];

fn translation(x: f64, y: f64, z: f64) -> Pose {
    Pose { translation: [x, y, z], rotation: IDENTITY_ROTATION }
}

/// The inverse of a pure translation.
fn inverse_translation(p: &Pose) -> Pose {
    assert_eq!(p.rotation, IDENTITY_ROTATION);
    translation(-p.translation[0], -p.translation[1], -p.translation[2])
}

/// Resolves one edge the way a caller does, for pure translations.
fn resolve(c: &Closest<Pose>) -> Pose {
    match c {
        Closest::Exact(p) => *p,
        Closest::Between { before, after, elapsed, span } => {
            assert_eq!(before.rotation, IDENTITY_ROTATION);
            assert_eq!(after.rotation, IDENTITY_ROTATION);
            let weight = 1.0 - (*elapsed as f64) / (*span as f64);
            let mut t = [0.0; 3];
            for i in 0..3 {
                t[i] = before.translation[i] * weight + after.translation[i] * (1.0 - weight);
            }
            Pose { translation: t, rotation: IDENTITY_ROTATION }
        }
    }
}

/// Composes a chain of pure translations left to right.
fn compose(chain: &[Closest<Pose>]) -> Pose {
    let mut t = [0.0; 3];
    for c in chain {
        let p = resolve(c);
        assert_eq!(p.rotation, IDENTITY_ROTATION);
        for i in 0..3 {
            t[i] += p.translation[i];
        }
    }
    Pose { translation: t, rotation: IDENTITY_ROTATION }
}

fn stamp_of(time: f64) -> Time {
    let nsecs = ((time - ((time.floor() as i64) as f64)) * 1E9) as u32;
    Time { sec: time.floor() as u32, nsec: nsecs }
}

fn stamped(parent: &str, child: &str, stamp: Time, p: Pose) -> StampedTransform<Pose> {
    StampedTransform { parent: parent.to_string(), child: child.to_string(), stamp, transform: p }
}

/// Adds a transform and its inverse, as ingestion does.
fn add_both(buffer: &mut TfBuffer<Pose>, t: &StampedTransform<Pose>, static_tf: bool) {
    buffer.add_transform(t, static_tf);
    buffer.add_transform(&get_inverse(t, inverse_translation(&t.transform)), static_tf);
}

/// Builds a tree of:
/// * a world coordinate frame
/// * an item in the world frame at (1,0,0)
/// * base_link of a robot starting at (0,0,0) and progressing at (0,t,0) where t is time in seconds
/// * a camera which is (0.5, 0, 0) from the base_link
fn build_test_tree(buffer: &mut TfBuffer<Pose>, time: f64) {
    let stamp = stamp_of(time);
    add_both(buffer, &stamped("world", "item", stamp, translation(1.0, 0.0, 0.0)), true);
    add_both(buffer, &stamped("world", "base_link", stamp, translation(0.0, time, 0.0)), false);
    add_both(buffer, &stamped("base_link", "camera", stamp, translation(0.5, 0.0, 0.0)), true);
}

#[test]
fn test_basic_tf_lookup() {
    let mut tf_buffer = TfBuffer::new();
    build_test_tree(&mut tf_buffer, 0f64);
    let res = tf_buffer.lookup_transform("camera", "item", Time { sec: 0, nsec: 0 });
    let expected = translation(0.5, 0.0, 0.0);
    assert_eq!(compose(&res.unwrap()), expected);
}

#[test]
fn test_basic_tf_interpolation() {
    let mut tf_buffer = TfBuffer::new();
    build_test_tree(&mut tf_buffer, 0f64);
    build_test_tree(&mut tf_buffer, 1f64);
    let res = tf_buffer.lookup_transform("camera", "item", Time { sec: 0, nsec: 700_000_000 });
    let expected = translation(0.5, -0.7, 0.0);
    assert_eq!(compose(&res.unwrap()), expected);
}

#[test]
fn test_basic_tf_timetravel() {
    let mut tf_buffer = TfBuffer::new();
    build_test_tree(&mut tf_buffer, 0f64);
    build_test_tree(&mut tf_buffer, 1f64);
    let res = tf_buffer.lookup_transform_with_time_travel(
        "camera",
        Time { sec: 0, nsec: 400_000_000 },
        "camera",
        Time { sec: 0, nsec: 700_000_000 },
        "item",
    );
    let chains = res.unwrap();
    let tf1 = compose(&chains.from_chain);
    let tf2 = compose(&chains.to_chain);
    let inv1 = inverse_translation(&tf1);
    let mut t = [0.0; 3];
    for i in 0..3 {
        t[i] = tf2.translation[i] + inv1.translation[i];
    }
    let expected = [0.0, 0.3, 0.0];
    for i in 0..3 {
        assert!((t[i] - expected[i]).abs() < 1e-9);
    }
}

#[test]
fn lookup_between_disjoint_subgraphs_is_not_found() {
    let mut tf_buffer = TfBuffer::new();
    let s = Time { sec: 1, nsec: 0 };
    add_both(&mut tf_buffer, &stamped("a", "b", s, translation(1.0, 0.0, 0.0)), false);
    add_both(&mut tf_buffer, &stamped("c", "d", s, translation(0.0, 1.0, 0.0)), false);
    assert_eq!(tf_buffer.lookup_transform("a", "d", s), Err(TfError::CouldNotFindTransform));
    assert_eq!(tf_buffer.lookup_transform("b", "c", s), Err(TfError::CouldNotFindTransform));
    assert!(tf_buffer.lookup_transform("a", "b", s).is_ok());
}

#[test]
fn lookup_of_unknown_frame_is_not_found() {
    let mut tf_buffer = TfBuffer::new();
    build_test_tree(&mut tf_buffer, 0f64);
    let s = Time { sec: 0, nsec: 0 };
    assert_eq!(tf_buffer.lookup_transform("camera", "nowhere", s), Err(TfError::CouldNotFindTransform));
    assert_eq!(tf_buffer.lookup_transform("nowhere", "camera", s), Err(TfError::CouldNotFindTransform));
}

#[test]
fn lookup_of_a_frame_to_itself_is_the_empty_chain() {
    let tf_buffer: TfBuffer<Pose> = TfBuffer::new();
    let res = tf_buffer.lookup_transform("anything", "anything", Time { sec: 3, nsec: 0 });
    assert_eq!(res, Ok(vec![]));
}

#[test]
fn lookup_reports_the_first_failing_edge() {
    let mut tf_buffer = TfBuffer::new();
    build_test_tree(&mut tf_buffer, 1f64);
    build_test_tree(&mut tf_buffer, 2f64);
    // Only the dynamic edge limits the window [1 s, 2 s].
    let past = tf_buffer.lookup_transform("camera", "item", Time { sec: 0, nsec: 500_000_000 });
    assert_eq!(past, Err(TfError::AttemptedLookupInPast));
    let future = tf_buffer.lookup_transform("camera", "item", Time { sec: 2, nsec: 1 });
    assert_eq!(future, Err(TfError::AttemptedLookUpInFuture));
}

#[test]
fn lookup_resolves_each_edge_in_path_order() {
    let mut tf_buffer = TfBuffer::new();
    build_test_tree(&mut tf_buffer, 0f64);
    build_test_tree(&mut tf_buffer, 1f64);
    let res = tf_buffer.lookup_transform("camera", "item", Time { sec: 0, nsec: 250_000_000 }).unwrap();
    assert_eq!(res.len(), 3);
    assert_eq!(res[0], Closest::Exact(translation(-0.5, -0.0, -0.0)));
    assert_eq!(
        res[1],
        Closest::Between {
            before: translation(-0.0, -0.0, -0.0),
            after: translation(-0.0, -1.0, -0.0),
            elapsed: 250_000_000,
            span: 1_000_000_000,
        }
    );
    assert_eq!(res[2], Closest::Exact(translation(1.0, 0.0, 0.0)));
}

#[test]
fn static_edge_answers_every_time_alike() {
    let mut tf_buffer = TfBuffer::new();
    add_both(&mut tf_buffer, &stamped("map", "odom", Time { sec: 5, nsec: 0 }, translation(2.0, 3.0, 4.0)), true);
    let early = tf_buffer.lookup_transform("map", "odom", Time { sec: 0, nsec: 0 });
    let late = tf_buffer.lookup_transform("map", "odom", Time { sec: 900, nsec: 1 });
    assert_eq!(early, late);
    assert_eq!(early, Ok(vec![Closest::Exact(translation(2.0, 3.0, 4.0))]));
}

#[test]
fn incoming_updates_are_stored_in_both_directions() {
    let mut tf_buffer = TfBuffer::new();
    let s = Time { sec: 7, nsec: 0 };
    let t = stamped("odom", "base", s, translation(1.0, 2.0, 3.0));
    let update = TransformUpdate { inverse: inverse_translation(&t.transform), transform: t };
    tf_buffer.handle_incoming_transforms(vec![update], false);
    assert_eq!(tf_buffer.lookup_transform("odom", "base", s), Ok(vec![Closest::Exact(translation(1.0, 2.0, 3.0))]));
    assert_eq!(
        tf_buffer.lookup_transform("base", "odom", s),
        Ok(vec![Closest::Exact(translation(-1.0, -2.0, -3.0))])
    );
}

#[test]
fn time_travel_reports_the_first_lookup_failure_first() {
    let mut tf_buffer = TfBuffer::new();
    build_test_tree(&mut tf_buffer, 0f64);
    build_test_tree(&mut tf_buffer, 1f64);
    let in_past = Time { sec: 0, nsec: 0 };
    let res = tf_buffer.lookup_transform_with_time_travel("camera", Time { sec: 5, nsec: 0 }, "camera", in_past, "item");
    match res {
        Err(e) => assert_eq!(e, TfError::AttemptedLookUpInFuture),
        Ok(_) => panic!("expected an error"),
    }
    let res = tf_buffer.lookup_transform_with_time_travel("camera", in_past, "ghost", in_past, "item");
    match res {
        Err(e) => assert_eq!(e, TfError::CouldNotFindTransform),
        Ok(_) => panic!("expected an error"),
    }
}

#[test]
fn get_inverse_swaps_the_frames() {
    let t = stamped("parent", "child", Time { sec: 4, nsec: 2 }, translation(1.0, 0.0, 0.0));
    let r = get_inverse(&t, translation(-1.0, 0.0, 0.0));
    assert_eq!(r.parent, "child");
    assert_eq!(r.child, "parent");
    assert_eq!(r.stamp.sec, 4);
    assert_eq!(r.stamp.nsec, 2);
    assert_eq!(r.transform, translation(-1.0, 0.0, 0.0));
}
