use rustros_tf::{Closest, OrderedTF, TfError, TfIndividualTransformChain, Time, BUFFER_SIZE};

fn at(sec: u32, value: u32) -> OrderedTF<u32> {
    OrderedTF { stamp: Time { sec, nsec: 0 }, transform: value }
}

#[test]
fn history_keeps_the_most_recent_hundred() {
    let mut chain = TfIndividualTransformChain::new(false);
    for i in 0..150u32 {
        chain.add_to_buffer(at(i, i));
    }
    assert_eq!(chain.len(), BUFFER_SIZE);
    assert_eq!(chain.len(), 100);
    assert_eq!(chain.get_closest_transform(Time { sec: 49, nsec: 0 }), Err(TfError::AttemptedLookupInPast));
    assert_eq!(chain.get_closest_transform(Time { sec: 50, nsec: 0 }), Ok(Closest::Exact(50)));
    assert_eq!(chain.get_closest_transform(Time { sec: 149, nsec: 0 }), Ok(Closest::Exact(149)));
}

#[test]
fn late_old_sample_into_a_full_history_is_dropped() {
    let mut chain = TfIndividualTransformChain::new(false);
    for i in 10..110u32 {
        chain.add_to_buffer(at(i, i));
    }
    chain.add_to_buffer(at(3, 3));
    assert_eq!(chain.len(), 100);
    assert_eq!(chain.get_closest_transform(Time { sec: 3, nsec: 0 }), Err(TfError::AttemptedLookupInPast));
    assert_eq!(chain.get_closest_transform(Time { sec: 10, nsec: 0 }), Ok(Closest::Exact(10)));
}

#[test]
fn out_of_order_samples_are_kept_sorted() {
    let mut chain = TfIndividualTransformChain::new(false);
    chain.add_to_buffer(at(4, 40));
    chain.add_to_buffer(at(1, 10));
    chain.add_to_buffer(at(2, 20));
    let r = chain.get_closest_transform(Time { sec: 3, nsec: 0 });
    assert_eq!(r, Ok(Closest::Between { before: 20, after: 40, elapsed: 1_000_000_000, span: 2_000_000_000 }));
}

#[test]
fn dynamic_history_refuses_times_outside_its_samples() {
    let mut chain = TfIndividualTransformChain::new(false);
    chain.add_to_buffer(at(10, 1));
    chain.add_to_buffer(at(20, 2));
    assert_eq!(chain.get_closest_transform(Time { sec: 9, nsec: 999_999_999 }), Err(TfError::AttemptedLookupInPast));
    assert_eq!(chain.get_closest_transform(Time { sec: 20, nsec: 1 }), Err(TfError::AttemptedLookUpInFuture));
    assert_eq!(chain.get_closest_transform(Time { sec: 10, nsec: 0 }), Ok(Closest::Exact(1)));
    assert_eq!(chain.get_closest_transform(Time { sec: 20, nsec: 0 }), Ok(Closest::Exact(2)));
}

#[test]
fn interpolation_weights_come_in_nanoseconds() {
    let mut chain = TfIndividualTransformChain::new(false);
    chain.add_to_buffer(OrderedTF { stamp: Time { sec: 0, nsec: 0 }, transform: 'a' });
    chain.add_to_buffer(OrderedTF { stamp: Time { sec: 1, nsec: 0 }, transform: 'b' });
    let r = chain.get_closest_transform(Time { sec: 0, nsec: 700_000_000 });
    assert_eq!(r, Ok(Closest::Between { before: 'a', after: 'b', elapsed: 700_000_000, span: 1_000_000_000 }));
}

#[test]
fn static_history_ignores_the_time() {
    let mut chain = TfIndividualTransformChain::new(true);
    chain.add_to_buffer(at(5, 7));
    chain.add_to_buffer(at(6, 8));
    assert!(chain.is_static());
    for sec in [0u32, 5, 6, 1000] {
        assert_eq!(chain.get_closest_transform(Time { sec, nsec: 0 }), Ok(Closest::Exact(8)));
    }
}

#[test]
fn static_history_answers_with_the_sample_inserted_last() {
    let mut chain = TfIndividualTransformChain::new(true);
    chain.add_to_buffer(at(6, 8));
    chain.add_to_buffer(at(5, 7));
    assert_eq!(chain.get_closest_transform(Time { sec: 6, nsec: 0 }), Ok(Closest::Exact(7)));
}

#[test]
fn empty_histories_report_the_past() {
    let dynamic: TfIndividualTransformChain<u32> = TfIndividualTransformChain::new(false);
    let fixed: TfIndividualTransformChain<u32> = TfIndividualTransformChain::new(true);
    assert_eq!(dynamic.get_closest_transform(Time { sec: 1, nsec: 0 }), Err(TfError::AttemptedLookupInPast));
    assert_eq!(fixed.get_closest_transform(Time { sec: 1, nsec: 0 }), Err(TfError::AttemptedLookupInPast));
}

#[test]
fn equal_stamps_place_the_newer_sample_first() {
    let mut chain = TfIndividualTransformChain::new(false);
    chain.add_to_buffer(at(3, 1));
    chain.add_to_buffer(at(3, 2));
    assert_eq!(chain.len(), 2);
    assert_eq!(chain.get_closest_transform(Time { sec: 3, nsec: 0 }), Ok(Closest::Exact(2)));
}

#[test]
fn time_counts_total_nanoseconds() {
    assert_eq!(Time::new(12, 123).to_nanos(), 12_000_000_123);
    assert_eq!(Time::new(u32::MAX, u32::MAX).to_nanos(), 4_294_967_295_000_000_000 + 4_294_967_295);
    let mut chain = TfIndividualTransformChain::new(false);
    chain.add_to_buffer(OrderedTF { stamp: Time { sec: 0, nsec: 2_000_000_000 }, transform: 1u8 });
    assert_eq!(chain.get_closest_transform(Time { sec: 2, nsec: 0 }), Ok(Closest::Exact(1)));
}

#[test]
fn ordered_tf_new_keeps_its_parts() {
    let s = OrderedTF::new(Time::new(8, 9), "payload");
    assert_eq!(s.stamp.sec, 8);
    assert_eq!(s.stamp.nsec, 9);
    assert_eq!(s.transform, "payload");
}
