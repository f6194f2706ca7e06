use shard_core::clock_map::{
    Clock, ClockMap, ClockTag, Error, IoErrorKind, Key, RecoveryPoint,
};

fn tag(peer_id: u64, clock_id: u32, clock_tick: u64) -> ClockTag {
    ClockTag::new(peer_id, clock_id, clock_tick)
}

fn forced(peer_id: u64, clock_id: u32, clock_tick: u64) -> ClockTag {
    ClockTag { peer_id, clock_id, clock_tick, force: true }
}

fn sorted(mut tags: Vec<ClockTag>) -> Vec<(u64, u32, u64, bool)> {
    tags.sort_by_key(|tag| (tag.peer_id, tag.clock_id));
    tags.iter().map(|tag| (tag.peer_id, tag.clock_id, tag.clock_tick, tag.force)).collect()
}

#[test]
fn clock_advances_to_the_largest_tick() {
    let mut clocks = ClockMap::default();
    clocks.advance_clock(&tag(1, 0, 5));
    assert_eq!(clocks.current_tick(1, 0), Some(5));
    clocks.advance_clock(&tag(1, 0, 3));
    assert_eq!(clocks.current_tick(1, 0), Some(5));
    clocks.advance_clock(&tag(1, 0, 7));
    assert_eq!(clocks.current_tick(1, 0), Some(7));
    assert_eq!(clocks.current_tick(1, 1), None);
    assert_eq!(clocks.current_tick(2, 0), None);
}

#[test]
fn tag_with_tick_zero_is_stamped() {
    let mut clocks = ClockMap::default();
    clocks.advance_clock(&tag(1, 0, 5));
    clocks.advance_clock(&tag(1, 0, 3));
    clocks.advance_clock(&tag(1, 0, 7));
    let mut stamp_me = tag(1, 0, 0);
    assert!(clocks.advance_clock_and_correct_tag(&mut stamp_me));
    assert_eq!(stamp_me.clock_tick, 7);
    assert_eq!((stamp_me.peer_id, stamp_me.clock_id, stamp_me.force), (1, 0, false));
    assert_eq!(clocks.current_tick(1, 0), Some(7));
    let mut stamp_me = tag(1, 0, 0);
    assert!(clocks.advance_clock_and_check_tag(&mut stamp_me));
    assert_eq!(stamp_me.clock_tick, 7);
}

#[test]
fn tag_with_tick_zero_starts_a_clock_at_zero() {
    let mut clocks = ClockMap::default();
    let mut first = tag(4, 2, 0);
    assert!(clocks.advance_clock_and_correct_tag(&mut first));
    assert_eq!(first.clock_tick, 0);
    assert_eq!(clocks.current_tick(4, 2), Some(0));
}

#[test]
fn newer_tag_is_taken_as_it_is() {
    let mut clocks = ClockMap::default();
    let mut first = tag(1, 0, 5);
    assert!(clocks.advance_clock_and_check_tag(&mut first));
    assert_eq!(first.clock_tick, 5);
    let mut newer = tag(1, 0, 9);
    assert!(clocks.advance_clock_and_check_tag(&mut newer));
    assert_eq!(newer.clock_tick, 9);
    assert_eq!(clocks.current_tick(1, 0), Some(9));
}

#[test]
fn stale_tag_is_answered_with_the_tick_of_the_clock() {
    let mut clocks = ClockMap::default();
    clocks.advance_clock(&tag(1, 0, 7));
    let mut stale = tag(1, 0, 3);
    assert!(!clocks.advance_clock_and_check_tag(&mut stale));
    assert_eq!(stale.clock_tick, 7);
    let mut same = tag(1, 0, 7);
    assert!(!clocks.advance_clock_and_check_tag(&mut same));
    assert_eq!(same.clock_tick, 7);
    // every operation is taken all the same
    let mut stale = tag(1, 0, 3);
    assert!(clocks.advance_clock_and_correct_tag(&mut stale));
    assert_eq!(stale.clock_tick, 7);
    assert_eq!(clocks.current_tick(1, 0), Some(7));
}

#[test]
fn forced_tag_keeps_its_tick() {
    let mut clocks = ClockMap::default();
    clocks.advance_clock(&tag(1, 0, 7));
    let mut stale = forced(1, 0, 3);
    assert!(clocks.advance_clock_and_check_tag(&mut stale));
    assert_eq!(stale.clock_tick, 3);
    assert!(stale.force);
    let mut zero = forced(1, 0, 0);
    assert!(clocks.advance_clock_and_correct_tag(&mut zero));
    assert_eq!(zero.clock_tick, 0);
    let mut newer = forced(1, 0, 11);
    assert!(clocks.advance_clock_and_correct_tag(&mut newer));
    assert_eq!(newer.clock_tick, 11);
    assert_eq!(clocks.current_tick(1, 0), Some(11));
}

#[test]
fn clocks_of_different_keys_do_not_mix() {
    let mut clocks = ClockMap::default();
    clocks.advance_clock(&tag(1, 0, 5));
    clocks.advance_clock(&tag(1, 1, 50));
    clocks.advance_clock(&tag(2, 0, 500));
    clocks.advance_clock(&tag(u64::MAX, u32::MAX, 9));
    clocks.advance_clock(&tag(0, u32::MAX, 10));
    clocks.advance_clock(&tag(u64::MAX, 0, 11));
    assert_eq!(clocks.current_tick(1, 0), Some(5));
    assert_eq!(clocks.current_tick(1, 1), Some(50));
    assert_eq!(clocks.current_tick(2, 0), Some(500));
    assert_eq!(clocks.current_tick(u64::MAX, u32::MAX), Some(9));
    assert_eq!(clocks.current_tick(0, u32::MAX), Some(10));
    assert_eq!(clocks.current_tick(u64::MAX, 0), Some(11));
    assert_eq!(clocks.current_tick(0, 0), None);
}

#[test]
fn key_code_holds_peer_and_clock() {
    assert_eq!(Key::new(1, 0).code(), 1u128 << 32);
    assert_eq!(Key::new(0, 7).code(), 7);
    assert_eq!(Key::new(3, 7).code(), (3u128 << 32) + 7);
    assert_eq!(Key::new(u64::MAX, u32::MAX).code(), (1u128 << 96) - 1);
    let key = Key::from_tag(&tag(3, 7, 100));
    assert_eq!((key.peer_id, key.clock_id), (3, 7));
    assert_eq!(key.code(), Key::new(3, 7).code());
}

#[test]
fn clock_on_its_own() {
    let mut clock = Clock::new(4);
    assert_eq!(clock.current_tick(), 4);
    assert_eq!(clock.advance_to(9), (true, 9));
    assert_eq!(clock.advance_to(9), (false, 9));
    assert_eq!(clock.advance_to(2), (false, 9));
    assert_eq!(clock.current_tick(), 9);
}

#[test]
fn recovery_point_is_a_copy_of_the_clocks() {
    let mut clocks = ClockMap::default();
    clocks.advance_clock(&tag(1, 0, 20));
    clocks.advance_clock(&tag(2, 0, 4));
    let recovery_point = clocks.to_recovery_point();
    clocks.advance_clock(&tag(1, 0, 99));
    assert_eq!(recovery_point.get(1, 0), Some(20));
    assert_eq!(recovery_point.get(2, 0), Some(4));
    assert_eq!(recovery_point.get(3, 0), None);
    assert_eq!(recovery_point.to_clock_tags().len(), 2);
    assert_eq!(ClockMap::default().to_recovery_point().to_clock_tags().len(), 0);
}

#[test]
fn extend_with_missing_clocks_keeps_what_is_known() {
    let mut recovery_point = RecoveryPoint::from_clock_tags(&vec![tag(1, 0, 10)]);
    let mut clocks = ClockMap::default();
    clocks.advance_clock(&tag(1, 0, 20));
    clocks.advance_clock(&tag(2, 0, 4));
    recovery_point.extend_with_missing_clocks(&clocks);
    assert_eq!(recovery_point.get(1, 0), Some(10));
    assert_eq!(recovery_point.get(2, 0), Some(4));
    assert_eq!(recovery_point.to_clock_tags().len(), 2);
    assert_eq!(
        sorted(recovery_point.to_clock_tags()),
        vec![(1, 0, 10, false), (2, 0, 4, false)]
    );
}

#[test]
fn extend_with_missing_clocks_keeps_a_lower_tick_too() {
    let mut recovery_point = RecoveryPoint::from_clock_tags(&vec![tag(1, 0, 30)]);
    let mut clocks = ClockMap::default();
    clocks.advance_clock(&tag(1, 0, 20));
    recovery_point.extend_with_missing_clocks(&clocks);
    assert_eq!(recovery_point.get(1, 0), Some(30));
    recovery_point.extend_with_missing_clocks(&ClockMap::default());
    assert_eq!(recovery_point.to_clock_tags().len(), 1);
    let mut none = RecoveryPoint::default();
    none.extend_with_missing_clocks(&clocks);
    assert_eq!(none.get(1, 0), Some(20));
    let copy = none.clone();
    assert_eq!(sorted(copy.to_clock_tags()), vec![(1, 0, 20, false)]);
}

#[test]
fn clock_tags_and_back() {
    let tags = vec![tag(1, 0, 10), tag(1, 1, 11), tag(u64::MAX, u32::MAX, 12)];
    let recovery_point = RecoveryPoint::from_clock_tags(&tags);
    assert_eq!(
        sorted(recovery_point.to_clock_tags()),
        vec![(1, 0, 10, false), (1, 1, 11, false), (u64::MAX, u32::MAX, 12, false)]
    );
    let again = RecoveryPoint::from_clock_tags(&recovery_point.to_clock_tags());
    assert_eq!(sorted(again.to_clock_tags()), sorted(recovery_point.to_clock_tags()));
}

#[test]
fn later_clock_tag_replaces_earlier() {
    let recovery_point = RecoveryPoint::from_clock_tags(&vec![tag(1, 0, 10), tag(1, 0, 3)]);
    assert_eq!(recovery_point.get(1, 0), Some(3));
    assert_eq!(recovery_point.to_clock_tags().len(), 1);
    assert_eq!(RecoveryPoint::from_clock_tags(&Vec::new()).to_clock_tags().len(), 0);
}

#[test]
fn missing_file_stands_for_no_clocks() {
    let missing = Err(Error::Io { kind: IoErrorKind::NotFound, message: "no file".to_string() });
    let clocks = ClockMap::load_or_default(missing).unwrap();
    assert_eq!(clocks.to_recovery_point().to_clock_tags().len(), 0);
    assert_eq!(clocks.current_tick(1, 0), None);
}

#[test]
fn other_errors_are_handed_on() {
    let denied = Err(Error::Io { kind: IoErrorKind::Other, message: "denied".to_string() });
    match ClockMap::load_or_default(denied) {
        Err(Error::Io { kind: IoErrorKind::Other, message }) => assert_eq!(message, "denied"),
        _ => panic!("the error was changed"),
    }
    let corrupt = Err(Error::SerdeJson { message: "expected value".to_string() });
    match ClockMap::load_or_default(corrupt) {
        Err(Error::SerdeJson { message }) => assert_eq!(message, "expected value"),
        _ => panic!("the error was changed"),
    }
}

#[test]
fn error_says_what_went_wrong() {
    let denied = Error::Io { kind: IoErrorKind::Other, message: "denied".to_string() };
    assert_eq!(denied.message(), "denied");
    let corrupt = Error::SerdeJson { message: "expected value".to_string() };
    assert_eq!(corrupt.message(), "expected value");
}

#[test]
fn loaded_clocks_are_handed_on() {
    let mut clocks = ClockMap::default();
    clocks.advance_clock(&tag(1, 0, 20));
    let loaded = ClockMap::load_or_default(Ok(clocks)).unwrap();
    assert_eq!(loaded.current_tick(1, 0), Some(20));
}
