use peas_rf_cp::common::get_hash;
use peas_rf_cp::common::id::Id;
use peas_rf_cp::common::timer::{clock_reading, now_millis, Timer};
use peas_rf_cp::node::cache::Cache;

#[test]
fn id_round_trips_through_u64() {
    assert_eq!(Id::from_u64(0).into_u64(), 0);
    assert_eq!(Id::from_u64(0xdead_beef).into_u64(), 0xdead_beef);
    assert_eq!(Id::from_u64(u64::MAX).into_u64(), u64::MAX);
}

#[test]
fn distance_is_xor() {
    let a = Id::from_u64(0b1100);
    let b = Id::from_u64(0b1010);
    assert_eq!(a.distance(&b), 0b0110);
    assert_eq!(Id::from_u64(0).distance(&Id::from_u64(u64::MAX)), u64::MAX);
}

#[test]
fn distance_to_self_is_zero_and_distance_is_symmetric() {
    for x in [0u64, 1, 7, 0x8000_0000_0000_0000, u64::MAX, 0x1234_5678_9abc_def0] {
        let a = Id::from_u64(x);
        assert_eq!(a.distance(&a), 0);
        for y in [0u64, 3, 0xffff, u64::MAX - 1] {
            let b = Id::from_u64(y);
            assert_eq!(a.distance(&b), b.distance(&a));
        }
    }
}

#[test]
fn common_bits_counts_the_shared_prefix() {
    let zero = Id::from_u64(0);
    assert_eq!(zero.common_bits(&zero), 64);
    assert_eq!(zero.common_bits(&Id::from_u64(1)), 63);
    assert_eq!(zero.common_bits(&Id::from_u64(0x8000_0000_0000_0000)), 0);
    assert_eq!(Id::from_u64(0xff00).common_bits(&Id::from_u64(0xff80)), 56);
    assert_eq!(Id::from_u64(5).common_bits(&Id::from_u64(5)), 64);
}

#[test]
fn room_file_bytes_are_little_endian() {
    let id = Id::from_u64(0x0102_0304_0506_0708);
    assert_eq!(id.to_bytes(), vec![8, 7, 6, 5, 4, 3, 2, 1]);
    assert_eq!(Id::from_bytes(&id.to_bytes()), Some(id));
    assert_eq!(Id::from_bytes(&vec![1, 0, 0, 0, 0, 0, 0, 0, 99]), Some(Id::from_u64(1)));
    assert_eq!(Id::from_bytes(&vec![1, 2, 3]), None);
}

#[test]
fn random_ids_and_hashes_are_drawn() {
    // 64 random bits: five equal draws in a row do not happen
    let first = get_hash();
    let mut all_equal = true;
    for _ in 0..5 {
        if get_hash() != first || Id::new_random().into_u64() != first {
            all_equal = false;
        }
    }
    assert!(!all_equal);
}

#[test]
fn timer_expires_after_its_period() {
    let t = Timer::started_at(1_000, 500);
    assert_eq!(t.get_timeout(), 500);
    assert!(!t.expired_at(1_000, 100));
    assert!(!t.expired_at(1_499, 100));
    assert!(t.expired_at(1_500, 100));
    assert!(t.expired_at(9_999, 100));
}

#[test]
fn timer_margin_is_a_percentage_of_the_period() {
    let t = Timer::started_at(0, 1_000);
    assert!(!t.expired_at(949, 95));
    assert!(t.expired_at(950, 95));
    assert!(!t.expired_at(950, 100));
    assert!(t.expired_at(10, 1));
    assert!(!t.expired_at(9, 1));
}

#[test]
fn timer_before_its_start_has_not_expired() {
    let t = Timer::started_at(5_000, 10);
    assert!(!t.expired_at(4_000, 100));
    // a period of zero has always run out
    let z = Timer::started_at(5_000, 0);
    assert!(z.expired_at(4_000, 100));
}

#[test]
fn disabled_timer_never_expires() {
    let mut t = Timer::started_at(0, 10);
    assert!(!t.is_disabled());
    t.disable();
    assert!(t.is_disabled());
    assert!(!t.expired_at(u64::MAX, 100));
    assert!(!t.expired(100));
    t.reset_at(100);
    assert!(!t.is_disabled());
    assert!(!t.expired_at(109, 100));
    assert!(t.expired_at(110, 100));
}

#[test]
fn timer_reset_with_changes_the_period() {
    let mut t = Timer::started_at(0, 10);
    t.reset_with_at(50, 1_000);
    assert_eq!(t.get_timeout(), 50);
    assert!(!t.expired_at(1_049, 100));
    assert!(t.expired_at(1_050, 100));
}

#[test]
fn timers_on_the_wall_clock() {
    let e = Timer::new_expired();
    assert_eq!(e.get_timeout(), 0);
    assert!(e.expired(100));
    let mut long = Timer::from_millis(3_600_000);
    assert_eq!(long.get_timeout(), 3_600_000);
    assert!(!long.expired(100));
    long.reset_with(0);
    assert!(long.expired(100));
    long.disable();
    long.reset();
    assert!(!long.is_disabled());
    let n = Timer::new(7);
    assert_eq!(n.get_timeout(), 7);
    assert!(now_millis() > 1_000_000_000_000);
}

#[test]
fn cache_insert_twice_is_refused() {
    let mut c = Cache::new(100);
    assert!(!c.contains(&42));
    assert!(c.insert(42));
    assert!(c.contains(&42));
    assert!(!c.insert(42));
    assert!(c.contains(&42));
}

#[test]
fn cache_forgets_the_oldest_first() {
    let mut c = Cache::new(3);
    assert!(c.insert(1));
    assert!(c.insert(2));
    assert!(c.insert(3));
    assert!(c.contains(&1) && c.contains(&2) && c.contains(&3));
    assert!(c.insert(4));
    assert!(!c.contains(&1));
    assert!(c.contains(&2) && c.contains(&3) && c.contains(&4));
    // a refused insert evicts nothing
    assert!(!c.insert(2));
    assert!(c.contains(&2) && c.contains(&3) && c.contains(&4));
    assert!(c.insert(1));
    assert!(!c.contains(&2));
}

#[test]
fn cache_of_one() {
    let mut c = Cache::new(1);
    assert!(c.insert(7));
    assert!(!c.insert(7));
    assert!(c.insert(8));
    assert!(!c.contains(&7));
    assert!(c.contains(&8));
}

#[test]
fn clock_readings_saturate() {
    assert_eq!(clock_reading(None), 0);
    assert_eq!(clock_reading(Some(0)), 0);
    assert_eq!(clock_reading(Some(1_700_000_000_000)), 1_700_000_000_000);
    assert_eq!(clock_reading(Some(u64::MAX as u128)), u64::MAX);
    assert_eq!(clock_reading(Some(u64::MAX as u128 + 1)), u64::MAX);
    assert_eq!(clock_reading(Some(u128::MAX)), u64::MAX);
}
