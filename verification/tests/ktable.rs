use peas_rf_cp::common::id::Id;
use peas_rf_cp::network::Addr;
use peas_rf_cp::node::ktable::{Entry, Ktable};

fn addr(n: u32) -> Addr {
    Addr::V4 { ip: 0x0a00_0000 + n, port: 4000 }
}

fn entry(id: u64) -> Entry {
    Entry::new(addr((id & 0xffff) as u32), Id::from_u64(id))
}

fn ids(v: &Vec<Entry>) -> Vec<u64> {
    v.iter().map(|e| e.get_id().into_u64()).collect()
}

#[test]
fn entry_keeps_what_it_was_given() {
    let e = Entry::new(addr(3), Id::from_u64(9));
    assert_eq!(e.get_addr(), addr(3));
    assert_eq!(e.get_id(), Id::from_u64(9));
}

#[test]
fn new_table_is_empty() {
    let t = Ktable::new(3, Id::from_u64(0));
    assert_eq!(t.get(10).len(), 0);
    assert_eq!(t.closest_to(10, Id::from_u64(5)).len(), 0);
    assert_eq!(t.len(), 0);
    assert_eq!(t.capacity(), 3);
    assert_eq!(t.owner(), Id::from_u64(0));
    assert!(t.random().is_none());
}

#[test]
fn offer_of_the_owner_changes_nothing() {
    let mut t = Ktable::new(3, Id::from_u64(77));
    t.offer(entry(5));
    t.offer(entry(77));
    t.offer_replace(entry(77));
    assert_eq!(ids(&t.get(10)), vec![5]);
    t.delete_id(Id::from_u64(77));
    assert_eq!(ids(&t.get(10)), vec![5]);
}

#[test]
fn offer_twice_keeps_one() {
    let mut t = Ktable::new(3, Id::from_u64(0));
    t.offer(entry(9));
    t.offer(entry(9));
    t.offer_replace(entry(9));
    assert_eq!(t.len(), 1);
}

#[test]
fn buckets_are_sorted_by_distance_and_bounded() {
    // owner 0: the ids 8..=15 all share 60 leading bits with it
    let mut t = Ktable::new(3, Id::from_u64(0));
    for id in [12u64, 9, 15, 8, 10] {
        t.offer(entry(id));
    }
    // the first three offered stay, nearest first
    assert_eq!(ids(&t.get(10)), vec![9, 12, 15]);
}

#[test]
fn offer_replace_keeps_the_nearest() {
    let mut t = Ktable::new(3, Id::from_u64(0));
    for id in [12u64, 9, 15, 8, 10, 14, 11] {
        t.offer_replace(entry(id));
    }
    assert_eq!(ids(&t.get(10)), vec![8, 9, 10]);
}

#[test]
fn offer_replace_with_room_behaves_like_offer() {
    let mut t = Ktable::new(3, Id::from_u64(0));
    t.offer_replace(entry(12));
    t.offer_replace(entry(9));
    assert_eq!(ids(&t.get(10)), vec![9, 12]);
}

#[test]
fn get_walks_from_the_nearest_bucket_down() {
    let mut t = Ktable::new(3, Id::from_u64(0));
    // bucket 0, bucket 62, bucket 63, bucket 60
    for id in [0x8000_0000_0000_0000u64, 2, 1, 9, 3] {
        t.offer(entry(id));
    }
    assert_eq!(ids(&t.get(10)), vec![1, 2, 3, 9, 0x8000_0000_0000_0000]);
    assert_eq!(ids(&t.get(2)), vec![1, 2]);
    assert_eq!(ids(&t.get(0)), Vec::<u64>::new());
    assert_eq!(t.get(u32::MAX).len(), 5);
}

#[test]
fn delete_removes_by_id() {
    let mut t = Ktable::new(3, Id::from_u64(0));
    for id in [8u64, 9, 10, 1] {
        t.offer(entry(id));
    }
    t.delete_id(Id::from_u64(9));
    assert_eq!(ids(&t.get(10)), vec![1, 8, 10]);
    t.delete_id(Id::from_u64(9));
    assert_eq!(ids(&t.get(10)), vec![1, 8, 10]);
    t.delete_entry(entry(8));
    assert_eq!(ids(&t.get(10)), vec![1, 10]);
    // room again in the bucket
    t.offer(entry(11));
    t.offer(entry(12));
    assert_eq!(ids(&t.get(10)), vec![1, 10, 11, 12]);
}

#[test]
fn clear_empties_every_bucket_and_the_table_stays_usable() {
    let mut t = Ktable::new(3, Id::from_u64(0));
    for id in [8u64, 1, 0xffff] {
        t.offer(entry(id));
    }
    t.clear();
    assert_eq!(t.len(), 0);
    t.offer(entry(5));
    assert_eq!(ids(&t.get(10)), vec![5]);
}

#[test]
fn closest_to_is_sorted_by_distance_to_the_target() {
    let mut t = Ktable::new(20, Id::from_u64(0));
    for id in [1u64, 2, 3, 4, 5, 6, 7, 16, 32, 100, 0xffff_0000] {
        t.offer(entry(id));
    }
    let target = Id::from_u64(5);
    let all = t.closest_to(100, target);
    assert_eq!(all.len() as u64, t.len());
    for w in all.windows(2) {
        assert!(w[0].get_id().distance(&target) < w[1].get_id().distance(&target));
    }
    let three = t.closest_to(3, target);
    // distances to 5: 5 -> 0, 4 -> 1, 7 -> 2
    assert_eq!(ids(&three), vec![5, 4, 7]);
    assert_eq!(ids(&t.closest_to(1, Id::from_u64(33))), vec![32]);
    assert_eq!(t.closest_to(0, target).len(), 0);
}

#[test]
fn closest_to_never_returns_more_than_the_table_holds() {
    let mut t = Ktable::new(2, Id::from_u64(0));
    t.offer(entry(1));
    t.offer(entry(2));
    assert_eq!(t.closest_to(10, Id::from_u64(9)).len(), 2);
}

#[test]
fn random_returns_an_entry_of_the_table() {
    let mut t = Ktable::new(3, Id::from_u64(0));
    for id in [1u64, 2, 9, 0x8000_0000_0000_0000, 0x4000] {
        t.offer(entry(id));
    }
    let known = ids(&t.get(100));
    let mut seen = std::collections::HashSet::new();
    for _ in 0..400 {
        let e = t.random().unwrap();
        assert!(known.contains(&e.get_id().into_u64()));
        seen.insert(e.get_id().into_u64());
    }
    // every entry has a chance of one in five
    assert_eq!(seen.len(), 5);
}

#[test]
fn weighted_bucket_counts_through_the_buckets() {
    let mut t = Ktable::new(3, Id::from_u64(0));
    // bucket 0 holds one entry, bucket 60 two, bucket 63 one
    for id in [0x8000_0000_0000_0000u64, 8, 9, 1] {
        t.offer(entry(id));
    }
    assert_eq!(t.weighted_bucket(1), 0);
    assert_eq!(t.weighted_bucket(2), 60);
    assert_eq!(t.weighted_bucket(3), 60);
    assert_eq!(t.weighted_bucket(4), 63);
}

#[test]
fn table_with_buckets_of_zero_takes_nothing() {
    let mut t = Ktable::new(0, Id::from_u64(0));
    t.offer(entry(1));
    t.offer_replace(entry(2));
    assert_eq!(t.len(), 0);
}
