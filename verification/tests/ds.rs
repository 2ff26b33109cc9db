use mqtt_core::ds::{OutOfBounds, OutgoingPublishBucket, PkidSet};
use mqtt_core::packet::{Publish, QoS};

fn publish(pkid: u16) -> Publish {
    let mut p = Publish::new("a/b", QoS::AtLeastOnce, vec![pkid as u8, 7], None);
    p.pkid = pkid;
    p
}

fn pkid_of(p: Publish) -> u16 {
    p.pkid
}

#[test]
fn table_starts_empty() {
    let table = OutgoingPublishBucket::with_limit(9);
    assert_eq!(table.len(), 0);
    for pkid in 0..=9u16 {
        assert_eq!(table.get(pkid), Ok(None));
    }
    assert_eq!(table.get(10), Err(OutOfBounds(10)));
}

#[test]
fn table_with_limit_zero_has_one_slot() {
    let mut table = OutgoingPublishBucket::with_limit(0);
    assert_eq!(table.insert(publish(0)), Ok(None));
    assert_eq!(table.len(), 1);
    assert_eq!(table.insert(publish(1)), Err(OutOfBounds(1)));
}

#[test]
fn table_insert_get_remove() {
    let mut table = OutgoingPublishBucket::with_limit(20);
    for pkid in [0u16, 1, 7, 20] {
        assert_eq!(table.insert(publish(pkid)), Ok(None));
        assert_eq!(table.get(pkid), Ok(Some(&publish(pkid))));
        assert_eq!(table.remove(pkid), Ok(Some(publish(pkid))));
        assert_eq!(table.get(pkid), Ok(None));
        assert_eq!(table.remove(pkid), Ok(None));
    }
    assert_eq!(table.len(), 0);
}

#[test]
fn table_insert_returns_what_the_slot_held() {
    let mut table = OutgoingPublishBucket::with_limit(5);
    let mut first = publish(3);
    first.payload = vec![1];
    let mut second = publish(3);
    second.payload = vec![2];
    assert_eq!(table.insert(first.clone()), Ok(None));
    assert_eq!(table.insert(second.clone()), Ok(Some(first)));
    assert_eq!(table.len(), 1);
    assert_eq!(table.get(3), Ok(Some(&second)));
}

#[test]
fn table_out_of_bounds_changes_nothing() {
    let mut table = OutgoingPublishBucket::with_limit(9);
    table.insert(publish(4)).unwrap();
    assert_eq!(table.insert(publish(10)), Err(OutOfBounds(10)));
    assert_eq!(table.len(), 1);
    assert_eq!(table.remove(10), Err(OutOfBounds(10)));
    assert_eq!(table.len(), 1);
    assert_eq!(table.get(u16::MAX), Err(OutOfBounds(u16::MAX)));
    assert_eq!(table.len(), 1);
    assert_eq!(table.get(4), Ok(Some(&publish(4))));
}

#[test]
fn table_len_follows_inserts_and_removes() {
    let mut table = OutgoingPublishBucket::with_limit(9);
    table.insert(publish(1)).unwrap();
    table.insert(publish(2)).unwrap();
    assert_eq!(table.len(), 2);
    table.insert(publish(2)).unwrap();
    assert_eq!(table.len(), 2);
    table.remove(1).unwrap();
    assert_eq!(table.len(), 1);
    table.remove(1).unwrap();
    assert_eq!(table.len(), 1);
    table.insert(publish(9)).unwrap();
    table.insert(publish(0)).unwrap();
    assert_eq!(table.len(), 3);
    table.remove(2).unwrap();
    table.remove(9).unwrap();
    table.remove(0).unwrap();
    assert_eq!(table.len(), 0);
}

#[test]
fn table_drain_wraps_around() {
    let mut table = OutgoingPublishBucket::with_limit(9);
    for pkid in [2u16, 5, 8] {
        table.insert(publish(pkid)).unwrap();
    }
    let mut sink: Vec<u16> = vec![99];
    table.drain_into(&mut sink, 6, pkid_of);
    assert_eq!(sink, vec![99, 8, 2, 5]);
    assert_eq!(table.len(), 0);
    for pkid in 0..=9u16 {
        assert_eq!(table.get(pkid), Ok(None));
    }
}

#[test]
fn table_drain_starts_at_the_split_slot() {
    let mut table = OutgoingPublishBucket::with_limit(9);
    for pkid in [0u16, 5, 6, 9] {
        table.insert(publish(pkid)).unwrap();
    }
    let mut sink: Vec<u16> = Vec::new();
    table.drain_into(&mut sink, 6, pkid_of);
    assert_eq!(sink, vec![6, 9, 0, 5]);
}

#[test]
fn table_drain_from_zero_is_table_order() {
    let mut table = OutgoingPublishBucket::with_limit(9);
    for pkid in [7u16, 1, 3] {
        table.insert(publish(pkid)).unwrap();
    }
    let mut sink: Vec<Publish> = Vec::new();
    table.drain_into(&mut sink, 0, |p| p);
    assert_eq!(sink, vec![publish(1), publish(3), publish(7)]);
    assert_eq!(table.len(), 0);
}

#[test]
fn table_drain_with_split_beyond_the_table() {
    let mut table = OutgoingPublishBucket::with_limit(4);
    for pkid in [4u16, 0, 2] {
        table.insert(publish(pkid)).unwrap();
    }
    let mut sink: Vec<u16> = Vec::new();
    table.drain_into(&mut sink, 5, pkid_of);
    assert_eq!(sink, vec![0, 2, 4]);
    table.insert(publish(1)).unwrap();
    let mut sink: Vec<u16> = Vec::new();
    table.drain_into(&mut sink, 1000, pkid_of);
    assert_eq!(sink, vec![1]);
}

#[test]
fn table_keeps_its_capacity_after_a_drain() {
    let mut table = OutgoingPublishBucket::with_limit(3);
    table.insert(publish(3)).unwrap();
    let mut sink: Vec<u16> = Vec::new();
    table.drain_into(&mut sink, 0, pkid_of);
    assert_eq!(table.insert(publish(3)), Ok(None));
    assert_eq!(table.insert(publish(4)), Err(OutOfBounds(4)));
    assert_eq!(table.len(), 1);
}

#[test]
fn table_drain_of_an_empty_table() {
    let mut table = OutgoingPublishBucket::with_limit(3);
    let mut sink: Vec<u16> = vec![1, 2];
    table.drain_into(&mut sink, 2, pkid_of);
    assert_eq!(sink, vec![1, 2]);
    assert_eq!(table.len(), 0);
}

#[test]
fn table_from_slots_counts_once() {
    let slots = vec![None, Some(publish(1)), None, Some(publish(3))];
    let mut table = OutgoingPublishBucket::from(slots);
    assert_eq!(table.len(), 2);
    assert_eq!(table.get(1), Ok(Some(&publish(1))));
    assert_eq!(table.get(2), Ok(None));
    assert_eq!(table.get(4), Err(OutOfBounds(4)));
    assert_eq!(table.remove(3), Ok(Some(publish(3))));
    assert_eq!(table.len(), 1);
    let empty = OutgoingPublishBucket::from(Vec::new());
    assert_eq!(empty.len(), 0);
    assert_eq!(empty.get(0), Err(OutOfBounds(0)));
}

#[test]
fn set_starts_empty() {
    let set = PkidSet::with_limit(9);
    assert_eq!(set.len(), 0);
    assert!(!set.contains(0));
    assert!(!set.contains(9));
    assert!(!set.contains(10));
}

#[test]
fn set_insert_says_whether_it_was_there() {
    let mut set = PkidSet::with_limit(9);
    assert_eq!(set.insert(4), Ok(false));
    assert!(set.contains(4));
    assert!(!set.contains(3));
    assert_eq!(set.insert(4), Ok(true));
    assert_eq!(set.len(), 1);
    assert_eq!(set.insert(9), Ok(false));
    assert_eq!(set.len(), 2);
}

#[test]
fn set_remove_says_whether_it_was_there() {
    let mut set = PkidSet::with_limit(9);
    set.insert(4).unwrap();
    set.insert(5).unwrap();
    assert_eq!(set.remove(4), Ok(true));
    assert!(!set.contains(4));
    assert!(set.contains(5));
    assert_eq!(set.remove(4), Ok(false));
    assert_eq!(set.len(), 1);
}

#[test]
fn set_out_of_bounds_changes_nothing() {
    let mut set = PkidSet::with_limit(9);
    set.insert(1).unwrap();
    assert_eq!(set.insert(10), Err(OutOfBounds(10)));
    assert_eq!(set.remove(10), Err(OutOfBounds(10)));
    assert_eq!(set.insert(u16::MAX), Err(OutOfBounds(u16::MAX)));
    assert_eq!(set.len(), 1);
    assert!(set.contains(1));
}

#[test]
fn set_len_follows_inserts_and_removes() {
    let mut set = PkidSet::with_limit(200);
    for pkid in [3u16, 100, 200, 3, 64, 63] {
        set.insert(pkid).unwrap();
    }
    assert_eq!(set.len(), 5);
    set.remove(100).unwrap();
    set.remove(100).unwrap();
    set.remove(7).unwrap();
    assert_eq!(set.len(), 4);
}

#[test]
fn set_full_range_takes_every_identifier() {
    let mut set = PkidSet::full_range();
    assert_eq!(set.insert(0), Ok(false));
    assert_eq!(set.insert(u16::MAX), Ok(false));
    assert_eq!(set.insert(u16::MAX), Ok(true));
    assert_eq!(set.len(), 2);
    assert_eq!(set.remove(u16::MAX), Ok(true));
    assert_eq!(set.len(), 1);
}

#[test]
fn set_drain_is_ascending_and_empties() {
    let mut set = PkidSet::with_limit(300);
    for pkid in [250u16, 3, 64, 0, 300, 65] {
        set.insert(pkid).unwrap();
    }
    let mut sink: Vec<u32> = vec![7];
    set.drain_into(&mut sink, |pkid| pkid as u32 + 1000);
    assert_eq!(sink, vec![7, 1000, 1003, 1064, 1065, 1250, 1300]);
    assert_eq!(set.len(), 0);
    assert!(!set.contains(3));
    assert_eq!(set.insert(300), Ok(false));
    assert_eq!(set.insert(301), Err(OutOfBounds(301)));
}

#[test]
fn set_clear_empties_and_keeps_the_capacity() {
    let mut set = PkidSet::with_limit(9);
    set.insert(2).unwrap();
    set.insert(9).unwrap();
    set.clear();
    assert_eq!(set.len(), 0);
    assert!(!set.contains(2));
    assert!(!set.contains(9));
    assert_eq!(set.insert(9), Ok(false));
    assert_eq!(set.insert(10), Err(OutOfBounds(10)));
}

#[test]
fn set_clone_is_independent() {
    let mut set = PkidSet::with_limit(9);
    set.insert(2).unwrap();
    let mut copy = set.clone();
    copy.insert(3).unwrap();
    assert_eq!(set.len(), 1);
    assert_eq!(copy.len(), 2);
    assert!(copy.contains(2));
    assert!(!set.contains(3));
}

#[test]
fn table_clone_is_independent() {
    let mut table = OutgoingPublishBucket::with_limit(9);
    table.insert(publish(2)).unwrap();
    let mut copy = table.clone();
    copy.remove(2).unwrap();
    assert_eq!(table.len(), 1);
    assert_eq!(copy.len(), 0);
    assert_eq!(table.get(2), Ok(Some(&publish(2))));
}
