use hazard::{WRRMMap, RETIRE_LIMIT};

#[test]
fn empty_map_reads_nothing() {
    let mut m = WRRMMap::<usize, usize>::new();
    assert_eq!(m.get(&1), None);
    assert_eq!(m.retired_len(), 0);
}

#[test]
fn read_your_writes() {
    let mut m = WRRMMap::<usize, usize>::new();
    for k in 0..20usize {
        m.update(k, k * 10);
        assert_eq!(m.get(&k), Some(k * 10));
    }
    for k in 0..20usize {
        assert_eq!(m.get(&k), Some(k * 10));
    }
}

#[test]
fn overwrite_keeps_one_entry() {
    let mut m = WRRMMap::<usize, String>::new();
    m.update(4, "first".to_string());
    m.update(4, "second".to_string());
    assert_eq!(m.get(&4), Some("second".to_string()));
    assert_eq!(m.get(&5), None);
}

#[test]
fn sequential_scenario() {
    let mut m = WRRMMap::<usize, usize>::new();
    assert_eq!(m.get(&1), None);
    m.update(1, 2);
    m.update(3, 4);
    m.update(1, 7);
    m.update(6, 12);
    m.update(3, 8);
    m.update(5, 6);
    assert_eq!(m.get(&1), Some(7));
    assert_eq!(m.get(&2), None);
    assert_eq!(m.get(&3), Some(8));
    assert_eq!(m.get(&4), None);
    assert_eq!(m.get(&5), Some(6));
    assert_eq!(m.get(&6), Some(12));
    assert_eq!(m.get(&7), None);
}

/// Two writers interleave step by step: the one whose compare-and-swap
/// fails starts again from the new current snapshot.
#[test]
fn interleaved_writers_scenario() {
    let mut m = WRRMMap::<usize, usize>::new();
    m.update(1, 2);
    m.update(3, 4);

    // the second writer copies, then the first writer publishes first
    let second = m.begin_update(1, 7);
    let first = m.begin_update(3, 8);
    assert!(m.try_publish(first));
    assert!(!m.try_publish(second));
    let second = m.begin_update(1, 7);
    assert!(m.try_publish(second));

    let second = m.begin_update(6, 12);
    let first = m.begin_update(5, 6);
    assert!(m.try_publish(second));
    assert!(!m.try_publish(first));
    let first = m.begin_update(5, 6);
    assert!(m.try_publish(first));

    assert_eq!(m.get(&1), Some(7));
    assert_eq!(m.get(&3), Some(8));
    assert_eq!(m.get(&5), Some(6));
    assert_eq!(m.get(&6), Some(12));
    assert_eq!(m.get(&2), None);
    assert_eq!(m.get(&4), None);
    assert_eq!(m.get(&7), None);
}

/// A failed compare-and-swap changes nothing.
#[test]
fn stale_draft_is_dropped() {
    let mut m = WRRMMap::<usize, usize>::new();
    let stale = m.begin_update(9, 9);
    m.update(1, 1);
    let before = m.load_current();
    assert!(!m.try_publish(stale));
    assert_eq!(m.load_current(), before);
    assert_eq!(m.get(&9), None);
    assert_eq!(m.get(&1), Some(1));
}

/// A reader that confirmed its snapshot before a write keeps reading the
/// old contents, whole; a reader that starts afterwards sees the new ones.
#[test]
fn in_flight_read_sees_one_snapshot() {
    let mut m = WRRMMap::<usize, usize>::new();
    m.update(1, 10);
    m.update(2, 20);

    let rec = m.acquire();
    let p = m.load_current();
    m.announce(rec, p);
    assert!(m.validate(rec));

    m.update(1, 11);
    m.update(2, 21);

    assert_eq!(m.read(rec, &1), Some(10));
    assert_eq!(m.read(rec, &2), Some(20));
    assert_eq!(m.get(&1), Some(11));
    assert_eq!(m.get(&2), Some(21));
    m.release(rec);
}

/// An announcement raced by a publish is not confirmed; the reader announces
/// again and then reads the new snapshot.
#[test]
fn raced_announcement_is_retried() {
    let mut m = WRRMMap::<usize, usize>::new();
    m.update(1, 1);
    let rec = m.acquire();
    let p = m.load_current();
    m.update(1, 2);
    m.announce(rec, p);
    assert!(!m.validate(rec));
    let q = m.load_current();
    assert_ne!(p, q);
    m.announce(rec, q);
    assert!(m.validate(rec));
    assert_eq!(m.read(rec, &1), Some(2));
    m.release(rec);
}

/// A protected snapshot survives any number of writes and scans; once the
/// reader releases it, a scan frees it.
#[test]
fn protected_snapshot_is_not_freed() {
    let mut m = WRRMMap::<usize, usize>::new();
    m.update(7, 70);
    let rec = m.acquire();
    let p = m.load_current();
    m.announce(rec, p);
    assert!(m.validate(rec));

    for i in 0..(3 * RETIRE_LIMIT) {
        m.update(7, i);
        assert!(m.snapshot_is_live(p));
    }
    m.scan();
    assert!(m.snapshot_is_live(p));
    assert_eq!(m.read(rec, &7), Some(70));
    assert_eq!(m.retired_len(), 1);

    m.release(rec);
    m.scan();
    assert!(!m.snapshot_is_live(p));
    assert_eq!(m.retired_len(), 0);
    assert_eq!(m.get(&7), Some(3 * RETIRE_LIMIT - 1));
}

/// Retired snapshots are queued until the limit, then scanned and freed.
#[test]
fn retire_queue_stays_bounded() {
    let mut m = WRRMMap::<usize, usize>::new();
    let mut handles = Vec::new();
    for i in 0..(RETIRE_LIMIT - 1) {
        handles.push(m.load_current());
        m.update(i, i);
        assert_eq!(m.retired_len(), i + 1);
    }
    for h in &handles {
        assert!(m.snapshot_is_live(*h));
    }
    m.update(100, 100);
    assert_eq!(m.retired_len(), 0);
    for h in &handles {
        assert!(!m.snapshot_is_live(*h));
    }
    for i in 0..100usize {
        m.update(i, i + 1);
        assert!(m.retired_len() < RETIRE_LIMIT);
    }
    assert_eq!(m.get(&99), Some(100));
}

/// Readers reuse released records instead of adding new ones.
#[test]
fn records_are_reused() {
    let mut m = WRRMMap::<usize, usize>::new();
    m.update(1, 1);
    assert_eq!(m.get(&1), Some(1));
    assert_eq!(m.record_count(), 1);
    assert_eq!(m.get(&1), Some(1));
    assert_eq!(m.record_count(), 1);
    let a = m.acquire();
    let b = m.acquire();
    assert_eq!(a, 0);
    assert_eq!(b, 1);
    assert_eq!(m.record_count(), 2);
    m.release(a);
    assert_eq!(m.acquire(), 0);
}

/// With a reader holding each retired snapshot, the queue grows no longer
/// than the registry.
#[test]
fn queue_bounded_by_readers() {
    let mut m = WRRMMap::<usize, usize>::new();
    let mut recs = Vec::new();
    for i in 0..8usize {
        let rec = m.acquire();
        let p = m.load_current();
        m.announce(rec, p);
        assert!(m.validate(rec));
        recs.push(rec);
        m.update(0, i);
        assert!(m.retired_len() < RETIRE_LIMIT || m.retired_len() <= m.record_count());
    }
    assert_eq!(m.retired_len(), 8);
    for (i, rec) in recs.iter().enumerate() {
        if i == 0 {
            assert_eq!(m.read(*rec, &0), None);
        } else {
            assert_eq!(m.read(*rec, &0), Some(i - 1));
        }
    }
    for rec in recs {
        m.release(rec);
    }
    m.scan();
    assert_eq!(m.retired_len(), 0);
}
