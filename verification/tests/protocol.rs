//! The protocol driven through the cell's operations, one interleaving of
//! the concurrent steps at a time.

use rcu_128::RcuCell;

#[test]
fn fresh_cell_shape() {
    let cell = RcuCell::new(42u64);
    assert_eq!(cell.reader_count(), 0);
    assert_eq!(cell.station_ptr(), 0);
    assert_eq!(cell.station_count(), 0);
    assert_eq!(cell.parked_count(), 0);
    assert_eq!(cell.allocation_count(), 1);
    assert_eq!(cell.live_count(), 1);
}

#[test]
fn read_observes_initial_value() {
    let mut cell = RcuCell::new(42u64);
    let guard = cell.read();
    assert_eq!(*cell.get(&guard), 42);
    cell.drop_guard(guard);
    assert_eq!(cell.live_count(), 1);
}

#[test]
fn solo_reader_after_solo_writer() {
    let mut cell = RcuCell::new(0u64);
    cell.write(1);
    let guard = cell.read();
    assert_eq!(*cell.get(&guard), 1);
    cell.drop_guard(guard);
    // the displaced initial value was freed; only the latest lives
    assert_eq!(cell.allocation_count(), 2);
    assert_eq!(cell.live_count(), 1);
}

#[test]
fn stale_guard_crosses_a_write() {
    let mut cell = RcuCell::new(String::from("a"));
    let guard = cell.read();
    let p = guard.captured();
    cell.write(String::from("b"));
    // the old value still has a reader: it waits in the retirement station
    assert_eq!(cell.station_ptr(), p);
    assert_eq!(cell.station_count(), 1);
    assert_eq!(cell.live_count(), 2);
    assert_eq!(cell.get(&guard), "a");
    cell.drop_guard(guard);
    // exactly one free of "a": the station emptied and only "b" lives
    assert_eq!(cell.station_ptr(), 0);
    assert_eq!(cell.live_count(), 1);
    let guard = cell.read();
    assert_eq!(cell.get(&guard), "b");
    cell.drop_guard(guard);
}

#[test]
fn reader_release_after_writer_hand_off() {
    // the drop path lands on the retirement station, and the drain then
    // completes the writer's reclamation
    let mut cell = RcuCell::new(7u64);
    let guard = cell.read();
    let p = guard.captured();
    cell.write(8);
    assert_eq!(cell.station_ptr(), p);
    assert_eq!(cell.station_count(), 1);
    cell.drop_guard(guard);
    assert_eq!(cell.station_ptr(), 0);
    assert_eq!(cell.station_count(), 0);
    assert_eq!(cell.live_count(), 1);
}

#[test]
fn parked_word_drains_behind_the_station() {
    let mut cell = RcuCell::new(10u64);
    let g0 = cell.read();
    cell.write(11);
    let g1 = cell.read();
    cell.write(12);
    // the first displaced word occupies the station, the second is parked
    assert_eq!(cell.station_ptr(), g0.captured());
    assert_eq!(cell.parked_count(), 1);
    assert_eq!(cell.live_count(), 3);
    // both stale guards still dereference safely
    assert_eq!(*cell.get(&g0), 10);
    assert_eq!(*cell.get(&g1), 11);
    // dropping the older guard frees its value and admits the parked word
    cell.drop_guard(g0);
    assert_eq!(cell.station_ptr(), g1.captured());
    assert_eq!(cell.parked_count(), 0);
    assert_eq!(cell.live_count(), 2);
    cell.drop_guard(g1);
    assert_eq!(cell.station_ptr(), 0);
    assert_eq!(cell.live_count(), 1);
}

#[test]
fn drop_order_does_not_matter() {
    // two identically driven cells, guards released in opposite orders
    let mut a = RcuCell::new(0u64);
    let mut b = RcuCell::new(0u64);
    let a0 = a.read();
    let b0 = b.read();
    a.write(1);
    b.write(1);
    let a1 = a.read();
    let b1 = b.read();
    a.write(2);
    b.write(2);
    a.drop_guard(a0);
    a.drop_guard(a1);
    b.drop_guard(b1);
    b.drop_guard(b0);
    assert_eq!(a.live_count(), 1);
    assert_eq!(b.live_count(), 1);
    assert_eq!(a.station_ptr(), 0);
    assert_eq!(b.station_ptr(), 0);
    assert_eq!(a.parked_count(), 0);
    assert_eq!(b.parked_count(), 0);
    assert_eq!(a.latest_ptr(), b.latest_ptr());
    let ga = a.read();
    let gb = b.read();
    let va = *a.get(&ga);
    let vb = *b.get(&gb);
    assert_eq!(va, vb);
    a.drop_guard(ga);
    b.drop_guard(gb);
}

#[test]
fn update_applies_function_to_current_value() {
    let mut cell = RcuCell::new(42u64);
    cell.update(|x: &u64| x + 1);
    let guard = cell.read();
    assert_eq!(*cell.get(&guard), 43);
    cell.drop_guard(guard);
}

#[test]
fn sequential_updates_compose() {
    let mut cell = RcuCell::new(3u64);
    cell.update(|x: &u64| x * 10);
    cell.update(|x: &u64| x + 4);
    let guard = cell.read();
    assert_eq!(*cell.get(&guard), 34);
    cell.drop_guard(guard);
    assert_eq!(cell.live_count(), 1);
}

#[test]
fn counters_track_outstanding_guards() {
    let mut cell = RcuCell::new(5u64);
    let g1 = cell.read();
    let g2 = cell.read();
    let g3 = cell.read();
    assert_eq!(cell.reader_count(), 3);
    cell.drop_guard(g2);
    assert_eq!(cell.reader_count(), 2);
    cell.write(6);
    // the two remaining increments migrated with the displaced word
    assert_eq!(cell.reader_count(), 0);
    assert_eq!(cell.station_count(), 2);
    cell.drop_guard(g1);
    assert_eq!(cell.station_count(), 1);
    cell.drop_guard(g3);
    assert_eq!(cell.station_count(), 0);
    assert_eq!(cell.live_count(), 1);
}

#[test]
fn latest_pointers_never_repeat() {
    let mut cell = RcuCell::new(0u64);
    let mut seen = vec![cell.latest_ptr()];
    for i in 0..100u64 {
        cell.write(i);
        let p = cell.latest_ptr();
        assert!(!seen.contains(&p));
        seen.push(p);
    }
    assert_eq!(cell.live_count(), 1);
}

#[test]
fn station_never_names_latest() {
    let mut cell = RcuCell::new(0u64);
    let mut guards = Vec::new();
    for i in 0..20u64 {
        guards.push(cell.read());
        cell.write(i);
        if cell.station_ptr() != 0 {
            assert_ne!(cell.station_ptr(), cell.latest_ptr());
        }
        if guards.len() > 3 {
            let g = guards.remove(0);
            cell.drop_guard(g);
        }
    }
    for g in guards {
        cell.drop_guard(g);
    }
    assert_eq!(cell.live_count(), 1);
}

#[test]
fn many_readers_one_writer_rolling_window() {
    let mut cell = RcuCell::new(0u64);
    let mut installed = vec![0u64];
    let mut window = Vec::new();
    for step in 0..400u64 {
        if step % 10 == 0 {
            let v = step / 10 + 1;
            cell.write(v);
            installed.push(v);
        }
        window.push(cell.read());
        if window.len() > 4 {
            let g = window.remove(0);
            cell.drop_guard(g);
        }
        // every dereference sees a value the writer installed
        for g in &window {
            assert!(installed.contains(cell.get(g)));
        }
    }
    for g in window {
        cell.drop_guard(g);
    }
    assert_eq!(cell.station_ptr(), 0);
    assert_eq!(cell.parked_count(), 0);
    assert_eq!(cell.live_count(), 1);
}

#[test]
fn write_contention_interleaved() {
    // eight writers' operations interleaved round-robin, four readers
    // acquiring and releasing throughout
    let mut cell = RcuCell::new(u64::MAX);
    let mut readers = Vec::new();
    for round in 0..1000u64 {
        for tid in 0..8u64 {
            cell.write(tid);
            if readers.len() < 4 {
                readers.push(cell.read());
            }
        }
        if round % 2 == 0 {
            for g in readers.drain(..) {
                cell.drop_guard(g);
            }
        }
    }
    for g in readers {
        cell.drop_guard(g);
    }
    // all 8000 displaced values and the initial one were freed exactly once
    assert_eq!(cell.allocation_count(), 8001);
    assert_eq!(cell.live_count(), 1);
    let guard = cell.read();
    assert!(*cell.get(&guard) < 8);
    cell.drop_guard(guard);
}

#[test]
fn update_races_write_interleaved() {
    let mut cell = RcuCell::new(0u64);
    for i in 0..10_000u64 {
        cell.update(|x: &u64| x + 1);
        if i % 100 == 50 {
            cell.write(0);
        }
    }
    // no lost frees, whatever the interleaving
    assert_eq!(cell.allocation_count(), 10_101);
    assert_eq!(cell.live_count(), 1);
    let guard = cell.read();
    // the final value reflects whichever operation came last: the last
    // write of zero followed by the updates after it
    assert_eq!(*cell.get(&guard), 49);
    cell.drop_guard(guard);
}

#[test]
fn guards_on_distinct_versions_all_dereference() {
    let mut cell = RcuCell::new(String::from("v0"));
    let g0 = cell.read();
    cell.write(String::from("v1"));
    let g1 = cell.read();
    cell.write(String::from("v2"));
    let g2 = cell.read();
    assert_eq!(cell.get(&g0), "v0");
    assert_eq!(cell.get(&g1), "v1");
    assert_eq!(cell.get(&g2), "v2");
    cell.drop_guard(g1);
    cell.drop_guard(g2);
    cell.drop_guard(g0);
    assert_eq!(cell.live_count(), 1);
}
