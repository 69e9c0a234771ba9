use headless_schedule::repeat::{RepeatInterval, RepeatType};
use headless_schedule::schedule::{ClosedData, ClosedStatus, EventSet};

const NOW: i64 = 1_700_000_000;

fn hourly() -> RepeatInterval {
    RepeatInterval::new(RepeatType::Hours, 1).unwrap()
}

/// A set of one hourly event whose last occurrence was `elapsed` seconds before `NOW`.
fn set_with_elapsed(elapsed: i64) -> EventSet {
    let mut s = EventSet::new();
    s.insert(NOW - elapsed, hourly()).unwrap();
    s
}

fn data(is_closed: ClosedStatus, close: EventSet, open: EventSet) -> ClosedData {
    ClosedData { is_closed, close_events: close, open_events: open }
}

#[test]
fn more_recent_close_is_closed() {
    let d = data(ClosedStatus::Automatic, set_with_elapsed(500), set_with_elapsed(3000));
    assert_eq!(d.close_events.min_elapsed(NOW), Ok(Some(500)));
    assert_eq!(d.open_events.min_elapsed(NOW), Ok(Some(3000)));
    assert_eq!(d.is_currently_closed(NOW), Ok(true));
}

#[test]
fn more_recent_open_is_open() {
    let d = data(ClosedStatus::Automatic, set_with_elapsed(3000), set_with_elapsed(500));
    assert_eq!(d.is_currently_closed(NOW), Ok(false));
}

#[test]
fn forced_open_overrides() {
    let mut close = EventSet::new();
    close.insert(NOW - 1, RepeatInterval::new(RepeatType::Weeks, 4).unwrap()).unwrap();
    let mut open = EventSet::new();
    open.insert(NOW - 999_999, RepeatInterval::new(RepeatType::Weeks, 4).unwrap()).unwrap();
    assert_eq!(close.min_elapsed(NOW), Ok(Some(1)));
    assert_eq!(open.min_elapsed(NOW), Ok(Some(999_999)));
    let d = data(ClosedStatus::Open, close, open);
    assert_eq!(d.is_currently_closed(NOW), Ok(false));
}

#[test]
fn forced_closed_overrides() {
    let d = data(ClosedStatus::Closed, EventSet::new(), EventSet::new());
    assert_eq!(d.is_currently_closed(NOW), Ok(true));
}

#[test]
fn equal_elapsed_is_open() {
    let d = data(ClosedStatus::Automatic, set_with_elapsed(1200), set_with_elapsed(1200));
    assert_eq!(d.is_currently_closed(NOW), Ok(false));
}

#[test]
fn empty_sets_give_none() {
    let s = EventSet::new();
    assert_eq!(s.min_elapsed(NOW), Ok(None));
    assert_eq!(s.soonest_next(NOW), Ok(None));
    assert!(s.is_empty());
}

#[test]
fn empty_close_set_is_open() {
    let d = data(ClosedStatus::Automatic, EventSet::new(), set_with_elapsed(10));
    assert_eq!(d.is_currently_closed(NOW), Ok(false));
    let d = data(ClosedStatus::Automatic, set_with_elapsed(10), EventSet::new());
    assert_eq!(d.is_currently_closed(NOW), Ok(false));
    let d = ClosedData::default();
    assert_eq!(d.is_closed, ClosedStatus::Automatic);
    assert_eq!(d.is_currently_closed(NOW), Ok(false));
}

#[test]
fn minimum_over_several_events() {
    let mut s = EventSet::new();
    s.insert(NOW - 900, hourly()).unwrap();
    s.insert(NOW - 200, RepeatInterval::new(RepeatType::Days, 1).unwrap()).unwrap();
    s.insert(NOW - 3500, hourly()).unwrap();
    assert_eq!(s.min_elapsed(NOW), Ok(Some(200)));
    assert_eq!(s.soonest_next(NOW), Ok(Some(NOW + 100)));
}

#[test]
fn ids_follow_the_greatest() {
    let mut s = EventSet::new();
    assert_eq!(s.insert(10, hourly()), Some(0));
    assert_eq!(s.insert(20, hourly()), Some(1));
    assert_eq!(s.insert(30, hourly()), Some(2));
    assert_eq!(s.remove(1).map(|e| e.initial), Some(20));
    assert_eq!(s.insert(40, hourly()), Some(3));
    assert_eq!(s.remove(3).map(|e| e.id), Some(3));
    assert_eq!(s.insert(50, hourly()), Some(3));
    assert_eq!(s.get(0).map(|e| e.initial), Some(10));
    assert_eq!(s.len(), 3);
}

#[test]
fn remove_missing_id_changes_nothing() {
    let mut s = EventSet::new();
    s.insert(10, hourly()).unwrap();
    s.insert(20, hourly()).unwrap();
    let mut before: Vec<usize> = s.events().iter().map(|e| e.id).collect();
    before.sort();
    assert_eq!(s.remove(7), None);
    let mut after: Vec<usize> = s.events().iter().map(|e| e.id).collect();
    after.sort();
    assert_eq!(before, vec![0, 1]);
    assert_eq!(before, after);
    assert_eq!(s.len(), 2);
}

#[test]
fn add_keeps_ids_unique() {
    let mut s = EventSet::new();
    let e = headless_schedule::repeat::RepeatingEvent { id: 5, initial: 0, repeating: hourly() };
    assert!(s.add(e));
    assert!(!s.add(e));
    assert_eq!(s.len(), 1);
    assert_eq!(s.insert(1, hourly()), Some(6));
}

#[test]
fn no_id_after_the_largest() {
    let mut s = EventSet::new();
    let e = headless_schedule::repeat::RepeatingEvent { id: usize::MAX, initial: 0, repeating: hourly() };
    assert!(s.add(e));
    assert_eq!(s.insert(1, hourly()), None);
    assert_eq!(s.len(), 1);
}
