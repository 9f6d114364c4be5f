use tailwindcss_oxide::mtime::{changed_time_since, ChangeFilter, Probe, TimedNode};

fn file(modified: u128) -> TimedNode {
    TimedNode { is_dir: false, modified: Some(modified), listed: false, children: vec![] }
}

fn dir(modified: u128, children: Vec<TimedNode>) -> TimedNode {
    TimedNode { is_dir: true, modified: Some(modified), listed: true, children }
}

fn unreadable() -> TimedNode {
    TimedNode { is_dir: false, modified: None, listed: false, children: vec![] }
}

#[test]
fn a_directory_modified_since_is_not_searched() {
    let node = dir(20, vec![unreadable(), file(99)]);
    assert_eq!(changed_time_since(&node, 10), Some(20));
}

#[test]
fn the_first_file_modified_since_ends_the_search() {
    let node = dir(5, vec![file(3), file(12), file(50), unreadable()]);
    assert_eq!(changed_time_since(&node, 10), Some(12));
}

#[test]
fn a_change_deep_down_is_found() {
    // /dir-1/dir-2/my-file: writing the file does not touch `dir-1`
    let node = dir(5, vec![dir(6, vec![dir(7, vec![file(4), file(30)])]), file(2)]);
    assert_eq!(changed_time_since(&node, 10), Some(30));
    // a change in one directory does not end the search in the one above
    let node = dir(5, vec![dir(6, vec![file(30)]), dir(7, vec![file(40)]), file(50)]);
    assert_eq!(changed_time_since(&node, 10), Some(50));
    let node = dir(5, vec![dir(6, vec![file(40)]), dir(7, vec![file(30)])]);
    assert_eq!(changed_time_since(&node, 10), Some(40));
}

#[test]
fn without_a_change_the_latest_directory_time_is_returned() {
    let node = dir(5, vec![file(9), dir(8, vec![file(1)]), dir(6, vec![dir(7, vec![])])]);
    assert_eq!(changed_time_since(&node, 10), Some(8));
    assert_eq!(changed_time_since(&dir(10, vec![file(10)]), 10), Some(10));
    assert_eq!(changed_time_since(&dir(3, vec![]), 10), Some(3));
}

#[test]
fn what_cannot_be_read_ends_the_search_without_a_result() {
    assert_eq!(changed_time_since(&unreadable(), 10), None);
    assert_eq!(changed_time_since(&dir(5, vec![file(1), unreadable(), file(99)]), 10), None);
    assert_eq!(changed_time_since(&dir(5, vec![dir(4, vec![unreadable()])]), 10), None);
    let unlisted = TimedNode { is_dir: true, modified: Some(5), listed: false, children: vec![] };
    assert_eq!(changed_time_since(&unlisted, 10), None);
    assert_eq!(changed_time_since(&unlisted, 4), Some(5));
    assert_eq!(changed_time_since(&dir(5, vec![dir(4, vec![]), unlisted]), 10), None);
}

#[test]
fn the_filter_admits_what_is_new_or_has_changed() {
    let mut filter = ChangeFilter::new();
    let path = "/base/src".to_string();
    assert_eq!(filter.probe(&path, true), Probe::Own);
    assert!(filter.observe(path.clone(), 100));
    assert_eq!(filter.probe(&path, true), Probe::Effective { since: 100 });
    assert_eq!(filter.probe(&path, false), Probe::Own);
    assert!(!filter.observe(path.clone(), 100));
    assert!(filter.observe(path.clone(), 101));
    assert_eq!(filter.probe(&path, true), Probe::Effective { since: 101 });
    // an earlier time is a change too
    assert!(filter.observe(path.clone(), 50));
    assert!(!filter.observe(path.clone(), 50));
    // other paths are told apart
    assert_eq!(filter.probe(&"/base/src2".to_string(), true), Probe::Own);
    assert!(filter.observe("/base/src2".to_string(), 50));
    assert!(!filter.observe(path, 50));
}

#[test]
fn what_cannot_be_measured_is_admitted_and_recorded_with_the_time_of_the_clock() {
    let mut filter = ChangeFilter::new();
    let path = "/base/gone".to_string();
    assert!(filter.observe_measured(path.clone(), Some(5), 77));
    assert!(!filter.observe_measured(path.clone(), Some(5), 78));
    // measuring fails: admitted, and the clock's time is recorded
    assert!(filter.observe_measured(path.clone(), None, 79));
    assert_eq!(filter.probe(&path, true), Probe::Effective { since: 79 });
    // admitted again even when the clock stands still
    assert!(filter.observe_measured(path.clone(), None, 79));
    assert!(!filter.observe_measured(path.clone(), Some(79), 80));
    assert!(filter.observe_measured(path.clone(), Some(81), 80));
    assert_eq!(filter.probe(&path, true), Probe::Effective { since: 81 });
    // a path never seen, and not measurable
    assert!(filter.observe_measured("/base/new".to_string(), None, 3));
    assert_eq!(filter.probe(&"/base/new".to_string(), true), Probe::Effective { since: 3 });
}
