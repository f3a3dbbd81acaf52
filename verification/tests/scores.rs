use vex_vision_scoring::camera::{CameraSet, Probe};
use vex_vision_scoring::flag::ActiveFlag;
use vex_vision_scoring::score::{ScoreEntry, ScoreStore};

fn cameras(ids: &[i32]) -> CameraSet {
    let probes: Vec<Probe> = ids.iter().map(|&camera_id| Probe { camera_id, opened: true }).collect();
    CameraSet::open(&probes).expect("at least one camera")
}

fn entry(camera_id: i32, ball_count: u32) -> ScoreEntry {
    ScoreEntry { camera_id, ball_count }
}

#[test]
fn new_store_has_a_zero_for_every_camera() {
    let store = ScoreStore::new(&cameras(&[0, 1]));
    assert_eq!(store.snapshot(), vec![entry(0, 0), entry(1, 0)]);
    let store = ScoreStore::new(&cameras(&[7, 3, 5]));
    assert_eq!(store.snapshot(), vec![entry(7, 0), entry(3, 0), entry(5, 0)]);
}

#[test]
fn update_shows_in_snapshot_and_leaves_the_others() {
    let mut store = ScoreStore::new(&cameras(&[0, 1, 2]));
    assert!(store.update(1, 4));
    assert_eq!(store.snapshot(), vec![entry(0, 0), entry(1, 4), entry(2, 0)]);
    assert!(store.update(2, 9));
    assert_eq!(store.snapshot(), vec![entry(0, 0), entry(1, 4), entry(2, 9)]);
    assert!(store.update(1, 0));
    assert_eq!(store.snapshot(), vec![entry(0, 0), entry(1, 0), entry(2, 9)]);
}

#[test]
fn update_replaces_the_count() {
    let mut store = ScoreStore::new(&cameras(&[0]));
    assert!(store.update(0, 3));
    assert!(store.update(0, u32::MAX));
    assert_eq!(store.snapshot(), vec![entry(0, u32::MAX)]);
    assert_eq!(store.get(0), Some(u32::MAX));
}

#[test]
fn update_of_unknown_camera_is_ignored() {
    let mut store = ScoreStore::new(&cameras(&[0, 1]));
    assert!(store.update(0, 2));
    assert!(!store.update(5, 8));
    assert!(!store.update(-1, 8));
    assert_eq!(store.snapshot(), vec![entry(0, 2), entry(1, 0)]);
    assert_eq!(store.get(5), None);
}

#[test]
fn get_reads_one_camera() {
    let mut store = ScoreStore::new(&cameras(&[4, 2]));
    assert_eq!(store.get(4), Some(0));
    assert!(store.update(2, 6));
    assert_eq!(store.get(2), Some(6));
    assert_eq!(store.get(4), Some(0));
    assert_eq!(store.get(3), None);
}

#[test]
fn snapshot_is_independent_of_the_store() {
    let mut store = ScoreStore::new(&cameras(&[0, 1]));
    let mut before = store.snapshot();
    assert!(store.update(0, 5));
    assert_eq!(before, vec![entry(0, 0), entry(1, 0)]);
    before[1].ball_count = 77;
    assert_eq!(store.snapshot(), vec![entry(0, 5), entry(1, 0)]);
}

#[test]
fn flag_starts_off() {
    let flag = ActiveFlag::new();
    assert!(!flag.read());
}

#[test]
fn toggle_alternates() {
    let mut flag = ActiveFlag::new();
    assert!(flag.toggle());
    assert!(flag.read());
    assert!(!flag.toggle());
    assert!(!flag.read());
}

#[test]
fn two_toggles_restore_the_flag() {
    let mut flag = ActiveFlag::new();
    flag.toggle();
    let before = flag.read();
    flag.toggle();
    flag.toggle();
    assert_eq!(flag.read(), before);
}
