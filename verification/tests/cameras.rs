use vex_vision_scoring::camera::{capture, CameraSet, CaptureError, OpenError, Probe};
use vex_vision_scoring::frame::{ColorLayout, Frame};

fn probe(camera_id: i32, opened: bool) -> Probe {
    Probe { camera_id, opened }
}

fn ids(set: &CameraSet) -> Vec<i32> {
    (0..set.len()).map(|i| set.id_at(i).expect("an index in range")).collect()
}

#[test]
fn open_keeps_the_cameras_that_opened() {
    let set = CameraSet::open(&vec![probe(0, true), probe(1, true)]).expect("two cameras");
    assert_eq!(ids(&set), vec![0, 1]);
    assert_eq!(set.len(), 2);
}

#[test]
fn open_leaves_out_a_camera_that_failed() {
    let set = CameraSet::open(&vec![probe(0, false), probe(1, true), probe(2, false)])
        .expect("one camera");
    assert_eq!(ids(&set), vec![1]);
    let set = CameraSet::open(&vec![probe(3, true), probe(1, false), probe(2, true)])
        .expect("two cameras");
    assert_eq!(ids(&set), vec![3, 2]);
}

#[test]
fn open_without_a_camera_fails() {
    assert_eq!(CameraSet::open(&vec![]).err(), Some(OpenError::NoCameras));
    assert_eq!(
        CameraSet::open(&vec![probe(0, false), probe(1, false)]).err(),
        Some(OpenError::NoCameras)
    );
}

#[test]
fn open_takes_a_camera_once() {
    let set = CameraSet::open(&vec![probe(0, true), probe(1, true), probe(0, true)])
        .expect("two cameras");
    assert_eq!(ids(&set), vec![0, 1]);
    let set = CameraSet::open(&vec![probe(0, false), probe(0, true), probe(0, true)])
        .expect("one camera");
    assert_eq!(ids(&set), vec![0]);
}

#[test]
fn id_at_ends_with_the_set() {
    let set = CameraSet::open(&vec![probe(5, true)]).expect("one camera");
    assert_eq!(set.id_at(0), Some(5));
    assert_eq!(set.id_at(1), None);
    assert_eq!(set.id_at(usize::MAX), None);
}

#[test]
fn capture_passes_a_frame_on() {
    let frame = Frame { width: 1, height: 1, layout: ColorLayout::Gray, data: vec![9] };
    let same = Frame { width: 1, height: 1, layout: ColorLayout::Gray, data: vec![9] };
    assert_eq!(capture(true, frame), Ok(same));
}

#[test]
fn capture_reports_a_failed_read() {
    let frame = Frame { width: 1, height: 1, layout: ColorLayout::Gray, data: vec![9] };
    assert_eq!(capture(false, frame), Err(CaptureError::ReadFailed));
    let none = Frame { width: 0, height: 0, layout: ColorLayout::Bgr, data: vec![] };
    assert_eq!(capture(false, none), Err(CaptureError::ReadFailed));
}

#[test]
fn capture_reports_an_empty_frame() {
    let none = Frame { width: 0, height: 0, layout: ColorLayout::Bgr, data: vec![] };
    assert_eq!(capture(true, none), Err(CaptureError::EmptyFrame));
    let flat = Frame { width: 3, height: 0, layout: ColorLayout::Bgr, data: vec![] };
    assert_eq!(capture(true, flat), Err(CaptureError::EmptyFrame));
    let hollow = Frame { width: 2, height: 2, layout: ColorLayout::Bgr, data: vec![] };
    assert_eq!(capture(true, hollow), Err(CaptureError::EmptyFrame));
}
