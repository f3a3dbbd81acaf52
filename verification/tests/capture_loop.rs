use vex_vision_scoring::camera::{CameraSet, CaptureError, Probe};
use vex_vision_scoring::capture::{publish, Action, CaptureLoop, Event, Step};
use vex_vision_scoring::frame::{ColorLayout, Frame};
use vex_vision_scoring::score::{ScoreEntry, ScoreStore};

fn cameras(ids: &[i32]) -> CameraSet {
    let probes: Vec<Probe> = ids.iter().map(|&camera_id| Probe { camera_id, opened: true }).collect();
    CameraSet::open(&probes).expect("at least one camera")
}

fn entry(camera_id: i32, ball_count: u32) -> ScoreEntry {
    ScoreEntry { camera_id, ball_count }
}

/// A colour frame with `blobs` white squares on black, one pixel apart.
fn frame_with(blobs: usize) -> Frame {
    let width = 2 * blobs + 1;
    let height = 3;
    let mut data = vec![0u8; width * height * 3];
    for k in 0..blobs {
        let x = 2 * k + 1;
        let at = (width + x) * 3;
        data[at] = 255;
        data[at + 1] = 255;
        data[at + 2] = 255;
    }
    Frame { width, height, layout: ColorLayout::Bgr, data }
}

/// Takes one step and publishes its score.
fn step(capture: &mut CaptureLoop, scores: &mut ScoreStore, event: Event) -> Action {
    let step = capture.step(event);
    publish(scores, &step);
    step.action
}

/// Runs one tick: the sources answer the reads in the order asked.
fn tick(
    capture: &mut CaptureLoop,
    scores: &mut ScoreStore,
    active: bool,
    mut source: impl FnMut(i32) -> Result<Frame, CaptureError>,
) -> Vec<i32> {
    let mut asked = Vec::new();
    let mut action = step(capture, scores, Event::Tick { active });
    loop {
        match action {
            Action::Sleep { millis } => {
                assert_eq!(millis, 100);
                return asked;
            }
            Action::Read { camera_id } => {
                asked.push(camera_id);
                action = step(capture, scores, Event::Captured(source(camera_id)));
            }
        }
    }
}

fn setup(ids: &[i32]) -> (CaptureLoop, ScoreStore) {
    let scores = ScoreStore::new(&cameras(ids));
    (CaptureLoop::new(cameras(ids), 200, 100), scores)
}

#[test]
fn new_loop_rests() {
    let (capture, _) = setup(&[0, 1]);
    assert_eq!(capture.action(), Action::Sleep { millis: 100 });
}

#[test]
fn inactive_ticks_leave_the_scores() {
    let (mut capture, mut scores) = setup(&[0, 1]);
    assert!(scores.update(0, 3));
    assert!(scores.update(1, 5));
    for _ in 0..25 {
        let asked = tick(&mut capture, &mut scores, false, |_| Ok(frame_with(9)));
        assert!(asked.is_empty());
        assert_eq!(scores.snapshot(), vec![entry(0, 3), entry(1, 5)]);
    }
}

#[test]
fn two_cameras_publish_three_and_five() {
    let (mut capture, mut scores) = setup(&[0, 1]);
    let asked = tick(&mut capture, &mut scores, true, |camera_id| {
        Ok(frame_with(if camera_id == 0 { 3 } else { 5 }))
    });
    assert_eq!(asked, vec![0, 1]);
    assert_eq!(scores.snapshot(), vec![entry(0, 3), entry(1, 5)]);
}

#[test]
fn failed_capture_keeps_the_last_score() {
    let (mut capture, mut scores) = setup(&[0, 1]);
    tick(&mut capture, &mut scores, true, |camera_id| {
        Ok(frame_with(if camera_id == 0 { 3 } else { 5 }))
    });
    assert_eq!(scores.snapshot(), vec![entry(0, 3), entry(1, 5)]);
    let asked = tick(&mut capture, &mut scores, true, |camera_id| {
        if camera_id == 0 {
            Err(CaptureError::ReadFailed)
        } else {
            Ok(frame_with(2))
        }
    });
    assert_eq!(asked, vec![0, 1]);
    assert_eq!(scores.snapshot(), vec![entry(0, 3), entry(1, 2)]);
}

#[test]
fn empty_frame_keeps_the_last_score() {
    let (mut capture, mut scores) = setup(&[0, 1]);
    tick(&mut capture, &mut scores, true, |_| Ok(frame_with(4)));
    tick(&mut capture, &mut scores, true, |camera_id| {
        if camera_id == 1 {
            Err(CaptureError::EmptyFrame)
        } else {
            Ok(frame_with(1))
        }
    });
    assert_eq!(scores.snapshot(), vec![entry(0, 1), entry(1, 4)]);
}

#[test]
fn malformed_frame_keeps_the_last_score() {
    let (mut capture, mut scores) = setup(&[0, 1]);
    tick(&mut capture, &mut scores, true, |_| Ok(frame_with(4)));
    tick(&mut capture, &mut scores, true, |camera_id| {
        if camera_id == 0 {
            Ok(Frame { width: 2, height: 2, layout: ColorLayout::Bgr, data: vec![255; 5] })
        } else {
            Ok(frame_with(0))
        }
    });
    assert_eq!(scores.snapshot(), vec![entry(0, 4), entry(1, 0)]);
}

#[test]
fn cameras_are_read_in_their_order() {
    let (mut capture, mut scores) = setup(&[7, 3, 5]);
    let asked = tick(&mut capture, &mut scores, true, |camera_id| {
        Ok(frame_with(camera_id as usize))
    });
    assert_eq!(asked, vec![7, 3, 5]);
    assert_eq!(scores.snapshot(), vec![entry(7, 7), entry(3, 3), entry(5, 5)]);
}

#[test]
fn flag_is_sampled_once_a_tick() {
    let (mut capture, mut scores) = setup(&[0, 1]);
    assert_eq!(step(&mut capture, &mut scores, Event::Tick { active: true }), Action::Read { camera_id: 0 });
    assert_eq!(capture.action(), Action::Read { camera_id: 0 });
    assert_eq!(
        step(&mut capture, &mut scores, Event::Captured(Ok(frame_with(1)))),
        Action::Read { camera_id: 1 }
    );
    assert_eq!(
        step(&mut capture, &mut scores, Event::Captured(Ok(frame_with(2)))),
        Action::Sleep { millis: 100 }
    );
    assert_eq!(step(&mut capture, &mut scores, Event::Tick { active: false }), Action::Sleep { millis: 100 });
    assert_eq!(scores.snapshot(), vec![entry(0, 1), entry(1, 2)]);
}

#[test]
fn outcome_without_a_read_is_dropped() {
    let (mut capture, mut scores) = setup(&[0, 1]);
    assert_eq!(
        step(&mut capture, &mut scores, Event::Captured(Ok(frame_with(6)))),
        Action::Sleep { millis: 100 }
    );
    assert_eq!(scores.snapshot(), vec![entry(0, 0), entry(1, 0)]);
}

#[test]
fn tick_during_a_round_starts_over() {
    let (mut capture, mut scores) = setup(&[0, 1]);
    step(&mut capture, &mut scores, Event::Tick { active: true });
    step(&mut capture, &mut scores, Event::Captured(Ok(frame_with(1))));
    assert_eq!(step(&mut capture, &mut scores, Event::Tick { active: true }), Action::Read { camera_id: 0 });
    assert_eq!(step(&mut capture, &mut scores, Event::Tick { active: false }), Action::Sleep { millis: 100 });
    assert_eq!(scores.snapshot(), vec![entry(0, 1), entry(1, 0)]);
}

#[test]
fn threshold_of_the_loop_is_used() {
    let scores_for = |threshold: u8| {
        let mut scores = ScoreStore::new(&cameras(&[0]));
        let mut capture = CaptureLoop::new(cameras(&[0]), threshold, 250);
        assert_eq!(step(&mut capture, &mut scores, Event::Tick { active: true }), Action::Read { camera_id: 0 });
        let frame = Frame { width: 3, height: 1, layout: ColorLayout::Gray, data: vec![120, 0, 220] };
        assert_eq!(step(&mut capture, &mut scores, Event::Captured(Ok(frame))), Action::Sleep { millis: 250 });
        scores.snapshot()
    };
    assert_eq!(scores_for(200), vec![entry(0, 1)]);
    assert_eq!(scores_for(100), vec![entry(0, 2)]);
    assert_eq!(scores_for(221), vec![entry(0, 0)]);
}

#[test]
fn step_hands_back_the_score_to_publish() {
    let (mut capture, _) = setup(&[4, 6]);
    assert_eq!(
        capture.step(Event::Tick { active: true }),
        Step { action: Action::Read { camera_id: 4 }, publish: None }
    );
    assert_eq!(
        capture.step(Event::Captured(Ok(frame_with(2)))),
        Step {
            action: Action::Read { camera_id: 6 },
            publish: Some(entry(4, 2)),
        }
    );
    assert_eq!(
        capture.step(Event::Captured(Err(CaptureError::ReadFailed))),
        Step { action: Action::Sleep { millis: 100 }, publish: None }
    );
    assert_eq!(
        capture.step(Event::Tick { active: false }),
        Step { action: Action::Sleep { millis: 100 }, publish: None }
    );
}

#[test]
fn publish_drops_a_score_of_an_unknown_camera() {
    let mut scores = ScoreStore::new(&cameras(&[0, 1]));
    let stray = Step { action: Action::Sleep { millis: 100 }, publish: Some(entry(9, 4)) };
    publish(&mut scores, &stray);
    assert_eq!(scores.snapshot(), vec![entry(0, 0), entry(1, 0)]);
    let known = Step { action: Action::Sleep { millis: 100 }, publish: Some(entry(1, 4)) };
    publish(&mut scores, &known);
    assert_eq!(scores.snapshot(), vec![entry(0, 0), entry(1, 4)]);
}
