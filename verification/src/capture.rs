//! The capture loop as a state machine. Its driver sleeps, reads the devices
//! and writes the scores; every decision is made here.
//!
//! A tick begins with the state of the activity flag. While the flag is off
//! the loop rests. While it is on, the cameras are read one after the other,
//! in the set's order; each delivered frame is counted and the count is
//! published, and a camera that fails keeps its last count.
//!
//! The loop never holds the score store: a step hands back the score to
//! publish, so that the store is locked for the write alone and not while a
//! frame is being counted.

use crate::camera::{CameraSet, CaptureError};
use crate::detect::{count_objects, counted};
use crate::frame::Frame;
use crate::score::{ids_of, with_count, ScoreEntry, ScoreStore};
use vstd::prelude::*;

verus! {

/// What happened outside the loop.
#[derive(Debug)]
pub enum Event {
    /// A tick began, and the activity flag was in this state.
    Tick { active: bool },
    /// The read that the loop asked for ended like this.
    Captured(Result<Frame, CaptureError>),
}

/// What the driver does next.
#[derive(Clone, Copy, Debug, PartialEq, Eq, Structural)]
pub enum Action {
    /// Sleep for this long, then report the next tick.
    Sleep { millis: u64 },
    /// Read this camera and report how the read ended.
    Read { camera_id: i32 },
}

/// What the loop answers to an event.
#[derive(Clone, Copy, Debug, PartialEq, Eq, Structural)]
pub struct Step {
    /// What the driver does next.
    pub action: Action,
    /// The score to publish before that, if the event gave one.
    pub publish: Option<ScoreEntry>,
}

/// The state of the loop: its cameras, its settings, and `cursor`, the
/// position of the camera whose read is awaited. While the loop rests,
/// `cursor` is the number of cameras.
pub struct LoopState {
    pub cameras: Seq<i32>,
    pub threshold: u8,
    pub tick_millis: u64,
    pub cursor: nat,
}

impl LoopState {
    /// True when no read is awaited.
    pub open spec fn resting(self) -> bool {
        self.cursor >= self.cameras.len()
    }

    /// The state with another cursor.
    pub open spec fn at(self, cursor: nat) -> LoopState {
        LoopState { cursor, ..self }
    }

    /// What the driver does in this state.
    pub open spec fn action(self) -> Action {
        if self.resting() {
            Action::Sleep { millis: self.tick_millis }
        } else {
            Action::Read { camera_id: self.cameras[self.cursor as int] }
        }
    }
}

/// What one read of `camera_id` gives to publish: the camera's new score
/// where a frame was delivered and could be counted, nothing otherwise.
pub open spec fn reading(camera_id: i32, threshold: u8, outcome: Result<Frame, CaptureError>)
    -> Option<ScoreEntry> {
    match outcome {
        Ok(frame) => match counted(frame, threshold) {
            Ok(count) => Some(ScoreEntry { camera_id, ball_count: count }),
            Err(_) => None,
        },
        Err(_) => None,
    }
}

/// The score that `event` gives to publish in `state`, if any.
pub open spec fn published(state: LoopState, event: Event) -> Option<ScoreEntry> {
    match event {
        Event::Tick { active } => None,
        Event::Captured(outcome) => if state.resting() {
            None
        } else {
            reading(state.cameras[state.cursor as int], state.threshold, outcome)
        },
    }
}

/// The state after `event`.
pub open spec fn advanced(state: LoopState, event: Event) -> LoopState {
    match event {
        Event::Tick { active } => if active {
            state.at(0)
        } else {
            state.at(state.cameras.len())
        },
        Event::Captured(outcome) => if state.resting() {
            state
        } else {
            state.at(state.cursor + 1)
        },
    }
}

/// `scores` with `entry` published, if there is one.
pub open spec fn with_published(scores: Seq<ScoreEntry>, entry: Option<ScoreEntry>) -> Seq<
    ScoreEntry,
> {
    match entry {
        Some(entry) => with_count(scores, entry.camera_id, entry.ball_count),
        None => scores,
    }
}

/// The state and the scores after `event`, its score published.
pub open spec fn next(state: LoopState, scores: Seq<ScoreEntry>, event: Event) -> (
    LoopState,
    Seq<ScoreEntry>,
) {
    (advanced(state, event), with_published(scores, published(state, event)))
}

/// The state and the scores after `events`, one after the other.
pub open spec fn run(state: LoopState, scores: Seq<ScoreEntry>, events: Seq<Event>) -> (
    LoopState,
    Seq<ScoreEntry>,
)
    decreases events.len(),
{
    if events.len() == 0 {
        (state, scores)
    } else {
        let before = run(state, scores, events.drop_last());
        next(before.0, before.1, events.last())
    }
}

/// The capture loop.
#[derive(Debug)]
pub struct CaptureLoop {
    cameras: CameraSet,
    threshold: u8,
    tick_millis: u64,
    cursor: usize,
}

impl View for CaptureLoop {
    type V = LoopState;

    closed spec fn view(&self) -> LoopState {
        LoopState {
            cameras: self.cameras@,
            threshold: self.threshold,
            tick_millis: self.tick_millis,
            cursor: self.cursor as nat,
        }
    }
}

impl CaptureLoop {
    /// The loop's invariant: its camera set is sound, and the cursor does
    /// not pass the last camera by more than one.
    pub closed spec fn wf(&self) -> bool {
        self.cameras.wf() && self.cursor <= self.cameras@.len()
    }

    /// Makes the loop for `cameras`, at rest. A pixel counts as bright from
    /// the luminance `threshold`, and a tick lasts `tick_millis`
    /// milliseconds.
    pub fn new(cameras: CameraSet, threshold: u8, tick_millis: u64) -> (made: CaptureLoop)
        requires
            cameras.wf(),
        ensures
            made.wf(),
            made@ == (LoopState {
                cameras: cameras@,
                threshold,
                tick_millis,
                cursor: cameras@.len(),
            }),
    {
        let cursor = cameras.len();
        CaptureLoop { cameras, threshold, tick_millis, cursor }
    }

    /// What the driver does in the loop's present state.
    pub fn action(&self) -> (action: Action)
        requires
            self.wf(),
        ensures
            action == self@.action(),
    {
        match self.cameras.id_at(self.cursor) {
            Some(camera_id) => Action::Read { camera_id },
            None => Action::Sleep { millis: self.tick_millis },
        }
    }

    /// Takes `event` and says what the driver does next, and which score it
    /// publishes first.
    ///
    /// A tick with the flag off puts the loop to rest for the tick; a tick
    /// with the flag on starts a round with the first camera. The outcome of
    /// a read settles the awaited camera: a frame that can be counted gives
    /// the camera's new score, a failed read or a frame that cannot be
    /// counted gives none, so that the camera keeps its last one. Then the
    /// next camera is read, or, after the last one, the loop rests. An
    /// outcome that arrives while the loop rests is dropped.
    pub fn step(&mut self, event: Event) -> (step: Step)
        requires
            old(self).wf(),
        ensures
            final(self).wf(),
            final(self)@ == advanced(old(self)@, event),
            step.publish == published(old(self)@, event),
            step.action == final(self)@.action(),
    {
        let mut publish: Option<ScoreEntry> = None;
        match event {
            Event::Tick { active } => {
                if active {
                    self.cursor = 0;
                } else {
                    self.cursor = self.cameras.len();
                }
            },
            Event::Captured(outcome) => {
                if self.cursor < self.cameras.len() {
                    match self.cameras.id_at(self.cursor) {
                        Some(camera_id) => {
                            publish = read_score(camera_id, self.threshold, outcome);
                        },
                        None => {},
                    }
                    self.cursor = self.cursor + 1;
                }
            },
        }
        Step { action: self.action(), publish }
    }
}

/// What one read of `camera_id` gives to publish.
fn read_score(camera_id: i32, threshold: u8, outcome: Result<Frame, CaptureError>) -> (entry:
    Option<ScoreEntry>)
    ensures
        entry == reading(camera_id, threshold, outcome),
{
    match outcome {
        Ok(frame) => match count_objects(&frame, threshold) {
            Ok(count) => Some(ScoreEntry { camera_id, ball_count: count }),
            Err(_) => None,
        },
        Err(_) => None,
    }
}

/// Publishes the score of a step, if it has one. The scores' cameras never
/// change: a score for a camera that the store does not know is dropped.
pub fn publish(scores: &mut ScoreStore, step: &Step)
    requires
        old(scores).wf(),
    ensures
        final(scores).wf(),
        final(scores)@ == with_published(old(scores)@, step.publish),
        ids_of(final(scores)@) == ids_of(old(scores)@),
{
    match step.publish {
        Some(entry) => {
            scores.update(entry.camera_id, entry.ball_count);
        },
        None => {},
    }
}

/// Ticks with the flag off never change the scores, however many there are.
pub proof fn lemma_inactive_ticks_keep_scores(
    state: LoopState,
    scores: Seq<ScoreEntry>,
    events: Seq<Event>,
)
    requires
        forall|i: int| 0 <= i < events.len() ==> events[i] == (Event::Tick { active: false }),
    ensures
        run(state, scores, events).1 == scores,
        events.len() > 0 ==> run(state, scores, events).0.resting(),
    decreases events.len(),
{
    if events.len() > 0 {
        lemma_inactive_ticks_keep_scores(state, scores, events.drop_last());
    }
}

/// A read that failed, in whatever way, leaves every score as it was.
pub proof fn lemma_failed_read_keeps_scores(
    state: LoopState,
    scores: Seq<ScoreEntry>,
    error: CaptureError,
)
    ensures
        next(state, scores, Event::Captured(Err(error))).1 == scores,
{
}

/// No event adds a camera to the scores, removes one or moves one: scores
/// that start with the cameras of the loop keep them.
pub proof fn lemma_events_keep_cameras(
    state: LoopState,
    scores: Seq<ScoreEntry>,
    events: Seq<Event>,
)
    ensures
        ids_of(run(state, scores, events).1) == ids_of(scores),
        run(state, scores, events).0.cameras == state.cameras,
        ids_of(scores) == state.cameras ==> ids_of(run(state, scores, events).1) == run(
            state,
            scores,
            events,
        ).0.cameras,
    decreases events.len(),
{
    if events.len() > 0 {
        lemma_events_keep_cameras(state, scores, events.drop_last());
        let before = run(state, scores, events.drop_last());
        assert(ids_of(next(before.0, before.1, events.last()).1) == ids_of(before.1));
    }
}

/// The events of one tick with the flag on: the tick, then the outcome of
/// every read, in the order of the cameras.
pub open spec fn round(outcomes: Seq<Result<Frame, CaptureError>>) -> Seq<Event> {
    Seq::new(
        outcomes.len() + 1,
        |i: int|
            if i == 0 {
                Event::Tick { active: true }
            } else {
                Event::Captured(outcomes[i - 1])
            },
    )
}

/// The score of the camera at `index` after a tick with the flag on: what
/// its read gave to publish, or, where it gave nothing, the score of before.
pub open spec fn score_after_round(
    state: LoopState,
    scores: Seq<ScoreEntry>,
    outcomes: Seq<Result<Frame, CaptureError>>,
    index: int,
) -> ScoreEntry {
    match reading(state.cameras[index], state.threshold, outcomes[index]) {
        Some(entry) => entry,
        None => scores[index],
    }
}

proof fn lemma_round_so_far(
    state: LoopState,
    scores: Seq<ScoreEntry>,
    outcomes: Seq<Result<Frame, CaptureError>>,
    done: int,
)
    requires
        state.cameras.no_duplicates(),
        ids_of(scores) == state.cameras,
        outcomes.len() == state.cameras.len(),
        0 <= done <= outcomes.len(),
    ensures
        run(state, scores, round(outcomes).take(done + 1)).0 == state.at(done as nat),
        run(state, scores, round(outcomes).take(done + 1)).1.len() == scores.len(),
        forall|i: int|
            0 <= i < scores.len() ==> #[trigger] run(
                state,
                scores,
                round(outcomes).take(done + 1),
            ).1[i] == if i < done {
                score_after_round(state, scores, outcomes, i)
            } else {
                scores[i]
            },
    decreases done,
{
    let events = round(outcomes).take(done + 1);
    if done == 0 {
        assert(events.drop_last() =~= Seq::<Event>::empty());
        assert(run(state, scores, events.drop_last()) == (state, scores));
        assert(events.last() == Event::Tick { active: true });
    } else {
        lemma_round_so_far(state, scores, outcomes, done - 1);
        assert(events.drop_last() =~= round(outcomes).take(done));
        assert(events.last() == Event::Captured(outcomes[done - 1]));
        let before = run(state, scores, events.drop_last());
        let after = next(before.0, before.1, events.last());
        assert(before.0 == state.at((done - 1) as nat));
        assert(!before.0.resting());
        let camera_id = state.cameras[done - 1];
        assert(ids_of(scores)[done - 1] == camera_id);
        assert forall|i: int| 0 <= i < scores.len() implies #[trigger] after.1[i] == if i
            < done {
            score_after_round(state, scores, outcomes, i)
        } else {
            scores[i]
        } by {
            assert(ids_of(scores)[i] == state.cameras[i]);
            assert(before.1[i].camera_id == state.cameras[i]) by {
                if i < done - 1 {
                    assert(before.1[i] == score_after_round(state, scores, outcomes, i));
                }
            }
        }
    }
}

/// A tick with the flag on reads every camera once, in order, and leaves the
/// loop at rest. After it every camera whose frame was delivered and counted
/// has its new score, and every other camera has the score of before.
pub proof fn lemma_active_tick_publishes_every_read(
    state: LoopState,
    scores: Seq<ScoreEntry>,
    outcomes: Seq<Result<Frame, CaptureError>>,
)
    requires
        state.cameras.no_duplicates(),
        ids_of(scores) == state.cameras,
        outcomes.len() == state.cameras.len(),
    ensures
        run(state, scores, round(outcomes)).0.resting(),
        run(state, scores, round(outcomes)).1 == Seq::new(
            scores.len(),
            |i: int| score_after_round(state, scores, outcomes, i),
        ),
{
    lemma_round_so_far(state, scores, outcomes, outcomes.len() as int);
    assert(round(outcomes).take(outcomes.len() as int + 1) =~= round(outcomes));
    assert(run(state, scores, round(outcomes)).1 =~= Seq::new(
        scores.len(),
        |i: int| score_after_round(state, scores, outcomes, i),
    ));
}

} // verus!
