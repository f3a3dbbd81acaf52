//! What the control and query layer is served with: the two operations on
//! the shared state, the greeting, and the plan by which the server starts.

use crate::camera::{CameraSet, OpenError, Probe};
use crate::capture::{CaptureLoop, LoopState};
use crate::detect::THRESHOLD;
use crate::flag::{toggled, ActiveFlag};
use crate::score::{zeroed, ScoreEntry, ScoreStore};
use vstd::prelude::*;

verus! {

/// The port that the server listens on.
pub const PORT: u16 = 8000;

/// Milliseconds between two ticks of the capture loop.
pub const TICK_MILLIS: u64 = 100;

/// The greeting served at the root of the API.
pub open spec fn greeting() -> Seq<char> {
    "Hello, welcome to the api!"@
}

/// Returns the fixed greeting of the API root.
pub fn say_hello() -> (text: &'static str)
    ensures
        text@ == greeting(),
{
    "Hello, welcome to the api!"
}

/// Flips the activity flag and returns its new state.
pub fn toggle_tracking(active: &mut ActiveFlag) -> (now: bool)
    ensures
        final(active)@ == toggled(old(active)@),
        now == final(active)@,
{
    active.toggle()
}

/// A copy of every camera's latest score, in camera order.
pub fn get_scores(scores: &ScoreStore) -> (entries: Vec<ScoreEntry>)
    ensures
        entries@ == scores@,
{
    scores.snapshot()
}

/// How the server starts: where it listens, what it mounts, which cameras
/// it tries, and the settings of the capture loop.
#[derive(Debug)]
pub struct Launch {
    /// The address to bind.
    pub address: &'static str,
    /// The port to bind.
    pub port: u16,
    /// Where the API's routes are mounted.
    pub api_mount: &'static str,
    /// Where the static files are mounted.
    pub static_mount: &'static str,
    /// The directory that holds the static files.
    pub static_dir: &'static str,
    /// The camera devices to try, in order.
    pub camera_ids: Vec<i32>,
    /// The luminance from which a pixel counts as bright.
    pub threshold: u8,
    /// Milliseconds between two ticks of the capture loop.
    pub tick_millis: u64,
}

/// The state that the server's parts share once the cameras are open.
#[derive(Debug)]
pub struct Station {
    /// The capture loop, for the capture worker alone.
    pub capture: CaptureLoop,
    /// The score store, written by the worker and read by queries.
    pub scores: ScoreStore,
    /// The activity flag, flipped by control requests and read by the worker.
    pub active: ActiveFlag,
}

/// The plan of the server: it listens on every interface at port 8000,
/// serves the API under `/api` and the files of `static` under `/`, tries
/// the cameras 0 and 1, and runs the capture loop every 100 milliseconds
/// with the usual threshold.
pub fn rocket() -> (plan: Launch)
    ensures
        plan.address@ == "0.0.0.0"@,
        plan.port == PORT,
        plan.api_mount@ == "/api"@,
        plan.static_mount@ == "/"@,
        plan.static_dir@ == "static"@,
        plan.camera_ids@ == seq![0i32, 1i32],
        plan.threshold == THRESHOLD,
        plan.tick_millis == TICK_MILLIS,
{
    let mut camera_ids: Vec<i32> = Vec::new();
    camera_ids.push(0);
    camera_ids.push(1);
    assert(camera_ids@ == seq![0i32, 1i32]);
    Launch {
        address: "0.0.0.0",
        port: PORT,
        api_mount: "/api",
        static_mount: "/",
        static_dir: "static",
        camera_ids,
        threshold: THRESHOLD,
        tick_millis: TICK_MILLIS,
    }
}

impl Launch {
    /// Sets up the shared state from the probes of the camera devices: the
    /// loop at rest over the cameras in use, every score zero, the flag off.
    /// With no camera in use the server cannot start.
    pub fn boot(&self, probes: &Vec<Probe>) -> (made: Result<Station, OpenError>)
        ensures
            made is Ok <==> crate::camera::usable(probes@).len() > 0,
            made matches Ok(station) ==> {
                &&& station.capture.wf()
                &&& station.scores.wf()
                &&& station.capture@ == (LoopState {
                    cameras: crate::camera::usable(probes@),
                    threshold: self.threshold,
                    tick_millis: self.tick_millis,
                    cursor: crate::camera::usable(probes@).len(),
                })
                &&& station.scores@ == zeroed(crate::camera::usable(probes@))
                &&& !station.active@
            },
            made matches Err(error) ==> error == OpenError::NoCameras,
    {
        match CameraSet::open(probes) {
            Ok(cameras) => {
                let scores = ScoreStore::new(&cameras);
                let capture = CaptureLoop::new(cameras, self.threshold, self.tick_millis);
                Ok(Station { capture, scores, active: ActiveFlag::new() })
            },
            Err(error) => Err(error),
        }
    }
}

} // verus!
