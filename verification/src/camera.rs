//! The set of cameras that opened at startup, and what one read of a camera
//! amounts to.

use crate::frame::Frame;
use vstd::prelude::*;

verus! {

/// The outcome of trying to open one camera device.
#[derive(Clone, Copy, Debug, PartialEq, Eq, Structural)]
pub struct Probe {
    pub camera_id: i32,
    pub opened: bool,
}

/// Why no camera set could be made.
#[derive(Clone, Copy, Debug, PartialEq, Eq, Structural)]
pub enum OpenError {
    /// Not one camera opened.
    NoCameras,
}

/// Why a read of a camera gave no frame.
#[derive(Clone, Copy, Debug, PartialEq, Eq, Structural)]
pub enum CaptureError {
    /// The device did not deliver.
    ReadFailed,
    /// The device delivered a frame without pixels.
    EmptyFrame,
}

/// The cameras that `probes` leave in use: those that opened, in the order
/// of the probes. A camera that failed to open is left out for good, and so
/// is a second probe of a camera that is in use already.
pub open spec fn usable(probes: Seq<Probe>) -> Seq<i32>
    decreases probes.len(),
{
    if probes.len() == 0 {
        Seq::empty()
    } else {
        let earlier = usable(probes.drop_last());
        let last = probes.last();
        if last.opened && !earlier.contains(last.camera_id) {
            earlier.push(last.camera_id)
        } else {
            earlier
        }
    }
}

/// What a read amounts to: `read_ok` says whether the device delivered, and
/// `frame` is what it delivered.
pub open spec fn captured(read_ok: bool, frame: Frame) -> Result<Frame, CaptureError> {
    if !read_ok {
        Err(CaptureError::ReadFailed)
    } else if frame.blank() {
        Err(CaptureError::EmptyFrame)
    } else {
        Ok(frame)
    }
}

/// Judges one read of a camera. Nothing is tried again here: what to do
/// about a failure is the caller's business.
pub fn capture(read_ok: bool, frame: Frame) -> (outcome: Result<Frame, CaptureError>)
    ensures
        outcome == captured(read_ok, frame),
{
    if !read_ok {
        Err(CaptureError::ReadFailed)
    } else if frame.is_empty() {
        Err(CaptureError::EmptyFrame)
    } else {
        Ok(frame)
    }
}

/// The cameras in use, in a fixed order. The set is made once and never
/// changes.
#[derive(Debug)]
pub struct CameraSet {
    ids: Vec<i32>,
}

impl View for CameraSet {
    type V = Seq<i32>;

    closed spec fn view(&self) -> Seq<i32> {
        self.ids@
    }
}

/// Whether `id` is among `ids`.
fn holds(ids: &Vec<i32>, id: i32) -> (found: bool)
    ensures
        found == ids@.contains(id),
{
    let mut i: usize = 0;
    while i < ids.len()
        invariant
            i <= ids.len(),
            forall|k: int| 0 <= k < i ==> ids@[k] != id,
        decreases ids.len() - i,
    {
        if ids[i] == id {
            return true;
        }
        i += 1;
    }
    false
}

impl CameraSet {
    /// The set's invariant: it holds at least one camera, and none twice.
    pub open spec fn wf(&self) -> bool {
        self@.len() > 0 && self@.no_duplicates()
    }

    /// Makes the set from the probes of the devices. With no camera in use
    /// there is no set.
    pub fn open(probes: &Vec<Probe>) -> (made: Result<CameraSet, OpenError>)
        ensures
            made is Ok <==> usable(probes@).len() > 0,
            made matches Ok(cameras) ==> cameras.wf() && cameras@ == usable(probes@),
            made matches Err(error) ==> error == OpenError::NoCameras,
    {
        let mut ids: Vec<i32> = Vec::new();
        let mut i: usize = 0;
        while i < probes.len()
            invariant
                i <= probes.len(),
                ids@ == usable(probes@.take(i as int)),
                ids@.no_duplicates(),
            decreases probes.len() - i,
        {
            let probe = probes[i];
            assert(probes@.take(i + 1).drop_last() == probes@.take(i as int));
            if probe.opened && !holds(&ids, probe.camera_id) {
                ids.push(probe.camera_id);
            }
            i += 1;
        }
        assert(probes@.take(i as int) == probes@);
        if ids.len() == 0 {
            Err(OpenError::NoCameras)
        } else {
            Ok(CameraSet { ids })
        }
    }

    /// The number of cameras.
    pub fn len(&self) -> (n: usize)
        ensures
            n == self@.len(),
    {
        self.ids.len()
    }

    /// The identifier of the camera at `index`, if there is one.
    pub fn id_at(&self, index: usize) -> (id: Option<i32>)
        ensures
            id == if index < self@.len() {
                Some(self@[index as int])
            } else {
                None
            },
    {
        if index < self.ids.len() {
            Some(self.ids[index])
        } else {
            None
        }
    }
}

} // verus!
