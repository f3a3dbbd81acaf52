//! The detection pipeline: from a frame to the number of objects in it.

use crate::frame::Frame;
use crate::region::{
    external_regions, has_tone, lemma_dark_image_has_no_regions, lemma_regions_are_countable,
    width_of, Cell,
};
use vstd::prelude::*;

verus! {

/// The luminance from which a pixel counts as bright.
pub const THRESHOLD: u8 = 200;

/// Why a frame could not be counted.
#[derive(Clone, Copy, Debug, PartialEq, Eq, Structural)]
pub enum DetectError {
    /// The frame's bytes do not match its width, height and layout.
    Malformed,
    /// The frame holds more objects than the count can express.
    TooMany,
}

/// What `count_objects` returns for `frame` and `threshold`.
pub open spec fn counted(frame: Frame, threshold: u8) -> Result<u32, DetectError> {
    if !frame.well_formed() {
        Err(DetectError::Malformed)
    } else if external_regions(frame.binary(threshold)) > u32::MAX {
        Err(DetectError::TooMany)
    } else {
        Ok(external_regions(frame.binary(threshold)) as u32)
    }
}

/// Counts the objects in `frame`: the frame is reduced to luminance, made
/// binary at `threshold`, and every external bright region counts as one
/// object, whatever its size or shape.
pub fn count_objects(frame: &Frame, threshold: u8) -> (count: Result<u32, DetectError>)
    ensures
        count == counted(*frame, threshold),
{
    match frame.binarize(threshold) {
        None => Err(DetectError::Malformed),
        Some(mask) => {
            let regions = mask.count_external();
            if regions > u32::MAX as usize {
                Err(DetectError::TooMany)
            } else {
                Ok(regions as u32)
            }
        },
    }
}

/// Counts the objects in `frame` at the usual threshold.
pub fn detect_objects(frame: &Frame) -> (count: Result<u32, DetectError>)
    ensures
        count == counted(*frame, THRESHOLD),
{
    count_objects(frame, THRESHOLD)
}

/// A well-formed frame whose pixels all stay under the threshold holds no
/// object.
pub proof fn lemma_dark_frame_counts_nothing(frame: Frame, threshold: u8)
    requires
        frame.well_formed(),
        forall|x: int, y: int|
            0 <= x < frame.width && 0 <= y < frame.height ==> frame.luminance_at(x, y)
                < threshold,
    ensures
        counted(frame, threshold) == Ok::<u32, DetectError>(0),
{
    let image = frame.binary(threshold);
    assert forall|cell: Cell| !#[trigger] has_tone(image, true, cell) by {
        if has_tone(image, true, cell) {
            assert(image[cell.1][cell.0] == (frame.luminance_at(cell.0, cell.1) >= threshold));
        }
    }
    lemma_dark_image_has_no_regions(image);
}

/// A well-formed frame is counted whenever the number of its pixels fits the
/// count, for it holds no more objects than pixels.
pub proof fn lemma_frame_is_counted(frame: Frame, threshold: u8)
    requires
        frame.well_formed(),
        frame.width * frame.height <= u32::MAX,
    ensures
        counted(frame, threshold) is Ok,
        external_regions(frame.binary(threshold)) <= frame.width * frame.height,
{
    let image = frame.binary(threshold);
    lemma_regions_are_countable(image);
    if frame.height > 0 {
        assert(image[0].len() == frame.width);
        assert(width_of(image) * image.len() == frame.width * frame.height);
    } else {
        assert(width_of(image) * image.len() == 0) by (nonlinear_arith)
            requires
                image.len() == 0,
        ;
        assert(frame.width * frame.height == 0) by (nonlinear_arith)
            requires
                frame.height == 0,
        ;
    }
}

} // verus!
