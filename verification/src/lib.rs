//! Multi-camera object counting.
//!
//! A set of cameras is read on a fixed cadence. Every frame is reduced to a
//! binary image, and its external bright regions are counted: any bright
//! blob, whatever its size, is one object. The latest count of every camera
//! is kept in a score store, and an activity flag says whether the cameras
//! are read at all.
//!
//! The library decides and computes; it neither sleeps nor touches a device,
//! a socket or a page. Its drivers do that, and hand it plain values:
//!
//! - [`region`] defines what the regions of a binary image are and states
//!   what holds of them; [`mask`] is the binary image as a value, with the
//!   count of its external regions.
//! - [`frame`] reduces a captured frame to a binary image, and [`detect`]
//!   counts the objects in a frame.
//! - [`camera`] holds the cameras that opened and judges single reads.
//! - [`score`] and [`flag`] are the state shared between the capture loop
//!   and the outside world.
//! - [`capture`] is the capture loop, as a state machine.
//! - [`api`] is what the control and query layer is served with, and
//!   [`client`] is the controller of the page that shows the scores.

pub mod api;
pub mod camera;
pub mod capture;
pub mod client;
pub mod detect;
mod fill;
pub mod flag;
pub mod frame;
pub mod mask;
pub mod region;
pub mod score;
