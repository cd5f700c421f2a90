//! Layout and compositing logic of the video analytics overlays.
//!
//! Every function states what it computes in its contract, and the contracts are
//! proved. Reading metadata from buffers, drawing on real surfaces and everything
//! that needs floating-point arithmetic stays with the caller.

pub mod attach;
pub mod attention;
pub mod autobin;
pub mod color;
pub mod coordination;
pub mod facedetlitetensordec;
pub mod geometry;
pub mod handlandmarktensordec;
pub mod hooks;
pub mod keypointsoverlay;
pub mod lifecycle;
pub mod meta_transform;
pub mod objectdetectionoverlay;
pub mod overlay_cache;
pub mod overlay_intent;
pub mod overlaycompositor;
pub mod packed;
pub mod placement;
pub mod publish;
pub mod ranking;
pub mod render;
pub mod scalar;
pub mod segmaskalpha;
pub mod segmentationoverlay;
pub mod suppress;
pub mod text;
pub mod transcriber;
pub mod words;
