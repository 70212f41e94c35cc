//! Stream decoder for the framed target reports of an HLK-LD2451 traffic radar.
//!
//! Bytes read from the sensor are handed to [`radar::Radar::read_targets`], which
//! keeps what it cannot use yet, finds one frame per call, and returns the
//! target records that frame carries.
use vstd::prelude::*;

pub mod record;
pub mod scan;
pub mod radar;
pub mod laws;

pub use record::{Direction, TargetData, FrameError, parse_frame};
pub use scan::{ScanResult, scan_frame};
pub use radar::Radar;
