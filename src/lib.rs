//! Searching recorded terminal sessions for text as it appeared on screen.
//!
//! Frames are snapshots of the visible screen, flattened into text; matches
//! found on consecutive matching frames are merged into one span, which is
//! then rendered for the console.
pub mod coalesce;
pub mod frame;
pub mod present;
pub mod source;
