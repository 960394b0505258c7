//! An in-process instrumentation engine: callers mark the start and end of
//! named code regions ("segments") inside repeating execution cycles
//! ("frames"), and the engine accumulates per-segment timing statistics and
//! renders a plain-text report.

pub mod clock;
pub mod frame;
pub mod report;
pub mod run;
pub mod scope;
pub mod stats;
pub mod text;
