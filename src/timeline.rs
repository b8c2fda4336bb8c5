//! The reconstructed timeline: processes, their threads, interned frames, per-tick
//! samples and delta-encoded counters, as plain values.
use vstd::prelude::*;

verus! {

/// Whether a frame runs interpreted code or is the boundary into native code.
#[derive(Debug, Clone, Copy, PartialEq, Eq, Structural)]
pub enum FrameCategory {
    Interpreted,
    Native,
}

/// One interned call site of a process.
#[derive(Debug, Clone)]
pub struct TimelineFrame {
    pub name: String,
    pub filename: String,
    /// The file shown in the frame's label: the short filename where there is one.
    pub location: String,
    pub line: i32,
    pub category: FrameCategory,
}

/// One thread of a process, in the order of registration.
#[derive(Debug, Clone)]
pub struct TimelineThread {
    pub tid: u64,
    /// The last non-empty name the thread was seen with (the main thread starts out
    /// as `MainThread`).
    pub name: Option<String>,
    pub is_main: bool,
    /// Milliseconds after the profile's reference time.
    pub start_time: u128,
}

/// The stack one thread showed in one tick.
#[derive(Debug, Clone)]
pub struct TimelineSample {
    /// Position of the thread in the process's threads.
    pub thread: usize,
    /// Positions of the frames in the process's frames, outermost first.
    pub stack: Vec<usize>,
    /// CPU time attributed to the sample, in microseconds.
    pub cpu_micros: u128,
}

/// What one record of a process contributes.
#[derive(Debug, Clone)]
pub struct TimelineTick {
    /// Milliseconds after the profile's reference time.
    pub time: u128,
    /// One sample per stack trace of the record, in the record's order.
    pub samples: Vec<TimelineSample>,
    /// Change of the memory counter since the previous tick (zero at the first).
    pub memory_delta: i128,
    /// Change of the read plus written bytes since the previous tick (zero at the first).
    pub io_delta: i128,
}

/// The timeline of one process.
#[derive(Debug, Clone)]
pub struct ProcessTimeline {
    pub pid: u32,
    /// Milliseconds after the profile's reference time.
    pub start_time: u128,
    /// The main thread first, then the others in the order they were first seen.
    pub threads: Vec<TimelineThread>,
    /// The interned call sites, one per (filename, line).
    pub frames: Vec<TimelineFrame>,
    /// One tick per record, in the records' order.
    pub ticks: Vec<TimelineTick>,
}

/// A whole session's timeline.
#[derive(Debug, Clone)]
pub struct TimelineProfile {
    /// Milliseconds since the unix epoch that every other time is relative to.
    pub start_time_millis: u128,
    /// Intended time between samples, in milliseconds.
    pub interval_millis: u64,
    /// The processes, by ascending process id.
    pub processes: Vec<ProcessTimeline>,
}

} // verus!
