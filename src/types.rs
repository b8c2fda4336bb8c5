//! The recorded data model: one record per tick and identity, with the
//! resources and the call stacks captured in that tick.
use vstd::prelude::*;

verus! {

/// Resources used by one OS thread of a process.
#[derive(Debug, Clone)]
pub struct ThreadResources {
    /// CPU usage in hundredths of a percent (10000 is one fully used logical core).
    pub cpu: u64,
    pub memory: u64,
    pub disk_read_bytes: u64,
    pub disk_write_bytes: u64,
}

/// Resources used by a process (or, for the global identity, by the whole system).
#[derive(Debug, Clone)]
pub struct ProcessResources {
    pub memory: u64,
    /// CPU usage in hundredths of a percent (10000 is one fully used logical core).
    pub cpu: u64,
    pub disk_read_bytes: u64,
    pub disk_write_bytes: u64,
    /// Resources per OS thread id; where an id occurs twice, the first entry counts.
    pub thread_resources: Vec<(u64, ThreadResources)>,
}

/// A local variable of a captured frame.
#[derive(Debug, Clone)]
pub struct LocalVariable {
    pub name: String,
    pub addr: usize,
    pub arg: bool,
    pub repr: Option<String>,
}

/// One entry of a captured call stack.
#[derive(Debug, Clone)]
pub struct Frame {
    pub name: String,
    pub filename: String,
    pub module: Option<String>,
    pub short_filename: Option<String>,
    pub line: i32,
    pub locals: Option<Vec<LocalVariable>>,
    /// The frame is the boundary into native code.
    pub is_entry: bool,
}

/// The process a stack was captured from, with its ancestors.
#[derive(Debug)]
pub struct ProcessInfo {
    pub pid: i32,
    pub command_line: String,
    pub parent: Option<Box<ProcessInfo>>,
}

/// The call stack of one thread, as captured in one tick.
#[derive(Debug)]
pub struct StackTrace {
    pub pid: i32,
    pub thread_id: u64,
    pub thread_name: Option<String>,
    pub os_thread_id: Option<u64>,
    pub active: bool,
    pub owns_gil: bool,
    /// The frames, innermost first.
    pub frames: Vec<Frame>,
    pub process_info: Option<ProcessInfo>,
}

/// One record of a session: one tick of one identity.
#[derive(Debug)]
pub struct JsonLine {
    pub stacktraces: Vec<StackTrace>,
    pub resources: ProcessResources,
    /// Position of the record in its identity's log.
    pub index: usize,
    /// Milliseconds since the unix epoch.
    pub time: u128,
}

} // verus!
