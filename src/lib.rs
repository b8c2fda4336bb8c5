//! Sampling profiler harness for a tree of interpreter processes: the recorded
//! data model, the per-identity sample writer, the process-tree bookkeeping and
//! the reconstruction of a recorded session into a timeline profile.

pub mod html;
pub mod intern;
pub mod main_thread;
pub mod process;
pub mod process_tree;
pub mod profile;
pub mod report;
pub mod resources;
pub mod text;
pub mod timeline;
pub mod tracker;
pub mod types;
pub mod writer;
