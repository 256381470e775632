//! Thread placement for Android applications: which threads of which packages
//! run on which CPUs.

pub mod binding;
pub mod bpf;
pub mod bytes;
pub mod config;
pub mod cpuset;
pub mod document;
pub mod laws;
pub mod numeral;
pub mod process;
pub mod runner;
pub mod text;
pub mod tracepoint;
