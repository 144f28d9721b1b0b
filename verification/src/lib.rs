//! An instrumentation profiler's runtime: a fixed table of per-call-site
//! accumulators, the nested timer protocol that keeps exclusive and inclusive
//! cycle counts, the call-site hash, and the shape of the end-of-run report.
//!
//! The library never reads a clock and never prints. Callers hand it counter
//! readings as plain integers and get plain values back.

#![allow(non_camel_case_types)]

pub mod anchor;
pub mod collision;
pub mod hash;
pub mod ledger;
pub mod metrics;
pub mod nesting;
pub mod profiler;
pub mod report;
pub mod session;
pub mod text;
pub mod trace;

pub use anchor::TimedBlock;
pub use collision::{DebugAnchors, HashCollision};
pub use hash::__peach_hash;
pub use metrics::{estimate_cpu_freq, get_os_time_freq, read_os_timer};
pub use profiler::{Profiler, __Timer};
pub use report::__MainTimer;
pub use session::{Session, Sink, Toggles};
