//! In-process performance measurement: a hierarchical profiler over labelled
//! spans and a repetition tester that converges on the fastest run of a
//! measured region. Counter readings come in as plain tick values, so every
//! decision taken here is checked against its contract.

pub mod cpu_timer;
pub mod stats;
pub mod repetition;
pub mod profiler;
pub mod page_faults;
