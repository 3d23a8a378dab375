//! A single-workstation job scheduler: jobs are queued over a local
//! byte-stream transport, executed one at a time as child processes, and
//! their output is served back to clients in bulk or as a live tail.
//!
//! This crate holds the verified core: the job model, the wire codec, the
//! FIFO/single-flight scheduler state, the execution plan for a job, and
//! the byte-cursor logic behind output streaming. The surrounding process
//! (sockets, files, child processes) lives outside and calls into it.

pub mod exec;
pub mod job;
pub mod message;
pub mod output;
pub mod sched;
