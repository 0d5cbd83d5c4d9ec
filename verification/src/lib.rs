//! A discrete-event scheduling primitive.
//!
//! The crate separates *what* to run (an opaque unit of work carried as a
//! payload), *when* to run it (a logical timestamp), and *how pending work is
//! ordered and retrieved* (a time-ordered queue with a FIFO tie-break and
//! identity-based cancellation).

pub mod event;
pub mod laws;
pub mod scheduler;
