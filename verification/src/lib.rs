//! Canonical reference traces and LRU stack-distance analysis.
//!
//! A trace is a finite sequence of non-negative integer symbols. The
//! `enumerate` module produces, exactly once each, every canonical trace
//! (restricted growth string) of a given length; the `trace` module computes
//! per-access stack distances and the two histograms derived from a trace.

pub mod enumerate;
pub mod model;
pub mod trace;
