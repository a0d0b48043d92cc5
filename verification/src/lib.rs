//! Incremental long-to-wide merge engine for per-sample measurement tables.
//!
//! A [`column::LongData`] holds one sample's sparse, key-sorted measurements;
//! a [`matrix::WideData`] accumulates them, one sample at a time, into a
//! single rectangular table whose rows are feature keys kept in strictly
//! ascending order. The merge never re-sorts rows that are already placed:
//! both sides are sorted, so one monotone scan finds every match and every
//! insertion point.

pub mod column;
pub mod keyorder;
pub mod laws;
pub mod matrix;
