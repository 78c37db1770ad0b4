//! Hierarchical wall-clock timing of nested scopes.
//!
//! A [`power_toys::ScopedTimer`] is the root of a tree of scopes. Forking a
//! scope yields a handle to a child scope; joining the handle folds the time
//! that passed into the child. When the root is finished, every scope is
//! reported with the time it spent outside its own children.
use std::time::{Duration, Instant};
use vstd::prelude::*;

pub mod clock;
pub mod laws;
pub mod power_toys;
pub mod ranking;
pub mod report;
pub mod scope_view;
pub mod table;

verus! {

/// Runs `f` and returns what it returned, with the time the call took.
pub fn time_fn<T, F>(f: F) -> (timed: (T, Duration)) where F: FnOnce() -> T
    requires
        f.requires(()),
    ensures
        f.ensures((), timed.0),
{
    let start = Instant::now();
    let res = f();
    let dur = clock::elapsed_since(&start);
    (res, dur)
}

} // verus!
