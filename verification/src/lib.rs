//! A shift-scheduling engine for a single business day.
//!
//! A `Business` owns a set of roles and a set of employees and a grid of
//! time blocks derived from its opening hours. The assignment engine keeps
//! the two views of "who works what when" consistent: every block an
//! employee claims is mirrored in the claimed role's occupancy record.
//! On top of the engine sit two automation heuristics (lunch placement and
//! greedy role fill) and a compact textual round-trip encoding of a
//! schedule.

use vstd::prelude::*;

pub mod automation;
pub mod business;
pub mod clock;
pub mod csv;
pub mod drag;
pub mod digits;
pub mod employee;
pub mod laws;
pub mod role;

verus! {

/// Errors returned by the assignment engine.
#[derive(Debug, Clone, PartialEq, Eq)]
pub enum BusinessError {
    /// The employee id does not resolve.
    EmployeeNotFound,
    /// The role id does not resolve.
    RoleNotFound,
    /// An employee-level failure, carried through unchanged.
    EmployeeError(EmployeeError),
}

/// Errors raised by operations on a single employee.
#[derive(Debug, Clone, PartialEq, Eq)]
pub enum EmployeeError {
    /// The employee's qualification set does not contain the role; `allowed`
    /// lists the roles it does contain.
    NotAssignedRole { failed: usize, allowed: Vec<usize> },
    /// Reserved; no operation currently raises it.
    NotClockedIn,
}

} // verus!
