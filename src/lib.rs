//! Authority-bound execution: single-use, scope-bound authority units, a store
//! that issues and validates them, and a gate that consumes a unit exactly once
//! per successful action and records the consequences.

pub mod authority;
pub mod gate;
pub mod manager;
pub mod trace;

pub use authority::{AuthorityError, AuthorityUnit, AuthorityUnitView};
pub use gate::{ConsumedSet, ExecutionGate, ExecutionGateError};
pub use manager::{AuthorityManager, ManagerError, ManagerView};
pub use trace::{current_timestamp, DecisionTrace, LiabilityRecord};
