//! An offline linearizability checker for key-value histories.
//!
//! A recorded history of concurrent Get / Put / Append operations is
//! partitioned by key, and each sub-history is searched for a
//! linearization: one total order of its operations, consistent with the
//! sequential key-value model, in which no operation is placed before its
//! call or after its return. The search only ever visits orders that
//! respect call and return times; a positive verdict is produced only
//! after the found order has been re-checked against the sequential
//! model.

pub mod checker;
pub mod kv;
pub mod utils;

pub use checker::check_operation_verbose;
pub use checker::check_operations;
pub use checker::Error;
pub use checker::LinearizationInfo;
