//! Endpoint lifecycle: what is served, how it changes, and what a submission
//! of desired state does to it.

pub mod apply_laws;
pub mod cohort;
pub mod exchange_laws;
pub mod follow_laws;
pub mod history_laws;
pub mod listener_laws;
pub mod manager;
pub mod manager_laws;
pub mod plan;
pub mod plan_laws;
pub mod protocol_laws;
pub mod reconcile;
pub mod reconcile_laws;
pub mod report_laws;
pub mod restore;
pub mod restore_laws;
pub mod result_laws;
pub mod run_laws;
pub mod slot_laws;
pub mod snapshot;
pub mod state_laws;
pub mod status_laws;
pub mod step_laws;
pub mod success_laws;
pub mod types;
