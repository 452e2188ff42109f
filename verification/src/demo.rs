//! The pricing demo: its messages, roles, reports and decisions.
pub mod crash;
pub mod crash_laws;
pub mod messages;
pub mod opts;
pub mod opts_laws;
pub mod plan;
pub mod plan_laws;
pub mod report;
pub mod report_laws;
pub mod roles;
pub mod tally_laws;
