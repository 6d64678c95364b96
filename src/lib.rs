//! A file-backed table scan for a partitioned, pull-based query engine:
//! partition planning, projection, a global row limit and a shared budget
//! of decode slots, each stated and proved.

pub mod planner;
pub mod error;
pub mod schema;
pub mod run;
pub mod table;
pub mod exec;
