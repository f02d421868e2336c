//! Planning: beliefs, goals, HTN tasks, the GOAP planner and utility helpers.

pub mod belief;
pub mod goal;
pub mod htn;
pub mod planner;
pub mod bidirectional;
pub mod search;
pub mod utility;
pub mod agent;
