//! Game-AI planning core: belief sets, HTN decomposition, GOAP search and
//! the bookkeeping of the evaluation arena, with their contracts.

pub mod planning;
pub mod arena;
pub mod ranking;
pub mod rng;
