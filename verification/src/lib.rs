//! An LR(1) parser generator: a grammar model with FIRST-set computation,
//! the canonical LR(1) item-set graph, an action/goto table with conflict
//! detection, and a deterministic code-emission driver with one backend
//! per target language.

pub mod frontends;
pub mod generator;
pub mod grammar;
pub mod spec;
pub mod string_pool;
pub mod table;
pub mod text;
pub mod tokset;
