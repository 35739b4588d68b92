//! A template-based workflow store: calculation and data templates,
//! concrete instance graphs built from them, history/future/branch selection,
//! structural deduplication when two graphs are merged, and materialization of
//! the command of a calculation.

pub mod text;
pub mod model;
pub mod store;
pub mod command;
pub mod extras;
pub mod ids;
pub mod template;
pub mod instance;
pub mod graph;
pub mod select;
pub mod merge;
pub mod materialize;
pub mod tagstore;
