//! Computational core of a layered, node-based image document: a typed
//! dataflow graph with cycle prevention and recursive evaluation, a node
//! factory registry, a layer/document model with ordered blend compositing,
//! a bounded undo/redo history, and a structured persisted form.

pub mod artifact;
pub mod blend;
pub mod capability;
pub mod document;
pub mod error;
pub mod graph;
pub mod history;
pub mod ids;
pub mod layer;
pub mod node;
pub mod params;
pub mod registry;
pub mod serialize;
pub mod textfmt;
pub mod ui;
