//! Dependency diagrams for ECMAScript/TypeScript sources: import resolution,
//! an ordered dependency graph, a deterministic layout with routed arrows, and
//! an Excalidraw document model with its JSON writer.
pub mod excalidraw;
pub mod graph;
pub mod jsops;
pub mod layout;
pub mod reader;
