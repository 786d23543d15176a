//! Placeholder backends that keep the graph data and run no kernel yet.
pub mod cuda;
pub mod vulkan;
