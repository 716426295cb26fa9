//! The interactive viewer, apart from drawing and the terminal.
pub mod app;
pub mod levels;
pub mod rows;
pub mod spark_tree_view;
