//! Process, CPU and energy accounting for a Linux activity monitor.
pub mod text;
pub mod number;
pub mod procfs;
pub mod label;
pub mod power;
pub mod tree;
pub mod walk;
pub mod frame;
pub mod options;
pub mod shape;
