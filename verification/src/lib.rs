pub mod errors;
pub mod task;
pub mod tree;
pub mod fit;
pub mod ops;
pub mod timeparse;
pub mod render;
