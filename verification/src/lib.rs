pub mod batch;
pub mod id;
