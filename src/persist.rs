pub mod recovery;
pub mod snapshot;
pub mod types;
