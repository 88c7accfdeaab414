pub mod book;
pub mod clock;
pub mod laws;
pub mod model;
pub mod types;
