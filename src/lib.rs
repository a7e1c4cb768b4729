pub mod record;
pub mod schema;
pub mod resolve;
pub mod index;
pub mod engine;
pub mod report;
pub mod laws;
