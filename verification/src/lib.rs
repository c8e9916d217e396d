pub mod cli;
pub mod errors;
pub mod records;
pub mod search;
pub mod store;
pub mod tables;
pub mod text;
