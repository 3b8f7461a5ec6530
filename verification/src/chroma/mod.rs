pub mod document;
pub mod store;
