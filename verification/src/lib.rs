pub mod assoc;
pub mod field;
pub mod component;
pub mod store;
pub mod laws;
