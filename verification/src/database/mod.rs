pub mod maps;
pub mod store;
