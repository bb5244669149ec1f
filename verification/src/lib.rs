pub mod command;
pub mod config;
pub mod database;
pub mod rdb;
pub mod resp;
pub mod server;
pub mod utils;
