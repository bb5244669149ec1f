pub mod command;
pub mod dispatcher;
