pub mod reader;
pub mod round_trip;
pub mod writer;
