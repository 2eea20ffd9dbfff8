pub mod command;
pub mod frame;
pub mod response;
