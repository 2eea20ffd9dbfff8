pub mod host_command;
pub mod flash_command;
