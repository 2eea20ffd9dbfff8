pub mod command_response;
pub mod command_response_decoder;
