pub mod aio_iob_dumper;
pub mod generate_mot;
pub mod flash_state_machine;
pub mod flash_dumper;
pub mod ident;
