pub mod aio_iob_firmware;
pub mod bi2x_payload;
