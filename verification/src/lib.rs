//! Protocol, compression and encryption logic for the BIO2 I/O board family
//! (BI2A and BI2X firmwares), with machine-checked contracts.

pub mod bi2a_protocol;
pub mod bi2x_protocol;
pub mod compression;
pub mod crypt;
pub mod protocol;
pub mod reader;
pub mod text;
pub mod tools;
