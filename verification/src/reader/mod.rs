pub mod bi2a_test_reader;
pub mod bio2_reader;
pub mod bio2_serial_reader;
