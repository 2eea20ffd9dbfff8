use bio2_tools::protocol::frame::host_command::HostCommand;
use bio2_tools::reader::bio2_serial_reader::Bio2SerialFirmware;
use bio2_tools::tools::flash_dumper::{DumpResponse, FlashDumper, DUMP_RESPONSE_LEN};

fn answer(chunk: &[u8; 32]) -> Vec<u8> {
    let mut r = vec![0xAA, 0xAA, 0x80, 0x00, 0x02, 0x00, 0x20];
    r.extend_from_slice(chunk);
    r.push(0x00);
    r
}

#[test]
fn first_read_command_is_for_fff80000() {
    let dumper = FlashDumper::new();
    assert_eq!(dumper.curr_addr(), 0xFFF8_0000);
    let command = dumper.next_command().unwrap();
    assert_eq!(
        command,
        HostCommand::Custom { command_code: 0x0002, addr: 0x01, payload: vec![0x00, 0x00, 0xF8, 0xFF] }
    );
}

#[test]
fn answers_fill_the_dump_in_order() {
    let mut dumper = FlashDumper::new();
    let a = [0x11u8; 32];
    let b = [0x22u8; 32];
    assert!(dumper.take_response(&answer(&a)));
    assert_eq!(dumper.curr_addr(), 0xFFF8_0020);
    assert!(dumper.take_response(&answer(&b)));
    assert_eq!(dumper.curr_addr(), 0xFFF8_0040);
    let mut expected = a.to_vec();
    expected.extend_from_slice(&b);
    assert_eq!(dumper.dump(), &expected[..]);
    assert_eq!(
        dumper.next_command().unwrap(),
        HostCommand::Custom { command_code: 0x0002, addr: 0x01, payload: vec![0x40, 0x00, 0xF8, 0xFF] }
    );
}

#[test]
fn answer_without_chunk_is_refused() {
    let mut dumper = FlashDumper::new();
    let mut bad = answer(&[0x33u8; 32]);
    bad[6] = 0x10;
    assert!(!dumper.take_response(&bad));
    assert!(!dumper.take_response(&[0xAA, 0xAA]));
    assert_eq!(dumper.curr_addr(), 0xFFF8_0000);
    assert!(dumper.dump().is_empty());
}

#[test]
fn dump_ends_before_the_last_chunk() {
    let mut dumper = FlashDumper::new();
    let mut count = 0u32;
    while dumper.next_command().is_some() {
        assert!(dumper.take_response(&answer(&[0u8; 32])));
        count += 1;
    }
    assert_eq!(dumper.curr_addr(), 0xFFFF_FFE0);
    assert_eq!(count, 0x3FFF);
    assert_eq!(dumper.dump().len(), 0x7FFE0);
}

#[test]
fn dump_response_unescapes_and_completes_at_forty_bytes() {
    let mut response = DumpResponse::new();
    assert!(!response.push(0xFF));
    assert!(!response.push(0x00));
    assert_eq!(response.bytes(), &[0xFF]);
    for i in 1..DUMP_RESPONSE_LEN {
        assert_eq!(response.push(i as u8), i + 1 == DUMP_RESPONSE_LEN);
    }
    assert_eq!(response.bytes().len(), DUMP_RESPONSE_LEN);
}

#[test]
fn serial_link_speeds() {
    assert_eq!(Bio2SerialFirmware::Bi2a.baud_rate(), 115200);
    assert_eq!(Bio2SerialFirmware::Bi2x.baud_rate(), 9600);
}
