use bio2_tools::tools::generate_mot::{build_mot_content, calculate_checksum, push_data_records};

#[test]
fn checksum_is_ff_minus_byte_sum() {
    assert_eq!(calculate_checksum(&[5, 0, 0, 0, 0]), 0xFA);
    assert_eq!(calculate_checksum(&[]), 0xFF);
    assert_eq!(calculate_checksum(&[0x80, 0x80, 0x01]), 0xFE);
}

#[test]
fn one_record_of_zeros() {
    let mut content = String::from("x");
    push_data_records(&mut content, 0x0010_0000, &[0u8; 16]);
    assert_eq!(content, "xS3150010000000000000000000000000000000000000DA\r\n");
}

#[test]
fn record_data_is_uppercase_hex() {
    let data: Vec<u8> = (0xA0..0xB0).collect();
    let mut content = String::new();
    push_data_records(&mut content, 0xFFFF_0010, &data);
    assert_eq!(content, "S315FFFF0010A0A1A2A3A4A5A6A7A8A9AAABACADAEAF64\r\n");
}

#[test]
fn records_advance_sixteen_bytes_each() {
    let mut content = String::new();
    push_data_records(&mut content, 0x0000_0000, &[0u8; 48]);
    let lines: Vec<&str> = content.split("\r\n").filter(|l| !l.is_empty()).collect();
    assert_eq!(lines.len(), 3);
    assert!(lines[0].starts_with("S31500000000"));
    assert!(lines[1].starts_with("S31500000010"));
    assert!(lines[2].starts_with("S31500000020"));
}

#[test]
fn no_data_no_records() {
    let mut content = String::from("keep");
    push_data_records(&mut content, 0x1234, &[]);
    assert_eq!(content, "keep");
}

#[test]
fn whole_file_layout() {
    let data = vec![0x11u8; 0x8000];
    let base = vec![0x22u8; 0x20000];
    let firmware = vec![0x33u8; 0x10000];
    let content = build_mot_content(&data, &base, &firmware);
    let lines: Vec<&str> = content.split_terminator("\r\n").collect();
    assert_eq!(lines.len(), 34818);
    assert_eq!(
        lines[0],
        "S0180000437265617465642062792062696F325F746F6F6C7318"
    );
    assert!(lines[1].starts_with("S31500100000"));
    assert!(lines[1 + 0x800].starts_with("S315FFF80000FFFF"));
    assert!(lines[1 + 0x800 + 0x4000].starts_with("S315FFFC0000"));
    assert!(lines[1 + 0x800 + 0x4000 + 0x2000].starts_with("S315FFFE0000"));
    assert!(lines[1 + 0x800 + 0x4000 + 0x2000 + 0x1000].starts_with("S315FFFF0000"));
    assert_eq!(lines[34817], "S70500000000FA");
    assert!(content.ends_with("S70500000000FA\r\n"));
}
