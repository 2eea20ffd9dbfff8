use bio2_tools::compression::mc_lz::{deflate, inflate};

#[test]
fn test_compression() {
    let input = vec![
        0x00, 0x13, 0x02, 0x00, 0x00, 0x00, 0x00, 0xf8, 0x32, 0x00, 0x00, 0xa4, 0x1c, 0x00,
        0x00, 0x00, 0x00, 0x00, 0x00, 0xf0, 0x2d, 0x00, 0x00, 0xe5, 0x1c, 0x00, 0x00, 0xf0,
        0x2d, 0x00, 0x00, 0x00, 0xff, 0x08, 0x13, 0x00, 0x00, 0x09, 0x13, 0x01, 0x00, 0x0a,
        0x13, 0x02, 0x00, 0x0b, 0x13, 0x03, 0x00, 0x05, 0x13, 0x15, 0x00, 0x06, 0x13, 0x17,
        0x00, 0x14, 0x0b, 0x22, 0x00, 0x13, 0x0b, 0x23, 0x00, 0x18, 0x0c, 0x24, 0x00, 0x17,
        0x0c,
    ];
    let expected_output = vec![
        0x08, 0x00, 0x13, 0x02, 0xf8, 0xf8, 0x32, 0x51, 0x50, 0xa4, 0x1c, 0xff, 0x50, 0x24,
        0xf0, 0x2d, 0x50, 0xe5, 0x5d, 0x41, 0xba, 0x00, 0xff, 0x08, 0x13, 0x50, 0x20, 0x09,
        0x13, 0x01, 0x00, 0x0a, 0xa7, 0x00, 0x0b, 0x13, 0x03, 0x00, 0x05, 0x13, 0x15, 0x00,
        0x00, 0x06, 0x13, 0x17, 0x00, 0x14, 0x0b, 0x02, 0x22, 0x51, 0x0b, 0x23, 0x00, 0x18,
        0x00, 0x0c, 0x24, 0x00, 0x17, 0x0c,
    ];

    let compressed = deflate(&input);

    println!("Compressed: {:02x?}", compressed);
    println!("Expected:   {:02x?}", expected_output);

    assert_eq!(compressed, expected_output);
}

#[test]
fn test_decompression() {
    let compressed = vec![
        0x08, 0x00, 0x13, 0x02, 0xf8, 0xf8, 0x32, 0x51, 0x50, 0xa4, 0x1c, 0xff, 0x50, 0x24,
        0xf0, 0x2d, 0x50, 0xe5, 0x5d, 0x41, 0xba, 0x00, 0xff, 0x08, 0x13, 0x50, 0x20, 0x09,
        0x13, 0x01, 0x00, 0x0a, 0xa7, 0x00, 0x0b, 0x13, 0x03, 0x00, 0x05, 0x13, 0x15, 0x00,
        0x00, 0x06, 0x13, 0x17, 0x00, 0x14, 0x0b, 0x02, 0x22, 0x51, 0x0b, 0x23, 0x00, 0x18,
        0x00, 0x0c, 0x24, 0x00, 0x17, 0x0c,
    ];
    let expected_output = vec![
        0x00, 0x13, 0x02, 0x00, 0x00, 0x00, 0x00, 0xf8, 0x32, 0x00, 0x00, 0xa4, 0x1c, 0x00,
        0x00, 0x00, 0x00, 0x00, 0x00, 0xf0, 0x2d, 0x00, 0x00, 0xe5, 0x1c, 0x00, 0x00, 0xf0,
        0x2d, 0x00, 0x00, 0x00, 0xff, 0x08, 0x13, 0x00, 0x00, 0x09, 0x13, 0x01, 0x00, 0x0a,
        0x13, 0x02, 0x00, 0x0b, 0x13, 0x03, 0x00, 0x05, 0x13, 0x15, 0x00, 0x06, 0x13, 0x17,
        0x00, 0x14, 0x0b, 0x22, 0x00, 0x13, 0x0b, 0x23, 0x00, 0x18, 0x0c, 0x24, 0x00, 0x17,
        0x0c,
    ];

    let decompressed = inflate(&compressed, expected_output.len());

    println!("Decompressed: {:02x?}", decompressed);
    println!("Expected:     {:02x?}", expected_output);

    assert_eq!(decompressed, expected_output);
}

#[test]
fn inflate_with_a_lower_limit_cuts_the_output() {
    let compressed = deflate(&[0x10, 0x20, 0x10, 0x20, 0x10, 0x20, 0x10, 0x20, 0xAA, 0x33]);
    let full = inflate(&compressed, 100);
    assert_eq!(full, vec![0x10, 0x20, 0x10, 0x20, 0x10, 0x20, 0x10, 0x20, 0xAA, 0x33]);
    for limit in 0..12 {
        let cut = inflate(&compressed, limit);
        assert!(cut.len() <= limit);
        assert_eq!(cut, full[..limit.min(full.len())].to_vec());
    }
}
