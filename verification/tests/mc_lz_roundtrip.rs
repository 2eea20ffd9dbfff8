use bio2_tools::compression::mc_lz::{deflate, inflate};

fn sample(len: usize) -> Vec<u8> {
    let mut state: u32 = 0x1234_5678;
    let mut out = Vec::with_capacity(len);
    for i in 0..len {
        state = state.wrapping_mul(1_103_515_245).wrapping_add(12_345);
        // Runs and repeats so that back-references occur.
        let b = if i % 7 < 3 { 0x00 } else { (state >> 16) as u8 & 0x0F };
        out.push(b);
    }
    out
}

#[test]
fn deflate_then_inflate_gives_input_back() {
    for len in [1usize, 2, 3, 17, 85, 86, 300, 1000] {
        let data = sample(len);
        let packed = deflate(&data);
        assert_eq!(inflate(&packed, data.len()), data, "length {}", len);
    }
}

#[test]
fn deflate_output_never_holds_aa() {
    let mut data = sample(500);
    data.extend(std::iter::repeat(0xAA).take(100));
    data.extend((0..=255u8).collect::<Vec<u8>>());
    let packed = deflate(&data);
    assert!(!packed.contains(&0xAA));
    assert_eq!(inflate(&packed, data.len()), data);
}

#[test]
fn deflate_of_nothing_is_nothing() {
    assert_eq!(deflate(&[]), Vec::<u8>::new());
    assert_eq!(inflate(&[], 10), Vec::<u8>::new());
}

#[test]
fn inflate_stops_at_the_limit() {
    let data = vec![0x42u8; 200];
    let packed = deflate(&data);
    assert_eq!(inflate(&packed, 50), vec![0x42u8; 50]);
}

#[test]
fn repeated_bytes_compress() {
    let data = vec![0x00u8; 1000];
    let packed = deflate(&data);
    assert!(packed.len() < data.len());
}
