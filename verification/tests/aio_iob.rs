use bio2_tools::crypt::aio_iob_firmware::decrypt_aio_iob_firmware;
use bio2_tools::tools::aio_iob_dumper::{find_firmware, BI2X_KERNEL_END_BYTES, BI2X_KERNEL_START_BYTES};

#[test]
fn decrypt_chains_keys_from_clear_bytes() {
    assert_eq!(decrypt_aio_iob_firmware(&[0x12, 0x34]), vec![0x12, 0xC2]);
    assert_eq!(decrypt_aio_iob_firmware(&[]), Vec::<u8>::new());
}

#[test]
fn find_firmware_cuts_from_start_to_end_marker() {
    let content = [9, 9, 1, 2, 5, 5, 3, 4, 8, 3, 4];
    assert_eq!(find_firmware(&content, &[1, 2], &[3, 4]), Some(vec![1, 2, 5, 5, 3, 4]));
}

#[test]
fn find_firmware_needs_both_markers() {
    let content = [9, 9, 1, 2, 5, 5];
    assert_eq!(find_firmware(&content, &[1, 2], &[3, 4]), None);
    assert_eq!(find_firmware(&content, &[7], &[5]), None);
}

#[test]
fn find_firmware_end_marker_may_overlap_start() {
    // The end marker is searched from the start marker on, so it may begin there.
    let content = [0, 1, 2, 3];
    assert_eq!(find_firmware(&content, &[1, 2], &[1]), Some(vec![1]));
}

#[test]
fn find_firmware_with_kernel_markers() {
    let mut content = vec![0u8; 4];
    content.extend_from_slice(&BI2X_KERNEL_START_BYTES);
    content.extend_from_slice(&[1, 2, 3]);
    content.extend_from_slice(&BI2X_KERNEL_END_BYTES);
    content.extend_from_slice(&[6, 6]);
    let image = find_firmware(&content, &BI2X_KERNEL_START_BYTES, &BI2X_KERNEL_END_BYTES).unwrap();
    assert_eq!(image.len(), 6 + 3 + 5);
    assert_eq!(&image[..6], &BI2X_KERNEL_START_BYTES);
    assert_eq!(&image[9..], &BI2X_KERNEL_END_BYTES);
}
