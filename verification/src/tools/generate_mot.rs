//! Motorola S-record (MOT) files for flashing a BIO2 board with the
//! vendor's flashing tool.

use vstd::prelude::*;
use crate::bi2a_protocol::command_response::{checksum, checksum8};
use crate::text::{ascii_upper, hex_pair, to_uppercase};
use vstd::string::{StrSliceExecFns, StringExecFns};

verus! {

/// The bytes of `data` as lowercase hexadecimal digits, two per byte.
pub open spec fn hex_lower(data: Seq<u8>) -> Seq<char>
    decreases data.len(),
{
    if data.len() == 0 {
        Seq::empty()
    } else {
        hex_lower(data.drop_last()) + hex_pair(data.last())
    }
}

/// Calls `hex::encode`. As the crate's source shows, each byte becomes two
/// lowercase hexadecimal digits, high digit first.
#[verifier::external_body]
fn hex_encode(data: &[u8]) -> (s: String)
    ensures
        s@ == hex_lower(data@),
{
    hex::encode(data)
}

/// The uppercase hexadecimal digit of `n` (0 to 15).
pub open spec fn upper_digit(n: int) -> char {
    if n < 10 { (48 + n) as char } else { (55 + n) as char }
}

/// The last `width` uppercase hexadecimal digits of `v`.
pub open spec fn hex_upper_fixed(v: nat, width: nat) -> Seq<char>
    decreases width,
{
    if width == 0 {
        Seq::empty()
    } else {
        hex_upper_fixed(v / 16, (width - 1) as nat).push(upper_digit((v % 16) as int))
    }
}

/// A data record: `S3`, byte count, 32-bit address, data and checksum in
/// uppercase hexadecimal, then CR LF.
pub open spec fn s3_line(count: u8, address: u32, data_hex: Seq<char>, checksum: u8) -> Seq<char> {
    seq!['S', '3'] + hex_upper_fixed(count as nat, 2) + hex_upper_fixed(address as nat, 8) + data_hex
        + hex_upper_fixed(checksum as nat, 2) + seq!['\r', '\n']
}

/// The uppercase hexadecimal digit of `n` as text.
fn upper_digit_str(n: u8) -> (s: &'static str)
    requires
        n < 16,
    ensures
        s@ == seq![upper_digit(n as int)],
{
    let digits: &'static str = "0123456789ABCDEF";
    proof {
        reveal_strlit("0123456789ABCDEF");
    }
    let s: &'static str = digits.substring_char(n as usize, n as usize + 1);
    assert(s@ =~= seq![upper_digit(n as int)]);
    s
}

/// Appends the last `width` uppercase hexadecimal digits of `v`.
fn push_hex_upper(s: &mut String, v: u32, width: u32)
    ensures
        final(s)@ == old(s)@ + hex_upper_fixed(v as nat, width as nat),
    decreases width,
{
    if width > 0 {
        push_hex_upper(s, v / 16, width - 1);
        s.append(upper_digit_str((v % 16) as u8));
        assert(s@ =~= old(s)@ + hex_upper_fixed(v as nat, width as nat));
    } else {
        assert(s@ =~= old(s)@ + hex_upper_fixed(v as nat, width as nat));
    }
}

/// Builds a data record line.
fn s3_record_line(count: u8, address: u32, data_hex: &str, checksum: u8) -> (line: String)
    ensures
        line@ == s3_line(count, address, data_hex@, checksum),
{
    let mut line: String = String::from_str("S3");
    push_hex_upper(&mut line, count as u32, 2);
    push_hex_upper(&mut line, address, 8);
    line.append(data_hex);
    push_hex_upper(&mut line, checksum as u32, 2);
    line.append("\r\n");
    proof {
        reveal_strlit("S3");
        reveal_strlit("\r\n");
    }
    assert(line@ =~= s3_line(count, address, data_hex@, checksum));
    line
}

/// A header record: `S0`, byte count, address `0000`, text and checksum in
/// uppercase hexadecimal, then CR LF.
pub open spec fn s0_line(count: u8, text_hex: Seq<char>, checksum: u8) -> Seq<char> {
    seq!['S', '0'] + hex_upper_fixed(count as nat, 2) + seq!['0', '0', '0', '0'] + text_hex
        + hex_upper_fixed(checksum as nat, 2) + seq!['\r', '\n']
}

/// Builds a header record line.
fn s0_record_line(count: u8, text_hex: &str, checksum: u8) -> (line: String)
    ensures
        line@ == s0_line(count, text_hex@, checksum),
{
    let mut line: String = String::from_str("S0");
    push_hex_upper(&mut line, count as u32, 2);
    line.append("0000");
    line.append(text_hex);
    push_hex_upper(&mut line, checksum as u32, 2);
    line.append("\r\n");
    proof {
        reveal_strlit("S0");
        reveal_strlit("0000");
        reveal_strlit("\r\n");
    }
    assert(line@ =~= s0_line(count, text_hex@, checksum));
    line
}

/// The checksum of a record: 0xFF minus the sum of its bytes, modulo 256.
pub open spec fn record_checksum(bytes: Seq<u8>) -> u8 {
    (255 - checksum8(bytes)) as u8
}

/// Computes the checksum of a record from its count, address and data.
pub fn calculate_checksum(bytes: &[u8]) -> (sum: u8)
    ensures
        sum == record_checksum(bytes@),
{
    let sum: u8 = checksum(bytes);
    0xFFu8.wrapping_sub(sum)
}

/// The bytes a data record's checksum covers: count, address (big endian)
/// and data.
pub open spec fn s3_checked_bytes(address: u32, chunk: Seq<u8>) -> Seq<u8> {
    seq![(chunk.len() + 5) as u8, (address >> 24) as u8, (address >> 16) as u8, (address >> 8) as u8, address as u8]
        + chunk
}

/// The data record of `chunk` at `address`.
pub open spec fn s3_record(address: u32, chunk: Seq<u8>) -> Seq<char> {
    s3_line(
        (chunk.len() + 5) as u8,
        address,
        ascii_upper(hex_lower(chunk)),
        record_checksum(s3_checked_bytes(address, chunk)),
    )
}

/// The data records of the first `n` 16-byte chunks of `data`, at
/// `start_address` on.
pub open spec fn s3_records(start_address: u32, data: Seq<u8>, n: nat) -> Seq<char>
    decreases n,
{
    if n == 0 {
        Seq::empty()
    } else {
        let i = (n - 1) * 16;
        s3_records(start_address, data, (n - 1) as nat) + s3_record((start_address + i) as u32, data.subrange(i, i + 16))
    }
}

proof fn lemma_hex_lower_ascii(data: Seq<u8>)
    ensures
        forall|i: int| 0 <= i < hex_lower(data).len() ==> (hex_lower(data)[i] as int) < 128,
        hex_lower(data).len() == 2 * data.len(),
    decreases data.len(),
{
    if data.len() > 0 {
        lemma_hex_lower_ascii(data.drop_last());
        let b = data.last();
        assert(b / 16 < 16 && b % 16 < 16);
        let h = hex_lower(data);
        let p = hex_lower(data.drop_last());
        assert forall|i: int| 0 <= i < h.len() implies (h[i] as int) < 128 by {
            if i >= p.len() {
                assert(h[i] == hex_pair(b)[i - p.len()]);
            } else {
                assert(h[i] == p[i]);
            }
        }
    }
}

/// Appends the data records of `data`, 16 bytes each, with addresses from
/// `start_address` on.
pub fn push_data_records(mot_content: &mut String, start_address: u32, data: &[u8])
    requires
        data.len() % 16 == 0,
        start_address + data.len() <= 0x1_0000_0000,
    ensures
        final(mot_content)@ == old(mot_content)@ + s3_records(start_address, data@, data.len() as nat / 16),
{
    let mut i: usize = 0;
    while i < data.len()
        invariant
            data.len() % 16 == 0,
            start_address + data.len() <= 0x1_0000_0000,
            i % 16 == 0,
            i <= data.len(),
            mot_content@ == old(mot_content)@ + s3_records(start_address, data@, i as nat / 16),
        decreases data.len() - i,
    {
        let chunk: &[u8] = vstd::slice::slice_subrange(data, i, i + 16);
        let address: u32 = start_address + i as u32;
        let mut checked: Vec<u8> = vec![
            chunk.len() as u8 + 5,
            (address >> 24) as u8,
            (address >> 16) as u8,
            (address >> 8) as u8,
            address as u8,
        ];
        let mut chunk_copy: Vec<u8> = vstd::slice::slice_to_vec(chunk);
        checked.append(&mut chunk_copy);
        assert(checked@ =~= s3_checked_bytes(address, chunk@));
        let record_sum: u8 = calculate_checksum(checked.as_slice());
        let lower: String = hex_encode(chunk);
        proof {
            lemma_hex_lower_ascii(chunk@);
        }
        let upper: String = to_uppercase(lower.as_str());
        let line: String = s3_record_line((chunk.len() + 5) as u8, address, upper.as_str(), record_sum);
        mot_content.append(line.as_str());
        proof {
            let n = i as nat / 16;
            assert((i as nat + 16) / 16 == n + 1);
            assert((n + 1 - 1) * 16 == i);
        }
        i += 16;
    }
}

/// The text of the header record: `Created by bio2_tools`.
pub const MOT_HEADER: [u8; 21] = [
    0x43, 0x72, 0x65, 0x61, 0x74, 0x65, 0x64, 0x20, 0x62, 0x79, 0x20, 0x62, 0x69, 0x6F, 0x32, 0x5F, 0x74, 0x6F, 0x6F,
    0x6C, 0x73,
];

/// The header record of the file.
pub open spec fn header_record() -> Seq<char> {
    let h = MOT_HEADER@;
    s0_line(24, ascii_upper(hex_lower(h)), (255 - (checksum8(h) + 24) % 256) as u8)
}

/// The last record of the file.
pub open spec fn end_record() -> Seq<char> {
    seq!['S', '7', '0', '5', '0', '0', '0', '0', '0', '0', '0', '0', 'F', 'A', '\r', '\n']
}

/// A whole MOT file: the header record; the data flash at 0x00100000; 256
/// KiB of 0xFF at 0xFFF80000; the base image at 0xFFFC0000; the firmware
/// twice, at 0xFFFE0000 (bank A) and 0xFFFF0000 (bank B); the end record.
pub open spec fn mot_content(data: Seq<u8>, bio2base: Seq<u8>, firmware: Seq<u8>) -> Seq<char> {
    header_record()
        + s3_records(0x00100000, data, data.len() / 16)
        + s3_records(0xFFF80000, Seq::new(0x40000, |i: int| 0xFFu8), 0x4000)
        + s3_records(0xFFFC0000, bio2base, bio2base.len() / 16)
        + s3_records(0xFFFE0000, firmware, firmware.len() / 16)
        + s3_records(0xFFFF0000, firmware, firmware.len() / 16)
        + end_record()
}

fn end_record_text() -> (s: &'static str)
    ensures
        s@ == end_record(),
{
    let s: &'static str = "S70500000000FA\r\n";
    proof {
        reveal_strlit("S70500000000FA\r\n");
    }
    assert(s@ =~= end_record());
    s
}

proof fn lemma_hex_upper_fixed_len(v: nat, width: nat)
    ensures
        hex_upper_fixed(v, width).len() == width,
    decreases width,
{
    if width > 0 {
        lemma_hex_upper_fixed_len(v / 16, (width - 1) as nat);
    }
}

/// A data record of 16 bytes is 48 characters long.
proof fn lemma_s3_record_len(address: u32, chunk: Seq<u8>)
    requires
        chunk.len() == 16,
    ensures
        s3_record(address, chunk).len() == 48,
{
    lemma_hex_lower_ascii(chunk);
    lemma_hex_upper_fixed_len((chunk.len() + 5) as u8 as nat, 2);
    lemma_hex_upper_fixed_len(address as nat, 8);
    lemma_hex_upper_fixed_len(record_checksum(s3_checked_bytes(address, chunk)) as nat, 2);
}

/// The data records of `n` chunks of `data` are 48 characters each, and
/// record `k` is the record of chunk `k` at `k * 16` past the start address.
pub proof fn lemma_s3_records_at(start_address: u32, data: Seq<u8>, n: nat, k: int)
    requires
        data.len() >= n * 16,
        0 <= k < n,
    ensures
        s3_records(start_address, data, n).len() == 48 * n,
        s3_records(start_address, data, n).subrange(48 * k, 48 * k + 48)
            == s3_record((start_address + 16 * k) as u32, data.subrange(16 * k, 16 * k + 16)),
    decreases n,
{
    lemma_s3_records_len(start_address, data, n);
    let m: int = n - 1;
    let prev = s3_records(start_address, data, m as nat);
    lemma_s3_records_len(start_address, data, m as nat);
    let last = s3_record((start_address + m * 16) as u32, data.subrange(m * 16, m * 16 + 16));
    lemma_s3_record_len((start_address + m * 16) as u32, data.subrange(m * 16, m * 16 + 16));
    assert(s3_records(start_address, data, n) == prev + last);
    if k < m {
        lemma_s3_records_at(start_address, data, m as nat, k);
        assert((prev + last).subrange(48 * k, 48 * k + 48) =~= prev.subrange(48 * k, 48 * k + 48));
    } else {
        assert((prev + last).subrange(48 * k, 48 * k + 48) =~= last);
    }
}

/// The data records of `n` chunks are `48 * n` characters long.
proof fn lemma_s3_records_len(start_address: u32, data: Seq<u8>, n: nat)
    requires
        data.len() >= n * 16,
    ensures
        s3_records(start_address, data, n).len() == 48 * n,
    decreases n,
{
    if n > 0 {
        let m: int = n - 1;
        lemma_s3_records_len(start_address, data, m as nat);
        lemma_s3_record_len((start_address + m * 16) as u32, data.subrange(m * 16, m * 16 + 16));
    }
}

/// Where each section of a MOT file starts: after the 54-character header
/// record, 0x800 data flash records, 0x4000 records of padding, 0x2000
/// base image records, then bank A and bank B with 0x1000 records each.
pub open spec fn bank_a_start() -> int {
    54int + 48 * (0x800 + 0x4000 + 0x2000)
}

/// Where bank B starts.
pub open spec fn bank_b_start() -> int {
    bank_a_start() + 48 * 0x1000
}

/// The records of a MOT file hold the inputs where they belong: record `k`
/// of the data flash section is the data record of the `k`-th 16 bytes of
/// `data` at 0x00100000 + 16k, record `k` of the base image section that of
/// `bio2base` at 0xFFFC0000 + 16k, and record `k` of each firmware bank
/// that of `firmware`, at 0xFFFE0000 + 16k for bank A and 0xFFFF0000 + 16k
/// for bank B; the end record closes the file.
pub proof fn lemma_mot_layout(data: Seq<u8>, bio2base: Seq<u8>, firmware: Seq<u8>, k: int)
    requires
        data.len() == 0x8000,
        bio2base.len() == 0x20000,
        firmware.len() == 0x10000,
        0 <= k,
    ensures
        mot_content(data, bio2base, firmware).len() == bank_b_start() + 48 * 0x1000 + 16,
        k < 0x800 ==> mot_content(data, bio2base, firmware).subrange(54 + 48 * k, 54 + 48 * k + 48)
            == s3_record((0x00100000 + 16 * k) as u32, data.subrange(16 * k, 16 * k + 16)),
        k < 0x2000 ==> mot_content(data, bio2base, firmware).subrange(
            54 + 48 * (0x800 + 0x4000) + 48 * k,
            54 + 48 * (0x800 + 0x4000) + 48 * k + 48,
        ) == s3_record((0xFFFC0000 + 16 * k) as u32, bio2base.subrange(16 * k, 16 * k + 16)),
        k < 0x1000 ==> mot_content(data, bio2base, firmware).subrange(bank_a_start() + 48 * k, bank_a_start() + 48 * k + 48)
            == s3_record((0xFFFE0000 + 16 * k) as u32, firmware.subrange(16 * k, 16 * k + 16)),
        k < 0x1000 ==> mot_content(data, bio2base, firmware).subrange(bank_b_start() + 48 * k, bank_b_start() + 48 * k + 48)
            == s3_record((0xFFFF0000 + 16 * k) as u32, firmware.subrange(16 * k, 16 * k + 16)),
        mot_content(data, bio2base, firmware).skip(bank_b_start() + 48 * 0x1000) == end_record(),
{
    let pad = Seq::new(0x40000, |i: int| 0xFFu8);
    let h = header_record();
    lemma_hex_lower_ascii(MOT_HEADER@);
    lemma_hex_upper_fixed_len(24, 2);
    lemma_hex_upper_fixed_len((255 - (checksum8(MOT_HEADER@) + 24) % 256) as u8 as nat, 2);
    assert(h.len() == 54);
    let s1 = s3_records(0x00100000, data, 0x800);
    let s2 = s3_records(0xFFF80000, pad, 0x4000);
    let s3 = s3_records(0xFFFC0000, bio2base, 0x2000);
    let s4 = s3_records(0xFFFE0000, firmware, 0x1000);
    let s5 = s3_records(0xFFFF0000, firmware, 0x1000);
    lemma_s3_records_len(0x00100000, data, 0x800);
    lemma_s3_records_len(0xFFF80000, pad, 0x4000);
    lemma_s3_records_len(0xFFFC0000, bio2base, 0x2000);
    lemma_s3_records_len(0xFFFE0000, firmware, 0x1000);
    lemma_s3_records_len(0xFFFF0000, firmware, 0x1000);
    let c = mot_content(data, bio2base, firmware);
    assert(c == h + s1 + s2 + s3 + s4 + s5 + end_record());
    let p1 = 54int;
    let p2 = p1 + 48 * 0x800;
    let p3 = p2 + 48 * 0x4000;
    let p4 = p3 + 48 * 0x2000;
    let p5 = p4 + 48 * 0x1000;
    let p6 = p5 + 48 * 0x1000;
    assert(p4 == bank_a_start() && p5 == bank_b_start());
    assert(c.subrange(p1, p2) =~= s1);
    assert(c.subrange(p3, p4) =~= s3);
    assert(c.subrange(p4, p5) =~= s4);
    assert(c.subrange(p5, p6) =~= s5);
    assert(c.skip(p6) =~= end_record());
    if k < 0x800 {
        lemma_s3_records_at(0x00100000, data, 0x800, k);
        assert(c.subrange(p1 + 48 * k, p1 + 48 * k + 48) =~= s1.subrange(48 * k, 48 * k + 48));
    }
    if k < 0x2000 {
        lemma_s3_records_at(0xFFFC0000, bio2base, 0x2000, k);
        assert(c.subrange(p3 + 48 * k, p3 + 48 * k + 48) =~= s3.subrange(48 * k, 48 * k + 48));
    }
    if k < 0x1000 {
        lemma_s3_records_at(0xFFFE0000, firmware, 0x1000, k);
        lemma_s3_records_at(0xFFFF0000, firmware, 0x1000, k);
        assert(c.subrange(p4 + 48 * k, p4 + 48 * k + 48) =~= s4.subrange(48 * k, 48 * k + 48));
        assert(c.subrange(p5 + 48 * k, p5 + 48 * k + 48) =~= s5.subrange(48 * k, 48 * k + 48));
    }
}

proof fn mot_layout_for_all(data: Seq<u8>, bio2base: Seq<u8>, firmware: Seq<u8>)
    requires
        data.len() == 0x8000,
        bio2base.len() == 0x20000,
        firmware.len() == 0x10000,
    ensures
        forall|k: int|
            0 <= k < 0x1000 ==> #[trigger] mot_content(data, bio2base, firmware).subrange(
                bank_a_start() + 48 * k,
                bank_a_start() + 48 * k + 48,
            ) == s3_record((0xFFFE0000 + 16 * k) as u32, firmware.subrange(16 * k, 16 * k + 16)),
        forall|k: int|
            0 <= k < 0x1000 ==> #[trigger] mot_content(data, bio2base, firmware).subrange(
                bank_b_start() + 48 * k,
                bank_b_start() + 48 * k + 48,
            ) == s3_record((0xFFFF0000 + 16 * k) as u32, firmware.subrange(16 * k, 16 * k + 16)),
        forall|k: int|
            0 <= k < 0x800 ==> #[trigger] mot_content(data, bio2base, firmware).subrange(54 + 48 * k, 54 + 48 * k + 48)
                == s3_record((0x00100000 + 16 * k) as u32, data.subrange(16 * k, 16 * k + 16)),
{
    assert forall|k: int| 0 <= k < 0x1000 implies #[trigger] mot_content(data, bio2base, firmware).subrange(
        bank_a_start() + 48 * k,
        bank_a_start() + 48 * k + 48,
    ) == s3_record((0xFFFE0000 + 16 * k) as u32, firmware.subrange(16 * k, 16 * k + 16)) by {
        lemma_mot_layout(data, bio2base, firmware, k);
    }
    assert forall|k: int| 0 <= k < 0x1000 implies #[trigger] mot_content(data, bio2base, firmware).subrange(
        bank_b_start() + 48 * k,
        bank_b_start() + 48 * k + 48,
    ) == s3_record((0xFFFF0000 + 16 * k) as u32, firmware.subrange(16 * k, 16 * k + 16)) by {
        lemma_mot_layout(data, bio2base, firmware, k);
    }
    assert forall|k: int| 0 <= k < 0x800 implies #[trigger] mot_content(data, bio2base, firmware).subrange(
        54 + 48 * k,
        54 + 48 * k + 48,
    ) == s3_record((0x00100000 + 16 * k) as u32, data.subrange(16 * k, 16 * k + 16)) by {
        lemma_mot_layout(data, bio2base, firmware, k);
    }
}

/// Builds the MOT file for a data flash image (32 KiB), a base image
/// (128 KiB) and a firmware (64 KiB).
#[verifier::spinoff_prover]
#[verifier::rlimit(40)]
pub fn build_mot_content(data: &[u8], bio2base: &[u8], firmware: &[u8]) -> (content: String)
    requires
        data.len() == 0x8000,
        bio2base.len() == 0x20000,
        firmware.len() == 0x10000,
    ensures
        content@ == mot_content(data@, bio2base@, firmware@),
        forall|k: int|
            0 <= k < 0x1000 ==> #[trigger] content@.subrange(bank_a_start() + 48 * k, bank_a_start() + 48 * k + 48)
                == s3_record((0xFFFE0000 + 16 * k) as u32, firmware@.subrange(16 * k, 16 * k + 16)),
        forall|k: int|
            0 <= k < 0x1000 ==> #[trigger] content@.subrange(bank_b_start() + 48 * k, bank_b_start() + 48 * k + 48)
                == s3_record((0xFFFF0000 + 16 * k) as u32, firmware@.subrange(16 * k, 16 * k + 16)),
        forall|k: int|
            0 <= k < 0x800 ==> #[trigger] content@.subrange(54 + 48 * k, 54 + 48 * k + 48)
                == s3_record((0x00100000 + 16 * k) as u32, data@.subrange(16 * k, 16 * k + 16)),
{
    let padding: Vec<u8> = vec![0xFF; 0x40000];
    assert(padding@ =~= Seq::new(0x40000, |i: int| 0xFFu8));

    let mut mot_content: String = String::new();

    // Header
    let header_sum: u8 = checksum(&MOT_HEADER);
    let header_hex: String = hex_encode(&MOT_HEADER);
    proof {
        lemma_hex_lower_ascii(MOT_HEADER@);
    }
    let header_upper: String = to_uppercase(header_hex.as_str());
    let header_line: String = s0_record_line(
        21 + 3,
        header_upper.as_str(),
        0xFFu8.wrapping_sub(header_sum.wrapping_add(21u8 + 3)),
    );
    mot_content.append(header_line.as_str());
    assert(mot_content@ =~= header_record());

    // Data records
    push_data_records(&mut mot_content, 0x00100000, data);
    push_data_records(&mut mot_content, 0xFFF80000, padding.as_slice());
    push_data_records(&mut mot_content, 0xFFFC0000, bio2base);
    push_data_records(&mut mot_content, 0xFFFE0000, firmware); // Bank A (backup)
    push_data_records(&mut mot_content, 0xFFFF0000, firmware); // Bank B

    // End of file record
    mot_content.append(end_record_text());
    proof {
        mot_layout_for_all(data@, bio2base@, firmware@);
    }
    mot_content
}

} // verus!
