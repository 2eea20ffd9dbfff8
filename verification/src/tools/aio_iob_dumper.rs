//! Finding the firmware images in `libaio_iob.dll`.

use vstd::prelude::*;

verus! {

/// The bytes that open and close the `bio2wrfirm` image.
pub const BIO2WRFIRM_START_BYTES: [u8; 6] = [0xFF, 0xE3, 0x6A, 0x03, 0x62, 0x02];
pub const BIO2WRFIRM_END_BYTES: [u8; 7] = [0x77, 0x4D, 0xBC, 0x9A, 0xFC, 0x4E, 0x00];

/// The bytes that open and close the BI2X firmware image.
pub const BI2X_FIRMWARE_START_BYTES: [u8; 6] = [0xBF, 0x72, 0x8E, 0x86, 0x64, 0x6A];
pub const BI2X_FIRMWARE_END_BYTES: [u8; 6] = [0xF6, 0xC7, 0x20, 0x0F, 0x78, 0xFF];

/// The bytes that open and close the BI2X kernel image.
pub const BI2X_KERNEL_START_BYTES: [u8; 6] = [0xFF, 0x0D, 0x7F, 0xFC, 0xFE, 0x7F];
pub const BI2X_KERNEL_END_BYTES: [u8; 5] = [0xC7, 0x20, 0x1F, 0x70, 0xFF];

/// Whether `needle` occurs in `hay` at `i`.
pub open spec fn occurs_at(hay: Seq<u8>, needle: Seq<u8>, i: int) -> bool {
    &&& 0 <= i
    &&& i + needle.len() <= hay.len()
    &&& hay.subrange(i, i + needle.len()) == needle
}

/// The first place from `from` on where `needle` occurs in `hay`.
pub open spec fn first_occurrence(hay: Seq<u8>, needle: Seq<u8>, from: int) -> Option<int>
    decreases hay.len() - from,
{
    if from < 0 || from >= hay.len() || from + needle.len() > hay.len() {
        None
    } else if occurs_at(hay, needle, from) {
        Some(from)
    } else {
        first_occurrence(hay, needle, from + 1)
    }
}

/// The image that runs from the first occurrence of `start` to the end of
/// the first occurrence of `end` from there on.
pub open spec fn spec_find_firmware(content: Seq<u8>, start: Seq<u8>, end: Seq<u8>) -> Option<Seq<u8>> {
    match first_occurrence(content, start, 0) {
        None => None,
        Some(a) => match first_occurrence(content, end, a) {
            None => None,
            Some(b) => Some(content.subrange(a, b + end.len())),
        },
    }
}

/// The first place from `from` on where `needle` occurs in `hay`.
fn position_from(hay: &[u8], needle: &[u8], from: usize) -> (pos: Option<usize>)
    requires
        needle.len() > 0,
        from <= hay.len(),
    ensures
        match pos {
            Some(p) => {
                &&& first_occurrence(hay@, needle@, from as int) == Some(p as int)
                &&& from <= p
                &&& p + needle.len() <= hay.len()
            },
            None => first_occurrence(hay@, needle@, from as int) is None,
        },
{
    let mut i: usize = from;
    while i < hay.len() && needle.len() <= hay.len() - i
        invariant
            from <= i <= hay.len(),
            needle.len() > 0,
            first_occurrence(hay@, needle@, i as int) == first_occurrence(hay@, needle@, from as int),
        decreases hay.len() - i,
    {
        let mut k: usize = 0;
        while k < needle.len() && hay[i + k] == needle[k]
            invariant
                k <= needle.len(),
                i + needle.len() <= hay.len(),
                forall|j: int| 0 <= j < k ==> hay@[i + j] == needle@[j],
            decreases needle.len() - k,
        {
            k += 1;
        }
        if k == needle.len() {
            assert(hay@.subrange(i as int, i + needle.len()) =~= needle@);
            return Some(i);
        }
        assert(hay@.subrange(i as int, i + needle.len())[k as int] != needle@[k as int]);
        i += 1;
    }
    None
}

/// Cuts an image out of `file_content`: from the first occurrence of
/// `start_bytes` to the end of the first occurrence of `end_bytes` after it.
/// `None` when either is missing.
pub fn find_firmware(file_content: &[u8], start_bytes: &[u8], end_bytes: &[u8]) -> (image: Option<Vec<u8>>)
    requires
        start_bytes.len() > 0,
        end_bytes.len() > 0,
    ensures
        match image {
            Some(v) => spec_find_firmware(file_content@, start_bytes@, end_bytes@) == Some(v@),
            None => spec_find_firmware(file_content@, start_bytes@, end_bytes@) is None,
        },
{
    let start_pos: usize = match position_from(file_content, start_bytes, 0) {
        Some(p) => p,
        None => return None,
    };
    let end_at: usize = match position_from(file_content, end_bytes, start_pos) {
        Some(p) => p,
        None => return None,
    };
    let end_pos: usize = end_at + end_bytes.len();
    Some(vstd::slice::slice_to_vec(vstd::slice::slice_subrange(file_content, start_pos, end_pos)))
}

} // verus!
