//! The byte chain that hides the firmware images stored in `libaio_iob.dll`.

use vstd::prelude::*;

verus! {

/// The key for byte `i`: zero for the first byte, then the inverse of the
/// previous clear byte rotated right by one bit.
pub open spec fn chain_key(firmware: Seq<u8>, i: nat) -> u8
    decreases i,
{
    if i == 0 {
        0
    } else {
        let clear = firmware[i - 1] ^ chain_key(firmware, (i - 1) as nat);
        !((clear >> 1) | ((clear & 1) << 7))
    }
}

/// The image with its byte chain undone.
pub open spec fn unchained(firmware: Seq<u8>) -> Seq<u8> {
    Seq::new(firmware.len(), |i: int| firmware[i] ^ chain_key(firmware, i as nat))
}

/// `b` rotated right by one bit.
pub open spec fn rotate_right_one(b: u8) -> u8 {
    (b >> 1) | ((b & 1) << 7)
}

/// The chain runs on clear bytes: the first byte is kept, and every later
/// byte is XOR-ed with the inverse of the clear byte before it rotated
/// right by one bit.
pub proof fn lemma_unchained_law(firmware: Seq<u8>)
    ensures
        unchained(firmware).len() == firmware.len(),
        firmware.len() > 0 ==> unchained(firmware)[0] == firmware[0],
        forall|i: int|
            1 <= i < firmware.len() ==> #[trigger] unchained(firmware)[i] == firmware[i] ^ !rotate_right_one(
                unchained(firmware)[i - 1],
            ),
{
    assert forall|b: u8| b ^ 0u8 == b by {
        assert(b ^ 0u8 == b) by (bit_vector);
    }
    assert forall|i: int| 1 <= i < firmware.len() implies #[trigger] unchained(firmware)[i] == firmware[i]
        ^ !rotate_right_one(unchained(firmware)[i - 1]) by {
        assert(chain_key(firmware, i as nat) == !rotate_right_one(firmware[i - 1] ^ chain_key(firmware, (i - 1) as nat)));
    }
}

/// Undoes the byte chain of a firmware image taken from `libaio_iob.dll`:
/// each byte is XOR-ed with a key made from the byte decoded before it.
/// The result is the compressed image, which its own decompressor turns
/// into the firmware.
pub fn decrypt_aio_iob_firmware(firmware: &[u8]) -> (result: Vec<u8>)
    ensures
        result@ == unchained(firmware@),
        result@.len() == firmware@.len(),
        firmware@.len() > 0 ==> result@[0] == firmware@[0],
        forall|i: int|
            1 <= i < firmware@.len() ==> #[trigger] result@[i] == firmware@[i] ^ !rotate_right_one(result@[i - 1]),
{
    proof {
        lemma_unchained_law(firmware@);
    }
    let mut result: Vec<u8> = vstd::slice::slice_to_vec(firmware);

    let mut key: u8 = 0;
    let mut i: usize = 0;
    while i < result.len()
        invariant
            result@.len() == firmware@.len(),
            i <= result.len(),
            key == chain_key(firmware@, i as nat),
            forall|j: int| 0 <= j < i ==> result@[j] == firmware@[j] ^ chain_key(firmware@, j as nat),
            forall|j: int| i <= j < result@.len() ==> result@[j] == firmware@[j],
        decreases result.len() - i,
    {
        let byte: u8 = result[i] ^ key;
        result.set(i, byte);
        key = !((byte >> 1) | ((byte & 1) << 7));
        i += 1;
    }
    assert(result@ =~= unchained(firmware@));
    result
}

} // verus!
