//! The byte scrambler that hides BI2X frame payloads.
//!
//! Bytes whose bits `0xAA` are all set pass through unchanged and do not
//! advance the generator; every other byte is XOR-ed with bits drawn from a
//! linear congruential generator seeded from the sequence number.

use vstd::prelude::*;

verus! {

/// The generator value that follows `seed`.
pub open spec fn lcg_next(seed: u32) -> u32 {
    seed.wrapping_mul(0x41c64e6d).wrapping_add(0x3039)
}

/// The bits of the generator value that may be flipped in `byte`.
pub open spec fn scramble_mask(byte: u8) -> u32 {
    if byte & 0x80 != 0 { 0x55 } else { 0x7F }
}

/// Whether `byte` passes through the scrambler unchanged.
pub open spec fn is_passthrough(byte: u8) -> bool {
    byte & 0xAA == 0xAA
}

/// One step of the scrambler: the next seed and the scrambled byte.
pub open spec fn spec_scramble_byte(seed: u32, byte: u8) -> (u32, u8) {
    if is_passthrough(byte) {
        (seed, byte)
    } else {
        let next: u32 = lcg_next(seed);
        (next, ((next & scramble_mask(byte)) as u8) ^ byte)
    }
}

/// The scrambler run over `bytes`, with an 8-bit seed carried between bytes.
pub open spec fn scramble_stream(seed: u8, bytes: Seq<u8>) -> Seq<u8>
    decreases bytes.len(),
{
    if bytes.len() == 0 {
        Seq::empty()
    } else {
        let step = spec_scramble_byte(seed as u32, bytes[0]);
        seq![step.1] + scramble_stream(step.0 as u8, bytes.drop_first())
    }
}

/// The seed used to decrypt a payload.
pub open spec fn decrypt_seed(sequence_number: u8, is_from_bio2: bool) -> u8 {
    sequence_number ^ (if is_from_bio2 { 0xAAu8 } else { 0x55u8 })
}

/// The seed used to encrypt a payload.
pub open spec fn encrypt_seed(sequence_number: u8, is_for_bio2: bool) -> u8 {
    sequence_number ^ (if is_for_bio2 { 0x55u8 } else { 0xAAu8 })
}

fn scramble_byte(seed: u32, byte: u8) -> (res: (u32, u8))
    ensures
        res == spec_scramble_byte(seed, byte),
{
    if byte & 0xAA == 0xAA {
        return (seed, byte);
    }
    let mut scrambled: u32 = seed;
    scrambled = scrambled.wrapping_mul(0x41c64e6d).wrapping_add(0x3039);
    let seed: u32 = scrambled;

    let mask: u32 = if byte & 0x80 != 0 { 0x55 } else { 0x7F };

    (seed, ((scrambled & mask) as u8) ^ byte)
}

proof fn lemma_scramble_stream_step(seed: u8, bytes: Seq<u8>, i: int)
    requires
        0 <= i < bytes.len(),
    ensures
        ({
            let step = spec_scramble_byte(seed as u32, bytes[i]);
            scramble_stream(seed, bytes.skip(i))
                == seq![step.1] + scramble_stream(step.0 as u8, bytes.skip(i + 1))
        }),
{
    assert(bytes.skip(i).drop_first() =~= bytes.skip(i + 1));
}

fn scramble_payload(seed0: u8, payload: &[u8]) -> (out: Vec<u8>)
    ensures
        out@ == scramble_stream(seed0, payload@),
{
    let mut seed: u8 = seed0;
    let mut out: Vec<u8> = Vec::new();
    let mut i: usize = 0;
    assert(payload@.skip(0) =~= payload@);
    while i < payload.len()
        invariant
            i <= payload.len(),
            out@ + scramble_stream(seed, payload@.skip(i as int)) == scramble_stream(seed0, payload@),
        decreases payload.len() - i,
    {
        proof {
            lemma_scramble_stream_step(seed, payload@, i as int);
        }
        let (new_seed, byte): (u32, u8) = scramble_byte(seed as u32, payload[i]);
        let ghost old_out = out@;
        out.push(byte);
        assert(out@ == old_out + seq![byte]);
        seed = new_seed as u8;
        i = i + 1;
        proof {
            assert(old_out + (seq![byte] + scramble_stream(seed, payload@.skip(i as int)))
                == out@ + scramble_stream(seed, payload@.skip(i as int)));
        }
    }
    assert(payload@.skip(i as int) =~= Seq::<u8>::empty());
    assert(out@ + Seq::<u8>::empty() =~= out@);
    out
}

/// Decrypts a BI2X payload; `is_from_bio2` tells whether the frame was sent
/// by the board.
pub fn decrypt_bi2x_payload(sequence_number: u8, payload: &[u8], is_from_bio2: bool) -> (out: Vec<u8>)
    ensures
        out@ == scramble_stream(decrypt_seed(sequence_number, is_from_bio2), payload@),
{
    let xor: u8 = if is_from_bio2 { 0xAA } else { 0x55 };
    let seed: u8 = sequence_number ^ xor;
    scramble_payload(seed, payload)
}

/// Encrypts a BI2X payload; `is_for_bio2` tells whether the frame is sent to
/// the board.
pub fn encrypt_bi2x_payload(sequence_number: u8, payload: &[u8], is_for_bio2: bool) -> (out: Vec<u8>)
    ensures
        out@ == scramble_stream(encrypt_seed(sequence_number, is_for_bio2), payload@),
{
    let xor: u8 = if is_for_bio2 { 0x55 } else { 0xAA };
    let seed: u8 = sequence_number ^ xor;
    scramble_payload(seed, payload)
}

proof fn lemma_scramble_byte_involutive(seed: u32, byte: u8)
    ensures
        spec_scramble_byte(seed, spec_scramble_byte(seed, byte).1)
            == (spec_scramble_byte(seed, byte).0, byte),
{
    let next: u32 = lcg_next(seed);
    assert(byte & 0xAA != 0xAA ==> {
        let out: u8 = ((next & (if byte & 0x80 != 0 { 0x55u32 } else { 0x7Fu32 })) as u8) ^ byte;
        &&& out & 0xAA != 0xAA
        &&& (out & 0x80 != 0) == (byte & 0x80 != 0)
        &&& ((next & (if out & 0x80 != 0 { 0x55u32 } else { 0x7Fu32 })) as u8) ^ out == byte
    }) by (bit_vector);
}

/// The scrambler undoes itself: running it twice from the same seed gives
/// the bytes it started from.
pub proof fn lemma_scramble_stream_involutive(seed: u8, bytes: Seq<u8>)
    ensures
        scramble_stream(seed, scramble_stream(seed, bytes)) == bytes,
    decreases bytes.len(),
{
    if bytes.len() > 0 {
        let step = spec_scramble_byte(seed as u32, bytes[0]);
        lemma_scramble_byte_involutive(seed as u32, bytes[0]);
        lemma_scramble_stream_involutive(step.0 as u8, bytes.drop_first());
        let once = scramble_stream(seed, bytes);
        assert(once[0] == step.1);
        assert(once.drop_first() =~= scramble_stream(step.0 as u8, bytes.drop_first()));
        assert(scramble_stream(seed, once) =~= bytes);
    } else {
        assert(scramble_stream(seed, bytes) =~= bytes);
    }
}

/// Decrypting, on the receiving side, what was encrypted for it gives the
/// payload back: a frame encrypted for the board is decrypted as not coming
/// from the board, and the other way round.
pub proof fn lemma_decrypt_encrypt(sequence_number: u8, payload: Seq<u8>, is_for_bio2: bool)
    ensures
        scramble_stream(
            decrypt_seed(sequence_number, !is_for_bio2),
            scramble_stream(encrypt_seed(sequence_number, is_for_bio2), payload),
        ) == payload,
{
    assert(decrypt_seed(sequence_number, !is_for_bio2) == encrypt_seed(sequence_number, is_for_bio2));
    lemma_scramble_stream_involutive(encrypt_seed(sequence_number, is_for_bio2), payload);
}

/// The scrambler keeps the length of what it scrambles.
pub proof fn lemma_scramble_stream_len(seed: u8, bytes: Seq<u8>)
    ensures
        scramble_stream(seed, bytes).len() == bytes.len(),
    decreases bytes.len(),
{
    if bytes.len() > 0 {
        let step = spec_scramble_byte(seed as u32, bytes[0]);
        lemma_scramble_stream_len(step.0 as u8, bytes.drop_first());
    }
}

} // verus!
