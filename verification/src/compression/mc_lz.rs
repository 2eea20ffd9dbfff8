//! The MC_LZ codec used by compressed BI2X payloads.
//!
//! The stream is a sequence of blocks: a flags byte, then the bytes of up to
//! seven tokens. Reading the flags from bit 0, a `0` bit is a literal byte
//! taken from the stream, `1 0` is a back-reference (one stream byte giving a
//! length of 2 to 4 and a slot of the 85-byte history window) and `1 1` is a
//! literal `0xAA`, which takes no stream byte. Tokens start at bits 0 to 6.

use vstd::prelude::*;
use crate::compression::tokens::{
    apply_blocks, apply_token, apply_tokens, block_bytes, block_flags, blocks_well_formed, encode_blocks,
    lemma_inflate_encoded, token_bits, token_bytes, token_flags, token_valid, tokens_bits, LzToken,
};

verus! {

/// Size of the history window.
pub const WIN: usize = 85;

/// Slot of the window where the `i`-th output byte is written.
pub open spec fn slot_of(i: int) -> int {
    (81 + i) % 85
}

/// The content of slot `s` of the window once `out` has been written: the
/// last byte of `out` written to that slot, or zero if none was.
pub open spec fn window_at(out: Seq<u8>, s: int) -> u8 {
    let back = (out.len() - 1 + 81 - s) % 85;
    let j = out.len() - 1 - back;
    if 0 <= j { out[j] } else { 0 }
}

/// The window as an 85-byte sequence.
pub open spec fn window_of(out: Seq<u8>) -> Seq<u8> {
    Seq::new(85, |s: int| window_at(out, s))
}

/// Copies `n` bytes starting at window slot `src` to the output, one at a
/// time, stopping once the output holds `limit` bytes.
pub open spec fn copy_back(out: Seq<u8>, src: int, n: nat, limit: nat) -> Seq<u8>
    decreases n,
{
    if n == 0 || out.len() >= limit {
        out
    } else {
        copy_back(out.push(window_at(out, src)), (src + 1) % 85, (n - 1) as nat, limit)
    }
}

/// The value carried by a back-reference byte (`0xAA` never appears as one).
pub open spec fn reference_value(t: u8) -> int {
    if t >= 0xAB { t - 1 } else { t as int }
}

/// Whether the token starting at bit `bp` of `flags` begins with a one bit.
pub open spec fn flag_bit(flags: u8, bp: u32) -> bool {
    (flags >> bp) & 1 == 1
}

/// Decodes the tokens of one block, from bit `bp` of `flags`, reading stream
/// bytes from `pos`. Returns the output, the next stream position, and
/// whether the stream ended in the middle of a token.
pub open spec fn inflate_block(
    out: Seq<u8>,
    flags: u8,
    data: Seq<u8>,
    pos: int,
    bp: u32,
    limit: nat,
) -> (Seq<u8>, int, bool)
    decreases 8 - bp,
{
    if bp >= 7 || out.len() >= limit {
        (out, pos, false)
    } else if !flag_bit(flags, bp) {
        if pos >= data.len() {
            (out, pos, true)
        } else {
            inflate_block(out.push(data[pos]), flags, data, pos + 1, (bp + 1) as u32, limit)
        }
    } else if !flag_bit(flags, (bp + 1) as u32) {
        if pos >= data.len() {
            (out, pos, true)
        } else {
            let v = reference_value(data[pos]);
            inflate_block(
                copy_back(out, v % 85, (v / 85 + 2) as nat, limit),
                flags,
                data,
                pos + 1,
                (bp + 2) as u32,
                limit,
            )
        }
    } else {
        inflate_block(out.push(0xAA), flags, data, pos, (bp + 2) as u32, limit)
    }
}

/// A block never moves the stream position backwards.
pub proof fn lemma_inflate_block_pos(out: Seq<u8>, flags: u8, data: Seq<u8>, pos: int, bp: u32, limit: nat)
    ensures
        inflate_block(out, flags, data, pos, bp, limit).1 >= pos,
        pos <= data.len() ==> inflate_block(out, flags, data, pos, bp, limit).1 <= data.len(),
    decreases 8 - bp,
{
    if bp >= 7 || out.len() >= limit {
    } else if !flag_bit(flags, bp) {
        if pos < data.len() {
            lemma_inflate_block_pos(out.push(data[pos]), flags, data, pos + 1, (bp + 1) as u32, limit);
        }
    } else if !flag_bit(flags, (bp + 1) as u32) {
        if pos < data.len() {
            let v = reference_value(data[pos]);
            lemma_inflate_block_pos(
                copy_back(out, v % 85, (v / 85 + 2) as nat, limit),
                flags,
                data,
                pos + 1,
                (bp + 2) as u32,
                limit,
            );
        }
    } else {
        lemma_inflate_block_pos(out.push(0xAA), flags, data, pos, (bp + 2) as u32, limit);
    }
}

/// Decodes blocks from stream position `pos` until the output holds `limit`
/// bytes or the stream ends.
pub open spec fn inflate_from(out: Seq<u8>, data: Seq<u8>, pos: int, limit: nat) -> Seq<u8>
    decreases data.len() - pos,
{
    if pos < 0 || pos >= data.len() || out.len() >= limit {
        out
    } else {
        let r = inflate_block(out, data[pos], data, pos + 1, 0, limit);
        if r.2 {
            r.0
        } else {
            proof {
                lemma_inflate_block_pos(out, data[pos], data, pos + 1, 0, limit);
            }
            inflate_from(r.0, data, r.1, limit)
        }
    }
}

/// What decompressing `data` with an output limit of `limit` gives.
pub open spec fn spec_inflate(data: Seq<u8>, limit: nat) -> Seq<u8> {
    inflate_from(Seq::empty(), data, 0, limit)
}

/// Whether `b` starts with `a`.
pub open spec fn starts_with(b: Seq<u8>, a: Seq<u8>) -> bool {
    a.len() <= b.len() && b.take(a.len() as int) == a
}

proof fn lemma_starts_with_trans(a: Seq<u8>, b: Seq<u8>, c: Seq<u8>)
    requires
        starts_with(b, a),
        starts_with(c, b),
    ensures
        starts_with(c, a),
{
    assert(c.take(a.len() as int) =~= b.take(a.len() as int));
}

proof fn lemma_starts_with_push(a: Seq<u8>, x: u8)
    ensures
        starts_with(a.push(x), a),
{
    assert(a.push(x).take(a.len() as int) =~= a);
}

/// A copy only appends, and never past the limit.
proof fn lemma_copy_back_grows(out: Seq<u8>, src: int, n: nat, limit: nat)
    ensures
        starts_with(copy_back(out, src, n, limit), out),
        out.len() <= limit ==> copy_back(out, src, n, limit).len() <= limit,
    decreases n,
{
    if n == 0 || out.len() >= limit {
        assert(out.take(out.len() as int) =~= out);
    } else {
        let next = out.push(window_at(out, src));
        lemma_copy_back_grows(next, (src + 1) % 85, (n - 1) as nat, limit);
        lemma_starts_with_push(out, window_at(out, src));
        lemma_starts_with_trans(out, next, copy_back(next, (src + 1) % 85, (n - 1) as nat, limit));
    }
}

/// A copy under a lower limit is the same copy, or the start of it cut at
/// that limit.
proof fn lemma_copy_back_limits(out: Seq<u8>, src: int, n: nat, lo: nat, hi: nat)
    requires
        out.len() <= lo <= hi,
    ensures
        starts_with(copy_back(out, src, n, hi), copy_back(out, src, n, lo)),
        copy_back(out, src, n, lo) == copy_back(out, src, n, hi) || copy_back(out, src, n, lo).len() == lo,
    decreases n,
{
    if n == 0 {
        assert(out.take(out.len() as int) =~= out);
    } else if out.len() >= lo {
        lemma_copy_back_grows(out, src, n, hi);
    } else {
        let next = out.push(window_at(out, src));
        lemma_copy_back_limits(next, (src + 1) % 85, (n - 1) as nat, lo, hi);
    }
}

/// A block only appends to the output, and never past the limit.
proof fn lemma_inflate_block_grows(out: Seq<u8>, flags: u8, data: Seq<u8>, pos: int, bp: u32, limit: nat)
    ensures
        starts_with(inflate_block(out, flags, data, pos, bp, limit).0, out),
        out.len() <= limit ==> inflate_block(out, flags, data, pos, bp, limit).0.len() <= limit,
    decreases 8 - bp,
{
    if bp >= 7 || out.len() >= limit {
        assert(out.take(out.len() as int) =~= out);
    } else if !flag_bit(flags, bp) {
        if pos >= data.len() {
            assert(out.take(out.len() as int) =~= out);
        } else {
            let next = out.push(data[pos]);
            lemma_inflate_block_grows(next, flags, data, pos + 1, (bp + 1) as u32, limit);
            lemma_starts_with_push(out, data[pos]);
            lemma_starts_with_trans(out, next, inflate_block(next, flags, data, pos + 1, (bp + 1) as u32, limit).0);
        }
    } else if !flag_bit(flags, (bp + 1) as u32) {
        if pos >= data.len() {
            assert(out.take(out.len() as int) =~= out);
        } else {
            let v = reference_value(data[pos]);
            let next = copy_back(out, v % 85, (v / 85 + 2) as nat, limit);
            lemma_copy_back_grows(out, v % 85, (v / 85 + 2) as nat, limit);
            lemma_inflate_block_grows(next, flags, data, pos + 1, (bp + 2) as u32, limit);
            lemma_starts_with_trans(out, next, inflate_block(next, flags, data, pos + 1, (bp + 2) as u32, limit).0);
        }
    } else {
        let next = out.push(0xAA);
        lemma_inflate_block_grows(next, flags, data, pos, (bp + 2) as u32, limit);
        lemma_starts_with_push(out, 0xAA);
        lemma_starts_with_trans(out, next, inflate_block(next, flags, data, pos, (bp + 2) as u32, limit).0);
    }
}

/// A block under a lower limit decodes the same, or the start of the same
/// output cut at that limit.
proof fn lemma_inflate_block_limits(out: Seq<u8>, flags: u8, data: Seq<u8>, pos: int, bp: u32, lo: nat, hi: nat)
    requires
        out.len() <= lo <= hi,
    ensures
        starts_with(inflate_block(out, flags, data, pos, bp, hi).0, inflate_block(out, flags, data, pos, bp, lo).0),
        inflate_block(out, flags, data, pos, bp, lo) == inflate_block(out, flags, data, pos, bp, hi)
            || inflate_block(out, flags, data, pos, bp, lo).0.len() == lo,
    decreases 8 - bp,
{
    if bp >= 7 {
        assert(out.take(out.len() as int) =~= out);
    } else if out.len() >= lo {
        lemma_inflate_block_grows(out, flags, data, pos, bp, hi);
    } else if !flag_bit(flags, bp) {
        if pos >= data.len() {
            assert(out.take(out.len() as int) =~= out);
        } else {
            lemma_inflate_block_limits(out.push(data[pos]), flags, data, pos + 1, (bp + 1) as u32, lo, hi);
        }
    } else if !flag_bit(flags, (bp + 1) as u32) {
        if pos >= data.len() {
            assert(out.take(out.len() as int) =~= out);
        } else {
            let v = reference_value(data[pos]);
            let n = (v / 85 + 2) as nat;
            let a = copy_back(out, v % 85, n, lo);
            let b = copy_back(out, v % 85, n, hi);
            lemma_copy_back_limits(out, v % 85, n, lo, hi);
            lemma_copy_back_grows(out, v % 85, n, lo);
            if a == b {
                lemma_inflate_block_limits(a, flags, data, pos + 1, (bp + 2) as u32, lo, hi);
            } else {
                assert(a.len() == lo);
                assert(inflate_block(a, flags, data, pos + 1, (bp + 2) as u32, lo).0 == a);
                lemma_inflate_block_grows(b, flags, data, pos + 1, (bp + 2) as u32, hi);
                lemma_starts_with_trans(a, b, inflate_block(b, flags, data, pos + 1, (bp + 2) as u32, hi).0);
            }
        }
    } else {
        lemma_inflate_block_limits(out.push(0xAA), flags, data, pos, (bp + 2) as u32, lo, hi);
    }
}

/// Decoding only appends to the output, and never past the limit.
proof fn lemma_inflate_from_grows(out: Seq<u8>, data: Seq<u8>, pos: int, limit: nat)
    ensures
        starts_with(inflate_from(out, data, pos, limit), out),
        out.len() <= limit ==> inflate_from(out, data, pos, limit).len() <= limit,
    decreases data.len() - pos,
{
    if pos < 0 || pos >= data.len() || out.len() >= limit {
        assert(out.take(out.len() as int) =~= out);
    } else {
        let r = inflate_block(out, data[pos], data, pos + 1, 0, limit);
        lemma_inflate_block_grows(out, data[pos], data, pos + 1, 0, limit);
        if !r.2 {
            lemma_inflate_block_pos(out, data[pos], data, pos + 1, 0, limit);
            lemma_inflate_from_grows(r.0, data, r.1, limit);
            lemma_starts_with_trans(out, r.0, inflate_from(r.0, data, r.1, limit));
        }
    }
}

/// Decoding under a lower limit gives the same output, or the start of the
/// same output cut at that limit.
proof fn lemma_inflate_from_limits(out: Seq<u8>, data: Seq<u8>, pos: int, lo: nat, hi: nat)
    requires
        out.len() <= lo <= hi,
    ensures
        starts_with(inflate_from(out, data, pos, hi), inflate_from(out, data, pos, lo)),
        inflate_from(out, data, pos, lo) == inflate_from(out, data, pos, hi)
            || inflate_from(out, data, pos, lo).len() == lo,
    decreases data.len() - pos,
{
    if pos < 0 || pos >= data.len() {
        assert(out.take(out.len() as int) =~= out);
    } else if out.len() >= lo {
        lemma_inflate_from_grows(out, data, pos, hi);
    } else {
        let a = inflate_block(out, data[pos], data, pos + 1, 0, lo);
        let b = inflate_block(out, data[pos], data, pos + 1, 0, hi);
        lemma_inflate_block_limits(out, data[pos], data, pos + 1, 0, lo, hi);
        lemma_inflate_block_grows(out, data[pos], data, pos + 1, 0, lo);
        lemma_inflate_block_pos(out, data[pos], data, pos + 1, 0, lo);
        lemma_inflate_block_pos(out, data[pos], data, pos + 1, 0, hi);
        if a == b {
            if !a.2 {
                lemma_inflate_from_limits(a.0, data, a.1, lo, hi);
            } else {
                assert(a.0.take(a.0.len() as int) =~= a.0);
            }
        } else {
            let full = if b.2 { b.0 } else { inflate_from(b.0, data, b.1, hi) };
            if !b.2 {
                lemma_inflate_from_grows(b.0, data, b.1, hi);
            } else {
                assert(b.0.take(b.0.len() as int) =~= b.0);
            }
            lemma_starts_with_trans(a.0, b.0, full);
            if !a.2 {
                assert(inflate_from(a.0, data, a.1, lo) == a.0);
            }
        }
    }
}

/// The output limit only cuts: decompressing with a limit gives at most
/// that many bytes, and with a lower limit gives the output of a higher one
/// cut at the lower limit.
pub proof fn lemma_inflate_limit(data: Seq<u8>, lo: nat, hi: nat)
    requires
        lo <= hi,
    ensures
        spec_inflate(data, lo).len() <= lo,
        spec_inflate(data, lo) == spec_inflate(data, hi).take(
            if lo <= spec_inflate(data, hi).len() { lo as int } else { spec_inflate(data, hi).len() as int },
        ),
{
    lemma_inflate_from_grows(Seq::empty(), data, 0, lo);
    lemma_inflate_from_limits(Seq::empty(), data, 0, lo, hi);
    let a = spec_inflate(data, lo);
    let b = spec_inflate(data, hi);
    if a == b {
        assert(b.take(b.len() as int) =~= b);
    }
}

/// Writing one byte changes the window in one slot only.
pub(crate) proof fn lemma_window_push(out: Seq<u8>, b: u8, s: int)
    requires
        0 <= s < 85,
    ensures
        window_at(out.push(b), s) == if s == slot_of(out.len() as int) { b } else { window_at(out, s) },
{
    let n = out.len() as int;
    let x = n + 80 - s;
    assert((x + 1) % 85 == if x % 85 == 84 { 0 } else { x % 85 + 1 }) by (nonlinear_arith);
    assert(slot_of(n) == (x + 1 + s) % 85);
    assert((x + 1) % 85 == 0 <==> (x + 1 + s) % 85 == s) by (nonlinear_arith)
        requires
            0 <= s < 85;

}

proof fn lemma_mod85_unique(x: int, q: int, r: int)
    requires
        x == 85 * q + r,
        0 <= r < 85,
    ensures
        x % 85 == r,
        x / 85 == q,
{
    assert(x % 85 == r && x / 85 == q) by (nonlinear_arith)
        requires
            x == 85 * q + r,
            0 <= r < 85;
}

/// The window slots that output bytes `a..b` do not reach hold what they
/// held before those bytes were written.
pub(crate) proof fn lemma_window_stable(d: Seq<u8>, a: int, b: int, p: int)
    requires
        0 <= a <= b <= d.len(),
        0 <= p < 85,
        (p - 81 - a) % 85 >= b - a,
    ensures
        window_at(d.take(a), p) == window_at(d.take(b), p),
{
    let r = (p - 81 - a) % 85;
    let q = (p - 81 - a) / 85;
    lemma_mod85_unique(p - 81 - a, q, r);
    lemma_mod85_unique(a + 80 - p, -q - 1, 84 - r);
    lemma_mod85_unique(b + 80 - p, -q - 1, 84 - r + b - a);
    assert(d.take(a).len() == a);
    assert(d.take(b).len() == b);
}

/// A slot written by one of the last 85 output bytes holds that byte.
pub(crate) proof fn lemma_window_recent(d: Seq<u8>, b: int, j: int)
    requires
        0 <= j < b <= d.len(),
        b - j <= 85,
    ensures
        window_at(d.take(b), slot_of(j)) == d[j],
{
    let s = slot_of(j);
    let q = (81 + j) / 85;
    lemma_mod85_unique(81 + j, q, s);
    lemma_mod85_unique(b + 80 - s, q, b - 1 - j);
    assert(d.take(b).len() == b);
}

proof fn lemma_mod85_shift(x: int, t: int)
    ensures
        (x + 85 * t) % 85 == x % 85,
{
    lemma_mod85_unique(x + 85 * t, x / 85 + t, x % 85);
    lemma_mod85_unique(x, x / 85, x % 85);
}

/// A back-reference to a slot at least four slots away from the next write
/// position, whose bytes match the input there, copies the next input bytes:
/// the bytes it reads were either written long before or by the copy itself.
pub(crate) proof fn lemma_reference_copies(d: Seq<u8>, c: int, ip: int, src: int, n: nat, k: nat)
    requires
        0 <= c,
        c + n <= ip <= d.len(),
        ip - c <= 4,
        k <= n,
        0 <= src < 85,
        (src - 81 - c) % 85 >= 4,
        forall|i: int| 0 <= i < n ==> #[trigger] window_at(d.take(ip), (src + i) % 85)
            == window_at(d.take(ip), (slot_of(c) + i) % 85),
    ensures
        copy_back(d.take(c + k), (src + k) % 85, (n - k) as nat, (c + n) as nat) == d.take(c + n),
    decreases n - k,
{
    if k == n {
        assert(copy_back(d.take(c + k), (src + k) % 85, 0, (c + n) as nat) == d.take(c + k));
    } else {
        let p = (src + k) % 85;
        let t = (src + k) / 85;
        lemma_mod85_unique(src + k, t, p);
        lemma_mod85_shift(src - 81 - c, -t);
        assert(p - 81 - (c + k) == src - 81 - c + 85 * (-t));
        lemma_window_stable(d, c + k, ip, p);
        let u = (81 + c) / 85;
        lemma_mod85_unique(81 + c, u, slot_of(c));
        lemma_mod85_shift(slot_of(c) + k, u);
        assert(slot_of(c + k) == (slot_of(c) + k) % 85);
        lemma_window_recent(d, ip, c + k);
        assert(window_at(d.take(ip), p) == window_at(d.take(ip), (slot_of(c) + k) % 85));
        assert(window_at(d.take(c + k), p) == d[c + k]);
        assert(d.take(c + k).push(d[c + k]) =~= d.take(c + k + 1));
        if p + 1 == 85 {
            lemma_mod85_unique(src + k + 1, t + 1, 0);
            lemma_mod85_unique(p + 1, 1, 0);
        } else {
            lemma_mod85_unique(src + k + 1, t, p + 1);
            lemma_mod85_unique(p + 1, 0, p + 1);
        }
        assert((p + 1) % 85 == (src + (k + 1)) % 85);
        lemma_reference_copies(d, c, ip, src, n, k + 1);
    }
}

fn next_slot(slot: usize) -> (res: usize)
    requires
        slot < WIN,
    ensures
        res == (slot + 1) % 85,
{
    if slot + 1 == WIN { 0 } else { slot + 1 }
}


/// The window after one more byte is written.
pub(crate) proof fn lemma_window_of_push(out: Seq<u8>, b: u8)
    ensures
        window_of(out.push(b)) == window_of(out).update(slot_of(out.len() as int), b),
{
    assert forall|s: int| 0 <= s < 85 implies #[trigger] window_of(out.push(b))[s]
        == window_of(out).update(slot_of(out.len() as int), b)[s] by {
        lemma_window_push(out, b, s);
    }
    assert(window_of(out.push(b)) =~= window_of(out).update(slot_of(out.len() as int), b));
}

proof fn lemma_window_of_empty()
    ensures
        window_of(Seq::<u8>::empty()) == Seq::new(85, |s: int| 0u8),
{
    assert(window_of(Seq::<u8>::empty()) =~= Seq::new(85, |s: int| 0u8));
}

proof fn lemma_bit_is_zero_or_one(flags: u8, bp: u32)
    ensures
        (flags >> bp) & 1 == 0 || (flags >> bp) & 1 == 1,
{
    assert((flags >> bp) & 1 == 0 || (flags >> bp) & 1 == 1) by (bit_vector);
}

/// Appends `b` to the output and to the window.
fn push_byte(out: &mut Vec<u8>, window: &mut [u8; WIN], wpos: &mut usize, b: u8)
    requires
        old(window)@ == window_of(old(out)@),
        *old(wpos) == slot_of(old(out)@.len() as int),
    ensures
        final(out)@ == old(out)@.push(b),
        final(window)@ == window_of(final(out)@),
        *final(wpos) == slot_of(final(out)@.len() as int),
{
    proof {
        lemma_window_of_push(out@, b);
    }
    out.push(b);
    window[*wpos] = b;
    *wpos = next_slot(*wpos);
    assert(window@ =~= window_of(out@));
}

/// Decompresses a raw MC_LZ stream. `out_limit` is the exact uncompressed
/// length: decompression stops once that many bytes have been written.
pub fn inflate(data: &[u8], out_limit: usize) -> (out: Vec<u8>)
    ensures
        out@ == spec_inflate(data@, out_limit as nat),
{
    let mut window: [u8; WIN] = [0u8; WIN];
    let mut wpos: usize = WIN - 4;
    let mut out: Vec<u8> = Vec::with_capacity(out_limit);
    let mut pos: usize = 0;
    let ghost limit: nat = out_limit as nat;
    proof {
        lemma_window_of_empty();
        assert(window@ =~= window_of(out@));
    }

    'outer: while pos < data.len() && out.len() < out_limit
        invariant_except_break
            limit == out_limit as nat,
            pos <= data.len(),
            window@ == window_of(out@),
            wpos == slot_of(out@.len() as int),
            inflate_from(out@, data@, pos as int, limit) == spec_inflate(data@, limit),
        ensures
            out@ == spec_inflate(data@, limit),
        decreases data.len() - pos,
    {
        let flags: u8 = data[pos];
        pos += 1;
        let mut bp: u32 = 0;
        let ghost blk = inflate_block(out@, flags, data@, pos as int, 0, limit);
        proof {
            lemma_inflate_block_pos(out@, flags, data@, pos as int, 0, limit);
        }

        // Tokens may start at bits 0..6. Bit 7 is only used as the
        // trailing half of a two-bit token that starts at bit 6.
        while bp < 7 && out.len() < out_limit
            invariant_except_break
                limit == out_limit as nat,
                pos <= data.len(),
                bp <= 8,
                window@ == window_of(out@),
                wpos == slot_of(out@.len() as int),
                inflate_block(out@, flags, data@, pos as int, bp, limit) == blk,
                !blk.2 ==> inflate_from(blk.0, data@, blk.1, limit) == spec_inflate(data@, limit),
                blk.2 ==> blk.0 == spec_inflate(data@, limit),
                blk.1 <= data.len(),
            ensures
                pos <= data.len(),
                window@ == window_of(out@),
                wpos == slot_of(out@.len() as int),
                inflate_block(out@, flags, data@, pos as int, bp, limit) == blk,
                !blk.2,
                blk == (out@, pos as int, false),
                inflate_from(out@, data@, pos as int, limit) == spec_inflate(data@, limit),
            decreases 8 - bp,
        {
            let ghost out0 = out@;
            let ghost bp0 = bp;
            let ghost pos0 = pos as int;
            proof {
                lemma_bit_is_zero_or_one(flags, bp);
                lemma_bit_is_zero_or_one(flags, (bp + 1) as u32);
            }
            if (flags >> bp) & 1 == 0 {
                // Bit 0: literal
                if pos >= data.len() {
                    assert(blk == (out@, pos as int, true));
                    break 'outer;
                }
                let b: u8 = data[pos];
                pos += 1;
                push_byte(&mut out, &mut window, &mut wpos, b);
                bp += 1;
            } else {
                bp += 1;
                if bp >= 8 {
                    // Lone leading 1 at bit 7: padding, end of block.
                    assert(blk == (out@, pos as int, false));
                    break;
                }
                if (flags >> bp) & 1 == 0 {
                    // Bits 10: back-reference
                    if pos >= data.len() {
                        assert(blk == (out@, pos as int, true));
                        break 'outer;
                    }
                    let t: usize = data[pos] as usize;
                    pos += 1;
                    let actual: usize = if t >= 0xAB { t - 1 } else { t };
                    let length: usize = actual / WIN + 2;
                    let mut src: usize = actual % WIN;
                    let ghost target = copy_back(out@, src as int, length as nat, limit);
                    assert(inflate_block(out0, flags, data@, pos0, bp0, limit)
                        == inflate_block(target, flags, data@, pos as int, (bp0 + 2) as u32, limit));
                    let mut k: usize = 0;
                    while k < length
                        invariant_except_break
                            limit == out_limit as nat,
                            k <= length,
                            src < WIN,
                            window@ == window_of(out@),
                            wpos == slot_of(out@.len() as int),
                            copy_back(out@, src as int, (length - k) as nat, limit) == target,
                        ensures
                            window@ == window_of(out@),
                            wpos == slot_of(out@.len() as int),
                            out@ == target,
                        decreases length - k,
                    {
                        if out.len() >= out_limit {
                            assert(out@ == target);
                            break;
                        }
                        let b: u8 = window[src];
                        assert(b == window_at(out@, src as int));
                        src = next_slot(src);
                        push_byte(&mut out, &mut window, &mut wpos, b);
                        k += 1;
                    }
                } else {
                    // Bits 11: 0xAA literal
                    assert(inflate_block(out0, flags, data@, pos0, bp0, limit)
                        == inflate_block(out0.push(0xAA), flags, data@, pos0, (bp0 + 2) as u32, limit));
                    push_byte(&mut out, &mut window, &mut wpos, 0xAA);
                }
                bp += 1;
            }
        }
        assert(blk == (out@, pos as int, false));
    }

    out
}


// ── deflate ─────────────────────────────────────────────────────────────────

/// Whether `len` bytes of the ring from slot `src` match those from `cur`,
/// from the second byte on.
pub open spec fn ring_match(ring: Seq<u8>, src: int, cur: int, len: int) -> bool {
    forall|k: int| 0 < k < len ==> #[trigger] ring[(src + k) % 85] == ring[(cur + k) % 85]
}

/// How many bytes (1 to 4) of the ring from slot `src` match those from
/// `cur`, the first byte being taken as matching.
pub open spec fn match_length(ring: Seq<u8>, src: int, cur: int) -> int {
    if ring[(src + 1) % 85] != ring[(cur + 1) % 85] {
        1
    } else if ring[(src + 2) % 85] != ring[(cur + 2) % 85] {
        2
    } else if ring[(src + 3) % 85] != ring[(cur + 3) % 85] {
        3
    } else {
        4
    }
}

/// The best match for slot `cur` among the first `n` slots of `chain`: the
/// first slot of greatest length, or `(0, 0)` when `n` is zero.
pub open spec fn scan_chain(ring: Seq<u8>, chain: Seq<usize>, cur: int, n: int) -> (int, int)
    decreases n,
{
    if n <= 0 {
        (0, 0)
    } else {
        let (best_len, best_src) = scan_chain(ring, chain, cur, n - 1);
        let l = match_length(ring, chain[n - 1] as int, cur);
        if l > best_len { (l, chain[n - 1] as int) } else { (best_len, best_src) }
    }
}

/// The position of the first of the first `n` slots of `chain` that matches
/// four bytes from `cur`, or -1.
pub open spec fn first_full(ring: Seq<u8>, chain: Seq<usize>, cur: int, n: int) -> int
    decreases n,
{
    if n <= 0 {
        -1
    } else if first_full(ring, chain, cur, n - 1) >= 0 {
        first_full(ring, chain, cur, n - 1)
    } else if match_length(ring, chain[n - 1] as int, cur) == 4 {
        n - 1
    } else {
        -1
    }
}

/// Listing `slot` in the chain of its byte: the slot takes the place of the
/// first slot that matches four bytes, which is the match; otherwise it goes
/// at the end of the chain and the match is the best one in the chain. The
/// result is the new slot buckets, the new chains, and the match (length,
/// source).
pub open spec fn listed(ring: Seq<u8>, slot_bucket: Seq<u8>, chains: Seq<Seq<usize>>, slot: int) -> (
    Seq<u8>,
    Seq<Seq<usize>>,
    int,
    int,
) {
    let b = ring[slot];
    let chain = chains[b as int];
    let sb = slot_bucket.update(slot, b);
    let f = first_full(ring, chain, slot, chain.len() as int);
    if f >= 0 {
        (sb, chains.update(b as int, chain.update(f, slot as usize)), 4, chain[f] as int)
    } else {
        let (l, src) = scan_chain(ring, chain, slot, chain.len() as int);
        (sb, chains.update(b as int, chain.push(slot as usize)), l, src)
    }
}

/// `chain` without the first occurrence of `x`.
pub open spec fn without(chain: Seq<usize>, x: usize) -> Seq<usize>
    decreases chain.len(),
{
    if chain.len() == 0 {
        chain
    } else if chain[0] == x {
        chain.drop_first()
    } else {
        seq![chain[0]] + without(chain.drop_first(), x)
    }
}

/// Taking `slot` out of the chain its bucket names.
pub open spec fn unlisted(slot_bucket: Seq<u8>, chains: Seq<Seq<usize>>, slot: int) -> Seq<Seq<usize>> {
    let b = slot_bucket[slot] as int;
    chains.update(b, without(chains[b], slot as usize))
}

/// The chains as sequences.
pub open spec fn chains_view(buckets: Seq<Vec<usize>>) -> Seq<Seq<usize>> {
    buckets.map_values(|v: Vec<usize>| v@)
}

/// The encoder's state as values: the ring, the bucket of each slot, the
/// chains, the input read, the look-ahead length, the look-ahead slot, the
/// slot the next input byte goes to, and the match for the look-ahead.
pub struct EncoderModel {
    pub ring: Seq<u8>,
    pub slot_bucket: Seq<u8>,
    pub chains: Seq<Seq<usize>>,
    pub input_pos: int,
    pub pending: int,
    pub lookahead_end: int,
    pub state_flag: int,
    pub match_len: int,
    pub match_src: int,
}

/// The encoder after moving the look-ahead on by one byte of `d`.
pub open spec fn advanced(m: EncoderModel, d: Seq<u8>) -> EncoderModel {
    let chains1 = unlisted(m.slot_bucket, m.chains, m.state_flag);
    let reads = m.input_pos < d.len();
    let ring1 = if reads { m.ring.update(m.state_flag, d[m.input_pos]) } else { m.ring };
    let sb1 = if reads { m.slot_bucket.update(m.state_flag, d[m.input_pos]) } else { m.slot_bucket };
    let ip1 = if reads { m.input_pos + 1 } else { m.input_pos };
    let pending1 = (if reads { m.pending + 1 } else { m.pending }) - 1;
    let le1 = (m.lookahead_end + 1) % 85;
    let sf1 = (m.state_flag + 1) % 85;
    if pending1 > 0 {
        let (sb2, chains2, l, src) = listed(ring1, sb1, chains1, le1);
        EncoderModel {
            ring: ring1,
            slot_bucket: sb2,
            chains: chains2,
            input_pos: ip1,
            pending: pending1,
            lookahead_end: le1,
            state_flag: sf1,
            match_len: l,
            match_src: src,
        }
    } else {
        EncoderModel {
            ring: ring1,
            slot_bucket: sb1,
            chains: chains1,
            input_pos: ip1,
            pending: pending1,
            lookahead_end: le1,
            state_flag: sf1,
            ..m
        }
    }
}

/// The encoder after moving the look-ahead on by `n` bytes.
pub open spec fn advanced_by(m: EncoderModel, d: Seq<u8>, n: nat) -> EncoderModel
    decreases n,
{
    if n == 0 { m } else { advanced(advanced_by(m, d, (n - 1) as nat), d) }
}

/// The length the encoder emits for its look-ahead: the match, cut to the
/// look-ahead.
pub open spec fn emitted_length(m: EncoderModel) -> int {
    if m.match_len < m.pending { m.match_len } else { m.pending }
}

/// The token the encoder emits for its look-ahead: a back-reference for a
/// match of two bytes or more, else the look-ahead byte.
pub open spec fn next_token(m: EncoderModel) -> LzToken {
    if emitted_length(m) >= 2 {
        LzToken::Reference { length: emitted_length(m) as u8, source: m.match_src as u8 }
    } else if m.ring[m.lookahead_end] == 0xAA {
        LzToken::Marker
    } else {
        LzToken::Literal(m.ring[m.lookahead_end])
    }
}

/// How many input bytes that token covers.
pub open spec fn covered(m: EncoderModel) -> int {
    if emitted_length(m) > 1 { emitted_length(m) } else { 1 }
}

/// Moving the look-ahead on by `n` bytes covers `n` more input bytes, and
/// never reads past the input.
pub proof fn lemma_advanced_by_consumed(m: EncoderModel, d: Seq<u8>, n: nat)
    ensures
        advanced_by(m, d, n).input_pos - advanced_by(m, d, n).pending == m.input_pos - m.pending + n,
        m.input_pos <= d.len() ==> advanced_by(m, d, n).input_pos <= d.len(),
    decreases n,
{
    if n > 0 {
        lemma_advanced_by_consumed(m, d, (n - 1) as nat);
    }
}

/// The tokens the encoder emits from state `m` on.
pub open spec fn tokens_from(m: EncoderModel, d: Seq<u8>) -> Seq<LzToken>
    decreases d.len() - (m.input_pos - m.pending),
{
    if m.pending <= 0 || m.input_pos > d.len() {
        Seq::empty()
    } else {
        proof {
            lemma_advanced_by_consumed(m, d, covered(m) as nat);
        }
        if covered(m) <= m.pending {
            seq![next_token(m)] + tokens_from(advanced_by(m, d, covered(m) as nat), d)
        } else {
            Seq::empty()
        }
    }
}

/// The slot buckets and chains once the `k` slots before the first
/// look-ahead slot are listed, nearest first.
pub open spec fn listed_before(ring: Seq<u8>, k: nat) -> (Seq<u8>, Seq<Seq<usize>>)
    decreases k,
{
    if k == 0 {
        (Seq::new(85, |i: int| 0u8), Seq::new(256, |i: int| Seq::<usize>::empty()))
    } else {
        let (sb, chains) = listed_before(ring, (k - 1) as nat);
        let l = listed(ring, sb, chains, 81 - k);
        (l.0, l.1)
    }
}

/// The encoder once the first (up to four) bytes of `d` are in the ring and
/// the four slots before the look-ahead and the look-ahead itself are listed.
pub open spec fn started(d: Seq<u8>) -> EncoderModel {
    let ip = if d.len() < 4 { d.len() as int } else { 4 };
    let ring = window_of(d.take(ip));
    let (sb4, chains4) = listed_before(ring, 4);
    let l5 = listed(ring, sb4, chains4, 81);
    EncoderModel {
        ring,
        slot_bucket: l5.0,
        chains: l5.1,
        input_pos: ip,
        pending: ip,
        lookahead_end: 81,
        state_flag: 0,
        match_len: l5.2,
        match_src: l5.3,
    }
}

/// Tokens packed into blocks: a token opens a new block once the current
/// one has used seven flag bits. The result is the full blocks and the
/// current one.
pub open spec fn packed(toks: Seq<LzToken>) -> (Seq<Seq<LzToken>>, Seq<LzToken>)
    decreases toks.len(),
{
    if toks.len() == 0 {
        (Seq::empty(), Seq::empty())
    } else {
        let (done, cur) = packed(toks.drop_last());
        if tokens_bits(cur) >= 7 {
            (done.push(cur), seq![toks.last()])
        } else {
            (done, cur.push(toks.last()))
        }
    }
}

proof fn lemma_packed_push(toks: Seq<LzToken>, t: LzToken)
    ensures
        packed(toks.push(t)) == (if tokens_bits(packed(toks).1) >= 7 {
            (packed(toks).0.push(packed(toks).1), seq![t])
        } else {
            (packed(toks).0, packed(toks).1.push(t))
        }),
        packed(toks.push(t)).1.len() > 0,
{
    assert(toks.push(t).drop_last() =~= toks);
}

/// A state with look-ahead left emits its next token, then the tokens of
/// the state after the bytes that token covers.
proof fn lemma_tokens_from_step(m: EncoderModel, d: Seq<u8>)
    requires
        m.pending > 0,
        m.input_pos <= d.len(),
        covered(m) <= m.pending,
    ensures
        tokens_from(m, d) == seq![next_token(m)] + tokens_from(advanced_by(m, d, covered(m) as nat), d),
{
}

proof fn lemma_tokens_concat(a: Seq<LzToken>, t: LzToken, b: Seq<LzToken>)
    ensures
        a + (seq![t] + b) == a.push(t) + b,
{
    assert(a + (seq![t] + b) =~= a.push(t) + b);
}

/// What compressing `d` gives: the encoder's tokens, packed into blocks.
pub open spec fn spec_deflate(d: Seq<u8>) -> Seq<u8> {
    if d.len() == 0 {
        Seq::empty()
    } else {
        let (done, cur) = packed(tokens_from(started(d), d));
        encode_blocks(done.push(cur))
    }
}

fn compare_slots(ring: &[u8; WIN], src: usize, cur: usize) -> (len: usize)
    requires
        src < WIN,
        cur < WIN,
    ensures
        1 <= len <= 4,
        ring_match(ring@, src as int, cur as int, len as int),
        len < 4 ==> ring@[((src + len) % 85) as int] != ring@[((cur + len) % 85) as int],
        len == match_length(ring@, src as int, cur as int),
{
    let mut len: usize = 1;
    while len < 4 && ring[(src + len) % WIN] == ring[(cur + len) % WIN]
        invariant
            src < WIN,
            cur < WIN,
            1 <= len <= 4,
            ring_match(ring@, src as int, cur as int, len as int),
        decreases 4 - len,
    {
        len += 1;
    }
    len
}

/// The hash chains of the encoder: bucket `b` lists the slots whose byte is
/// `b`, each once, and `slot_bucket` records the bucket of each listed slot.
pub open spec fn chains_ok(buckets: Seq<Vec<usize>>, slot_bucket: Seq<u8>, ring: Seq<u8>) -> bool {
    &&& buckets.len() == 256
    &&& slot_bucket.len() == 85
    &&& ring.len() == 85
    &&& forall|b: int, i: int|
        #![trigger buckets[b]@[i]]
        0 <= b < 256 && 0 <= i < buckets[b]@.len() ==> {
            &&& buckets[b]@[i] < 85
            &&& slot_bucket[buckets[b]@[i] as int] == b
            &&& ring[buckets[b]@[i] as int] == b
        }
    &&& forall|b: int, i: int, j: int|
        #![trigger buckets[b]@[i], buckets[b]@[j]]
        0 <= b < 256 && 0 <= i < buckets[b]@.len() && 0 <= j < buckets[b]@.len() && i != j
            ==> buckets[b]@[i] != buckets[b]@[j]
}

/// Whether slot `s` is listed in some chain.
pub open spec fn in_chains(buckets: Seq<Vec<usize>>, s: usize) -> bool {
    exists|b: int, i: int|
        #![trigger buckets[b]@[i]]
        0 <= b < 256 && 0 <= i < buckets[b]@.len() && buckets[b]@[i] == s
}

/// Once a chain prefix holds a slot that matches four bytes, longer
/// prefixes give the same first one.
proof fn lemma_first_full_stays(ring: Seq<u8>, chain: Seq<usize>, cur: int, m: int, n: int)
    requires
        0 <= m <= n,
        first_full(ring, chain, cur, m) >= 0,
    ensures
        first_full(ring, chain, cur, n) == first_full(ring, chain, cur, m),
    decreases n - m,
{
    if n > m {
        lemma_first_full_stays(ring, chain, cur, m, n - 1);
    }
}

/// `without` takes out the element at the first position that holds `x`,
/// and keeps a chain that does not hold it.
proof fn lemma_without_at(chain: Seq<usize>, x: usize, idx: int)
    requires
        0 <= idx <= chain.len(),
        forall|i: int| 0 <= i < idx ==> chain[i] != x,
        idx < chain.len() ==> chain[idx] == x,
    ensures
        without(chain, x) == if idx < chain.len() { chain.remove(idx) } else { chain },
    decreases idx,
{
    if chain.len() == 0 {
    } else if idx == 0 {
        if chain.len() > 0 {
            assert(chain.remove(0) =~= chain.drop_first());
        }
    } else {
        let rest = chain.drop_first();
        lemma_without_at(rest, x, idx - 1);
        if idx < chain.len() {
            assert(seq![chain[0]] + rest.remove(idx - 1) =~= chain.remove(idx));
        } else {
            assert(seq![chain[0]] + rest =~= chain);
        }
    }
}

fn remove_slot(
    buckets: &mut Vec<Vec<usize>>,
    slot_bucket: &[u8; WIN],
    slot: usize,
    Ghost(ring): Ghost<Seq<u8>>,
)
    requires
        slot < WIN,
        chains_ok(old(buckets)@, slot_bucket@, ring),
    ensures
        chains_ok(final(buckets)@, slot_bucket@, ring),
        !in_chains(final(buckets)@, slot),
        forall|s: usize| in_chains(final(buckets)@, s) ==> in_chains(old(buckets)@, s),
        chains_view(final(buckets)@) == unlisted(slot_bucket@, chains_view(old(buckets)@), slot as int),
{
    let bucket: usize = slot_bucket[slot] as usize;
    let mut idx: usize = 0;
    let len: usize = buckets[bucket].len();
    while idx < len
        invariant
            len == buckets[bucket as int]@.len(),
            idx <= len,
            bucket < 256,
            buckets@.len() == 256,
            forall|i: int| 0 <= i < idx ==> buckets[bucket as int]@[i] != slot,
        ensures
            idx <= len,
            forall|i: int| 0 <= i < idx ==> buckets[bucket as int]@[i] != slot,
            idx < len ==> buckets[bucket as int]@[idx as int] == slot,
        decreases len - idx,
    {
        if buckets[bucket][idx] == slot {
            break;
        }
        idx += 1;
    }
    let ghost old_buckets = buckets@;
    proof {
        lemma_without_at(old_buckets[bucket as int]@, slot, idx as int);
    }
    if idx < len {
        buckets[bucket].remove(idx);
    }
    assert(chains_view(buckets@) =~= unlisted(slot_bucket@, chains_view(old_buckets), slot as int));
    assert forall|s: usize| in_chains(buckets@, s) implies in_chains(old_buckets, s) by {
        let (b, i) = choose|b: int, i: int|
            #![trigger buckets@[b]@[i]]
            0 <= b < 256 && 0 <= i < buckets@[b]@.len() && buckets@[b]@[i] == s;
        if b == bucket && i >= idx {
            assert(old_buckets[b]@[i + 1] == s);
        } else {
            assert(old_buckets[b]@[i] == s);
        }
    }
    assert(!in_chains(buckets@, slot)) by {
        if in_chains(buckets@, slot) {
            let (b, i) = choose|b: int, i: int|
                #![trigger buckets@[b]@[i]]
                0 <= b < 256 && 0 <= i < buckets@[b]@.len() && buckets@[b]@[i] == slot;
            if b == bucket && i >= idx {
                assert(old_buckets[b]@[i + 1] == slot);
                assert(old_buckets[b]@[idx as int] == slot);
                assert(false);
            } else {
                assert(old_buckets[b]@[i] == slot);
                assert(slot_bucket@[slot as int] == b);
                if b == bucket {
                    assert(i < idx);
                }
                assert(false);
            }
        }
    }
}


/// The facts a match found for slot `cur` carries: a listed slot, away from
/// the four slots from `cur` on, whose bytes match `len` bytes from `cur`.
pub open spec fn match_facts(ring: Seq<u8>, cur: int, len: usize, src: usize) -> bool {
    &&& len <= 4
    &&& len > 0 ==> {
        &&& src < 85
        &&& ring[src as int] == ring[cur]
        &&& ring_match(ring, src as int, cur, len as int)
    }
}

fn insert_slot(
    ring: &[u8; WIN],
    slot_bucket: &mut [u8; WIN],
    buckets: &mut Vec<Vec<usize>>,
    slot: usize,
) -> (res: (usize, usize))
    requires
        slot < WIN,
        chains_ok(old(buckets)@, old(slot_bucket)@, ring@),
        !in_chains(old(buckets)@, slot),
    ensures
        chains_ok(final(buckets)@, final(slot_bucket)@, ring@),
        in_chains(final(buckets)@, slot),
        forall|s: usize| in_chains(final(buckets)@, s) ==> s == slot || in_chains(old(buckets)@, s),
        match_facts(ring@, slot as int, res.0, res.1),
        res.0 > 0 ==> in_chains(old(buckets)@, res.1),
        listed(ring@, old(slot_bucket)@, chains_view(old(buckets)@), slot as int)
            == (final(slot_bucket)@, chains_view(final(buckets)@), res.0 as int, res.1 as int),
{
    let bucket: usize = ring[slot] as usize;
    slot_bucket[slot] = bucket as u8;

    let ghost old_buckets = buckets@;
    assert(old_buckets == old(buckets)@);
    let mut best_len: usize = 0;
    let mut best_src: usize = 0;
    let len: usize = buckets[bucket].len();

    let mut idx: usize = 0;
    while idx < len
        invariant
            slot < WIN,
            bucket == ring@[slot as int],
            buckets@ == old_buckets,
            old_buckets == old(buckets)@,
            len == buckets@[bucket as int]@.len(),
            idx <= len,
            chains_ok(old_buckets, old(slot_bucket)@, ring@),
            !in_chains(old_buckets, slot),
            slot_bucket@ == old(slot_bucket)@.update(slot as int, bucket as u8),
            match_facts(ring@, slot as int, best_len, best_src),
            best_len > 0 ==> in_chains(old_buckets, best_src),
            best_len < 4,
            scan_chain(ring@, old_buckets[bucket as int]@, slot as int, idx as int) == (best_len as int, best_src as int),
            first_full(ring@, old_buckets[bucket as int]@, slot as int, idx as int) == -1,
        decreases len - idx,
    {
        let src: usize = buckets[bucket][idx];
        assert(src < 85 && ring@[src as int] == bucket);
        let l: usize = compare_slots(ring, src, slot);
        if l > best_len {
            best_len = l;
            best_src = src;
            if l == 4 {
                buckets[bucket][idx] = slot;
                assert(chains_view(buckets@) =~= chains_view(old_buckets).update(
                    bucket as int,
                    old_buckets[bucket as int]@.update(idx as int, slot),
                ));
                proof {
                    assert(first_full(ring@, old_buckets[bucket as int]@, slot as int, idx + 1) == idx);
                    lemma_first_full_stays(ring@, old_buckets[bucket as int]@, slot as int, idx + 1, len as int);
                    assert(in_chains(old_buckets, src));
                    assert(buckets@[bucket as int]@[idx as int] == slot);
                    assert forall|s: usize| in_chains(buckets@, s) implies s == slot || in_chains(old_buckets, s) by {
                        let (b, i) = choose|b: int, i: int|
                            #![trigger buckets@[b]@[i]]
                            0 <= b < 256 && 0 <= i < buckets@[b]@.len() && buckets@[b]@[i] == s;
                        if !(b == bucket && i == idx) {
                            assert(old_buckets[b]@[i] == s);
                        }
                    }
                }
                return (best_len, best_src);
            }
        }
        idx += 1;
    }

    buckets[bucket].push(slot);
    assert(chains_view(buckets@) =~= chains_view(old_buckets).update(bucket as int, old_buckets[bucket as int]@.push(slot)));
    proof {
        assert(buckets@[bucket as int]@[len as int] == slot);
        assert forall|s: usize| in_chains(buckets@, s) implies s == slot || in_chains(old_buckets, s) by {
            let (b, i) = choose|b: int, i: int|
                #![trigger buckets@[b]@[i]]
                0 <= b < 256 && 0 <= i < buckets@[b]@.len() && buckets@[b]@[i] == s;
            if !(b == bucket && i == len) {
                assert(old_buckets[b]@[i] == s);
            }
        }
    }
    (best_len, best_src)
}


/// The encoder's view of the input: `pending` bytes of look-ahead from
/// `input_pos - pending` on sit in the ring, which is the decoder's window
/// after `input_pos` bytes; the chains list only slots outside the three
/// look-ahead slots after `le`.
#[verifier::opaque]
pub open spec fn lookahead_ok(
    d: Seq<u8>,
    ring: Seq<u8>,
    slot_bucket: Seq<u8>,
    buckets: Seq<Vec<usize>>,
    input_pos: int,
    pending: int,
    le: int,
    sf: int,
) -> bool {
    let c = input_pos - pending;
    &&& 0 <= pending <= input_pos <= d.len()
    &&& input_pos == if c + 4 <= d.len() { c + 4 } else { d.len() as int }
    &&& le == slot_of(c)
    &&& sf == slot_of(c + 4)
    &&& ring == window_of(d.take(input_pos))
    &&& chains_ok(buckets, slot_bucket, ring)
    &&& forall|s: usize| #[trigger] in_chains(buckets, s) ==> ((s - le) % 85 == 0 || (s - le) % 85 >= 4)
}

/// The match found for the look-ahead at `le`.
pub open spec fn match_ok(ring: Seq<u8>, le: int, len: usize, src: usize) -> bool {
    &&& match_facts(ring, le, len, src)
    &&& len > 0 ==> (src - le) % 85 >= 4
}

proof fn lemma_dist_step(s: int, le: int)
    requires
        0 <= s < 85,
        0 <= le < 85,
    ensures
        (s - (le + 1) % 85) % 85 == ((s - le) % 85 + 84) % 85,
{
    let d0 = (s - le) % 85;
    if le == 84 {
        lemma_mod85_unique(le + 1, 1, 0);
    } else {
        lemma_mod85_unique(le + 1, 0, le + 1);
    }
    if s - le >= 0 {
        lemma_mod85_unique(s - le, 0, s - le);
    } else {
        lemma_mod85_unique(s - le, -1, s - le + 85);
    }
    let d1 = (s - (le + 1) % 85) % 85;
    if d0 == 0 {
        lemma_mod85_unique(d0 + 84, 0, 84);
        if le == 84 {
            lemma_mod85_unique(s - 0, 0, s);
        } else {
            lemma_mod85_unique(s - le - 1, -1, 84);
        }
    } else {
        lemma_mod85_unique(d0 + 84, 1, d0 - 1);
        if le == 84 {
            lemma_mod85_unique(s - 0, 0, s);
        } else if s - le - 1 >= 0 {
            lemma_mod85_unique(s - le - 1, 0, s - le - 1);
        } else {
            lemma_mod85_unique(s - le - 1, -1, s - le - 1 + 85);
        }
    }
}

proof fn lemma_slot_of_next(c: int)
    requires
        c >= 0,
    ensures
        slot_of(c + 1) == (slot_of(c) + 1) % 85,
        0 <= slot_of(c) < 85,
{
    let q = (81 + c) / 85;
    lemma_mod85_unique(81 + c, q, slot_of(c));
    if slot_of(c) == 84 {
        lemma_mod85_unique(82 + c, q + 1, 0);
        lemma_mod85_unique(slot_of(c) + 1, 1, 0);
    } else {
        lemma_mod85_unique(82 + c, q, slot_of(c) + 1);
        lemma_mod85_unique(slot_of(c) + 1, 0, slot_of(c) + 1);
    }
}

/// The flags byte of a block is never `0xAA`.
proof fn lemma_block_flags_not_marker(b: Seq<LzToken>)
    requires
        b.len() > 0,
        tokens_bits(b.drop_last()) <= 6,
    ensures
        block_flags(b) != 0xAA,
{
    crate::compression::tokens::lemma_block_flags(b);
    let f = block_flags(b);
    let bits = tokens_bits(b) as u32;
    assert(tokens_bits(b) == tokens_bits(b.drop_last()) + token_bits(b.last()));
    if bits == 8 {
        assert(b.take(b.len() - 1) =~= b.drop_last());
        assert(flag_bit(f, 6));
        assert((0xAAu8 >> 6u32) & 1 == 0) by (bit_vector);
    } else {
        assert(bits <= 7);
        assert(bits <= 7 ==> (0xAAu8 as u32) >> bits != 0) by (bit_vector);
    }
}

proof fn lemma_reference_byte_not_marker(length: u8, source: u8)
    requires
        2 <= length <= 4,
        source < 85,
    ensures
        crate::compression::tokens::reference_byte(length, source) != 0xAA,
{
}


proof fn lemma_chains_ok_update(buckets: Seq<Vec<usize>>, sb: Seq<u8>, ring: Seq<u8>, sf: usize, v1: u8, v2: u8)
    requires
        chains_ok(buckets, sb, ring),
        !in_chains(buckets, sf),
        sf < 85,
    ensures
        chains_ok(buckets, sb.update(sf as int, v1), ring.update(sf as int, v2)),
{
    assert forall|b: int, i: int|
        #![trigger buckets[b]@[i]]
        0 <= b < 256 && 0 <= i < buckets[b]@.len() implies buckets[b]@[i] != sf by {
        if buckets[b]@[i] == sf {
            assert(in_chains(buckets, sf));
        }
    }
}

/// The shape of the encoder output: the finished blocks, a flags byte not
/// yet written, and the bytes of the tokens of the current block.
#[verifier::opaque]
pub open spec fn output_ok(
    out: Seq<u8>,
    flags_idx: int,
    flags: u8,
    bit_pos: u32,
    done: Seq<Seq<LzToken>>,
    cur: Seq<LzToken>,
) -> bool {
    &&& 0 <= flags_idx < out.len()
    &&& out.take(flags_idx) == encode_blocks(done)
    &&& out.skip(flags_idx + 1) == block_bytes(cur)
    &&& flags == block_flags(cur)
    &&& bit_pos == tokens_bits(cur)
    &&& cur.len() == 0 || tokens_bits(cur.drop_last()) <= 6
    &&& forall|i: int| 0 <= i < cur.len() ==> token_valid(#[trigger] cur[i])
    &&& forall|i: int| 0 <= i < done.len() ==> crate::compression::tokens::block_well_formed(#[trigger] done[i])
    &&& forall|i: int| 0 <= i < done.len() ==> tokens_bits(#[trigger] done[i]) >= 7
    &&& forall|i: int| 0 <= i < out.len() && i != flags_idx ==> #[trigger] out[i] != 0xAA
}

proof fn lemma_lookahead_basic(
    d: Seq<u8>,
    ring: Seq<u8>,
    slot_bucket: Seq<u8>,
    buckets: Seq<Vec<usize>>,
    input_pos: int,
    pending: int,
    le: int,
    sf: int,
)
    requires
        lookahead_ok(d, ring, slot_bucket, buckets, input_pos, pending, le, sf),
    ensures
        0 <= pending <= input_pos <= d.len(),
        input_pos == if input_pos - pending + 4 <= d.len() { input_pos - pending + 4 } else { d.len() as int },
        le == slot_of(input_pos - pending),
        sf == slot_of(input_pos - pending + 4),
        0 <= le < 85,
        0 <= sf < 85,
        ring == window_of(d.take(input_pos)),
        ring.len() == 85,
        buckets.len() == 256,
{
    reveal(lookahead_ok);
    lemma_slot_of_next(input_pos - pending);
    lemma_slot_of_next(input_pos - pending + 4);
}

proof fn lemma_output_basic(
    out: Seq<u8>,
    flags_idx: int,
    flags: u8,
    bit_pos: u32,
    done: Seq<Seq<LzToken>>,
    cur: Seq<LzToken>,
)
    requires
        output_ok(out, flags_idx, flags, bit_pos, done, cur),
    ensures
        0 <= flags_idx < out.len(),
        bit_pos == tokens_bits(cur),
        bit_pos <= 8,
        bit_pos == 0 ==> cur.len() == 0,
{
    reveal(output_ok);
    if cur.len() > 0 {
        crate::compression::tokens::lemma_tokens_bits_monotone(cur, cur.len() - 1, cur.len() as int);
        crate::compression::tokens::lemma_tokens_bits_take(cur, cur.len() - 1);
        assert(cur.take(cur.len() as int) =~= cur);
        assert(cur.take(cur.len() - 1) =~= cur.drop_last());
    }
}

/// Writing the flags byte of a full block and opening a new one keeps the
/// output shape.
proof fn lemma_output_flush(
    old_out: Seq<u8>,
    flags_idx: int,
    flags: u8,
    bits: u32,
    done: Seq<Seq<LzToken>>,
    cur: Seq<LzToken>,
)
    requires
        output_ok(old_out, flags_idx, flags, bits, done, cur),
        bits >= 7,
    ensures
        output_ok(
            old_out.update(flags_idx, flags).push(0),
            old_out.len() as int,
            0,
            0,
            done.push(cur),
            Seq::empty(),
        ),
        apply_blocks(Seq::empty(), done.push(cur)) == apply_tokens(apply_blocks(Seq::empty(), done), cur),
        encode_blocks(done.push(cur)) == old_out.update(flags_idx, flags),
{
    reveal(output_ok);
    lemma_block_flags_not_marker(cur);
    let o1 = old_out.update(flags_idx, flags);
    let o2 = o1.push(0);
    let d2 = done.push(cur);
    assert(d2.drop_last() =~= done);
    assert(o1 =~= encode_blocks(done) + crate::compression::tokens::encode_block(cur)) by {
        assert(o1.take(flags_idx) =~= old_out.take(flags_idx));
        assert(o1.skip(flags_idx + 1) =~= old_out.skip(flags_idx + 1));
        assert(o1 =~= o1.take(flags_idx) + seq![o1[flags_idx]] + o1.skip(flags_idx + 1));
    }
    assert(o2.take(o1.len() as int) =~= o1);
    assert(o2.skip(o1.len() as int + 1) =~= block_bytes(Seq::<LzToken>::empty()));
    assert forall|i: int| 0 <= i < d2.len() implies crate::compression::tokens::block_well_formed(#[trigger] d2[i]) by {
        if i < done.len() {
            assert(d2[i] == done[i]);
        }
    }
    assert forall|i: int| 0 <= i < d2.len() implies tokens_bits(#[trigger] d2[i]) >= 7 by {
        if i < done.len() {
            assert(d2[i] == done[i]);
        }
    }
    assert forall|i: int| 0 <= i < o2.len() && i != o1.len() implies #[trigger] o2[i] != 0xAA by {
        if i != flags_idx {
            assert(o2[i] == old_out[i]);
        }
    }
    assert(block_bytes(Seq::<LzToken>::empty()) =~= Seq::<u8>::empty());
}

/// Adding a token to the current block keeps the output shape.
proof fn lemma_output_push_token(
    old_out: Seq<u8>,
    out: Seq<u8>,
    flags_idx: int,
    old_flags: u8,
    flags: u8,
    old_bits: u32,
    bits: u32,
    done: Seq<Seq<LzToken>>,
    cur: Seq<LzToken>,
    t: LzToken,
)
    requires
        output_ok(old_out, flags_idx, old_flags, old_bits, done, cur),
        old_bits < 7,
        token_valid(t),
        !(t is Literal) || t->Literal_0 != 0xAA,
        out == old_out + token_bytes(t),
        flags == old_flags | token_flags(t, old_bits),
        bits == old_bits + token_bits(t),
    ensures
        output_ok(out, flags_idx, flags, bits, done, cur.push(t)),
{
    reveal(output_ok);
    let c2 = cur.push(t);
    assert(c2.drop_last() =~= cur);
    assert(out.take(flags_idx) =~= old_out.take(flags_idx));
    assert(out.skip(flags_idx + 1) =~= block_bytes(c2));
    assert forall|i: int| 0 <= i < c2.len() implies token_valid(#[trigger] c2[i]) by {
        if i < cur.len() {
            assert(c2[i] == cur[i]);
        }
    }
    assert forall|i: int| 0 <= i < out.len() && i != flags_idx implies #[trigger] out[i] != 0xAA by {
        if i < old_out.len() {
            assert(out[i] == old_out[i]);
        } else {
            match t {
                LzToken::Reference { length, source } => {
                    lemma_reference_byte_not_marker(length, source);
                },
                _ => {},
            }
        }
    }
}

/// The token the encoder emits for the look-ahead writes the next input
/// bytes.
proof fn lemma_token_output(
    d: Seq<u8>,
    ring: Seq<u8>,
    c0: int,
    ip: int,
    le: int,
    match_len: usize,
    match_src: usize,
    emit_len: usize,
    n: usize,
    t: LzToken,
)
    requires
        0 <= c0 < ip <= d.len(),
        ip - c0 <= 4,
        le == slot_of(c0),
        ring == window_of(d.take(ip)),
        match_ok(ring, le, match_len, match_src),
        emit_len == if match_len < ip - c0 { match_len as int } else { ip - c0 },
        n == if emit_len > 1 { emit_len } else { 1 },
        emit_len >= 2 ==> t == (LzToken::Reference { length: emit_len as u8, source: match_src as u8 }),
        emit_len < 2 && d[c0] == 0xAA ==> t == LzToken::Marker,
        emit_len < 2 && d[c0] != 0xAA ==> t == LzToken::Literal(d[c0]),
    ensures
        apply_token(d.take(c0), t) == d.take(c0 + n),
        token_valid(t),
        c0 + n <= ip,
{
    lemma_slot_of_next(c0);
    if emit_len >= 2 {
        let src = match_src as int;
        assert forall|i: int| 0 <= i < n implies #[trigger] window_at(d.take(ip), (src + i) % 85)
            == window_at(d.take(ip), (slot_of(c0) + i) % 85) by {
            if i == 0 {
                lemma_mod85_unique(src, 0, src);
                lemma_mod85_unique(le, 0, le);
            } else {
                assert(ring[(src + i) % 85] == ring[(le + i) % 85]);
            }
        }
        lemma_mod85_unique(81 + c0, (81 + c0) / 85, le);
        lemma_mod85_shift(src - 81 - c0, (81 + c0) / 85);
        assert(src - 81 - c0 + 85 * ((81 + c0) / 85) == src - le);
        lemma_reference_copies(d, c0, ip, src, n as nat, 0);
        lemma_mod85_unique(src, 0, src);
        assert(d.take(c0 + 0) == d.take(c0));
    } else {
        lemma_window_recent(d, ip, c0);
        assert(d.take(c0).push(d[c0]) =~= d.take(c0 + 1));
    }
}

/// `s` and `t` name the same slot when they lie a multiple of 85 apart.
proof fn lemma_dist_zero(s: int, t: int)
    requires
        0 <= s < 85,
        0 <= t < 85,
        (s - t) % 85 == 0,
    ensures
        s == t,
{
    if s >= t {
        lemma_mod85_unique(s - t, 0, s - t);
    } else {
        lemma_mod85_unique(s - t, -1, s - t + 85);
    }
}

/// The slot four ahead of the look-ahead is the one the next input byte
/// goes to.
proof fn lemma_dist_four(s: int, c: int)
    requires
        0 <= s < 85,
        c >= 0,
        (s - slot_of(c)) % 85 == 4,
    ensures
        s == slot_of(c + 4),
{
    let r = slot_of(c);
    let q = (81 + c) / 85;
    lemma_mod85_unique(81 + c, q, r);
    let q2 = (s - r) / 85;
    lemma_mod85_unique(s - r, q2, 4);
    lemma_mod85_unique(85 + c, q - q2, s);
}

/// Once the slot four ahead of the look-ahead has left the chains, moving
/// the look-ahead on by one keeps every listed slot out of the three slots
/// after it, and the new look-ahead slot is not listed.
proof fn lemma_step_distances(
    buckets: Seq<Vec<usize>>,
    slot_bucket: Seq<u8>,
    ring: Seq<u8>,
    c: int,
)
    requires
        c >= 0,
        chains_ok(buckets, slot_bucket, ring),
        !in_chains(buckets, slot_of(c + 4) as usize),
        forall|s: usize| #[trigger] in_chains(buckets, s) ==> ((s - slot_of(c)) % 85 == 0 || (s - slot_of(c)) % 85 >= 4),
    ensures
        forall|s: usize| #[trigger] in_chains(buckets, s)
            ==> ((s - slot_of(c + 1)) % 85 == 0 || (s - slot_of(c + 1)) % 85 >= 4),
        !in_chains(buckets, slot_of(c + 1) as usize),
{
    lemma_slot_of_next(c);
    lemma_slot_of_next(c + 4);
    let le = slot_of(c);
    assert forall|s: usize| #[trigger] in_chains(buckets, s)
        implies ((s - slot_of(c + 1)) % 85 == 0 || (s - slot_of(c + 1)) % 85 >= 4) by {
        let (b, i) = choose|b: int, i: int|
            #![trigger buckets[b]@[i]]
            0 <= b < 256 && 0 <= i < buckets[b]@.len() && buckets[b]@[i] == s;
        assert(s < 85);
        lemma_dist_step(s as int, le);
        if (s - le) % 85 == 4 {
            lemma_dist_four(s as int, c);
        }
    }
    let n = slot_of(c + 1);
    if in_chains(buckets, n as usize) {
        if le == 84 {
            lemma_mod85_unique(n - le, -1, 1);
        } else {
            lemma_mod85_unique(n - le, 0, 1);
        }
    }
}

/// What the encoder's state means once the last token is out: the blocks
/// written so far, with the current block if it holds any token.
proof fn lemma_output_finish(
    out: Seq<u8>,
    flags_idx: int,
    flags: u8,
    bit_pos: u32,
    done: Seq<Seq<LzToken>>,
    cur: Seq<LzToken>,
) -> (bs: Seq<Seq<LzToken>>)
    requires
        output_ok(out, flags_idx, flags, bit_pos, done, cur),
    ensures
        blocks_well_formed(bs),
        apply_blocks(Seq::empty(), bs) == apply_tokens(apply_blocks(Seq::empty(), done), cur),
        bit_pos > 0 ==> encode_blocks(bs) == out.update(flags_idx, flags),
        bit_pos > 0 ==> bs == done.push(cur),
        bit_pos == 0 ==> encode_blocks(bs) == out.drop_last(),
        bit_pos > 0 ==> forall|i: int| 0 <= i < out.len() ==> #[trigger] out.update(flags_idx, flags)[i] != 0xAA,
        bit_pos == 0 ==> forall|i: int| 0 <= i < out.len() - 1 ==> #[trigger] out[i] != 0xAA,
        bit_pos == 0 ==> out.len() == flags_idx + 1,
        0 <= flags_idx < out.len(),
{
    reveal(output_ok);
    if bit_pos > 0 {
        let bs = done.push(cur);
        lemma_block_flags_not_marker(cur);
        let o1 = out.update(flags_idx, flags);
        assert(bs.drop_last() =~= done);
        assert(o1 =~= encode_blocks(done) + crate::compression::tokens::encode_block(cur)) by {
            assert(o1.take(flags_idx) =~= out.take(flags_idx));
            assert(o1.skip(flags_idx + 1) =~= out.skip(flags_idx + 1));
            assert(o1 =~= o1.take(flags_idx) + seq![o1[flags_idx]] + o1.skip(flags_idx + 1));
        }
        assert forall|i: int| 0 <= i < bs.len() implies crate::compression::tokens::block_well_formed(#[trigger] bs[i]) by {
            if i < done.len() {
                assert(bs[i] == done[i]);
            }
        }
        assert forall|i: int| 0 <= i < bs.len() - 1 implies tokens_bits(#[trigger] bs[i]) >= 7 by {
            assert(bs[i] == done[i]);
        }
        assert forall|i: int| 0 <= i < out.len() implies #[trigger] out.update(flags_idx, flags)[i] != 0xAA by {
            if i != flags_idx {
                assert(o1[i] == out[i]);
            }
        }
        bs
    } else {
        assert(cur.len() == 0) by {
            if cur.len() > 0 {
                lemma_output_basic(out, flags_idx, flags, bit_pos, done, cur);
            }
        }
        assert(block_bytes(cur) =~= Seq::<u8>::empty());
        assert(out.skip(flags_idx + 1).len() == 0);
        assert(out.drop_last() =~= out.take(flags_idx));
        assert forall|i: int| 0 <= i < done.len() - 1 implies tokens_bits(#[trigger] done[i]) >= 7 by {}
        done
    }
}

/// The state the encoder carries from one look-ahead position to the next.
struct Encoder {
    ring: [u8; WIN],
    slot_bucket: [u8; WIN],
    buckets: Vec<Vec<usize>>,
    input_pos: usize,
    pending: usize,
    lookahead_end: usize,
    state_flag: usize,
    match_len: usize,
    match_src: usize,
}

impl Encoder {
    /// Number of input bytes that emitted tokens already cover.
    spec fn consumed(&self) -> int {
        self.input_pos - self.pending
    }

    spec fn model(&self) -> EncoderModel {
        EncoderModel {
            ring: self.ring@,
            slot_bucket: self.slot_bucket@,
            chains: chains_view(self.buckets@),
            input_pos: self.input_pos as int,
            pending: self.pending as int,
            lookahead_end: self.lookahead_end as int,
            state_flag: self.state_flag as int,
            match_len: self.match_len as int,
            match_src: self.match_src as int,
        }
    }

    spec fn inv(&self, d: Seq<u8>) -> bool {
        &&& lookahead_ok(d, self.ring@, self.slot_bucket@, self.buckets@, self.input_pos as int,
            self.pending as int, self.lookahead_end as int, self.state_flag as int)
        &&& self.pending > 0 ==> match_ok(self.ring@, self.lookahead_end as int, self.match_len, self.match_src)
    }

    /// Moves the look-ahead on by one byte: the slot that the next input byte
    /// overwrites leaves the chains, that byte (if any) is read into the
    /// ring, and the new look-ahead position is matched and listed.
    fn advance(&mut self, data: &[u8])
        requires
            old(self).inv(data@),
            old(self).pending > 0,
        ensures
            final(self).inv(data@),
            final(self).consumed() == old(self).consumed() + 1,
            final(self).input_pos >= old(self).input_pos,
            final(self).model() == advanced(old(self).model(), data@),
    {
        let ghost d = data@;
        let ghost c = self.consumed();
        proof {
            lemma_lookahead_basic(d, self.ring@, self.slot_bucket@, self.buckets@, self.input_pos as int,
                self.pending as int, self.lookahead_end as int, self.state_flag as int);
            reveal(lookahead_ok);
        }
        let ghost b0 = self.buckets@;
        remove_slot(&mut self.buckets, &self.slot_bucket, self.state_flag, Ghost(self.ring@));
        if self.input_pos < data.len() {
            let ghost ip = self.input_pos as int;
            proof {
                lemma_chains_ok_update(self.buckets@, self.slot_bucket@, self.ring@, self.state_flag, d[ip], d[ip]);
                lemma_window_of_push(d.take(ip), d[ip]);
                assert(d.take(ip).push(d[ip]) =~= d.take(ip + 1));
            }
            self.ring[self.state_flag] = data[self.input_pos];
            self.slot_bucket[self.state_flag] = self.ring[self.state_flag];
            self.input_pos += 1;
            self.pending += 1;
            assert(self.ring@ =~= window_of(d.take(self.input_pos as int)));
        }
        let ghost b1 = self.buckets@;
        proof {
            assert forall|s: usize| #[trigger] in_chains(b1, s) implies ((s - slot_of(c)) % 85 == 0 || (s - slot_of(c)) % 85 >= 4) by {
                assert(in_chains(b0, s));
            }
            lemma_step_distances(b1, self.slot_bucket@, self.ring@, c);
            lemma_slot_of_next(c);
            lemma_slot_of_next(c + 4);
        }
        self.state_flag = next_slot(self.state_flag);
        self.lookahead_end = next_slot(self.lookahead_end);
        self.pending -= 1;
        if self.pending > 0 {
            let (l, s): (usize, usize) = insert_slot(&self.ring, &mut self.slot_bucket, &mut self.buckets, self.lookahead_end);
            self.match_len = l;
            self.match_src = s;
            proof {
                let le = self.lookahead_end as int;
                if l > 0 {
                    assert(in_chains(b1, s));
                    if (s - le) % 85 == 0 {
                        lemma_dist_zero(s as int, le);
                    }
                }
                assert forall|x: usize| #[trigger] in_chains(self.buckets@, x) implies ((x - le) % 85 == 0 || (x - le) % 85 >= 4) by {
                    if x != le {
                        assert(in_chains(b1, x));
                    }
                }
            }
        }
        proof {
            reveal(lookahead_ok);
        }
    }

    /// Moves the look-ahead on by `n` bytes.
    fn advance_by(&mut self, data: &[u8], n: usize)
        requires
            old(self).inv(data@),
            old(self).consumed() + n <= old(self).input_pos,
        ensures
            final(self).inv(data@),
            final(self).consumed() == old(self).consumed() + n,
            final(self).model() == advanced_by(old(self).model(), data@, n as nat),
    {
        let ghost m0 = self.model();
        let ghost c_start = self.consumed();
        let ghost ip_start = self.input_pos as int;
        let mut k: usize = 0;
        while k < n
            invariant
                self.inv(data@),
                k <= n,
                self.consumed() == c_start + k,
                ip_start <= self.input_pos,
                c_start + n <= ip_start,
                self.model() == advanced_by(m0, data@, k as nat),
            decreases n - k,
        {
            self.advance(data);
            k += 1;
        }
    }
}

/// Compresses `data` for the MC_LZ codec. The result holds no `0xAA` byte,
/// and decompressing it with `data.len()` as the limit gives `data` back.
#[verifier::rlimit(60)]
pub fn deflate(data: &[u8]) -> (out: Vec<u8>)
    ensures
        out@ == spec_deflate(data@),
        spec_inflate(out@, data@.len()) == data@,
        forall|i: int| 0 <= i < out@.len() ==> out@[i] != 0xAA,
        data@.len() == 0 ==> out@.len() == 0,
{
    if data.is_empty() {
        return Vec::new();
    }
    let ghost d = data@;

    let mut ring: [u8; WIN] = [0u8; WIN];
    let mut slot_bucket: [u8; WIN] = [0u8; WIN];
    let mut buckets: Vec<Vec<usize>> = Vec::new();
    while buckets.len() < 256
        invariant
            buckets@.len() <= 256,
            forall|b: int| 0 <= b < buckets@.len() ==> (#[trigger] buckets@[b])@.len() == 0,
        decreases 256 - buckets@.len(),
    {
        buckets.push(Vec::new());
    }
    assert forall|i: int| 0 <= i < 256 implies chains_view(buckets@)[i] =~= Seq::<usize>::empty() by {
        assert(buckets@[i]@.len() == 0);
    }
    assert(chains_view(buckets@) =~= Seq::new(256, |i: int| Seq::<usize>::empty()));
    assert(slot_bucket@ =~= Seq::new(85, |i: int| 0u8));
    let mut lookahead_end: usize = WIN - 4;
    let mut state_flag: usize = 0;
    let mut pending: usize = 0;
    let mut input_pos: usize = 0;
    let mut out: Vec<u8> = Vec::with_capacity(data.len().saturating_add(data.len() / 4).saturating_add(1));

    let mut flags: u8 = 0;
    let mut bit_pos: u32 = 0;
    let mut flags_idx: usize = 0;
    out.push(0); // first flags-byte placeholder

    proof {
        lemma_window_of_empty();
        assert(ring@ =~= window_of(d.take(0)));
    }
    while input_pos < data.len() && pending < 4
        invariant
            d == data@,
            pending == input_pos,
            input_pos <= 4,
            input_pos <= d.len(),
            lookahead_end == 81,
            ring@ == window_of(d.take(input_pos as int)),
        decreases 4 - pending,
    {
        proof {
            lemma_window_of_push(d.take(input_pos as int), d[input_pos as int]);
            assert(d.take(input_pos as int).push(d[input_pos as int]) =~= d.take(input_pos + 1));
            lemma_mod85_unique(81 + input_pos, 0, 81 + input_pos as int);
        }
        ring[(lookahead_end + pending) % WIN] = data[input_pos];
        pending += 1;
        input_pos += 1;
        assert(ring@ =~= window_of(d.take(input_pos as int)));
    }

    proof {
        assert(chains_ok(buckets@, slot_bucket@, ring@));
        assert forall|s: usize| !in_chains(buckets@, s) by {}
    }
    let mut delta: usize = 1;
    while delta <= 4
        invariant
            1 <= delta <= 5,
            lookahead_end == 81,
            chains_ok(buckets@, slot_bucket@, ring@),
            forall|s: usize| #[trigger] in_chains(buckets@, s) ==> 81 - delta < s <= 80,
            (slot_bucket@, chains_view(buckets@)) == listed_before(ring@, (delta - 1) as nat),
        decreases 5 - delta,
    {
        let slot: usize = (lookahead_end + WIN - delta) % WIN;
        assert(slot == 81 - delta);
        insert_slot(&ring, &mut slot_bucket, &mut buckets, slot);
        delta += 1;
    }
    let ghost d0_buckets = buckets@;
    proof {
        assert forall|s: usize| #[trigger] in_chains(buckets@, s) implies ((s - 81) % 85 == 0 || (s - 81) % 85 >= 4) by {
            lemma_mod85_unique(s - 81, -1, s + 4);
        }
        lemma_mod85_unique(81, 0, 81);
        if input_pos == 4 {
            lemma_mod85_unique(85, 1, 0);
        } else {
            lemma_mod85_unique(85, 1, 0);
        }
        assert(lookahead_ok(d, ring@, slot_bucket@, buckets@, input_pos as int, pending as int, 81, 0)) by {
            reveal(lookahead_ok);
        }
    }
    let (ml, ms): (usize, usize) = insert_slot(&ring, &mut slot_bucket, &mut buckets, lookahead_end);
    let mut match_len: usize = ml;
    let mut match_src: usize = ms;
    let ghost mut all: Seq<LzToken> = Seq::empty();
    let ghost mut done: Seq<Seq<LzToken>> = Seq::empty();
    let ghost mut cur: Seq<LzToken> = Seq::empty();
    proof {
        assert forall|s: usize| #[trigger] in_chains(buckets@, s) implies ((s - 81) % 85 == 0 || (s - 81) % 85 >= 4) by {
            if s != 81 {
                assert(in_chains(d0_buckets, s));
            }
        }
        assert(lookahead_ok(d, ring@, slot_bucket@, buckets@, input_pos as int, pending as int, 81, 0)) by {
            reveal(lookahead_ok);
            lemma_mod85_unique(81, 0, 81);
            lemma_mod85_unique(85, 1, 0);
        }
        assert(match_ok(ring@, 81, match_len, match_src));
        assert(output_ok(out@, 0, 0, 0, done, cur)) by {
            reveal(output_ok);
            assert(out@.take(0) =~= encode_blocks(done));
            assert(out@.skip(1) =~= block_bytes(cur));
        }
        assert(apply_tokens(apply_blocks(Seq::empty(), done), cur) =~= d.take(0));
    }

    let mut enc = Encoder {
        ring,
        slot_bucket,
        buckets,
        input_pos,
        pending,
        lookahead_end,
        state_flag,
        match_len: ml,
        match_src: ms,
    };
    assert(input_pos == (if d.len() < 4 { d.len() as int } else { 4 }));
    assert(enc.model() == started(d));
    assert(tokens_from(started(d), d) =~= all + tokens_from(enc.model(), d));
    while enc.pending > 0
        invariant
            d == data@,
            enc.inv(d),
            output_ok(out@, flags_idx as int, flags, bit_pos, done, cur),
            apply_tokens(apply_blocks(Seq::empty(), done), cur) == d.take(enc.consumed()),
            packed(all) == (done, cur),
            tokens_from(started(d), d) == all + tokens_from(enc.model(), d),
            all.len() > 0 || enc.consumed() == 0,
        decreases d.len() - enc.consumed(),
    {
        let ghost pre_done = done;
        let ghost pre_cur = cur;
        let ghost pre_all = all;
        let ghost m0 = enc.model();
        proof {
            lemma_output_basic(out@, flags_idx as int, flags, bit_pos, done, cur);
            lemma_lookahead_basic(d, enc.ring@, enc.slot_bucket@, enc.buckets@, enc.input_pos as int,
                enc.pending as int, enc.lookahead_end as int, enc.state_flag as int);
        }
        // The encoder leaves flag bit 7 unused and starts a new block once
        // seven bits have been consumed.
        if bit_pos >= 7 {
            let ghost old_out = out@;
            out[flags_idx] = flags;
            proof {
                assert(out@ == old_out.update(flags_idx as int, flags));
                lemma_output_flush(old_out, flags_idx as int, flags, bit_pos, done, cur);
                done = done.push(cur);
                cur = Seq::empty();
                assert(apply_tokens(apply_blocks(Seq::empty(), done), cur) == apply_blocks(Seq::empty(), done));
            }
            flags = 0;
            bit_pos = 0;
            flags_idx = out.len();
            out.push(0);
        }
        let emit_len: usize = if enc.match_len < enc.pending { enc.match_len } else { enc.pending };
        let ghost c0: int = enc.consumed();
        let ghost old_out = out@;
        let ghost old_flags = flags;
        let ghost old_bits = bit_pos;
        let ghost mut t: LzToken = LzToken::Marker;
        proof {
            lemma_window_recent(d, enc.input_pos as int, c0);
        }
        if emit_len >= 2 {
            proof {
                t = LzToken::Reference { length: emit_len as u8, source: enc.match_src as u8 };
            }
            flags |= 0b01 << bit_pos;
            bit_pos += 2;

            let actual: usize = (emit_len - 2) * WIN + enc.match_src;
            let token: u8 = if actual > 0xA9 { (actual + 1) as u8 } else { actual as u8 };
            out.push(token);
            assert(out@ =~= old_out + token_bytes(t));
        } else {
            let byte: u8 = enc.ring[enc.lookahead_end];
            if byte == 0xAA {
                proof {
                    t = LzToken::Marker;
                }
                flags |= 0b11 << bit_pos;
                bit_pos += 2;
                assert(out@ =~= old_out + token_bytes(t));
            } else {
                proof {
                    t = LzToken::Literal(byte);
                    assert(flags | 0u8 == flags) by (bit_vector);
                }
                bit_pos += 1;
                out.push(byte);
                assert(out@ =~= old_out + token_bytes(t));
            }
        }
        let n: usize = if emit_len > 1 { emit_len } else { 1 };
        proof {
            lemma_token_output(d, enc.ring@, c0, enc.input_pos as int, enc.lookahead_end as int,
                enc.match_len, enc.match_src, emit_len, n, t);
            lemma_output_push_token(old_out, out@, flags_idx as int, old_flags, flags, old_bits, bit_pos, done, cur, t);
            let old_cur = cur;
            cur = cur.push(t);
            assert(cur.drop_last() =~= old_cur);
            let before = apply_blocks(Seq::empty(), done);
            assert(apply_tokens(before, cur) == apply_token(apply_tokens(before, old_cur), t));
            lemma_packed_push(pre_all, t);
            all = all.push(t);
            if tokens_bits(pre_cur) >= 7 {
                assert(cur =~= seq![t]);
            }
            assert(t == next_token(m0));
            lemma_tokens_from_step(m0, d);
        }
        enc.advance_by(data, n);
        proof {
            lemma_tokens_concat(pre_all, t, tokens_from(enc.model(), d));
        }
    }

    proof {
        lemma_lookahead_basic(d, enc.ring@, enc.slot_bucket@, enc.buckets@, enc.input_pos as int,
            enc.pending as int, enc.lookahead_end as int, enc.state_flag as int);
        assert(d.take(d.len() as int) =~= d);
    }
    let ghost before = out@;
    let ghost blocks = lemma_output_finish(out@, flags_idx as int, flags, bit_pos, done, cur);
    proof {
        assert(all + tokens_from(enc.model(), d) =~= all);
        lemma_output_basic(out@, flags_idx as int, flags, bit_pos, done, cur);
    }
    // Commit the final flags block, or drop an empty trailing placeholder.
    if bit_pos > 0 {
        out[flags_idx] = flags;
        assert(out@ == before.update(flags_idx as int, flags));
    } else {
        out.pop();
        assert(out@ =~= before.drop_last());
    }
    proof {
        lemma_inflate_encoded(blocks);
    }
    out
}

} // verus!
