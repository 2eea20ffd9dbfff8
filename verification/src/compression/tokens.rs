//! The token view of an MC_LZ stream: what each token does to the output,
//! how tokens are packed into blocks, and the proof that decoding the packed
//! blocks replays the tokens.

use vstd::prelude::*;
use crate::compression::mc_lz::{
    copy_back, flag_bit, inflate_block, inflate_from, reference_value, lemma_inflate_block_pos,
};

verus! {

/// One token of an MC_LZ stream.
pub enum LzToken {
    /// A byte copied to the output as is.
    Literal(u8),
    /// `length` bytes (2 to 4) copied from window slot `source` (0 to 84).
    Reference { length: u8, source: u8 },
    /// A literal `0xAA`, which takes no stream byte.
    Marker,
}

/// Number of flag bits a token takes.
pub open spec fn token_bits(t: LzToken) -> nat {
    match t {
        LzToken::Literal(_) => 1,
        _ => 2,
    }
}

/// Whether the token's fields are in range.
pub open spec fn token_valid(t: LzToken) -> bool {
    match t {
        LzToken::Reference { length, source } => 2 <= length <= 4 && source < 85,
        _ => true,
    }
}

/// The stream byte of a back-reference: `0xAA` is skipped.
pub open spec fn reference_byte(length: u8, source: u8) -> u8 {
    let actual = (length - 2) * 85 + source;
    if actual > 0xA9 { (actual + 1) as u8 } else { actual as u8 }
}

/// The stream bytes a token takes.
pub open spec fn token_bytes(t: LzToken) -> Seq<u8> {
    match t {
        LzToken::Literal(b) => seq![b],
        LzToken::Reference { length, source } => seq![reference_byte(length, source)],
        LzToken::Marker => Seq::empty(),
    }
}

/// The flag bits a token sets when it starts at bit `bp`.
pub open spec fn token_flags(t: LzToken, bp: u32) -> u8 {
    match t {
        LzToken::Literal(_) => 0,
        LzToken::Reference { .. } => 1u8 << bp,
        LzToken::Marker => 3u8 << bp,
    }
}

/// What a token does to the output, with no output limit.
pub open spec fn apply_token(out: Seq<u8>, t: LzToken) -> Seq<u8> {
    match t {
        LzToken::Literal(b) => out.push(b),
        LzToken::Reference { length, source } => copy_back(
            out,
            source as int,
            length as nat,
            out.len() + length as nat,
        ),
        LzToken::Marker => out.push(0xAA),
    }
}

/// Flag bits used by a sequence of tokens.
pub open spec fn tokens_bits(toks: Seq<LzToken>) -> nat
    decreases toks.len(),
{
    if toks.len() == 0 { 0 } else { tokens_bits(toks.drop_last()) + token_bits(toks.last()) }
}

/// The flags byte of a block.
pub open spec fn block_flags(toks: Seq<LzToken>) -> u8
    decreases toks.len(),
{
    if toks.len() == 0 {
        0
    } else {
        block_flags(toks.drop_last()) | token_flags(toks.last(), tokens_bits(toks.drop_last()) as u32)
    }
}

/// The stream bytes of the tokens of a block.
pub open spec fn block_bytes(toks: Seq<LzToken>) -> Seq<u8>
    decreases toks.len(),
{
    if toks.len() == 0 { Seq::empty() } else { block_bytes(toks.drop_last()) + token_bytes(toks.last()) }
}

/// Output of a sequence of tokens.
pub open spec fn apply_tokens(out: Seq<u8>, toks: Seq<LzToken>) -> Seq<u8>
    decreases toks.len(),
{
    if toks.len() == 0 {
        out
    } else {
        apply_token(apply_tokens(out, toks.drop_last()), toks.last())
    }
}

/// A block as it appears in the stream.
pub open spec fn encode_block(toks: Seq<LzToken>) -> Seq<u8> {
    seq![block_flags(toks)] + block_bytes(toks)
}

/// A sequence of blocks as it appears in the stream.
pub open spec fn encode_blocks(blocks: Seq<Seq<LzToken>>) -> Seq<u8>
    decreases blocks.len(),
{
    if blocks.len() == 0 {
        Seq::empty()
    } else {
        encode_blocks(blocks.drop_last()) + encode_block(blocks.last())
    }
}

/// Output of a sequence of blocks.
pub open spec fn apply_blocks(out: Seq<u8>, blocks: Seq<Seq<LzToken>>) -> Seq<u8>
    decreases blocks.len(),
{
    if blocks.len() == 0 {
        out
    } else {
        apply_tokens(apply_blocks(out, blocks.drop_last()), blocks.last())
    }
}

/// A block the decoder reads token by token: every token is in range and
/// starts at bit 0 to 6.
pub open spec fn block_well_formed(toks: Seq<LzToken>) -> bool {
    &&& toks.len() > 0
    &&& tokens_bits(toks.drop_last()) < 7
    &&& forall|i: int| 0 <= i < toks.len() ==> token_valid(#[trigger] toks[i])
}

/// Blocks that a decoder reads in turn: each is well formed, and every block
/// but the last fills its flags byte up to bit 6 at least.
pub open spec fn blocks_well_formed(blocks: Seq<Seq<LzToken>>) -> bool {
    &&& forall|i: int| 0 <= i < blocks.len() ==> block_well_formed(#[trigger] blocks[i])
    &&& forall|i: int| 0 <= i < blocks.len() - 1 ==> tokens_bits(#[trigger] blocks[i]) >= 7
}

pub(crate) proof fn lemma_tokens_bits_take(toks: Seq<LzToken>, i: int)
    requires
        0 <= i < toks.len(),
    ensures
        tokens_bits(toks.take(i + 1)) == tokens_bits(toks.take(i)) + token_bits(toks[i]),
        toks.take(i + 1).drop_last() == toks.take(i),
        toks.take(i + 1).last() == toks[i],
{
    assert(toks.take(i + 1).drop_last() =~= toks.take(i));
}

pub(crate) proof fn lemma_tokens_bits_monotone(toks: Seq<LzToken>, i: int, j: int)
    requires
        0 <= i <= j <= toks.len(),
    ensures
        tokens_bits(toks.take(i)) + (j - i) <= tokens_bits(toks.take(j)),
    decreases j - i,
{
    if i < j {
        lemma_tokens_bits_monotone(toks, i, j - 1);
        lemma_tokens_bits_take(toks, j - 1);
    }
}


proof fn lemma_bv_new_token(f: u8, p: u32, t: LzToken)
    requires
        p <= 6,
        (f as u32) >> p == 0,
    ensures
        ((f | token_flags(t, p)) as u32) >> ((p + token_bits(t)) as u32) == 0,
        flag_bit(f | token_flags(t, p), p) == !(t is Literal),
        !(t is Literal) ==> flag_bit(f | token_flags(t, p), (p + 1) as u32) == (t is Marker),
{
    match t {
        LzToken::Literal(_) => {
            assert(((f | 0u8) as u32) >> (p + 1) == 0) by (bit_vector)
                requires p <= 6, (f as u32) >> p == 0;
            assert(((f | 0u8) >> p) & 1 == 0) by (bit_vector)
                requires p <= 6, (f as u32) >> p == 0;
        },
        LzToken::Reference { .. } => {
            assert(((f | (1u8 << p)) as u32) >> (p + 2) == 0) by (bit_vector)
                requires p <= 6, (f as u32) >> p == 0;
            assert(((f | (1u8 << p)) >> p) & 1 == 1) by (bit_vector)
                requires p <= 6;
            assert(((f | (1u8 << p)) >> (p + 1)) & 1 == 0) by (bit_vector)
                requires p <= 6, (f as u32) >> p == 0;
        },
        LzToken::Marker => {
            assert(((f | (3u8 << p)) as u32) >> (p + 2) == 0) by (bit_vector)
                requires p <= 6, (f as u32) >> p == 0;
            assert(((f | (3u8 << p)) >> p) & 1 == 1) by (bit_vector)
                requires p <= 6;
            assert(((f | (3u8 << p)) >> (p + 1)) & 1 == 1) by (bit_vector)
                requires p <= 6;
        },
    }
}

proof fn lemma_bv_keep(f: u8, p: u32, q: u32, t: LzToken)
    requires
        p <= 6,
        q < p,
    ensures
        flag_bit(f | token_flags(t, p), q) == flag_bit(f, q),
{
    match t {
        LzToken::Literal(_) => {
            assert(((f | 0u8) >> q) & 1 == (f >> q) & 1) by (bit_vector);
        },
        LzToken::Reference { .. } => {
            assert(((f | (1u8 << p)) >> q) & 1 == (f >> q) & 1) by (bit_vector)
                requires p <= 6, q < p;
        },
        LzToken::Marker => {
            assert(((f | (3u8 << p)) >> q) & 1 == (f >> q) & 1) by (bit_vector)
                requires p <= 6, q < p;
        },
    }
}

/// The flags byte of a block has, at the first bit of each token, a one for
/// a back-reference or a marker and a zero for a literal, and at the second
/// bit of a two-bit token a one exactly for a marker; no bit is set past the
/// last token.
pub(crate) proof fn lemma_block_flags(toks: Seq<LzToken>)
    requires
        toks.len() == 0 || tokens_bits(toks.drop_last()) <= 6,
    ensures
        (block_flags(toks) as u32) >> (tokens_bits(toks) as u32) == 0,
        forall|j: int| #![trigger toks[j]] 0 <= j < toks.len() ==> {
            let p = tokens_bits(toks.take(j)) as u32;
            &&& flag_bit(block_flags(toks), p) == !(toks[j] is Literal)
            &&& !(toks[j] is Literal) ==> flag_bit(block_flags(toks), (p + 1) as u32)
                == (toks[j] is Marker)
        },
    decreases toks.len(),
{
    if toks.len() == 0 {
        assert((0u8 as u32) >> 0u32 == 0) by (bit_vector);
    } else {
        let pre = toks.drop_last();
        let t = toks.last();
        let p = tokens_bits(pre) as u32;
        let f = block_flags(pre);
        if pre.len() > 0 {
            lemma_tokens_bits_monotone(pre, pre.len() - 1, pre.len() as int);
            assert(pre.take(pre.len() as int) =~= pre);
            assert(pre.take(pre.len() - 1) =~= pre.drop_last());
        }
        lemma_block_flags(pre);
        lemma_bv_new_token(f, p, t);
        assert(block_flags(toks) == f | token_flags(t, p));
        assert(tokens_bits(toks) as u32 == (p + token_bits(t)) as u32);
        assert forall|j: int| #![trigger toks[j]] 0 <= j < toks.len() implies {
            let pj = tokens_bits(toks.take(j)) as u32;
            &&& flag_bit(block_flags(toks), pj) == !(toks[j] is Literal)
            &&& !(toks[j] is Literal) ==> flag_bit(block_flags(toks), (pj + 1) as u32)
                == (toks[j] is Marker)
        } by {
            if j == toks.len() - 1 {
                assert(toks.take(j) =~= pre);
            } else {
                let pj = tokens_bits(toks.take(j)) as u32;
                assert(toks.take(j) =~= pre.take(j));
                assert(toks[j] == pre[j]);
                lemma_tokens_bits_take(pre, j);
                lemma_tokens_bits_monotone(pre, j + 1, pre.len() as int);
                assert(pre.take(pre.len() as int) =~= pre);
                lemma_bv_keep(f, p, pj, t);
                if !(toks[j] is Literal) {
                    lemma_bv_keep(f, p, (pj + 1) as u32, t);
                }
            }
        }
    }
}


/// Copying never writes past `limit`, and writes `n` bytes below it.
pub(crate) proof fn lemma_copy_back_len(out: Seq<u8>, src: int, n: nat, limit: nat)
    ensures
        copy_back(out, src, n, limit).len() == if out.len() >= limit {
            out.len() as int
        } else if out.len() + n <= limit {
            (out.len() + n) as int
        } else {
            limit as int
        },
        copy_back(out, src, n, limit).subrange(0, out.len() as int) == out,
    decreases n,
{
    if n > 0 && out.len() < limit {
        let w = out.push(crate::compression::mc_lz::window_at(out, src));
        lemma_copy_back_len(w, (src + 1) % 85, (n - 1) as nat, limit);
        assert(w.subrange(0, out.len() as int) =~= out);
        assert(copy_back(out, src, n, limit).subrange(0, out.len() as int)
            =~= copy_back(out, src, n, limit).subrange(0, w.len() as int).subrange(0, out.len() as int));
    } else {
        assert(out.subrange(0, out.len() as int) =~= out);
    }
}

/// A limit that copying does not reach makes no difference.
pub(crate) proof fn lemma_copy_back_unlimited(out: Seq<u8>, src: int, n: nat, limit: nat)
    requires
        out.len() + n <= limit,
    ensures
        copy_back(out, src, n, limit) == copy_back(out, src, n, out.len() + n),
    decreases n,
{
    if n > 0 {
        let w = out.push(crate::compression::mc_lz::window_at(out, src));
        lemma_copy_back_unlimited(w, (src + 1) % 85, (n - 1) as nat, limit);
        lemma_copy_back_unlimited(w, (src + 1) % 85, (n - 1) as nat, out.len() + n);
    }
}

/// Number of output bytes a token writes.
pub open spec fn token_out_len(t: LzToken) -> nat {
    match t {
        LzToken::Reference { length, .. } => length as nat,
        _ => 1,
    }
}

pub(crate) proof fn lemma_apply_token_len(out: Seq<u8>, t: LzToken)
    ensures
        apply_token(out, t).len() == out.len() + token_out_len(t),
        apply_token(out, t).subrange(0, out.len() as int) == out,
{
    match t {
        LzToken::Reference { length, source } => {
            lemma_copy_back_len(out, source as int, length as nat, out.len() + length as nat);
        },
        _ => {
            assert(apply_token(out, t).subrange(0, out.len() as int) =~= out);
        },
    }
}

/// Each valid token writes at least one byte, so a prefix of the tokens
/// writes at least one byte less per token left out.
pub(crate) proof fn lemma_apply_tokens_prefix(out: Seq<u8>, toks: Seq<LzToken>, i: int)
    requires
        0 <= i <= toks.len(),
        forall|k: int| 0 <= k < toks.len() ==> token_valid(#[trigger] toks[k]),
    ensures
        apply_tokens(out, toks).len() >= apply_tokens(out, toks.take(i)).len() + (toks.len() - i),
        apply_tokens(out, toks.take(i)).len() >= out.len(),
        apply_tokens(out, toks).subrange(0, out.len() as int) == out,
    decreases toks.len(),
{
    if toks.len() == 0 {
        assert(toks.take(i) =~= toks);
        assert(out.subrange(0, out.len() as int) =~= out);
    } else {
        let pre = toks.drop_last();
        assert forall|k: int| 0 <= k < pre.len() implies token_valid(#[trigger] pre[k]) by {
            assert(pre[k] == toks[k]);
        }
        assert(token_valid(toks[toks.len() - 1]));
        lemma_apply_token_len(apply_tokens(out, pre), toks.last());
        if i == toks.len() {
            assert(toks.take(i) =~= toks);
            lemma_apply_tokens_prefix(out, pre, pre.len() as int);
            assert(pre.take(pre.len() as int) =~= pre);
        } else {
            lemma_apply_tokens_prefix(out, pre, i);
            assert(pre.take(i) =~= toks.take(i));
        }
        let a = apply_tokens(out, pre);
        assert(apply_tokens(out, toks).subrange(0, out.len() as int)
            =~= apply_tokens(out, toks).subrange(0, a.len() as int).subrange(0, out.len() as int));
    }
}

/// The stream bytes of the first tokens of a block start its stream bytes.
pub(crate) proof fn lemma_block_bytes_prefix(toks: Seq<LzToken>, i: int)
    requires
        0 <= i <= toks.len(),
    ensures
        block_bytes(toks.take(i)).len() <= block_bytes(toks).len(),
        block_bytes(toks).subrange(0, block_bytes(toks.take(i)).len() as int) == block_bytes(toks.take(i)),
    decreases toks.len(),
{
    if i == toks.len() {
        assert(toks.take(i) =~= toks);
        assert(block_bytes(toks).subrange(0, block_bytes(toks).len() as int) =~= block_bytes(toks));
    } else {
        let pre = toks.drop_last();
        lemma_block_bytes_prefix(pre, i);
        assert(pre.take(i) =~= toks.take(i));
        let bp = block_bytes(pre);
        assert(block_bytes(toks).subrange(0, block_bytes(toks.take(i)).len() as int)
            =~= bp.subrange(0, block_bytes(toks.take(i)).len() as int));
    }
}


proof fn lemma_reference_byte(length: u8, source: u8)
    requires
        2 <= length <= 4,
        source < 85,
    ensures
        reference_value(reference_byte(length, source)) % 85 == source,
        reference_value(reference_byte(length, source)) / 85 + 2 == length,
{
    let actual = (length - 2) * 85 + source;
    assert(actual == (length - 2) * 85 + source);
    assert(reference_value(reference_byte(length, source)) == actual);
    assert(actual % 85 == source && actual / 85 == length - 2) by (nonlinear_arith)
        requires
            actual == (length - 2) * 85 + source,
            0 <= source < 85,
            0 <= length - 2;
}

/// Decoding one token of a block.
proof fn lemma_decode_token(o: Seq<u8>, t: LzToken, flags: u8, data: Seq<u8>, pos: int, p: u32, limit: nat)
    requires
        p <= 6,
        o.len() < limit,
        o.len() + token_out_len(t) <= limit,
        token_valid(t),
        flag_bit(flags, p) == !(t is Literal),
        !(t is Literal) ==> flag_bit(flags, (p + 1) as u32) == (t is Marker),
        0 <= pos,
        pos + token_bytes(t).len() <= data.len(),
        data.subrange(pos, pos + token_bytes(t).len()) == token_bytes(t),
    ensures
        inflate_block(o, flags, data, pos, p, limit) == inflate_block(
            apply_token(o, t),
            flags,
            data,
            pos + token_bytes(t).len(),
            (p + token_bits(t)) as u32,
            limit,
        ),
{
    match t {
        LzToken::Literal(x) => {
            assert(data[pos] == data.subrange(pos, pos + 1)[0]);
        },
        LzToken::Reference { length, source } => {
            assert(data[pos] == data.subrange(pos, pos + 1)[0]);
            lemma_reference_byte(length, source);
            lemma_copy_back_unlimited(o, source as int, length as nat, limit);
        },
        LzToken::Marker => {},
    }
}

/// Decoding the stream bytes of a well-formed block, from its `i`-th token
/// on, replays the rest of its tokens.
#[verifier::spinoff_prover]
#[verifier::rlimit(40)]
pub(crate) proof fn lemma_decode_block(out0: Seq<u8>, b: Seq<LzToken>, data: Seq<u8>, pos0: int, limit: nat, i: int)
    requires
        block_well_formed(b),
        0 <= i <= b.len(),
        0 <= pos0,
        pos0 + block_bytes(b).len() <= data.len(),
        data.subrange(pos0, pos0 + block_bytes(b).len()) == block_bytes(b),
        apply_tokens(out0, b).len() <= limit,
        tokens_bits(b) >= 7 || apply_tokens(out0, b).len() == limit,
    ensures
        inflate_block(
            apply_tokens(out0, b.take(i)),
            block_flags(b),
            data,
            pos0 + block_bytes(b.take(i)).len(),
            tokens_bits(b.take(i)) as u32,
            limit,
        ) == (apply_tokens(out0, b), pos0 + block_bytes(b).len(), false),
    decreases b.len() - i,
{
    let last = b.len() - 1;
    lemma_tokens_bits_monotone(b, last, b.len() as int);
    lemma_tokens_bits_take(b, last);
    assert(b.take(last) =~= b.drop_last());
    assert(b.take(b.len() as int) =~= b);
    if i == b.len() {
    } else {
        let o = apply_tokens(out0, b.take(i));
        let t = b[i];
        let p = tokens_bits(b.take(i));
        let pos = pos0 + block_bytes(b.take(i)).len();
        let flags = block_flags(b);
        lemma_tokens_bits_monotone(b, i, last);
        lemma_tokens_bits_take(b, i);
        lemma_block_flags(b);
        assert(flag_bit(flags, p as u32) == !(t is Literal));
        assert(!(t is Literal) ==> flag_bit(flags, (p + 1) as u32) == (t is Marker));
        lemma_apply_tokens_prefix(out0, b, i + 1);
        lemma_apply_token_len(o, t);
        assert(apply_tokens(out0, b.take(i + 1)) == apply_token(o, t));
        assert(o.len() < limit);
        lemma_block_bytes_prefix(b, i + 1);
        assert(block_bytes(b.take(i + 1)) == block_bytes(b.take(i)) + token_bytes(t));
        let next_pos = pos0 + block_bytes(b.take(i + 1)).len();
        assert(token_valid(t));
        assert(data.subrange(pos, pos + token_bytes(t).len()) =~= token_bytes(t)) by {
            assert(data.subrange(pos, pos + token_bytes(t).len()) =~= block_bytes(b).subrange(
                block_bytes(b.take(i)).len() as int,
                block_bytes(b.take(i + 1)).len() as int,
            ));
            assert(block_bytes(b).subrange(0, block_bytes(b.take(i + 1)).len() as int).subrange(
                block_bytes(b.take(i)).len() as int,
                block_bytes(b.take(i + 1)).len() as int,
            ) =~= token_bytes(t));
        }
        lemma_decode_token(o, t, flags, data, pos, p as u32, limit);
        assert(inflate_block(o, flags, data, pos, p as u32, limit) == inflate_block(
            apply_tokens(out0, b.take(i + 1)),
            flags,
            data,
            next_pos,
            tokens_bits(b.take(i + 1)) as u32,
            limit,
        ));
        lemma_decode_block(out0, b, data, pos0, limit, i + 1);
    }
}


pub(crate) proof fn lemma_encode_blocks_front(bs: Seq<Seq<LzToken>>)
    requires
        bs.len() > 0,
    ensures
        encode_blocks(bs) == encode_block(bs[0]) + encode_blocks(bs.drop_first()),
    decreases bs.len(),
{
    if bs.len() > 1 {
        lemma_encode_blocks_front(bs.drop_last());
        assert(bs.drop_last().drop_first() =~= bs.drop_first().drop_last());
        assert(bs.drop_last()[0] == bs[0]);
        assert(bs.drop_first().last() == bs.last());
    } else {
        assert(bs.drop_first() =~= Seq::<Seq<LzToken>>::empty());
        assert(bs.drop_last() =~= Seq::<Seq<LzToken>>::empty());
    }
}

pub(crate) proof fn lemma_apply_blocks_front(out: Seq<u8>, bs: Seq<Seq<LzToken>>)
    requires
        bs.len() > 0,
    ensures
        apply_blocks(out, bs) == apply_blocks(apply_tokens(out, bs[0]), bs.drop_first()),
    decreases bs.len(),
{
    assert(apply_blocks(out, bs) == apply_tokens(apply_blocks(out, bs.drop_last()), bs.last()));
    if bs.len() > 1 {
        lemma_apply_blocks_front(out, bs.drop_last());
        assert(bs.drop_last().drop_first() =~= bs.drop_first().drop_last());
        assert(bs.drop_last()[0] == bs[0]);
        assert(bs.drop_first().last() == bs.last());
        let o1 = apply_tokens(out, bs[0]);
        assert(apply_blocks(o1, bs.drop_first()) == apply_tokens(
            apply_blocks(o1, bs.drop_first().drop_last()),
            bs.drop_first().last(),
        ));
    } else {
        assert(bs.drop_first() =~= Seq::<Seq<LzToken>>::empty());
        assert(bs.drop_last() =~= Seq::<Seq<LzToken>>::empty());
        assert(apply_blocks(out, bs.drop_last()) == out);
        assert(bs.last() == bs[0]);
        assert(apply_blocks(apply_tokens(out, bs[0]), bs.drop_first()) == apply_tokens(out, bs[0]));
    }
}

pub(crate) proof fn lemma_apply_blocks_grows(out: Seq<u8>, bs: Seq<Seq<LzToken>>)
    requires
        forall|i: int| 0 <= i < bs.len() ==> block_well_formed(#[trigger] bs[i]),
    ensures
        apply_blocks(out, bs).len() >= out.len(),
    decreases bs.len(),
{
    if bs.len() > 0 {
        let pre = bs.drop_last();
        assert forall|i: int| 0 <= i < pre.len() implies block_well_formed(#[trigger] pre[i]) by {
            assert(pre[i] == bs[i]);
        }
        lemma_apply_blocks_grows(out, pre);
        assert(block_well_formed(bs[bs.len() - 1]));
        lemma_apply_tokens_prefix(apply_blocks(out, pre), bs.last(), 0);
        assert(bs.last().take(0) =~= Seq::<LzToken>::empty());
    }
}

/// Decoding a stream made of well-formed blocks, with the output limit set
/// to the length their tokens produce, replays the tokens.
pub(crate) proof fn lemma_decode_blocks(out: Seq<u8>, bs: Seq<Seq<LzToken>>, data: Seq<u8>, pos: int, limit: nat)
    requires
        blocks_well_formed(bs),
        0 <= pos <= data.len(),
        data.subrange(pos, data.len() as int) == encode_blocks(bs),
        apply_blocks(out, bs).len() == limit,
    ensures
        inflate_from(out, data, pos, limit) == apply_blocks(out, bs),
    decreases bs.len(),
{
    if bs.len() == 0 {
        assert(data.subrange(pos, data.len() as int).len() == 0);
    } else {
        let b = bs[0];
        let rest = bs.drop_first();
        assert(block_well_formed(b));
        lemma_encode_blocks_front(bs);
        lemma_apply_blocks_front(out, bs);
        let o1 = apply_tokens(out, b);
        assert forall|i: int| 0 <= i < rest.len() implies block_well_formed(#[trigger] rest[i]) by {
            assert(rest[i] == bs[i + 1]);
        }
        assert forall|i: int| 0 <= i < rest.len() - 1 implies tokens_bits(#[trigger] rest[i]) >= 7 by {
            assert(rest[i] == bs[i + 1]);
        }
        lemma_apply_blocks_grows(o1, rest);
        lemma_apply_tokens_prefix(out, b, 0);
        assert(b.take(0) =~= Seq::<LzToken>::empty());
        assert(out.len() < limit);
        let eb = encode_block(b);
        assert(encode_blocks(bs).len() >= 1);
        assert(data[pos] == block_flags(b)) by {
            assert(data[pos] == data.subrange(pos, data.len() as int)[0]);
        }
        let bb = block_bytes(b);
        assert(data.subrange(pos + 1, pos + 1 + bb.len()) =~= bb) by {
            assert(data.subrange(pos + 1, pos + 1 + bb.len()) =~= data.subrange(pos, data.len() as int).subrange(1, 1 + bb.len() as int));
        }
        if rest.len() == 0 {
            assert(apply_blocks(o1, rest) == o1);
        } else {
            assert(tokens_bits(bs[0]) >= 7);
        }
        lemma_decode_block(out, b, data, pos + 1, limit, 0);
        let next = pos + 1 + bb.len();
        assert(data.subrange(next, data.len() as int) =~= encode_blocks(rest)) by {
            assert(data.subrange(next, data.len() as int) =~= data.subrange(pos, data.len() as int).subrange(eb.len() as int, data.len() - pos));
        }
        lemma_decode_blocks(o1, rest, data, next, limit);
    }
}

/// A stream made of well-formed blocks decompresses, with the length its
/// tokens produce as the limit, to what its tokens produce.
pub(crate) proof fn lemma_inflate_encoded(bs: Seq<Seq<LzToken>>)
    requires
        blocks_well_formed(bs),
    ensures
        crate::compression::mc_lz::spec_inflate(
            encode_blocks(bs),
            apply_blocks(Seq::empty(), bs).len(),
        ) == apply_blocks(Seq::empty(), bs),
{
    let data = encode_blocks(bs);
    assert(data.subrange(0, data.len() as int) =~= data);
    lemma_decode_blocks(Seq::empty(), bs, data, 0, apply_blocks(Seq::empty(), bs).len());
}

} // verus!
