//! Content-identifier codec.
//!
//! A CID is the byte string `0x01 0x55 0x12 0x20` followed by a 32-byte
//! SHA-256 digest: CIDv1 with the raw codec and a sha2-256 multihash.  Its
//! displayed form is the multibase prefix `b` followed by the lowercase
//! base32 (RFC 4648, no padding) encoding of those bytes.

use vstd::prelude::*;

use crate::VaultError;

verus! {

/// CIDv1 version marker.
pub const CID_VERSION: u8 = 0x01;
/// Multicodec for raw binary content.
pub const CURR_CODEC: u8 = 0x55;
/// Multihash code for SHA2-256.
pub const CURR_MULTIHASH_FORMAT: u8 = 0x12;
/// SHA-256 digest length in bytes.
pub const SHA256_LEN: usize = 32;
/// Multibase prefix `b`, announcing lowercase base32.
pub const CURR_MULTIBASE_PREFIX: u8 = 0x62;

// ---------------------------------------------------------------------------
// CID bytes: multihash + CIDv1 wrapping
// ---------------------------------------------------------------------------

/// The CID bytes for a given 32-byte digest.
pub open spec fn spec_wrap(digest: Seq<u8>) -> Seq<u8> {
    seq![CID_VERSION, CURR_CODEC, CURR_MULTIHASH_FORMAT, 0x20u8] + digest
}

/// Whether `cid` has the shape produced by `wrap_digest`.
pub open spec fn is_wrapped_cid(cid: Seq<u8>) -> bool {
    cid.len() == 36 && cid == spec_wrap(cid.skip(4))
}

/// Wrap a SHA-256 digest as CID bytes: the CIDv1 header for raw content
/// followed by the sha2-256 multihash header and the digest itself.
pub fn wrap_digest(digest: &Vec<u8>) -> (r: Result<Vec<u8>, VaultError>)
    ensures
        digest@.len() == 32 <==> r is Ok,
        r matches Ok(cid) ==> cid@ == spec_wrap(digest@) && is_wrapped_cid(cid@),
{
    if digest.len() != 32 {
        return Err(VaultError::BadInput);
    }
    let mut cid: Vec<u8> = Vec::new();
    cid.push(CID_VERSION);
    cid.push(CURR_CODEC);
    cid.push(CURR_MULTIHASH_FORMAT);
    cid.push(0x20);
    let mut i: usize = 0;
    while i < digest.len()
        invariant
            i <= digest@.len(),
            digest@.len() == 32,
            cid@ == spec_wrap(digest@).take(4 + i),
        decreases digest@.len() - i,
    {
        cid.push(digest[i]);
        i = i + 1;
        assert(cid@ =~= spec_wrap(digest@).take(4 + i));
    }
    assert(cid@ =~= spec_wrap(digest@));
    assert(spec_wrap(digest@).skip(4) =~= digest@);
    Ok(cid)
}

// ---------------------------------------------------------------------------
// Base32 alphabet
// ---------------------------------------------------------------------------

/// ASCII code of the base32 symbol for the 5-bit value `v`:
/// `a`..`z` for 0..25 and `2`..`7` for 26..31.
pub open spec fn b32_byte(v: u8) -> u8
    recommends
        v < 32,
{
    if v < 26 {
        (v + 0x61) as u8
    } else {
        (v + 24) as u8
    }
}

/// The 5-bit value of a base32 symbol byte, if it is one.
pub open spec fn b32_val(b: u8) -> Option<u8> {
    if 0x61 <= b && b <= 0x7a {
        Some((b - 0x61) as u8)
    } else if 0x32 <= b && b <= 0x37 {
        Some((b - 24) as u8)
    } else {
        None
    }
}

proof fn lemma_alphabet_roundtrip(v: u8)
    requires
        v < 32,
    ensures
        b32_byte(v) < 128,
        b32_val(b32_byte(v)) == Some(v),
{
}

// ---------------------------------------------------------------------------
// Base32 symbols: 5 bytes <-> 8 five-bit values
// ---------------------------------------------------------------------------

// The eight 5-bit symbols of a full 5-byte group.  Groups shorter than 5
// bytes behave as if padded with zero bytes and keep only the leading
// symbols that carry input bits.
pub open spec fn e0(b0: u8) -> u8 { b0 >> 3 }

pub open spec fn e1(b0: u8, b1: u8) -> u8 { ((b0 & 7) << 2) | (b1 >> 6) }

pub open spec fn e2(b1: u8) -> u8 { (b1 >> 1) & 31 }

pub open spec fn e3(b1: u8, b2: u8) -> u8 { ((b1 & 1) << 4) | (b2 >> 4) }

pub open spec fn e4(b2: u8, b3: u8) -> u8 { ((b2 & 15) << 1) | (b3 >> 7) }

pub open spec fn e5(b3: u8) -> u8 { (b3 >> 2) & 31 }

pub open spec fn e6(b3: u8, b4: u8) -> u8 { ((b3 & 3) << 3) | (b4 >> 5) }

pub open spec fn e7(b4: u8) -> u8 { b4 & 31 }

// The five bytes reassembled from eight 5-bit symbols.
pub open spec fn d0(v0: u8, v1: u8) -> u8 { (v0 << 3) | (v1 >> 2) }

pub open spec fn d1(v1: u8, v2: u8, v3: u8) -> u8 { ((v1 & 3) << 6) | (v2 << 1) | (v3 >> 4) }

pub open spec fn d2(v3: u8, v4: u8) -> u8 { ((v3 & 15) << 4) | (v4 >> 1) }

pub open spec fn d3(v4: u8, v5: u8, v6: u8) -> u8 { ((v4 & 1) << 7) | (v5 << 2) | (v6 >> 3) }

pub open spec fn d4(v6: u8, v7: u8) -> u8 { ((v6 & 7) << 5) | v7 }

/// Symbols of one group of 1 to 5 bytes (the final, possibly short, group).
pub open spec fn enc_group(bs: Seq<u8>) -> Seq<u8>
    recommends
        1 <= bs.len() <= 5,
{
    let b0 = bs[0];
    let b1 = if bs.len() > 1 { bs[1] } else { 0u8 };
    let b2 = if bs.len() > 2 { bs[2] } else { 0u8 };
    let b3 = if bs.len() > 3 { bs[3] } else { 0u8 };
    let b4 = if bs.len() > 4 { bs[4] } else { 0u8 };
    if bs.len() <= 1 {
        seq![e0(b0), e1(b0, b1)]
    } else if bs.len() == 2 {
        seq![e0(b0), e1(b0, b1), e2(b1), e3(b1, b2)]
    } else if bs.len() == 3 {
        seq![e0(b0), e1(b0, b1), e2(b1), e3(b1, b2), e4(b2, b3)]
    } else if bs.len() == 4 {
        seq![e0(b0), e1(b0, b1), e2(b1), e3(b1, b2), e4(b2, b3), e5(b3), e6(b3, b4)]
    } else {
        seq![e0(b0), e1(b0, b1), e2(b1), e3(b1, b2), e4(b2, b3), e5(b3), e6(b3, b4), e7(b4)]
    }
}

/// Bytes of one group of 2, 4, 5, 7 or 8 symbols.
pub open spec fn dec_group(vs: Seq<u8>) -> Seq<u8>
    recommends
        vs.len() == 2 || vs.len() == 4 || vs.len() == 5 || vs.len() == 7 || vs.len() == 8,
{
    let v0 = vs[0];
    let v1 = if vs.len() > 1 { vs[1] } else { 0u8 };
    let v2 = if vs.len() > 2 { vs[2] } else { 0u8 };
    let v3 = if vs.len() > 3 { vs[3] } else { 0u8 };
    let v4 = if vs.len() > 4 { vs[4] } else { 0u8 };
    let v5 = if vs.len() > 5 { vs[5] } else { 0u8 };
    let v6 = if vs.len() > 6 { vs[6] } else { 0u8 };
    let v7 = if vs.len() > 7 { vs[7] } else { 0u8 };
    if vs.len() <= 2 {
        seq![d0(v0, v1)]
    } else if vs.len() == 4 {
        seq![d0(v0, v1), d1(v1, v2, v3)]
    } else if vs.len() == 5 {
        seq![d0(v0, v1), d1(v1, v2, v3), d2(v3, v4)]
    } else if vs.len() == 7 {
        seq![d0(v0, v1), d1(v1, v2, v3), d2(v3, v4), d3(v4, v5, v6)]
    } else {
        seq![d0(v0, v1), d1(v1, v2, v3), d2(v3, v4), d3(v4, v5, v6), d4(v6, v7)]
    }
}

/// All base32 symbols of a byte string, front group first.
pub open spec fn spec_symbols(bs: Seq<u8>) -> Seq<u8>
    decreases bs.len(),
{
    if bs.len() == 0 {
        Seq::empty()
    } else if bs.len() >= 5 {
        enc_group(bs.take(5)) + spec_symbols(bs.skip(5))
    } else {
        enc_group(bs)
    }
}

/// The bytes encoded by a base32 symbol string, if its length is well formed.
pub open spec fn spec_unsymbols(vs: Seq<u8>) -> Option<Seq<u8>>
    decreases vs.len(),
{
    if vs.len() == 0 {
        Some(Seq::empty())
    } else if vs.len() >= 8 {
        match spec_unsymbols(vs.skip(8)) {
            Some(rest) => Some(dec_group(vs.take(8)) + rest),
            None => None,
        }
    } else if vs.len() == 2 || vs.len() == 4 || vs.len() == 5 || vs.len() == 7 {
        Some(dec_group(vs))
    } else {
        None
    }
}

proof fn lemma_enc_bounds(b0: u8, b1: u8, b2: u8, b3: u8, b4: u8)
    ensures
        e0(b0) < 32,
        e1(b0, b1) < 32,
        e2(b1) < 32,
        e3(b1, b2) < 32,
        e4(b2, b3) < 32,
        e5(b3) < 32,
        e6(b3, b4) < 32,
        e7(b4) < 32,
{
    assert((b0 >> 3) < 32 && (((b0 & 7) << 2) | (b1 >> 6)) < 32 && ((b1 >> 1) & 31) < 32
        && (((b1 & 1) << 4) | (b2 >> 4)) < 32 && (((b2 & 15) << 1) | (b3 >> 7)) < 32
        && ((b3 >> 2) & 31) < 32 && (((b3 & 3) << 3) | (b4 >> 5)) < 32 && (b4 & 31) < 32)
        by (bit_vector);
}

proof fn lemma_group_roundtrip(b0: u8, b1: u8, b2: u8, b3: u8, b4: u8)
    ensures
        d0(e0(b0), e1(b0, b1)) == b0,
        d1(e1(b0, b1), e2(b1), e3(b1, b2)) == b1,
        d2(e3(b1, b2), e4(b2, b3)) == b2,
        d3(e4(b2, b3), e5(b3), e6(b3, b4)) == b3,
        d4(e6(b3, b4), e7(b4)) == b4,
{
    assert((((b0 >> 3) << 3) | ((((b0 & 7) << 2) | (b1 >> 6)) >> 2)) == b0) by (bit_vector);
    assert(((((((b0 & 7) << 2) | (b1 >> 6)) & 3) << 6) | (((b1 >> 1) & 31) << 1) | ((((b1 & 1)
        << 4) | (b2 >> 4)) >> 4)) == b1) by (bit_vector);
    assert((((((b1 & 1) << 4) | (b2 >> 4)) & 15) << 4 | ((((b2 & 15) << 1) | (b3 >> 7)) >> 1))
        == b2) by (bit_vector);
    assert((((((b2 & 15) << 1) | (b3 >> 7)) & 1) << 7 | (((b3 >> 2) & 31) << 2) | ((((b3 & 3)
        << 3) | (b4 >> 5)) >> 3)) == b3) by (bit_vector);
    assert((((((b3 & 3) << 3) | (b4 >> 5)) & 7) << 5 | (b4 & 31)) == b4) by (bit_vector);
}

/// A short group decodes back to its bytes.
proof fn lemma_tail_roundtrip(bs: Seq<u8>)
    requires
        1 <= bs.len() <= 5,
    ensures
        dec_group(enc_group(bs)) =~= bs,
{
    let b0 = bs[0];
    let b1 = if bs.len() > 1 { bs[1] } else { 0u8 };
    let b2 = if bs.len() > 2 { bs[2] } else { 0u8 };
    let b3 = if bs.len() > 3 { bs[3] } else { 0u8 };
    let b4 = if bs.len() > 4 { bs[4] } else { 0u8 };
    lemma_group_roundtrip(b0, b1, b2, b3, b4);
}

/// Every symbol produced by `spec_symbols` is a 5-bit value.
proof fn lemma_symbols_bounded(bs: Seq<u8>)
    ensures
        forall|i: int| 0 <= i < spec_symbols(bs).len() ==> spec_symbols(bs)[i] < 32,
    decreases bs.len(),
{
    if bs.len() == 0 {
    } else if bs.len() >= 5 {
        let head = bs.take(5);
        lemma_enc_bounds(head[0], head[1], head[2], head[3], head[4]);
        lemma_symbols_bounded(bs.skip(5));
        assert forall|i: int| 0 <= i < spec_symbols(bs).len() implies spec_symbols(bs)[i]
            < 32 by {
            if i >= 8 {
                assert(spec_symbols(bs)[i] == spec_symbols(bs.skip(5))[i - 8]);
            }
        }
    } else {
        let b0 = bs[0];
        let b1 = if bs.len() > 1 { bs[1] } else { 0u8 };
        let b2 = if bs.len() > 2 { bs[2] } else { 0u8 };
        let b3 = if bs.len() > 3 { bs[3] } else { 0u8 };
        lemma_enc_bounds(b0, b1, b2, b3, 0u8);
    }
}

/// The symbol count of a short final group is a well-formed tail length.
proof fn lemma_symbols_len(bs: Seq<u8>)
    ensures
        bs.len() == 0 ==> spec_symbols(bs).len() == 0,
        bs.len() == 1 ==> spec_symbols(bs).len() == 2,
        bs.len() == 2 ==> spec_symbols(bs).len() == 4,
        bs.len() == 3 ==> spec_symbols(bs).len() == 5,
        bs.len() == 4 ==> spec_symbols(bs).len() == 7,
        bs.len() >= 5 ==> spec_symbols(bs).len() == 8 + spec_symbols(bs.skip(5)).len(),
{
}

/// How many symbols a short tail of `r` bytes contributes.
pub open spec fn tail_syms(r: int) -> int {
    if r == 0 {
        0
    } else if r == 1 {
        2
    } else if r == 2 {
        4
    } else if r == 3 {
        5
    } else {
        7
    }
}

/// The symbol count of any byte string.
pub proof fn lemma_symbols_len_total(bs: Seq<u8>)
    ensures
        spec_symbols(bs).len() == 8 * (bs.len() as int / 5) + tail_syms(bs.len() as int % 5),
    decreases bs.len(),
{
    if bs.len() >= 5 {
        lemma_symbols_len_total(bs.skip(5));
        assert(bs.skip(5).len() == bs.len() - 5);
        assert((bs.len() as int - 5) / 5 == bs.len() as int / 5 - 1) by (nonlinear_arith)
            requires
                bs.len() >= 5,
        ;
        assert((bs.len() as int - 5) % 5 == bs.len() as int % 5) by (nonlinear_arith)
            requires
                bs.len() >= 5,
        ;
    }
}

/// The character count of the displayed form.
pub proof fn lemma_encoded_len(bytes: Seq<u8>)
    ensures
        spec_encoded(bytes).len() == 1 + 8 * (bytes.len() as int / 5) + tail_syms(
            bytes.len() as int % 5,
        ),
{
    lemma_symbols_len_total(bytes);
}

/// Decoding inverts encoding at the symbol level.
pub proof fn lemma_unsymbols_symbols(bs: Seq<u8>)
    ensures
        spec_unsymbols(spec_symbols(bs)) == Some(bs),
    decreases bs.len(),
{
    if bs.len() == 0 {
        assert(spec_symbols(bs) =~= Seq::<u8>::empty());
        assert(bs =~= Seq::<u8>::empty());
    } else if bs.len() >= 5 {
        let head = bs.take(5);
        let g = enc_group(head);
        let r = spec_symbols(bs.skip(5));
        lemma_symbols_len(bs.skip(5));
        assert(g.len() == 8);
        assert((g + r).take(8) =~= g);
        assert((g + r).skip(8) =~= r);
        lemma_unsymbols_symbols(bs.skip(5));
        lemma_tail_roundtrip(head);
        assert(dec_group(g) + bs.skip(5) =~= bs);
        if r.len() == 0 {
            assert(g + r =~= g);
            assert(spec_unsymbols(g + r) == Some(bs));
        } else {
            assert((g + r).len() >= 8 + 2);
            assert(spec_unsymbols(g + r) == Some(bs));
        }
    } else {
        lemma_tail_roundtrip(bs);
        lemma_symbols_len(bs);
    }
}

// ---------------------------------------------------------------------------
// Executable symbol transforms
// ---------------------------------------------------------------------------

/// Unfolding of `spec_unsymbols` for one leading full group.
proof fn lemma_unsymbols_step(vs: Seq<u8>, i: int)
    requires
        0 <= i,
        i + 8 <= vs.len(),
    ensures
        spec_unsymbols(vs.skip(i)) == match spec_unsymbols(vs.skip(i + 8)) {
            Some(rest) => Some(dec_group(vs.subrange(i, i + 8)) + rest),
            None => None::<Seq<u8>>,
        },
{
    assert(vs.skip(i).take(8) =~= vs.subrange(i, i + 8));
    assert(vs.skip(i).skip(8) =~= vs.skip(i + 8));
}

/// Base32 symbols of `bytes`, by groups of five bytes.
fn symbols_of(bytes: &Vec<u8>) -> (r: Vec<u8>)
    ensures
        r@ == spec_symbols(bytes@),
{
    let n = bytes.len();
    let mut out: Vec<u8> = Vec::new();
    let mut i: usize = 0;
    proof {
        assert(bytes@.skip(0) =~= bytes@);
        assert(out@ + spec_symbols(bytes@) =~= spec_symbols(bytes@));
    }
    while n - i >= 5
        invariant
            i <= n,
            n == bytes@.len(),
            out@ + spec_symbols(bytes@.skip(i as int)) == spec_symbols(bytes@),
        decreases n - i,
    {
        let b0 = bytes[i];
        let b1 = bytes[i + 1];
        let b2 = bytes[i + 2];
        let b3 = bytes[i + 3];
        let b4 = bytes[i + 4];
        let ghost prev = out@;
        out.push(b0 >> 3);
        out.push(((b0 & 7) << 2) | (b1 >> 6));
        out.push((b1 >> 1) & 31);
        out.push(((b1 & 1) << 4) | (b2 >> 4));
        out.push(((b2 & 15) << 1) | (b3 >> 7));
        out.push((b3 >> 2) & 31);
        out.push(((b3 & 3) << 3) | (b4 >> 5));
        out.push(b4 & 31);
        proof {
            let rest = bytes@.skip(i as int);
            assert(rest.take(5) =~= bytes@.subrange(i as int, i + 5));
            assert(rest.skip(5) =~= bytes@.skip(i + 5));
            assert(out@ =~= prev + enc_group(rest.take(5)));
            assert(prev + spec_symbols(rest) == spec_symbols(bytes@));
            assert(spec_symbols(rest) == enc_group(rest.take(5)) + spec_symbols(rest.skip(5)));
            assert(prev + (enc_group(rest.take(5)) + spec_symbols(rest.skip(5)))
                =~= (prev + enc_group(rest.take(5))) + spec_symbols(rest.skip(5)));
        }
        i = i + 5;
    }
    let rem = n - i;
    let ghost rest = bytes@.skip(i as int);
    proof {
        assert(rest.len() == rem);
    }
    if rem > 0 {
        let b0 = bytes[i];
        let b1 = if rem > 1 { bytes[i + 1] } else { 0 };
        let b2 = if rem > 2 { bytes[i + 2] } else { 0 };
        let b3 = if rem > 3 { bytes[i + 3] } else { 0 };
        let b4: u8 = 0;
        let ghost prev = out@;
        out.push(b0 >> 3);
        out.push(((b0 & 7) << 2) | (b1 >> 6));
        if rem > 1 {
            out.push((b1 >> 1) & 31);
            out.push(((b1 & 1) << 4) | (b2 >> 4));
        }
        if rem > 2 {
            out.push(((b2 & 15) << 1) | (b3 >> 7));
        }
        if rem > 3 {
            out.push((b3 >> 2) & 31);
            out.push(((b3 & 3) << 3) | (b4 >> 5));
        }
        proof {
            assert(rest[0] == bytes@[i as int]);
            if rem > 1 {
                assert(rest[1] == bytes@[i + 1]);
            }
            if rem > 2 {
                assert(rest[2] == bytes@[i + 2]);
            }
            if rem > 3 {
                assert(rest[3] == bytes@[i + 3]);
            }
            let g = enc_group(rest);
            assert(out@.len() == prev.len() + g.len());
            assert forall|k: int| 0 <= k < out@.len() implies out@[k] == (prev + g)[k] by {
                if k < prev.len() {
                    assert(out@[k] == prev[k]);
                } else {
                    assert((prev + g)[k] == g[k - prev.len()]);
                }
            }
            assert(out@ =~= prev + g);
        }
    }
    proof {
        if rem == 0 {
            assert(rest =~= Seq::<u8>::empty());
            assert(out@ =~= out@ + spec_symbols(rest));
        }
    }
    out
}

/// Bytes of a base32 symbol string; `None` when its length is malformed.
fn unsymbols_of(vals: &Vec<u8>) -> (r: Option<Vec<u8>>)
    ensures
        r matches Some(bs) ==> spec_unsymbols(vals@) == Some(bs@),
        r is None ==> spec_unsymbols(vals@) is None,
{
    let n = vals.len();
    let mut out: Vec<u8> = Vec::new();
    let mut i: usize = 0;
    proof {
        assert(vals@.skip(0) =~= vals@);
        if spec_unsymbols(vals@) is Some {
            let whole = spec_unsymbols(vals@).unwrap();
            assert(out@ + whole =~= whole);
        }
    }
    while n - i >= 8
        invariant
            i <= n,
            n == vals@.len(),
            spec_unsymbols(vals@) == match spec_unsymbols(vals@.skip(i as int)) {
                Some(rest) => Some(out@ + rest),
                None => None::<Seq<u8>>,
            },
        decreases n - i,
    {
        let v0 = vals[i];
        let v1 = vals[i + 1];
        let v2 = vals[i + 2];
        let v3 = vals[i + 3];
        let v4 = vals[i + 4];
        let v5 = vals[i + 5];
        let v6 = vals[i + 6];
        let v7 = vals[i + 7];
        let ghost prev = out@;
        out.push((v0 << 3) | (v1 >> 2));
        out.push(((v1 & 3) << 6) | (v2 << 1) | (v3 >> 4));
        out.push(((v3 & 15) << 4) | (v4 >> 1));
        out.push(((v4 & 1) << 7) | (v5 << 2) | (v6 >> 3));
        out.push(((v6 & 7) << 5) | v7);
        proof {
            lemma_unsymbols_step(vals@, i as int);
            assert(out@ =~= prev + dec_group(vals@.subrange(i as int, i + 8)));
            if spec_unsymbols(vals@.skip(i + 8)) is Some {
                let rest = spec_unsymbols(vals@.skip(i + 8)).unwrap();
                assert(prev + (dec_group(vals@.subrange(i as int, i + 8)) + rest)
                    =~= out@ + rest);
            }
        }
        i = i + 8;
    }
    let rem = n - i;
    let ghost rest = vals@.skip(i as int);
    proof {
        assert(rest.len() == rem);
    }
    if rem == 0 {
        proof {
            assert(rest =~= Seq::<u8>::empty());
            assert(spec_unsymbols(vals@) == Some(out@));
        }
        return Some(out);
    }
    if !(rem == 2 || rem == 4 || rem == 5 || rem == 7) {
        return None;
    }
    let v0 = vals[i];
    let v1 = vals[i + 1];
    let v2 = if rem > 2 { vals[i + 2] } else { 0 };
    let v3 = if rem > 3 { vals[i + 3] } else { 0 };
    let v4 = if rem > 4 { vals[i + 4] } else { 0 };
    let v5 = if rem > 5 { vals[i + 5] } else { 0 };
    let v6 = if rem > 6 { vals[i + 6] } else { 0 };
    let ghost prev = out@;
    out.push((v0 << 3) | (v1 >> 2));
    if rem > 2 {
        out.push(((v1 & 3) << 6) | (v2 << 1) | (v3 >> 4));
    }
    if rem > 4 {
        out.push(((v3 & 15) << 4) | (v4 >> 1));
    }
    if rem > 6 {
        out.push(((v4 & 1) << 7) | (v5 << 2) | (v6 >> 3));
    }
    proof {
        assert(out@ =~= prev + dec_group(rest));
    }
    Some(out)
}

// ---------------------------------------------------------------------------
// Textual form
// ---------------------------------------------------------------------------

/// ASCII bytes of the displayed form of `bytes`: the `b` multibase prefix
/// followed by one alphabet byte per symbol.
pub open spec fn spec_encoded_ascii(bytes: Seq<u8>) -> Seq<u8> {
    seq![CURR_MULTIBASE_PREFIX] + spec_symbols(bytes).map_values(|v: u8| b32_byte(v))
}

/// The displayed form of `bytes` as characters.
pub open spec fn spec_encoded(bytes: Seq<u8>) -> Seq<char> {
    spec_encoded_ascii(bytes).map_values(|b: u8| b as char)
}

/// The code points of a character string, one byte per character.
pub open spec fn chars_to_ascii(text: Seq<char>) -> Seq<u8> {
    text.map_values(|c: char| c as u8)
}

/// Symbol values of a sequence of alphabet bytes, if every byte is in the
/// alphabet.
pub open spec fn spec_vals(s: Seq<u8>) -> Option<Seq<u8>> {
    if forall|i: int| 0 <= i < s.len() ==> #[trigger] b32_val(s[i]) is Some {
        Some(Seq::new(s.len(), |i: int| b32_val(s[i]).unwrap()))
    } else {
        None
    }
}

/// What `decode` recovers from a piece of text: the multibase prefix and
/// the bytes, or nothing when the text is malformed.
pub open spec fn spec_decode(text: Seq<char>) -> Option<(u8, Seq<u8>)> {
    if text.len() == 0 || !vstd::utf8::is_ascii_chars(text) {
        None
    } else {
        let ascii = chars_to_ascii(text);
        if ascii[0] != CURR_MULTIBASE_PREFIX {
            None
        } else {
            match spec_vals(ascii.skip(1)) {
                Some(vals) => match spec_unsymbols(vals) {
                    Some(bs) => Some((CURR_MULTIBASE_PREFIX, bs)),
                    None => None,
                },
                None => None,
            }
        }
    }
}

/// Encode bytes for display: multibase prefix `b`, then lowercase base32.
pub fn encode(bytes: &Vec<u8>) -> (r: String)
    ensures
        r@ == spec_encoded(bytes@),
        vstd::utf8::is_ascii_chars(r@),
{
    let symbols = symbols_of(bytes);
    proof {
        lemma_symbols_bounded(bytes@);
    }
    let mut ascii: Vec<u8> = Vec::new();
    ascii.push(CURR_MULTIBASE_PREFIX);
    let mut i: usize = 0;
    while i < symbols.len()
        invariant
            i <= symbols@.len(),
            symbols@ == spec_symbols(bytes@),
            forall|j: int| 0 <= j < symbols@.len() ==> symbols@[j] < 32,
            ascii@ == spec_encoded_ascii(bytes@).take(1 + i),
        decreases symbols@.len() - i,
    {
        let v = symbols[i];
        let b = if v < 26 {
            v + 0x61
        } else {
            v + 24
        };
        ascii.push(b);
        i = i + 1;
        assert(ascii@ =~= spec_encoded_ascii(bytes@).take(1 + i));
    }
    assert(ascii@ =~= spec_encoded_ascii(bytes@));
    proof {
        assert forall|j: int| 0 <= j < ascii@.len() implies ascii@[j] < 128 by {
            if j > 0 {
                lemma_alphabet_roundtrip(symbols@[j - 1]);
            }
        }
    }
    crate::trusted::ascii_to_string(ascii)
}

/// Decode a displayed CID: the multibase prefix and the bytes it encodes.
/// Only the lowercase base32 encoding that `encode` produces is accepted;
/// anything else is `BadInput`.
pub fn decode(s: &str) -> (r: Result<(u8, Vec<u8>), VaultError>)
    ensures
        r matches Ok(p) ==> spec_decode(s@) == Some((p.0, p.1@)),
        r is Err ==> spec_decode(s@) is None && (r matches Err(e) && e == VaultError::BadInput),
{
    if !s.is_ascii() {
        return Err(VaultError::BadInput);
    }
    let bytes = s.as_bytes_vec();
    proof {
        broadcast use vstd::string::is_ascii_spec_bytes;

        assert(bytes@ =~= chars_to_ascii(s@));
        assert(chars_to_ascii(s@).len() == s@.len());
    }
    if bytes.len() == 0 {
        return Err(VaultError::BadInput);
    }
    if bytes[0] != CURR_MULTIBASE_PREFIX {
        return Err(VaultError::BadInput);
    }
    let ghost ascii = chars_to_ascii(s@);
    let mut vals: Vec<u8> = Vec::new();
    let mut i: usize = 1;
    while i < bytes.len()
        invariant
            1 <= i <= bytes@.len(),
            bytes@ == ascii,
            ascii == chars_to_ascii(s@),
            vstd::utf8::is_ascii_chars(s@),
            ascii.len() == s@.len(),
            ascii[0] == CURR_MULTIBASE_PREFIX,
            forall|j: int| 0 <= j < vals@.len() ==> #[trigger] b32_val(ascii.skip(1)[j])
                == Some(vals@[j]),
            vals@.len() == i - 1,
        decreases bytes@.len() - i,
    {
        let b = bytes[i];
        let v = if 0x61 <= b && b <= 0x7a {
            b - 0x61
        } else if 0x32 <= b && b <= 0x37 {
            b - 24
        } else {
            proof {
                assert(ascii.skip(1)[i - 1] == b);
                assert(b32_val(ascii.skip(1)[i - 1]) is None);
                assert(spec_vals(ascii.skip(1)) is None);
            }
            return Err(VaultError::BadInput);
        };
        vals.push(v);
        i = i + 1;
    }
    proof {
        assert(spec_vals(ascii.skip(1)) matches Some(vs) && vs =~= vals@);
    }
    match unsymbols_of(&vals) {
        Some(out) => Ok((CURR_MULTIBASE_PREFIX, out)),
        None => Err(VaultError::BadInput),
    }
}

// ---------------------------------------------------------------------------
// The round trip
// ---------------------------------------------------------------------------

/// Law: decoding the displayed form of any byte string — in particular any
/// CID produced by `wrap_digest` — recovers exactly those bytes, under the
/// `b` multibase prefix.
pub proof fn lemma_decode_encode(cid: Seq<u8>)
    ensures
        spec_decode(spec_encoded(cid)) == Some((CURR_MULTIBASE_PREFIX, cid)),
{
    let ascii = spec_encoded_ascii(cid);
    let text = spec_encoded(cid);
    lemma_symbols_bounded(cid);
    assert forall|i: int| 0 <= i < ascii.len() implies ascii[i] < 128 by {
        if i > 0 {
            lemma_alphabet_roundtrip(spec_symbols(cid)[i - 1]);
        }
    }
    assert(vstd::utf8::is_ascii_chars(text)) by {
        assert forall|i: int| 0 <= i < text.len() implies '\0' <= #[trigger] text[i]
            <= '\u{7f}' by {
            assert(text[i] == ascii[i] as char);
            assert(ascii[i] < 128);
        }
    }
    assert(text.len() == ascii.len());
    assert(text.len() > 0);
    let back = chars_to_ascii(text);
    assert(back =~= ascii);
    assert(ascii[0] == CURR_MULTIBASE_PREFIX);
    let syms = spec_symbols(cid);
    assert(ascii.skip(1) =~= syms.map_values(|v: u8| b32_byte(v)));
    let mapped = ascii.skip(1);
    assert forall|i: int| 0 <= i < mapped.len() implies #[trigger] b32_val(mapped[i])
        == Some(syms[i]) by {
        lemma_alphabet_roundtrip(syms[i]);
    }
    assert(spec_vals(mapped) matches Some(vs) && vs =~= syms);
    lemma_unsymbols_symbols(cid);
}

} // verus!
