//! Canonical byte encoding of blocks for the durable store.
//!
//! Every field is written in a fixed-width or length-prefixed form so that a
//! decoded value is exactly the value that was encoded. Store keys are the
//! block index as eight big-endian bytes, so that the store's bytewise key
//! order coincides with numeric index order.

use vstd::prelude::*;

use crate::block::{Block, BlockV, Transaction, TransactionV};

verus! {

/// A `u64` as eight big-endian bytes.
pub open spec fn be8(x: u64) -> Seq<u8> {
    seq![
        ((x >> 56) & 0xff) as u8,
        ((x >> 48) & 0xff) as u8,
        ((x >> 40) & 0xff) as u8,
        ((x >> 32) & 0xff) as u8,
        ((x >> 24) & 0xff) as u8,
        ((x >> 16) & 0xff) as u8,
        ((x >> 8) & 0xff) as u8,
        (x & 0xff) as u8,
    ]
}

/// The `u64` read back from eight big-endian bytes.
pub open spec fn be_val8(s: Seq<u8>) -> u64
    recommends
        s.len() >= 8,
{
    ((s[0] as u64) << 56) | ((s[1] as u64) << 48) | ((s[2] as u64) << 40) | ((s[3] as u64) << 32)
        | ((s[4] as u64) << 24) | ((s[5] as u64) << 16) | ((s[6] as u64) << 8) | (s[7] as u64)
}

/// A `u128` as sixteen big-endian bytes: high half first.
pub open spec fn be16(x: u128) -> Seq<u8> {
    be8(((x >> 64) & 0xffff_ffff_ffff_ffff) as u64) + be8((x & 0xffff_ffff_ffff_ffff) as u64)
}

/// The `u128` read back from sixteen big-endian bytes.
pub open spec fn be_val16(s: Seq<u8>) -> u128
    recommends
        s.len() >= 16,
{
    ((be_val8(s.take(8)) as u128) << 64) | (be_val8(s.skip(8)) as u128)
}

proof fn lemma_low_byte(y: u64)
    ensures
        (y & 0xff) < 256,
{
    assert((y & 0xff) < 256) by (bit_vector);
}

proof fn lemma_u64_halves(x: u128)
    ensures
        ((x >> 64) & 0xffff_ffff_ffff_ffff) < 0x1_0000_0000_0000_0000,
        (x & 0xffff_ffff_ffff_ffff) < 0x1_0000_0000_0000_0000,
{
    assert(((x >> 64) & 0xffff_ffff_ffff_ffff) < 0x1_0000_0000_0000_0000) by (bit_vector);
    assert((x & 0xffff_ffff_ffff_ffff) < 0x1_0000_0000_0000_0000) by (bit_vector);
}

/// Reading back the eight big-endian bytes of `x` yields `x`.
pub proof fn lemma_be8_round_trip(x: u64)
    ensures
        be8(x).len() == 8,
        be_val8(be8(x)) == x,
{
    lemma_low_byte(x >> 56);
    lemma_low_byte(x >> 48);
    lemma_low_byte(x >> 40);
    lemma_low_byte(x >> 32);
    lemma_low_byte(x >> 24);
    lemma_low_byte(x >> 16);
    lemma_low_byte(x >> 8);
    lemma_low_byte(x);
    assert(((((x >> 56) & 0xff) as u8 as u64) << 56) | ((((x >> 48) & 0xff) as u8 as u64) << 48)
        | ((((x >> 40) & 0xff) as u8 as u64) << 40) | ((((x >> 32) & 0xff) as u8 as u64) << 32)
        | ((((x >> 24) & 0xff) as u8 as u64) << 24) | ((((x >> 16) & 0xff) as u8 as u64) << 16)
        | ((((x >> 8) & 0xff) as u8 as u64) << 8) | (((x & 0xff) as u8) as u64) == x)
        by (bit_vector);
}

/// Reading back the sixteen big-endian bytes of `x` yields `x`.
pub proof fn lemma_be16_round_trip(x: u128)
    ensures
        be16(x).len() == 16,
        be_val16(be16(x)) == x,
{
    let hi = ((x >> 64) & 0xffff_ffff_ffff_ffff) as u64;
    let lo = (x & 0xffff_ffff_ffff_ffff) as u64;
    lemma_u64_halves(x);
    lemma_be8_round_trip(hi);
    lemma_be8_round_trip(lo);
    assert(be16(x).take(8) =~= be8(hi));
    assert(be16(x).skip(8) =~= be8(lo));
    assert((((((x >> 64) & 0xffff_ffff_ffff_ffff) as u64 as u128) << 64) | ((x
        & 0xffff_ffff_ffff_ffff) as u64 as u128)) == x) by (bit_vector);
}

/// Appends the eight big-endian bytes of `x`.
pub fn enc_u64(out: &mut Vec<u8>, x: u64)
    ensures
        final(out)@ == old(out)@ + be8(x),
{
    proof {
        lemma_low_byte(x >> 56);
        lemma_low_byte(x >> 48);
        lemma_low_byte(x >> 40);
        lemma_low_byte(x >> 32);
        lemma_low_byte(x >> 24);
        lemma_low_byte(x >> 16);
        lemma_low_byte(x >> 8);
        lemma_low_byte(x);
    }
    out.push(((x >> 56) & 0xff) as u8);
    out.push(((x >> 48) & 0xff) as u8);
    out.push(((x >> 40) & 0xff) as u8);
    out.push(((x >> 32) & 0xff) as u8);
    out.push(((x >> 24) & 0xff) as u8);
    out.push(((x >> 16) & 0xff) as u8);
    out.push(((x >> 8) & 0xff) as u8);
    out.push((x & 0xff) as u8);
    assert(final(out)@ =~= old(out)@ + be8(x));
}

/// Appends the sixteen big-endian bytes of `x`.
pub fn enc_u128(out: &mut Vec<u8>, x: u128)
    ensures
        final(out)@ == old(out)@ + be16(x),
{
    proof {
        lemma_u64_halves(x);
    }
    enc_u64(out, ((x >> 64) & 0xffff_ffff_ffff_ffff) as u64);
    enc_u64(out, (x & 0xffff_ffff_ffff_ffff) as u64);
    assert(final(out)@ =~= old(out)@ + be16(x));
}

/// Reads a big-endian `u64` at `pos`; `None` when fewer than eight bytes
/// remain.
pub fn dec_u64(bytes: &[u8], pos: usize) -> (r: Option<(u64, usize)>)
    ensures
        match r {
            Some((v, p2)) => pos + 8 <= bytes@.len() && v == be_val8(
                bytes@.subrange(pos as int, pos as int + 8),
            ) && p2 == pos + 8,
            None => pos + 8 > bytes@.len(),
        },
{
    if bytes.len() < 8 || pos > bytes.len() - 8 {
        return None;
    }
    let v = ((bytes[pos] as u64) << 56) | ((bytes[pos + 1] as u64) << 48) | ((bytes[pos
        + 2] as u64) << 40) | ((bytes[pos + 3] as u64) << 32) | ((bytes[pos + 4] as u64) << 24) | ((
    bytes[pos + 5] as u64) << 16) | ((bytes[pos + 6] as u64) << 8) | (bytes[pos + 7] as u64);
    proof {
        let s = bytes@.subrange(pos as int, pos as int + 8);
        assert(s[0] == bytes@[pos as int]);
        assert(s[7] == bytes@[pos as int + 7]);
    }
    Some((v, pos + 8))
}

/// Reads a big-endian `u128` at `pos`; `None` when fewer than sixteen bytes
/// remain.
pub fn dec_u128(bytes: &[u8], pos: usize) -> (r: Option<(u128, usize)>)
    ensures
        match r {
            Some((v, p2)) => pos + 16 <= bytes@.len() && v == be_val16(
                bytes@.subrange(pos as int, pos as int + 16),
            ) && p2 == pos + 16,
            None => pos + 16 > bytes@.len(),
        },
{
    if bytes.len() < 16 || pos > bytes.len() - 16 {
        return None;
    }
    let hi = match dec_u64(bytes, pos) {
        Some((v, _)) => v,
        None => { return None; },
    };
    let lo = match dec_u64(bytes, pos + 8) {
        Some((v, _)) => v,
        None => { return None; },
    };
    let v = ((hi as u128) << 64) | (lo as u128);
    proof {
        let s = bytes@.subrange(pos as int, pos as int + 16);
        assert(s.take(8) =~= bytes@.subrange(pos as int, pos as int + 8));
        assert(s.skip(8) =~= bytes@.subrange(pos as int + 8, pos as int + 16));
    }
    Some((v, pos + 16))
}

/// A byte string, length-prefixed: its length as eight big-endian bytes,
/// then the bytes themselves.
pub open spec fn enc_bytes(b: Seq<u8>) -> Seq<u8>
    recommends
        b.len() <= u64::MAX,
{
    be8(b.len() as u64) + b
}

/// A character string, length-prefixed: the length of its UTF-8 encoding as
/// eight big-endian bytes, then that encoding.
pub open spec fn enc_str(s: Seq<char>) -> Seq<u8> {
    enc_bytes(vstd::utf8::encode_utf8(s))
}

/// Appends `data` length-prefixed.
pub fn enc_bytes_exec(out: &mut Vec<u8>, data: &[u8])
    ensures
        final(out)@ == old(out)@ + enc_bytes(data@),
{
    enc_u64(out, data.len() as u64);
    out.extend_from_slice(data);
    assert(final(out)@ =~= old(out)@ + enc_bytes(data@));
}

/// Appends the UTF-8 encoding of `s` length-prefixed.
pub fn enc_str_exec(out: &mut Vec<u8>, s: &str)
    ensures
        final(out)@ == old(out)@ + enc_str(s@),
{
    enc_bytes_exec(out, s.as_bytes());
}

/// Reads a length-prefixed byte string at `pos`.
pub open spec fn s_dec_bytes(b: Seq<u8>, pos: int) -> Option<(Seq<u8>, int)> {
    match s_dec_u64_at(b, pos) {
        None => None,
        Some((n, p)) => if p + n <= b.len() {
            Some((b.subrange(p, p + n), p + n))
        } else {
            None
        },
    }
}

/// Reads a big-endian `u64` at `pos`, as [`dec_u64`] does.
pub open spec fn s_dec_u64_at(b: Seq<u8>, pos: int) -> Option<(u64, int)> {
    if 0 <= pos && pos + 8 <= b.len() {
        Some((be_val8(b.subrange(pos, pos + 8)), pos + 8))
    } else {
        None
    }
}

/// Reads a big-endian `u128` at `pos`, as [`dec_u128`] does.
pub open spec fn s_dec_u128_at(b: Seq<u8>, pos: int) -> Option<(u128, int)> {
    if 0 <= pos && pos + 16 <= b.len() {
        Some((be_val16(b.subrange(pos, pos + 16)), pos + 16))
    } else {
        None
    }
}

/// Reads a length-prefixed character string at `pos`: a length-prefixed byte
/// string that must be valid UTF-8.
pub open spec fn s_dec_str(b: Seq<u8>, pos: int) -> Option<(Seq<char>, int)> {
    match s_dec_bytes(b, pos) {
        None => None,
        Some((bs, p)) => if vstd::utf8::valid_utf8(bs) {
            Some((vstd::utf8::decode_utf8(bs), p))
        } else {
            None
        },
    }
}

/// Relies on `String::from_utf8`: it succeeds exactly on valid UTF-8, and the
/// returned string's UTF-8 encoding is the given bytes.
#[verifier::external_body]
fn string_from_utf8(bytes: Vec<u8>) -> (r: Option<String>)
    ensures
        r is Some <==> vstd::utf8::valid_utf8(bytes@),
        r is Some ==> vstd::utf8::encode_utf8(r->0@) == bytes@,
{
    String::from_utf8(bytes).ok()
}

/// Reads a length-prefixed byte string at `pos`; `None` when the input is
/// too short.
pub fn dec_bytes(bytes: &[u8], pos: usize) -> (r: Option<(Vec<u8>, usize)>)
    ensures
        match r {
            Some((v, p2)) => s_dec_bytes(bytes@, pos as int) == Some((v@, p2 as int)),
            None => s_dec_bytes(bytes@, pos as int) is None,
        },
{
    let (n, p) = match dec_u64(bytes, pos) {
        Some(x) => x,
        None => { return None; },
    };
    if n > (bytes.len() - p) as u64 {
        return None;
    }
    let data = vstd::slice::slice_subrange(bytes, p, p + n as usize);
    let v = vstd::slice::slice_to_vec(data);
    Some((v, p + n as usize))
}

/// Reads a length-prefixed character string at `pos`; `None` when the input
/// is too short or the bytes are not valid UTF-8.
pub fn dec_str(bytes: &[u8], pos: usize) -> (r: Option<(String, usize)>)
    ensures
        match r {
            Some((v, p2)) => s_dec_str(bytes@, pos as int) == Some((v@, p2 as int)),
            None => s_dec_str(bytes@, pos as int) is None,
        },
{
    let (data, p2) = match dec_bytes(bytes, pos) {
        Some(x) => x,
        None => { return None; },
    };
    let ghost data_view = data@;
    match string_from_utf8(data) {
        Some(s) => {
            proof {
                vstd::utf8::encode_utf8_decode_utf8(s@);
            }
            Some((s, p2))
        },
        None => None,
    }
}

/// Decoding a length-prefixed byte string from where it was encoded yields
/// the bytes back.
pub proof fn lemma_dec_bytes(b: Seq<u8>, pos: int, data: Seq<u8>)
    requires
        0 <= pos,
        data.len() <= u64::MAX,
        pos + 8 + data.len() <= b.len(),
        b.subrange(pos, pos + 8 + data.len()) == enc_bytes(data),
    ensures
        s_dec_bytes(b, pos) == Some((data, pos + 8 + data.len())),
{
    lemma_be8_round_trip(data.len() as u64);
    assert(b.subrange(pos, pos + 8) =~= enc_bytes(data).subrange(0, 8));
    assert(enc_bytes(data).subrange(0, 8) =~= be8(data.len() as u64));
    assert(b.subrange(pos + 8, pos + 8 + data.len()) =~= enc_bytes(data).subrange(
        8,
        8 + data.len() as int,
    ));
    assert(enc_bytes(data).subrange(8, 8 + data.len() as int) =~= data);
}

/// Decoding a length-prefixed character string from where it was encoded
/// yields the characters back.
pub proof fn lemma_dec_str(b: Seq<u8>, pos: int, s: Seq<char>)
    requires
        0 <= pos,
        vstd::utf8::encode_utf8(s).len() <= u64::MAX,
        pos + 8 + vstd::utf8::encode_utf8(s).len() <= b.len(),
        b.subrange(pos, pos + 8 + vstd::utf8::encode_utf8(s).len()) == enc_str(s),
    ensures
        s_dec_str(b, pos) == Some((s, pos + 8 + vstd::utf8::encode_utf8(s).len())),
{
    let bs = vstd::utf8::encode_utf8(s);
    lemma_dec_bytes(b, pos, bs);
    vstd::utf8::encode_utf8_valid_utf8(s);
    vstd::utf8::encode_utf8_decode_utf8(s);
}

/// Strict bytewise (lexicographic) order, the order a bytewise-ordered
/// key-value store iterates its keys in: `a` comes first when it is a proper
/// prefix of `b`, or when at the first differing position its byte is
/// smaller.
pub open spec fn lex_lt(a: Seq<u8>, b: Seq<u8>) -> bool {
    (a.len() < b.len() && a == b.subrange(0, a.len() as int)) || exists|i: int|
        0 <= i < a.len() && i < b.len() && a.subrange(0, i) == b.subrange(0, i) && a[i] < b[i]
}

/// Eight-byte big-endian keys order bytewise exactly as their values order
/// numerically: the fixed-width encoding is what keeps a bytewise-ordered
/// store iterating blocks in index order.
pub proof fn lemma_be8_order(x: u64, y: u64)
    requires
        x < y,
    ensures
        lex_lt(be8(x), be8(y)),
{
    let a = be8(x);
    let b = be8(y);
    lemma_be8_round_trip(x);
    lemma_be8_round_trip(y);
    if a =~= b {
        assert(be_val8(a) == be_val8(b));
        assert(false);
    }
    let i = choose|i: int| 0 <= i < 8 && a[i] != b[i] && forall|j: int| 0 <= j < i ==> a[j] == b[j];
    assert(exists|i: int|
        0 <= i < 8 && a[i] != b[i] && forall|j: int| 0 <= j < i ==> a[j] == b[j]) by {
        let k = choose|k: int| 0 <= k < 8 && a[k] != b[k];
        if a[0] != b[0] {
            assert(0 <= 0 < 8 && a[0] != b[0] && forall|j: int| 0 <= j < 0 ==> a[j] == b[j]);
        } else if a[1] != b[1] {
            assert(forall|j: int| 0 <= j < 1 ==> a[j] == b[j]);
        } else if a[2] != b[2] {
            assert(forall|j: int| 0 <= j < 2 ==> a[j] == b[j]);
        } else if a[3] != b[3] {
            assert(forall|j: int| 0 <= j < 3 ==> a[j] == b[j]);
        } else if a[4] != b[4] {
            assert(forall|j: int| 0 <= j < 4 ==> a[j] == b[j]);
        } else if a[5] != b[5] {
            assert(forall|j: int| 0 <= j < 5 ==> a[j] == b[j]);
        } else if a[6] != b[6] {
            assert(forall|j: int| 0 <= j < 6 ==> a[j] == b[j]);
        } else {
            assert(a[7] != b[7]);
            assert(forall|j: int| 0 <= j < 7 ==> a[j] == b[j]);
        }
    }
    assert(a.subrange(0, i) =~= b.subrange(0, i));
    if a[i] > b[i] {
        lemma_be8_higher_byte_order(y, x, i);
        assert(false);
    }
    assert(a[i] < b[i]);
}

// With all bytes above position `i` equal and byte `i` strictly smaller,
// the value is strictly smaller.
proof fn lemma_be8_higher_byte_order(x: u64, y: u64, i: int)
    requires
        0 <= i < 8,
        forall|j: int| 0 <= j < i ==> be8(x)[j] == be8(y)[j],
        be8(x)[i] < be8(y)[i],
    ensures
        x < y,
{
    let a = be8(x);
    let b = be8(y);
    lemma_low_byte(x >> 56);
    lemma_low_byte(x >> 48);
    lemma_low_byte(x >> 40);
    lemma_low_byte(x >> 32);
    lemma_low_byte(x >> 24);
    lemma_low_byte(x >> 16);
    lemma_low_byte(x >> 8);
    lemma_low_byte(x);
    lemma_low_byte(y >> 56);
    lemma_low_byte(y >> 48);
    lemma_low_byte(y >> 40);
    lemma_low_byte(y >> 32);
    lemma_low_byte(y >> 24);
    lemma_low_byte(y >> 16);
    lemma_low_byte(y >> 8);
    lemma_low_byte(y);
    if i == 0 {
        assert(((x >> 56) & 0xff) < ((y >> 56) & 0xff) ==> x < y) by (bit_vector);
    } else if i == 1 {
        assert(((x >> 56) & 0xff) == ((y >> 56) & 0xff) && ((x >> 48) & 0xff) < ((y >> 48) & 0xff)
            ==> x < y) by (bit_vector);
    } else if i == 2 {
        assert(((x >> 56) & 0xff) == ((y >> 56) & 0xff) && ((x >> 48) & 0xff) == ((y >> 48) & 0xff)
            && ((x >> 40) & 0xff) < ((y >> 40) & 0xff) ==> x < y) by (bit_vector);
    } else if i == 3 {
        assert(((x >> 56) & 0xff) == ((y >> 56) & 0xff) && ((x >> 48) & 0xff) == ((y >> 48) & 0xff)
            && ((x >> 40) & 0xff) == ((y >> 40) & 0xff) && ((x >> 32) & 0xff) < ((y >> 32) & 0xff)
            ==> x < y) by (bit_vector);
    } else if i == 4 {
        assert(((x >> 56) & 0xff) == ((y >> 56) & 0xff) && ((x >> 48) & 0xff) == ((y >> 48) & 0xff)
            && ((x >> 40) & 0xff) == ((y >> 40) & 0xff) && ((x >> 32) & 0xff) == ((y >> 32) & 0xff)
            && ((x >> 24) & 0xff) < ((y >> 24) & 0xff) ==> x < y) by (bit_vector);
    } else if i == 5 {
        assert(((x >> 56) & 0xff) == ((y >> 56) & 0xff) && ((x >> 48) & 0xff) == ((y >> 48) & 0xff)
            && ((x >> 40) & 0xff) == ((y >> 40) & 0xff) && ((x >> 32) & 0xff) == ((y >> 32) & 0xff)
            && ((x >> 24) & 0xff) == ((y >> 24) & 0xff) && ((x >> 16) & 0xff) < ((y >> 16) & 0xff)
            ==> x < y) by (bit_vector);
    } else if i == 6 {
        assert(((x >> 56) & 0xff) == ((y >> 56) & 0xff) && ((x >> 48) & 0xff) == ((y >> 48) & 0xff)
            && ((x >> 40) & 0xff) == ((y >> 40) & 0xff) && ((x >> 32) & 0xff) == ((y >> 32) & 0xff)
            && ((x >> 24) & 0xff) == ((y >> 24) & 0xff) && ((x >> 16) & 0xff) == ((y >> 16) & 0xff)
            && ((x >> 8) & 0xff) < ((y >> 8) & 0xff) ==> x < y) by (bit_vector);
    } else {
        assert(((x >> 56) & 0xff) == ((y >> 56) & 0xff) && ((x >> 48) & 0xff) == ((y >> 48) & 0xff)
            && ((x >> 40) & 0xff) == ((y >> 40) & 0xff) && ((x >> 32) & 0xff) == ((y >> 32) & 0xff)
            && ((x >> 24) & 0xff) == ((y >> 24) & 0xff) && ((x >> 16) & 0xff) == ((y >> 16) & 0xff)
            && ((x >> 8) & 0xff) == ((y >> 8) & 0xff) && (x & 0xff) < (y & 0xff) ==> x < y)
            by (bit_vector);
    }
}

/// Bytewise order is strict: two keys cannot each precede the other. With
/// [`lemma_be8_order`] this is what makes a bytewise-ordered iteration of
/// distinct keys unique.
pub proof fn lemma_lex_asymmetric(x: Seq<u8>, y: Seq<u8>)
    requires
        lex_lt(x, y),
    ensures
        !lex_lt(y, x),
{
    if lex_lt(y, x) {
        if x.len() < y.len() && x == y.subrange(0, x.len() as int) {
            if y.len() < x.len() && y == x.subrange(0, y.len() as int) {
                assert(false);
            } else {
                let j = choose|j: int|
                    0 <= j < y.len() && j < x.len() && y.subrange(0, j) == x.subrange(0, j) && y[j]
                        < x[j];
                assert(x[j] == y.subrange(0, x.len() as int)[j]);
                assert(false);
            }
        } else {
            let i = choose|i: int|
                0 <= i < x.len() && i < y.len() && x.subrange(0, i) == y.subrange(0, i) && x[i]
                    < y[i];
            if y.len() < x.len() && y == x.subrange(0, y.len() as int) {
                assert(y[i] == x.subrange(0, y.len() as int)[i]);
                assert(false);
            } else {
                let j = choose|j: int|
                    0 <= j < y.len() && j < x.len() && y.subrange(0, j) == x.subrange(0, j) && y[j]
                        < x[j];
                if i < j {
                    assert(y.subrange(0, j)[i] == y[i]);
                    assert(x.subrange(0, j)[i] == x[i]);
                    assert(false);
                } else if j < i {
                    assert(x.subrange(0, i)[j] == x[j]);
                    assert(y.subrange(0, i)[j] == y[j]);
                    assert(false);
                } else {
                    assert(false);
                }
            }
        }
    }
}

/// The encoding of one transaction: sender, receiver, amount, signature.
pub open spec fn enc_tx(t: TransactionV) -> Seq<u8> {
    enc_str(t.sender) + enc_str(t.receiver) + be8(t.amount) + enc_bytes(t.signature)
}

/// The encodings of a sequence of transactions, concatenated.
pub open spec fn enc_tx_list(ts: Seq<TransactionV>) -> Seq<u8>
    decreases ts.len(),
{
    if ts.len() == 0 {
        Seq::empty()
    } else {
        enc_tx(ts[0]) + enc_tx_list(ts.drop_first())
    }
}

/// A transaction sequence: its length as eight big-endian bytes, then the
/// transactions.
pub open spec fn enc_txs(ts: Seq<TransactionV>) -> Seq<u8> {
    be8(ts.len() as u64) + enc_tx_list(ts)
}

/// The encoding of a whole block.
pub open spec fn enc_block(b: BlockV) -> Seq<u8> {
    be8(b.index) + be16(b.timestamp) + enc_str(b.previous_hash) + enc_str(b.hash) + enc_txs(
        b.transactions,
    )
}

/// The bytes a block's hash is computed over: index, timestamp and
/// transactions, in the canonical encoding.
pub open spec fn enc_hash_input(index: u64, timestamp: u128, ts: Seq<TransactionV>) -> Seq<u8> {
    be8(index) + be16(timestamp) + enc_txs(ts)
}

/// The length prefixes inside one transaction fit their eight-byte fields.
pub open spec fn tx_fits(t: TransactionV) -> bool {
    &&& vstd::utf8::encode_utf8(t.sender).len() <= u64::MAX
    &&& vstd::utf8::encode_utf8(t.receiver).len() <= u64::MAX
    &&& t.signature.len() <= u64::MAX
}

/// The length prefixes inside a block fit their eight-byte fields.
pub open spec fn block_fits(b: BlockV) -> bool {
    &&& vstd::utf8::encode_utf8(b.previous_hash).len() <= u64::MAX
    &&& vstd::utf8::encode_utf8(b.hash).len() <= u64::MAX
    &&& b.transactions.len() <= u64::MAX
    &&& forall|i: int| 0 <= i < b.transactions.len() ==> tx_fits(#[trigger] b.transactions[i])
}

proof fn lemma_enc_tx_list_take_snoc(ts: Seq<TransactionV>, i: int)
    requires
        0 <= i < ts.len(),
    ensures
        enc_tx_list(ts.take(i + 1)) == enc_tx_list(ts.take(i)) + enc_tx(ts[i]),
    decreases i,
{
    if i == 0 {
        assert(ts.take(1).len() == 1);
        assert(ts.take(1)[0] == ts[0]);
        assert(ts.take(1).drop_first() =~= Seq::<TransactionV>::empty());
        assert(ts.take(0) =~= Seq::<TransactionV>::empty());
        assert(enc_tx_list(ts.take(1)) =~= enc_tx_list(ts.take(0)) + enc_tx(ts[0]));
    } else {
        let d = ts.drop_first();
        lemma_enc_tx_list_take_snoc(d, i - 1);
        assert(ts.take(i + 1).drop_first() =~= d.take(i));
        assert(ts.take(i).drop_first() =~= d.take(i - 1));
        assert(ts.take(i + 1)[0] == ts[0]);
        assert(ts.take(i)[0] == ts[0]);
        assert(d[i - 1] == ts[i]);
        assert(enc_tx(ts[0]) + (enc_tx_list(d.take(i - 1)) + enc_tx(ts[i])) =~= (enc_tx(ts[0])
            + enc_tx_list(d.take(i - 1))) + enc_tx(ts[i]));
    }
}

/// Appends the encoding of one transaction.
pub fn encode_tx(out: &mut Vec<u8>, t: &Transaction)
    ensures
        final(out)@ == old(out)@ + enc_tx(t@),
{
    enc_str_exec(out, t.sender.as_str());
    enc_str_exec(out, t.receiver.as_str());
    enc_u64(out, t.amount);
    enc_bytes_exec(out, t.signature.as_slice());
    assert(final(out)@ =~= old(out)@ + enc_tx(t@));
}

/// Appends the encoding of a transaction sequence.
pub fn encode_txs(out: &mut Vec<u8>, ts: &Vec<Transaction>)
    ensures
        final(out)@ == old(out)@ + enc_txs(ts.deep_view()),
{
    enc_u64(out, ts.len() as u64);
    let ghost base = out@;
    let n = ts.len();
    let mut i: usize = 0;
    assert(ts.deep_view().take(0) =~= Seq::<TransactionV>::empty());
    while i < n
        invariant
            i <= n,
            n == ts.len(),
            ts.deep_view().len() == n,
            out@ == base + enc_tx_list(ts.deep_view().take(i as int)),
        decreases n - i,
    {
        proof {
            lemma_enc_tx_list_take_snoc(ts.deep_view(), i as int);
        }
        encode_tx(out, &ts[i]);
        assert(ts.deep_view()[i as int] == ts[i as int]@);
        i = i + 1;
    }
    assert(ts.deep_view().take(n as int) =~= ts.deep_view());
    assert(final(out)@ =~= old(out)@ + enc_txs(ts.deep_view()));
}

/// The canonical encoding of a block, as written to the durable store.
pub fn encode_block(b: &Block) -> (r: Vec<u8>)
    ensures
        r@ == enc_block(b@),
{
    let mut out: Vec<u8> = Vec::new();
    enc_u64(&mut out, b.index);
    enc_u128(&mut out, b.timestamp);
    enc_str_exec(&mut out, b.previous_hash.as_str());
    enc_str_exec(&mut out, b.hash.as_str());
    encode_txs(&mut out, &b.transactions);
    assert(out@ =~= enc_block(b@));
    out
}

/// The bytes a block's hash is computed over.
pub fn encode_hash_input(index: u64, timestamp: u128, ts: &Vec<Transaction>) -> (r: Vec<u8>)
    ensures
        r@ == enc_hash_input(index, timestamp, ts.deep_view()),
{
    let mut out: Vec<u8> = Vec::new();
    enc_u64(&mut out, index);
    enc_u128(&mut out, timestamp);
    encode_txs(&mut out, ts);
    assert(out@ =~= enc_hash_input(index, timestamp, ts.deep_view()));
    out
}

/// The store key of a block: its index as eight big-endian bytes.
pub fn index_key(index: u64) -> (r: Vec<u8>)
    ensures
        r@ == be8(index),
{
    let mut out: Vec<u8> = Vec::new();
    enc_u64(&mut out, index);
    assert(out@ =~= be8(index));
    out
}

/// The store record of a block: its key and its encoded value.
pub fn block_record(b: &Block) -> (r: (Vec<u8>, Vec<u8>))
    ensures
        r.0@ == be8(b@.index),
        r.1@ == enc_block(b@),
{
    (index_key(b.index), encode_block(b))
}

/// Reads one transaction at `pos`.
pub open spec fn s_dec_tx(b: Seq<u8>, pos: int) -> Option<(TransactionV, int)> {
    match s_dec_str(b, pos) {
        None => None,
        Some((sender, p1)) => match s_dec_str(b, p1) {
            None => None,
            Some((receiver, p2)) => match s_dec_u64_at(b, p2) {
                None => None,
                Some((amount, p3)) => match s_dec_bytes(b, p3) {
                    None => None,
                    Some((signature, p4)) => Some(
                        (TransactionV { sender, receiver, amount, signature }, p4),
                    ),
                },
            },
        },
    }
}

/// Reads `n` transactions one after another, starting at `pos`.
pub open spec fn s_dec_tx_list(b: Seq<u8>, pos: int, n: nat) -> Option<(Seq<TransactionV>, int)>
    decreases n,
{
    if n == 0 {
        Some((Seq::empty(), pos))
    } else {
        match s_dec_tx(b, pos) {
            None => None,
            Some((t, p)) => match s_dec_tx_list(b, p, (n - 1) as nat) {
                None => None,
                Some((ts, p2)) => Some((seq![t] + ts, p2)),
            },
        }
    }
}

/// Reads a whole block; the encoding must span the input exactly.
pub open spec fn s_dec_block(b: Seq<u8>) -> Option<BlockV> {
    match s_dec_u64_at(b, 0) {
        None => None,
        Some((index, p0)) => match s_dec_u128_at(b, p0) {
            None => None,
            Some((timestamp, p1)) => match s_dec_str(b, p1) {
                None => None,
                Some((previous_hash, p2)) => match s_dec_str(b, p2) {
                    None => None,
                    Some((hash, p3)) => match s_dec_u64_at(b, p3) {
                        None => None,
                        Some((n, p4)) => match s_dec_tx_list(b, p4, n as nat) {
                            None => None,
                            Some((transactions, p5)) => if p5 == b.len() {
                                Some(
                                    BlockV {
                                        index,
                                        timestamp,
                                        previous_hash,
                                        hash,
                                        transactions,
                                    },
                                )
                            } else {
                                None
                            },
                        },
                    },
                },
            },
        },
    }
}

proof fn lemma_s_dec_str_bounds(b: Seq<u8>, pos: int)
    requires
        0 <= pos <= b.len(),
        s_dec_str(b, pos) is Some,
    ensures
        pos + 8 <= (s_dec_str(b, pos)->0).1 <= b.len(),
{
}

proof fn lemma_s_dec_tx_bounds(b: Seq<u8>, pos: int)
    requires
        0 <= pos <= b.len(),
        s_dec_tx(b, pos) is Some,
    ensures
        pos + 32 <= (s_dec_tx(b, pos)->0).1 <= b.len(),
{
    let (sender, p1) = s_dec_str(b, pos)->0;
    lemma_s_dec_str_bounds(b, pos);
    lemma_s_dec_str_bounds(b, p1);
}

proof fn lemma_tx_list_needs_len(b: Seq<u8>, pos: int, n: nat)
    requires
        0 <= pos <= b.len(),
        pos + n > b.len(),
    ensures
        s_dec_tx_list(b, pos, n) is None,
    decreases n,
{
    if n > 0 && s_dec_tx(b, pos) is Some {
        let (t, p) = s_dec_tx(b, pos)->0;
        lemma_s_dec_tx_bounds(b, pos);
        lemma_tx_list_needs_len(b, p, (n - 1) as nat);
    }
}

/// Reads one transaction at `pos`; `None` when the input does not hold one.
pub fn dec_tx(bytes: &[u8], pos: usize) -> (r: Option<(Transaction, usize)>)
    requires
        pos <= bytes@.len(),
    ensures
        match r {
            Some((t, p2)) => s_dec_tx(bytes@, pos as int) == Some((t@, p2 as int)) && pos < p2
                <= bytes@.len(),
            None => s_dec_tx(bytes@, pos as int) is None,
        },
{
    let (sender, p1) = match dec_str(bytes, pos) {
        Some(x) => x,
        None => { return None; },
    };
    let (receiver, p2) = match dec_str(bytes, p1) {
        Some(x) => x,
        None => { return None; },
    };
    let (amount, p3) = match dec_u64(bytes, p2) {
        Some(x) => x,
        None => { return None; },
    };
    let (signature, p4) = match dec_bytes(bytes, p3) {
        Some(x) => x,
        None => { return None; },
    };
    let t = Transaction { sender, receiver, amount, signature };
    proof {
        lemma_s_dec_tx_bounds(bytes@, pos as int);
        assert(t@ =~= (s_dec_tx(bytes@, pos as int)->0).0);
    }
    Some((t, p4))
}

/// Reads `n` transactions starting at `pos`; `None` when the input does not
/// hold that many.
pub fn dec_txs(bytes: &[u8], pos: usize, n: u64) -> (r: Option<(Vec<Transaction>, usize)>)
    requires
        pos <= bytes@.len(),
    ensures
        match r {
            Some((v, p2)) => s_dec_tx_list(bytes@, pos as int, n as nat) == Some(
                (v.deep_view(), p2 as int),
            ) && p2 <= bytes@.len(),
            None => s_dec_tx_list(bytes@, pos as int, n as nat) is None,
        },
{
    if n > (bytes.len() - pos) as u64 {
        proof {
            lemma_tx_list_needs_len(bytes@, pos as int, n as nat);
        }
        return None;
    }
    let mut acc: Vec<Transaction> = Vec::new();
    let mut cur: usize = pos;
    let mut i: u64 = 0;
    assert(acc.deep_view() =~= Seq::<TransactionV>::empty());
    while i < n
        invariant
            i <= n,
            pos <= cur <= bytes@.len(),
            acc.deep_view().len() == i,
            s_dec_tx_list(bytes@, pos as int, n as nat) == (match s_dec_tx_list(
                bytes@,
                cur as int,
                (n - i) as nat,
            ) {
                None => None::<(Seq<TransactionV>, int)>,
                Some((ts, p)) => Some((acc.deep_view() + ts, p)),
            }),
        decreases n - i,
    {
        let ghost acc0 = acc.deep_view();
        let (t, p2) = match dec_tx(bytes, cur) {
            Some(x) => x,
            None => { return None; },
        };
        acc.push(t);
        proof {
            assert(acc.deep_view() =~= acc0.push(t@));
            let rest = (n - i - 1) as nat;
            if s_dec_tx_list(bytes@, p2 as int, rest) is Some {
                let (ts, pe) = s_dec_tx_list(bytes@, p2 as int, rest)->0;
                assert(s_dec_tx_list(bytes@, cur as int, (n - i) as nat) == Some(
                    (seq![t@] + ts, pe),
                ));
                assert(acc0 + (seq![t@] + ts) =~= acc.deep_view() + ts);
            }
        }
        cur = p2;
        i = i + 1;
    }
    proof {
        assert(s_dec_tx_list(bytes@, cur as int, 0) == Some(
            (Seq::<TransactionV>::empty(), cur as int),
        ));
        assert(acc.deep_view() + Seq::<TransactionV>::empty() =~= acc.deep_view());
    }
    Some((acc, cur))
}

/// Decodes a block from its canonical encoding; `None` when the bytes are
/// not exactly one encoded block.
pub fn decode_block(bytes: &[u8]) -> (r: Option<Block>)
    ensures
        match r {
            Some(bl) => s_dec_block(bytes@) == Some(bl@),
            None => s_dec_block(bytes@) is None,
        },
{
    let (index, p0) = match dec_u64(bytes, 0) {
        Some(x) => x,
        None => { return None; },
    };
    let (timestamp, p1) = match dec_u128(bytes, p0) {
        Some(x) => x,
        None => { return None; },
    };
    let (previous_hash, p2) = match dec_str(bytes, p1) {
        Some(x) => x,
        None => { return None; },
    };
    let (hash, p3) = match dec_str(bytes, p2) {
        Some(x) => x,
        None => { return None; },
    };
    proof {
        lemma_s_dec_str_bounds(bytes@, p1 as int);
        lemma_s_dec_str_bounds(bytes@, p2 as int);
    }
    let (n, p4) = match dec_u64(bytes, p3) {
        Some(x) => x,
        None => { return None; },
    };
    let (transactions, p5) = match dec_txs(bytes, p4, n) {
        Some(x) => x,
        None => { return None; },
    };
    if p5 != bytes.len() {
        return None;
    }
    let bl = Block { index, timestamp, previous_hash, hash, transactions };
    proof {
        assert(bl@ =~= s_dec_block(bytes@)->0);
    }
    Some(bl)
}

proof fn lemma_part_at(b: Seq<u8>, pos: int, s: Seq<u8>, off: int, part: Seq<u8>)
    requires
        0 <= pos,
        pos + s.len() <= b.len(),
        b.subrange(pos, pos + s.len()) == s,
        0 <= off,
        off + part.len() <= s.len(),
        s.subrange(off, off + part.len()) == part,
    ensures
        b.subrange(pos + off, pos + off + part.len()) == part,
{
    assert(b.subrange(pos + off, pos + off + part.len()) =~= part);
}

/// Decoding one transaction from where it was encoded yields it back.
pub proof fn lemma_dec_tx(b: Seq<u8>, pos: int, t: TransactionV)
    requires
        0 <= pos,
        tx_fits(t),
        pos + enc_tx(t).len() <= b.len(),
        b.subrange(pos, pos + enc_tx(t).len()) == enc_tx(t),
    ensures
        s_dec_tx(b, pos) == Some((t, pos + enc_tx(t).len())),
{
    let e = enc_tx(t);
    let a1 = enc_str(t.sender);
    let a2 = enc_str(t.receiver);
    let a3 = be8(t.amount);
    let a4 = enc_bytes(t.signature);
    let l1 = a1.len() as int;
    let l2 = a2.len() as int;
    let l3 = a3.len() as int;
    let l4 = a4.len() as int;
    assert(e.subrange(0, l1) =~= a1);
    assert(e.subrange(l1, l1 + l2) =~= a2);
    assert(e.subrange(l1 + l2, l1 + l2 + l3) =~= a3);
    assert(e.subrange(l1 + l2 + l3, l1 + l2 + l3 + l4) =~= a4);
    lemma_part_at(b, pos, e, 0, a1);
    lemma_part_at(b, pos, e, l1, a2);
    lemma_part_at(b, pos, e, l1 + l2, a3);
    lemma_part_at(b, pos, e, l1 + l2 + l3, a4);
    lemma_dec_str(b, pos, t.sender);
    lemma_dec_str(b, pos + l1, t.receiver);
    lemma_be8_round_trip(t.amount);
    assert(b.subrange(pos + l1 + l2, pos + l1 + l2 + 8) =~= be8(t.amount));
    lemma_dec_bytes(b, pos + l1 + l2 + l3, t.signature);
    assert((s_dec_tx(b, pos)->0).0 =~= t);
}

/// Decoding a transaction sequence from where it was encoded yields it back.
pub proof fn lemma_dec_tx_list(b: Seq<u8>, pos: int, ts: Seq<TransactionV>)
    requires
        0 <= pos,
        forall|i: int| 0 <= i < ts.len() ==> tx_fits(#[trigger] ts[i]),
        pos + enc_tx_list(ts).len() <= b.len(),
        b.subrange(pos, pos + enc_tx_list(ts).len()) == enc_tx_list(ts),
    ensures
        s_dec_tx_list(b, pos, ts.len()) == Some((ts, pos + enc_tx_list(ts).len())),
    decreases ts.len(),
{
    if ts.len() == 0 {
        assert(s_dec_tx_list(b, pos, 0) == Some((Seq::<TransactionV>::empty(), pos)));
        assert(ts =~= Seq::<TransactionV>::empty());
    } else {
        let e = enc_tx_list(ts);
        let h = enc_tx(ts[0]);
        let rest = enc_tx_list(ts.drop_first());
        assert(e.subrange(0, h.len() as int) =~= h);
        assert(e.subrange(h.len() as int, e.len() as int) =~= rest);
        lemma_part_at(b, pos, e, 0, h);
        lemma_part_at(b, pos, e, h.len() as int, rest);
        lemma_dec_tx(b, pos, ts[0]);
        assert(forall|i: int|
            0 <= i < ts.drop_first().len() ==> tx_fits(#[trigger] ts.drop_first()[i]));
        lemma_dec_tx_list(b, pos + h.len(), ts.drop_first());
        assert(seq![ts[0]] + ts.drop_first() =~= ts);
    }
}

/// Decoding a block from its own encoding yields the block back: the store
/// codec loses nothing.
#[verifier::rlimit(60)]
pub proof fn lemma_block_round_trip(bv: BlockV)
    requires
        block_fits(bv),
    ensures
        s_dec_block(enc_block(bv)) == Some(bv),
{
    let b = enc_block(bv);
    let a1 = be8(bv.index);
    let a2 = be16(bv.timestamp);
    let a3 = enc_str(bv.previous_hash);
    let a4 = enc_str(bv.hash);
    let a5 = be8(bv.transactions.len() as u64);
    let a6 = enc_tx_list(bv.transactions);
    let l1 = a1.len() as int;
    let l2 = a2.len() as int;
    let l3 = a3.len() as int;
    let l4 = a4.len() as int;
    let l5 = a5.len() as int;
    let l6 = a6.len() as int;
    assert(b.subrange(0, b.len() as int) =~= b);
    assert(b.subrange(0, l1) =~= a1);
    assert(b.subrange(l1, l1 + l2) =~= a2);
    assert(b.subrange(l1 + l2, l1 + l2 + l3) =~= a3);
    assert(b.subrange(l1 + l2 + l3, l1 + l2 + l3 + l4) =~= a4);
    assert(b.subrange(l1 + l2 + l3 + l4, l1 + l2 + l3 + l4 + l5) =~= a5);
    assert(b.subrange(l1 + l2 + l3 + l4 + l5, l1 + l2 + l3 + l4 + l5 + l6) =~= a6);
    lemma_be8_round_trip(bv.index);
    lemma_be16_round_trip(bv.timestamp);
    lemma_dec_str(b, l1 + l2, bv.previous_hash);
    lemma_dec_str(b, l1 + l2 + l3, bv.hash);
    lemma_be8_round_trip(bv.transactions.len() as u64);
    lemma_dec_tx_list(b, l1 + l2 + l3 + l4 + l5, bv.transactions);
    assert(s_dec_block(b)->0 =~= bv);
}

} // verus!
