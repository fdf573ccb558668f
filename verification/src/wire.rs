use vstd::prelude::*;
use crate::error::KvError;
use crate::value::{Value, ValueV, Kvpair, KvpairV, Hget, Hgetall, Hset, RequestData, ReqV,
    CommandRequest, CommandResponse, RespV};
use vstd::utf8::{encode_utf8, valid_utf8, encode_utf8_valid_utf8, decode_utf8_encode_utf8};
use vstd::string::StringSliceAdditionalSpecFns;

verus! {

broadcast use vstd::std_specs::vec::group_vec_axioms;

/// The big-endian four-byte encoding of a 32-bit number.
pub open spec fn u32_be(n: u32) -> Seq<u8> {
    seq![
        (n / 0x1000000) as u8,
        ((n / 0x10000) % 0x100) as u8,
        ((n / 0x100) % 0x100) as u8,
        (n % 0x100) as u8,
    ]
}

/// The big-endian eight-byte encoding of a 64-bit number.
pub open spec fn u64_be(n: u64) -> Seq<u8> {
    seq![
        (n / 0x100000000000000) as u8,
        ((n / 0x1000000000000) % 0x100) as u8,
        ((n / 0x10000000000) % 0x100) as u8,
        ((n / 0x100000000) % 0x100) as u8,
        ((n / 0x1000000) % 0x100) as u8,
        ((n / 0x10000) % 0x100) as u8,
        ((n / 0x100) % 0x100) as u8,
        (n % 0x100) as u8,
    ]
}

/// The two's-complement bit pattern of a signed 64-bit number.
pub open spec fn i64_to_bits(n: i64) -> u64 {
    if n >= 0 {
        n as u64
    } else {
        (0x10000000000000000 + n) as u64
    }
}

/// The signed 64-bit number whose two's-complement bit pattern is given.
pub open spec fn bits_to_i64(b: u64) -> i64 {
    if b < 0x8000000000000000 {
        b as i64
    } else {
        (b - 0x10000000000000000) as i64
    }
}

pub proof fn lemma_i64_bits_roundtrip(n: i64)
    ensures
        bits_to_i64(i64_to_bits(n)) == n,
{
}

/// Summing the digits of `u32_be` recovers the number.
pub proof fn lemma_u32_be_digits(n: u32)
    ensures
        (n / 0x1000000) * 0x1000000 + ((n / 0x10000) % 0x100) * 0x10000 + ((n / 0x100) % 0x100)
            * 0x100 + n % 0x100 == n,
        n / 0x1000000 < 0x100,
        (n / 0x10000) % 0x100 < 0x100,
        (n / 0x100) % 0x100 < 0x100,
        n % 0x100 < 0x100,
{
    let x = n as int;
    vstd::arithmetic::div_mod::lemma_fundamental_div_mod(x, 0x100);
    vstd::arithmetic::div_mod::lemma_fundamental_div_mod(x / 0x100, 0x100);
    vstd::arithmetic::div_mod::lemma_fundamental_div_mod(x / 0x10000, 0x100);
    vstd::arithmetic::div_mod::lemma_div_denominator(x, 0x100, 0x100);
    vstd::arithmetic::div_mod::lemma_div_denominator(x, 0x10000, 0x100);
    vstd::arithmetic::div_mod::lemma_fundamental_div_mod(x, 0x1000000);
    vstd::arithmetic::div_mod::lemma_mod_bound(x, 0x1000000);
    vstd::arithmetic::div_mod::lemma_mod_bound(x, 0x100);
    vstd::arithmetic::div_mod::lemma_mod_bound(x / 0x100, 0x100);
    vstd::arithmetic::div_mod::lemma_mod_bound(x / 0x10000, 0x100);
}

/// Summing the digits of `u64_be` recovers the number.
#[verifier::rlimit(60)]
pub proof fn lemma_u64_be_digits(n: u64)
    ensures
        (n / 0x100000000000000) * 0x100000000000000 + ((n / 0x1000000000000) % 0x100)
            * 0x1000000000000 + ((n / 0x10000000000) % 0x100) * 0x10000000000 + ((n
            / 0x100000000) % 0x100) * 0x100000000 + ((n / 0x1000000) % 0x100) * 0x1000000 + ((n
            / 0x10000) % 0x100) * 0x10000 + ((n / 0x100) % 0x100) * 0x100 + n % 0x100 == n,
        n / 0x100000000000000 < 0x100,
{
    let x = n as int;
    vstd::arithmetic::div_mod::lemma_fundamental_div_mod(x, 0x100);
    vstd::arithmetic::div_mod::lemma_fundamental_div_mod(x / 0x100, 0x100);
    vstd::arithmetic::div_mod::lemma_fundamental_div_mod(x / 0x10000, 0x100);
    vstd::arithmetic::div_mod::lemma_fundamental_div_mod(x / 0x1000000, 0x100);
    vstd::arithmetic::div_mod::lemma_fundamental_div_mod(x / 0x100000000, 0x100);
    vstd::arithmetic::div_mod::lemma_fundamental_div_mod(x / 0x10000000000, 0x100);
    vstd::arithmetic::div_mod::lemma_fundamental_div_mod(x / 0x1000000000000, 0x100);
    vstd::arithmetic::div_mod::lemma_div_denominator(x, 0x100, 0x100);
    vstd::arithmetic::div_mod::lemma_div_denominator(x, 0x10000, 0x100);
    vstd::arithmetic::div_mod::lemma_div_denominator(x, 0x1000000, 0x100);
    vstd::arithmetic::div_mod::lemma_div_denominator(x, 0x100000000, 0x100);
    vstd::arithmetic::div_mod::lemma_div_denominator(x, 0x10000000000, 0x100);
    vstd::arithmetic::div_mod::lemma_div_denominator(x, 0x1000000000000, 0x100);
    vstd::arithmetic::div_mod::lemma_fundamental_div_mod(x, 0x100000000000000);
    vstd::arithmetic::div_mod::lemma_mod_bound(x, 0x100000000000000);
}


/// The big-endian digits of a number assembled from four bytes are those bytes.
pub proof fn lemma_u32_be_compose(b0: u8, b1: u8, b2: u8, b3: u8)
    ensures
        u32_be(((b0 as u32) * 0x1000000 + (b1 as u32) * 0x10000 + (b2 as u32) * 0x100 + (
        b3 as u32)) as u32) =~= seq![b0, b1, b2, b3],
{
    let n = (b0 as int) * 0x1000000 + (b1 as int) * 0x10000 + (b2 as int) * 0x100 + (b3 as int);
    vstd::arithmetic::div_mod::lemma_div_multiples_vanish_fancy(
        b0 as int,
        (b1 as int) * 0x10000 + (b2 as int) * 0x100 + (b3 as int),
        0x1000000,
    );
    vstd::arithmetic::div_mod::lemma_div_multiples_vanish_fancy(
        (b0 as int) * 0x100 + (b1 as int),
        (b2 as int) * 0x100 + (b3 as int),
        0x10000,
    );
    vstd::arithmetic::div_mod::lemma_div_multiples_vanish_fancy(
        (b0 as int) * 0x10000 + (b1 as int) * 0x100 + (b2 as int),
        b3 as int,
        0x100,
    );
    vstd::arithmetic::div_mod::lemma_fundamental_div_mod(n, 0x100);
    vstd::arithmetic::div_mod::lemma_fundamental_div_mod(n / 0x100, 0x100);
    vstd::arithmetic::div_mod::lemma_fundamental_div_mod(n / 0x10000, 0x100);
    vstd::arithmetic::div_mod::lemma_div_denominator(n, 0x100, 0x100);
    vstd::arithmetic::div_mod::lemma_div_denominator(n, 0x10000, 0x100);
}

/// The big-endian digits of a number assembled from eight bytes are those bytes.
#[verifier::rlimit(80)]
pub proof fn lemma_u64_be_compose(b0: u8, b1: u8, b2: u8, b3: u8, b4: u8, b5: u8, b6: u8, b7: u8)
    ensures
        u64_be(((b0 as u64) * 0x100000000000000 + (b1 as u64) * 0x1000000000000 + (b2 as u64)
            * 0x10000000000 + (b3 as u64) * 0x100000000 + (b4 as u64) * 0x1000000 + (b5 as u64)
            * 0x10000 + (b6 as u64) * 0x100 + (b7 as u64)) as u64) =~= seq![b0, b1, b2, b3, b4, b5, b6, b7],
{
    let n = (b0 as int) * 0x100000000000000 + (b1 as int) * 0x1000000000000 + (b2 as int)
        * 0x10000000000 + (b3 as int) * 0x100000000 + (b4 as int) * 0x1000000 + (b5 as int)
        * 0x10000 + (b6 as int) * 0x100 + (b7 as int);
    vstd::arithmetic::div_mod::lemma_div_multiples_vanish_fancy(
        b0 as int,
        n - (b0 as int) * 0x100000000000000,
        0x100000000000000,
    );
    vstd::arithmetic::div_mod::lemma_div_multiples_vanish_fancy(
        (b0 as int) * 0x100 + (b1 as int),
        n - ((b0 as int) * 0x100 + (b1 as int)) * 0x1000000000000,
        0x1000000000000,
    );
    vstd::arithmetic::div_mod::lemma_div_multiples_vanish_fancy(
        (b0 as int) * 0x10000 + (b1 as int) * 0x100 + (b2 as int),
        n - ((b0 as int) * 0x10000 + (b1 as int) * 0x100 + (b2 as int)) * 0x10000000000,
        0x10000000000,
    );
    vstd::arithmetic::div_mod::lemma_div_multiples_vanish_fancy(
        (b0 as int) * 0x1000000 + (b1 as int) * 0x10000 + (b2 as int) * 0x100 + (b3 as int),
        n - ((b0 as int) * 0x1000000 + (b1 as int) * 0x10000 + (b2 as int) * 0x100 + (
        b3 as int)) * 0x100000000,
        0x100000000,
    );
    vstd::arithmetic::div_mod::lemma_div_multiples_vanish_fancy(
        (b0 as int) * 0x100000000 + (b1 as int) * 0x1000000 + (b2 as int) * 0x10000 + (b3 as int)
            * 0x100 + (b4 as int),
        (b5 as int) * 0x10000 + (b6 as int) * 0x100 + (b7 as int),
        0x1000000,
    );
    vstd::arithmetic::div_mod::lemma_div_multiples_vanish_fancy(
        (b0 as int) * 0x10000000000 + (b1 as int) * 0x100000000 + (b2 as int) * 0x1000000 + (
        b3 as int) * 0x10000 + (b4 as int) * 0x100 + (b5 as int),
        (b6 as int) * 0x100 + (b7 as int),
        0x10000,
    );
    vstd::arithmetic::div_mod::lemma_div_multiples_vanish_fancy(
        (b0 as int) * 0x1000000000000 + (b1 as int) * 0x10000000000 + (b2 as int) * 0x100000000 + (
        b3 as int) * 0x1000000 + (b4 as int) * 0x10000 + (b5 as int) * 0x100 + (b6 as int),
        b7 as int,
        0x100,
    );
    vstd::arithmetic::div_mod::lemma_fundamental_div_mod(n, 0x100);
    vstd::arithmetic::div_mod::lemma_fundamental_div_mod(n / 0x100, 0x100);
    vstd::arithmetic::div_mod::lemma_fundamental_div_mod(n / 0x10000, 0x100);
    vstd::arithmetic::div_mod::lemma_fundamental_div_mod(n / 0x1000000, 0x100);
    vstd::arithmetic::div_mod::lemma_fundamental_div_mod(n / 0x100000000, 0x100);
    vstd::arithmetic::div_mod::lemma_fundamental_div_mod(n / 0x10000000000, 0x100);
    vstd::arithmetic::div_mod::lemma_fundamental_div_mod(n / 0x1000000000000, 0x100);
    vstd::arithmetic::div_mod::lemma_div_denominator(n, 0x100, 0x100);
    vstd::arithmetic::div_mod::lemma_div_denominator(n, 0x10000, 0x100);
    vstd::arithmetic::div_mod::lemma_div_denominator(n, 0x1000000, 0x100);
    vstd::arithmetic::div_mod::lemma_div_denominator(n, 0x100000000, 0x100);
    vstd::arithmetic::div_mod::lemma_div_denominator(n, 0x10000000000, 0x100);
    vstd::arithmetic::div_mod::lemma_div_denominator(n, 0x1000000000000, 0x100);
}

/// Appends the four big-endian bytes of `n`.
pub fn encode_u32_be(n: u32, buf: &mut Vec<u8>)
    ensures
        final(buf)@ =~= old(buf)@ + u32_be(n),
{
    buf.push((n / 0x1000000) as u8);
    buf.push(((n / 0x10000) % 0x100) as u8);
    buf.push(((n / 0x100) % 0x100) as u8);
    buf.push((n % 0x100) as u8);
}

/// Appends the eight big-endian bytes of `n`.
pub fn encode_u64_be(n: u64, buf: &mut Vec<u8>)
    ensures
        final(buf)@ =~= old(buf)@ + u64_be(n),
{
    buf.push((n / 0x100000000000000) as u8);
    buf.push(((n / 0x1000000000000) % 0x100) as u8);
    buf.push(((n / 0x10000000000) % 0x100) as u8);
    buf.push(((n / 0x100000000) % 0x100) as u8);
    buf.push(((n / 0x1000000) % 0x100) as u8);
    buf.push(((n / 0x10000) % 0x100) as u8);
    buf.push(((n / 0x100) % 0x100) as u8);
    buf.push((n % 0x100) as u8);
}

/// The two's-complement bits of `n`, computed without a lossy cast.
pub fn i64_bits(n: i64) -> (r: u64)
    ensures
        r == i64_to_bits(n),
{
    if n >= 0 {
        n as u64
    } else {
        let m: u64 = (-(n + 1)) as u64;
        0xFFFFFFFFFFFFFFFF - m
    }
}

/// The signed number behind two's-complement bits, computed without a lossy cast.
pub fn i64_from_bits(b: u64) -> (r: i64)
    ensures
        r == bits_to_i64(b),
{
    if b < 0x8000000000000000 {
        b as i64
    } else {
        -((0xFFFFFFFFFFFFFFFF - b) as i64) - 1
    }
}

/// Reads the four big-endian bytes starting at `pos`.
pub fn decode_u32_at(buf: &[u8], pos: usize) -> (r: Result<(u32, usize), KvError>)
    ensures
        r matches Ok(p) ==> {
            &&& pos + 4 <= buf@.len()
            &&& p.1 == pos + 4
            &&& buf@.subrange(pos as int, p.1 as int) =~= u32_be(p.0)
        },
        pos + 4 <= buf@.len() ==> r is Ok,
        forall|m: u32|
            pos + 4 <= buf@.len() && buf@.subrange(pos as int, pos + 4) =~= u32_be(m)
                ==> r == Ok::<(u32, usize), KvError>((m, (pos + 4) as usize)),
{
    if buf.len() < 4 || pos > buf.len() - 4 {
        return Err(KvError::FrameError);
    }
    let b0 = buf[pos] as u32;
    let b1 = buf[pos + 1] as u32;
    let b2 = buf[pos + 2] as u32;
    let b3 = buf[pos + 3] as u32;
    let n: u32 = b0 * 0x1000000 + b1 * 0x10000 + b2 * 0x100 + b3;
    proof {
        let s = buf@.subrange(pos as int, pos + 4);
        assert(s =~= seq![buf@[pos as int], buf@[pos + 1], buf@[pos + 2], buf@[pos + 3]]);
        lemma_u32_be_compose(buf@[pos as int], buf@[pos + 1], buf@[pos + 2], buf@[pos + 3]);
        assert(u32_be(n) =~= s);
        assert forall|m: u32| s =~= u32_be(m) implies n == m by {
            lemma_u32_be_digits(m);
            assert(buf@[pos as int] == (m / 0x1000000) as u8);
            assert(buf@[pos + 1] == ((m / 0x10000) % 0x100) as u8);
            assert(buf@[pos + 2] == ((m / 0x100) % 0x100) as u8);
            assert(buf@[pos + 3] == (m % 0x100) as u8);
        }
    }
    Ok((n, pos + 4))
}

/// Reads the eight big-endian bytes starting at `pos`.
#[verifier::rlimit(60)]
pub fn decode_u64_at(buf: &[u8], pos: usize) -> (r: Result<(u64, usize), KvError>)
    ensures
        r matches Ok(p) ==> {
            &&& pos + 8 <= buf@.len()
            &&& p.1 == pos + 8
            &&& buf@.subrange(pos as int, p.1 as int) =~= u64_be(p.0)
        },
        pos + 8 <= buf@.len() ==> r is Ok,
        forall|m: u64|
            pos + 8 <= buf@.len() && buf@.subrange(pos as int, pos + 8) =~= u64_be(m)
                ==> r == Ok::<(u64, usize), KvError>((m, (pos + 8) as usize)),
{
    if buf.len() < 8 || pos > buf.len() - 8 {
        return Err(KvError::FrameError);
    }
    let b0 = buf[pos] as u64;
    let b1 = buf[pos + 1] as u64;
    let b2 = buf[pos + 2] as u64;
    let b3 = buf[pos + 3] as u64;
    let b4 = buf[pos + 4] as u64;
    let b5 = buf[pos + 5] as u64;
    let b6 = buf[pos + 6] as u64;
    let b7 = buf[pos + 7] as u64;
    let n: u64 = b0 * 0x100000000000000 + b1 * 0x1000000000000 + b2 * 0x10000000000 + b3
        * 0x100000000 + b4 * 0x1000000 + b5 * 0x10000 + b6 * 0x100 + b7;
    proof {
        let s = buf@.subrange(pos as int, pos + 8);
        assert(s =~= seq![
            buf@[pos as int],
            buf@[pos + 1],
            buf@[pos + 2],
            buf@[pos + 3],
            buf@[pos + 4],
            buf@[pos + 5],
            buf@[pos + 6],
            buf@[pos + 7],
        ]);
        lemma_u64_be_compose(
            buf@[pos as int],
            buf@[pos + 1],
            buf@[pos + 2],
            buf@[pos + 3],
            buf@[pos + 4],
            buf@[pos + 5],
            buf@[pos + 6],
            buf@[pos + 7],
        );
        assert(u64_be(n) =~= s);
        assert forall|m: u64| s =~= u64_be(m) implies n == m by {
            lemma_u64_be_digits(m);
            assert(buf@[pos as int] == (m / 0x100000000000000) as u8);
            assert(buf@[pos + 1] == ((m / 0x1000000000000) % 0x100) as u8);
            assert(buf@[pos + 2] == ((m / 0x10000000000) % 0x100) as u8);
            assert(buf@[pos + 3] == ((m / 0x100000000) % 0x100) as u8);
            assert(buf@[pos + 4] == ((m / 0x1000000) % 0x100) as u8);
            assert(buf@[pos + 5] == ((m / 0x10000) % 0x100) as u8);
            assert(buf@[pos + 6] == ((m / 0x100) % 0x100) as u8);
            assert(buf@[pos + 7] == (m % 0x100) as u8);
        }
    }
    Ok((n, pos + 8))
}

/// True when a length fits the four-byte length field.
pub open spec fn len_fits(n: nat) -> bool {
    n < 0x100000000
}

/// A length-prefixed byte string: four big-endian length bytes, then the bytes.
pub open spec fn bytes_enc(b: Seq<u8>) -> Seq<u8> {
    u32_be(b.len() as u32) + b
}

/// A length-prefixed character string, carried as UTF-8.
pub open spec fn str_enc(s: Seq<char>) -> Seq<u8> {
    bytes_enc(encode_utf8(s))
}

/// Relies on String::from_utf8: it succeeds exactly on valid UTF-8 input, and
/// the bytes of the returned string are the input bytes.
#[verifier::external_body]
pub(crate) fn bytes_to_string(v: Vec<u8>) -> (r: Result<String, KvError>)
    ensures
        r matches Ok(s) ==> encode_utf8(s@) =~= v@,
        valid_utf8(v@) ==> r is Ok,
{
    String::from_utf8(v).map_err(|_e| KvError::FrameError)
}

/// Appends the bytes of a slice.
pub fn encode_raw(b: &[u8], buf: &mut Vec<u8>)
    ensures
        final(buf)@ =~= old(buf)@ + b@,
{
    let mut i: usize = 0;
    while i < b.len()
        invariant
            0 <= i <= b@.len(),
            buf@ =~= old(buf)@ + b@.take(i as int),
        decreases b@.len() - i,
    {
        buf.push(b[i]);
        proof {
            assert(old(buf)@ + b@.take(i as int) + seq![b@[i as int]] =~= old(buf)@ + b@.take(
                i + 1,
            ));
        }
        i = i + 1;
    }
    proof {
        assert(b@.take(b@.len() as int) =~= b@);
    }
}

/// Appends a length-prefixed byte string.
pub fn encode_bytes(b: &Vec<u8>, buf: &mut Vec<u8>)
    requires
        len_fits(b@.len()),
    ensures
        final(buf)@ =~= old(buf)@ + bytes_enc(b@),
{
    encode_u32_be(b.len() as u32, buf);
    encode_raw(b.as_slice(), buf);
}

/// Appends a length-prefixed character string as UTF-8.
pub fn encode_str(s: &str, buf: &mut Vec<u8>)
    requires
        len_fits(encode_utf8(s@).len()),
    ensures
        final(buf)@ =~= old(buf)@ + str_enc(s@),
{
    encode_u32_be(s.len() as u32, buf);
    encode_raw(s.as_bytes(), buf);
}

/// Reads a length-prefixed byte string starting at `pos`.
pub fn decode_bytes_at(buf: &[u8], pos: usize) -> (r: Result<(Vec<u8>, usize), KvError>)
    ensures
        r matches Ok(p) ==> {
            &&& pos + 4 <= p.1 <= buf@.len()
            &&& len_fits(p.0@.len())
            &&& p.1 == pos + 4 + p.0@.len()
            &&& buf@.subrange(pos as int, p.1 as int) =~= bytes_enc(p.0@)
        },
        forall|bs: Seq<u8>|
            len_fits(bs.len()) && pos + 4 + bs.len() <= buf@.len() && buf@.subrange(
                pos as int,
                pos + 4 + bs.len(),
            ) =~= bytes_enc(bs) ==> (r matches Ok(p) && p.0@ =~= bs && p.1 == pos + 4 + bs.len()),
{
    let (n, pos2) = match decode_u32_at(buf, pos) {
        Ok(p) => p,
        Err(e) => {
            proof {
                assert forall|bs: Seq<u8>|
                    len_fits(bs.len()) && pos + 4 + bs.len() <= buf@.len() && buf@.subrange(
                        pos as int,
                        pos + 4 + bs.len(),
                    ) =~= bytes_enc(bs) implies false by {
                    assert(pos + 4 <= buf@.len());
                }
            }
            return Err(e);
        },
    };
    let count = n as usize;
    if count > buf.len() || pos2 > buf.len() - count {
        proof {
            assert forall|bs: Seq<u8>|
                len_fits(bs.len()) && pos + 4 + bs.len() <= buf@.len() && buf@.subrange(
                    pos as int,
                    pos + 4 + bs.len(),
                ) =~= bytes_enc(bs) implies false by {
                assert(buf@.subrange(pos as int, pos + 4) =~= u32_be(bs.len() as u32));
                assert(n == bs.len());
            }
        }
        return Err(KvError::FrameError);
    }
    let mut out: Vec<u8> = Vec::new();
    let mut i: usize = 0;
    while i < count
        invariant
            0 <= i <= count,
            pos2 + count <= buf@.len(),
            buf@.len() <= usize::MAX,
            out@ =~= buf@.subrange(pos2 as int, pos2 + i),
        decreases count - i,
    {
        out.push(buf[pos2 + i]);
        proof {
            assert(buf@.subrange(pos2 as int, pos2 + i) + seq![buf@[pos2 + i]] =~= buf@.subrange(
                pos2 as int,
                pos2 + i + 1,
            ));
        }
        i = i + 1;
    }
    proof {
        assert(buf@.subrange(pos as int, pos2 + count) =~= bytes_enc(out@));
        assert forall|bs: Seq<u8>|
            len_fits(bs.len()) && pos + 4 + bs.len() <= buf@.len() && buf@.subrange(
                pos as int,
                pos + 4 + bs.len(),
            ) =~= bytes_enc(bs) implies out@ =~= bs && pos2 + count == pos + 4 + bs.len() by {
            assert(buf@.subrange(pos as int, pos + 4) =~= u32_be(bs.len() as u32));
            assert(n == bs.len());
            assert forall|j: int| 0 <= j < bs.len() implies bs[j] == out@[j] by {
                assert(bs[j] == buf@.subrange(pos as int, pos + 4 + bs.len())[4 + j]);
            }
        }
    }
    Ok((out, pos2 + count))
}

/// Reads a length-prefixed UTF-8 character string starting at `pos`.
pub fn decode_str_at(buf: &[u8], pos: usize) -> (r: Result<(String, usize), KvError>)
    ensures
        r matches Ok(p) ==> {
            &&& pos + 4 <= p.1 <= buf@.len()
            &&& len_fits(encode_utf8(p.0@).len())
            &&& p.1 == pos + 4 + encode_utf8(p.0@).len()
            &&& buf@.subrange(pos as int, p.1 as int) =~= str_enc(p.0@)
        },
        forall|cs: Seq<char>|
            len_fits(encode_utf8(cs).len()) && pos + 4 + encode_utf8(cs).len() <= buf@.len()
                && buf@.subrange(pos as int, pos + 4 + encode_utf8(cs).len()) =~= str_enc(cs)
                ==> (r matches Ok(p) && p.0@ =~= cs && p.1 == pos + 4 + encode_utf8(cs).len()),
{
    let (bytes, pos2) = match decode_bytes_at(buf, pos) {
        Ok(p) => p,
        Err(e) => {
            proof {
                assert forall|cs: Seq<char>|
                    len_fits(encode_utf8(cs).len()) && pos + 4 + encode_utf8(cs).len()
                        <= buf@.len() && buf@.subrange(
                        pos as int,
                        pos + 4 + encode_utf8(cs).len(),
                    ) =~= str_enc(cs) implies false by {}
            }
            return Err(e);
        },
    };
    let ghost gbytes = bytes@;
    match bytes_to_string(bytes) {
        Ok(st) => {
            proof {
                vstd::utf8::encode_utf8_decode_utf8(st@);
                assert forall|cs: Seq<char>|
                    len_fits(encode_utf8(cs).len()) && pos + 4 + encode_utf8(cs).len()
                        <= buf@.len() && buf@.subrange(
                        pos as int,
                        pos + 4 + encode_utf8(cs).len(),
                    ) =~= str_enc(cs) implies st@ =~= cs && pos2 == pos + 4 + encode_utf8(
                    cs,
                ).len() by {
                    assert(gbytes =~= encode_utf8(cs));
                    vstd::utf8::encode_utf8_decode_utf8(cs);
                }
            }
            Ok((st, pos2))
        },
        Err(e) => {
            proof {
                assert forall|cs: Seq<char>|
                    len_fits(encode_utf8(cs).len()) && pos + 4 + encode_utf8(cs).len()
                        <= buf@.len() && buf@.subrange(
                        pos as int,
                        pos + 4 + encode_utf8(cs).len(),
                    ) =~= str_enc(cs) implies false by {
                    assert(gbytes =~= encode_utf8(cs));
                    encode_utf8_valid_utf8(cs);
                }
            }
            Err(e)
        },
    }
}

/// The tagged encoding of one value: a kind byte, then the payload.
pub open spec fn value_enc(v: ValueV) -> Seq<u8> {
    match v {
        ValueV::Empty => seq![0u8],
        ValueV::Str(s) => seq![1u8] + str_enc(s),
        ValueV::Int(n) => seq![2u8] + u64_be(i64_to_bits(n)),
        ValueV::Double(bits) => seq![3u8] + u64_be(bits),
        ValueV::Bool(b) => seq![4u8, if b { 1u8 } else { 0u8 }],
        ValueV::Bytes(b) => seq![5u8] + bytes_enc(b),
    }
}

/// True when every length field inside the value fits four bytes.
pub open spec fn value_fits(v: ValueV) -> bool {
    match v {
        ValueV::Str(s) => len_fits(encode_utf8(s).len()),
        ValueV::Bytes(b) => len_fits(b.len()),
        _ => true,
    }
}

/// Appends the tagged encoding of one value.
pub fn encode_value(v: &Value, buf: &mut Vec<u8>)
    requires
        value_fits(v@),
    ensures
        final(buf)@ =~= old(buf)@ + value_enc(v@),
{
    match v {
        Value::Empty => {
            buf.push(0u8);
        },
        Value::Str(s) => {
            buf.push(1u8);
            encode_str(s.as_str(), buf);
        },
        Value::Int(n) => {
            buf.push(2u8);
            encode_u64_be(i64_bits(*n), buf);
        },
        Value::Double(bits) => {
            buf.push(3u8);
            encode_u64_be(*bits, buf);
        },
        Value::Bool(b) => {
            buf.push(4u8);
            buf.push(if *b { 1u8 } else { 0u8 });
        },
        Value::Bytes(b) => {
            buf.push(5u8);
            encode_bytes(b, buf);
        },
    }
}


/// Splitting a buffer slice known to equal a concatenation.
pub proof fn lemma_chunk_split(buf: Seq<u8>, pos: int, a: Seq<u8>, b: Seq<u8>)
    requires
        0 <= pos,
        pos + a.len() + b.len() <= buf.len(),
        buf.subrange(pos, pos + a.len() + b.len()) == a + b,
    ensures
        buf.subrange(pos, pos + a.len()) =~= a,
        buf.subrange(pos + a.len(), pos + a.len() + b.len()) =~= b,
{
    let whole = buf.subrange(pos, pos + a.len() + b.len());
    assert(whole.len() == a.len() + b.len());
    assert forall|j: int| 0 <= j < a.len() implies buf[pos + j] == a[j] by {
        assert(whole[j] == buf[pos + j]);
        assert((a + b)[j] == a[j]);
        assert(whole[j] == (a + b)[j]);
    }
    assert forall|j: int| 0 <= j < b.len() implies buf[pos + a.len() + j] == b[j] by {
        assert(whole[a.len() + j] == buf[pos + a.len() + j]);
        assert((a + b)[a.len() + j] == b[j]);
        assert(whole[a.len() + j] == (a + b)[a.len() + j]);
    }
}


/// One byte of a buffer slice known to equal an encoding.
pub proof fn lemma_byte_at(buf: Seq<u8>, pos: int, s: Seq<u8>, j: int)
    requires
        0 <= pos,
        0 <= j < s.len(),
        pos + s.len() <= buf.len(),
        buf.subrange(pos, pos + s.len()) == s,
    ensures
        buf[pos + j] == s[j],
{
    assert(buf.subrange(pos, pos + s.len())[j] == buf[pos + j]);
}

/// The contract clauses shared by the tagged-value decoders.
pub open spec fn value_decode_sound(buf: Seq<u8>, pos: int, r: Result<(Value, usize), KvError>) -> bool {
    r matches Ok(p) ==> {
        &&& pos < p.1 <= buf.len()
        &&& value_fits(p.0@)
        &&& p.1 == pos + value_enc(p.0@).len()
        &&& buf.subrange(pos, p.1 as int) =~= value_enc(p.0@)
    }
}

pub open spec fn value_decode_complete(buf: Seq<u8>, pos: int, r: Result<(Value, usize), KvError>) -> bool {
    forall|v: ValueV|
        value_fits(v) && pos + value_enc(v).len() <= buf.len() && buf.subrange(
            pos,
            pos + value_enc(v).len(),
        ) =~= value_enc(v) ==> (r matches Ok(p) && p.0@ == v && p.1 == pos + value_enc(v).len())
}

/// Reads a string value whose kind byte at `pos` was already seen.
#[verifier::rlimit(100)]
fn decode_value_str(buf: &[u8], pos: usize) -> (r: Result<(Value, usize), KvError>)
    requires
        pos < buf@.len(),
        buf@.len() <= usize::MAX,
        buf@[pos as int] == 1u8,
    ensures
        value_decode_sound(buf@, pos as int, r),
        value_decode_complete(buf@, pos as int, r),
{
    match decode_str_at(buf, pos + 1) {
        Ok((st, p2)) => {
            proof {
                assert(buf@.subrange(pos as int, p2 as int) =~= value_enc(ValueV::Str(st@)));
                assert forall|v: ValueV|
                    value_fits(v) && pos + value_enc(v).len() <= buf@.len() && buf@.subrange(
                        pos as int,
                        pos + value_enc(v).len(),
                    ) =~= value_enc(v) implies v == ValueV::Str(st@) && pos + value_enc(v).len()
                    == p2 by {
                    lemma_byte_at(buf@, pos as int, value_enc(v), 0);
                    let cs = v->Str_0;
                    lemma_chunk_split(buf@, pos as int, seq![1u8], str_enc(cs));
                    assert(buf@.subrange(pos + 1, pos + 1 + 4 + encode_utf8(cs).len()) =~= str_enc(
                        cs,
                    ));
                }
            }
            Ok((Value::Str(st), p2))
        },
        Err(e) => {
            proof {
                assert forall|v: ValueV|
                    value_fits(v) && pos + value_enc(v).len() <= buf@.len() && buf@.subrange(
                        pos as int,
                        pos + value_enc(v).len(),
                    ) =~= value_enc(v) implies false by {
                    lemma_byte_at(buf@, pos as int, value_enc(v), 0);
                    let cs = v->Str_0;
                    lemma_chunk_split(buf@, pos as int, seq![1u8], str_enc(cs));
                    assert(buf@.subrange(pos + 1, pos + 1 + 4 + encode_utf8(cs).len()) =~= str_enc(
                        cs,
                    ));
                }
            }
            Err(e)
        },
    }
}

/// Reads a signed-number value whose kind byte at `pos` was already seen.
#[verifier::rlimit(100)]
fn decode_value_int(buf: &[u8], pos: usize) -> (r: Result<(Value, usize), KvError>)
    requires
        pos < buf@.len(),
        buf@.len() <= usize::MAX,
        buf@[pos as int] == 2u8,
    ensures
        value_decode_sound(buf@, pos as int, r),
        value_decode_complete(buf@, pos as int, r),
{
    match decode_u64_at(buf, pos + 1) {
        Ok((bits, p2)) => {
            let n = i64_from_bits(bits);
            proof {
                lemma_i64_bits_roundtrip(n);
                assert(i64_to_bits(n) == bits);
                assert(buf@.subrange(pos as int, p2 as int) =~= value_enc(ValueV::Int(n)));
                assert forall|v: ValueV|
                    value_fits(v) && pos + value_enc(v).len() <= buf@.len() && buf@.subrange(
                        pos as int,
                        pos + value_enc(v).len(),
                    ) =~= value_enc(v) implies v == ValueV::Int(n) && pos + value_enc(v).len()
                    == p2 by {
                    lemma_byte_at(buf@, pos as int, value_enc(v), 0);
                    let m = v->Int_0;
                    lemma_chunk_split(buf@, pos as int, seq![2u8], u64_be(i64_to_bits(m)));
                    assert(buf@.subrange(pos + 1, pos + 1 + 8) =~= u64_be(i64_to_bits(m)));
                    lemma_i64_bits_roundtrip(m);
                }
            }
            Ok((Value::Int(n), p2))
        },
        Err(e) => {
            proof {
                assert forall|v: ValueV|
                    value_fits(v) && pos + value_enc(v).len() <= buf@.len() && buf@.subrange(
                        pos as int,
                        pos + value_enc(v).len(),
                    ) =~= value_enc(v) implies false by {
                    lemma_byte_at(buf@, pos as int, value_enc(v), 0);
                    assert(pos + 1 + 8 <= buf@.len());
                }
            }
            Err(e)
        },
    }
}

/// Reads a float-bits value whose kind byte at `pos` was already seen.
#[verifier::rlimit(100)]
fn decode_value_double(buf: &[u8], pos: usize) -> (r: Result<(Value, usize), KvError>)
    requires
        pos < buf@.len(),
        buf@.len() <= usize::MAX,
        buf@[pos as int] == 3u8,
    ensures
        value_decode_sound(buf@, pos as int, r),
        value_decode_complete(buf@, pos as int, r),
{
    match decode_u64_at(buf, pos + 1) {
        Ok((bits, p2)) => {
            proof {
                assert(buf@.subrange(pos as int, p2 as int) =~= value_enc(ValueV::Double(bits)));
                assert forall|v: ValueV|
                    value_fits(v) && pos + value_enc(v).len() <= buf@.len() && buf@.subrange(
                        pos as int,
                        pos + value_enc(v).len(),
                    ) =~= value_enc(v) implies v == ValueV::Double(bits) && pos + value_enc(
                    v,
                ).len() == p2 by {
                    lemma_byte_at(buf@, pos as int, value_enc(v), 0);
                    let m = v->Double_0;
                    lemma_chunk_split(buf@, pos as int, seq![3u8], u64_be(m));
                    assert(buf@.subrange(pos + 1, pos + 1 + 8) =~= u64_be(m));
                }
            }
            Ok((Value::Double(bits), p2))
        },
        Err(e) => {
            proof {
                assert forall|v: ValueV|
                    value_fits(v) && pos + value_enc(v).len() <= buf@.len() && buf@.subrange(
                        pos as int,
                        pos + value_enc(v).len(),
                    ) =~= value_enc(v) implies false by {
                    lemma_byte_at(buf@, pos as int, value_enc(v), 0);
                    assert(pos + 1 + 8 <= buf@.len());
                }
            }
            Err(e)
        },
    }
}

/// Reads a boolean value whose kind byte at `pos` was already seen.
#[verifier::rlimit(100)]
fn decode_value_bool(buf: &[u8], pos: usize) -> (r: Result<(Value, usize), KvError>)
    requires
        pos < buf@.len(),
        buf@.len() <= usize::MAX,
        buf@[pos as int] == 4u8,
    ensures
        value_decode_sound(buf@, pos as int, r),
        value_decode_complete(buf@, pos as int, r),
{
    if pos + 1 >= buf.len() {
        proof {
            assert forall|v: ValueV|
                value_fits(v) && pos + value_enc(v).len() <= buf@.len() && buf@.subrange(
                    pos as int,
                    pos + value_enc(v).len(),
                ) =~= value_enc(v) implies false by {
                lemma_byte_at(buf@, pos as int, value_enc(v), 0);
            }
        }
        return Err(KvError::FrameError);
    }
    let bb = buf[pos + 1];
    if bb == 0 {
        proof {
            assert(buf@.subrange(pos as int, pos + 2) =~= value_enc(ValueV::Bool(false)));
            assert forall|v: ValueV|
                value_fits(v) && pos + value_enc(v).len() <= buf@.len() && buf@.subrange(
                    pos as int,
                    pos + value_enc(v).len(),
                ) =~= value_enc(v) implies v == ValueV::Bool(false) && value_enc(v).len()
                == 2 by {
                lemma_byte_at(buf@, pos as int, value_enc(v), 0);
                lemma_byte_at(buf@, pos as int, value_enc(v), 1);
            }
        }
        return Ok((Value::Bool(false), pos + 2));
    }
    if bb == 1 {
        proof {
            assert(buf@.subrange(pos as int, pos + 2) =~= value_enc(ValueV::Bool(true)));
            assert forall|v: ValueV|
                value_fits(v) && pos + value_enc(v).len() <= buf@.len() && buf@.subrange(
                    pos as int,
                    pos + value_enc(v).len(),
                ) =~= value_enc(v) implies v == ValueV::Bool(true) && value_enc(v).len() == 2 by {
                lemma_byte_at(buf@, pos as int, value_enc(v), 0);
                lemma_byte_at(buf@, pos as int, value_enc(v), 1);
            }
        }
        return Ok((Value::Bool(true), pos + 2));
    }
    proof {
        assert forall|v: ValueV|
            value_fits(v) && pos + value_enc(v).len() <= buf@.len() && buf@.subrange(
                pos as int,
                pos + value_enc(v).len(),
            ) =~= value_enc(v) implies false by {
            lemma_byte_at(buf@, pos as int, value_enc(v), 0);
            lemma_byte_at(buf@, pos as int, value_enc(v), 1);
        }
    }
    Err(KvError::FrameError)
}

/// Reads a byte-string value whose kind byte at `pos` was already seen.
#[verifier::rlimit(100)]
fn decode_value_bytes(buf: &[u8], pos: usize) -> (r: Result<(Value, usize), KvError>)
    requires
        pos < buf@.len(),
        buf@.len() <= usize::MAX,
        buf@[pos as int] == 5u8,
    ensures
        value_decode_sound(buf@, pos as int, r),
        value_decode_complete(buf@, pos as int, r),
{
    match decode_bytes_at(buf, pos + 1) {
        Ok((bs, p2)) => {
            proof {
                assert(buf@.subrange(pos as int, p2 as int) =~= value_enc(ValueV::Bytes(bs@)));
                assert forall|v: ValueV|
                    value_fits(v) && pos + value_enc(v).len() <= buf@.len() && buf@.subrange(
                        pos as int,
                        pos + value_enc(v).len(),
                    ) =~= value_enc(v) implies v == ValueV::Bytes(bs@) && pos + value_enc(
                    v,
                ).len() == p2 by {
                    lemma_byte_at(buf@, pos as int, value_enc(v), 0);
                    let cs = v->Bytes_0;
                    lemma_chunk_split(buf@, pos as int, seq![5u8], bytes_enc(cs));
                    assert(buf@.subrange(pos + 1, pos + 1 + 4 + cs.len()) =~= bytes_enc(cs));
                }
            }
            Ok((Value::Bytes(bs), p2))
        },
        Err(e) => {
            proof {
                assert forall|v: ValueV|
                    value_fits(v) && pos + value_enc(v).len() <= buf@.len() && buf@.subrange(
                        pos as int,
                        pos + value_enc(v).len(),
                    ) =~= value_enc(v) implies false by {
                    lemma_byte_at(buf@, pos as int, value_enc(v), 0);
                    let cs = v->Bytes_0;
                    lemma_chunk_split(buf@, pos as int, seq![5u8], bytes_enc(cs));
                    assert(buf@.subrange(pos + 1, pos + 1 + 4 + cs.len()) =~= bytes_enc(cs));
                }
            }
            Err(e)
        },
    }
}

/// Reads one tagged value starting at `pos`.
pub fn decode_value_at(buf: &[u8], pos: usize) -> (r: Result<(Value, usize), KvError>)
    ensures
        value_decode_sound(buf@, pos as int, r),
        value_decode_complete(buf@, pos as int, r),
{
    if pos >= buf.len() {
        return Err(KvError::FrameError);
    }
    let tag = buf[pos];
    if tag == 0 {
        proof {
            assert(buf@.subrange(pos as int, pos + 1) =~= value_enc(ValueV::Empty));
            assert forall|v: ValueV|
                value_fits(v) && pos + value_enc(v).len() <= buf@.len() && buf@.subrange(
                    pos as int,
                    pos + value_enc(v).len(),
                ) =~= value_enc(v) implies v == ValueV::Empty && value_enc(v).len() == 1 by {
                lemma_byte_at(buf@, pos as int, value_enc(v), 0);
            }
        }
        return Ok((Value::Empty, pos + 1));
    }
    if tag == 1 {
        return decode_value_str(buf, pos);
    }
    if tag == 2 {
        return decode_value_int(buf, pos);
    }
    if tag == 3 {
        return decode_value_double(buf, pos);
    }
    if tag == 4 {
        return decode_value_bool(buf, pos);
    }
    if tag == 5 {
        return decode_value_bytes(buf, pos);
    }
    proof {
        assert forall|v: ValueV|
            value_fits(v) && pos + value_enc(v).len() <= buf@.len() && buf@.subrange(
                pos as int,
                pos + value_enc(v).len(),
            ) =~= value_enc(v) implies false by {
            lemma_byte_at(buf@, pos as int, value_enc(v), 0);
        }
    }
    Err(KvError::FrameError)
}


/// The view of an optional value.
pub open spec fn ov_view(ov: Option<Value>) -> Option<ValueV> {
    match ov {
        Option::Some(v) => Option::Some(v@),
        Option::None => Option::None,
    }
}

/// The encoding of an optional value: a presence byte, then the value.
pub open spec fn opt_value_enc(ov: Option<ValueV>) -> Seq<u8> {
    match ov {
        Option::None => seq![0u8],
        Option::Some(v) => seq![1u8] + value_enc(v),
    }
}

pub open spec fn opt_value_fits(ov: Option<ValueV>) -> bool {
    match ov {
        Option::None => true,
        Option::Some(v) => value_fits(v),
    }
}

/// The encoding of one pair: the key string, then the optional value.
pub open spec fn pair_enc(p: KvpairV) -> Seq<u8> {
    str_enc(p.key) + opt_value_enc(p.value)
}

pub open spec fn pair_fits(p: KvpairV) -> bool {
    len_fits(encode_utf8(p.key).len()) && opt_value_fits(p.value)
}

/// Appends the encoding of an optional value.
pub fn encode_opt_value(ov: &Option<Value>, buf: &mut Vec<u8>)
    requires
        opt_value_fits(match *ov {
            Option::Some(v) => Option::Some(v@),
            Option::None => Option::None,
        }),
    ensures
        final(buf)@ =~= old(buf)@ + opt_value_enc(match *ov {
            Option::Some(v) => Option::Some(v@),
            Option::None => Option::None,
        }),
{
    match ov {
        Option::None => {
            buf.push(0u8);
        },
        Option::Some(v) => {
            buf.push(1u8);
            encode_value(v, buf);
        },
    }
}

/// Appends the encoding of one pair.
pub fn encode_pair(p: &Kvpair, buf: &mut Vec<u8>)
    requires
        pair_fits(p@),
    ensures
        final(buf)@ =~= old(buf)@ + pair_enc(p@),
{
    encode_str(p.key.as_str(), buf);
    encode_opt_value(&p.value, buf);
}

pub open spec fn opt_value_decode_sound(buf: Seq<u8>, pos: int, r: Result<(Option<Value>, usize), KvError>) -> bool {
    r matches Ok(p) ==> {
        &&& pos < p.1 <= buf.len()
        &&& opt_value_fits(ov_view(p.0))
        &&& p.1 == pos + opt_value_enc(ov_view(p.0)).len()
        &&& buf.subrange(pos, p.1 as int) =~= opt_value_enc(ov_view(p.0))
    }
}

pub open spec fn opt_value_decode_complete(buf: Seq<u8>, pos: int, r: Result<(Option<Value>, usize), KvError>) -> bool {
    forall|ov: Option<ValueV>|
        opt_value_fits(ov) && pos + opt_value_enc(ov).len() <= buf.len() && buf.subrange(
            pos,
            pos + opt_value_enc(ov).len(),
        ) =~= opt_value_enc(ov) ==> (r matches Ok(p) && ov_view(p.0) == ov && p.1 == pos
            + opt_value_enc(ov).len())
}

/// Reads an optional value starting at `pos`.
#[verifier::rlimit(100)]
pub fn decode_opt_value_at(buf: &[u8], pos: usize) -> (r: Result<(Option<Value>, usize), KvError>)
    ensures
        opt_value_decode_sound(buf@, pos as int, r),
        opt_value_decode_complete(buf@, pos as int, r),
{
    if pos >= buf.len() {
        proof {
            assert forall|ov: Option<ValueV>|
                opt_value_fits(ov) && pos + opt_value_enc(ov).len() <= buf@.len()
                    && buf@.subrange(pos as int, pos + opt_value_enc(ov).len()) =~= opt_value_enc(
                    ov,
                ) implies false by {}
        }
        return Err(KvError::FrameError);
    }
    let tag = buf[pos];
    if tag == 0 {
        proof {
            assert(buf@.subrange(pos as int, pos + 1) =~= opt_value_enc(Option::None));
            assert forall|ov: Option<ValueV>|
                opt_value_fits(ov) && pos + opt_value_enc(ov).len() <= buf@.len()
                    && buf@.subrange(pos as int, pos + opt_value_enc(ov).len()) =~= opt_value_enc(
                    ov,
                ) implies ov is None && opt_value_enc(ov).len() == 1 by {
                lemma_byte_at(buf@, pos as int, opt_value_enc(ov), 0);
                if ov is Some {
                    lemma_byte_at(buf@, pos as int, opt_value_enc(ov), 0);
                }
            }
        }
        return Ok((Option::None, pos + 1));
    }
    if tag == 1 {
        match decode_value_at(buf, pos + 1) {
            Ok((v, p2)) => {
                proof {
                    assert(buf@.subrange(pos as int, p2 as int) =~= opt_value_enc(
                        Option::Some(v@),
                    ));
                    assert forall|ov: Option<ValueV>|
                        opt_value_fits(ov) && pos + opt_value_enc(ov).len() <= buf@.len()
                            && buf@.subrange(pos as int, pos + opt_value_enc(ov).len())
                            =~= opt_value_enc(ov) implies ov == Option::Some(v@) && pos
                        + opt_value_enc(ov).len() == p2 by {
                        lemma_byte_at(buf@, pos as int, opt_value_enc(ov), 0);
                        let w = ov->0;
                        lemma_chunk_split(buf@, pos as int, seq![1u8], value_enc(w));
                        assert(buf@.subrange(pos + 1, pos + 1 + value_enc(w).len()) =~= value_enc(
                            w,
                        ));
                    }
                }
                Ok((Option::Some(v), p2))
            },
            Err(e) => {
                proof {
                    assert forall|ov: Option<ValueV>|
                        opt_value_fits(ov) && pos + opt_value_enc(ov).len() <= buf@.len()
                            && buf@.subrange(pos as int, pos + opt_value_enc(ov).len())
                            =~= opt_value_enc(ov) implies false by {
                        lemma_byte_at(buf@, pos as int, opt_value_enc(ov), 0);
                        let w = ov->0;
                        lemma_chunk_split(buf@, pos as int, seq![1u8], value_enc(w));
                        assert(buf@.subrange(pos + 1, pos + 1 + value_enc(w).len()) =~= value_enc(
                            w,
                        ));
                    }
                }
                Err(e)
            },
        }
    } else {
        proof {
            assert forall|ov: Option<ValueV>|
                opt_value_fits(ov) && pos + opt_value_enc(ov).len() <= buf@.len()
                    && buf@.subrange(pos as int, pos + opt_value_enc(ov).len()) =~= opt_value_enc(
                    ov,
                ) implies false by {
                lemma_byte_at(buf@, pos as int, opt_value_enc(ov), 0);
            }
        }
        Err(KvError::FrameError)
    }
}

pub open spec fn pair_decode_sound(buf: Seq<u8>, pos: int, r: Result<(Kvpair, usize), KvError>) -> bool {
    r matches Ok(p) ==> {
        &&& pos <= p.1 <= buf.len()
        &&& pair_fits(p.0@)
        &&& p.1 == pos + pair_enc(p.0@).len()
        &&& buf.subrange(pos, p.1 as int) =~= pair_enc(p.0@)
    }
}

pub open spec fn pair_decode_complete(buf: Seq<u8>, pos: int, r: Result<(Kvpair, usize), KvError>) -> bool {
    forall|q: KvpairV|
        pair_fits(q) && pos + pair_enc(q).len() <= buf.len() && buf.subrange(
            pos,
            pos + pair_enc(q).len(),
        ) =~= pair_enc(q) ==> (r matches Ok(p) && p.0@ == q && p.1 == pos + pair_enc(q).len())
}

/// Reads one pair starting at `pos`.
#[verifier::rlimit(100)]
pub fn decode_pair_at(buf: &[u8], pos: usize) -> (r: Result<(Kvpair, usize), KvError>)
    ensures
        pair_decode_sound(buf@, pos as int, r),
        pair_decode_complete(buf@, pos as int, r),
{
    let (key, p1) = match decode_str_at(buf, pos) {
        Ok(p) => p,
        Err(e) => {
            proof {
                assert forall|q: KvpairV|
                    pair_fits(q) && pos + pair_enc(q).len() <= buf@.len() && buf@.subrange(
                        pos as int,
                        pos + pair_enc(q).len(),
                    ) =~= pair_enc(q) implies false by {
                    lemma_chunk_split(buf@, pos as int, str_enc(q.key), opt_value_enc(q.value));
                    assert(buf@.subrange(pos as int, pos + 4 + encode_utf8(q.key).len())
                        =~= str_enc(q.key));
                }
            }
            return Err(e);
        },
    };
    match decode_opt_value_at(buf, p1) {
        Ok((ov, p2)) => {
            proof {
                assert(buf@.subrange(pos as int, p2 as int) =~= pair_enc(
                    KvpairV {
                        key: key@,
                        value: match ov {
                            Option::Some(v) => Option::Some(v@),
                            Option::None => Option::None,
                        },
                    },
                ));
                assert forall|q: KvpairV|
                    pair_fits(q) && pos + pair_enc(q).len() <= buf@.len() && buf@.subrange(
                        pos as int,
                        pos + pair_enc(q).len(),
                    ) =~= pair_enc(q) implies q.key == key@ && q.value == (match ov {
                    Option::Some(v) => Option::Some(v@),
                    Option::None => Option::None,
                }) && pos + pair_enc(q).len() == p2 by {
                    lemma_chunk_split(buf@, pos as int, str_enc(q.key), opt_value_enc(q.value));
                    assert(buf@.subrange(pos as int, pos + 4 + encode_utf8(q.key).len())
                        =~= str_enc(q.key));
                    assert(buf@.subrange(
                        pos + str_enc(q.key).len(),
                        pos + str_enc(q.key).len() + opt_value_enc(q.value).len(),
                    ) =~= opt_value_enc(q.value));
                }
            }
            Ok((Kvpair { key, value: ov }, p2))
        },
        Err(e) => {
            proof {
                assert forall|q: KvpairV|
                    pair_fits(q) && pos + pair_enc(q).len() <= buf@.len() && buf@.subrange(
                        pos as int,
                        pos + pair_enc(q).len(),
                    ) =~= pair_enc(q) implies false by {
                    lemma_chunk_split(buf@, pos as int, str_enc(q.key), opt_value_enc(q.value));
                    assert(buf@.subrange(pos as int, pos + 4 + encode_utf8(q.key).len())
                        =~= str_enc(q.key));
                    assert(buf@.subrange(
                        pos + str_enc(q.key).len(),
                        pos + str_enc(q.key).len() + opt_value_enc(q.value).len(),
                    ) =~= opt_value_enc(q.value));
                }
            }
            Err(e)
        },
    }
}

/// The view of an optional pair.
pub open spec fn op_view(op: Option<Kvpair>) -> Option<KvpairV> {
    match op {
        Option::Some(p) => Option::Some(p@),
        Option::None => Option::None,
    }
}

/// The encoding of an optional pair: a presence byte, then the pair.
pub open spec fn opt_pair_enc(op: Option<KvpairV>) -> Seq<u8> {
    match op {
        Option::None => seq![0u8],
        Option::Some(p) => seq![1u8] + pair_enc(p),
    }
}

pub open spec fn opt_pair_fits(op: Option<KvpairV>) -> bool {
    match op {
        Option::None => true,
        Option::Some(p) => pair_fits(p),
    }
}

/// The tagged encoding of one request: a command byte, then its fields.
pub open spec fn req_enc(r: Option<ReqV>) -> Seq<u8> {
    match r {
        Option::None => seq![0u8],
        Option::Some(ReqV::Hget { table, key }) => seq![1u8] + str_enc(table) + str_enc(key),
        Option::Some(ReqV::Hgetall { table }) => seq![2u8] + str_enc(table),
        Option::Some(ReqV::Hset { table, pair }) => seq![3u8] + str_enc(table) + opt_pair_enc(
            pair,
        ),
    }
}

pub open spec fn req_fits(r: Option<ReqV>) -> bool {
    match r {
        Option::None => true,
        Option::Some(ReqV::Hget { table, key }) => len_fits(encode_utf8(table).len()) && len_fits(
            encode_utf8(key).len(),
        ),
        Option::Some(ReqV::Hgetall { table }) => len_fits(encode_utf8(table).len()),
        Option::Some(ReqV::Hset { table, pair }) => len_fits(encode_utf8(table).len())
            && opt_pair_fits(pair),
    }
}

/// Appends the encoding of an optional pair.
pub fn encode_opt_pair(op: &Option<Kvpair>, buf: &mut Vec<u8>)
    requires
        opt_pair_fits(op_view(*op)),
    ensures
        final(buf)@ =~= old(buf)@ + opt_pair_enc(op_view(*op)),
{
    match op {
        Option::None => {
            buf.push(0u8);
        },
        Option::Some(p) => {
            buf.push(1u8);
            encode_pair(p, buf);
        },
    }
}

/// Appends the encoding of one request.
pub fn encode_request_body(c: &CommandRequest, buf: &mut Vec<u8>)
    requires
        req_fits(c@),
    ensures
        final(buf)@ =~= old(buf)@ + req_enc(c@),
{
    match &c.request_data {
        Option::None => {
            buf.push(0u8);
        },
        Option::Some(RequestData::Hget(h)) => {
            buf.push(1u8);
            encode_str(h.table.as_str(), buf);
            encode_str(h.key.as_str(), buf);
        },
        Option::Some(RequestData::Hgetall(h)) => {
            buf.push(2u8);
            encode_str(h.table.as_str(), buf);
        },
        Option::Some(RequestData::Hset(h)) => {
            buf.push(3u8);
            encode_str(h.table.as_str(), buf);
            encode_opt_pair(&h.pair, buf);
        },
    }
}

pub open spec fn req_decode_sound(buf: Seq<u8>, pos: int, r: Result<(CommandRequest, usize), KvError>) -> bool {
    r matches Ok(p) ==> {
        &&& pos < p.1 <= buf.len()
        &&& req_fits(p.0@)
        &&& p.1 == pos + req_enc(p.0@).len()
        &&& buf.subrange(pos, p.1 as int) =~= req_enc(p.0@)
    }
}

pub open spec fn req_decode_complete(buf: Seq<u8>, pos: int, r: Result<(CommandRequest, usize), KvError>) -> bool {
    forall|c: Option<ReqV>|
        req_fits(c) && pos + req_enc(c).len() <= buf.len() && buf.subrange(
            pos,
            pos + req_enc(c).len(),
        ) =~= req_enc(c) ==> (r matches Ok(p) && p.0@ == c && p.1 == pos + req_enc(c).len())
}

/// Reads the fields of a lookup request whose command byte was already seen.
#[verifier::rlimit(100)]
#[verifier::spinoff_prover]
fn decode_req_hget(buf: &[u8], pos: usize) -> (r: Result<(CommandRequest, usize), KvError>)
    requires
        pos < buf@.len(),
        buf@.len() <= usize::MAX,
        buf@[pos as int] == 1u8,
    ensures
        req_decode_sound(buf@, pos as int, r),
        req_decode_complete(buf@, pos as int, r),
{
    let (table, p1) = match decode_str_at(buf, pos + 1) {
        Ok(p) => p,
        Err(e) => {
            proof {
                assert forall|c: Option<ReqV>|
                    req_fits(c) && pos + req_enc(c).len() <= buf@.len() && buf@.subrange(
                        pos as int,
                        pos + req_enc(c).len(),
                    ) =~= req_enc(c) implies false by {
                    lemma_byte_at(buf@, pos as int, req_enc(c), 0);
                    let t = c->Some_0->Hget_table;
                    let k = c->Some_0->Hget_key;
                    assert(req_enc(c) =~= seq![1u8] + (str_enc(t) + str_enc(k)));
                    lemma_chunk_split(buf@, pos as int, seq![1u8], str_enc(t) + str_enc(k));
                    lemma_chunk_split(buf@, pos + 1, str_enc(t), str_enc(k));
                    assert(buf@.subrange(pos + 1, pos + 1 + 4 + encode_utf8(t).len()) =~= str_enc(
                        t,
                    ));
                }
            }
            return Err(e);
        },
    };
    match decode_str_at(buf, p1) {
        Ok((key, p2)) => {
            proof {
                assert(buf@.subrange(pos as int, p2 as int) =~= req_enc(
                    Option::Some(ReqV::Hget { table: table@, key: key@ }),
                ));
                assert forall|c: Option<ReqV>|
                    req_fits(c) && pos + req_enc(c).len() <= buf@.len() && buf@.subrange(
                        pos as int,
                        pos + req_enc(c).len(),
                    ) =~= req_enc(c) implies c == Option::Some(
                    ReqV::Hget { table: table@, key: key@ },
                ) && pos + req_enc(c).len() == p2 by {
                    lemma_byte_at(buf@, pos as int, req_enc(c), 0);
                    let t = c->Some_0->Hget_table;
                    let k = c->Some_0->Hget_key;
                    assert(req_enc(c) =~= seq![1u8] + (str_enc(t) + str_enc(k)));
                    lemma_chunk_split(buf@, pos as int, seq![1u8], str_enc(t) + str_enc(k));
                    lemma_chunk_split(buf@, pos + 1, str_enc(t), str_enc(k));
                    assert(buf@.subrange(pos + 1, pos + 1 + 4 + encode_utf8(t).len()) =~= str_enc(
                        t,
                    ));
                    assert(buf@.subrange(
                        pos + 1 + str_enc(t).len(),
                        pos + 1 + str_enc(t).len() + 4 + encode_utf8(k).len(),
                    ) =~= str_enc(k));
                }
            }
            Ok((
                CommandRequest {
                    request_data: Option::Some(RequestData::Hget(Hget { table, key })),
                },
                p2,
            ))
        },
        Err(e) => {
            proof {
                assert forall|c: Option<ReqV>|
                    req_fits(c) && pos + req_enc(c).len() <= buf@.len() && buf@.subrange(
                        pos as int,
                        pos + req_enc(c).len(),
                    ) =~= req_enc(c) implies false by {
                    lemma_byte_at(buf@, pos as int, req_enc(c), 0);
                    let t = c->Some_0->Hget_table;
                    let k = c->Some_0->Hget_key;
                    assert(req_enc(c) =~= seq![1u8] + (str_enc(t) + str_enc(k)));
                    lemma_chunk_split(buf@, pos as int, seq![1u8], str_enc(t) + str_enc(k));
                    lemma_chunk_split(buf@, pos + 1, str_enc(t), str_enc(k));
                    assert(buf@.subrange(pos + 1, pos + 1 + 4 + encode_utf8(t).len()) =~= str_enc(
                        t,
                    ));
                    assert(buf@.subrange(
                        pos + 1 + str_enc(t).len(),
                        pos + 1 + str_enc(t).len() + 4 + encode_utf8(k).len(),
                    ) =~= str_enc(k));
                }
            }
            Err(e)
        },
    }
}

/// Reads the field of a snapshot request whose command byte was already seen.
#[verifier::rlimit(100)]
#[verifier::spinoff_prover]
fn decode_req_hgetall(buf: &[u8], pos: usize) -> (r: Result<(CommandRequest, usize), KvError>)
    requires
        pos < buf@.len(),
        buf@.len() <= usize::MAX,
        buf@[pos as int] == 2u8,
    ensures
        req_decode_sound(buf@, pos as int, r),
        req_decode_complete(buf@, pos as int, r),
{
    match decode_str_at(buf, pos + 1) {
        Ok((table, p1)) => {
            proof {
                assert(buf@.subrange(pos as int, p1 as int) =~= req_enc(
                    Option::Some(ReqV::Hgetall { table: table@ }),
                ));
                assert forall|c: Option<ReqV>|
                    req_fits(c) && pos + req_enc(c).len() <= buf@.len() && buf@.subrange(
                        pos as int,
                        pos + req_enc(c).len(),
                    ) =~= req_enc(c) implies c == Option::Some(ReqV::Hgetall { table: table@ })
                    && pos + req_enc(c).len() == p1 by {
                    lemma_byte_at(buf@, pos as int, req_enc(c), 0);
                    let t = c->Some_0->Hgetall_table;
                    lemma_chunk_split(buf@, pos as int, seq![2u8], str_enc(t));
                    assert(buf@.subrange(pos + 1, pos + 1 + 4 + encode_utf8(t).len()) =~= str_enc(
                        t,
                    ));
                }
            }
            Ok((
                CommandRequest {
                    request_data: Option::Some(RequestData::Hgetall(Hgetall { table })),
                },
                p1,
            ))
        },
        Err(e) => {
            proof {
                assert forall|c: Option<ReqV>|
                    req_fits(c) && pos + req_enc(c).len() <= buf@.len() && buf@.subrange(
                        pos as int,
                        pos + req_enc(c).len(),
                    ) =~= req_enc(c) implies false by {
                    lemma_byte_at(buf@, pos as int, req_enc(c), 0);
                    let t = c->Some_0->Hgetall_table;
                    lemma_chunk_split(buf@, pos as int, seq![2u8], str_enc(t));
                    assert(buf@.subrange(pos + 1, pos + 1 + 4 + encode_utf8(t).len()) =~= str_enc(
                        t,
                    ));
                }
            }
            Err(e)
        },
    }
}

/// What a write-request encoding at `pos` pins down: the variant, and where
/// its two fields sit.
proof fn lemma_req_hset_parts(buf: Seq<u8>, pos: int, c: Option<ReqV>)
    requires
        0 <= pos < buf.len(),
        buf[pos] == 3u8,
        req_fits(c),
        pos + req_enc(c).len() <= buf.len(),
        buf.subrange(pos, pos + req_enc(c).len()) == req_enc(c),
    ensures
        c matches Option::Some(ReqV::Hset { table: t, pair: opv }) && {
            &&& buf.subrange(pos + 1, pos + 1 + 4 + encode_utf8(t).len()) =~= str_enc(t)
            &&& buf.subrange(
                pos + 1 + str_enc(t).len(),
                pos + 1 + str_enc(t).len() + opt_pair_enc(opv).len(),
            ) =~= opt_pair_enc(opv)
            &&& pos + req_enc(c).len() == pos + 1 + str_enc(t).len() + opt_pair_enc(opv).len()
        },
{
    lemma_byte_at(buf, pos, req_enc(c), 0);
    let t = c->Some_0->Hset_table;
    let opv = c->Some_0->Hset_pair;
    assert(req_enc(c) =~= seq![3u8] + (str_enc(t) + opt_pair_enc(opv)));
    lemma_chunk_split(buf, pos, seq![3u8], str_enc(t) + opt_pair_enc(opv));
    lemma_chunk_split(buf, pos + 1, str_enc(t), opt_pair_enc(opv));
    assert(buf.subrange(pos + 1, pos + 1 + 4 + encode_utf8(t).len()) =~= str_enc(t));
}

/// Reads the fields of a write request whose command byte was already seen.
#[verifier::rlimit(100)]
#[verifier::spinoff_prover]
fn decode_req_hset(buf: &[u8], pos: usize) -> (r: Result<(CommandRequest, usize), KvError>)
    requires
        pos < buf@.len(),
        buf@.len() <= usize::MAX,
        buf@[pos as int] == 3u8,
    ensures
        req_decode_sound(buf@, pos as int, r),
        req_decode_complete(buf@, pos as int, r),
{
    let (table, p1) = match decode_str_at(buf, pos + 1) {
        Ok(p) => p,
        Err(e) => {
            proof {
                assert forall|c: Option<ReqV>|
                    req_fits(c) && pos + req_enc(c).len() <= buf@.len() && buf@.subrange(
                        pos as int,
                        pos + req_enc(c).len(),
                    ) =~= req_enc(c) implies false by {
                    lemma_byte_at(buf@, pos as int, req_enc(c), 0);
                    let t = c->Some_0->Hset_table;
                    let opv = c->Some_0->Hset_pair;
                    assert(req_enc(c) =~= seq![3u8] + (str_enc(t) + opt_pair_enc(opv)));
                    lemma_chunk_split(buf@, pos as int, seq![3u8], str_enc(t) + opt_pair_enc(
                        opv,
                    ));
                    lemma_chunk_split(buf@, pos + 1, str_enc(t), opt_pair_enc(opv));
                    assert(buf@.subrange(pos + 1, pos + 1 + 4 + encode_utf8(t).len()) =~= str_enc(
                        t,
                    ));
                }
            }
            return Err(e);
        },
    };
    let (op, p2) = match decode_opt_pair_at(buf, p1) {
        Ok(p) => p,
        Err(e) => {
            proof {
                assert forall|c: Option<ReqV>|
                    req_fits(c) && pos + req_enc(c).len() <= buf@.len() && buf@.subrange(
                        pos as int,
                        pos + req_enc(c).len(),
                    ) =~= req_enc(c) implies false by {
                    lemma_byte_at(buf@, pos as int, req_enc(c), 0);
                    let t = c->Some_0->Hset_table;
                    let opv = c->Some_0->Hset_pair;
                    assert(req_enc(c) =~= seq![3u8] + (str_enc(t) + opt_pair_enc(opv)));
                    lemma_chunk_split(buf@, pos as int, seq![3u8], str_enc(t) + opt_pair_enc(
                        opv,
                    ));
                    lemma_chunk_split(buf@, pos + 1, str_enc(t), opt_pair_enc(opv));
                    assert(buf@.subrange(pos + 1, pos + 1 + 4 + encode_utf8(t).len()) =~= str_enc(
                        t,
                    ));
                    assert(buf@.subrange(
                        pos + 1 + str_enc(t).len(),
                        pos + 1 + str_enc(t).len() + opt_pair_enc(opv).len(),
                    ) =~= opt_pair_enc(opv));
                }
            }
            return Err(e);
        },
    };
    proof {
        assert(buf@.subrange(pos as int, p2 as int) =~= req_enc(
            Option::Some(ReqV::Hset { table: table@, pair: op_view(op) }),
        ));
        assert forall|c: Option<ReqV>|
            req_fits(c) && pos + req_enc(c).len() <= buf@.len() && buf@.subrange(
                pos as int,
                pos + req_enc(c).len(),
            ) =~= req_enc(c) implies c == Option::Some(
            ReqV::Hset { table: table@, pair: op_view(op) },
        ) && pos + req_enc(c).len() == p2 by {
            lemma_req_hset_parts(buf@, pos as int, c);
        }
    }
    Ok((
        CommandRequest { request_data: Option::Some(RequestData::Hset(Hset { table, pair: op })) },
        p2,
    ))
}

/// Reads one request starting at `pos`.
pub fn decode_request_at(buf: &[u8], pos: usize) -> (r: Result<(CommandRequest, usize), KvError>)
    ensures
        req_decode_sound(buf@, pos as int, r),
        req_decode_complete(buf@, pos as int, r),
{
    let blen = buf.len();
    if pos >= blen {
        return Err(KvError::FrameError);
    }
    let tag = buf[pos];
    if tag == 0 {
        proof {
            assert(buf@.subrange(pos as int, pos + 1) =~= req_enc(Option::None));
            assert forall|c: Option<ReqV>|
                req_fits(c) && pos + req_enc(c).len() <= buf@.len() && buf@.subrange(
                    pos as int,
                    pos + req_enc(c).len(),
                ) =~= req_enc(c) implies c is None && req_enc(c).len() == 1 by {
                lemma_byte_at(buf@, pos as int, req_enc(c), 0);
            }
        }
        return Ok((CommandRequest { request_data: Option::None }, pos + 1));
    }
    if tag == 1 {
        return decode_req_hget(buf, pos);
    }
    if tag == 2 {
        return decode_req_hgetall(buf, pos);
    }
    if tag == 3 {
        return decode_req_hset(buf, pos);
    }
    proof {
        assert forall|c: Option<ReqV>|
            req_fits(c) && pos + req_enc(c).len() <= buf@.len() && buf@.subrange(
                pos as int,
                pos + req_enc(c).len(),
            ) =~= req_enc(c) implies false by {
            lemma_byte_at(buf@, pos as int, req_enc(c), 0);
        }
    }
    Err(KvError::FrameError)
}

pub open spec fn opt_pair_decode_sound(buf: Seq<u8>, pos: int, r: Result<(Option<Kvpair>, usize), KvError>) -> bool {
    r matches Ok(p) ==> {
        &&& pos < p.1 <= buf.len()
        &&& opt_pair_fits(op_view(p.0))
        &&& p.1 == pos + opt_pair_enc(op_view(p.0)).len()
        &&& buf.subrange(pos, p.1 as int) =~= opt_pair_enc(op_view(p.0))
    }
}

pub open spec fn opt_pair_decode_complete(buf: Seq<u8>, pos: int, r: Result<(Option<Kvpair>, usize), KvError>) -> bool {
    forall|op: Option<KvpairV>|
        opt_pair_fits(op) && pos + opt_pair_enc(op).len() <= buf.len() && buf.subrange(
            pos,
            pos + opt_pair_enc(op).len(),
        ) =~= opt_pair_enc(op) ==> (r matches Ok(p) && op_view(p.0) == op && p.1 == pos
            + opt_pair_enc(op).len())
}

/// Reads an optional pair starting at `pos`.
#[verifier::rlimit(100)]
pub fn decode_opt_pair_at(buf: &[u8], pos: usize) -> (r: Result<(Option<Kvpair>, usize), KvError>)
    ensures
        opt_pair_decode_sound(buf@, pos as int, r),
        opt_pair_decode_complete(buf@, pos as int, r),
{
    if pos >= buf.len() {
        return Err(KvError::FrameError);
    }
    let tag = buf[pos];
    if tag == 0 {
        proof {
            assert(buf@.subrange(pos as int, pos + 1) =~= opt_pair_enc(Option::None));
            assert forall|op: Option<KvpairV>|
                opt_pair_fits(op) && pos + opt_pair_enc(op).len() <= buf@.len() && buf@.subrange(
                    pos as int,
                    pos + opt_pair_enc(op).len(),
                ) =~= opt_pair_enc(op) implies op is None && opt_pair_enc(op).len() == 1 by {
                lemma_byte_at(buf@, pos as int, opt_pair_enc(op), 0);
            }
        }
        return Ok((Option::None, pos + 1));
    }
    if tag == 1 {
        match decode_pair_at(buf, pos + 1) {
            Ok((p, p2)) => {
                proof {
                    assert(buf@.subrange(pos as int, p2 as int) =~= opt_pair_enc(
                        Option::Some(p@),
                    ));
                    assert forall|op: Option<KvpairV>|
                        opt_pair_fits(op) && pos + opt_pair_enc(op).len() <= buf@.len()
                            && buf@.subrange(pos as int, pos + opt_pair_enc(op).len())
                            =~= opt_pair_enc(op) implies op == Option::Some(p@) && pos
                        + opt_pair_enc(op).len() == p2 by {
                        lemma_byte_at(buf@, pos as int, opt_pair_enc(op), 0);
                        let q = op->0;
                        lemma_chunk_split(buf@, pos as int, seq![1u8], pair_enc(q));
                        assert(buf@.subrange(pos + 1, pos + 1 + pair_enc(q).len()) =~= pair_enc(
                            q,
                        ));
                    }
                }
                return Ok((Option::Some(p), p2));
            },
            Err(e) => {
                proof {
                    assert forall|op: Option<KvpairV>|
                        opt_pair_fits(op) && pos + opt_pair_enc(op).len() <= buf@.len()
                            && buf@.subrange(pos as int, pos + opt_pair_enc(op).len())
                            =~= opt_pair_enc(op) implies false by {
                        lemma_byte_at(buf@, pos as int, opt_pair_enc(op), 0);
                        let q = op->0;
                        lemma_chunk_split(buf@, pos as int, seq![1u8], pair_enc(q));
                        assert(buf@.subrange(pos + 1, pos + 1 + pair_enc(q).len()) =~= pair_enc(
                            q,
                        ));
                    }
                }
                return Err(e);
            },
        }
    }
    proof {
        assert forall|op: Option<KvpairV>|
            opt_pair_fits(op) && pos + opt_pair_enc(op).len() <= buf@.len() && buf@.subrange(
                pos as int,
                pos + opt_pair_enc(op).len(),
            ) =~= opt_pair_enc(op) implies false by {
            lemma_byte_at(buf@, pos as int, opt_pair_enc(op), 0);
        }
    }
    Err(KvError::FrameError)
}

/// The concatenated encodings of a sequence of values.
pub open spec fn values_cat(vs: Seq<ValueV>) -> Seq<u8>
    decreases vs.len(),
{
    if vs.len() == 0 {
        Seq::<u8>::empty()
    } else {
        value_enc(vs[0]) + values_cat(vs.drop_first())
    }
}

pub open spec fn values_fit(vs: Seq<ValueV>) -> bool {
    vs.len() < 0x100000000 && (forall|i: int| 0 <= i < vs.len() ==> value_fits(#[trigger] vs[i]))
}

pub proof fn lemma_values_cat_snoc(vs: Seq<ValueV>, v: ValueV)
    ensures
        values_cat(vs.push(v)) =~= values_cat(vs) + value_enc(v),
    decreases vs.len(),
{
    if vs.len() == 0 {
        assert(vs.push(v).drop_first() =~= Seq::<ValueV>::empty());
        assert(vs.push(v)[0] == v);
        assert(values_cat(vs.push(v)) == value_enc(v) + values_cat(Seq::<ValueV>::empty()));
        assert(values_cat(vs) == Seq::<u8>::empty());
    } else {
        assert(vs.push(v).drop_first() =~= vs.drop_first().push(v));
        lemma_values_cat_snoc(vs.drop_first(), v);
        assert(vs.push(v)[0] == vs[0]);
        assert(vs.push(v).len() > 0);
        assert(values_cat(vs.push(v)) == value_enc(vs[0]) + values_cat(vs.push(v).drop_first()));
        assert(values_cat(vs.push(v).drop_first()) == values_cat(vs.drop_first().push(v)));
        assert(values_cat(vs) == value_enc(vs[0]) + values_cat(vs.drop_first()));
    }
}

pub proof fn lemma_values_cat_take_succ(vs: Seq<ValueV>, i: int)
    requires
        0 <= i < vs.len(),
    ensures
        values_cat(vs.take(i + 1)) =~= values_cat(vs.take(i)) + value_enc(vs[i]),
{
    assert(vs.take(i + 1) =~= vs.take(i).push(vs[i]));
    lemma_values_cat_snoc(vs.take(i), vs[i]);
}

pub proof fn lemma_values_cat_split(vs: Seq<ValueV>, i: int)
    requires
        0 <= i <= vs.len(),
    ensures
        values_cat(vs) =~= values_cat(vs.take(i)) + values_cat(vs.skip(i)),
    decreases i,
{
    if i == 0 {
        assert(vs.take(0) =~= Seq::<ValueV>::empty());
        assert(vs.skip(0) =~= vs);
    } else {
        lemma_values_cat_split(vs, i - 1);
        lemma_values_cat_take_succ(vs, i - 1);
        assert(vs.skip(i - 1).len() > 0);
        assert(vs.skip(i - 1)[0] == vs[i - 1]);
        assert(vs.skip(i - 1).drop_first() =~= vs.skip(i));
        assert(values_cat(vs.skip(i - 1)) =~= value_enc(vs[i - 1]) + values_cat(vs.skip(i)));
        assert(values_cat(vs.take(i)) + values_cat(vs.skip(i)) =~= values_cat(vs.take(i - 1))
            + (value_enc(vs[i - 1]) + values_cat(vs.skip(i))));
        assert(values_cat(vs.take(i - 1)) + values_cat(vs.skip(i - 1)) =~= values_cat(
            vs.take(i - 1),
        ) + (value_enc(vs[i - 1]) + values_cat(vs.skip(i))));
    }
}

/// The view of a vector of values.
pub open spec fn vals_view(vs: Seq<Value>) -> Seq<ValueV> {
    vs.map_values(|v: Value| v@)
}

/// The length-prefixed encoding of a list of values.
pub open spec fn values_list_enc(vs: Seq<ValueV>) -> Seq<u8> {
    u32_be(vs.len() as u32) + values_cat(vs)
}

/// Appends the length-prefixed encoding of a list of values.
pub fn encode_values_list(values: &Vec<Value>, buf: &mut Vec<u8>)
    requires
        values_fit(vals_view(values@)),
    ensures
        final(buf)@ =~= old(buf)@ + values_list_enc(vals_view(values@)),
{
    let ghost vs = vals_view(values@);
    encode_u32_be(values.len() as u32, buf);
    let ghost base = buf@;
    let mut i: usize = 0;
    while i < values.len()
        invariant
            0 <= i <= values@.len(),
            vs == vals_view(values@),
            values_fit(vs),
            vs.len() == values@.len(),
            buf@ =~= base + values_cat(vs.take(i as int)),
        decreases values@.len() - i,
    {
        proof {
            assert(vals_view(values@)[i as int] == values@[i as int]@);
        }
        encode_value(&values[i], buf);
        proof {
            lemma_values_cat_take_succ(vs, i as int);
            assert(base + values_cat(vs.take(i as int)) + value_enc(vs[i as int]) =~= base
                + values_cat(vs.take(i + 1)));
        }
        i = i + 1;
    }
    proof {
        assert(vs.take(vs.len() as int) =~= vs);
        assert(old(buf)@ + values_list_enc(vs) =~= base + values_cat(vs));
    }
}

/// Inside a buffer holding a value list, the element at position `i` begins
/// where the first `i` encodings end.
pub proof fn lemma_values_step(buf: Seq<u8>, p0: int, i: int, cursor: int, vs: Seq<ValueV>)
    requires
        0 <= p0,
        0 <= i < vs.len(),
        p0 + values_cat(vs).len() <= buf.len(),
        buf.subrange(p0, p0 + values_cat(vs).len()) == values_cat(vs),
        cursor == p0 + values_cat(vs.take(i)).len(),
    ensures
        cursor + value_enc(vs[i]).len() <= buf.len(),
        buf.subrange(cursor, cursor + value_enc(vs[i]).len()) =~= value_enc(vs[i]),
        values_cat(vs.take(i + 1)).len() == values_cat(vs.take(i)).len() + value_enc(vs[i]).len(),
{
    lemma_values_cat_split(vs, i);
    lemma_chunk_split(buf, p0, values_cat(vs.take(i)), values_cat(vs.skip(i)));
    assert(vs.skip(i).len() > 0);
    assert(vs.skip(i)[0] == vs[i]);
    assert(vs.skip(i).drop_first() =~= vs.skip(i + 1));
    assert(values_cat(vs.skip(i)) =~= value_enc(vs[i]) + values_cat(vs.skip(i + 1)));
    lemma_chunk_split(buf, cursor, value_enc(vs[i]), values_cat(vs.skip(i + 1)));
    lemma_values_cat_take_succ(vs, i);
}

pub open spec fn values_list_decode_sound(buf: Seq<u8>, pos: int, r: Result<(Vec<Value>, usize), KvError>) -> bool {
    r matches Ok(p) ==> {
        &&& pos + 4 <= p.1 <= buf.len()
        &&& values_fit(vals_view(p.0@))
        &&& p.1 == pos + values_list_enc(vals_view(p.0@)).len()
        &&& buf.subrange(pos, p.1 as int) =~= values_list_enc(vals_view(p.0@))
    }
}

/// One candidate list whose length-prefixed encoding sits at `pos`.
pub open spec fn vlist_sat(buf: Seq<u8>, pos: int, vs: Seq<ValueV>) -> bool {
    &&& values_fit(vs)
    &&& pos + values_list_enc(vs).len() <= buf.len()
    &&& buf.subrange(pos, pos + values_list_enc(vs).len()) =~= values_list_enc(vs)
}

pub open spec fn values_list_decode_complete(buf: Seq<u8>, pos: int, r: Result<(Vec<Value>, usize), KvError>) -> bool {
    forall|vs: Seq<ValueV>|
        vlist_sat(buf, pos, vs) ==> (r matches Ok(p) && vals_view(p.0@) == vs && p.1 == pos
            + values_list_enc(vs).len())
}

/// One candidate list whose bare concatenation sits at `p0` with `n` items.
pub open spec fn vl_sat(buf: Seq<u8>, p0: int, n: u32, vs: Seq<ValueV>) -> bool {
    &&& values_fit(vs)
    &&& vs.len() == n
    &&& p0 + values_cat(vs).len() <= buf.len()
    &&& buf.subrange(p0, p0 + values_cat(vs).len()) =~= values_cat(vs)
}

/// After `i` items, every candidate list agrees with what was decoded so far.
pub open spec fn vl_partial(buf: Seq<u8>, p0: int, n: u32, i: int, outv: Seq<ValueV>, cursor: int) -> bool {
    forall|vs: Seq<ValueV>|
        vl_sat(buf, p0, n, vs) ==> (outv == vs.take(i) && cursor == p0 + values_cat(
            vs.take(i),
        ).len())
}

/// One decoding step keeps every candidate list in agreement, and a failed
/// step refutes every candidate list.
pub proof fn lemma_vl_step(buf: Seq<u8>, p0: int, n: u32, i: int, outv: Seq<ValueV>, cursor: int, r: Result<(Value, usize), KvError>)
    requires
        0 <= p0 <= cursor,
        0 <= i < n,
        value_decode_complete(buf, cursor, r),
        vl_partial(buf, p0, n, i, outv, cursor),
    ensures
        r matches Ok(p) ==> vl_partial(buf, p0, n, i + 1, outv.push(p.0@), p.1 as int),
        r is Err ==> (forall|vs: Seq<ValueV>| !vl_sat(buf, p0, n, vs)),
{
    assert forall|vs: Seq<ValueV>| vl_sat(buf, p0, n, vs) implies (r matches Ok(p) && outv.push(
        p.0@,
    ) == vs.take(i + 1) && p.1 == p0 + values_cat(vs.take(i + 1)).len()) by {
        lemma_values_step(buf, p0, i, cursor, vs);
        lemma_values_cat_take_succ(vs, i);
        assert(r matches Ok(p) && p.0@ == vs[i] && p.1 == cursor + value_enc(vs[i]).len());
        let p = r->Ok_0;
        assert(outv.push(p.0@) =~= vs.take(i + 1));
    }
    if r is Err {
        assert forall|vs: Seq<ValueV>| !vl_sat(buf, p0, n, vs) by {
            if vl_sat(buf, p0, n, vs) {
                assert(r matches Ok(p) && outv.push(p.0@) == vs.take(i + 1) && p.1 == p0
                    + values_cat(vs.take(i + 1)).len());
            }
        }
    }
}

/// Reads a length-prefixed list of values starting at `pos`.
#[verifier::rlimit(100)]
#[verifier::spinoff_prover]
pub fn decode_values_list_at(buf: &[u8], pos: usize) -> (r: Result<(Vec<Value>, usize), KvError>)
    ensures
        values_list_decode_sound(buf@, pos as int, r),
        values_list_decode_complete(buf@, pos as int, r),
{
    let (n, p0) = match decode_u32_at(buf, pos) {
        Ok(p) => p,
        Err(e) => {
            proof {
                assert forall|vs: Seq<ValueV>| vlist_sat(buf@, pos as int, vs) implies false by {
                    assert(pos + 4 <= buf@.len());
                }
            }
            return Err(e);
        },
    };
    proof {
        assert forall|vs: Seq<ValueV>| vlist_sat(buf@, pos as int, vs) implies n == vs.len()
            && vl_sat(buf@, p0 as int, n, vs) by {
            lemma_chunk_split(buf@, pos as int, u32_be(vs.len() as u32), values_cat(vs));
            assert(buf@.subrange(pos as int, pos + 4) =~= u32_be(vs.len() as u32));
        }
    }
    let mut out: Vec<Value> = Vec::new();
    let mut cursor: usize = p0;
    let mut i: u32 = 0;
    proof {
        assert(vals_view(out@) =~= Seq::<ValueV>::empty());
        assert forall|vs: Seq<ValueV>| vl_sat(buf@, p0 as int, n, vs) implies (vals_view(out@)
            == vs.take(0) && cursor == p0 + values_cat(vs.take(0)).len()) by {
            assert(vs.take(0) =~= Seq::<ValueV>::empty());
            assert(values_cat(vs.take(0)) == Seq::<u8>::empty());
        }
    }
    while i < n
        invariant
            0 <= i <= n,
            out@.len() == i,
            values_fit(vals_view(out@)),
            pos + 4 == p0,
            p0 <= cursor <= buf@.len(),
            cursor == p0 + values_cat(vals_view(out@)).len(),
            buf@.subrange(p0 as int, cursor as int) =~= values_cat(vals_view(out@)),
            vl_partial(buf@, p0 as int, n, i as int, vals_view(out@), cursor as int),
            forall|vs: Seq<ValueV>|
                vlist_sat(buf@, pos as int, vs) ==> (n == vs.len() && vl_sat(
                    buf@,
                    p0 as int,
                    n,
                    vs,
                )),
        decreases n - i,
    {
        let ghost pre_out = vals_view(out@);
        let ghost pre_cursor = cursor as int;
        let step = decode_value_at(buf, cursor);
        proof {
            lemma_vl_step(buf@, p0 as int, n, i as int, pre_out, pre_cursor, step);
        }
        match step {
            Ok((v, p2)) => {
                proof {
                    lemma_values_cat_snoc(pre_out, v@);
                    assert(vals_view(out@.push(v)) =~= pre_out.push(v@));
                }
                out.push(v);
                cursor = p2;
            },
            Err(e) => {
                proof {
                    assert forall|vs: Seq<ValueV>| vlist_sat(buf@, pos as int, vs) implies
                    false by {
                        assert(vl_sat(buf@, p0 as int, n, vs));
                    }
                }
                return Err(e);
            },
        }
        i = i + 1;
    }
    proof {
        assert(buf@.subrange(pos as int, cursor as int) =~= buf@.subrange(pos as int, pos + 4)
            + buf@.subrange(p0 as int, cursor as int));
        assert(buf@.subrange(pos as int, pos + 4) =~= u32_be(n));
        assert(out@.len() == n);
        assert(buf@.subrange(pos as int, cursor as int) =~= values_list_enc(vals_view(out@)));
        assert forall|vs: Seq<ValueV>| vlist_sat(buf@, pos as int, vs) implies vals_view(out@)
            == vs && cursor == pos + values_list_enc(vs).len() by {
            assert(vl_sat(buf@, p0 as int, n, vs));
            assert(vs.take(vs.len() as int) =~= vs);
        }
    }
    Ok((out, cursor))
}

/// The concatenated encodings of a sequence of pairs.
pub open spec fn pairs_cat(vs: Seq<KvpairV>) -> Seq<u8>
    decreases vs.len(),
{
    if vs.len() == 0 {
        Seq::<u8>::empty()
    } else {
        pair_enc(vs[0]) + pairs_cat(vs.drop_first())
    }
}

pub open spec fn pairs_fit(vs: Seq<KvpairV>) -> bool {
    vs.len() < 0x100000000 && (forall|i: int| 0 <= i < vs.len() ==> pair_fits(#[trigger] vs[i]))
}

pub proof fn lemma_pairs_cat_snoc(vs: Seq<KvpairV>, v: KvpairV)
    ensures
        pairs_cat(vs.push(v)) =~= pairs_cat(vs) + pair_enc(v),
    decreases vs.len(),
{
    if vs.len() == 0 {
        assert(vs.push(v).drop_first() =~= Seq::<KvpairV>::empty());
        assert(vs.push(v)[0] == v);
        assert(pairs_cat(vs.push(v)) == pair_enc(v) + pairs_cat(Seq::<KvpairV>::empty()));
        assert(pairs_cat(vs) == Seq::<u8>::empty());
    } else {
        assert(vs.push(v).drop_first() =~= vs.drop_first().push(v));
        lemma_pairs_cat_snoc(vs.drop_first(), v);
        assert(vs.push(v)[0] == vs[0]);
        assert(vs.push(v).len() > 0);
        assert(pairs_cat(vs.push(v)) == pair_enc(vs[0]) + pairs_cat(vs.push(v).drop_first()));
        assert(pairs_cat(vs.push(v).drop_first()) == pairs_cat(vs.drop_first().push(v)));
        assert(pairs_cat(vs) == pair_enc(vs[0]) + pairs_cat(vs.drop_first()));
    }
}

pub proof fn lemma_pairs_cat_take_succ(vs: Seq<KvpairV>, i: int)
    requires
        0 <= i < vs.len(),
    ensures
        pairs_cat(vs.take(i + 1)) =~= pairs_cat(vs.take(i)) + pair_enc(vs[i]),
{
    assert(vs.take(i + 1) =~= vs.take(i).push(vs[i]));
    lemma_pairs_cat_snoc(vs.take(i), vs[i]);
}

pub proof fn lemma_pairs_cat_split(vs: Seq<KvpairV>, i: int)
    requires
        0 <= i <= vs.len(),
    ensures
        pairs_cat(vs) =~= pairs_cat(vs.take(i)) + pairs_cat(vs.skip(i)),
    decreases i,
{
    if i == 0 {
        assert(vs.take(0) =~= Seq::<KvpairV>::empty());
        assert(vs.skip(0) =~= vs);
    } else {
        lemma_pairs_cat_split(vs, i - 1);
        lemma_pairs_cat_take_succ(vs, i - 1);
        assert(vs.skip(i - 1).len() > 0);
        assert(vs.skip(i - 1)[0] == vs[i - 1]);
        assert(vs.skip(i - 1).drop_first() =~= vs.skip(i));
        assert(pairs_cat(vs.skip(i - 1)) =~= pair_enc(vs[i - 1]) + pairs_cat(vs.skip(i)));
        assert(pairs_cat(vs.take(i)) + pairs_cat(vs.skip(i)) =~= pairs_cat(vs.take(i - 1))
            + (pair_enc(vs[i - 1]) + pairs_cat(vs.skip(i))));
        assert(pairs_cat(vs.take(i - 1)) + pairs_cat(vs.skip(i - 1)) =~= pairs_cat(
            vs.take(i - 1),
        ) + (pair_enc(vs[i - 1]) + pairs_cat(vs.skip(i))));
    }
}

/// The view of a vector of pairs.
pub open spec fn prs_view(vs: Seq<Kvpair>) -> Seq<KvpairV> {
    vs.map_values(|v: Kvpair| v@)
}

/// The length-prefixed encoding of a list of pairs.
pub open spec fn pairs_list_enc(vs: Seq<KvpairV>) -> Seq<u8> {
    u32_be(vs.len() as u32) + pairs_cat(vs)
}

/// Appends the length-prefixed encoding of a list of pairs.
pub fn encode_pairs_list(values: &Vec<Kvpair>, buf: &mut Vec<u8>)
    requires
        pairs_fit(prs_view(values@)),
    ensures
        final(buf)@ =~= old(buf)@ + pairs_list_enc(prs_view(values@)),
{
    let ghost vs = prs_view(values@);
    encode_u32_be(values.len() as u32, buf);
    let ghost base = buf@;
    let mut i: usize = 0;
    while i < values.len()
        invariant
            0 <= i <= values@.len(),
            vs == prs_view(values@),
            pairs_fit(vs),
            vs.len() == values@.len(),
            buf@ =~= base + pairs_cat(vs.take(i as int)),
        decreases values@.len() - i,
    {
        proof {
            assert(prs_view(values@)[i as int] == values@[i as int]@);
        }
        encode_pair(&values[i], buf);
        proof {
            lemma_pairs_cat_take_succ(vs, i as int);
            assert(base + pairs_cat(vs.take(i as int)) + pair_enc(vs[i as int]) =~= base
                + pairs_cat(vs.take(i + 1)));
        }
        i = i + 1;
    }
    proof {
        assert(vs.take(vs.len() as int) =~= vs);
        assert(old(buf)@ + pairs_list_enc(vs) =~= base + pairs_cat(vs));
    }
}

/// Inside a buffer holding a value list, the element at position `i` begins
/// where the first `i` encodings end.
pub proof fn lemma_pairs_step(buf: Seq<u8>, p0: int, i: int, cursor: int, vs: Seq<KvpairV>)
    requires
        0 <= p0,
        0 <= i < vs.len(),
        p0 + pairs_cat(vs).len() <= buf.len(),
        buf.subrange(p0, p0 + pairs_cat(vs).len()) == pairs_cat(vs),
        cursor == p0 + pairs_cat(vs.take(i)).len(),
    ensures
        cursor + pair_enc(vs[i]).len() <= buf.len(),
        buf.subrange(cursor, cursor + pair_enc(vs[i]).len()) =~= pair_enc(vs[i]),
        pairs_cat(vs.take(i + 1)).len() == pairs_cat(vs.take(i)).len() + pair_enc(vs[i]).len(),
{
    lemma_pairs_cat_split(vs, i);
    lemma_chunk_split(buf, p0, pairs_cat(vs.take(i)), pairs_cat(vs.skip(i)));
    assert(vs.skip(i).len() > 0);
    assert(vs.skip(i)[0] == vs[i]);
    assert(vs.skip(i).drop_first() =~= vs.skip(i + 1));
    assert(pairs_cat(vs.skip(i)) =~= pair_enc(vs[i]) + pairs_cat(vs.skip(i + 1)));
    lemma_chunk_split(buf, cursor, pair_enc(vs[i]), pairs_cat(vs.skip(i + 1)));
    lemma_pairs_cat_take_succ(vs, i);
}

pub open spec fn pairs_list_decode_sound(buf: Seq<u8>, pos: int, r: Result<(Vec<Kvpair>, usize), KvError>) -> bool {
    r matches Ok(p) ==> {
        &&& pos + 4 <= p.1 <= buf.len()
        &&& pairs_fit(prs_view(p.0@))
        &&& p.1 == pos + pairs_list_enc(prs_view(p.0@)).len()
        &&& buf.subrange(pos, p.1 as int) =~= pairs_list_enc(prs_view(p.0@))
    }
}

/// One candidate list whose length-prefixed encoding sits at `pos`.
pub open spec fn plist_sat(buf: Seq<u8>, pos: int, vs: Seq<KvpairV>) -> bool {
    &&& pairs_fit(vs)
    &&& pos + pairs_list_enc(vs).len() <= buf.len()
    &&& buf.subrange(pos, pos + pairs_list_enc(vs).len()) =~= pairs_list_enc(vs)
}

pub open spec fn pairs_list_decode_complete(buf: Seq<u8>, pos: int, r: Result<(Vec<Kvpair>, usize), KvError>) -> bool {
    forall|vs: Seq<KvpairV>|
        plist_sat(buf, pos, vs) ==> (r matches Ok(p) && prs_view(p.0@) == vs && p.1 == pos
            + pairs_list_enc(vs).len())
}

/// One candidate list whose bare concatenation sits at `p0` with `n` items.
pub open spec fn pl_sat(buf: Seq<u8>, p0: int, n: u32, vs: Seq<KvpairV>) -> bool {
    &&& pairs_fit(vs)
    &&& vs.len() == n
    &&& p0 + pairs_cat(vs).len() <= buf.len()
    &&& buf.subrange(p0, p0 + pairs_cat(vs).len()) =~= pairs_cat(vs)
}

/// After `i` items, every candidate list agrees with what was decoded so far.
pub open spec fn pl_partial(buf: Seq<u8>, p0: int, n: u32, i: int, outv: Seq<KvpairV>, cursor: int) -> bool {
    forall|vs: Seq<KvpairV>|
        pl_sat(buf, p0, n, vs) ==> (outv == vs.take(i) && cursor == p0 + pairs_cat(
            vs.take(i),
        ).len())
}

/// One decoding step keeps every candidate list in agreement, and a failed
/// step refutes every candidate list.
pub proof fn lemma_pl_step(buf: Seq<u8>, p0: int, n: u32, i: int, outv: Seq<KvpairV>, cursor: int, r: Result<(Kvpair, usize), KvError>)
    requires
        0 <= p0 <= cursor,
        0 <= i < n,
        pair_decode_complete(buf, cursor, r),
        pl_partial(buf, p0, n, i, outv, cursor),
    ensures
        r matches Ok(p) ==> pl_partial(buf, p0, n, i + 1, outv.push(p.0@), p.1 as int),
        r is Err ==> (forall|vs: Seq<KvpairV>| !pl_sat(buf, p0, n, vs)),
{
    assert forall|vs: Seq<KvpairV>| pl_sat(buf, p0, n, vs) implies (r matches Ok(p) && outv.push(
        p.0@,
    ) == vs.take(i + 1) && p.1 == p0 + pairs_cat(vs.take(i + 1)).len()) by {
        lemma_pairs_step(buf, p0, i, cursor, vs);
        lemma_pairs_cat_take_succ(vs, i);
        assert(r matches Ok(p) && p.0@ == vs[i] && p.1 == cursor + pair_enc(vs[i]).len());
        let p = r->Ok_0;
        assert(outv.push(p.0@) =~= vs.take(i + 1));
    }
    if r is Err {
        assert forall|vs: Seq<KvpairV>| !pl_sat(buf, p0, n, vs) by {
            if pl_sat(buf, p0, n, vs) {
                assert(r matches Ok(p) && outv.push(p.0@) == vs.take(i + 1) && p.1 == p0
                    + pairs_cat(vs.take(i + 1)).len());
            }
        }
    }
}

/// Reads a length-prefixed list of pairs starting at `pos`.
#[verifier::rlimit(100)]
#[verifier::spinoff_prover]
pub fn decode_pairs_list_at(buf: &[u8], pos: usize) -> (r: Result<(Vec<Kvpair>, usize), KvError>)
    ensures
        pairs_list_decode_sound(buf@, pos as int, r),
        pairs_list_decode_complete(buf@, pos as int, r),
{
    let (n, p0) = match decode_u32_at(buf, pos) {
        Ok(p) => p,
        Err(e) => {
            proof {
                assert forall|vs: Seq<KvpairV>| plist_sat(buf@, pos as int, vs) implies false by {
                    assert(pos + 4 <= buf@.len());
                }
            }
            return Err(e);
        },
    };
    proof {
        assert forall|vs: Seq<KvpairV>| plist_sat(buf@, pos as int, vs) implies n == vs.len()
            && pl_sat(buf@, p0 as int, n, vs) by {
            lemma_chunk_split(buf@, pos as int, u32_be(vs.len() as u32), pairs_cat(vs));
            assert(buf@.subrange(pos as int, pos + 4) =~= u32_be(vs.len() as u32));
        }
    }
    let mut out: Vec<Kvpair> = Vec::new();
    let mut cursor: usize = p0;
    let mut i: u32 = 0;
    proof {
        assert(prs_view(out@) =~= Seq::<KvpairV>::empty());
        assert forall|vs: Seq<KvpairV>| pl_sat(buf@, p0 as int, n, vs) implies (prs_view(out@)
            == vs.take(0) && cursor == p0 + pairs_cat(vs.take(0)).len()) by {
            assert(vs.take(0) =~= Seq::<KvpairV>::empty());
            assert(pairs_cat(vs.take(0)) == Seq::<u8>::empty());
        }
    }
    while i < n
        invariant
            0 <= i <= n,
            out@.len() == i,
            pairs_fit(prs_view(out@)),
            pos + 4 == p0,
            p0 <= cursor <= buf@.len(),
            cursor == p0 + pairs_cat(prs_view(out@)).len(),
            buf@.subrange(p0 as int, cursor as int) =~= pairs_cat(prs_view(out@)),
            pl_partial(buf@, p0 as int, n, i as int, prs_view(out@), cursor as int),
            forall|vs: Seq<KvpairV>|
                plist_sat(buf@, pos as int, vs) ==> (n == vs.len() && pl_sat(
                    buf@,
                    p0 as int,
                    n,
                    vs,
                )),
        decreases n - i,
    {
        let ghost pre_out = prs_view(out@);
        let ghost pre_cursor = cursor as int;
        let step = decode_pair_at(buf, cursor);
        proof {
            lemma_pl_step(buf@, p0 as int, n, i as int, pre_out, pre_cursor, step);
        }
        match step {
            Ok((v, p2)) => {
                proof {
                    lemma_pairs_cat_snoc(pre_out, v@);
                    assert(prs_view(out@.push(v)) =~= pre_out.push(v@));
                }
                out.push(v);
                cursor = p2;
            },
            Err(e) => {
                proof {
                    assert forall|vs: Seq<KvpairV>| plist_sat(buf@, pos as int, vs) implies
                    false by {
                        assert(pl_sat(buf@, p0 as int, n, vs));
                    }
                }
                return Err(e);
            },
        }
        i = i + 1;
    }
    proof {
        assert(buf@.subrange(pos as int, cursor as int) =~= buf@.subrange(pos as int, pos + 4)
            + buf@.subrange(p0 as int, cursor as int));
        assert(buf@.subrange(pos as int, pos + 4) =~= u32_be(n));
        assert(out@.len() == n);
        assert(buf@.subrange(pos as int, cursor as int) =~= pairs_list_enc(prs_view(out@)));
        assert forall|vs: Seq<KvpairV>| plist_sat(buf@, pos as int, vs) implies prs_view(out@)
            == vs && cursor == pos + pairs_list_enc(vs).len() by {
            assert(pl_sat(buf@, p0 as int, n, vs));
            assert(vs.take(vs.len() as int) =~= vs);
        }
    }
    Ok((out, cursor))
}

/// The encoding of one response: status, message, values, pairs.
pub open spec fn resp_enc(r: RespV) -> Seq<u8> {
    u32_be(r.status) + str_enc(r.message) + values_list_enc(r.values) + pairs_list_enc(r.pairs)
}

pub open spec fn resp_fits(r: RespV) -> bool {
    &&& len_fits(encode_utf8(r.message).len())
    &&& values_fit(r.values)
    &&& pairs_fit(r.pairs)
}

/// Appends the encoding of one response.
pub fn encode_response_body(c: &CommandResponse, buf: &mut Vec<u8>)
    requires
        resp_fits(c@),
    ensures
        final(buf)@ =~= old(buf)@ + resp_enc(c@),
{
    encode_u32_be(c.status, buf);
    encode_str(c.message.as_str(), buf);
    encode_values_list(&c.values, buf);
    encode_pairs_list(&c.pairs, buf);
}

/// One candidate response whose encoding sits at `pos`.
pub open spec fn resp_sat(buf: Seq<u8>, pos: int, x: RespV) -> bool {
    &&& resp_fits(x)
    &&& pos + resp_enc(x).len() <= buf.len()
    &&& buf.subrange(pos, pos + resp_enc(x).len()) =~= resp_enc(x)
}

pub open spec fn resp_decode_sound(buf: Seq<u8>, pos: int, r: Result<(CommandResponse, usize), KvError>) -> bool {
    r matches Ok(p) ==> {
        &&& pos <= p.1 <= buf.len()
        &&& resp_fits(p.0@)
        &&& p.1 == pos + resp_enc(p.0@).len()
        &&& buf.subrange(pos, p.1 as int) =~= resp_enc(p.0@)
    }
}

pub open spec fn resp_decode_complete(buf: Seq<u8>, pos: int, r: Result<(CommandResponse, usize), KvError>) -> bool {
    forall|x: RespV|
        resp_sat(buf, pos, x) ==> (r matches Ok(p) && p.0@ == x && p.1 == pos + resp_enc(x).len())
}

/// Splits a response encoding known to sit at `pos` into its four parts.
pub proof fn lemma_resp_parts(buf: Seq<u8>, pos: int, x: RespV)
    requires
        0 <= pos,
        resp_sat(buf, pos, x),
    ensures
        buf.subrange(pos, pos + 4) =~= u32_be(x.status),
        buf.subrange(pos + 4, pos + 4 + str_enc(x.message).len()) =~= str_enc(x.message),
        buf.subrange(
            pos + 4 + str_enc(x.message).len(),
            pos + 4 + str_enc(x.message).len() + values_list_enc(x.values).len(),
        ) =~= values_list_enc(x.values),
        buf.subrange(
            pos + 4 + str_enc(x.message).len() + values_list_enc(x.values).len(),
            pos + 4 + str_enc(x.message).len() + values_list_enc(x.values).len()
                + pairs_list_enc(x.pairs).len(),
        ) =~= pairs_list_enc(x.pairs),
{
    assert(resp_enc(x) =~= u32_be(x.status) + (str_enc(x.message) + (values_list_enc(x.values)
        + pairs_list_enc(x.pairs))));
    lemma_chunk_split(
        buf,
        pos,
        u32_be(x.status),
        str_enc(x.message) + (values_list_enc(x.values) + pairs_list_enc(x.pairs)),
    );
    lemma_chunk_split(
        buf,
        pos + 4,
        str_enc(x.message),
        values_list_enc(x.values) + pairs_list_enc(x.pairs),
    );
    lemma_chunk_split(
        buf,
        pos + 4 + str_enc(x.message).len(),
        values_list_enc(x.values),
        pairs_list_enc(x.pairs),
    );
}

/// Gluing four adjacent encoded parts back into one response encoding.
pub proof fn lemma_resp_assemble(buf: Seq<u8>, pos: int, p2: int, p3: int, p4: int, x: RespV)
    requires
        0 <= pos <= p2 <= p3 <= p4 <= buf.len(),
        p2 == pos + 4 + str_enc(x.message).len(),
        p3 == p2 + values_list_enc(x.values).len(),
        p4 == p3 + pairs_list_enc(x.pairs).len(),
        buf.subrange(pos, pos + 4) == u32_be(x.status),
        buf.subrange(pos + 4, p2) == str_enc(x.message),
        buf.subrange(p2, p3) == values_list_enc(x.values),
        buf.subrange(p3, p4) == pairs_list_enc(x.pairs),
    ensures
        p4 == pos + resp_enc(x).len(),
        buf.subrange(pos, p4) =~= resp_enc(x),
{
    assert(resp_enc(x) =~= u32_be(x.status) + str_enc(x.message) + values_list_enc(x.values)
        + pairs_list_enc(x.pairs));
    assert forall|j: int| 0 <= j < p4 - pos implies buf.subrange(pos, p4)[j] == resp_enc(
        x,
    )[j] by {
        if j < 4 {
            assert(buf.subrange(pos, pos + 4)[j] == buf[pos + j]);
        } else if j < p2 - pos {
            assert(buf.subrange(pos + 4, p2)[j - 4] == buf[pos + j]);
        } else if j < p3 - pos {
            assert(buf.subrange(p2, p3)[j - (p2 - pos)] == buf[pos + j]);
        } else {
            assert(buf.subrange(p3, p4)[j - (p3 - pos)] == buf[pos + j]);
        }
    }
}

/// Reads the pair list of a response whose other fields were already read.
#[verifier::rlimit(100)]
#[verifier::spinoff_prover]
fn decode_resp_pairs(buf: &[u8], p3: usize, status: u32, message: String, values: Vec<Value>, Ghost(pos): Ghost<int>, Ghost(p2): Ghost<int>) -> (r: Result<(CommandResponse, usize), KvError>)
    requires
        0 <= pos <= p2 <= p3 <= buf@.len(),
        buf@.len() <= usize::MAX,
        p2 == pos + 4 + str_enc(message@).len(),
        len_fits(encode_utf8(message@).len()),
        buf@.subrange(pos, pos + 4) =~= u32_be(status),
        buf@.subrange(pos + 4, p2) =~= str_enc(message@),
        forall|m: u32| buf@.subrange(pos, pos + 4) =~= u32_be(m) ==> m == status,
        forall|cs: Seq<char>|
            len_fits(encode_utf8(cs).len()) && pos + 4 + 4 + encode_utf8(cs).len() <= buf@.len()
                && buf@.subrange(pos + 4, pos + 4 + 4 + encode_utf8(cs).len()) =~= str_enc(cs)
                ==> cs == message@,
        values_fit(vals_view(values@)),
        p3 == p2 + values_list_enc(vals_view(values@)).len(),
        buf@.subrange(p2, p3 as int) =~= values_list_enc(vals_view(values@)),
        forall|vs: Seq<ValueV>| vlist_sat(buf@, p2, vs) ==> vs == vals_view(values@),
    ensures
        resp_decode_sound(buf@, pos, r),
        resp_decode_complete(buf@, pos, r),
{
    match decode_pairs_list_at(buf, p3) {
        Ok((pairs, p4)) => {
            let resp = CommandResponse { status, message, values, pairs };
            proof {
                lemma_resp_assemble(buf@, pos, p2, p3 as int, p4 as int, resp@);
                assert forall|x: RespV| resp_sat(buf@, pos, x) implies resp@ == x && p4 == pos
                    + resp_enc(x).len() by {
                    lemma_resp_parts(buf@, pos, x);
                    assert(x.status == status);
                    assert(x.message == message@);
                    assert(vlist_sat(buf@, p2, x.values));
                    assert(x.values == vals_view(resp.values@));
                    assert(plist_sat(buf@, p3 as int, x.pairs));
                }
            }
            Ok((resp, p4))
        },
        Err(e) => {
            proof {
                assert forall|x: RespV| resp_sat(buf@, pos, x) implies false by {
                    lemma_resp_parts(buf@, pos, x);
                    assert(x.status == status);
                    assert(x.message == message@);
                    assert(vlist_sat(buf@, p2, x.values));
                    assert(x.values == vals_view(values@));
                    assert(plist_sat(buf@, p3 as int, x.pairs));
                }
            }
            Err(e)
        },
    }
}

/// Reads the two lists of a response whose status and message were already read.
#[verifier::rlimit(100)]
#[verifier::spinoff_prover]
fn decode_resp_lists(buf: &[u8], p2: usize, status: u32, message: String, Ghost(pos): Ghost<int>) -> (r: Result<(CommandResponse, usize), KvError>)
    requires
        0 <= pos <= p2 <= buf@.len(),
        buf@.len() <= usize::MAX,
        p2 == pos + 4 + str_enc(message@).len(),
        len_fits(encode_utf8(message@).len()),
        buf@.subrange(pos, pos + 4) =~= u32_be(status),
        buf@.subrange(pos + 4, p2 as int) =~= str_enc(message@),
        forall|m: u32| buf@.subrange(pos, pos + 4) =~= u32_be(m) ==> m == status,
        forall|cs: Seq<char>|
            len_fits(encode_utf8(cs).len()) && pos + 4 + 4 + encode_utf8(cs).len() <= buf@.len()
                && buf@.subrange(pos + 4, pos + 4 + 4 + encode_utf8(cs).len()) =~= str_enc(cs)
                ==> cs == message@,
    ensures
        resp_decode_sound(buf@, pos, r),
        resp_decode_complete(buf@, pos, r),
{
    let (values, p3) = match decode_values_list_at(buf, p2) {
        Ok(p) => p,
        Err(e) => {
            proof {
                assert forall|x: RespV| resp_sat(buf@, pos, x) implies false by {
                    lemma_resp_parts(buf@, pos, x);
                    assert(x.status == status);
                    assert(x.message == message@);
                    assert(vlist_sat(buf@, p2 as int, x.values));
                }
            }
            return Err(e);
        },
    };
    proof {
        assert forall|vs: Seq<ValueV>| vlist_sat(buf@, p2 as int, vs) implies vs == vals_view(
            values@,
        ) by {}
    }
    decode_resp_pairs(buf, p3, status, message, values, Ghost(pos), Ghost(p2 as int))
}

/// Reads one response starting at `pos`.
#[verifier::rlimit(100)]
#[verifier::spinoff_prover]
pub fn decode_response_at(buf: &[u8], pos: usize) -> (r: Result<(CommandResponse, usize), KvError>)
    ensures
        resp_decode_sound(buf@, pos as int, r),
        resp_decode_complete(buf@, pos as int, r),
{
    let blen = buf.len();
    let (status, p1) = match decode_u32_at(buf, pos) {
        Ok(p) => p,
        Err(e) => {
            proof {
                assert forall|x: RespV| resp_sat(buf@, pos as int, x) implies false by {
                    lemma_resp_parts(buf@, pos as int, x);
                }
            }
            return Err(e);
        },
    };
    let (message, p2) = match decode_str_at(buf, p1) {
        Ok(p) => p,
        Err(e) => {
            proof {
                assert forall|x: RespV| resp_sat(buf@, pos as int, x) implies false by {
                    lemma_resp_parts(buf@, pos as int, x);
                    assert(x.status == status);
                }
            }
            return Err(e);
        },
    };
    decode_resp_lists(buf, p2, status, message, Ghost(pos as int))
}

/// A byte count clamped to the four-byte ceiling.
pub open spec fn capped(n: nat) -> u64 {
    if n >= 0x100000000 {
        0x100000000u64
    } else {
        n as u64
    }
}

/// Clamped addition of two clamped counts.
fn cap_add(a: u64, b: u64) -> (r: u64)
    requires
        a <= 0x100000000,
        b <= 0x100000000,
    ensures
        r <= 0x100000000,
        r == capped((a + b) as nat),
{
    if a + b >= 0x100000000 {
        0x100000000
    } else {
        a + b
    }
}

/// The clamped length of one encoded value.
pub fn value_capped_len(v: &Value) -> (r: u64)
    ensures
        r == capped(value_enc(v@).len()),
        r < 0x100000000 ==> value_fits(v@),
{
    match v {
        Value::Empty => 1,
        Value::Str(s) => {
            let l = s.as_str().as_bytes().len() as u64;
            if l >= 0x100000000 {
                0x100000000
            } else {
                cap_add(5, l)
            }
        },
        Value::Int(_) => 9,
        Value::Double(_) => 9,
        Value::Bool(_) => 2,
        Value::Bytes(b) => {
            let l = b.len() as u64;
            if l >= 0x100000000 {
                0x100000000
            } else {
                cap_add(5, l)
            }
        },
    }
}

/// The clamped length of one encoded pair.
pub fn pair_capped_len(p: &Kvpair) -> (r: u64)
    ensures
        r == capped(pair_enc(p@).len()),
        r < 0x100000000 ==> pair_fits(p@),
{
    let kl = p.key.as_str().as_bytes().len() as u64;
    let head: u64 = if kl >= 0x100000000 {
        0x100000000
    } else {
        cap_add(4, kl)
    };
    match &p.value {
        Option::None => cap_add(head, 1),
        Option::Some(v) => {
            let vl = value_capped_len(v);
            proof {
                assert(pair_enc(p@).len() == 4 + encode_utf8(p@.key).len() + 1 + value_enc(
                    p@.value->0,
                ).len());
            }
            cap_add(head, cap_add(1, vl))
        },
    }
}

/// The clamped length of one encoded request.
pub fn req_capped_len(c: &CommandRequest) -> (r: u64)
    ensures
        r == capped(req_enc(c@).len()),
        r < 0x100000000 ==> req_fits(c@),
{
    match &c.request_data {
        Option::None => 1,
        Option::Some(RequestData::Hget(h)) => {
            let tl = h.table.as_str().as_bytes().len() as u64;
            let kl = h.key.as_str().as_bytes().len() as u64;
            let a: u64 = if tl >= 0x100000000 {
                0x100000000
            } else {
                cap_add(5, tl)
            };
            let b: u64 = if kl >= 0x100000000 {
                0x100000000
            } else {
                cap_add(4, kl)
            };
            cap_add(a, b)
        },
        Option::Some(RequestData::Hgetall(h)) => {
            let tl = h.table.as_str().as_bytes().len() as u64;
            if tl >= 0x100000000 {
                0x100000000
            } else {
                cap_add(5, tl)
            }
        },
        Option::Some(RequestData::Hset(h)) => {
            let tl = h.table.as_str().as_bytes().len() as u64;
            let a: u64 = if tl >= 0x100000000 {
                0x100000000
            } else {
                cap_add(5, tl)
            };
            match &h.pair {
                Option::None => cap_add(a, 1),
                Option::Some(p) => {
                    let pl = pair_capped_len(p);
                    proof {
                        assert(req_enc(c@).len() == 5 + encode_utf8(h.table@).len() + 1
                            + pair_enc(p@).len());
                    }
                    cap_add(a, cap_add(1, pl))
                },
            }
        },
    }
}

/// The clamped length of an encoded value list.
pub fn values_capped_len(values: &Vec<Value>) -> (r: u64)
    ensures
        r == capped(values_list_enc(vals_view(values@)).len()),
        r < 0x100000000 ==> values_fit(vals_view(values@)),
{
    let ghost vs = vals_view(values@);
    let mut acc: u64 = 4;
    let mut i: usize = 0;
    while i < values.len()
        invariant
            0 <= i <= values@.len(),
            vs == vals_view(values@),
            vs.len() == values@.len(),
            acc <= 0x100000000,
            acc == capped((4 + values_cat(vs.take(i as int)).len()) as nat),
            acc < 0x100000000 ==> (i <= 0xFFFFFFFF && forall|j: int|
                0 <= j < i ==> value_fits(#[trigger] vs[j])),
            acc < 0x100000000 ==> i <= values_cat(vs.take(i as int)).len(),
        decreases values@.len() - i,
    {
        proof {
            assert(vals_view(values@)[i as int] == values@[i as int]@);
            lemma_values_cat_take_succ(vs, i as int);
        }
        let vl = value_capped_len(&values[i]);
        acc = cap_add(acc, vl);
        proof {
            assert(value_enc(vs[i as int]).len() >= 1);
        }
        i = i + 1;
    }
    proof {
        assert(vs.take(vs.len() as int) =~= vs);
    }
    acc
}

/// The clamped length of an encoded pair list.
pub fn pairs_capped_len(pairs: &Vec<Kvpair>) -> (r: u64)
    ensures
        r == capped(pairs_list_enc(prs_view(pairs@)).len()),
        r < 0x100000000 ==> pairs_fit(prs_view(pairs@)),
{
    let ghost vs = prs_view(pairs@);
    let mut acc: u64 = 4;
    let mut i: usize = 0;
    while i < pairs.len()
        invariant
            0 <= i <= pairs@.len(),
            vs == prs_view(pairs@),
            vs.len() == pairs@.len(),
            acc <= 0x100000000,
            acc == capped((4 + pairs_cat(vs.take(i as int)).len()) as nat),
            acc < 0x100000000 ==> (i <= 0xFFFFFFFF && forall|j: int|
                0 <= j < i ==> pair_fits(#[trigger] vs[j])),
            acc < 0x100000000 ==> i <= pairs_cat(vs.take(i as int)).len(),
        decreases pairs@.len() - i,
    {
        proof {
            assert(prs_view(pairs@)[i as int] == pairs@[i as int]@);
            lemma_pairs_cat_take_succ(vs, i as int);
        }
        let vl = pair_capped_len(&pairs[i]);
        acc = cap_add(acc, vl);
        proof {
            assert(pair_enc(vs[i as int]).len() >= 5);
        }
        i = i + 1;
    }
    proof {
        assert(vs.take(vs.len() as int) =~= vs);
    }
    acc
}

/// The clamped length of one encoded response.
pub fn resp_capped_len(c: &CommandResponse) -> (r: u64)
    ensures
        r == capped(resp_enc(c@).len()),
        r < 0x100000000 ==> resp_fits(c@),
{
    let ml = c.message.as_str().as_bytes().len() as u64;
    let a: u64 = if ml >= 0x100000000 {
        0x100000000
    } else {
        cap_add(8, ml)
    };
    let b = values_capped_len(&c.values);
    let d = pairs_capped_len(&c.pairs);
    proof {
        assert(resp_enc(c@).len() == 8 + encode_utf8(c@.message).len() + values_list_enc(
            c@.values,
        ).len() + pairs_list_enc(c@.pairs).len() - 4 - 4 + 4 + 4) by {
            assert(resp_enc(c@).len() == 4 + str_enc(c@.message).len() + values_list_enc(
                c@.values,
            ).len() + pairs_list_enc(c@.pairs).len());
        }
    }
    cap_add(a, cap_add(b, d))
}

/// The kind byte leading every value encoding.
pub proof fn lemma_value_tag(v: ValueV)
    ensures
        value_enc(v)[0] == (match v {
            ValueV::Empty => 0u8,
            ValueV::Str(_) => 1u8,
            ValueV::Int(_) => 2u8,
            ValueV::Double(_) => 3u8,
            ValueV::Bool(_) => 4u8,
            ValueV::Bytes(_) => 5u8,
        }),
{
    match v {
        ValueV::Empty => {
            assert(value_enc(v)[0] == 0u8);
        },
        ValueV::Str(s) => {
            assert((seq![1u8] + str_enc(s))[0] == 1u8);
        },
        ValueV::Int(n) => {
            assert((seq![2u8] + u64_be(i64_to_bits(n)))[0] == 2u8);
        },
        ValueV::Double(b) => {
            assert((seq![3u8] + u64_be(b))[0] == 3u8);
        },
        ValueV::Bool(b) => {
            assert(value_enc(v)[0] == 4u8);
        },
        ValueV::Bytes(b) => {
            assert((seq![5u8] + bytes_enc(b))[0] == 5u8);
        },
    }
}

/// Two values with the same encoding are the same value.
#[verifier::rlimit(100)]
#[verifier::spinoff_prover]
pub proof fn lemma_value_enc_injective(v1: ValueV, v2: ValueV)
    requires
        value_fits(v1),
        value_fits(v2),
        value_enc(v1) == value_enc(v2),
    ensures
        v1 == v2,
{
    assert(value_enc(v1)[0] == value_enc(v2)[0]);
    assert(value_enc(v1).len() == value_enc(v2).len());
    match (v1, v2) {
        (ValueV::Empty, ValueV::Empty) => {
        },
        (ValueV::Str(s1), ValueV::Str(s2)) => {
            assert(str_enc(s1) =~= value_enc(v1).drop_first());
            assert(str_enc(s2) =~= value_enc(v2).drop_first());
            lemma_str_enc_injective(s1, s2);
            assert(v1 == v2);
        },
        (ValueV::Int(n1), ValueV::Int(n2)) => {
            assert(u64_be(i64_to_bits(n1)) =~= value_enc(v1).drop_first());
            assert(u64_be(i64_to_bits(n2)) =~= value_enc(v2).drop_first());
            lemma_u64_be_digits(i64_to_bits(n1));
            lemma_u64_be_digits(i64_to_bits(n2));
            lemma_i64_bits_roundtrip(n1);
            lemma_i64_bits_roundtrip(n2);
            assert(i64_to_bits(n1) == i64_to_bits(n2));
            assert(v1 == v2);
        },
        (ValueV::Double(b1), ValueV::Double(b2)) => {
            assert(u64_be(b1) =~= value_enc(v1).drop_first());
            assert(u64_be(b2) =~= value_enc(v2).drop_first());
            lemma_u64_be_digits(b1);
            lemma_u64_be_digits(b2);
            assert(v1 == v2);
        },
        (ValueV::Bool(b1), ValueV::Bool(b2)) => {
            assert(value_enc(v1)[1] == value_enc(v2)[1]);
            assert(v1 == v2);
        },
        (ValueV::Bytes(s1), ValueV::Bytes(s2)) => {
            assert(bytes_enc(s1) =~= value_enc(v1).drop_first());
            assert(bytes_enc(s2) =~= value_enc(v2).drop_first());
            lemma_bytes_enc_injective(s1, s2);
            assert(v1 == v2);
        },
        _ => {
            lemma_value_tag(v1);
            lemma_value_tag(v2);
            assert(false);
        },
    }
}

/// Two byte strings with the same length-prefixed encoding are the same.
pub proof fn lemma_bytes_enc_injective(b1: Seq<u8>, b2: Seq<u8>)
    requires
        len_fits(b1.len()),
        len_fits(b2.len()),
        bytes_enc(b1) == bytes_enc(b2),
    ensures
        b1 == b2,
{
    assert(u32_be(b1.len() as u32) =~= bytes_enc(b1).take(4));
    assert(u32_be(b2.len() as u32) =~= bytes_enc(b2).take(4));
    lemma_u32_be_digits(b1.len() as u32);
    lemma_u32_be_digits(b2.len() as u32);
    assert(b1.len() == b2.len());
    assert(b1 =~= bytes_enc(b1).skip(4));
    assert(b2 =~= bytes_enc(b2).skip(4));
}

/// Two character strings with the same encoding are the same.
pub proof fn lemma_str_enc_injective(s1: Seq<char>, s2: Seq<char>)
    requires
        len_fits(encode_utf8(s1).len()),
        len_fits(encode_utf8(s2).len()),
        str_enc(s1) == str_enc(s2),
    ensures
        s1 == s2,
{
    lemma_bytes_enc_injective(encode_utf8(s1), encode_utf8(s2));
    vstd::utf8::encode_utf8_decode_utf8(s1);
    vstd::utf8::encode_utf8_decode_utf8(s2);
}

} // verus!
