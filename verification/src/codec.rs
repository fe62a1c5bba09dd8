//! A deterministic byte encoding for the values the store persists.
//!
//! Patches are content-addressed, so the library owns one canonical byte
//! form: the hash of a patch is the hash of these bytes, and every device
//! recomputes the same reference for the same content.
use vstd::prelude::*;
use vstd::slice::slice_subrange;
use vstd::slice::slice_to_vec;
use vstd::utf8::encode_utf8;
use vstd::utf8::valid_utf8;
use vstd::utf8::decode_utf8;
use vstd::utf8::encode_utf8_valid_utf8;
use vstd::utf8::encode_utf8_decode_utf8;
use vstd::string::StringSliceAdditionalSpecFns;

verus! {

/// Big-endian bytes of a 64-bit integer.
pub open spec fn be_bytes(n: u64) -> Seq<u8> {
    seq![
        (n >> 56) as u8,
        (n >> 48) as u8,
        (n >> 40) as u8,
        (n >> 32) as u8,
        (n >> 24) as u8,
        (n >> 16) as u8,
        (n >> 8) as u8,
        n as u8,
    ]
}

/// The integer read back from eight big-endian bytes.
pub open spec fn be_value(s: Seq<u8>) -> u64
    recommends
        s.len() == 8,
{
    (((s[0] as u64) << 56) | ((s[1] as u64) << 48) | ((s[2] as u64) << 40) | ((s[3] as u64) << 32)
        | ((s[4] as u64) << 24) | ((s[5] as u64) << 16) | ((s[6] as u64) << 8) | (s[7] as u64)) as u64
}

pub proof fn lemma_be_value_of_be_bytes(n: u64)
    ensures
        be_value(be_bytes(n)) == n,
{
    assert(be_value(be_bytes(n)) == n) by (bit_vector);
}

pub proof fn lemma_be_bytes_of_be_value(s: Seq<u8>)
    requires
        s.len() == 8,
    ensures
        be_bytes(be_value(s)) == s,
{
    let n = be_value(s);
    let b0 = s[0];
    let b1 = s[1];
    let b2 = s[2];
    let b3 = s[3];
    let b4 = s[4];
    let b5 = s[5];
    let b6 = s[6];
    let b7 = s[7];
    assert({
        let m = (((b0 as u64) << 56) | ((b1 as u64) << 48) | ((b2 as u64) << 40) | ((b3
            as u64) << 32) | ((b4 as u64) << 24) | ((b5 as u64) << 16) | ((b6 as u64) << 8) | (b7
            as u64)) as u64;
        (m >> 56) as u8 == b0 && (m >> 48) as u8 == b1 && (m >> 40) as u8 == b2 && (m >> 32) as u8
            == b3 && (m >> 24) as u8 == b4 && (m >> 16) as u8 == b5 && (m >> 8) as u8 == b6 && m
            as u8 == b7
    }) by (bit_vector);
    assert(be_bytes(n) =~= s);
}

/// Appends the big-endian bytes of `n`.
pub fn push_be(out: &mut Vec<u8>, n: u64)
    ensures
        final(out)@ == old(out)@ + be_bytes(n),
{
    out.push((n >> 56) as u8);
    out.push((n >> 48) as u8);
    out.push((n >> 40) as u8);
    out.push((n >> 32) as u8);
    out.push((n >> 24) as u8);
    out.push((n >> 16) as u8);
    out.push((n >> 8) as u8);
    out.push(n as u8);
    proof {
        assert(out@ =~= old(out)@ + be_bytes(n));
    }
}

/// Reads eight big-endian bytes at `i`, if present.
pub fn read_be(b: &Vec<u8>, i: usize) -> (r: Option<(u64, usize)>)
    ensures
        r matches Some(p) ==> i + 8 <= b@.len() && p.1 == i + 8 && p.0 == be_value(
            b@.subrange(i as int, i as int + 8),
        ),
        r is None <==> i + 8 > b@.len(),
{
    if i >= b.len() || b.len() - i < 8 {
        return None;
    }
    let v: u64 = ((b[i] as u64) << 56) | ((b[i + 1] as u64) << 48) | ((b[i + 2] as u64) << 40) | ((
    b[i + 3] as u64) << 32) | ((b[i + 4] as u64) << 24) | ((b[i + 5] as u64) << 16) | ((b[i + 6]
        as u64) << 8) | (b[i + 7] as u64);
    proof {
        let s = b@.subrange(i as int, i as int + 8);
        assert(s[0] == b@[i as int] && s[1] == b@[i as int + 1] && s[2] == b@[i as int + 2] && s[3]
            == b@[i as int + 3] && s[4] == b@[i as int + 4] && s[5] == b@[i as int + 5] && s[6]
            == b@[i as int + 6] && s[7] == b@[i as int + 7]);
    }
    Some((v, i + 8))
}

/// The canonical encoding of a string: length, then UTF-8 bytes.
pub open spec fn enc_str(s: Seq<char>) -> Seq<u8> {
    be_bytes(encode_utf8(s).len() as u64) + encode_utf8(s)
}

/// Relies on std's String::from_utf8: it succeeds exactly on valid UTF-8
/// input and returns the string made of those bytes.
#[verifier::external_body]
pub fn string_from_bytes(v: Vec<u8>) -> (r: Option<String>)
    ensures
        r is Some <==> valid_utf8(v@),
        r matches Some(s) ==> encode_utf8(s@) == v@,
{
    String::from_utf8(v).ok()
}

/// Appends the canonical encoding of a string.
pub fn push_str_enc(out: &mut Vec<u8>, s: &String)
    ensures
        final(out)@ == old(out)@ + enc_str(s@),
        encode_utf8(s@).len() <= usize::MAX,
{
    let bytes: &[u8] = s.as_str().as_bytes();
    let n: usize = bytes.len();
    push_be(out, n as u64);
    let mut i: usize = 0;
    while i < n
        invariant
            i <= n,
            n == bytes@.len(),
            bytes@ == encode_utf8(s@),
            out@ == old(out)@ + be_bytes(n as u64) + bytes@.take(i as int),
        decreases n - i,
    {
        out.push(bytes[i]);
        proof {
            assert(bytes@.take(i as int + 1) =~= bytes@.take(i as int).push(bytes@[i as int]));
            assert(out@ =~= old(out)@ + be_bytes(n as u64) + bytes@.take(i as int + 1));
        }
        i = i + 1;
    }
    proof {
        assert(bytes@.take(n as int) =~= bytes@);
        assert(out@ =~= old(out)@ + enc_str(s@));
    }
}

/// Reading an integer, in spec form.
pub open spec fn parse_be(b: Seq<u8>, i: int) -> Option<(u64, int)> {
    if i < 0 || i + 8 > b.len() {
        None
    } else {
        Some((be_value(b.subrange(i, i + 8)), i + 8))
    }
}

/// Reading a length-prefixed UTF-8 string, in spec form.
pub open spec fn parse_str(b: Seq<u8>, i: int) -> Option<(Seq<char>, int)> {
    if i < 0 || i + 8 > b.len() {
        None
    } else {
        let n = be_value(b.subrange(i, i + 8)) as int;
        if i + 8 + n > b.len() || !valid_utf8(b.subrange(i + 8, i + 8 + n)) {
            None
        } else {
            Some((decode_utf8(b.subrange(i + 8, i + 8 + n)), i + 8 + n))
        }
    }
}

/// A parsed string occupies exactly its canonical encoding.
pub proof fn lemma_parse_str_sound(b: Seq<u8>, i: int)
    requires
        parse_str(b, i) is Some,
    ensures
        ({
            let (s, j) = parse_str(b, i)->Some_0;
            &&& i + 8 <= j <= b.len()
            &&& b.subrange(i, j) == enc_str(s)
            &&& encode_utf8(s).len() == j - i - 8
        }),
{
    let (s, j) = parse_str(b, i)->Some_0;
    let n = be_value(b.subrange(i, i + 8)) as int;
    let raw = b.subrange(i + 8, i + 8 + n);
    vstd::utf8::decode_utf8_encode_utf8(raw);
    assert(encode_utf8(s) == raw);
    lemma_be_bytes_of_be_value(b.subrange(i, i + 8));
    assert(n <= u64::MAX);
    assert(be_bytes(raw.len() as u64) == b.subrange(i, i + 8));
    assert(b.subrange(i, j) =~= b.subrange(i, i + 8) + raw);
}

/// The canonical encoding of a string parses back to it.
pub proof fn lemma_parse_str_at(b: Seq<u8>, i: int, s: Seq<char>)
    requires
        0 <= i,
        encode_utf8(s).len() <= usize::MAX,
        i + enc_str(s).len() <= b.len(),
        b.subrange(i, i + enc_str(s).len()) == enc_str(s),
    ensures
        parse_str(b, i) == Some((s, i + enc_str(s).len())),
{
    let el = encode_utf8(s).len() as int;
    let l = enc_str(s).len() as int;
    assert(l == 8 + el);
    assert(b.subrange(i, i + 8) =~= b.subrange(i, i + l).subrange(0, 8));
    assert(b.subrange(i, i + 8) =~= be_bytes(el as u64));
    lemma_be_value_of_be_bytes(el as u64);
    assert(be_value(b.subrange(i, i + 8)) == el as u64);
    assert(b.subrange(i + 8, i + 8 + el) =~= b.subrange(i, i + l).subrange(8, l));
    assert(b.subrange(i + 8, i + 8 + el) =~= encode_utf8(s));
    encode_utf8_valid_utf8(s);
    encode_utf8_decode_utf8(s);
}

/// Reads a length-prefixed UTF-8 string at `i`, if present and valid.
pub fn read_str(b: &Vec<u8>, i: usize) -> (r: Option<(String, usize)>)
    ensures
        r matches Some(p) ==> parse_str(b@, i as int) == Some((p.0@, p.1 as int)) && p.1 <= b@.len()
            && i <= p.1 && b@.subrange(i as int, p.1 as int) == enc_str(p.0@),
        r is None <==> parse_str(b@, i as int) is None,
{
    let (n, j) = match read_be(b, i) {
        Some(p) => p,
        None => {
            return None;
        },
    };
    let blen = b.len();
    if n > (usize::MAX as u64) || blen < j || (n as usize) > blen - j {
        proof {
            assert(i + 8 + be_value(b@.subrange(i as int, i as int + 8)) > b@.len());
        }
        return None;
    }
    let end: usize = j + (n as usize);
    let raw = slice_to_vec(slice_subrange(b.as_slice(), j, end));
    let ghost rawview = b@.subrange(j as int, end as int);
    match string_from_bytes(raw) {
        Some(s) => {
            proof {
                assert(b@.subrange(i as int, end as int) =~= b@.subrange(i as int, i as int + 8)
                    + b@.subrange(i as int + 8, end as int));
                lemma_be_bytes_of_be_value(b@.subrange(i as int, i as int + 8));
                encode_utf8_valid_utf8(s@);
                encode_utf8_decode_utf8(s@);
                assert(decode_utf8(rawview) == s@);
            }
            Some((s, end))
        },
        None => None,
    }
}

} // verus!
