//! The fixed binary encoding that every persisted record uses.
//!
//! Values are encoded as: 64-bit integers in eight little-endian base-256
//! bytes; byte strings and text strings as a 64-bit length followed by the
//! bytes (UTF-8 for text); tagged values as one discriminant byte followed
//! by the variant's body. Every encoder has a decoder that inverts it, and
//! the round trip is proved: decoding an encoding yields the encoded value
//! and leaves exactly the trailing input.
//!
//! Decoders are written in the "rest" style: a specification decoder takes
//! the not-yet-consumed byte sequence and returns the decoded value and the
//! remaining suffix, or nothing when the input does not start with a valid
//! encoding. Decode failure is thereby a distinct outcome, separate from
//! any "not found" condition of the store.

use crate::data::Data;
use crate::data::DataView;
use crate::data::Payload;
use crate::data::PayloadView;
use vstd::prelude::*;
use vstd::arithmetic::div_mod::lemma_div_denominator;
use vstd::arithmetic::div_mod::lemma_fundamental_div_mod;
use vstd::string::StringSliceAdditionalSpecFns;
use vstd::utf8::decode_utf8;
use vstd::utf8::encode_utf8;
use vstd::utf8::encode_utf8_decode_utf8;
use vstd::utf8::encode_utf8_valid_utf8;
use vstd::utf8::valid_utf8;

verus! {

/// The little-endian base-256 encoding of a 64-bit integer.
pub open spec fn enc_u64(n: u64) -> Seq<u8> {
    seq![
        (n as int % 256) as u8,
        ((n as int / 256) % 256) as u8,
        ((n as int / 65536) % 256) as u8,
        ((n as int / 16777216) % 256) as u8,
        ((n as int / 4294967296) % 256) as u8,
        ((n as int / 1099511627776) % 256) as u8,
        ((n as int / 281474976710656) % 256) as u8,
        ((n as int / 72057594037927936) % 256) as u8,
    ]
}

/// The value of eight little-endian base-256 digits.
pub open spec fn combine8(b: Seq<u8>) -> int {
    b[0] + 256 * (b[1] + 256 * (b[2] + 256 * (b[3] + 256 * (b[4] + 256 * (b[5] + 256 * (b[6]
        + 256 * (b[7] as int)))))))
}

/// Decode a 64-bit integer from the front of `b`.
pub open spec fn sd_u64(b: Seq<u8>) -> Option<(u64, Seq<u8>)> {
    if b.len() < 8 {
        None
    } else {
        Some((combine8(b) as u64, b.skip(8)))
    }
}

/// Eight base-256 digits combine to a value below two to the 64.
pub proof fn lemma_combine8_bounds(b: Seq<u8>)
    requires
        b.len() >= 8,
    ensures
        0 <= combine8(b) < 0x10000000000000000,
{
}

/// Decoding the encoding of a 64-bit integer yields it back.
pub proof fn lemma_u64_round_trip(n: u64, rest: Seq<u8>)
    ensures
        sd_u64(enc_u64(n) + rest) == Some((n, rest)),
{
    let b = enc_u64(n) + rest;
    assert(b.skip(8) =~= rest);
    let x = n as int;
    let q1 = x / 256;
    let q2 = x / 65536;
    let q3 = x / 16777216;
    let q4 = x / 4294967296;
    let q5 = x / 1099511627776;
    let q6 = x / 281474976710656;
    let q7 = x / 72057594037927936;
    lemma_div_denominator(x, 256, 256);
    lemma_div_denominator(x, 65536, 256);
    lemma_div_denominator(x, 16777216, 256);
    lemma_div_denominator(x, 4294967296, 256);
    lemma_div_denominator(x, 1099511627776, 256);
    lemma_div_denominator(x, 281474976710656, 256);
    assert(q2 == q1 / 256 && q3 == q2 / 256 && q4 == q3 / 256 && q5 == q4 / 256 && q6 == q5 / 256
        && q7 == q6 / 256);
    lemma_fundamental_div_mod(x, 256);
    lemma_fundamental_div_mod(q1, 256);
    lemma_fundamental_div_mod(q2, 256);
    lemma_fundamental_div_mod(q3, 256);
    lemma_fundamental_div_mod(q4, 256);
    lemma_fundamental_div_mod(q5, 256);
    lemma_fundamental_div_mod(q6, 256);
    assert(q7 < 256);
    assert(q7 % 256 == q7);
    assert(combine8(b) == x);
}

/// Append the encoding of a 64-bit integer to an output buffer.
pub fn write_u64(out: &mut Vec<u8>, n: u64)
    ensures
        final(out)@ == old(out)@ + enc_u64(n),
{
    out.push((n % 256) as u8);
    out.push(((n / 256) % 256) as u8);
    out.push(((n / 65536) % 256) as u8);
    out.push(((n / 16777216) % 256) as u8);
    out.push(((n / 4294967296) % 256) as u8);
    out.push(((n / 1099511627776) % 256) as u8);
    out.push(((n / 281474976710656) % 256) as u8);
    out.push(((n / 72057594037927936) % 256) as u8);
    assert(final(out)@ =~= old(out)@ + enc_u64(n));
}

/// Read a 64-bit integer from position `pos` of the buffer; on success the
/// returned position stands right after the consumed bytes.
pub fn read_u64(b: &Vec<u8>, pos: usize) -> (r: Option<(u64, usize)>)
    requires
        pos <= b@.len(),
    ensures
        match sd_u64(b@.skip(pos as int)) {
            Some((v, rest)) => {
                &&& r matches Some((rv, np)) && rv == v && np == pos + 8
                &&& pos + 8 <= b@.len()
                &&& rest == b@.skip(pos + 8)
            },
            None => r is None,
        },
{
    if b.len() - pos < 8 {
        return None;
    }
    let ghost t = b@.skip(pos as int);
    let b7: u64 = b[pos + 7] as u64;
    let b6: u64 = b[pos + 6] as u64 + 256 * b7;
    let b5: u64 = b[pos + 5] as u64 + 256 * b6;
    let b4: u64 = b[pos + 4] as u64 + 256 * b5;
    let b3: u64 = b[pos + 3] as u64 + 256 * b4;
    let b2: u64 = b[pos + 2] as u64 + 256 * b3;
    let b1: u64 = b[pos + 1] as u64 + 256 * b2;
    let v: u64 = b[pos] as u64 + 256 * b1;
    assert(t[0] == b@[pos as int] && t[1] == b@[pos + 1] && t[2] == b@[pos + 2] && t[3] == b@[pos
        + 3] && t[4] == b@[pos + 4] && t[5] == b@[pos + 5] && t[6] == b@[pos + 6] && t[7] == b@[pos
        + 7]);
    assert(v == combine8(t));
    assert(b@.skip(pos + 8) =~= t.skip(8));
    Some((v, pos + 8))
}

/// The encoding of a raw byte string: its 64-bit length, then the bytes.
pub open spec fn enc_bytes(s: Seq<u8>) -> Seq<u8> {
    enc_u64(s.len() as u64) + s
}

/// Decode a raw byte string from the front of `b`.
pub open spec fn sd_bytes(b: Seq<u8>) -> Option<(Seq<u8>, Seq<u8>)> {
    match sd_u64(b) {
        Some((n, r)) => if r.len() >= n {
            Some((r.take(n as int), r.skip(n as int)))
        } else {
            None
        },
        None => None,
    }
}

/// Decoding the encoding of a byte string yields it back.
pub proof fn lemma_bytes_round_trip(s: Seq<u8>, rest: Seq<u8>)
    requires
        s.len() < 0x10000000000000000,
    ensures
        sd_bytes(enc_bytes(s) + rest) == Some((s, rest)),
{
    let n = s.len() as u64;
    assert(enc_bytes(s) + rest =~= enc_u64(n) + (s + rest));
    lemma_u64_round_trip(n, s + rest);
    assert((s + rest).take(n as int) =~= s);
    assert((s + rest).skip(n as int) =~= rest);
}

/// Append the encoding of a byte string to an output buffer.
pub fn write_bytes(out: &mut Vec<u8>, s: &[u8])
    ensures
        final(out)@ == old(out)@ + enc_bytes(s@),
{
    write_u64(out, s.len() as u64);
    out.extend_from_slice(s);
    assert(final(out)@ =~= old(out)@ + enc_bytes(s@));
}

/// Read a raw byte string from position `pos` of the buffer.
pub fn read_bytes(b: &Vec<u8>, pos: usize) -> (r: Option<(Vec<u8>, usize)>)
    requires
        pos <= b@.len(),
    ensures
        match sd_bytes(b@.skip(pos as int)) {
            Some((v, rest)) => {
                &&& r matches Some((rv, np)) && rv@ == v && np <= b@.len()
                &&& rest == b@.skip(r.unwrap().1 as int)
            },
            None => r is None,
        },
{
    let t = Ghost(b@.skip(pos as int));
    match read_u64(b, pos) {
        None => None,
        Some((n, p2)) => {
            if n > (b.len() - p2) as u64 {
                assert(t@.skip(8).len() < n);
                return None;
            }
            let len = n as usize;
            let end = p2 + len;
            let mut v: Vec<u8> = Vec::new();
            let mut j: usize = p2;
            while j < end
                invariant
                    p2 <= j <= end,
                    end <= b@.len(),
                    v@ =~= b@.subrange(p2 as int, j as int),
                decreases end - j,
            {
                v.push(b[j]);
                j = j + 1;
            }
            assert(v@ =~= t@.skip(8).take(n as int));
            assert(b@.skip(p2 + len) =~= t@.skip(8).skip(n as int));
            Some((v, p2 + len))
        },
    }
}

/// Relies on `String::from_utf8`: it succeeds exactly on valid UTF-8 input,
/// and then returns the string whose characters those bytes encode.
#[verifier::external_body]
fn string_from_utf8(v: Vec<u8>) -> (r: Option<String>)
    ensures
        r is Some <==> valid_utf8(v@),
        r matches Some(s) ==> s@ == decode_utf8(v@),
{
    String::from_utf8(v).ok()
}

/// The encoding of a text string: its UTF-8 bytes, as a byte string.
pub open spec fn enc_str(s: Seq<char>) -> Seq<u8> {
    enc_bytes(encode_utf8(s))
}

/// Decode a text string from the front of `b`; fails on a byte string that
/// is not valid UTF-8.
pub open spec fn sd_str(b: Seq<u8>) -> Option<(Seq<char>, Seq<u8>)> {
    match sd_bytes(b) {
        Some((bs, r)) => if valid_utf8(bs) {
            Some((decode_utf8(bs), r))
        } else {
            None
        },
        None => None,
    }
}

/// Decoding the encoding of a text string yields it back.
pub proof fn lemma_str_round_trip(s: Seq<char>, rest: Seq<u8>)
    requires
        encode_utf8(s).len() < 0x10000000000000000,
    ensures
        sd_str(enc_str(s) + rest) == Some((s, rest)),
{
    lemma_bytes_round_trip(encode_utf8(s), rest);
    encode_utf8_valid_utf8(s);
    encode_utf8_decode_utf8(s);
}

/// Append the encoding of a text string to an output buffer.
pub fn write_str(out: &mut Vec<u8>, s: &str)
    ensures
        final(out)@ == old(out)@ + enc_str(s@),
        encode_utf8(s@).len() < 0x10000000000000000,
{
    let bs = s.as_bytes();
    let n = bs.len();
    assert(encode_utf8(s@).len() == n);
    write_bytes(out, bs);
}

/// Read a text string from position `pos` of the buffer.
pub fn read_str(b: &Vec<u8>, pos: usize) -> (r: Option<(String, usize)>)
    requires
        pos <= b@.len(),
    ensures
        match sd_str(b@.skip(pos as int)) {
            Some((v, rest)) => {
                &&& r matches Some((s, np)) && s@ == v && np <= b@.len()
                &&& rest == b@.skip(r.unwrap().1 as int)
            },
            None => r is None,
        },
{
    match read_bytes(b, pos) {
        None => None,
        Some((bs, np)) => {
            match string_from_utf8(bs) {
                None => None,
                Some(s) => Some((s, np)),
            }
        },
    }
}

/// The biased representation of a signed 64-bit integer: shifted up so the
/// whole range is nonnegative and the numeric order is kept.
pub open spec fn bias_i64(v: i64) -> u64 {
    (v + 9223372036854775808) as u64
}

/// The signed value of a biased representation.
pub open spec fn unbias_i64(u: u64) -> i64 {
    (u - 9223372036854775808) as i64
}

/// Biasing is inverted by unbiasing.
pub proof fn lemma_bias_round_trip(v: i64)
    ensures
        unbias_i64(bias_i64(v)) == v,
{
}

/// Discriminant byte of an unsigned-integer payload.
pub const TAG_UINT: u8 = 1;

/// Discriminant byte of a signed-integer payload.
pub const TAG_INT: u8 = 2;

/// Discriminant byte of a boolean payload.
pub const TAG_FLAG: u8 = 3;

/// Discriminant byte of a text payload.
pub const TAG_TEXT: u8 = 4;

/// Discriminant byte of a byte-string payload.
pub const TAG_BYTES: u8 = 5;

/// Discriminant byte of an empty data container.
pub const TAG_EMPTY: u8 = 0;

/// The encoding of a payload value: its discriminant byte, then its body.
pub open spec fn enc_payload(p: PayloadView) -> Seq<u8> {
    match p {
        PayloadView::Uint(v) => seq![TAG_UINT] + enc_u64(v),
        PayloadView::Int(v) => seq![TAG_INT] + enc_u64(bias_i64(v)),
        PayloadView::Flag(v) => seq![TAG_FLAG, (if v { 1u8 } else { 0u8 })],
        PayloadView::Text(s) => seq![TAG_TEXT] + enc_str(s),
        PayloadView::Bytes(s) => seq![TAG_BYTES] + enc_bytes(s),
    }
}

/// Decode a payload value from the front of `b`.
pub open spec fn sd_payload(b: Seq<u8>) -> Option<(PayloadView, Seq<u8>)> {
    if b.len() < 1 {
        None
    } else if b[0] == TAG_UINT {
        match sd_u64(b.skip(1)) {
            Some((v, r)) => Some((PayloadView::Uint(v), r)),
            None => None,
        }
    } else if b[0] == TAG_INT {
        match sd_u64(b.skip(1)) {
            Some((v, r)) => Some((PayloadView::Int(unbias_i64(v)), r)),
            None => None,
        }
    } else if b[0] == TAG_FLAG {
        if b.len() < 2 {
            None
        } else if b[1] == 1 {
            Some((PayloadView::Flag(true), b.skip(2)))
        } else if b[1] == 0 {
            Some((PayloadView::Flag(false), b.skip(2)))
        } else {
            None
        }
    } else if b[0] == TAG_TEXT {
        match sd_str(b.skip(1)) {
            Some((v, r)) => Some((PayloadView::Text(v), r)),
            None => None,
        }
    } else if b[0] == TAG_BYTES {
        match sd_bytes(b.skip(1)) {
            Some((v, r)) => Some((PayloadView::Bytes(v), r)),
            None => None,
        }
    } else {
        None
    }
}

/// Whether a payload value is small enough to encode: its length fields fit
/// in 64 bits. Every payload held by an executable value fits.
pub open spec fn payload_fits(p: PayloadView) -> bool {
    match p {
        PayloadView::Text(s) => encode_utf8(s).len() < 0x10000000000000000,
        PayloadView::Bytes(s) => s.len() < 0x10000000000000000,
        _ => true,
    }
}

/// Decoding the encoding of a payload value yields it back.
pub proof fn lemma_payload_round_trip(p: PayloadView, rest: Seq<u8>)
    requires
        payload_fits(p),
    ensures
        sd_payload(enc_payload(p) + rest) == Some((p, rest)),
{
    let b = enc_payload(p) + rest;
    match p {
        PayloadView::Uint(v) => {
            assert(b.skip(1) =~= enc_u64(v) + rest);
            lemma_u64_round_trip(v, rest);
        },
        PayloadView::Int(v) => {
            assert(b.skip(1) =~= enc_u64(bias_i64(v)) + rest);
            lemma_u64_round_trip(bias_i64(v), rest);
            lemma_bias_round_trip(v);
        },
        PayloadView::Flag(v) => {
            assert(b.skip(2) =~= rest);
        },
        PayloadView::Text(s) => {
            assert(b.skip(1) =~= enc_str(s) + rest);
            lemma_str_round_trip(s, rest);
        },
        PayloadView::Bytes(s) => {
            assert(b.skip(1) =~= enc_bytes(s) + rest);
            lemma_bytes_round_trip(s, rest);
        },
    }
}

/// Append the encoding of a payload value to an output buffer.
#[verifier::rlimit(50)]
pub fn write_payload(out: &mut Vec<u8>, p: &Payload)
    ensures
        final(out)@ == old(out)@ + enc_payload(p@),
        payload_fits(p@),
{
    match p {
        Payload::Uint(v) => {
            out.push(TAG_UINT);
            write_u64(out, *v);
            assert(final(out)@ =~= old(out)@ + enc_payload(p@));
        },
        Payload::Int(v) => {
            out.push(TAG_INT);
            let biased: u64 = if *v >= 0 {
                (*v as u64) + 9223372036854775808
            } else {
                ((*v + 4611686018427387904) + 4611686018427387904) as u64
            };
            assert(biased == bias_i64(*v));
            write_u64(out, biased);
            assert(final(out)@ =~= old(out)@ + enc_payload(p@));
        },
        Payload::Flag(v) => {
            out.push(TAG_FLAG);
            out.push(if *v {
                1
            } else {
                0
            });
            assert(final(out)@ =~= old(out)@ + enc_payload(p@));
        },
        Payload::Text(s) => {
            out.push(TAG_TEXT);
            write_str(out, s.as_str());
            assert(final(out)@ =~= old(out)@ + enc_payload(p@));
        },
        Payload::Bytes(s) => {
            out.push(TAG_BYTES);
            let n = s.len();
            assert(s@.len() == n);
            write_bytes(out, s.as_slice());
            assert(final(out)@ =~= old(out)@ + enc_payload(p@));
        },
    }
}

/// Read a payload value from position `pos` of the buffer.
pub fn read_payload(b: &Vec<u8>, pos: usize) -> (r: Option<(Payload, usize)>)
    requires
        pos <= b@.len(),
    ensures
        match sd_payload(b@.skip(pos as int)) {
            Some((v, rest)) => {
                &&& r matches Some((p, np)) && p@ == v && np <= b@.len()
                &&& rest == b@.skip(r.unwrap().1 as int)
            },
            None => r is None,
        },
{
    let ghost t = b@.skip(pos as int);
    if pos >= b.len() {
        return None;
    }
    let tag = b[pos];
    assert(t[0] == tag);
    if tag == TAG_UINT {
        assert(t.skip(1) =~= b@.skip(pos + 1));
        match read_u64(b, pos + 1) {
            Some((v, np)) => Some((Payload::Uint(v), np)),
            None => None,
        }
    } else if tag == TAG_INT {
        assert(t.skip(1) =~= b@.skip(pos + 1));
        match read_u64(b, pos + 1) {
            Some((v, np)) => {
                let val: i64 = if v >= 9223372036854775808 {
                    (v - 9223372036854775808) as i64
                } else {
                    (v as i64 - 4611686018427387904) - 4611686018427387904
                };
                assert(val == unbias_i64(v));
                Some((Payload::Int(val), np))
            },
            None => None,
        }
    } else if tag == TAG_FLAG {
        if pos + 1 >= b.len() {
            return None;
        }
        let fb = b[pos + 1];
        assert(t[1] == fb);
        if fb == 1 {
            assert(t.skip(2) =~= b@.skip(pos + 2));
            Some((Payload::Flag(true), pos + 2))
        } else if fb == 0 {
            assert(t.skip(2) =~= b@.skip(pos + 2));
            Some((Payload::Flag(false), pos + 2))
        } else {
            None
        }
    } else if tag == TAG_TEXT {
        assert(t.skip(1) =~= b@.skip(pos + 1));
        match read_str(b, pos + 1) {
            Some((s, np)) => Some((Payload::Text(s), np)),
            None => None,
        }
    } else if tag == TAG_BYTES {
        assert(t.skip(1) =~= b@.skip(pos + 1));
        match read_bytes(b, pos + 1) {
            Some((s, np)) => Some((Payload::Bytes(s), np)),
            None => None,
        }
    } else {
        None
    }
}

/// The encoding of a data container: one empty-marker byte, or the payload
/// whose discriminant byte distinguishes it from the marker.
pub open spec fn enc_data(d: DataView) -> Seq<u8> {
    match d {
        DataView::Empty => seq![TAG_EMPTY],
        DataView::Value(p) => enc_payload(p),
    }
}

/// Decode a data container from the front of `b`.
pub open spec fn sd_data(b: Seq<u8>) -> Option<(DataView, Seq<u8>)> {
    if b.len() < 1 {
        None
    } else if b[0] == TAG_EMPTY {
        Some((DataView::Empty, b.skip(1)))
    } else {
        match sd_payload(b) {
            Some((p, r)) => Some((DataView::Value(p), r)),
            None => None,
        }
    }
}

/// Whether a data container is small enough to encode.
pub open spec fn data_fits(d: DataView) -> bool {
    match d {
        DataView::Empty => true,
        DataView::Value(p) => payload_fits(p),
    }
}

/// Decoding the encoding of a data container yields it back.
pub proof fn lemma_data_round_trip(d: DataView, rest: Seq<u8>)
    requires
        data_fits(d),
    ensures
        sd_data(enc_data(d) + rest) == Some((d, rest)),
{
    let b = enc_data(d) + rest;
    match d {
        DataView::Empty => {
            assert(b.skip(1) =~= rest);
        },
        DataView::Value(p) => {
            lemma_payload_round_trip(p, rest);
        },
    }
}

/// Append the encoding of a data container to an output buffer.
pub fn write_data(out: &mut Vec<u8>, d: &Data)
    ensures
        final(out)@ == old(out)@ + enc_data(d@),
        data_fits(d@),
{
    match d {
        Data::Empty => {
            out.push(TAG_EMPTY);
            assert(final(out)@ =~= old(out)@ + enc_data(d@));
        },
        Data::Value(p) => {
            write_payload(out, p);
        },
    }
}

/// Read a data container from position `pos` of the buffer.
pub fn read_data(b: &Vec<u8>, pos: usize) -> (r: Option<(Data, usize)>)
    requires
        pos <= b@.len(),
    ensures
        match sd_data(b@.skip(pos as int)) {
            Some((v, rest)) => {
                &&& r matches Some((d, np)) && d@ == v && np <= b@.len()
                &&& rest == b@.skip(r.unwrap().1 as int)
            },
            None => r is None,
        },
{
    let ghost t = b@.skip(pos as int);
    if pos >= b.len() {
        return None;
    }
    let tag = b[pos];
    assert(t[0] == tag);
    if tag == TAG_EMPTY {
        assert(t.skip(1) =~= b@.skip(pos + 1));
        Some((Data::Empty, pos + 1))
    } else {
        match read_payload(b, pos) {
            Some((p, np)) => Some((Data::Value(p), np)),
            None => None,
        }
    }
}

} // verus!
