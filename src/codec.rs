//! The pieces that the wire messages and the log records are built from.
//!
//! A string is written as an eight-byte little-endian byte count followed by
//! its UTF-8 bytes. Reading one item from a stream gives the item and where
//! it ends, or says that the bytes end before the item does (more may still
//! come), or that they can never start a valid item.

use vstd::prelude::*;
use vstd::bytes::*;
use vstd::slice::*;
use vstd::utf8::*;

verus! {

broadcast use encode_utf8_valid_utf8, encode_utf8_decode_utf8;

/// What reading one item from position `pos` of a byte sequence gives.
pub enum Parse<T> {
    /// The item, and the position just after it.
    Done(T, nat),
    /// The bytes end before the item does.
    Incomplete,
    /// The bytes can never start a valid item.
    Invalid,
}

/// The executable result of reading one item.
#[derive(Debug, PartialEq, Eq)]
pub enum Decoded<T> {
    Done(T, usize),
    Incomplete,
    Invalid,
}

impl<T: View> View for Decoded<T> {
    type V = Parse<T::V>;

    open spec fn view(&self) -> Parse<T::V> {
        match self {
            Decoded::Done(t, end) => Parse::Done(t@, *end as nat),
            Decoded::Incomplete => Parse::Incomplete,
            Decoded::Invalid => Parse::Invalid,
        }
    }
}

/// The encoding of a string: its UTF-8 byte count, then its UTF-8 bytes.
pub open spec fn str_bytes(s: Seq<char>) -> Seq<u8> {
    spec_u64_to_le_bytes(encode_utf8(s).len() as u64) + encode_utf8(s)
}

/// A string whose UTF-8 form has a byte count that fits the length field.
pub open spec fn str_fits(s: Seq<char>) -> bool {
    encode_utf8(s).len() <= u64::MAX
}

/// Reading a string that starts at `pos`.
pub open spec fn parse_str(b: Seq<u8>, pos: int) -> Parse<Seq<char>> {
    if b.len() < pos + 8 {
        Parse::Incomplete
    } else {
        let n = spec_u64_from_le_bytes(b.subrange(pos, pos + 8));
        let body = b.subrange(pos + 8, pos + 8 + n);
        if b.len() < pos + 8 + n {
            Parse::Incomplete
        } else if !valid_utf8(body) {
            Parse::Invalid
        } else {
            Parse::Done(decode_utf8(body), (pos + 8 + n) as nat)
        }
    }
}

/// Where the encoding of `s` stands at `pos` of `b`, reading there gives `s`
/// back and stops right after it, whatever follows.
pub proof fn lemma_str_round_trip(s: Seq<char>, b: Seq<u8>, pos: int)
    requires
        str_fits(s),
        0 <= pos,
        pos + str_bytes(s).len() <= b.len(),
        b.subrange(pos, pos + str_bytes(s).len()) == str_bytes(s),
    ensures
        parse_str(b, pos) == Parse::Done(s, (pos + str_bytes(s).len()) as nat),
{
    let e = encode_utf8(s);
    let n = e.len() as u64;
    lemma_auto_spec_u64_to_from_le_bytes();
    let enc = str_bytes(s);
    assert(enc.len() == 8 + e.len());
    assert(b.subrange(pos, pos + 8) == enc.subrange(0, 8));
    assert(enc.subrange(0, 8) == spec_u64_to_le_bytes(n));
    assert(b.subrange(pos + 8, pos + 8 + n) == enc.subrange(8, enc.len() as int));
    assert(enc.subrange(8, enc.len() as int) == e);
}

/// Relies on `String::from_utf8`: it accepts exactly the valid UTF-8
/// sequences and gives the characters that they encode.
#[verifier::external_body]
pub(crate) fn string_from_utf8(bytes: Vec<u8>) -> (r: Result<String, std::string::FromUtf8Error>)
    ensures
        r is Ok <==> valid_utf8(bytes@),
        r is Ok ==> r->Ok_0@ == decode_utf8(bytes@),
{
    String::from_utf8(bytes)
}

/// Appends the encoding of `s`.
pub fn write_str(out: &mut Vec<u8>, s: &str)
    ensures
        final(out)@ == old(out)@ + str_bytes(s@),
        str_fits(s@),
{
    let bytes = s.as_bytes();
    let count = u64_to_le_bytes(bytes.len() as u64);
    extend(out, count.as_slice());
    extend(out, bytes);
}

pub(crate) fn extend(out: &mut Vec<u8>, more: &[u8])
    ensures
        final(out)@ == old(out)@ + more@,
{
    let mut i: usize = 0;
    while i < more.len()
        invariant
            i <= more@.len(),
            out@ == old(out)@ + more@.subrange(0, i as int),
        decreases more@.len() - i,
    {
        out.push(more[i]);
        i = i + 1;
        assert(more@.subrange(0, i as int) == more@.subrange(0, i - 1) + seq![more@[i - 1]]);
    }
    assert(more@.subrange(0, i as int) == more@);
}

/// Reads the string that starts at `pos`.
pub fn read_str(b: &[u8], pos: usize) -> (r: Decoded<String>)
    requires
        pos <= b@.len(),
    ensures
        r@ == parse_str(b@, pos as int),
{
    if b.len() - pos < 8 {
        return Decoded::Incomplete;
    }
    let n = u64_from_le_bytes(slice_subrange(b, pos, pos + 8));
    let avail: usize = b.len() - (pos + 8);
    if n > avail as u64 {
        return Decoded::Incomplete;
    }
    let end: usize = pos + 8 + n as usize;
    let body = slice_to_vec(slice_subrange(b, pos + 8, end));
    match string_from_utf8(body) {
        Ok(s) => Decoded::Done(s, end),
        Err(_) => Decoded::Invalid,
    }
}

} // verus!
