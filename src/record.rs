//! The commands that the log holds, and their encoding.
//!
//! A record starts with a header: a tag byte, the UTF-8 byte count of the
//! key, for a `Put` the byte count of the value, and a check word computed
//! from the tag and the counts. The key's and the value's bytes follow. The
//! check word lets a reader tell a record cut short by the end of the file
//! (a torn last write) from a record whose counts were damaged: the first
//! has a header that is consistent as far as it goes, the second does not.

use vstd::prelude::*;
use vstd::bytes::*;
use vstd::slice::*;
use vstd::utf8::*;

use crate::codec::{extend, str_fits, string_from_utf8, Decoded, Parse};

verus! {

broadcast use encode_utf8_valid_utf8, encode_utf8_decode_utf8;

/// A mutation as the log records it.
#[derive(Clone, Debug, PartialEq, Eq)]
pub enum Command {
    /// Sets `key` to `value`.
    Put { key: String, value: String },
    /// Removes `key`.
    Remove { key: String },
}

/// A command over character sequences.
pub enum CommandView {
    Put { key: Seq<char>, value: Seq<char> },
    Remove { key: Seq<char> },
}

impl View for Command {
    type V = CommandView;

    open spec fn view(&self) -> CommandView {
        match self {
            Command::Put { key, value } => CommandView::Put { key: key@, value: value@ },
            Command::Remove { key } => CommandView::Remove { key: key@ },
        }
    }
}

pub const PUT_TAG: u8 = 0;

pub const REMOVE_TAG: u8 = 1;

/// Mixed into every check word, so that a header of zero bytes is not valid.
pub const CHECK_SEED: u64 = 0x9e37_79b9_7f4a_7c15;

/// The check word of a header with the given tag and byte counts.
pub open spec fn header_check(tag: u8, key_len: u64, value_len: u64) -> u64 {
    CHECK_SEED ^ key_len ^ !value_len ^ (tag as u64)
}

/// The byte count of the header of a record with the given tag.
pub open spec fn header_len(tag: u8) -> int {
    if tag == PUT_TAG {
        25
    } else {
        17
    }
}

/// The header of a record with the given tag and byte counts; a `Remove`
/// header has no value count.
pub open spec fn header_bytes(tag: u8, key_len: u64, value_len: u64) -> Seq<u8> {
    if tag == PUT_TAG {
        seq![tag] + spec_u64_to_le_bytes(key_len) + spec_u64_to_le_bytes(value_len)
            + spec_u64_to_le_bytes(header_check(tag, key_len, value_len))
    } else {
        seq![tag] + spec_u64_to_le_bytes(key_len) + spec_u64_to_le_bytes(
            header_check(tag, key_len, 0),
        )
    }
}

/// The bytes of a command in the log.
pub open spec fn command_bytes(c: CommandView) -> Seq<u8> {
    match c {
        CommandView::Put { key, value } => header_bytes(
            PUT_TAG,
            encode_utf8(key).len() as u64,
            encode_utf8(value).len() as u64,
        ) + encode_utf8(key) + encode_utf8(value),
        CommandView::Remove { key } => header_bytes(REMOVE_TAG, encode_utf8(key).len() as u64, 0)
            + encode_utf8(key),
    }
}

/// The strings of a command fit their length fields.
pub open spec fn command_fits(c: CommandView) -> bool {
    match c {
        CommandView::Put { key, value } => str_fits(key) && str_fits(value),
        CommandView::Remove { key } => str_fits(key),
    }
}

/// The eight-byte little-endian field at `at`.
pub open spec fn field(b: Seq<u8>, at: int) -> u64 {
    spec_u64_from_le_bytes(b.subrange(at, at + 8))
}

/// The value count that the header at the start of `b` gives (none for a
/// `Remove`).
pub open spec fn value_len_field(b: Seq<u8>) -> u64 {
    if b[0] == PUT_TAG {
        field(b, 9)
    } else {
        0
    }
}

/// Reading one command from the start of `b`.
///
/// `Incomplete` means that `b` is empty or is cut short inside a record
/// whose header is consistent as far as `b` holds it: the bytes present are
/// the start of a valid header, or a whole valid header is there and the
/// record it announces runs past the end. Anything else that is no record is
/// `Invalid`.
pub open spec fn parse_command(b: Seq<u8>) -> Parse<CommandView> {
    if b.len() == 0 {
        Parse::Incomplete
    } else if b[0] != PUT_TAG && b[0] != REMOVE_TAG {
        Parse::Invalid
    } else {
        let tag = b[0];
        let hl = header_len(tag);
        let cp = hl - 8;
        if b.len() < hl {
            if b.len() <= cp {
                Parse::Incomplete
            } else if b.subrange(cp, b.len() as int) == spec_u64_to_le_bytes(
                header_check(tag, field(b, 1), value_len_field(b)),
            ).subrange(0, b.len() - cp) {
                Parse::Incomplete
            } else {
                Parse::Invalid
            }
        } else {
            let kl = field(b, 1);
            let vl = value_len_field(b);
            if field(b, cp) != header_check(tag, kl, vl) {
                Parse::Invalid
            } else if b.len() < hl + kl + vl {
                Parse::Incomplete
            } else {
                let kb = b.subrange(hl, hl + kl);
                let vb = b.subrange(hl + kl, hl + kl + vl);
                if !valid_utf8(kb) || !valid_utf8(vb) {
                    Parse::Invalid
                } else if tag == PUT_TAG {
                    Parse::Done(
                        CommandView::Put { key: decode_utf8(kb), value: decode_utf8(vb) },
                        (hl + kl + vl) as nat,
                    )
                } else {
                    Parse::Done(CommandView::Remove { key: decode_utf8(kb) }, (hl + kl) as nat)
                }
            }
        }
    }
}

proof fn lemma_header_fields(c: CommandView, b: Seq<u8>)
    requires
        command_fits(c),
        b.len() >= header_len(
            if c is Put {
                PUT_TAG
            } else {
                REMOVE_TAG
            },
        ),
        b.subrange(
            0,
            header_len(
                if c is Put {
                    PUT_TAG
                } else {
                    REMOVE_TAG
                },
            ),
        ) == command_bytes(c).subrange(
            0,
            header_len(
                if c is Put {
                    PUT_TAG
                } else {
                    REMOVE_TAG
                },
            ),
        ),
    ensures
        match c {
            CommandView::Put { key, value } => {
                &&& b[0] == PUT_TAG
                &&& field(b, 1) == encode_utf8(key).len()
                &&& field(b, 9) == encode_utf8(value).len()
                &&& field(b, 17) == header_check(
                    PUT_TAG,
                    encode_utf8(key).len() as u64,
                    encode_utf8(value).len() as u64,
                )
            },
            CommandView::Remove { key } => {
                &&& b[0] == REMOVE_TAG
                &&& field(b, 1) == encode_utf8(key).len()
                &&& field(b, 9) == header_check(REMOVE_TAG, encode_utf8(key).len() as u64, 0)
            },
        },
{
    lemma_auto_spec_u64_to_from_le_bytes();
    let cb = command_bytes(c);
    match c {
        CommandView::Put { key, value } => {
            let kl = encode_utf8(key).len() as u64;
            let vl = encode_utf8(value).len() as u64;
            let h = b.subrange(0, 25);
            assert(h == cb.subrange(0, 25));
            assert(b.subrange(1, 9) == h.subrange(1, 9));
            assert(cb.subrange(1, 9) == cb.subrange(0, 25).subrange(1, 9));
            assert(b.subrange(9, 17) == h.subrange(9, 17));
            assert(cb.subrange(9, 17) == cb.subrange(0, 25).subrange(9, 17));
            assert(b.subrange(17, 25) == h.subrange(17, 25));
            assert(cb.subrange(17, 25) == cb.subrange(0, 25).subrange(17, 25));
            assert(b[0] == b.subrange(0, 25)[0]);
            assert(b.subrange(1, 9) == cb.subrange(1, 9));
            assert(cb.subrange(1, 9) == spec_u64_to_le_bytes(kl));
            assert(b.subrange(9, 17) == cb.subrange(9, 17));
            assert(cb.subrange(9, 17) == spec_u64_to_le_bytes(vl));
            assert(b.subrange(17, 25) == cb.subrange(17, 25));
            assert(cb.subrange(17, 25) == spec_u64_to_le_bytes(header_check(PUT_TAG, kl, vl)));
        },
        CommandView::Remove { key } => {
            let kl = encode_utf8(key).len() as u64;
            let h = b.subrange(0, 17);
            assert(h == cb.subrange(0, 17));
            assert(b.subrange(1, 9) == h.subrange(1, 9));
            assert(cb.subrange(1, 9) == cb.subrange(0, 17).subrange(1, 9));
            assert(b.subrange(9, 17) == h.subrange(9, 17));
            assert(cb.subrange(9, 17) == cb.subrange(0, 17).subrange(9, 17));
            assert(b[0] == b.subrange(0, 17)[0]);
            assert(b.subrange(1, 9) == cb.subrange(1, 9));
            assert(cb.subrange(1, 9) == spec_u64_to_le_bytes(kl));
            assert(b.subrange(9, 17) == cb.subrange(9, 17));
            assert(cb.subrange(9, 17) == spec_u64_to_le_bytes(header_check(REMOVE_TAG, kl, 0)));
        },
    }
}

/// Reading the encoding of `c`, with anything after it, gives `c` back and
/// stops right after it.
pub proof fn lemma_command_round_trip(c: CommandView, rest: Seq<u8>)
    requires
        command_fits(c),
    ensures
        parse_command(command_bytes(c) + rest) == Parse::Done(c, command_bytes(c).len()),
{
    lemma_auto_spec_u64_to_from_le_bytes();
    let cb = command_bytes(c);
    let b = cb + rest;
    match c {
        CommandView::Put { key, value } => {
            let kl = encode_utf8(key).len() as int;
            let vl = encode_utf8(value).len() as int;
            assert(cb.len() == 25 + kl + vl);
            assert(b.subrange(0, 25) == cb.subrange(0, 25));
            lemma_header_fields(c, b);
            assert(b.subrange(25, 25 + kl) == encode_utf8(key));
            assert(b.subrange(25 + kl, 25 + kl + vl) == encode_utf8(value));
        },
        CommandView::Remove { key } => {
            let kl = encode_utf8(key).len() as int;
            assert(cb.len() == 17 + kl);
            assert(b.subrange(0, 17) == cb.subrange(0, 17));
            lemma_header_fields(c, b);
            assert(b.subrange(17, 17 + kl) == encode_utf8(key));
            assert(b.subrange(17 + kl, 17 + kl + 0) == Seq::<u8>::empty());
        },
    }
}

/// A command that was read is exactly the bytes it was read from.
pub proof fn lemma_command_parse_exact(b: Seq<u8>)
    requires
        parse_command(b) is Done,
    ensures
        ({
            let (c, n) = (parse_command(b)->Done_0, parse_command(b)->Done_1);
            &&& n <= b.len()
            &&& b.subrange(0, n as int) == command_bytes(c)
            &&& command_fits(c)
        }),
{
    lemma_auto_spec_u64_to_from_le_bytes();
    let tag = b[0];
    let hl = header_len(tag);
    let kl = field(b, 1);
    let vl = value_len_field(b);
    let kb = b.subrange(hl, hl + kl);
    let vb = b.subrange(hl + kl, hl + kl + vl);
    decode_utf8_encode_utf8(kb);
    decode_utf8_encode_utf8(vb);
    assert(spec_u64_to_le_bytes(kl) == b.subrange(1, 9));
    assert(spec_u64_to_le_bytes(field(b, hl - 8)) == b.subrange(hl - 8, hl));
    if tag == PUT_TAG {
        assert(spec_u64_to_le_bytes(vl) == b.subrange(9, 17));
        assert(b.subrange(0, hl + kl + vl) == seq![tag] + b.subrange(1, 9) + b.subrange(9, 17)
            + b.subrange(17, 25) + kb + vb);
    } else {
        assert(vb == Seq::<u8>::empty());
        assert(b.subrange(0, hl + kl) == seq![tag] + b.subrange(1, 9) + b.subrange(9, 17) + kb);
    }
}

/// Every proper prefix of a command's encoding reads as cut short, never as
/// a command and never as invalid.
pub proof fn lemma_command_prefix_incomplete(c: CommandView, k: int)
    requires
        command_fits(c),
        0 <= k < command_bytes(c).len(),
    ensures
        parse_command(command_bytes(c).take(k)) is Incomplete,
{
    lemma_auto_spec_u64_to_from_le_bytes();
    let full = command_bytes(c);
    let b = full.take(k);
    let tag: u8 = if c is Put {
        PUT_TAG
    } else {
        REMOVE_TAG
    };
    let hl = header_len(tag);
    if k > 0 {
        assert(b[0] == full[0]);
        assert(full[0] == tag);
        if k >= hl {
            assert(b.subrange(0, hl) == full.subrange(0, hl));
            lemma_header_fields(c, b);
        } else if k > hl - 8 {
            match c {
                CommandView::Put { key, value } => {
                    let kl = encode_utf8(key).len() as u64;
                    let vl = encode_utf8(value).len() as u64;
                    assert(b.subrange(1, 9) == spec_u64_to_le_bytes(kl));
                    assert(b.subrange(9, 17) == spec_u64_to_le_bytes(vl));
                    assert(b.subrange(17, k) == spec_u64_to_le_bytes(
                        header_check(PUT_TAG, kl, vl),
                    ).subrange(0, k - 17));
                },
                CommandView::Remove { key } => {
                    let kl = encode_utf8(key).len() as u64;
                    assert(b.subrange(1, 9) == spec_u64_to_le_bytes(kl));
                    assert(b.subrange(9, k) == spec_u64_to_le_bytes(
                        header_check(REMOVE_TAG, kl, 0),
                    ).subrange(0, k - 9));
                },
            }
        }
    }
}

fn check_word(tag: u8, key_len: u64, value_len: u64) -> (r: u64)
    ensures
        r == header_check(tag, key_len, value_len),
{
    CHECK_SEED ^ key_len ^ !value_len ^ (tag as u64)
}

impl Command {
    /// The bytes of the command in the log.
    pub fn encode(&self) -> (r: Vec<u8>)
        ensures
            r@ == command_bytes(self@),
            command_fits(self@),
    {
        let mut out: Vec<u8> = Vec::new();
        match self {
            Command::Put { key, value } => {
                let kb = key.as_str().as_bytes();
                let vb = value.as_str().as_bytes();
                let kl = kb.len() as u64;
                let vl = vb.len() as u64;
                out.push(PUT_TAG);
                extend(&mut out, u64_to_le_bytes(kl).as_slice());
                extend(&mut out, u64_to_le_bytes(vl).as_slice());
                extend(&mut out, u64_to_le_bytes(check_word(PUT_TAG, kl, vl)).as_slice());
                extend(&mut out, kb);
                extend(&mut out, vb);
            },
            Command::Remove { key } => {
                let kb = key.as_str().as_bytes();
                let kl = kb.len() as u64;
                out.push(REMOVE_TAG);
                extend(&mut out, u64_to_le_bytes(kl).as_slice());
                extend(&mut out, u64_to_le_bytes(check_word(REMOVE_TAG, kl, 0)).as_slice());
                extend(&mut out, kb);
            },
        }
        out
    }

    /// The byte count of the command's encoding, if it fits a `u64`.
    pub fn encoded_len(&self) -> (r: Option<u64>)
        ensures
            r is Some <==> command_bytes(self@).len() <= u64::MAX,
            r is Some ==> r->Some_0 == command_bytes(self@).len(),
            command_fits(self@),
    {
        proof {
            lemma_auto_spec_u64_to_from_le_bytes();
        }
        match self {
            Command::Put { key, value } => {
                let k = key.as_str().as_bytes().len() as u64;
                let v = value.as_str().as_bytes().len() as u64;
                match (25u64).checked_add(k) {
                    Some(n) => n.checked_add(v),
                    None => None,
                }
            },
            Command::Remove { key } => {
                let k = key.as_str().as_bytes().len() as u64;
                (17u64).checked_add(k)
            },
        }
    }

    /// Reads one command from the start of `b`; `Done` carries the number of
    /// bytes it took.
    pub fn decode(b: &[u8]) -> (r: Decoded<Command>)
        ensures
            r@ == parse_command(b@),
    {
        let n = b.len();
        if n == 0 {
            return Decoded::Incomplete;
        }
        let tag = b[0];
        if tag != PUT_TAG && tag != REMOVE_TAG {
            return Decoded::Invalid;
        }
        let hl: usize = if tag == PUT_TAG {
            25
        } else {
            17
        };
        let cp: usize = hl - 8;
        if n < hl {
            if n <= cp {
                return Decoded::Incomplete;
            }
            let kl = u64_from_le_bytes(slice_subrange(b, 1, 9));
            let vl = if tag == PUT_TAG {
                u64_from_le_bytes(slice_subrange(b, 9, 17))
            } else {
                0
            };
            let expect = u64_to_le_bytes(check_word(tag, kl, vl));
            let mut i: usize = cp;
            while i < n
                invariant
                    cp <= i <= n,
                    n == b@.len(),
                    n < hl,
                    hl == cp + 8,
                    expect@.len() == 8,
                    b@.len() > 0,
                    b@[0] == PUT_TAG || b@[0] == REMOVE_TAG,
                    hl as int == header_len(b@[0]),
                    cp < n,
                    expect@ == spec_u64_to_le_bytes(
                        header_check(b@[0], field(b@, 1), value_len_field(b@)),
                    ),
                    forall|j: int| cp <= j < i ==> b@[j] == expect@[j - cp],
                decreases n - i,
            {
                if b[i] != expect[i - cp] {
                    assert(b@.subrange(cp as int, n as int)[i - cp] != expect@.subrange(
                        0,
                        n - cp,
                    )[i - cp]);
                    return Decoded::Invalid;
                }
                i = i + 1;
            }
            assert(b@.subrange(cp as int, n as int) == expect@.subrange(0, n - cp));
            return Decoded::Incomplete;
        }
        let kl = u64_from_le_bytes(slice_subrange(b, 1, 9));
        let vl = if tag == PUT_TAG {
            u64_from_le_bytes(slice_subrange(b, 9, 17))
        } else {
            0
        };
        let chk = u64_from_le_bytes(slice_subrange(b, cp, hl));
        if chk != check_word(tag, kl, vl) {
            return Decoded::Invalid;
        }
        let avail: usize = n - hl;
        if kl > avail as u64 {
            return Decoded::Incomplete;
        }
        let ku = kl as usize;
        if vl > (avail - ku) as u64 {
            return Decoded::Incomplete;
        }
        let vu = vl as usize;
        let key_bytes = slice_to_vec(slice_subrange(b, hl, hl + ku));
        let value_bytes = slice_to_vec(slice_subrange(b, hl + ku, hl + ku + vu));
        let key = match string_from_utf8(key_bytes) {
            Ok(s) => s,
            Err(_) => return Decoded::Invalid,
        };
        let value = match string_from_utf8(value_bytes) {
            Ok(s) => s,
            Err(_) => return Decoded::Invalid,
        };
        if tag == PUT_TAG {
            Decoded::Done(Command::Put { key, value }, hl + ku + vu)
        } else {
            Decoded::Done(Command::Remove { key }, hl + ku)
        }
    }
}

} // verus!
