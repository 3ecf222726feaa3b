//! The command codec: a `Command` value and its binary wire form.
//!
//! A frame is one tag byte followed by the command's fields in declaration
//! order.  A string field is a one-byte length prefix (0-255) followed by
//! that many UTF-8 bytes, which caps every key, value and pattern at 255
//! bytes.  The seconds field of `Expire` is an 8-byte little-endian unsigned
//! integer.  Tags: Set=1, Get=2, Delete=3, Expire=4, Incr=5, Decr=6, Keys=7.

use vstd::prelude::*;
use vstd::bytes::{
    lemma_auto_spec_u64_to_from_le_bytes, spec_u64_from_le_bytes, spec_u64_to_le_bytes,
    u64_from_le_bytes, u64_to_le_bytes,
};
use vstd::slice::{slice_index_get, slice_subrange, slice_to_vec};
use vstd::string::StringSliceAdditionalSpecFns;
use vstd::utf8::{
    decode_utf8, encode_utf8, encode_utf8_decode_utf8, encode_utf8_valid_utf8, valid_utf8,
};

verus! {

/// One requested operation, decoded from a frame and consumed once.
#[derive(Debug, Clone, PartialEq, Eq)]
pub enum Command {
    Put { key: String, value: String },
    Get { key: String },
    Delete { key: String },
    Expire { key: String, seconds: u64 },
    Incr { key: String },
    Decr { key: String },
    Keys { pattern: String },
}

/// The mathematical shape of a `Command`: each string field as its
/// sequence of characters.
pub enum CommandV {
    Put { key: Seq<char>, value: Seq<char> },
    Get { key: Seq<char> },
    Delete { key: Seq<char> },
    Expire { key: Seq<char>, seconds: u64 },
    Incr { key: Seq<char> },
    Decr { key: Seq<char> },
    Keys { pattern: Seq<char> },
}

impl View for Command {
    type V = CommandV;

    open spec fn view(&self) -> CommandV {
        match self {
            Command::Put { key, value } => CommandV::Put { key: key@, value: value@ },
            Command::Get { key } => CommandV::Get { key: key@ },
            Command::Delete { key } => CommandV::Delete { key: key@ },
            Command::Expire { key, seconds } => CommandV::Expire {
                key: key@,
                seconds: *seconds,
            },
            Command::Incr { key } => CommandV::Incr { key: key@ },
            Command::Decr { key } => CommandV::Decr { key: key@ },
            Command::Keys { pattern } => CommandV::Keys { pattern: pattern@ },
        }
    }
}

/// Why a frame failed to decode.
#[derive(Debug, Clone, Copy, PartialEq, Eq, Structural)]
pub enum DecodeError {
    /// The buffer ended before a complete frame was read (this includes a
    /// length prefix that claims more bytes than remain).
    Truncated,
    /// The tag byte names no command.
    UnknownTag,
    /// A string field's bytes are not valid UTF-8.
    InvalidUtf8,
}

/// The wire form of one string field: length prefix, then UTF-8 bytes.
pub open spec fn spec_field(s: Seq<char>) -> Seq<u8> {
    seq![encode_utf8(s).len() as u8] + encode_utf8(s)
}

/// A string field fits a frame when its UTF-8 form fits the length prefix.
pub open spec fn field_fits(s: Seq<char>) -> bool {
    encode_utf8(s).len() <= 255
}

impl CommandV {
    /// Every string field fits its one-byte length prefix; such commands
    /// are exactly the encodable ones.
    pub open spec fn wf(self) -> bool {
        match self {
            CommandV::Put { key, value } => field_fits(key) && field_fits(value),
            CommandV::Get { key } => field_fits(key),
            CommandV::Delete { key } => field_fits(key),
            CommandV::Expire { key, seconds } => field_fits(key),
            CommandV::Incr { key } => field_fits(key),
            CommandV::Decr { key } => field_fits(key),
            CommandV::Keys { pattern } => field_fits(pattern),
        }
    }
}

/// The one encoding of a command: tag byte, then fields in order.
pub open spec fn spec_encode(c: CommandV) -> Seq<u8> {
    match c {
        CommandV::Put { key, value } => seq![1u8] + spec_field(key) + spec_field(value),
        CommandV::Get { key } => seq![2u8] + spec_field(key),
        CommandV::Delete { key } => seq![3u8] + spec_field(key),
        CommandV::Expire { key, seconds } => seq![4u8] + spec_field(key) + spec_u64_to_le_bytes(
            seconds,
        ),
        CommandV::Incr { key } => seq![5u8] + spec_field(key),
        CommandV::Decr { key } => seq![6u8] + spec_field(key),
        CommandV::Keys { pattern } => seq![7u8] + spec_field(pattern),
    }
}

/// Reading one length-prefixed string field at `pos`: the characters and
/// the position after the field, or the error.
pub open spec fn spec_read_field(b: Seq<u8>, pos: int) -> Result<(Seq<char>, int), DecodeError> {
    if pos < 0 || pos >= b.len() {
        Err(DecodeError::Truncated)
    } else {
        let n = b[pos] as int;
        if pos + 1 + n > b.len() {
            Err(DecodeError::Truncated)
        } else {
            let chunk = b.subrange(pos + 1, pos + 1 + n);
            if valid_utf8(chunk) {
                Ok((decode_utf8(chunk), pos + 1 + n))
            } else {
                Err(DecodeError::InvalidUtf8)
            }
        }
    }
}

/// Decoding one frame from the front of `b`; bytes past the frame are
/// ignored, and a failed decode names its reason.
pub open spec fn spec_decode(b: Seq<u8>) -> Result<CommandV, DecodeError> {
    if b.len() == 0 {
        Err(DecodeError::Truncated)
    } else {
        let tag = b[0];
        if tag == 1 {
            match spec_read_field(b, 1) {
                Err(e) => Err(e),
                Ok((key, p)) => match spec_read_field(b, p) {
                    Err(e) => Err(e),
                    Ok((value, _)) => Ok(CommandV::Put { key, value }),
                },
            }
        } else if tag == 2 {
            match spec_read_field(b, 1) {
                Err(e) => Err(e),
                Ok((key, _)) => Ok(CommandV::Get { key }),
            }
        } else if tag == 3 {
            match spec_read_field(b, 1) {
                Err(e) => Err(e),
                Ok((key, _)) => Ok(CommandV::Delete { key }),
            }
        } else if tag == 4 {
            match spec_read_field(b, 1) {
                Err(e) => Err(e),
                Ok((key, p)) => if p + 8 > b.len() {
                    Err(DecodeError::Truncated)
                } else {
                    Ok(
                        CommandV::Expire {
                            key,
                            seconds: spec_u64_from_le_bytes(b.subrange(p, p + 8)),
                        },
                    )
                },
            }
        } else if tag == 5 {
            match spec_read_field(b, 1) {
                Err(e) => Err(e),
                Ok((key, _)) => Ok(CommandV::Incr { key }),
            }
        } else if tag == 6 {
            match spec_read_field(b, 1) {
                Err(e) => Err(e),
                Ok((key, _)) => Ok(CommandV::Decr { key }),
            }
        } else if tag == 7 {
            match spec_read_field(b, 1) {
                Err(e) => Err(e),
                Ok((pattern, _)) => Ok(CommandV::Keys { pattern }),
            }
        } else {
            Err(DecodeError::UnknownTag)
        }
    }
}

/// Relies on `String::from_utf8`: it succeeds exactly on valid UTF-8, and
/// the returned string's UTF-8 bytes are the input bytes.
#[verifier::external_body]
fn string_from_utf8(v: Vec<u8>) -> (r: Option<String>)
    ensures
        match r {
            Some(s) => encode_utf8(s@) == v@,
            None => !valid_utf8(v@),
        },
{
    String::from_utf8(v).ok()
}

/// Appends one length-prefixed string field to the buffer.
fn write_string(buffer: &mut Vec<u8>, s: &String)
    requires
        field_fits(s@),
    ensures
        final(buffer)@ == old(buffer)@ + spec_field(s@),
{
    let bytes: &[u8] = s.as_str().as_bytes();
    let n: u8 = bytes.len() as u8;
    buffer.push(n);
    buffer.extend_from_slice(bytes);
    proof {
        assert(buffer@ =~= old(buffer)@ + spec_field(s@));
    }
}

/// Reads one length-prefixed string field starting at `pos`.
fn read_string(bytes: &[u8], pos: usize) -> (r: Result<(String, usize), DecodeError>)
    ensures
        match r {
            Ok(sp) => ({
                &&& spec_read_field(bytes@, pos as int) == Ok::<(Seq<char>, int), DecodeError>(
                    (sp.0@, sp.1 as int),
                )
                &&& pos < sp.1 <= bytes@.len()
                &&& field_fits(sp.0@)
            }),
            Err(e) => spec_read_field(bytes@, pos as int) == Err::<(Seq<char>, int), DecodeError>(
                e,
            ),
        },
{
    broadcast use encode_utf8_valid_utf8, encode_utf8_decode_utf8;

    if pos >= bytes.len() {
        return Err(DecodeError::Truncated);
    }
    let n = *slice_index_get(bytes, pos) as usize;
    if n > bytes.len() - pos - 1 {
        return Err(DecodeError::Truncated);
    }
    let chunk = slice_subrange(bytes, pos + 1, pos + 1 + n);
    let v = slice_to_vec(chunk);
    match string_from_utf8(v) {
        Some(s) => Ok((s, pos + 1 + n)),
        None => Err(DecodeError::InvalidUtf8),
    }
}

impl Command {
    /// Every string field fits the one-byte length prefix of the wire form.
    pub open spec fn wf(&self) -> bool {
        self@.wf()
    }

    /// Whether this command can be encoded: every string field is at most
    /// 255 UTF-8 bytes long.
    pub fn encodable(&self) -> (b: bool)
        ensures
            b == self.wf(),
    {
        match self {
            Command::Put { key, value } => key.as_str().as_bytes().len() <= 255 && value.as_str().as_bytes().len()
                <= 255,
            Command::Get { key } => key.as_str().as_bytes().len() <= 255,
            Command::Delete { key } => key.as_str().as_bytes().len() <= 255,
            Command::Expire { key, seconds: _ } => key.as_str().as_bytes().len() <= 255,
            Command::Incr { key } => key.as_str().as_bytes().len() <= 255,
            Command::Decr { key } => key.as_str().as_bytes().len() <= 255,
            Command::Keys { pattern } => pattern.as_str().as_bytes().len() <= 255,
        }
    }

    /// Encodes the command as one wire frame.
    pub fn to_bytes(&self) -> (r: Vec<u8>)
        requires
            self.wf(),
        ensures
            r@ == spec_encode(self@),
    {
        let mut bytes: Vec<u8> = Vec::new();
        match self {
            Command::Put { key, value } => {
                bytes.push(1u8);
                write_string(&mut bytes, key);
                write_string(&mut bytes, value);
                proof {
                    assert(bytes@ =~= spec_encode(self@));
                }
            },
            Command::Get { key } => {
                bytes.push(2u8);
                write_string(&mut bytes, key);
                proof {
                    assert(bytes@ =~= spec_encode(self@));
                }
            },
            Command::Delete { key } => {
                bytes.push(3u8);
                write_string(&mut bytes, key);
                proof {
                    assert(bytes@ =~= spec_encode(self@));
                }
            },
            Command::Expire { key, seconds } => {
                bytes.push(4u8);
                write_string(&mut bytes, key);
                let mut sec = u64_to_le_bytes(*seconds);
                bytes.append(&mut sec);
                proof {
                    assert(bytes@ =~= spec_encode(self@));
                }
            },
            Command::Incr { key } => {
                bytes.push(5u8);
                write_string(&mut bytes, key);
                proof {
                    assert(bytes@ =~= spec_encode(self@));
                }
            },
            Command::Decr { key } => {
                bytes.push(6u8);
                write_string(&mut bytes, key);
                proof {
                    assert(bytes@ =~= spec_encode(self@));
                }
            },
            Command::Keys { pattern } => {
                bytes.push(7u8);
                write_string(&mut bytes, pattern);
                proof {
                    assert(bytes@ =~= spec_encode(self@));
                }
            },
        }
        bytes
    }

    /// Decodes one frame from the front of the buffer; trailing bytes are
    /// ignored.  Never panics, and a failed decode changes nothing.
    pub fn from_bytes(bytes: &[u8]) -> (r: Result<Command, DecodeError>)
        ensures
            match r {
                Ok(c) => spec_decode(bytes@) == Ok::<CommandV, DecodeError>(c@) && c.wf(),
                Err(e) => spec_decode(bytes@) == Err::<CommandV, DecodeError>(e),
            },
    {
        if bytes.len() == 0 {
            return Err(DecodeError::Truncated);
        }
        let tag = *slice_index_get(bytes, 0);
        if tag == 1 {
            match read_string(bytes, 1) {
                Err(e) => Err(e),
                Ok((key, p)) => match read_string(bytes, p) {
                    Err(e) => Err(e),
                    Ok((value, _end)) => Ok(Command::Put { key, value }),
                },
            }
        } else if tag == 2 {
            match read_string(bytes, 1) {
                Err(e) => Err(e),
                Ok((key, _end)) => Ok(Command::Get { key }),
            }
        } else if tag == 3 {
            match read_string(bytes, 1) {
                Err(e) => Err(e),
                Ok((key, _end)) => Ok(Command::Delete { key }),
            }
        } else if tag == 4 {
            match read_string(bytes, 1) {
                Err(e) => Err(e),
                Ok((key, p)) => {
                    if bytes.len() - p < 8 {
                        Err(DecodeError::Truncated)
                    } else {
                        let seconds = u64_from_le_bytes(slice_subrange(bytes, p, p + 8));
                        Ok(Command::Expire { key, seconds })
                    }
                },
            }
        } else if tag == 5 {
            match read_string(bytes, 1) {
                Err(e) => Err(e),
                Ok((key, _end)) => Ok(Command::Incr { key }),
            }
        } else if tag == 6 {
            match read_string(bytes, 1) {
                Err(e) => Err(e),
                Ok((key, _end)) => Ok(Command::Decr { key }),
            }
        } else if tag == 7 {
            match read_string(bytes, 1) {
                Err(e) => Err(e),
                Ok((pattern, _end)) => Ok(Command::Keys { pattern }),
            }
        } else {
            Err(DecodeError::UnknownTag)
        }
    }
}

/// Reading a field out of a buffer that holds its wire form at `pos` gives
/// the field back, whatever stands before and after it.
proof fn lemma_read_field_frame(pre: Seq<u8>, s: Seq<char>, post: Seq<u8>)
    requires
        field_fits(s),
    ensures
        spec_read_field(pre + spec_field(s) + post, pre.len() as int) == Ok::<
            (Seq<char>, int),
            DecodeError,
        >((s, pre.len() + 1 + encode_utf8(s).len() as int)),
{
    broadcast use encode_utf8_valid_utf8, encode_utf8_decode_utf8;

    let b = pre + spec_field(s) + post;
    let pos = pre.len() as int;
    let n = encode_utf8(s).len() as int;
    assert(b[pos] == encode_utf8(s).len() as u8);
    assert(b.subrange(pos + 1, pos + 1 + n) =~= encode_utf8(s));
}

/// Round trip: decoding the encoding of any encodable command gives that
/// command back, exactly.
pub proof fn lemma_decode_encode(c: CommandV)
    requires
        c.wf(),
    ensures
        spec_decode(spec_encode(c)) == Ok::<CommandV, DecodeError>(c),
{
    lemma_auto_spec_u64_to_from_le_bytes();
    let b = spec_encode(c);
    match c {
        CommandV::Put { key, value } => {
            lemma_read_field_frame(seq![1u8], key, spec_field(value));
            let p = 2 + encode_utf8(key).len() as int;
            assert(b =~= (seq![1u8] + spec_field(key)) + spec_field(value) + Seq::<u8>::empty());
            lemma_read_field_frame(seq![1u8] + spec_field(key), value, Seq::<u8>::empty());
        },
        CommandV::Get { key } => {
            assert(b =~= seq![2u8] + spec_field(key) + Seq::<u8>::empty());
            lemma_read_field_frame(seq![2u8], key, Seq::<u8>::empty());
        },
        CommandV::Delete { key } => {
            assert(b =~= seq![3u8] + spec_field(key) + Seq::<u8>::empty());
            lemma_read_field_frame(seq![3u8], key, Seq::<u8>::empty());
        },
        CommandV::Expire { key, seconds } => {
            lemma_read_field_frame(seq![4u8], key, spec_u64_to_le_bytes(seconds));
            let p = 2 + encode_utf8(key).len() as int;
            assert(b.subrange(p, p + 8) =~= spec_u64_to_le_bytes(seconds));
        },
        CommandV::Incr { key } => {
            assert(b =~= seq![5u8] + spec_field(key) + Seq::<u8>::empty());
            lemma_read_field_frame(seq![5u8], key, Seq::<u8>::empty());
        },
        CommandV::Decr { key } => {
            assert(b =~= seq![6u8] + spec_field(key) + Seq::<u8>::empty());
            lemma_read_field_frame(seq![6u8], key, Seq::<u8>::empty());
        },
        CommandV::Keys { pattern } => {
            assert(b =~= seq![7u8] + spec_field(pattern) + Seq::<u8>::empty());
            lemma_read_field_frame(seq![7u8], pattern, Seq::<u8>::empty());
        },
    }
}

} // verus!
