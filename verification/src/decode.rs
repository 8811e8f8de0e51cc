//! The decoder: UTF-8 bytes to characters, one character at a time.
//!
//! `decode_first` says what the first character of a byte sequence is,
//! `decode_stream` what the whole sequence decodes to, and `decode_char` is
//! the executable step.

use vstd::prelude::*;
use vstd::utf8::*;

verus! {

/// `char::from_u32` returns a character exactly for the Unicode scalar
/// values (0 to 0x10FFFF without the surrogates 0xD800 to 0xDFFF), and the
/// character it returns has the number that was given.
pub assume_specification[ char::from_u32 ](i: u32) -> (r: Option<char>)
    ensures
        r is Some <==> is_scalar(i),
        r matches Some(c) ==> c as u32 == i,
;

/// What decoding one character from the front of a byte sequence gives.
#[derive(Debug, Clone, Copy, PartialEq, Eq)]
pub enum Decoded {
    /// A character, and the number of bytes that encode it.
    Char { c: char, width: usize },
    /// The sequence stops in the middle of a character.
    NeedMoreBytes,
    /// The sequence does not start with well-formed UTF-8.
    InvalidSequence,
    /// The sequence is empty.
    EndOfStream,
}

/// A stream of decoded characters. `poisoned` says that the bytes after the
/// last character are not well-formed UTF-8.
#[verifier::ext_equal]
pub struct Source {
    pub chars: Seq<char>,
    pub poisoned: bool,
}

impl Source {
    /// A stream that holds `chars` and ends cleanly.
    pub open spec fn clean(chars: Seq<char>) -> Source {
        Source { chars, poisoned: false }
    }

    /// The character in the lookahead, if any.
    pub open spec fn peek(self) -> Option<char> {
        if self.chars.len() > 0 {
            Some(self.chars[0])
        } else {
            None
        }
    }

    /// Pulling from the stream fails: the lookahead cannot be refilled,
    /// because what follows it is not well-formed.
    pub open spec fn blocked(self) -> bool {
        self.poisoned && self.chars.len() <= 1
    }

    /// The stream after one character has been pulled from it.
    pub open spec fn advance(self) -> Source {
        if self.chars.len() > 0 {
            Source { chars: self.chars.skip(1), poisoned: self.poisoned }
        } else {
            self
        }
    }

    /// The stream with `c` put in front of it.
    pub open spec fn prepend(self, c: char) -> Source {
        Source { chars: seq![c] + self.chars, poisoned: self.poisoned }
    }
}

/// The number of bytes of a sequence that starts with `b`, by the high bits
/// of `b`; 0 where `b` starts no sequence.
pub open spec fn sequence_width(b: u8) -> int {
    if is_leading_byte_width_1(b) {
        1
    } else if is_leading_byte_width_2(b) {
        2
    } else if is_leading_byte_width_3(b) {
        3
    } else if is_leading_byte_width_4(b) {
        4
    } else {
        0
    }
}

/// The first character of `bytes`.
pub open spec fn decode_first(bytes: Seq<u8>) -> Decoded {
    if bytes.len() == 0 {
        Decoded::EndOfStream
    } else if sequence_width(bytes[0]) == 0 {
        Decoded::InvalidSequence
    } else if bytes.len() < sequence_width(bytes[0]) {
        Decoded::NeedMoreBytes
    } else if valid_first_scalar(bytes) {
        Decoded::Char {
            c: decode_first_scalar(bytes) as char,
            width: sequence_width(bytes[0]) as usize,
        }
    } else {
        Decoded::InvalidSequence
    }
}

/// The characters that `bytes` decodes to, up to its end, to a sequence cut
/// short by its end (which is dropped), or to the first sequence that is not
/// well-formed (which poisons the stream).
pub open spec fn decode_stream(bytes: Seq<u8>) -> Source
    decreases bytes.len(),
{
    match decode_first(bytes) {
        Decoded::Char { c, width } => decode_stream(bytes.skip(width as int)).prepend(c),
        Decoded::InvalidSequence => Source { chars: Seq::empty(), poisoned: true },
        _ => Source::clean(Seq::empty()),
    }
}

proof fn lemma_width_2_range(b0: u8, b1: u8)
    by (bit_vector)
    ensures
        (((b0 & 0x1F) as u32) << 6) | ((b1 & 0x3F) as u32) <= 0x7FF,
{
}

proof fn lemma_width_3_range(b0: u8, b1: u8, b2: u8)
    by (bit_vector)
    ensures
        (((b0 & 0x0F) as u32) << 12) | (((b1 & 0x3F) as u32) << 6) | ((b2 & 0x3F) as u32) <= 0xFFFF,
{
}

proof fn lemma_width_1_range(b0: u8)
    by (bit_vector)
    requires
        b0 <= 0x7F,
    ensures
        (b0 & 0x7F) as u32 <= 0x7F,
{
}

/// Whether `b` has the form of a continuation byte, `10xxxxxx`.
fn is_continuation(b: u8) -> (r: bool)
    ensures
        r == is_continuation_byte(b),
{
    0x80 <= b && b <= 0xBF
}

/// The character of a number that is known to be a scalar value.
fn scalar_to_char(n: u32) -> (c: char)
    requires
        is_scalar(n),
    ensures
        c as u32 == n,
        c == n as char,
{
    match char::from_u32(n) {
        Some(c) => {
            proof {
                char_u32_cast(c, n);
            }
            c
        },
        None => {
            proof {
                assert(false);
            }
            '\0'
        },
    }
}

/// Decodes the first character of `bytes`.
pub fn decode_char(bytes: &[u8]) -> (d: Decoded)
    ensures
        d == decode_first(bytes@),
{
    let n = bytes.len();
    if n == 0 {
        return Decoded::EndOfStream;
    }
    let b0 = bytes[0];
    if b0 <= 0x7F {
        let v: u32 = (b0 & 0x7F) as u32;
        proof {
            lemma_width_1_range(b0);
        }
        Decoded::Char { c: scalar_to_char(v), width: 1 }
    } else if 0xC0 <= b0 && b0 <= 0xDF {
        if n < 2 {
            return Decoded::NeedMoreBytes;
        }
        let b1 = bytes[1];
        let v: u32 = (((b0 & 0x1F) as u32) << 6) | ((b1 & 0x3F) as u32);
        proof {
            lemma_width_2_range(b0, b1);
        }
        if is_continuation(b1) && 0x80 <= v {
            Decoded::Char { c: scalar_to_char(v), width: 2 }
        } else {
            Decoded::InvalidSequence
        }
    } else if 0xE0 <= b0 && b0 <= 0xEF {
        if n < 3 {
            return Decoded::NeedMoreBytes;
        }
        let b1 = bytes[1];
        let b2 = bytes[2];
        let v: u32 = (((b0 & 0x0F) as u32) << 12) | (((b1 & 0x3F) as u32) << 6) | ((b2
            & 0x3F) as u32);
        proof {
            lemma_width_3_range(b0, b1, b2);
        }
        if is_continuation(b1) && is_continuation(b2) && 0x800 <= v && !(0xD800 <= v && v
            <= 0xDFFF) {
            Decoded::Char { c: scalar_to_char(v), width: 3 }
        } else {
            Decoded::InvalidSequence
        }
    } else if 0xF0 <= b0 && b0 <= 0xF7 {
        if n < 4 {
            return Decoded::NeedMoreBytes;
        }
        let b1 = bytes[1];
        let b2 = bytes[2];
        let b3 = bytes[3];
        let v: u32 = (((b0 & 0x07) as u32) << 18) | (((b1 & 0x3F) as u32) << 12) | (((b2
            & 0x3F) as u32) << 6) | ((b3 & 0x3F) as u32);
        if is_continuation(b1) && is_continuation(b2) && is_continuation(b3) && 0x10000 <= v && v
            <= 0x10FFFF {
            Decoded::Char { c: scalar_to_char(v), width: 4 }
        } else {
            Decoded::InvalidSequence
        }
    } else {
        Decoded::InvalidSequence
    }
}

/// A character at the front of the bytes is the first of what they decode
/// to, and the rest is what the bytes after it decode to.
pub proof fn lemma_decode_stream_step(bytes: Seq<u8>)
    ensures
        match decode_first(bytes) {
            Decoded::Char { c, width } => {
                &&& 1 <= width <= 4
                &&& width <= bytes.len()
                &&& decode_stream(bytes) == decode_stream(bytes.skip(width as int)).prepend(c)
            },
            Decoded::InvalidSequence => decode_stream(bytes) == (Source {
                chars: Seq::empty(),
                poisoned: true,
            }),
            _ => decode_stream(bytes) == Source::clean(Seq::empty()),
        },
{
}

/// Text that was encoded as UTF-8 decodes to itself, and the stream ends
/// cleanly.
pub proof fn lemma_decode_encoded(chars: Seq<char>)
    ensures
        decode_stream(encode_utf8(chars)) == Source::clean(chars),
    decreases chars.len(),
{
    let bytes = encode_utf8(chars);
    if chars.len() == 0 {
        assert(bytes.len() == 0);
        assert(chars =~= Seq::empty());
    } else {
        encode_utf8_first_scalar(chars);
        char_is_scalar(chars[0]);
        let head = encode_scalar(chars[0] as u32);
        let rest = chars.drop_first();
        assert(bytes == head + encode_utf8(rest));
        assert(bytes.len() >= head.len());
        assert(bytes[0] == head[0]);
        assert(sequence_width(bytes[0]) == head.len());
        char_u32_cast(chars[0], decode_first_scalar(bytes));
        assert(decode_first(bytes) == Decoded::Char { c: chars[0], width: head.len() as usize });
        assert(bytes.skip(head.len() as int) =~= encode_utf8(rest));
        lemma_decode_encoded(rest);
        assert(seq![chars[0]] + rest =~= chars);
        assert(decode_stream(bytes) == decode_stream(bytes.skip(head.len() as int)).prepend(
            chars[0],
        ));
    }
}

/// Bytes that are well-formed UTF-8 decode to the characters that they
/// encode, and the stream ends cleanly.
pub proof fn lemma_decode_valid(bytes: Seq<u8>)
    requires
        valid_utf8(bytes),
    ensures
        decode_stream(bytes) == Source::clean(decode_utf8(bytes)),
{
    decode_utf8_encode_utf8(bytes);
    lemma_decode_encoded(decode_utf8(bytes));
}

} // verus!
