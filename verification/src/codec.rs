use vstd::prelude::*;
use crate::text::{utf8, all_ascii, ascii_to_string, string_from_utf8};

verus! {

/// The byte that separates the components of a composite key.
pub const KEY_SEP: u8 = 0x1f;

/// The byte that opens an escape.
pub const ESCAPE: u8 = 0x25;

/// A byte that may not stand for itself inside a component: the separator,
/// the escape byte, and every non-ASCII byte.
pub open spec fn needs_escape(b: u8) -> bool {
    b == KEY_SEP || b == ESCAPE || b >= 0x80
}

/// The upper-case hexadecimal digit of a nibble; `'0'` above 15.
pub open spec fn hex_digit(n: u8) -> u8 {
    if n < 10 {
        (0x30 + n) as u8
    } else if n < 16 {
        (0x41 + (n - 10)) as u8
    } else {
        0x30
    }
}

/// The value of a hexadecimal digit of either case.
pub open spec fn hex_value(b: u8) -> Option<u8> {
    if 0x30 <= b <= 0x39 {
        Some((b - 0x30) as u8)
    } else if 0x61 <= b <= 0x66 {
        Some((b - 0x61 + 10) as u8)
    } else if 0x41 <= b <= 0x46 {
        Some((b - 0x41 + 10) as u8)
    } else {
        None
    }
}

/// What one byte becomes inside an encoded component.
pub open spec fn escape_byte(b: u8) -> Seq<u8> {
    if needs_escape(b) {
        seq![ESCAPE, hex_digit(b >> 4), hex_digit(b & 0x0f)]
    } else {
        seq![b]
    }
}

/// The encoding of a component: each byte escaped in turn.
pub open spec fn escape(s: Seq<u8>) -> Seq<u8>
    decreases s.len(),
{
    if s.len() == 0 {
        Seq::empty()
    } else {
        escape_byte(s[0]) + escape(s.drop_first())
    }
}

/// The component that an encoding stands for, where it is well formed: every
/// escape byte is followed by two hexadecimal digits.
pub open spec fn unescape(s: Seq<u8>) -> Option<Seq<u8>>
    decreases s.len(),
{
    if s.len() == 0 {
        Some(Seq::empty())
    } else if s[0] == ESCAPE {
        if s.len() < 3 {
            None
        } else {
            match (hex_value(s[1]), hex_value(s[2]), unescape(s.skip(3))) {
                (Some(high), Some(low), Some(rest)) => Some(seq![(high << 4) | low] + rest),
                _ => None,
            }
        }
    } else {
        match unescape(s.skip(1)) {
            Some(rest) => Some(seq![s[0]] + rest),
            None => None,
        }
    }
}

proof fn lemma_hex_round_trip(b: u8)
    ensures
        hex_value(hex_digit(b >> 4)) == Some(b >> 4),
        hex_value(hex_digit(b & 0x0f)) == Some(b & 0x0f),
        ((b >> 4) << 4) | (b & 0x0f) == b,
        hex_digit(b >> 4) < 0x80,
        hex_digit(b & 0x0f) < 0x80,
        hex_digit(b >> 4) != KEY_SEP,
        hex_digit(b & 0x0f) != KEY_SEP,
{
    assert((b >> 4) < 16 && (b & 0x0f) < 16 && ((b >> 4) << 4) | (b & 0x0f) == b) by (bit_vector);
}

/// Encoding distributes over concatenation.
pub proof fn lemma_escape_concat(a: Seq<u8>, b: Seq<u8>)
    ensures
        escape(a + b) == escape(a) + escape(b),
    decreases a.len(),
{
    if a.len() == 0 {
        assert(a + b =~= b);
        assert(escape(a) + escape(b) =~= escape(b));
    } else {
        assert((a + b).drop_first() =~= a.drop_first() + b);
        lemma_escape_concat(a.drop_first(), b);
        assert(escape(a + b) =~= escape(a) + escape(b));
    }
}

/// An encoded component is ASCII and holds no separator.
pub proof fn lemma_escape_is_clean(s: Seq<u8>)
    ensures
        all_ascii(escape(s)),
        !escape(s).contains(KEY_SEP),
    decreases s.len(),
{
    if s.len() > 0 {
        lemma_escape_is_clean(s.drop_first());
        lemma_hex_round_trip(s[0]);
        let head = escape_byte(s[0]);
        let tail = escape(s.drop_first());
        assert forall|i: int| 0 <= i < escape(s).len() implies #[trigger] escape(s)[i] < 0x80
            && escape(s)[i] != KEY_SEP by {
            if i >= head.len() {
                assert(escape(s)[i] == tail[i - head.len()]);
                assert(tail.contains(tail[i - head.len()]));
            }
        }
    }
}

/// Decoding an encoded component gives the component back.
pub proof fn lemma_unescape_escape(s: Seq<u8>)
    ensures
        unescape(escape(s)) == Some(s),
    decreases s.len(),
{
    if s.len() > 0 {
        let rest = s.drop_first();
        lemma_unescape_escape(rest);
        lemma_hex_round_trip(s[0]);
        let e = escape(s);
        if needs_escape(s[0]) {
            assert(e.skip(3) =~= escape(rest));
            assert(seq![s[0]] + rest =~= s);
        } else {
            assert(e.skip(1) =~= escape(rest));
            assert(seq![s[0]] + rest =~= s);
        }
    }
}

/// The upper-case hexadecimal digit of a nibble.
pub fn nibble_to_hex(value: u8) -> (digit: char)
    ensures
        digit as u32 == hex_digit(value) as u32,
{
    if value <= 9 {
        (0x30 + value) as char
    } else if value <= 15 {
        (0x41 + (value - 10)) as char
    } else {
        '0'
    }
}

/// The value of a hexadecimal digit, in either case.
pub fn hex_to_nibble(value: u8) -> (nibble: Option<u8>)
    ensures
        nibble == hex_value(value),
{
    if 0x30 <= value && value <= 0x39 {
        Some(value - 0x30)
    } else if 0x61 <= value && value <= 0x66 {
        Some(value - 0x61 + 10)
    } else if 0x41 <= value && value <= 0x46 {
        Some(value - 0x41 + 10)
    } else {
        None
    }
}

/// Encodes the bytes of a component.
pub fn escape_bytes(bytes: &[u8]) -> (out: Vec<u8>)
    ensures
        out@ == escape(bytes@),
{
    let mut out: Vec<u8> = Vec::new();
    let mut i: usize = 0;
    while i < bytes.len()
        invariant
            0 <= i <= bytes.len(),
            out@ == escape(bytes@.take(i as int)),
        decreases bytes.len() - i,
    {
        let byte = bytes[i];
        proof {
            let done = bytes@.take(i as int);
            lemma_escape_concat(done, seq![byte]);
            assert(bytes@.take(i + 1) =~= done + seq![byte]);
            assert(seq![byte].drop_first() =~= Seq::<u8>::empty());
            assert(escape(seq![byte]) =~= escape_byte(byte) + escape(Seq::<u8>::empty()));
            assert(escape(seq![byte]) =~= escape_byte(byte));
        }
        if byte == KEY_SEP || byte == ESCAPE || byte >= 0x80 {
            let high = nibble_to_hex(byte >> 4);
            let low = nibble_to_hex(byte & 0x0f);
            out.push(ESCAPE);
            out.push(high as u8);
            out.push(low as u8);
            assert(out@ =~= escape(bytes@.take(i as int)) + escape_byte(byte));
        } else {
            out.push(byte);
            assert(out@ =~= escape(bytes@.take(i as int)) + escape_byte(byte));
        }
        i += 1;
    }
    assert(bytes@.take(i as int) =~= bytes@);
    out
}

/// Decodes the bytes of an encoded component, where they are well formed.
pub fn unescape_bytes(bytes: &[u8]) -> (out: Option<Vec<u8>>)
    ensures
        match out {
            Some(decoded) => unescape(bytes@) == Some(decoded@),
            None => unescape(bytes@) is None,
        },
{
    let mut decoded: Vec<u8> = Vec::new();
    let mut index: usize = 0;
    proof {
        assert(bytes@.skip(0) =~= bytes@);
        match unescape(bytes@) {
            Some(rest) => {
                assert(decoded@ + rest =~= rest);
            },
            None => {},
        }
    }
    while index < bytes.len()
        invariant
            0 <= index <= bytes.len(),
            match unescape(bytes@.skip(index as int)) {
                Some(rest) => unescape(bytes@) == Some(decoded@ + rest),
                None => unescape(bytes@) is None,
            },
        decreases bytes.len() - index,
    {
        let byte = bytes[index];
        let ghost here = bytes@.skip(index as int);
        proof {
            assert(here[0] == byte);
        }
        if byte == ESCAPE {
            if bytes.len() - index < 3 {
                return None;
            }
            proof {
                assert(here[1] == bytes@[index + 1]);
                assert(here[2] == bytes@[index + 2]);
                assert(here.skip(3) =~= bytes@.skip(index + 3));
            }
            let high = match hex_to_nibble(bytes[index + 1]) {
                Some(high) => high,
                None => {
                    return None;
                },
            };
            let low = match hex_to_nibble(bytes[index + 2]) {
                Some(low) => low,
                None => {
                    return None;
                },
            };
            let ghost before = decoded@;
            decoded.push((high << 4) | low);
            proof {
                match unescape(here.skip(3)) {
                    Some(rest) => {
                        assert(before + (seq![(high << 4) | low] + rest) =~= decoded@ + rest);
                    },
                    None => {},
                }
            }
            index += 3;
        } else {
            proof {
                assert(here.skip(1) =~= bytes@.skip(index + 1));
            }
            let ghost before = decoded@;
            decoded.push(byte);
            proof {
                match unescape(here.skip(1)) {
                    Some(rest) => {
                        assert(before + (seq![byte] + rest) =~= decoded@ + rest);
                    },
                    None => {},
                }
            }
            index += 1;
        }
    }
    assert(bytes@.skip(index as int) =~= Seq::<u8>::empty());
    assert(decoded@ + Seq::<u8>::empty() =~= decoded@);
    Some(decoded)
}

/// Encodes a component of a composite key: the separator, the escape byte and
/// every non-ASCII byte become `%HH`; other bytes stand for themselves.
pub fn encode_component(value: &str) -> (encoded: String)
    ensures
        utf8(encoded@) == escape(utf8(value@)),
{
    let out = escape_bytes(value.as_bytes());
    proof {
        lemma_escape_is_clean(utf8(value@));
    }
    ascii_to_string(out)
}

/// The string that an encoded component stands for: its unescaped bytes,
/// where the encoding is well formed and they are UTF-8.
pub open spec fn decode(s: Seq<u8>) -> Option<Seq<u8>> {
    match unescape(s) {
        Some(bytes) => if vstd::utf8::valid_utf8(bytes) {
            Some(bytes)
        } else {
            None
        },
        None => None,
    }
}

/// The bytes of an optional string.
pub open spec fn opt_utf8(s: Option<String>) -> Option<Seq<u8>> {
    match s {
        Some(text) => Some(utf8(text@)),
        None => None,
    }
}

/// Decodes a component of a composite key. Fails where an escape byte is not
/// followed by two hexadecimal digits, and where the decoded bytes are not
/// UTF-8.
pub fn decode_component(value: &str) -> (decoded: Option<String>)
    ensures
        opt_utf8(decoded) == decode(utf8(value@)),
{
    match unescape_bytes(value.as_bytes()) {
        Some(bytes) => string_from_utf8(bytes),
        None => None,
    }
}

/// Round trip: decoding the encoding of any string gives the string back.
pub proof fn lemma_decode_encode(s: Seq<char>)
    ensures
        decode(escape(utf8(s))) == Some(utf8(s)),
{
    lemma_unescape_escape(utf8(s));
    vstd::utf8::encode_utf8_valid_utf8(s);
}

} // verus!
