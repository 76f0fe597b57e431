use vstd::prelude::*;
use crate::text::has_prefix;
use crate::codec::{KEY_SEP, ESCAPE, escape, escape_byte, needs_escape, hex_digit, hex_value, lemma_escape_concat};
use crate::keys::{join2, join3, prefix1};
use crate::means::lemma_prefix1_of_join3;

verus! {

/// A string starts with another exactly where it is as long and agrees
/// with it byte for byte.
pub proof fn lemma_has_prefix_bytes(s: Seq<u8>, p: Seq<u8>)
    ensures
        has_prefix(s, p) <==> p.len() <= s.len() && forall|i: int|
            0 <= i < p.len() ==> s[i] == p[i],
{
    if has_prefix(s, p) {
        assert forall|i: int| 0 <= i < p.len() implies s[i] == p[i] by {
            assert(s.subrange(0, p.len() as int)[i] == p[i]);
        }
    }
    if p.len() <= s.len() && forall|i: int| 0 <= i < p.len() ==> s[i] == p[i] {
        assert(s.subrange(0, p.len() as int) =~= p);
    }
}

/// Two bytes with one escape are one byte.
pub proof fn lemma_escaped_bytes_differ(b: u8, c: u8)
    requires
        hex_digit(b >> 4) == hex_digit(c >> 4),
        hex_digit(b & 0x0f) == hex_digit(c & 0x0f),
    ensures
        b == c,
{
    let (bh, bl, ch, cl) = ((b >> 4) as u8, (b & 0x0f) as u8, (c >> 4) as u8, (c & 0x0f) as u8);
    assert(bh < 16 && bl < 16 && ch < 16 && cl < 16 && ((bh << 4) | bl) == b && ((ch << 4) | cl)
        == c) by (bit_vector)
        requires
            bh == b >> 4,
            bl == b & 0x0f,
            ch == c >> 4,
            cl == c & 0x0f,
    ;
    assert(hex_value(hex_digit(bh)) == Some(bh));
    assert(hex_value(hex_digit(bl)) == Some(bl));
    assert(hex_value(hex_digit(ch)) == Some(ch));
    assert(hex_value(hex_digit(cl)) == Some(cl));
}

/// Where an encoding, followed by a separator, starts with the encoding of
/// a string, the encoded string starts with that string.
pub proof fn lemma_escape_prefix(v: Seq<u8>, tail: Seq<u8>, p: Seq<u8>)
    requires
        has_prefix(escape(v) + seq![KEY_SEP] + tail, escape(p)),
    ensures
        has_prefix(v, p),
    decreases p.len(),
{
    let whole = escape(v) + seq![KEY_SEP] + tail;
    let start = escape(p);
    lemma_has_prefix_bytes(whole, start);
    if p.len() == 0 {
        assert(v.subrange(0, 0) =~= p);
    } else {
        let p_rest = p.drop_first();
        let start_head = escape_byte(p[0]);
        assert(start == start_head + escape(p_rest));
        assert(start[0] == start_head[0]);
        assert(start[0] != KEY_SEP) by {
            assert(hex_digit(p[0] >> 4) == hex_digit(p[0] >> 4));
        }
        if v.len() == 0 {
            assert(escape(v) =~= Seq::<u8>::empty());
            assert(whole[0] == KEY_SEP);
            assert(false);
        } else {
            let v_rest = v.drop_first();
            let whole_head = escape_byte(v[0]);
            let whole_rest = escape(v_rest) + seq![KEY_SEP] + tail;
            assert(whole =~= whole_head + whole_rest);
            assert(whole[0] == whole_head[0]);
            if needs_escape(p[0]) {
                assert(start_head.len() == 3);
                assert(start[0] == ESCAPE);
                assert(needs_escape(v[0]));
                assert(whole_head.len() == 3);
                assert(start[1] == start_head[1] && start[2] == start_head[2]);
                assert(whole[1] == whole_head[1] && whole[2] == whole_head[2]);
                assert(whole[1] == start[1] && whole[2] == start[2]);
                lemma_escaped_bytes_differ(p[0], v[0]);
            } else {
                assert(start_head.len() == 1);
                assert(start[0] == p[0]);
                assert(!needs_escape(v[0]));
            }
            assert(p[0] == v[0]);
            let n = start_head.len() as int;
            assert forall|i: int| 0 <= i < escape(p_rest).len() implies whole_rest[i] == escape(
                p_rest,
            )[i] by {
                assert(whole[i + n] == start[i + n]);
                assert(whole[i + n] == whole_rest[i]);
                assert(start[i + n] == escape(p_rest)[i]);
            }
            lemma_has_prefix_bytes(whole_rest, escape(p_rest));
            lemma_escape_prefix(v_rest, tail, p_rest);
            lemma_has_prefix_bytes(v_rest, p_rest);
            assert forall|i: int| 0 <= i < p.len() implies v[i] == p[i] by {
                if i > 0 {
                    assert(v_rest[i - 1] == p_rest[i - 1]);
                }
            }
            lemma_has_prefix_bytes(v, p);
        }
    }
}

/// What the scan of a geo index under a key and the start of a value
/// finds: an index entry starts with the prefix of the scan exactly where
/// it is an entry of that key and its value starts with that start.
pub proof fn lemma_geo_prefix_means(
    key: Seq<u8>,
    start: Seq<u8>,
    entry_key: Seq<u8>,
    value: Seq<u8>,
    id: Seq<u8>,
)
    ensures
        has_prefix(join3(entry_key, value, id), join2(key, start)) <==> entry_key == key
            && has_prefix(value, start),
{
    let entry = join3(entry_key, value, id);
    let wanted = join2(key, start);
    let head = prefix1(key);
    lemma_has_prefix_bytes(entry, wanted);
    lemma_has_prefix_bytes(entry, head);
    assert(wanted =~= head + escape(start));
    if has_prefix(entry, wanted) {
        assert forall|i: int| 0 <= i < head.len() implies entry[i] == head[i] by {
            assert(wanted[i] == head[i]);
        }
        lemma_prefix1_of_join3(key, entry_key, value, id);
        let rest = escape(value) + seq![KEY_SEP] + escape(id);
        assert(entry =~= head + rest);
        assert forall|i: int| 0 <= i < escape(start).len() implies rest[i] == escape(start)[i] by {
            assert(entry[i + head.len()] == wanted[i + head.len()]);
            assert(entry[i + head.len()] == rest[i]);
            assert(wanted[i + head.len()] == escape(start)[i]);
        }
        lemma_has_prefix_bytes(rest, escape(start));
        lemma_escape_prefix(value, escape(id), start);
    }
    if entry_key == key && has_prefix(value, start) {
        let more = value.skip(start.len() as int);
        assert(value =~= start + more);
        lemma_escape_concat(start, more);
        assert(entry =~= wanted + (escape(more) + seq![KEY_SEP] + escape(id)));
        assert(entry.subrange(0, wanted.len() as int) =~= wanted);
    }
}

} // verus!
