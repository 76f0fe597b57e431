use vstd::prelude::*;
use crate::text::{utf8, all_ascii, ascii_to_string, cut_at, split_at_byte, lemma_first_index_after};
use crate::codec::{KEY_SEP, escape, escape_bytes, decode, decode_component, lemma_escape_is_clean, lemma_decode_encode, lemma_unescape_escape};

verus! {

/// Two components joined by the separator.
pub open spec fn join2(a: Seq<u8>, b: Seq<u8>) -> Seq<u8> {
    escape(a) + seq![KEY_SEP] + escape(b)
}

/// Three components joined by the separator.
pub open spec fn join3(a: Seq<u8>, b: Seq<u8>, c: Seq<u8>) -> Seq<u8> {
    escape(a) + seq![KEY_SEP] + join2(b, c)
}

/// Four components joined by the separator.
pub open spec fn join4(a: Seq<u8>, b: Seq<u8>, c: Seq<u8>, d: Seq<u8>) -> Seq<u8> {
    escape(a) + seq![KEY_SEP] + join3(b, c, d)
}

/// One component and the separator: what every key of an entity starts with.
pub open spec fn prefix1(a: Seq<u8>) -> Seq<u8> {
    escape(a) + seq![KEY_SEP]
}

/// Two components, each followed by the separator.
pub open spec fn prefix2(a: Seq<u8>, b: Seq<u8>) -> Seq<u8> {
    prefix1(a) + prefix1(b)
}

/// `s` cut at its first separator.
pub open spec fn cut2(s: Seq<u8>) -> Option<(Seq<u8>, Seq<u8>)> {
    cut_at(s, KEY_SEP)
}

/// `s` cut at its first two separators.
pub open spec fn cut3(s: Seq<u8>) -> Option<(Seq<u8>, Seq<u8>, Seq<u8>)> {
    match cut2(s) {
        Some((a, rest)) => match cut2(rest) {
            Some((b, c)) => Some((a, b, c)),
            None => None,
        },
        None => None,
    }
}

/// `s` cut at its first three separators.
pub open spec fn cut4(s: Seq<u8>) -> Option<(Seq<u8>, Seq<u8>, Seq<u8>, Seq<u8>)> {
    match cut2(s) {
        Some((a, rest)) => match cut3(rest) {
            Some((b, c, d)) => Some((a, b, c, d)),
            None => None,
        },
        None => None,
    }
}

/// `s` cut in two and each part decoded.
pub open spec fn cut2_decoded(s: Seq<u8>) -> Option<(Seq<u8>, Seq<u8>)> {
    match cut2(s) {
        Some((a, b)) => match (decode(a), decode(b)) {
            (Some(x), Some(y)) => Some((x, y)),
            _ => None,
        },
        None => None,
    }
}

/// `s` cut in three and each part decoded.
pub open spec fn cut3_decoded(s: Seq<u8>) -> Option<(Seq<u8>, Seq<u8>, Seq<u8>)> {
    match cut3(s) {
        Some((a, b, c)) => match (decode(a), decode(b), decode(c)) {
            (Some(x), Some(y), Some(z)) => Some((x, y, z)),
            _ => None,
        },
        None => None,
    }
}

/// `s` cut in four and each part decoded.
pub open spec fn cut4_decoded(s: Seq<u8>) -> Option<(Seq<u8>, Seq<u8>, Seq<u8>, Seq<u8>)> {
    match cut4(s) {
        Some((a, b, c, d)) => match (decode(a), decode(b), decode(c), decode(d)) {
            (Some(x), Some(y), Some(z), Some(w)) => Some((x, y, z, w)),
            _ => None,
        },
        None => None,
    }
}

/// Cutting a key of an encoded component and anything else gives the
/// encoded component and the rest.
pub proof fn lemma_cut2_joined(a: Seq<u8>, rest: Seq<u8>)
    ensures
        cut2(escape(a) + seq![KEY_SEP] + rest) == Some((escape(a), rest)),
{
    lemma_escape_is_clean(a);
    lemma_first_index_after(escape(a), KEY_SEP, rest);
}

/// Cutting a key of two components recovers both encodings.
pub proof fn lemma_cut2_join2(a: Seq<u8>, b: Seq<u8>)
    ensures
        cut2(join2(a, b)) == Some((escape(a), escape(b))),
{
    lemma_cut2_joined(a, escape(b));
}

/// Cutting a key of three components recovers the three encodings.
pub proof fn lemma_cut3_join3(a: Seq<u8>, b: Seq<u8>, c: Seq<u8>)
    ensures
        cut3(join3(a, b, c)) == Some((escape(a), escape(b), escape(c))),
{
    lemma_cut2_joined(a, join2(b, c));
    lemma_cut2_join2(b, c);
}

/// Cutting a key of four components recovers the four encodings.
pub proof fn lemma_cut4_join4(a: Seq<u8>, b: Seq<u8>, c: Seq<u8>, d: Seq<u8>)
    ensures
        cut4(join4(a, b, c, d)) == Some((escape(a), escape(b), escape(c), escape(d))),
{
    lemma_cut2_joined(a, join3(b, c, d));
    lemma_cut3_join3(b, c, d);
}

/// A key of two strings, cut and decoded, gives the two strings back.
pub proof fn lemma_cut2_decoded_join2(a: Seq<char>, b: Seq<char>)
    ensures
        cut2_decoded(join2(utf8(a), utf8(b))) == Some((utf8(a), utf8(b))),
{
    lemma_cut2_join2(utf8(a), utf8(b));
    lemma_decode_encode(a);
    lemma_decode_encode(b);
}

/// A key of three strings, cut and decoded, gives the three strings back.
pub proof fn lemma_cut3_decoded_join3(a: Seq<char>, b: Seq<char>, c: Seq<char>)
    ensures
        cut3_decoded(join3(utf8(a), utf8(b), utf8(c))) == Some((utf8(a), utf8(b), utf8(c))),
{
    lemma_cut3_join3(utf8(a), utf8(b), utf8(c));
    lemma_decode_encode(a);
    lemma_decode_encode(b);
    lemma_decode_encode(c);
}

/// A key of four strings, cut and decoded, gives the four strings back.
pub proof fn lemma_cut4_decoded_join4(a: Seq<char>, b: Seq<char>, c: Seq<char>, d: Seq<char>)
    ensures
        cut4_decoded(join4(utf8(a), utf8(b), utf8(c), utf8(d))) == Some(
            (utf8(a), utf8(b), utf8(c), utf8(d)),
        ),
{
    lemma_cut4_join4(utf8(a), utf8(b), utf8(c), utf8(d));
    lemma_decode_encode(a);
    lemma_decode_encode(b);
    lemma_decode_encode(c);
    lemma_decode_encode(d);
}

/// Different components have different encodings.
pub proof fn lemma_escape_injective(a: Seq<u8>, b: Seq<u8>)
    requires
        escape(a) == escape(b),
    ensures
        a == b,
{
    lemma_unescape_escape(a);
    lemma_unescape_escape(b);
}

/// A key of two components stands for one pair of components only.
pub proof fn lemma_join2_injective(a: Seq<u8>, b: Seq<u8>, c: Seq<u8>, d: Seq<u8>)
    requires
        join2(a, b) == join2(c, d),
    ensures
        a == c,
        b == d,
{
    lemma_cut2_join2(a, b);
    lemma_cut2_join2(c, d);
    lemma_escape_injective(a, c);
    lemma_escape_injective(b, d);
}

/// A key of three components stands for one triple of components only.
pub proof fn lemma_join3_injective(
    a: Seq<u8>,
    b: Seq<u8>,
    c: Seq<u8>,
    x: Seq<u8>,
    y: Seq<u8>,
    z: Seq<u8>,
)
    requires
        join3(a, b, c) == join3(x, y, z),
    ensures
        a == x,
        b == y,
        c == z,
{
    lemma_cut3_join3(a, b, c);
    lemma_cut3_join3(x, y, z);
    lemma_escape_injective(a, x);
    lemma_escape_injective(b, y);
    lemma_escape_injective(c, z);
}

/// A key of four components stands for one quadruple of components only.
pub proof fn lemma_join4_injective(
    a: Seq<u8>,
    b: Seq<u8>,
    c: Seq<u8>,
    d: Seq<u8>,
    x: Seq<u8>,
    y: Seq<u8>,
    z: Seq<u8>,
    w: Seq<u8>,
)
    requires
        join4(a, b, c, d) == join4(x, y, z, w),
    ensures
        a == x,
        b == y,
        c == z,
        d == w,
{
    lemma_cut4_join4(a, b, c, d);
    lemma_cut4_join4(x, y, z, w);
    lemma_escape_injective(a, x);
    lemma_escape_injective(b, y);
    lemma_escape_injective(c, z);
    lemma_escape_injective(d, w);
}

fn push_component(out: &mut Vec<u8>, value: &str)
    requires
        all_ascii(old(out)@),
    ensures
        final(out)@ == old(out)@ + escape(utf8(value@)),
        all_ascii(final(out)@),
{
    let mut encoded = escape_bytes(value.as_bytes());
    proof {
        lemma_escape_is_clean(utf8(value@));
    }
    out.append(&mut encoded);
}

fn push_separator(out: &mut Vec<u8>)
    requires
        all_ascii(old(out)@),
    ensures
        final(out)@ == old(out)@ + seq![KEY_SEP],
        all_ascii(final(out)@),
{
    out.push(KEY_SEP);
    assert(out@ =~= old(out)@ + seq![KEY_SEP]);
}

fn key_of_two(a: &str, b: &str) -> (key: String)
    ensures
        utf8(key@) == join2(utf8(a@), utf8(b@)),
{
    let mut out: Vec<u8> = Vec::new();
    push_component(&mut out, a);
    push_separator(&mut out);
    push_component(&mut out, b);
    assert(out@ =~= join2(utf8(a@), utf8(b@)));
    ascii_to_string(out)
}

fn key_of_three(a: &str, b: &str, c: &str) -> (key: String)
    ensures
        utf8(key@) == join3(utf8(a@), utf8(b@), utf8(c@)),
{
    let mut out: Vec<u8> = Vec::new();
    push_component(&mut out, a);
    push_separator(&mut out);
    push_component(&mut out, b);
    push_separator(&mut out);
    push_component(&mut out, c);
    assert(out@ =~= join3(utf8(a@), utf8(b@), utf8(c@)));
    ascii_to_string(out)
}

/// The key of an edge: `E(from) S E(to)`.
pub fn edge_key(from: &str, to: &str) -> (key: String)
    ensures
        utf8(key@) == join2(utf8(from@), utf8(to@)),
{
    key_of_two(from, to)
}

/// The key of a node property: `E(id) S E(key)`.
pub fn node_data_key(node_id: &str, key: &str) -> (row: String)
    ensures
        utf8(row@) == join2(utf8(node_id@), utf8(key@)),
{
    key_of_two(node_id, key)
}

/// The key of an edge property: `E(from) S E(to) S E(key)`.
pub fn edge_data_key(from: &str, to: &str, key: &str) -> (row: String)
    ensures
        utf8(row@) == join3(utf8(from@), utf8(to@), utf8(key@)),
{
    key_of_three(from, to, key)
}

/// The key of a node index entry: `E(key) S E(value) S E(id)`.
pub fn node_index_key(key: &str, value: &str, node_id: &str) -> (row: String)
    ensures
        utf8(row@) == join3(utf8(key@), utf8(value@), utf8(node_id@)),
{
    key_of_three(key, value, node_id)
}

/// The key of a geo index entry; it has the form of a node index entry.
pub fn geo_index_key(key: &str, value: &str, node_id: &str) -> (row: String)
    ensures
        utf8(row@) == join3(utf8(key@), utf8(value@), utf8(node_id@)),
{
    key_of_three(key, value, node_id)
}

/// The key of an edge index entry: `E(key) S E(value) S E(from) S E(to)`.
pub fn edge_index_key(key: &str, value: &str, from: &str, to: &str) -> (row: String)
    ensures
        utf8(row@) == join4(utf8(key@), utf8(value@), utf8(from@), utf8(to@)),
{
    let mut out: Vec<u8> = Vec::new();
    push_component(&mut out, key);
    push_separator(&mut out);
    push_component(&mut out, value);
    push_separator(&mut out);
    push_component(&mut out, from);
    push_separator(&mut out);
    push_component(&mut out, to);
    assert(out@ =~= join4(utf8(key@), utf8(value@), utf8(from@), utf8(to@)));
    ascii_to_string(out)
}

/// What the keys of all properties of a node start with: `E(id) S`.
pub fn node_data_prefix(node_id: &str) -> (prefix: String)
    ensures
        utf8(prefix@) == prefix1(utf8(node_id@)),
{
    let mut out: Vec<u8> = Vec::new();
    push_component(&mut out, node_id);
    push_separator(&mut out);
    ascii_to_string(out)
}

/// What the keys of all edges out of a node start with: `E(from) S`.
pub fn edge_from_prefix(from: &str) -> (prefix: String)
    ensures
        utf8(prefix@) == prefix1(utf8(from@)),
{
    node_data_prefix(from)
}

/// What the keys of all properties of an edge start with:
/// `E(from) S E(to) S`.
pub fn edge_data_prefix(from: &str, to: &str) -> (prefix: String)
    ensures
        utf8(prefix@) == prefix2(utf8(from@), utf8(to@)),
{
    let mut out: Vec<u8> = Vec::new();
    push_component(&mut out, from);
    push_separator(&mut out);
    push_component(&mut out, to);
    push_separator(&mut out);
    assert(out@ =~= prefix2(utf8(from@), utf8(to@)));
    ascii_to_string(out)
}

/// What the index keys of all entities with a given property start with:
/// `E(key) S E(value) S`.
pub fn index_prefix(key: &str, value: &str) -> (prefix: String)
    ensures
        utf8(prefix@) == prefix2(utf8(key@), utf8(value@)),
{
    edge_data_prefix(key, value)
}

/// What the geo index keys of all nodes whose value starts with `prefix`
/// start with: `E(key) S E(prefix)`.
pub fn geo_index_prefix(key: &str, prefix: &str) -> (start: String)
    ensures
        utf8(start@) == join2(utf8(key@), utf8(prefix@)),
{
    key_of_two(key, prefix)
}

/// Cuts a key at its first separator.
pub fn split_two<'a>(value: &'a str) -> (parts: Option<(&'a str, &'a str)>)
    ensures
        match parts {
            Some((first, second)) => cut2(utf8(value@)) == Some((utf8(first@), utf8(second@))),
            None => cut2(utf8(value@)) is None,
        },
{
    split_at_byte(value, KEY_SEP)
}

/// Cuts a key at its first two separators.
pub fn split_three<'a>(value: &'a str) -> (parts: Option<(&'a str, &'a str, &'a str)>)
    ensures
        match parts {
            Some((first, second, third)) => cut3(utf8(value@)) == Some(
                (utf8(first@), utf8(second@), utf8(third@)),
            ),
            None => cut3(utf8(value@)) is None,
        },
{
    match split_two(value) {
        Some((first, rest)) => match split_two(rest) {
            Some((second, third)) => Some((first, second, third)),
            None => None,
        },
        None => None,
    }
}

/// Cuts a key at its first three separators.
pub fn split_four<'a>(value: &'a str) -> (parts: Option<(&'a str, &'a str, &'a str, &'a str)>)
    ensures
        match parts {
            Some((first, second, third, fourth)) => cut4(utf8(value@)) == Some(
                (utf8(first@), utf8(second@), utf8(third@), utf8(fourth@)),
            ),
            None => cut4(utf8(value@)) is None,
        },
{
    match split_two(value) {
        Some((first, rest)) => match split_three(rest) {
            Some((second, third, fourth)) => Some((first, second, third, fourth)),
            None => None,
        },
        None => None,
    }
}

/// The bytes of an optional pair of strings.
pub open spec fn opt_utf8_2(s: Option<(String, String)>) -> Option<(Seq<u8>, Seq<u8>)> {
    match s {
        Some((a, b)) => Some((utf8(a@), utf8(b@))),
        None => None,
    }
}

/// The bytes of an optional triple of strings.
pub open spec fn opt_utf8_3(s: Option<(String, String, String)>) -> Option<
    (Seq<u8>, Seq<u8>, Seq<u8>),
> {
    match s {
        Some((a, b, c)) => Some((utf8(a@), utf8(b@), utf8(c@))),
        None => None,
    }
}

/// The bytes of four optional strings.
pub open spec fn opt_utf8_4(s: Option<(String, String, String, String)>) -> Option<
    (Seq<u8>, Seq<u8>, Seq<u8>, Seq<u8>),
> {
    match s {
        Some((a, b, c, d)) => Some((utf8(a@), utf8(b@), utf8(c@), utf8(d@))),
        None => None,
    }
}

/// Cuts a key in two and decodes both parts.
pub fn split_two_decoded(value: &str) -> (parts: Option<(String, String)>)
    ensures
        opt_utf8_2(parts) == cut2_decoded(utf8(value@)),
{
    let (first, second) = match split_two(value) {
        Some(parts) => parts,
        None => {
            return None;
        },
    };
    let a = decode_component(first);
    let b = decode_component(second);
    match (a, b) {
        (Some(a), Some(b)) => Some((a, b)),
        _ => None,
    }
}

/// Cuts a key in three and decodes the three parts.
pub fn split_three_decoded(value: &str) -> (parts: Option<(String, String, String)>)
    ensures
        opt_utf8_3(parts) == cut3_decoded(utf8(value@)),
{
    let (first, second, third) = match split_three(value) {
        Some(parts) => parts,
        None => {
            return None;
        },
    };
    let a = decode_component(first);
    let b = decode_component(second);
    let c = decode_component(third);
    match (a, b, c) {
        (Some(a), Some(b), Some(c)) => Some((a, b, c)),
        _ => None,
    }
}

/// Cuts a key in four and decodes the four parts.
pub fn split_four_decoded(value: &str) -> (parts: Option<(String, String, String, String)>)
    ensures
        opt_utf8_4(parts) == cut4_decoded(utf8(value@)),
{
    let (first, second, third, fourth) = match split_four(value) {
        Some(parts) => parts,
        None => {
            return None;
        },
    };
    let a = decode_component(first);
    let b = decode_component(second);
    let c = decode_component(third);
    let d = decode_component(fourth);
    match (a, b, c, d) {
        (Some(a), Some(b), Some(c), Some(d)) => Some((a, b, c, d)),
        _ => None,
    }
}

} // verus!
