use vstd::prelude::*;
use vstd::utf8::*;

verus! {

/// The bytes that stand for a string: its UTF-8 encoding. Every contract of
/// this crate speaks of strings through their bytes.
pub open spec fn utf8(s: Seq<char>) -> Seq<u8> {
    encode_utf8(s)
}

/// Every byte is below 0x80.
pub open spec fn all_ascii(bytes: Seq<u8>) -> bool {
    forall|i: int| 0 <= i < bytes.len() ==> #[trigger] bytes[i] < 0x80
}

/// `p` is a prefix of `s`.
pub open spec fn has_prefix(s: Seq<u8>, p: Seq<u8>) -> bool {
    p.len() <= s.len() && s.subrange(0, p.len() as int) == p
}

/// Strict lexicographic order on byte strings, the order of `str`.
pub open spec fn lex_lt(a: Seq<u8>, b: Seq<u8>) -> bool
    decreases a.len(),
{
    if b.len() == 0 {
        false
    } else if a.len() == 0 {
        true
    } else if a[0] != b[0] {
        a[0] < b[0]
    } else {
        lex_lt(a.drop_first(), b.drop_first())
    }
}

/// `a` is `b` or comes before it.
pub open spec fn lex_le(a: Seq<u8>, b: Seq<u8>) -> bool {
    a == b || lex_lt(a, b)
}

/// No byte string comes before itself.
pub proof fn lemma_lex_irreflexive(a: Seq<u8>)
    ensures
        !lex_lt(a, a),
    decreases a.len(),
{
    if a.len() > 0 {
        lemma_lex_irreflexive(a.drop_first());
    }
}

/// Of two different byte strings, one comes before the other.
pub proof fn lemma_lex_total(a: Seq<u8>, b: Seq<u8>)
    ensures
        lex_lt(a, b) || a == b || lex_lt(b, a),
    decreases a.len(),
{
    if a.len() > 0 && b.len() > 0 && a[0] == b[0] {
        lemma_lex_total(a.drop_first(), b.drop_first());
        if a.drop_first() == b.drop_first() {
            assert(a =~= seq![a[0]] + a.drop_first());
            assert(b =~= seq![b[0]] + b.drop_first());
        }
    } else if a.len() == 0 && b.len() == 0 {
        assert(a =~= b);
    }
}

/// The order is transitive.
pub proof fn lemma_lex_transitive(a: Seq<u8>, b: Seq<u8>, c: Seq<u8>)
    requires
        lex_lt(a, b),
        lex_lt(b, c),
    ensures
        lex_lt(a, c),
    decreases a.len(),
{
    if a.len() > 0 && a[0] == b[0] && b[0] == c[0] {
        lemma_lex_transitive(a.drop_first(), b.drop_first(), c.drop_first());
    }
}

/// No two byte strings come before each other.
pub proof fn lemma_lex_asymmetric(a: Seq<u8>, b: Seq<u8>)
    requires
        lex_lt(a, b),
    ensures
        !lex_lt(b, a),
{
    if lex_lt(b, a) {
        lemma_lex_transitive(a, b, a);
        lemma_lex_irreflexive(a);
    }
}

/// A byte string does not come before its own prefix.
pub proof fn lemma_prefix_not_after(s: Seq<u8>, p: Seq<u8>)
    requires
        has_prefix(s, p),
    ensures
        !lex_lt(s, p),
    decreases p.len(),
{
    if p.len() > 0 {
        assert(s[0] == s.subrange(0, p.len() as int)[0]);
        assert(s.drop_first().subrange(0, p.len() - 1) =~= s.subrange(0, p.len() as int).drop_first());
        lemma_prefix_not_after(s.drop_first(), p.drop_first());
    }
}

/// Between two byte strings with a common prefix, everything has the
/// prefix: the strings with a given prefix stand together in the order.
pub proof fn lemma_prefix_interval(p: Seq<u8>, mid: Seq<u8>, high: Seq<u8>)
    requires
        lex_le(p, mid),
        lex_le(mid, high),
        has_prefix(high, p),
    ensures
        has_prefix(mid, p),
    decreases p.len(),
{
    if p.len() == 0 {
        assert(mid.subrange(0, 0) =~= p);
    } else {
        assert(high[0] == high.subrange(0, p.len() as int)[0]);
        assert(high.drop_first().subrange(0, p.len() - 1) =~= high.subrange(
            0,
            p.len() as int,
        ).drop_first());
        assert(has_prefix(high.drop_first(), p.drop_first()));
        if mid == p {
            assert(mid.subrange(0, p.len() as int) =~= p);
        } else if mid == high {
        } else {
            assert(lex_lt(p, mid));
            assert(lex_lt(mid, high));
            assert(mid.len() > 0);
            assert(mid[0] == p[0]);
            lemma_prefix_interval(p.drop_first(), mid.drop_first(), high.drop_first());
            assert(mid.subrange(0, p.len() as int) =~= seq![mid[0]] + mid.drop_first().subrange(
                0,
                p.len() - 1,
            ));
            assert(p =~= seq![p[0]] + p.drop_first());
        }
    }
}

/// Two strings with the same bytes are the same string.
pub proof fn lemma_utf8_injective(a: Seq<char>, b: Seq<char>)
    requires
        utf8(a) == utf8(b),
    ensures
        a == b,
{
    encode_utf8_decode_utf8(a);
    encode_utf8_decode_utf8(b);
}

/// Bytes below 0x80 are well-formed UTF-8.
pub proof fn lemma_ascii_is_valid_utf8(bytes: Seq<u8>)
    requires
        all_ascii(bytes),
    ensures
        valid_utf8(bytes),
{
    assert(bytes.subrange(0, 0) =~= Seq::<u8>::empty());
    assert(partial_valid_utf8(bytes, 0));
    assert forall|i: int| 0 <= i < bytes.len() implies #[trigger] is_leading_byte_width_1(
        bytes[i],
    ) by {
        assert(bytes[i] < 0x80);
    }
    partial_valid_utf8_extend_ascii_block(bytes, 0, bytes.len() as int);
    assert(bytes.subrange(0, bytes.len() as int) =~= bytes);
}

/// `String::from_utf8`: the string whose UTF-8 encoding is `bytes`, where
/// `bytes` is well-formed UTF-8, and nothing otherwise.
#[verifier::external_body]
pub(crate) fn string_from_utf8(bytes: Vec<u8>) -> (r: Option<String>)
    ensures
        match r {
            Some(s) => valid_utf8(bytes@) && utf8(s@) == bytes@,
            None => !valid_utf8(bytes@),
        },
{
    match String::from_utf8(bytes) {
        Ok(s) => Some(s),
        Err(_) => None,
    }
}

/// The string made of the given ASCII bytes.
pub fn ascii_to_string(bytes: Vec<u8>) -> (s: String)
    requires
        all_ascii(bytes@),
    ensures
        utf8(s@) == bytes@,
{
    proof {
        lemma_ascii_is_valid_utf8(bytes@);
    }
    match string_from_utf8(bytes) {
        Some(s) => s,
        None => vstd::pervasive::unreached(),
    }
}

/// Whether two byte slices hold the same bytes.
pub fn bytes_eq(a: &[u8], b: &[u8]) -> (r: bool)
    ensures
        r == (a@ == b@),
{
    if a.len() != b.len() {
        return false;
    }
    let mut i: usize = 0;
    while i < a.len()
        invariant
            a.len() == b.len(),
            0 <= i <= a.len(),
            forall|j: int| 0 <= j < i ==> a@[j] == b@[j],
        decreases a.len() - i,
    {
        if a[i] != b[i] {
            return false;
        }
        i += 1;
    }
    assert(a@ =~= b@);
    true
}

/// Whether two strings are equal.
pub fn str_eq(a: &str, b: &str) -> (r: bool)
    ensures
        r == (utf8(a@) == utf8(b@)),
        r == (a@ == b@),
{
    proof {
        if utf8(a@) == utf8(b@) {
            lemma_utf8_injective(a@, b@);
        }
    }
    bytes_eq(a.as_bytes(), b.as_bytes())
}

/// The place of the first `b` in `s`, or the length of `s` where it has none.
pub open spec fn first_index(s: Seq<u8>, b: u8) -> int
    decreases s.len(),
{
    if s.len() == 0 {
        0
    } else if s[0] == b {
        0
    } else {
        1 + first_index(s.drop_first(), b)
    }
}

/// `s` cut at its first `b`: what stands before it and what follows it.
pub open spec fn cut_at(s: Seq<u8>, b: u8) -> Option<(Seq<u8>, Seq<u8>)> {
    let i = first_index(s, b);
    if 0 <= i < s.len() {
        Some((s.take(i), s.skip(i + 1)))
    } else {
        None
    }
}

/// The pieces of `s` between the occurrences of `b`; one piece where `s` has
/// no `b`.
pub open spec fn split_on(s: Seq<u8>, b: u8) -> Seq<Seq<u8>>
    decreases s.len(),
{
    match cut_at(s, b) {
        Some((head, rest)) => seq![head] + split_on(rest, b),
        None => seq![s],
    }
}

/// The place of the first `b` lies in `s` or at its end, holds `b` where it
/// lies in `s`, and no earlier place holds `b`.
pub proof fn lemma_first_index_bounds(s: Seq<u8>, b: u8)
    ensures
        0 <= first_index(s, b) <= s.len(),
        first_index(s, b) < s.len() ==> s[first_index(s, b)] == b,
        forall|j: int| 0 <= j < first_index(s, b) ==> s[j] != b,
    decreases s.len(),
{
    if s.len() > 0 && s[0] != b {
        lemma_first_index_bounds(s.drop_first(), b);
        assert forall|j: int| 0 <= j < first_index(s, b) implies s[j] != b by {
            if j > 0 {
                assert(s[j] == s.drop_first()[j - 1]);
            }
        }
    }
}

/// The first `b` after a part that holds none is the one that follows the
/// part.
pub proof fn lemma_first_index_after(head: Seq<u8>, b: u8, tail: Seq<u8>)
    requires
        !head.contains(b),
    ensures
        first_index(head + seq![b] + tail, b) == head.len(),
        cut_at(head + seq![b] + tail, b) == Some((head, tail)),
    decreases head.len(),
{
    let s = head + seq![b] + tail;
    if head.len() == 0 {
        assert(s[0] == b);
    } else {
        assert(head.contains(head[0]));
        assert(s[0] == head[0]);
        let rest = head.drop_first();
        assert forall|x: u8| rest.contains(x) implies head.contains(x) by {
            let j = choose|j: int| 0 <= j < rest.len() && rest[j] == x;
            assert(head[j + 1] == x);
        }
        lemma_first_index_after(rest, b, tail);
        assert(s.drop_first() =~= rest + seq![b] + tail);
    }
    assert(s.take(head.len() as int) =~= head);
    assert(s.skip(head.len() as int + 1) =~= tail);
}

/// Cuts a string at the first occurrence of an ASCII byte.
pub fn split_at_byte<'a>(value: &'a str, sep: u8) -> (parts: Option<(&'a str, &'a str)>)
    requires
        sep < 0x80,
    ensures
        match parts {
            Some((first, second)) => cut_at(utf8(value@), sep) == Some(
                (utf8(first@), utf8(second@)),
            ),
            None => cut_at(utf8(value@), sep) is None,
        },
{
    let bytes = value.as_bytes();
    let mut i: usize = 0;
    proof {
        assert(bytes@.skip(0) =~= bytes@);
    }
    while i < bytes.len() && bytes[i] != sep
        invariant
            0 <= i <= bytes.len(),
            bytes@ == utf8(value@),
            first_index(bytes@, sep) == i + first_index(bytes@.skip(i as int), sep),
        decreases bytes.len() - i,
    {
        proof {
            let here = bytes@.skip(i as int);
            assert(here[0] == bytes@[i as int]);
            assert(here.drop_first() =~= bytes@.skip(i + 1));
        }
        i += 1;
    }
    if i >= bytes.len() {
        proof {
            assert(bytes@.skip(i as int) =~= Seq::<u8>::empty());
        }
        return None;
    }
    proof {
        let here = bytes@.skip(i as int);
        assert(here[0] == bytes@[i as int]);
        assert(first_index(here, sep) == 0);
        encode_utf8_valid_utf8(value@);
        is_char_boundary_iff_not_is_continuation_byte(bytes@, i as int);
    }
    let (first, rest) = value.split_at(i);
    proof {
        valid_utf8_split(bytes@, i as int);
        let tail = bytes@.subrange(i as int, bytes@.len() as int);
        assert(utf8(rest@) =~= tail);
        assert(tail[0] == sep);
        if tail.len() == 1 {
            is_char_boundary_start_end_of_seq(tail);
        } else {
            assert(pop_first_scalar(tail) =~= tail.subrange(1, tail.len() as int));
            reveal_with_fuel(is_char_boundary, 2);
            reveal_with_fuel(valid_utf8, 2);
            assert(is_char_boundary(tail, 1));
        }
    }
    let (_, second) = rest.split_at(1);
    proof {
        assert(utf8(first@) =~= bytes@.take(i as int));
        assert(utf8(second@) =~= bytes@.skip(i + 1));
    }
    Some((first, second))
}

/// The bytes of each string of a list.
pub open spec fn strs_utf8(items: Seq<&str>) -> Seq<Seq<u8>> {
    items.map_values(|item: &str| utf8(item@))
}

/// The bytes of each string of a list.
pub open spec fn strings_utf8(items: Seq<String>) -> Seq<Seq<u8>> {
    items.map_values(|item: String| utf8(item@))
}

/// The pieces of a string between the occurrences of an ASCII byte.
pub fn split_all<'a>(value: &'a str, sep: u8) -> (pieces: Vec<&'a str>)
    requires
        sep < 0x80,
    ensures
        strs_utf8(pieces@) == split_on(utf8(value@), sep),
{
    let mut pieces: Vec<&'a str> = Vec::new();
    let mut rest = value;
    proof {
        assert(strs_utf8(pieces@) + split_on(utf8(rest@), sep) =~= split_on(utf8(value@), sep));
    }
    loop
        invariant
            sep < 0x80,
            strs_utf8(pieces@) + split_on(utf8(rest@), sep) == split_on(utf8(value@), sep),
        decreases utf8(rest@).len(),
    {
        let ghost done = strs_utf8(pieces@);
        match split_at_byte(rest, sep) {
            Some((head, tail)) => {
                proof {
                    lemma_first_index_bounds(utf8(rest@), sep);
                }
                pieces.push(head);
                proof {
                    assert(strs_utf8(pieces@) =~= done.push(utf8(head@)));
                    assert(done.push(utf8(head@)) + split_on(utf8(tail@), sep) =~= done + (
                    seq![utf8(head@)] + split_on(utf8(tail@), sep)));
                }
                rest = tail;
            },
            None => {
                pieces.push(rest);
                proof {
                    assert(strs_utf8(pieces@) =~= done.push(utf8(rest@)));
                    assert(done.push(utf8(rest@)) =~= done + seq![utf8(rest@)]);
                }
                return pieces;
            },
        }
    }
}

/// Whether `a` comes strictly before `b` in the order of `str`.
pub fn bytes_lt(a: &[u8], b: &[u8]) -> (r: bool)
    ensures
        r == lex_lt(a@, b@),
{
    let mut i: usize = 0;
    proof {
        assert(a@.skip(0) =~= a@);
        assert(b@.skip(0) =~= b@);
    }
    while i < a.len() && i < b.len()
        invariant
            0 <= i <= a.len(),
            i <= b.len(),
            lex_lt(a@, b@) == lex_lt(a@.skip(i as int), b@.skip(i as int)),
        decreases a.len() - i,
    {
        proof {
            assert(a@.skip(i as int)[0] == a@[i as int]);
            assert(b@.skip(i as int)[0] == b@[i as int]);
            assert(a@.skip(i as int).drop_first() =~= a@.skip(i + 1));
            assert(b@.skip(i as int).drop_first() =~= b@.skip(i + 1));
        }
        if a[i] != b[i] {
            return a[i] < b[i];
        }
        i += 1;
    }
    i < b.len()
}

/// Whether `a` comes strictly before `b` in the order of `str`.
pub fn str_lt(a: &str, b: &str) -> (r: bool)
    ensures
        r == lex_lt(utf8(a@), utf8(b@)),
{
    bytes_lt(a.as_bytes(), b.as_bytes())
}

/// A sorted list without repetitions, with `x` put where it belongs;
/// unchanged where it holds `x`.
pub open spec fn insert_sorted(s: Seq<Seq<u8>>, x: Seq<u8>) -> Seq<Seq<u8>>
    decreases s.len(),
{
    if s.len() == 0 {
        seq![x]
    } else if lex_lt(s[0], x) {
        seq![s[0]] + insert_sorted(s.drop_first(), x)
    } else if s[0] == x {
        s
    } else {
        seq![x] + s
    }
}

/// The items in ascending order, each once.
pub open spec fn sort_unique(items: Seq<Seq<u8>>) -> Seq<Seq<u8>>
    decreases items.len(),
{
    if items.len() == 0 {
        Seq::empty()
    } else {
        insert_sorted(sort_unique(items.drop_last()), items.last())
    }
}

/// Each item comes strictly before the next.
pub open spec fn strictly_ascending(s: Seq<Seq<u8>>) -> bool {
    forall|i: int, j: int| 0 <= i < j < s.len() ==> lex_lt(s[i], s[j])
}

proof fn lemma_insert_sorted_at(s: Seq<Seq<u8>>, x: Seq<u8>, p: int)
    requires
        0 <= p <= s.len(),
        forall|j: int| 0 <= j < p ==> lex_lt(s[j], x),
        p < s.len() ==> !lex_lt(s[p], x),
    ensures
        insert_sorted(s, x) == if p < s.len() && s[p] == x {
            s
        } else {
            s.insert(p, x)
        },
    decreases p,
{
    if p == 0 {
        if s.len() == 0 {
            assert(s.insert(0, x) =~= seq![x]);
        } else if s[0] != x {
            assert(s.insert(0, x) =~= seq![x] + s);
        }
    } else {
        let rest = s.drop_first();
        assert forall|j: int| 0 <= j < p - 1 implies lex_lt(rest[j], x) by {
            assert(rest[j] == s[j + 1]);
        }
        lemma_insert_sorted_at(rest, x, p - 1);
        if p < s.len() && s[p] == x {
            assert(seq![s[0]] + rest =~= s);
        } else {
            assert(seq![s[0]] + rest.insert(p - 1, x) =~= s.insert(p, x));
        }
    }
}

/// Putting an item into an ascending list gives an ascending list that
/// holds the item and what the list held, and nothing else.
pub proof fn lemma_insert_sorted(s: Seq<Seq<u8>>, x: Seq<u8>)
    requires
        strictly_ascending(s),
    ensures
        strictly_ascending(insert_sorted(s, x)),
        insert_sorted(s, x).contains(x),
        forall|y: Seq<u8>| #[trigger] s.contains(y) ==> insert_sorted(s, x).contains(y),
        forall|y: Seq<u8>| #[trigger] insert_sorted(s, x).contains(y) ==> y == x || s.contains(y),
    decreases s.len(),
{
    let out = insert_sorted(s, x);
    if s.len() == 0 {
        assert(out[0] == x);
        assert forall|y: Seq<u8>| #[trigger] out.contains(y) implies y == x by {
            let i = choose|i: int| 0 <= i < out.len() && out[i] == y;
        }
    } else if lex_lt(s[0], x) {
        let rest = s.drop_first();
        assert forall|i: int, j: int| 0 <= i < j < rest.len() implies lex_lt(rest[i], rest[j]) by {
            assert(rest[i] == s[i + 1] && rest[j] == s[j + 1]);
        }
        lemma_insert_sorted(rest, x);
        let tail = insert_sorted(rest, x);
        assert(out =~= seq![s[0]] + tail);
        assert forall|y: Seq<u8>| #[trigger] out.contains(y) implies y == x || s.contains(y) by {
            let i = choose|i: int| 0 <= i < out.len() && out[i] == y;
            if i > 0 {
                assert(tail[i - 1] == y);
                assert(tail.contains(y));
                if rest.contains(y) {
                    let j = choose|j: int| 0 <= j < rest.len() && rest[j] == y;
                    assert(s[j + 1] == y);
                }
            } else {
                assert(s[0] == y);
            }
        }
        assert forall|y: Seq<u8>| #[trigger] s.contains(y) implies out.contains(y) by {
            let j = choose|j: int| 0 <= j < s.len() && s[j] == y;
            if j == 0 {
                assert(out[0] == y);
            } else {
                assert(rest[j - 1] == y);
                assert(rest.contains(y));
                assert(tail.contains(y));
                let i = choose|i: int| 0 <= i < tail.len() && tail[i] == y;
                assert(out[i + 1] == y);
            }
        }
        assert(out.contains(x)) by {
            assert(tail.contains(x));
            let i = choose|i: int| 0 <= i < tail.len() && tail[i] == x;
            assert(out[i + 1] == x);
        }
        assert forall|i: int, j: int| 0 <= i < j < out.len() implies lex_lt(out[i], out[j]) by {
            if i == 0 {
                assert(tail[j - 1] == out[j]);
                assert(tail.contains(out[j]));
                if out[j] != x {
                    assert(rest.contains(out[j]));
                    let k = choose|k: int| 0 <= k < rest.len() && rest[k] == out[j];
                    assert(s[k + 1] == out[j]);
                }
            } else {
                assert(tail[i - 1] == out[i] && tail[j - 1] == out[j]);
            }
        }
    } else if s[0] == x {
        assert(s.contains(s[0]));
    } else {
        lemma_lex_total(s[0], x);
        assert(out =~= seq![x] + s);
        assert forall|y: Seq<u8>| #[trigger] out.contains(y) implies y == x || s.contains(y) by {
            let i = choose|i: int| 0 <= i < out.len() && out[i] == y;
            if i > 0 {
                assert(s[i - 1] == y);
            }
        }
        assert forall|y: Seq<u8>| #[trigger] s.contains(y) implies out.contains(y) by {
            let j = choose|j: int| 0 <= j < s.len() && s[j] == y;
            assert(out[j + 1] == y);
        }
        assert(out[0] == x);
        assert forall|i: int, j: int| 0 <= i < j < out.len() implies lex_lt(out[i], out[j]) by {
            if i == 0 {
                assert(out[j] == s[j - 1]);
                if j > 1 {
                    lemma_lex_transitive(x, s[0], s[j - 1]);
                }
            } else {
                assert(out[i] == s[i - 1] && out[j] == s[j - 1]);
            }
        }
    }
}

/// `sort_unique` gives an ascending list of exactly the items.
pub proof fn lemma_sort_unique(items: Seq<Seq<u8>>)
    ensures
        strictly_ascending(sort_unique(items)),
        forall|y: Seq<u8>| #[trigger] sort_unique(items).contains(y) ==> items.contains(y),
        forall|y: Seq<u8>| #[trigger] items.contains(y) ==> sort_unique(items).contains(y),
    decreases items.len(),
{
    let out = sort_unique(items);
    if items.len() > 0 {
        let before = items.drop_last();
        lemma_sort_unique(before);
        lemma_insert_sorted(sort_unique(before), items.last());
        assert forall|y: Seq<u8>| #[trigger] out.contains(y) implies items.contains(y) by {
            if y == items.last() {
                assert(items[items.len() - 1] == y);
            } else {
                assert(sort_unique(before).contains(y));
                assert(before.contains(y));
                let i = choose|i: int| 0 <= i < before.len() && before[i] == y;
                assert(items[i] == y);
            }
        }
        assert forall|y: Seq<u8>| #[trigger] items.contains(y) implies out.contains(y) by {
            let i = choose|i: int| 0 <= i < items.len() && items[i] == y;
            if i < before.len() {
                assert(before[i] == y);
                assert(before.contains(y));
                assert(sort_unique(before).contains(y));
            }
        }
    } else {
        assert forall|y: Seq<u8>| #[trigger] out.contains(y) implies items.contains(y) by {
            let i = choose|i: int| 0 <= i < out.len() && out[i] == y;
        }
        assert forall|y: Seq<u8>| #[trigger] items.contains(y) implies out.contains(y) by {
            let i = choose|i: int| 0 <= i < items.len() && items[i] == y;
        }
    }
}

/// The strings in ascending order, each once.
pub fn sorted_unique(items: Vec<String>) -> (out: Vec<String>)
    ensures
        strings_utf8(out@) == sort_unique(strings_utf8(items@)),
{
    let mut out: Vec<String> = Vec::new();
    let mut i: usize = 0;
    proof {
        assert(strings_utf8(items@).take(0) =~= Seq::<Seq<u8>>::empty());
        assert(strings_utf8(out@) =~= Seq::<Seq<u8>>::empty());
    }
    while i < items.len()
        invariant
            0 <= i <= items.len(),
            strings_utf8(out@) == sort_unique(strings_utf8(items@).take(i as int)),
        decreases items.len() - i,
    {
        let item = items[i].clone();
        let ghost sorted = strings_utf8(out@);
        let ghost x = utf8(item@);
        let mut p: usize = 0;
        while p < out.len() && str_lt(out[p].as_str(), item.as_str())
            invariant
                0 <= p <= out.len(),
                x == utf8(item@),
                sorted == strings_utf8(out@),
                forall|j: int| 0 <= j < p ==> lex_lt(sorted[j], x),
            decreases out.len() - p,
        {
            p += 1;
        }
        proof {
            lemma_insert_sorted_at(sorted, x, p as int);
            assert(strings_utf8(items@).take(i + 1).drop_last() =~= strings_utf8(items@).take(
                i as int,
            ));
            assert(strings_utf8(items@).take(i + 1).last() == x);
        }
        if p < out.len() && str_eq(out[p].as_str(), item.as_str()) {
        } else {
            out.insert(p, item);
            proof {
                assert(strings_utf8(out@) =~= sorted.insert(p as int, x));
            }
        }
        i += 1;
    }
    proof {
        assert(strings_utf8(items@).take(i as int) =~= strings_utf8(items@));
    }
    out
}

/// Whether the list holds the string.
pub fn list_contains(items: &Vec<String>, item: &str) -> (found: bool)
    ensures
        found == strings_utf8(items@).contains(utf8(item@)),
{
    let mut i: usize = 0;
    while i < items.len()
        invariant
            0 <= i <= items.len(),
            forall|j: int| 0 <= j < i ==> strings_utf8(items@)[j] != utf8(item@),
        decreases items.len() - i,
    {
        if str_eq(items[i].as_str(), item) {
            assert(strings_utf8(items@)[i as int] == utf8(item@));
            return true;
        }
        i += 1;
    }
    false
}

/// A character is white space: one of the characters U+0009 to U+000D,
/// U+0020, U+0085, U+00A0, U+1680, U+2000 to U+200A, U+2028, U+2029,
/// U+202F, U+205F and U+3000.
pub open spec fn is_white_space(c: char) -> bool {
    let n = c as u32;
    (0x09 <= n <= 0x0d) || n == 0x20 || n == 0x85 || n == 0xa0 || n == 0x1680 || (0x2000 <= n
        <= 0x200a) || n == 0x2028 || n == 0x2029 || n == 0x202f || n == 0x205f || n == 0x3000
}

/// Whether a character is white space.
pub fn is_space(c: char) -> (r: bool)
    ensures
        r == is_white_space(c),
{
    let n = c as u32;
    (0x09 <= n && n <= 0x0d) || n == 0x20 || n == 0x85 || n == 0xa0 || n == 0x1680 || (0x2000 <= n
        && n <= 0x200a) || n == 0x2028 || n == 0x2029 || n == 0x202f || n == 0x205f || n == 0x3000
}

/// The number of white characters that a string starts with.
pub open spec fn leading_space(s: Seq<char>) -> int
    decreases s.len(),
{
    if s.len() > 0 && is_white_space(s[0]) {
        1 + leading_space(s.drop_first())
    } else {
        0
    }
}

/// The number of white characters that a string ends with.
pub open spec fn trailing_space(s: Seq<char>) -> int
    decreases s.len(),
{
    if s.len() > 0 && is_white_space(s.last()) {
        1 + trailing_space(s.drop_last())
    } else {
        0
    }
}

/// A string without the white space at its two ends.
pub open spec fn trimmed(s: Seq<char>) -> Seq<char> {
    let rest = s.subrange(leading_space(s), s.len() as int);
    rest.subrange(0, rest.len() - trailing_space(rest))
}

/// A string that starts with `count` white characters, and goes on with
/// another character or ends there, starts with that many and no more.
pub proof fn lemma_leading_space(s: Seq<char>, count: int)
    requires
        0 <= count <= s.len(),
        forall|j: int| 0 <= j < count ==> is_white_space(#[trigger] s[j]),
        count < s.len() ==> !is_white_space(s[count]),
    ensures
        leading_space(s) == count,
    decreases s.len(),
{
    if count > 0 {
        let rest = s.drop_first();
        assert forall|j: int| 0 <= j < count - 1 implies is_white_space(#[trigger] rest[j]) by {
            assert(rest[j] == s[j + 1]);
        }
        if count - 1 < rest.len() {
            assert(rest[count - 1] == s[count]);
        }
        lemma_leading_space(rest, count - 1);
    }
}

/// A string that ends with `count` white characters, and has another
/// character before them or none, ends with that many and no more.
pub proof fn lemma_trailing_space(s: Seq<char>, count: int)
    requires
        0 <= count <= s.len(),
        forall|j: int| s.len() - count <= j < s.len() ==> is_white_space(#[trigger] s[j]),
        count < s.len() ==> !is_white_space(s[s.len() - count - 1]),
    ensures
        trailing_space(s) == count,
    decreases s.len(),
{
    if count > 0 {
        let rest = s.drop_last();
        assert forall|j: int| rest.len() - (count - 1) <= j < rest.len() implies is_white_space(
            #[trigger] rest[j],
        ) by {
            assert(rest[j] == s[j]);
        }
        if count - 1 < rest.len() {
            assert(rest[rest.len() - (count - 1) - 1] == s[s.len() - count - 1]);
        }
        lemma_trailing_space(rest, count - 1);
    }
}

/// The slice that is left of a string when the white space at its two ends
/// is taken off.
pub fn trim_str<'a>(s: &'a str) -> (r: &'a str)
    ensures
        r@ == trimmed(s@),
{
    let length = s.unicode_len();
    let mut start: usize = 0;
    while start < length && is_space(s.get_char(start))
        invariant
            0 <= start <= length,
            length == s@.len(),
            forall|j: int| 0 <= j < start ==> is_white_space(#[trigger] s@[j]),
        decreases length - start,
    {
        start += 1;
    }
    let mut end: usize = length;
    while end > start && is_space(s.get_char(end - 1))
        invariant
            start <= end <= length,
            length == s@.len(),
            forall|j: int| end <= j < length ==> is_white_space(#[trigger] s@[j]),
        decreases end - start,
    {
        end -= 1;
    }
    proof {
        lemma_leading_space(s@, start as int);
        let rest = s@.subrange(start as int, length as int);
        let count = length - end;
        assert forall|j: int| rest.len() - count <= j < rest.len() implies is_white_space(
            #[trigger] rest[j],
        ) by {
            assert(rest[j] == s@[j + start]);
        }
        if count < rest.len() {
            assert(rest[rest.len() - count - 1] == s@[end - 1]);
        }
        lemma_trailing_space(rest, count);
        assert(rest.subrange(0, rest.len() - count) =~= s@.subrange(start as int, end as int));
    }
    s.substring_char(start, end)
}

} // verus!
