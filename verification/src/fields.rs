use vstd::prelude::*;
use vstd::utf8::valid_utf8;
use crate::text::{split_on, first_index, sort_unique, lemma_first_index_after, lemma_first_index_bounds, lemma_sort_unique};
use crate::codec::{KEY_SEP, escape, decode, lemma_escape_is_clean, lemma_unescape_escape};
use crate::schema::{join_parts, escape_each, stored_fields, decoded_fields};

verus! {

/// A text without a separator has one piece: itself.
pub proof fn lemma_split_clean(s: Seq<u8>)
    requires
        !s.contains(KEY_SEP),
    ensures
        split_on(s, KEY_SEP) == seq![s],
{
    lemma_first_index_bounds(s, KEY_SEP);
    let i = first_index(s, KEY_SEP);
    if i < s.len() {
        assert(s.contains(s[i]));
    }
}

/// The pieces of a text that ends with a separator and a piece without one
/// are the pieces of what stands before the separator, and that piece.
pub proof fn lemma_split_joined(head: Seq<u8>, last: Seq<u8>)
    requires
        !last.contains(KEY_SEP),
    ensures
        split_on(head + seq![KEY_SEP] + last, KEY_SEP) == split_on(head, KEY_SEP).push(last),
    decreases head.len(),
{
    let s = head + seq![KEY_SEP] + last;
    lemma_first_index_bounds(head, KEY_SEP);
    let i = first_index(head, KEY_SEP);
    if i < head.len() {
        let before = head.take(i);
        let after = head.skip(i + 1);
        assert(head =~= before + seq![KEY_SEP] + after);
        assert(!before.contains(KEY_SEP)) by {
            if before.contains(KEY_SEP) {
                let j = choose|j: int| 0 <= j < before.len() && before[j] == KEY_SEP;
                assert(head[j] == KEY_SEP);
            }
        }
        lemma_first_index_after(before, KEY_SEP, after);
        assert(s =~= before + seq![KEY_SEP] + (after + seq![KEY_SEP] + last));
        lemma_first_index_after(before, KEY_SEP, after + seq![KEY_SEP] + last);
        lemma_split_joined(after, last);
        assert(split_on(head, KEY_SEP) == seq![before] + split_on(after, KEY_SEP));
        assert(split_on(s, KEY_SEP) == seq![before] + split_on(
            after + seq![KEY_SEP] + last,
            KEY_SEP,
        ));
        assert(seq![before] + split_on(after, KEY_SEP).push(last) =~= (seq![before] + split_on(
            after,
            KEY_SEP,
        )).push(last));
    } else {
        assert(!head.contains(KEY_SEP)) by {
            if head.contains(KEY_SEP) {
                let j = choose|j: int| 0 <= j < head.len() && head[j] == KEY_SEP;
            }
        }
        lemma_first_index_after(head, KEY_SEP, last);
        lemma_split_clean(head);
        lemma_split_clean(last);
        assert(seq![head] + seq![last] =~= seq![head].push(last));
    }
}

/// Splitting what was joined gives the parts back, where no part holds a
/// separator and there is a part.
pub proof fn lemma_split_join(parts: Seq<Seq<u8>>)
    requires
        parts.len() > 0,
        forall|i: int| 0 <= i < parts.len() ==> !(#[trigger] parts[i]).contains(KEY_SEP),
    ensures
        split_on(join_parts(parts), KEY_SEP) == parts,
    decreases parts.len(),
{
    if parts.len() == 1 {
        lemma_split_clean(parts[0]);
        assert(seq![parts[0]] =~= parts);
    } else {
        let less = parts.drop_last();
        assert forall|i: int| 0 <= i < less.len() implies !(#[trigger] less[i]).contains(
            KEY_SEP,
        ) by {
            assert(less[i] == parts[i]);
        }
        lemma_split_join(less);
        lemma_split_joined(join_parts(less), parts.last());
        assert(less.push(parts.last()) =~= parts);
    }
}

/// The fields that encodings of strings that are not empty decode to are
/// these strings.
pub proof fn lemma_decoded_encodings(parts: Seq<Seq<u8>>)
    requires
        forall|i: int|
            0 <= i < parts.len() ==> exists|field: Seq<u8>|
                valid_utf8(field) && field.len() > 0 && (#[trigger] parts[i]) == escape(field),
    ensures
        escape_each(decoded_fields(parts)) == parts,
    decreases parts.len(),
{
    if parts.len() > 0 {
        let less = parts.drop_last();
        assert forall|i: int| 0 <= i < less.len() implies exists|field: Seq<u8>|
            valid_utf8(field) && field.len() > 0 && (#[trigger] less[i]) == escape(field) by {
            assert(less[i] == parts[i]);
        }
        lemma_decoded_encodings(less);
        let last = parts[parts.len() - 1];
        let field = choose|field: Seq<u8>|
            valid_utf8(field) && field.len() > 0 && last == escape(field);
        lemma_unescape_escape(field);
        assert(decode(last) == Some(field));
        assert(escape_each(decoded_fields(less).push(field)) =~= escape_each(
            decoded_fields(less),
        ).push(escape(field)));
        assert(less.push(last) =~= parts);
    } else {
        assert(escape_each(decoded_fields(parts)) =~= parts);
    }
}

/// A whitelist is read back as it was stored: the fields that the stored
/// form holds are the fields that were stored, each once, in the ascending
/// order of their encodings, where the fields are strings that are not
/// empty.
pub proof fn lemma_stored_fields_are_read_back(fields: Seq<Seq<u8>>)
    requires
        forall|i: int| 0 <= i < fields.len() ==> valid_utf8(#[trigger] fields[i]) && fields[i].len()
            > 0,
    ensures
        ({
            let read = decoded_fields(split_on(stored_fields(fields), KEY_SEP));
            &&& escape_each(read) == sort_unique(escape_each(fields))
            &&& forall|field: Seq<u8>| #[trigger] read.contains(field) <==> fields.contains(field)
        }),
{
    let encoded = escape_each(fields);
    let parts = sort_unique(encoded);
    let read = decoded_fields(split_on(stored_fields(fields), KEY_SEP));
    lemma_sort_unique(encoded);
    assert forall|i: int| 0 <= i < parts.len() implies exists|field: Seq<u8>|
        valid_utf8(field) && field.len() > 0 && (#[trigger] parts[i]) == escape(field) by {
        assert(parts.contains(parts[i]));
        assert(encoded.contains(parts[i]));
        let k = choose|k: int| 0 <= k < encoded.len() && encoded[k] == parts[i];
        assert(parts[i] == escape(fields[k]));
    }
    assert forall|i: int| 0 <= i < parts.len() implies !(#[trigger] parts[i]).contains(KEY_SEP) by {
        let field = choose|field: Seq<u8>|
            valid_utf8(field) && field.len() > 0 && parts[i] == escape(field);
        lemma_escape_is_clean(field);
    }
    if parts.len() > 0 {
        lemma_split_join(parts);
    } else {
        let nothing = Seq::<u8>::empty();
        let one = seq![nothing];
        assert(join_parts(parts) =~= nothing);
        lemma_split_clean(nothing);
        assert(split_on(stored_fields(fields), KEY_SEP) == one);
        assert(one.drop_last() =~= Seq::<Seq<u8>>::empty());
        assert(decoded_fields(one.drop_last()) =~= Seq::<Seq<u8>>::empty());
        assert(one.last() == nothing);
        lemma_unescape_escape(nothing);
        assert(escape(nothing) =~= nothing);
        assert(decoded_fields(one) =~= Seq::<Seq<u8>>::empty());
    }
    lemma_decoded_encodings(parts);
    assert(escape_each(read) == parts);
    assert forall|field: Seq<u8>| #[trigger] read.contains(field) <==> fields.contains(field) by {
        if read.contains(field) {
            let k = choose|k: int| 0 <= k < read.len() && read[k] == field;
            assert(escape_each(read)[k] == escape(field));
            assert(parts.contains(parts[k]));
            assert(encoded.contains(escape(field)));
            let m = choose|m: int| 0 <= m < encoded.len() && encoded[m] == escape(field);
            crate::keys::lemma_escape_injective(fields[m], field);
        }
        if fields.contains(field) {
            let m = choose|m: int| 0 <= m < fields.len() && fields[m] == field;
            assert(encoded[m] == escape(field));
            assert(encoded.contains(escape(field)));
            assert(parts.contains(escape(field)));
            let k = choose|k: int| 0 <= k < parts.len() && parts[k] == escape(field);
            assert(escape_each(read)[k] == escape(read[k]));
            crate::keys::lemma_escape_injective(read[k], field);
        }
    }
}

} // verus!
