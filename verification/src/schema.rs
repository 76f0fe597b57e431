use vstd::prelude::*;
use crate::text::{utf8, str_eq, strings_utf8, strs_utf8, split_on, split_all, sort_unique, sorted_unique, list_contains, ascii_to_string, all_ascii, trimmed, trim_str};
use crate::codec::{KEY_SEP, escape, escape_bytes, decode, decode_component, lemma_escape_is_clean};
use crate::assoc::{distinct_keys, has_key, key_index, lemma_pairs_map_at, lemma_has_key_take};
use crate::props::PropertyMap;
use crate::graph::Properties;

verus! {

/// The key of the property that says whether an entity is active.
pub const STATUS_KEY: &'static str = "status";

/// The status of an entity that is in use.
pub const STATUS_ACTIVE: &'static str = "active";

/// The status of an entity that was deleted.
pub const STATUS_DELETED: &'static str = "deleted";

/// The key of the property that holds the type of an entity.
pub const TYPE_KEY: &'static str = "type";

/// The type of the edges that are kept in both directions.
pub const TYPE_BLOCK: &'static str = "block";

/// A status value, or its absence, that stands for an active entity.
pub open spec fn active_value(value: Option<Seq<u8>>) -> bool {
    match value {
        Some(status) => status == utf8(STATUS_ACTIVE@),
        None => true,
    }
}

/// The properties of an active entity: its status is `active`, or it has
/// none.
pub open spec fn active_data(data: Properties) -> bool {
    active_value(
        if data.contains_key(utf8(STATUS_KEY@)) {
            Some(data[utf8(STATUS_KEY@)])
        } else {
            None
        },
    )
}

/// Whether a status value, or its absence, stands for an active entity.
pub fn is_active_value(value: Option<&String>) -> (active: bool)
    ensures
        active == active_value(
            match value {
                Some(status) => Some(utf8(status@)),
                None => None,
            },
        ),
{
    match value {
        Some(status) => str_eq(status.as_str(), STATUS_ACTIVE),
        None => true,
    }
}

/// Whether the properties are those of an active entity.
pub fn is_active_data(data: &PropertyMap) -> (active: bool)
    ensures
        active == active_data(data@),
{
    is_active_value(data.get(STATUS_KEY))
}

/// The properties whose keys a field list lets through.
pub open spec fn restricted(data: Properties, fields: Seq<Seq<u8>>) -> Properties {
    Map::new(|key: Seq<u8>| data.contains_key(key) && fields.contains(key), |key: Seq<u8>| data[key])
}

/// The field whitelists of the two kinds of entity. A kind without a
/// whitelist keeps every property in memory.
#[derive(Debug)]
pub struct SchemaCache {
    pub node_fields: Vec<String>,
    pub edge_fields: Vec<String>,
    pub node_defined: bool,
    pub edge_defined: bool,
}

impl SchemaCache {
    /// Whether a node property with this key is kept in memory.
    pub open spec fn node_allows(&self, key: Seq<u8>) -> bool {
        !self.node_defined || strings_utf8(self.node_fields@).contains(key)
    }

    /// Whether an edge property with this key is kept in memory.
    pub open spec fn edge_allows(&self, key: Seq<u8>) -> bool {
        !self.edge_defined || strings_utf8(self.edge_fields@).contains(key)
    }

    /// The part of a node's properties that is kept in memory.
    pub open spec fn node_part(&self, data: Properties) -> Properties {
        if self.node_defined {
            restricted(data, strings_utf8(self.node_fields@))
        } else {
            data
        }
    }

    /// The part of an edge's properties that is kept in memory.
    pub open spec fn edge_part(&self, data: Properties) -> Properties {
        if self.edge_defined {
            restricted(data, strings_utf8(self.edge_fields@))
        } else {
            data
        }
    }

    /// No whitelist for either kind.
    pub fn new() -> (schema: Self)
        ensures
            !schema.node_defined,
            !schema.edge_defined,
            schema.node_fields@.len() == 0,
            schema.edge_fields@.len() == 0,
    {
        SchemaCache {
            node_fields: Vec::new(),
            edge_fields: Vec::new(),
            node_defined: false,
            edge_defined: false,
        }
    }

    /// Whether a node property with this key is kept in memory.
    pub fn node_in_memory(&self, key: &str) -> (kept: bool)
        ensures
            kept == self.node_allows(utf8(key@)),
    {
        !self.node_defined || list_contains(&self.node_fields, key)
    }

    /// Whether an edge property with this key is kept in memory.
    pub fn edge_in_memory(&self, key: &str) -> (kept: bool)
        ensures
            kept == self.edge_allows(utf8(key@)),
    {
        !self.edge_defined || list_contains(&self.edge_fields, key)
    }

    /// The part of a node's properties that is kept in memory.
    pub fn filter_node_data(&self, data: &PropertyMap) -> (kept: PropertyMap)
        ensures
            kept@ == self.node_part(data@),
    {
        if !self.node_defined {
            return data.clone();
        }
        restrict(data, &self.node_fields)
    }

    /// The part of an edge's properties that is kept in memory.
    pub fn filter_edge_data(&self, data: &PropertyMap) -> (kept: PropertyMap)
        ensures
            kept@ == self.edge_part(data@),
    {
        if !self.edge_defined {
            return data.clone();
        }
        restrict(data, &self.edge_fields)
    }
}

impl Default for SchemaCache {
    fn default() -> (schema: Self)
        ensures
            !schema.node_defined,
            !schema.edge_defined,
            schema.node_fields@.len() == 0,
            schema.edge_fields@.len() == 0,
    {
        SchemaCache::new()
    }
}

impl Clone for SchemaCache {
    fn clone(&self) -> (copy: Self)
        ensures
            copy.node_defined == self.node_defined,
            copy.edge_defined == self.edge_defined,
            strings_utf8(copy.node_fields@) == strings_utf8(self.node_fields@),
            strings_utf8(copy.edge_fields@) == strings_utf8(self.edge_fields@),
    {
        SchemaCache {
            node_fields: copy_strings(&self.node_fields),
            edge_fields: copy_strings(&self.edge_fields),
            node_defined: self.node_defined,
            edge_defined: self.edge_defined,
        }
    }
}

/// A copy of a list of strings.
pub fn copy_strings(items: &Vec<String>) -> (copy: Vec<String>)
    ensures
        strings_utf8(copy@) == strings_utf8(items@),
{
    let mut copy: Vec<String> = Vec::new();
    let mut i: usize = 0;
    while i < items.len()
        invariant
            0 <= i <= items.len(),
            copy@.len() == i,
            forall|j: int| 0 <= j < i ==> copy@[j]@ == items@[j]@,
        decreases items.len() - i,
    {
        copy.push(items[i].clone());
        i += 1;
    }
    assert(strings_utf8(copy@) =~= strings_utf8(items@));
    copy
}

/// The properties whose keys are in the list.
pub fn restrict(data: &PropertyMap, fields: &Vec<String>) -> (kept: PropertyMap)
    ensures
        kept@ == restricted(data@, strings_utf8(fields@)),
{
    let mut kept = PropertyMap::new();
    let count = data.len();
    let ghost pairs = data.pairs();
    let ghost allowed = strings_utf8(fields@);
    let mut i: usize = 0;
    proof {
        assert forall|key: Seq<u8>| !has_key(pairs.take(0), key) by {
            if has_key(pairs.take(0), key) {
                let j = key_index(pairs.take(0), key);
            }
        }
    }
    while i < count
        invariant
            0 <= i <= count,
            count == pairs.len(),
            pairs == data.pairs(),
            allowed == strings_utf8(fields@),
            distinct_keys(pairs),
            forall|key: Seq<u8>| #[trigger]
                kept@.contains_key(key) ==> allowed.contains(key) && has_key(
                    pairs.take(i as int),
                    key,
                ) && data@.contains_key(key) && kept@[key] == data@[key],
            forall|key: Seq<u8>|
                allowed.contains(key) && #[trigger] has_key(pairs.take(i as int), key)
                    ==> kept@.contains_key(key),
        decreases count - i,
    {
        let key = data.key_at(i);
        let ghost before = kept@;
        proof {
            lemma_pairs_map_at(pairs, i as int);
        }
        if list_contains(fields, key.as_str()) {
            kept.insert(key.clone(), data.value_at(i).clone());
        }
        proof {
            assert forall|k: Seq<u8>| #[trigger] kept@.contains_key(k) implies allowed.contains(k)
                && has_key(pairs.take(i + 1), k) && data@.contains_key(k) && kept@[k]
                == data@[k] by {
                lemma_has_key_take(pairs, i as int, k);
                if k != pairs[i as int].0 {
                    assert(before.contains_key(k));
                }
            }
            assert forall|k: Seq<u8>|
                allowed.contains(k) && #[trigger] has_key(pairs.take(i + 1), k) implies kept@.contains_key(
                k,
            ) by {
                lemma_has_key_take(pairs, i as int, k);
                if has_key(pairs.take(i as int), k) {
                    assert(before.contains_key(k));
                }
            }
        }
        i += 1;
    }
    proof {
        assert(pairs.take(i as int) =~= pairs);
        assert forall|k: Seq<u8>| kept@.contains_key(k) <==> restricted(
            data@,
            allowed,
        ).contains_key(k) by {
            if data@.contains_key(k) && allowed.contains(k) {
                assert(has_key(pairs, k));
            }
        }
        assert(kept@ =~= restricted(data@, allowed));
    }
    kept
}

/// The parts of a list joined by the separator.
pub open spec fn join_parts(parts: Seq<Seq<u8>>) -> Seq<u8>
    decreases parts.len(),
{
    if parts.len() == 0 {
        Seq::empty()
    } else if parts.len() == 1 {
        parts[0]
    } else {
        join_parts(parts.drop_last()) + seq![KEY_SEP] + parts.last()
    }
}

/// The encodings of the items.
pub open spec fn escape_each(items: Seq<Seq<u8>>) -> Seq<Seq<u8>> {
    items.map_values(|item: Seq<u8>| escape(item))
}

/// What a whitelist is stored as: the encoded fields in ascending order,
/// each once, joined by the separator.
pub open spec fn stored_fields(fields: Seq<Seq<u8>>) -> Seq<u8> {
    join_parts(sort_unique(escape_each(fields)))
}

/// The fields that a stored whitelist holds: the parts between the
/// separators that decode, but for empty ones, in their order.
pub open spec fn decoded_fields(parts: Seq<Seq<u8>>) -> Seq<Seq<u8>>
    decreases parts.len(),
{
    if parts.len() == 0 {
        Seq::empty()
    } else {
        let before = decoded_fields(parts.drop_last());
        match decode(parts.last()) {
            Some(field) => if field.len() > 0 {
                before.push(field)
            } else {
                before
            },
            None => before,
        }
    }
}

/// The value under which a whitelist is stored.
pub fn serialize_schema_fields(fields: &[String]) -> (stored: String)
    ensures
        utf8(stored@) == stored_fields(strings_utf8(fields@)),
{
    let mut encoded: Vec<String> = Vec::new();
    let mut i: usize = 0;
    while i < fields.len()
        invariant
            0 <= i <= fields.len(),
            encoded@.len() == i,
            forall|j: int|
                0 <= j < i ==> utf8((#[trigger] encoded@[j])@) == escape(utf8(fields@[j]@)),
        decreases fields.len() - i,
    {
        let bytes = escape_bytes(fields[i].as_str().as_bytes());
        proof {
            lemma_escape_is_clean(utf8(fields@[i as int]@));
        }
        encoded.push(ascii_to_string(bytes));
        i += 1;
    }
    proof {
        assert(strings_utf8(encoded@) =~= escape_each(strings_utf8(fields@)));
    }
    let sorted = sorted_unique(encoded);
    let ghost parts = strings_utf8(sorted@);
    proof {
        crate::text::lemma_sort_unique(escape_each(strings_utf8(fields@)));
        assert forall|j: int| 0 <= j < parts.len() implies all_ascii(#[trigger] parts[j]) by {
            assert(parts.contains(parts[j]));
            assert(escape_each(strings_utf8(fields@)).contains(parts[j]));
            let k = choose|k: int|
                0 <= k < fields@.len() && escape_each(strings_utf8(fields@))[k] == parts[j];
            lemma_escape_is_clean(strings_utf8(fields@)[k]);
        }
    }
    let mut out: Vec<u8> = Vec::new();
    let mut k: usize = 0;
    proof {
        assert(parts.take(0) =~= Seq::<Seq<u8>>::empty());
    }
    while k < sorted.len()
        invariant
            0 <= k <= sorted.len(),
            parts == strings_utf8(sorted@),
            forall|j: int| 0 <= j < parts.len() ==> all_ascii(#[trigger] parts[j]),
            out@ == join_parts(parts.take(k as int)),
            all_ascii(out@),
        decreases sorted.len() - k,
    {
        proof {
            assert(parts.take(k + 1).drop_last() =~= parts.take(k as int));
            assert(parts.take(k + 1).last() == parts[k as int]);
            assert(parts.take(k + 1).len() == k + 1);
            assert(all_ascii(parts[k as int]));
        }
        if k > 0 {
            out.push(KEY_SEP);
        }
        let piece = sorted[k].as_str().as_bytes();
        let mut p: usize = 0;
        let ghost base = out@;
        while p < piece.len()
            invariant
                0 <= p <= piece.len(),
                out@ == base + piece@.take(p as int),
                all_ascii(base),
                all_ascii(piece@),
            decreases piece.len() - p,
        {
            out.push(piece[p]);
            proof {
                assert(piece@.take(p + 1) =~= piece@.take(p as int).push(piece@[p as int]));
                assert(out@ =~= base + piece@.take(p + 1));
            }
            p += 1;
        }
        proof {
            assert(piece@.take(p as int) =~= piece@);
            if k == 0 {
                assert(base =~= Seq::<u8>::empty());
                assert(out@ =~= parts[0]);
            } else {
                assert(out@ =~= join_parts(parts.take(k as int)) + seq![KEY_SEP] + parts[k as int]);
            }
        }
        k += 1;
    }
    proof {
        assert(parts.take(k as int) =~= parts);
    }
    ascii_to_string(out)
}

/// The fields of a stored whitelist.
pub fn deserialize_schema_fields(value: &str) -> (fields: Vec<String>)
    ensures
        strings_utf8(fields@) == decoded_fields(split_on(utf8(value@), KEY_SEP)),
{
    let pieces = split_all(value, KEY_SEP);
    let ghost parts = strs_utf8(pieces@);
    let mut fields: Vec<String> = Vec::new();
    let mut i: usize = 0;
    proof {
        assert(parts.take(0) =~= Seq::<Seq<u8>>::empty());
        assert(strings_utf8(fields@) =~= Seq::<Seq<u8>>::empty());
    }
    while i < pieces.len()
        invariant
            0 <= i <= pieces.len(),
            parts == strs_utf8(pieces@),
            strings_utf8(fields@) == decoded_fields(parts.take(i as int)),
        decreases pieces.len() - i,
    {
        proof {
            assert(parts.take(i + 1).drop_last() =~= parts.take(i as int));
            assert(parts.take(i + 1).last() == parts[i as int]);
        }
        let ghost before = strings_utf8(fields@);
        let decoded = decode_component(pieces[i]);
        proof {
            assert(parts[i as int] == utf8(pieces@[i as int]@));
            assert(crate::codec::opt_utf8(decoded) == decode(parts[i as int]));
            assert(parts.take(i + 1).len() == i + 1);
        }
        match decoded {
            Some(field) => {
                if field.as_str().as_bytes().len() > 0 {
                    fields.push(field);
                    assert(strings_utf8(fields@) =~= before.push(utf8(field@)));
                }
            },
            None => {},
        }
        i += 1;
    }
    proof {
        assert(parts.take(i as int) =~= parts);
    }
    fields
}

/// The bytes of each string, trimmed, but for those that are empty then.
pub open spec fn trimmed_fields(fields: Seq<String>) -> Seq<Seq<u8>>
    decreases fields.len(),
{
    if fields.len() == 0 {
        Seq::empty()
    } else {
        let before = trimmed_fields(fields.drop_last());
        let field = trimmed(fields.last()@);
        if field.len() > 0 {
            before.push(utf8(field))
        } else {
            before
        }
    }
}

/// The fields of a whitelist as they are kept: trimmed, without empty ones,
/// in ascending order, each once.
pub fn normalize_fields(fields: &Vec<String>) -> (kept: Vec<String>)
    ensures
        strings_utf8(kept@) == sort_unique(trimmed_fields(fields@)),
{
    let mut named: Vec<String> = Vec::new();
    let mut i: usize = 0;
    proof {
        assert(fields@.take(0) =~= Seq::<String>::empty());
        assert(strings_utf8(named@) =~= Seq::<Seq<u8>>::empty());
    }
    while i < fields.len()
        invariant
            0 <= i <= fields.len(),
            strings_utf8(named@) == trimmed_fields(fields@.take(i as int)),
        decreases fields.len() - i,
    {
        proof {
            assert(fields@.take(i + 1).drop_last() =~= fields@.take(i as int));
            assert(fields@.take(i + 1).last() == fields@[i as int]);
        }
        let ghost before = strings_utf8(named@);
        let field = trim_str(fields[i].as_str());
        if !field.is_empty() {
            named.push(field.to_owned());
            assert(strings_utf8(named@) =~= before.push(utf8(field@)));
        }
        i += 1;
    }
    proof {
        assert(fields@.take(i as int) =~= fields@);
    }
    sorted_unique(named)
}

/// The two kinds of entity that a whitelist can be given for.
#[derive(Clone, Copy, PartialEq, Eq, Debug)]
pub enum EntityKind {
    Node,
    Edge,
}

/// The kind that a name stands for: `node` and `edge` stand for the two
/// kinds, written exactly so, and no other name stands for any.
pub open spec fn named_kind(name: Seq<char>) -> Option<EntityKind> {
    if name == "node"@ {
        Some(EntityKind::Node)
    } else if name == "edge"@ {
        Some(EntityKind::Edge)
    } else {
        None
    }
}

/// The kind of entity that `name` stands for.
pub fn parse_entity_kind(name: &str) -> (kind: Option<EntityKind>)
    ensures
        kind == named_kind(name@),
{
    if str_eq(name, "node") {
        Some(EntityKind::Node)
    } else if str_eq(name, "edge") {
        Some(EntityKind::Edge)
    } else {
        None
    }
}

} // verus!
