use elo::codec::{
    decode_component, encode_component, escape_bytes, hex_to_nibble, nibble_to_hex,
    unescape_bytes,
};
use elo::keys::{
    edge_data_prefix, edge_from_prefix, edge_key, geo_index_key, geo_index_prefix, index_prefix,
    node_data_key, node_data_prefix, node_index_key, split_four, split_three, split_two,
};
use elo::text::{bytes_lt, sorted_unique, split_all, str_eq, str_lt};

#[test]
fn encoding_escapes_separator_percent_and_non_ascii() {
    assert_eq!(encode_component("plain-id_1:x"), "plain-id_1:x");
    assert_eq!(encode_component("a\x1fb"), "a%1Fb");
    assert_eq!(encode_component("100%"), "100%25");
    assert_eq!(encode_component("é"), "%C3%A9");
    assert_eq!(encode_component(""), "");
    assert_eq!(encode_component("\x7f"), "\x7f");
}

#[test]
fn decoding_accepts_both_cases_of_hex_digits() {
    assert_eq!(decode_component("%c3%a9").as_deref(), Some("é"));
    assert_eq!(decode_component("%C3%A9").as_deref(), Some("é"));
    assert_eq!(decode_component("a%1fb").as_deref(), Some("a\x1fb"));
}

#[test]
fn decoding_rejects_malformed_escapes() {
    assert_eq!(decode_component("%"), None);
    assert_eq!(decode_component("%4"), None);
    assert_eq!(decode_component("abc%4"), None);
    assert_eq!(decode_component("%zz"), None);
    assert_eq!(decode_component("%4g"), None);
    assert_eq!(decode_component("%41").as_deref(), Some("A"));
}

#[test]
fn decoding_rejects_bytes_that_are_not_utf8() {
    assert_eq!(decode_component("%FF"), None);
    assert_eq!(decode_component("%C3"), None);
    assert_eq!(unescape_bytes(b"%FF"), Some(vec![0xff]));
}

#[test]
fn round_trip_holds_for_every_single_byte() {
    for byte in 0..=255u8 {
        let encoded = escape_bytes(&[byte]);
        assert!(encoded.iter().all(|b| *b < 0x80 && *b != 0x1f));
        assert_eq!(unescape_bytes(&encoded), Some(vec![byte]));
    }
}

#[test]
fn round_trip_holds_for_mixed_text() {
    for text in ["", "a", "%%", "\x1f\x1f", "ünï©ødé \x1f 100% ✓", "user:1/2?x=y&z"] {
        let encoded = encode_component(text);
        assert!(encoded.is_ascii());
        assert!(!encoded.contains('\x1f'));
        assert_eq!(decode_component(&encoded).as_deref(), Some(text));
    }
}

#[test]
fn hex_digits() {
    assert_eq!(nibble_to_hex(0), '0');
    assert_eq!(nibble_to_hex(9), '9');
    assert_eq!(nibble_to_hex(10), 'A');
    assert_eq!(nibble_to_hex(15), 'F');
    assert_eq!(nibble_to_hex(16), '0');
    assert_eq!(hex_to_nibble(b'0'), Some(0));
    assert_eq!(hex_to_nibble(b'9'), Some(9));
    assert_eq!(hex_to_nibble(b'a'), Some(10));
    assert_eq!(hex_to_nibble(b'F'), Some(15));
    assert_eq!(hex_to_nibble(b'g'), None);
    assert_eq!(hex_to_nibble(b'/'), None);
}

#[test]
fn keys_follow_their_grammars() {
    assert_eq!(edge_key("a", "b"), "a\x1fb");
    assert_eq!(node_data_key("n%1", "k"), "n%251\x1fk");
    assert_eq!(node_index_key("type", "User", "u\x1f1"), "type\x1fUser\x1fu%1F1");
    assert_eq!(geo_index_key("geo_hash", "6gy", "n"), "geo_hash\x1f6gy\x1fn");
    assert_eq!(node_data_prefix("n"), "n\x1f");
    assert_eq!(edge_from_prefix("n"), "n\x1f");
    assert_eq!(edge_data_prefix("a", "b"), "a\x1fb\x1f");
    assert_eq!(index_prefix("status", "active"), "status\x1factive\x1f");
    assert_eq!(geo_index_prefix("geo_hash", "6g"), "geo_hash\x1f6g");
}

#[test]
fn splitting_cuts_at_the_first_separators_only() {
    assert_eq!(split_two("a\x1fb\x1fc"), Some(("a", "b\x1fc")));
    assert_eq!(split_two("abc"), None);
    assert_eq!(split_two("\x1f"), Some(("", "")));
    assert_eq!(split_three("a\x1fb\x1fc\x1fd"), Some(("a", "b", "c\x1fd")));
    assert_eq!(split_three("a\x1fb"), None);
    assert_eq!(split_four("a\x1fb\x1fc\x1fd\x1fe"), Some(("a", "b", "c", "d\x1fe")));
    assert_eq!(split_four("a\x1fb\x1fc"), None);
    assert_eq!(split_two("é\x1fü"), Some(("é", "ü")));
}

#[test]
fn text_helpers() {
    assert!(str_eq("abc", "abc"));
    assert!(!str_eq("abc", "abd"));
    assert!(str_lt("a", "b"));
    assert!(str_lt("a", "ab"));
    assert!(!str_lt("ab", "a"));
    assert!(!str_lt("a", "a"));
    assert!(bytes_lt(b"", b"a"));
    assert!(!bytes_lt(b"", b""));
    assert_eq!(split_all("a,b,,c", b','), vec!["a", "b", "", "c"]);
    assert_eq!(split_all("", b','), vec![""]);
    let sorted = sorted_unique(vec!["b".to_string(), "a".to_string(), "b".to_string(), "aa".to_string()]);
    assert_eq!(sorted, vec!["a".to_string(), "aa".to_string(), "b".to_string()]);
}
