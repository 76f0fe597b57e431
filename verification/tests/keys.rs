use elo::codec::{decode_component, encode_component};
use elo::keys::{
    edge_data_key, edge_index_key, edge_key, split_four_decoded, split_three_decoded,
    split_two_decoded,
};

#[test]
fn encode_decode_roundtrip_with_separators() {
    let original = "user\x1ftype%admin";
    let encoded = encode_component(original);
    let decoded = decode_component(&encoded).expect("decode failed");
    assert_eq!(decoded, original);
}

#[test]
fn split_two_decoded_restores_components() {
    let from = "user\x1ftype\x1fadmin";
    let to = "team%42";
    let key = edge_key(from, to);
    let (decoded_from, decoded_to) = split_two_decoded(&key).expect("split_two_decoded failed");
    assert_eq!(decoded_from, from);
    assert_eq!(decoded_to, to);
}

#[test]
fn split_three_decoded_restores_components() {
    let from = "user\x1ftype\x1fadmin";
    let to = "team%42";
    let data_key = "owner\x1ftype%";
    let key = edge_data_key(from, to, data_key);
    let (decoded_from, decoded_to, decoded_key) =
        split_three_decoded(&key).expect("split_three_decoded failed");
    assert_eq!(decoded_from, from);
    assert_eq!(decoded_to, to);
    assert_eq!(decoded_key, data_key);
}

#[test]
fn split_four_decoded_restores_components() {
    let key = "type\x1fadmin";
    let value = "yes%true";
    let from = "user\x1ftype\x1fadmin";
    let to = "team%42";
    let index_key = edge_index_key(key, value, from, to);
    let (decoded_key, decoded_value, decoded_from, decoded_to) =
        split_four_decoded(&index_key).expect("split_four_decoded failed");
    assert_eq!(decoded_key, key);
    assert_eq!(decoded_value, value);
    assert_eq!(decoded_from, from);
    assert_eq!(decoded_to, to);
}
