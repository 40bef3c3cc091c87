//! Property bags and the byte-level codecs under them.

use lakecat::codec::{
    dec_of_u64, escape_vec, join_vec, parse_dec_u64, split_vec, str_eq, unescape_vec,
};
use lakecat::props::{PropMap, PropValue};

#[test]
fn test_prop_map_insert_get_remove() {
    let mut m = PropMap::new();
    assert_eq!(m.len(), 0);
    m.insert("owner".to_string(), PropValue::Str("x".to_string()));
    m.insert("count".to_string(), PropValue::Int(7));
    m.insert("active".to_string(), PropValue::Bool(true));
    m.insert("note".to_string(), PropValue::Null);
    assert_eq!(m.len(), 4);

    assert_eq!(m.get("owner"), Some(&PropValue::Str("x".to_string())));
    assert_eq!(m.get("count"), Some(&PropValue::Int(7)));
    assert_eq!(m.get("active"), Some(&PropValue::Bool(true)));
    assert_eq!(m.get("note"), Some(&PropValue::Null));
    assert_eq!(m.get("missing"), None);

    m.insert("owner".to_string(), PropValue::Str("y".to_string()));
    assert_eq!(m.len(), 4);
    assert_eq!(m.get("owner"), Some(&PropValue::Str("y".to_string())));

    m.remove("count");
    assert_eq!(m.len(), 3);
    assert_eq!(m.get("count"), None);
    m.remove("count");
    assert_eq!(m.len(), 3);
}

#[test]
fn test_prop_map_codec_round_trip() {
    let mut m = PropMap::new();
    m.insert("owner".to_string(), PropValue::Str("x".to_string()));
    m.insert("weird\u{1F}key".to_string(), PropValue::Str("va\u{1E}lue".to_string()));
    m.insert("count".to_string(), PropValue::Int(18446744073709551615));
    m.insert("flag".to_string(), PropValue::Bool(false));
    m.insert("nothing".to_string(), PropValue::Null);

    let bytes = m.encode();
    let back = PropMap::decode(&bytes).unwrap();
    assert_eq!(back.len(), 5);
    assert_eq!(back.get("owner"), Some(&PropValue::Str("x".to_string())));
    assert_eq!(
        back.get("weird\u{1F}key"),
        Some(&PropValue::Str("va\u{1E}lue".to_string()))
    );
    assert_eq!(back.get("count"), Some(&PropValue::Int(18446744073709551615)));
    assert_eq!(back.get("flag"), Some(&PropValue::Bool(false)));
    assert_eq!(back.get("nothing"), Some(&PropValue::Null));
}

#[test]
fn test_empty_prop_map_codec() {
    let m = PropMap::new();
    let bytes = m.encode();
    assert_eq!(bytes, Vec::<u8>::new());
    let back = PropMap::decode(&bytes).unwrap();
    assert_eq!(back.len(), 0);
}

#[test]
fn test_prop_map_decode_rejects_garbage() {
    assert!(PropMap::decode(&b"no separators here".to_vec()).is_none());
    assert!(PropMap::decode(&b"key\x1fzbadtag".to_vec()).is_none());
}

#[test]
fn test_decimal_codec() {
    assert_eq!(dec_of_u64(0), b"0".to_vec());
    assert_eq!(dec_of_u64(1234), b"1234".to_vec());
    assert_eq!(
        dec_of_u64(18446744073709551615),
        b"18446744073709551615".to_vec()
    );

    assert_eq!(parse_dec_u64(&b"1234".to_vec()), Some(1234));
    assert_eq!(parse_dec_u64(&b"0".to_vec()), Some(0));
    assert_eq!(parse_dec_u64(&b"18446744073709551615".to_vec()), Some(18446744073709551615));
    assert_eq!(parse_dec_u64(&b"18446744073709551616".to_vec()), None);
    assert_eq!(parse_dec_u64(&b"12a4".to_vec()), None);
    assert_eq!(parse_dec_u64(&b"".to_vec()), None);
}

#[test]
fn test_escape_codec() {
    let raw = b"a\x1bb\x1ec\x1fd".to_vec();
    let escaped = escape_vec(&raw);
    assert_eq!(escaped, b"a\x1b\x5bb\x1b\x5ec\x1b\x5fd".to_vec());
    assert!(!escaped.contains(&0x1f));
    assert!(!escaped.contains(&0x1e));
    assert_eq!(unescape_vec(&escaped), Some(raw));

    assert_eq!(unescape_vec(&b"dangling\x1b".to_vec()), None);
    assert_eq!(unescape_vec(&b"bad\x1bZcode".to_vec()), None);
}

#[test]
fn test_split_join() {
    let joined = join_vec(
        &vec![b"a".to_vec(), b"".to_vec(), b"bc".to_vec()],
        0x1f,
    );
    assert_eq!(joined, b"a\x1f\x1fbc".to_vec());
    let parts = split_vec(&joined, 0x1f);
    assert_eq!(parts, vec![b"a".to_vec(), b"".to_vec(), b"bc".to_vec()]);

    let empty = split_vec(&Vec::new(), 0x1f);
    assert_eq!(empty, vec![Vec::<u8>::new()]);
}

#[test]
fn test_str_eq() {
    assert!(str_eq("same", "same"));
    assert!(!str_eq("same", "other"));
    assert!(!str_eq("same", "sama"));
    assert!(str_eq("", ""));
}
