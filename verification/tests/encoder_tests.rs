use hpack::encoder::Encoder;
use hpack::header::{EncodableHeader, Header};

#[test]
fn test_encode_10_with_5_prefix() {
    let encoder = Encoder::new();
    let encoded = encoder.encode_int(10, 5);
    assert_eq!(encoded.len(), 1);
    assert_eq!(encoded[0], 10);
}

#[test]
fn test_encode_1337_with_5_prefix() {
    let encoder = Encoder::new();
    let encoded = encoder.encode_int(1337, 5);
    assert_eq!(encoded.len(), 3);
    assert_eq!(encoded[0], 31);
    assert_eq!(encoded[1], 154);
    assert_eq!(encoded[2], 10);
}

#[test]
fn test_encode_42_with_8_prefix() {
    let encoder = Encoder::new();
    let encoded = encoder.encode_int(42, 8);
    assert_eq!(encoded.len(), 1);
    assert_eq!(encoded[0], 42);
}

#[test]
fn test_encode_indexed() {
    let mut encoder = Encoder::new();
    let headers = [Header {
        name: ":method".as_bytes().to_vec(),
        value: "GET".as_bytes().to_vec(),
    }];
    let encoded = encoder.encode(&headers);
    assert_eq!(encoded.len(), 1);
    assert_eq!(encoded[0], 130);
}

#[test]
fn test_encode_sensitive_literal_no_indexing() {
    let mut encoder = Encoder::new();
    let headers = [EncodableHeader {
        name: "foo".as_bytes().to_vec(),
        value: "bar".as_bytes().to_vec(),
        is_sensitive: true,
    }];
    let encoded = encoder.encode_headers(&headers);
    let expected = vec![0u8, 3, 102, 111, 111, 3, 98, 97, 114];

    assert_eq!(encoded, expected);
}

#[test]
fn test_encode_literal_indexing() {
    let mut encoder = Encoder::new();
    let path = "/sample/path";
    let headers = [Header {
        name: ":path".as_bytes().to_vec(),
        value: path.as_bytes().to_vec(),
    }];
    let encoded = encoder.encode(&headers);
    let mut expected: Vec<u8> = vec![68, path.len().try_into().unwrap()];
    expected.append(&mut path.as_bytes().to_vec());

    assert_eq!(encoded, expected);

    // adds to header table
    let idx = encoder
        .header_table
        .search_with_name_and_value(":path".as_bytes(), path.as_bytes());
    assert_eq!(idx.unwrap(), 62);
}

#[test]
fn test_encode_literal_no_indexing() {
    let mut encoder = Encoder::new();
    let path = "/sample/path";
    let headers = [EncodableHeader {
        name: ":path".as_bytes().to_vec(),
        value: path.as_bytes().to_vec(),
        is_sensitive: true,
    }];
    let encoded = encoder.encode_headers(&headers);
    let mut expected = vec![20, path.len().try_into().unwrap()];
    expected.append(&mut path.as_bytes().to_vec());

    assert_eq!(encoded, expected);

    // doesn't add to header table
    let idx = encoder
        .header_table
        .search_with_name_and_value(":path".as_bytes(), path.as_bytes());
    assert!(idx.is_none());
}
