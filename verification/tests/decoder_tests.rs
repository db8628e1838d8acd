use hpack::decoder::Decoder;
use hpack::header::Header;

#[test]
fn test_decode_10_with_5_prefix() {
    let decoder = Decoder::new();
    let (decoded, consumed) = decoder.decode_int(&[10], 5).unwrap();
    assert_eq!(decoded, 10);
    assert_eq!(consumed, 1);
}

#[test]
fn test_decode_1337_with_5_prefix() {
    let decoder = Decoder::new();
    let (decoded, consumed) = decoder.decode_int(&[31, 154, 10], 5).unwrap();
    assert_eq!(decoded, 1337);
    assert_eq!(consumed, 3);
}

#[test]
fn test_decode_42_with_8_prefix() {
    let decoder = Decoder::new();
    let (decoded, consumed) = decoder.decode_int(&[42], 8).unwrap();
    assert_eq!(decoded, 42);
    assert_eq!(consumed, 1);
}

#[test]
fn test_decode_empty() {
    let decoder = Decoder::new();
    let result = decoder.decode_int(&[], 8);
    assert!(result.is_err());
}

#[test]
fn test_default_header_table_size() {
    let decoder = Decoder::new();
    assert_eq!(decoder.header_table.max_size, 4096);
}

#[test]
fn test_decode_indexed() {
    let mut decoder = Decoder::new();
    let encoded = vec![130];

    let headers = decoder.decode(&encoded).unwrap();
    assert_eq!(headers.len(), 1);
    assert_eq!(headers[0].name, ":method".as_bytes().to_vec());
    assert_eq!(headers[0].value, "GET".as_bytes().to_vec());
}

#[test]
fn test_decode_literal_without_indexing() {
    let mut decoder = Decoder::new();
    let path = "/sample/path";
    let mut encoded: Vec<u8> = vec![4, path.len().try_into().unwrap()];
    encoded.append(&mut path.as_bytes().to_vec());

    let headers = decoder.decode(&encoded).unwrap();
    assert_eq!(headers.len(), 1);
    assert_eq!(headers[0].name, ":path".as_bytes().to_vec());
    assert_eq!(headers[0].value, path.as_bytes().to_vec());
}

#[test]
fn test_decode_unindexed_literal_without_indexing() {
    let mut decoder = Decoder::new();
    let encoded: Vec<u8> = vec![
        16, 8, // length of key
        112, 97, 115, 115, 119, 111, 114, 100, // key: password
        6, // length of value
        115, 101, 99, 114, 101, 116, // value: secret
    ];

    let headers = decoder.decode(&encoded).unwrap();
    assert_eq!(headers.len(), 1);
    assert_eq!(headers[0].name, "password".as_bytes().to_vec());
    assert_eq!(headers[0].value, "secret".as_bytes().to_vec());
}

#[test]
fn test_decode_literal_with_indexing() {
    let mut decoder = Decoder::new();
    let path = "/sample/path";
    let mut encoded: Vec<u8> = vec![68, path.len().try_into().unwrap()];
    encoded.append(&mut path.as_bytes().to_vec());

    let headers = decoder.decode(&encoded).unwrap();
    assert_eq!(headers.len(), 1);
    assert_eq!(headers[0].name, ":path".as_bytes().to_vec());
    assert_eq!(headers[0].value, path.as_bytes().to_vec());
    assert_eq!(
        decoder
            .header_table
            .search_with_name_and_value(":path".as_bytes(), path.as_bytes())
            .unwrap(),
        62
    );
}

#[test]
fn test_decode_headers() {
    let mut first_bytes: Vec<u8> = vec![130, 134, 132, 1, 15];
    first_bytes.append(&mut "www.example.com".as_bytes().to_vec());
    let first_headers: Vec<Header> = vec![
        Header {
            name: ":method".as_bytes().to_vec(),
            value: "GET".as_bytes().to_vec(),
        },
        Header {
            name: ":scheme".as_bytes().to_vec(),
            value: "http".as_bytes().to_vec(),
        },
        Header {
            name: ":path".as_bytes().to_vec(),
            value: "/".as_bytes().to_vec(),
        },
        Header {
            name: ":authority".as_bytes().to_vec(),
            value: "www.example.com".as_bytes().to_vec(),
        },
    ];

    let mut second_bytes: Vec<u8> = vec![130, 134, 132, 1, 15];
    second_bytes.append(&mut "www.example.com".as_bytes().to_vec());
    second_bytes.append(&mut vec![15, 9, 8]);
    second_bytes.append(&mut "no-cache".as_bytes().to_vec());

    let mut third_bytes: Vec<u8> = vec![130, 135, 133, 1, 15];
    third_bytes.append(&mut "www.example.com".as_bytes().to_vec());
    third_bytes.append(&mut vec![64, 10]);
    third_bytes.append(&mut "custom-key".as_bytes().to_vec());
    third_bytes.append(&mut vec![12]);
    third_bytes.append(&mut "custom-value".as_bytes().to_vec());

    let mut decoder = Decoder::new();
    let first_decoded = decoder.decode(&first_bytes).unwrap();
    let _second_decoded = decoder.decode(&second_bytes).unwrap();
    let _third_decoded = decoder.decode(&third_bytes).unwrap();

    assert_eq!(first_headers.len(), first_decoded.len());
    for (i, header) in first_decoded.iter().enumerate() {
        assert_eq!(header.name, first_headers[i].name);
        assert_eq!(header.value, first_headers[i].value);
    }

    assert_eq!(
        decoder
            .header_table
            .search_with_name_and_value("custom-key".as_bytes(), "custom-value".as_bytes())
            .unwrap(),
        62
    );
}

#[test]
fn test_decode_updates_max_header_size() {
    let mut decoder = Decoder::new();
    let encoded: Vec<u8> = vec![62];

    let headers = decoder.decode(&encoded).unwrap();
    assert_eq!(headers.len(), 0);
    assert_eq!(decoder.header_table.max_size, 30);
}

#[test]
fn test_decode_no_huffman_support() {
    let mut decoder = Decoder::new();
    let encoded: Vec<u8> = vec![
        130, 134, 132, 1, 140, 241, 227, 194, 229, 242, 58, 107, 160, 171, 144, 244, 255,
    ];

    let headers = decoder.decode(&encoded);
    assert!(headers.is_err());
}
