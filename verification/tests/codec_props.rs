use hpack::decoder::Decoder;
use hpack::encoder::Encoder;
use hpack::error::DecodeError;
use hpack::header::{EncodableHeader, Header};

#[test]
fn test_int_round_trip_all_prefixes() {
    let encoder = Encoder::new();
    let decoder = Decoder::new();
    let values: [u64; 6] = [0, 1, 127, 300, 4611686018427387904, 9223372036854775807];
    for prefix in 1u32..=8 {
        for &v in values.iter() {
            let encoded = encoder.encode_int(v, prefix);
            let (decoded, consumed) = decoder.decode_int(&encoded, prefix).unwrap();
            assert_eq!(decoded, v);
            assert_eq!(consumed, encoded.len());
        }
    }
}

#[test]
fn test_int_round_trip_u64_max() {
    let encoder = Encoder::new();
    let decoder = Decoder::new();
    let encoded = encoder.encode_int(u64::MAX, 8);
    let (decoded, consumed) = decoder.decode_int(&encoded, 8).unwrap();
    assert_eq!(decoded, u64::MAX);
    assert_eq!(consumed, encoded.len());
}

#[test]
fn test_block_round_trip_mixed() {
    let mut encoder = Encoder::new();
    let mut decoder = Decoder::new();
    let headers = vec![
        EncodableHeader {
            name: ":method".as_bytes().to_vec(),
            value: "GET".as_bytes().to_vec(),
            is_sensitive: false,
        },
        EncodableHeader {
            name: ":path".as_bytes().to_vec(),
            value: "/x".as_bytes().to_vec(),
            is_sensitive: false,
        },
        EncodableHeader {
            name: "x-custom".as_bytes().to_vec(),
            value: "v".as_bytes().to_vec(),
            is_sensitive: false,
        },
        EncodableHeader {
            name: "authorization".as_bytes().to_vec(),
            value: "secret".as_bytes().to_vec(),
            is_sensitive: true,
        },
        EncodableHeader {
            name: ":path".as_bytes().to_vec(),
            value: "/x".as_bytes().to_vec(),
            is_sensitive: false,
        },
    ];
    let block = encoder.encode_headers(&headers);
    let decoded = decoder.decode(&block).unwrap();
    assert_eq!(decoded.len(), headers.len());
    for (i, h) in decoded.iter().enumerate() {
        assert_eq!(h.name, headers[i].name);
        assert_eq!(h.value, headers[i].value);
    }
    // the two dynamic tables moved in lockstep: one insertion each,
    // the ":path: /x" entry at combined index 62 on both sides
    assert_eq!(
        encoder
            .header_table
            .search_with_name_and_value(":path".as_bytes(), "/x".as_bytes()),
        Some(62)
    );
    assert_eq!(
        decoder
            .header_table
            .search_with_name_and_value(":path".as_bytes(), "/x".as_bytes()),
        Some(62)
    );
    assert_eq!(encoder.header_table.max_size, decoder.header_table.max_size);
    assert_eq!(encoder.header_table.size, decoder.header_table.size);
}

#[test]
fn test_multi_block_continuity() {
    // the three successive request blocks of the RFC 7541 worked example
    let mut first_bytes: Vec<u8> = vec![130, 134, 132, 1, 15];
    first_bytes.append(&mut "www.example.com".as_bytes().to_vec());
    let mut second_bytes: Vec<u8> = vec![130, 134, 132, 1, 15];
    second_bytes.append(&mut "www.example.com".as_bytes().to_vec());
    second_bytes.append(&mut vec![15, 9, 8]);
    second_bytes.append(&mut "no-cache".as_bytes().to_vec());
    let mut third_bytes: Vec<u8> = vec![130, 135, 133, 1, 15];
    third_bytes.append(&mut "www.example.com".as_bytes().to_vec());
    third_bytes.append(&mut vec![64, 10]);
    third_bytes.append(&mut "custom-key".as_bytes().to_vec());
    third_bytes.append(&mut vec![12]);
    third_bytes.append(&mut "custom-value".as_bytes().to_vec());

    let expect = |pairs: &[(&str, &str)]| -> Vec<Header> {
        pairs
            .iter()
            .map(|(n, v)| Header {
                name: n.as_bytes().to_vec(),
                value: v.as_bytes().to_vec(),
            })
            .collect()
    };
    let first_headers = expect(&[
        (":method", "GET"),
        (":scheme", "http"),
        (":path", "/"),
        (":authority", "www.example.com"),
    ]);
    let second_headers = expect(&[
        (":method", "GET"),
        (":scheme", "http"),
        (":path", "/"),
        (":authority", "www.example.com"),
        ("cache-control", "no-cache"),
    ]);
    let third_headers = expect(&[
        (":method", "GET"),
        (":scheme", "https"),
        (":path", "/index.html"),
        (":authority", "www.example.com"),
        ("custom-key", "custom-value"),
    ]);

    let mut decoder = Decoder::new();
    assert_eq!(decoder.decode(&first_bytes).unwrap(), first_headers);
    assert_eq!(decoder.decode(&second_bytes).unwrap(), second_headers);
    assert_eq!(decoder.decode(&third_bytes).unwrap(), third_headers);
    assert_eq!(
        decoder
            .header_table
            .search_with_name_and_value("custom-key".as_bytes(), "custom-value".as_bytes()),
        Some(62)
    );
}

#[test]
fn test_table_total_stays_within_budget() {
    let mut encoder = Encoder::new();
    encoder.set_header_table_size(80);
    for value in ["/first/sample", "/second/sample", "/third/sample"] {
        let headers = [Header {
            name: ":path".as_bytes().to_vec(),
            value: value.as_bytes().to_vec(),
        }];
        encoder.encode(&headers);
        assert!(encoder.header_table.size <= encoder.header_table.max_size);
    }
}

#[test]
fn test_eviction_keeps_newest() {
    // each entry accounts for 5 + 7 + 32 = 44 octets; only one fits in 76
    let mut encoder = Encoder::new();
    encoder.set_header_table_size(76);
    let first = [Header {
        name: ":path".as_bytes().to_vec(),
        value: "/aaaaaa".as_bytes().to_vec(),
    }];
    let second = [Header {
        name: ":path".as_bytes().to_vec(),
        value: "/bbbbbb".as_bytes().to_vec(),
    }];
    encoder.encode(&first);
    encoder.encode(&second);
    assert_eq!(
        encoder
            .header_table
            .search_with_name_and_value(":path".as_bytes(), "/bbbbbb".as_bytes()),
        Some(62)
    );
    assert_eq!(
        encoder
            .header_table
            .search_with_name_and_value(":path".as_bytes(), "/aaaaaa".as_bytes()),
        None
    );
}

#[test]
fn test_index_stability_within_block() {
    // an entry inserted mid-block is addressable at combined index 62
    // by a later representation of the same block
    let mut block: Vec<u8> = vec![64, 3];
    block.append(&mut "abc".as_bytes().to_vec());
    block.push(3);
    block.append(&mut "xyz".as_bytes().to_vec());
    block.push(0xBE); // indexed, 0x80 | 62
    let mut decoder = Decoder::new();
    let headers = decoder.decode(&block).unwrap();
    assert_eq!(headers.len(), 2);
    assert_eq!(headers[0], headers[1]);
    assert_eq!(headers[0].name, "abc".as_bytes().to_vec());
    assert_eq!(headers[0].value, "xyz".as_bytes().to_vec());
}

#[test]
fn test_sensitive_header_never_indexed_form() {
    let mut encoder = Encoder::new();
    let headers = [EncodableHeader {
        name: ":path".as_bytes().to_vec(),
        value: "/secret".as_bytes().to_vec(),
        is_sensitive: true,
    }];
    let block = encoder.encode_headers(&headers);
    assert_eq!(block[0] & 0xF0, 0x10);
    assert_eq!(encoder.header_table.size, 0);
    assert!(encoder
        .header_table
        .search_with_name_and_value(":path".as_bytes(), "/secret".as_bytes())
        .is_none());
}

#[test]
fn test_pending_size_updates_drained() {
    let mut encoder = Encoder::new();
    encoder.set_header_table_size(100);
    // 100 under a 5-bit prefix: 31 then 69; the first octet carries 0x20
    let block = encoder.encode_headers(&[]);
    assert_eq!(block, vec![63, 69]);
    let next = encoder.encode_headers(&[]);
    assert_eq!(next, Vec::<u8>::new());
}

#[test]
fn test_set_same_size_is_noop() {
    let mut encoder = Encoder::new();
    encoder.set_header_table_size(4096);
    let block = encoder.encode_headers(&[]);
    assert_eq!(block, Vec::<u8>::new());
    assert_eq!(encoder.header_table_size(), 4096);
}

#[test]
fn test_decode_size_update_to_zero_empties_table() {
    let mut decoder = Decoder::new();
    let mut block: Vec<u8> = vec![64, 3];
    block.append(&mut "abc".as_bytes().to_vec());
    block.push(3);
    block.append(&mut "xyz".as_bytes().to_vec());
    decoder.decode(&block).unwrap();
    assert_eq!(decoder.header_table.search_with_name("abc".as_bytes()), Some(62));
    let headers = decoder.decode(&[32]).unwrap();
    assert_eq!(headers.len(), 0);
    assert_eq!(decoder.header_table.max_size, 0);
    assert_eq!(decoder.header_table.size, 0);
    assert_eq!(decoder.header_table.search_with_name("abc".as_bytes()), None);
}

#[test]
fn test_decoder_set_max_table_size() {
    let mut decoder = Decoder::new();
    assert_eq!(decoder.max_table_size(), 4096);
    let mut block: Vec<u8> = vec![64, 3];
    block.append(&mut "abc".as_bytes().to_vec());
    block.push(3);
    block.append(&mut "xyz".as_bytes().to_vec());
    decoder.decode(&block).unwrap();
    decoder.set_max_table_size(10);
    assert_eq!(decoder.max_table_size(), 10);
    assert_eq!(decoder.header_table.search_with_name("abc".as_bytes()), None);
}

#[test]
fn test_decode_empty_block() {
    let mut decoder = Decoder::new();
    let headers = decoder.decode(&[]).unwrap();
    assert_eq!(headers.len(), 0);
}

#[test]
fn test_decode_error_empty_input() {
    let decoder = Decoder::new();
    assert_eq!(decoder.decode_int(&[], 5), Err(DecodeError::EmptyInput));
}

#[test]
fn test_decode_error_invalid_index_zero() {
    let mut decoder = Decoder::new();
    assert_eq!(decoder.decode(&[0x80]), Err(DecodeError::InvalidIndex));
}

#[test]
fn test_decode_error_index_past_table() {
    let mut decoder = Decoder::new();
    // combined index 62 with an empty dynamic table
    assert_eq!(decoder.decode(&[0xBE]), Err(DecodeError::InvalidIndex));
}

#[test]
fn test_decode_error_truncated_string() {
    let mut decoder = Decoder::new();
    // new-name literal declaring a 3-octet name with 1 octet left
    assert_eq!(decoder.decode(&[0, 3, 102]), Err(DecodeError::Truncated));
}

#[test]
fn test_decode_error_truncated_continuation() {
    let decoder = Decoder::new();
    assert_eq!(decoder.decode_int(&[31, 154], 5), Err(DecodeError::Truncated));
}

#[test]
fn test_decode_error_integer_overflow() {
    let decoder = Decoder::new();
    let bytes = [255u8, 128, 128, 128, 128, 128, 128, 128, 128, 128, 127];
    assert_eq!(decoder.decode_int(&bytes, 8), Err(DecodeError::IntegerOverflow));
}

#[test]
fn test_decode_error_huffman_flag() {
    let mut decoder = Decoder::new();
    // never-indexed literal whose name string carries the H flag
    assert_eq!(
        decoder.decode(&[16, 131, 1, 2, 3]),
        Err(DecodeError::HuffmanUnsupported)
    );
}

#[test]
fn test_describe_is_never_empty() {
    let errors = [
        DecodeError::EmptyInput,
        DecodeError::Truncated,
        DecodeError::InvalidIndex,
        DecodeError::HuffmanUnsupported,
        DecodeError::IntegerOverflow,
    ];
    for e in errors.iter() {
        assert!(!e.describe().is_empty());
    }
}
