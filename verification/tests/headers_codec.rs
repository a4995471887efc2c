use iggy_engine::error::IggyError;
use iggy_engine::headers::{decode_headers, encode_headers, headers_size, Header, HeaderKind};

fn header(name: &str, kind: HeaderKind, value: &[u8]) -> Header {
    Header::new(name.as_bytes().to_vec(), kind, value.to_vec()).unwrap()
}

#[test]
fn header_entry_layout() {
    let bytes = encode_headers(&vec![header("k", HeaderKind::Uint32, &[7, 0, 0, 0])]);
    assert_eq!(bytes, vec![1, b'k', 10, 4, 0, 0, 0, 7, 0, 0, 0]);
}

#[test]
fn headers_round_trip() {
    let headers = vec![
        header("content-type", HeaderKind::String, b"json"),
        header("retries", HeaderKind::Uint8, &[3]),
        header("empty", HeaderKind::Raw, b""),
    ];
    let bytes = encode_headers(&headers);
    assert_eq!(headers_size(&headers), bytes.len() as u128);
    let decoded = decode_headers(&bytes).unwrap();
    assert_eq!(decoded.len(), 3);
    assert_eq!(decoded[0].name().as_slice(), b"content-type");
    assert_eq!(decoded[0].kind(), HeaderKind::String);
    assert_eq!(decoded[0].value().as_slice(), b"json");
    assert_eq!(decoded[1].name().as_slice(), b"retries");
    assert_eq!(decoded[1].kind(), HeaderKind::Uint8);
    assert_eq!(decoded[1].value().as_slice(), &[3]);
    assert_eq!(decoded[2].value().len(), 0);
    assert_eq!(encode_headers(&decoded), bytes);
}

#[test]
fn no_headers_encode_to_nothing() {
    assert_eq!(encode_headers(&Vec::new()), Vec::<u8>::new());
    assert_eq!(decode_headers(&[]).unwrap().len(), 0);
}

#[test]
fn header_name_must_have_1_to_255_bytes() {
    assert_eq!(
        Header::new(Vec::new(), HeaderKind::Raw, vec![1]).unwrap_err(),
        IggyError::InvalidHeaderKey
    );
    assert_eq!(
        Header::new(vec![b'a'; 256], HeaderKind::Raw, vec![1]).unwrap_err(),
        IggyError::InvalidHeaderKey
    );
    assert!(Header::new(vec![b'a'; 255], HeaderKind::Raw, vec![1]).is_ok());
}

#[test]
fn malformed_headers_are_rejected() {
    // empty name
    assert_eq!(decode_headers(&[0, 1, 0, 0, 0, 0]).unwrap_err(), IggyError::InvalidNumberEncoding);
    // unknown kind
    assert_eq!(
        decode_headers(&[1, b'k', 14, 0, 0, 0, 0]).unwrap_err(),
        IggyError::InvalidNumberEncoding
    );
    assert_eq!(
        decode_headers(&[1, b'k', 0, 0, 0, 0, 0]).unwrap_err(),
        IggyError::InvalidNumberEncoding
    );
    // value longer than the input
    assert_eq!(
        decode_headers(&[1, b'k', 1, 2, 0, 0, 0, 9]).unwrap_err(),
        IggyError::InvalidNumberEncoding
    );
    // truncated entry
    assert_eq!(decode_headers(&[1, b'k', 1]).unwrap_err(), IggyError::InvalidNumberEncoding);
    // trailing garbage behind a good entry
    assert_eq!(
        decode_headers(&[1, b'k', 1, 0, 0, 0, 0, 5]).unwrap_err(),
        IggyError::InvalidNumberEncoding
    );
}

#[test]
fn kind_codes() {
    let kinds = [
        HeaderKind::Raw,
        HeaderKind::String,
        HeaderKind::Bool,
        HeaderKind::Int8,
        HeaderKind::Int16,
        HeaderKind::Int32,
        HeaderKind::Int64,
        HeaderKind::Uint8,
        HeaderKind::Uint16,
        HeaderKind::Uint32,
        HeaderKind::Uint64,
        HeaderKind::Float32,
        HeaderKind::Float64,
    ];
    for (index, kind) in kinds.iter().enumerate() {
        assert_eq!(kind.as_code(), index as u8 + 1);
        assert_eq!(HeaderKind::from_code(index as u8 + 1).unwrap(), *kind);
    }
    assert_eq!(HeaderKind::from_code(0).unwrap_err(), IggyError::InvalidNumberEncoding);
    assert_eq!(HeaderKind::from_code(14).unwrap_err(), IggyError::InvalidNumberEncoding);
}

#[test]
fn the_last_header_of_a_name_counts() {
    let headers = vec![
        header("a", HeaderKind::Uint8, &[1]),
        header("b", HeaderKind::Uint8, &[2]),
        header("a", HeaderKind::Uint8, &[3]),
    ];
    assert_eq!(iggy_engine::headers::find_header(&headers, b"a").unwrap().value().as_slice(), &[3]);
    assert_eq!(iggy_engine::headers::find_header(&headers, b"b").unwrap().value().as_slice(), &[2]);
    assert!(iggy_engine::headers::find_header(&headers, b"c").is_none());
    assert!(iggy_engine::headers::find_header(&headers, b"").is_none());
    assert!(iggy_engine::headers::find_header(&Vec::new(), b"a").is_none());
}
