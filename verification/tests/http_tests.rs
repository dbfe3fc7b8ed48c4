use audioserve::http::{
    compressed_body, crc_footer, ChunkLimit, create_output_buffer, gzip_header, is_cors_matching_origin, is_https,
    make_sense_to_compress, request_path, strip_path_prefix, AcceptEncoding, PathError,
    QueryParams,
};

#[test]
fn test_accept_encoding() {
    let header = AcceptEncoding { value: b"gzip, deflate, br".to_vec() };
    assert!(header.accepts("br"));
    let header = AcceptEncoding { value: b"gzip, deflate".to_vec() };
    assert!(!header.accepts("br"));
}

#[test]
fn accept_encoding_case_and_invalid() {
    let header = AcceptEncoding { value: b" GZIP ,x".to_vec() };
    assert!(header.accepts("gzip"));
    let header = AcceptEncoding { value: vec![b'g', b'z', b'i', b'p', 0x80] };
    assert!(!header.accepts("gzip"));
}

#[test]
fn returns_true_when_origin_matches_regex() {
    assert!(is_cors_matching_origin(
        Some(b"https://example.com".as_slice()),
        r"https://example\.\w{2,5}"
    ));
    assert!(!is_cors_matching_origin(Some(b"NULL".as_slice()), ".*"));
    assert!(!is_cors_matching_origin(None, ".*"));
}

#[test]
fn test_request_wrapper() {
    let params = QueryParams::from_query(Some("a=1&b=2"));
    assert_eq!(params.get("a"), Some(&"1".to_string()));
    assert_eq!(params.get("b"), Some(&"2".to_string()));
    assert!(is_https(true, false, None, None));
}

#[test]
fn query_params_last_wins() {
    let params = QueryParams::from_query(Some("a=1&a=2&c=x+y"));
    assert_eq!(params.get_string("a"), Some("2".to_string()));
    assert_eq!(params.get_string("c"), Some("x y".to_string()));
    assert!(params.has_param("c"));
    assert!(!params.has_param("d"));
    let none = QueryParams::from_query(None);
    assert!(none.get("a").is_none());
}

#[test]
fn compression_helpers() {
    assert!(!make_sense_to_compress(511));
    assert!(make_sense_to_compress(512));
    assert_eq!(create_output_buffer(3), vec![0u8, 0, 0]);
    assert_eq!(
        gzip_header(0x01020304, 6),
        vec![0x1f, 0x8b, 8, 0, 4, 3, 2, 1, 0, 255]
    );
    assert_eq!(gzip_header(0, 9)[8], 2);
    assert_eq!(gzip_header(0, 1)[8], 4);
    assert_eq!(crc_footer(0xaabbccdd, 5), vec![0xdd, 0xcc, 0xbb, 0xaa, 5, 0, 0, 0]);
}

#[test]
fn request_paths() {
    assert_eq!(request_path("/a%20b/c"), Ok("/a b/c".to_string()));
    assert_eq!(request_path("/a/.hidden"), Err(PathError::IllegalPath));
    assert_eq!(request_path("/a/%2e%2e/b"), Err(PathError::IllegalPath));
    assert_eq!(request_path("/%ff"), Err(PathError::InvalidEncoding));
    assert_eq!(request_path("/100%"), Ok("/100%".to_string()));
    assert_eq!(strip_path_prefix("/api/x", Some("/api")), Ok("/x".to_string()));
    assert_eq!(strip_path_prefix("/x", Some("/api")), Err(PathError::MissingPrefix));
    assert_eq!(strip_path_prefix("/x", None), Ok("/x".to_string()));
    assert!(is_https(false, true, Some("https"), None));
    assert!(is_https(false, true, None, Some(b"https".as_slice())));
    assert!(!is_https(false, false, Some("https"), None));
}

#[test]
fn compressed_body_is_gzip_of_data() {
    let data: Vec<u8> = (0..2000u32).map(|i| (i % 7) as u8).collect();
    let (out, size) = compressed_body(&data);
    assert_eq!(size, out.len() as u64);
    assert_eq!(&out[0..2], &[0x1f, 0x8b]);
    assert!(out.len() < data.len());
    let mut dec = flate2::read::GzDecoder::new(&out[..]);
    let mut back = Vec::new();
    std::io::Read::read_to_end(&mut dec, &mut back).unwrap();
    assert_eq!(back, data);
}

#[test]
fn limited_body_chunks() {
    let mut l = ChunkLimit::new_with_limit(5);
    assert!(!l.is_done());
    assert_eq!(l.next_chunk(b"abc"), Some(b"abc".to_vec()));
    assert_eq!(l.next_chunk(b"defg"), Some(b"de".to_vec()));
    assert!(l.is_done());
    assert_eq!(l.next_chunk(b""), None);
    let mut z = ChunkLimit::new_with_limit(0);
    assert!(z.is_done());
    assert_eq!(z.next_chunk(b"x"), Some(vec![]));
}
