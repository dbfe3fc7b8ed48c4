use audioserve::forwarded::{
    classify_address, AddressForm, Forwarded, NodeIdentifier, NodeName, Obfuscated, Port,
    XForwardedFor,
};
use audioserve::header_parser::{
    element, elements, is_escapable, is_quoted_text, quoted_string, token, unescape, value,
    values_list, ParseError,
};

#[test]
fn test_quoted_chars() {
    assert!(is_quoted_text(b'a'));
    assert!(!is_quoted_text(b'\\'));
    assert!(!is_quoted_text(b'"'));
}

#[test]
fn test_multiple_elements() {
    let m = "a=b,c=d,  e=f;g=h";
    let (left, es) = elements(m.as_bytes()).unwrap();
    assert!(left.is_empty());
    assert_eq!(es.len(), 3);
    assert_eq!(es[2].len(), 2);
}

#[test]
fn basic_test_element() {
    let elem = b"hey=how;lets=\"[go](home)\"";
    let (left, e) = element(elem).unwrap();
    assert!(left.is_empty());
    assert_eq!(e.len(), 2);
    assert_eq!(
        e,
        vec![
            (b"hey".to_vec(), b"how".to_vec()),
            (b"lets".to_vec(), b"[go](home)".to_vec())
        ]
    );
}

#[test]
fn basic_quoted_string() {
    let corr = br#""usak kulisak""#;
    let (left, res) = quoted_string(corr).unwrap();
    assert!(left.is_empty());
    assert_eq!(res, b"usak kulisak");

    let incorr = br#""usak kulisak"#;
    let e = quoted_string(incorr);
    assert!(e.is_err());
}

#[test]
fn escaped_quoted_string() {
    let s: &[u8] = br#""this is \"escaped\" and \\""#;
    let (left, res) = quoted_string(s).unwrap();
    assert!(left.is_empty());
    assert_eq!(res, br#"this is "escaped" and \"#);
}

#[test]
fn basic_token_test() {
    let ok = b"127.0.0.1";
    let (left, t) = token(ok).unwrap();
    assert_eq!(t, ok);
    assert!(left.is_empty());

    let quoted = br#""usak kulisak""#;
    let r = token(quoted);
    assert!(r.is_err());

    let spaced = b"aaa bbb";
    let (left, t) = token(spaced).unwrap();
    assert_eq!(left, b" bbb");
    assert_eq!(t, b"aaa");
}

#[test]
fn quoted_string_errors_are_cuts() {
    // no opening quote: another alternative may be tried
    assert_eq!(quoted_string(b"abc"), Err(ParseError::Backtrack));
    // an empty quoted string and a broken escape are final
    assert_eq!(quoted_string(b"\"\""), Err(ParseError::Cut));
    assert_eq!(quoted_string(b"\"ab\\\x01\""), Err(ParseError::Cut));
    assert!(!is_escapable(0x01));
    assert!(is_escapable(b'"'));
}

#[test]
fn value_and_list() {
    let (rest, v) = value(b"abc;x").unwrap();
    assert_eq!(v, b"abc");
    assert_eq!(rest, b";x");
    let (rest, vs) = values_list(b"1.2.3.4,  \"[::1]\" , x").unwrap();
    assert_eq!(vs, vec![b"1.2.3.4".to_vec(), b"[::1]".to_vec()]);
    // a separator that is not followed by a value stays unparsed
    assert_eq!(rest, b", x");
}

fn decode_fwd(h: &str) -> Forwarded {
    Forwarded::decode(&vec![h.as_bytes().to_vec()]).unwrap_or_else(|_| panic!("decode {}", h))
}

#[test]
fn test_decode_forwarded() {
    let f = decode_fwd("for=123.34.167.89");
    assert_eq!(f.nodes().len(), 1);
    assert_eq!(f.client().unwrap(), "123.34.167.89");

    let f = decode_fwd(r#"for=192.0.2.43, for="[2001:db8:cafe::17]""#);
    assert_eq!(f.nodes().len(), 2);
    assert_eq!(f.client().unwrap(), "192.0.2.43");
    assert_eq!(
        f.nodes()[1].fwd_for,
        Some(NodeIdentifier {
            name: NodeName::Addr("[2001:db8:cafe::17]".into()),
            port: None
        })
    );

    let f = decode_fwd(
        r#"for=192.0.2.43,for=198.51.100.17;by=203.0.113.60;proto=http;host=example.com"#,
    );
    assert_eq!(f.nodes().len(), 2);
    let n = &f.nodes()[1];
    assert_eq!(n.fwd_protocol.as_ref().unwrap().as_str(), "http");
    assert_eq!(n.fwd_host.as_ref().unwrap().as_str(), "example.com");

    let f = decode_fwd(r#"for=192.0.2.43, for="[2001:db8:cafe::17]", for=unknown"#);
    assert_eq!(f.nodes().len(), 3);
    assert!(matches!(
        f.nodes()[2].fwd_for,
        Some(NodeIdentifier {
            name: NodeName::Unknown,
            port: None
        })
    ));

    let f = decode_fwd(r#"for=_hidden, for=_SEVKISEK"#);
    assert_eq!(f.nodes().len(), 2);
    assert_eq!(
        f.nodes()[1].fwd_for.as_ref().unwrap().name,
        NodeName::Obfuscated(Obfuscated("_SEVKISEK".into()))
    );

    let f = decode_fwd(r#"For="[2001:db8:cafe::17]:4711", For=192.0.2.43:47011"#);
    assert_eq!(f.nodes().len(), 2);
    assert_eq!(f.client().unwrap(), "[2001:db8:cafe::17]:4711");
    assert_eq!(
        classify_address(f.client().unwrap()),
        AddressForm::SocketV6("[2001:db8:cafe::17]:4711".into())
    );
    assert_eq!(f.client_port(), None);
    let _ = Port::Real(4711);
}

#[test]
fn forwarded_refuses_duplicates_and_garbage() {
    assert!(Forwarded::decode(&vec![b"for=a;for=b".to_vec()]).is_err());
    assert!(Forwarded::decode(&vec![b"host=a;host=b".to_vec()]).is_err());
    assert!(Forwarded::decode(&vec![b"for=a bcd".to_vec()]).is_err());
    assert!(Forwarded::decode(&vec![]).is_err());
    assert!(Forwarded::decode(&vec![b"proto=ht/tp".to_vec()]).is_err());
    let f = decode_fwd("for=a;by=x;other=y, proto=https");
    assert_eq!(f.client_protocol(), None);
    assert_eq!(f.nodes()[1].fwd_protocol.as_ref().unwrap().as_str(), "https");
}

#[test]
fn test_decode_x_forwarded_for() {
    let header1 = "2001:db8:85a3:8d3:1319:8a2e:370:7348";
    let header3 = "203.0.113.195, 70.41.3.18, 150.172.238.178";
    let header4 = "192.0.2.43, \"[2001:db8:cafe::17]\"";
    let h1 = XForwardedFor::decode(&vec![header1.as_bytes().to_vec()]).unwrap();
    assert_eq!(h1.client(), header1);
    let h3 = XForwardedFor::decode(&vec![header3.as_bytes().to_vec()]).unwrap();
    assert_eq!(h3.client(), "203.0.113.195");
    assert_eq!(h3.proxies().len(), 2);
    let h4 = XForwardedFor::decode(&vec![header4.as_bytes().to_vec()]).unwrap();
    assert_eq!(h4.proxies()[0], "[2001:db8:cafe::17]");
    assert_eq!(
        classify_address(&h4.proxies()[0]),
        AddressForm::BracketedIpv6("2001:db8:cafe::17".into())
    );
}

#[test]
fn test_encode_x_forwarded_for() {
    let header = "203.0.113.195, 70.41.3.18, 150.172.238.178";
    let h = XForwardedFor::decode(&vec![header.as_bytes().to_vec()]).unwrap();
    assert_eq!(h.encode(), header);
}

#[test]
fn test_escaped() {
    let x: &[u8] = b"abcde";
    let (left, res) = unescape(x).unwrap();
    assert!(left.is_empty());
    assert_eq!(res, x);

    let x: &[u8] = br#"abcde\"ef""#;
    let (left, res) = unescape(x).unwrap();
    assert_eq!(left, b"\"");
    assert_eq!(res, br#"abcde"ef"#);

    let x: &[u8] = b"";
    let (left, res) = unescape(x).unwrap();
    assert!(left.is_empty());
    assert!(res.is_empty());
}
