use headers::Error;
use headers::Header;
use headers::value::HeaderValue;
use headers::www_authenticate::WwwAuthenticate;

fn decode_strs(vals: &[&str]) -> Result<WwwAuthenticate, Error> {
    let mut raw: Vec<HeaderValue> = Vec::new();
    for s in vals {
        raw.push(HeaderValue::from_bytes(s.as_bytes().to_vec()).unwrap());
    }
    WwwAuthenticate::decode(&raw)
}

#[test]
fn test_parse() {
    let auth = decode_strs(&["Bearer realm=\"https://auth.docker.io/token\",service=\"registry.docker.io\",scope=\"repository:library/redis:pull\""]).unwrap();

    assert_eq!(auth.get("realm").as_deref(), Some("https://auth.docker.io/token"));
    assert_eq!(auth.get("bar").as_deref(), None);
}

#[test]
fn test_parse_empty() {
    let auth = decode_strs(&["Basic"]).unwrap();

    assert_eq!(auth.scheme().as_deref(), Some("Basic"));
}

#[test]
fn full_example_pairs() {
    let auth = decode_strs(&["Bearer realm=\"https://auth.docker.io/token\",service=\"registry.docker.io\",scope=\"repository:library/redis:pull\""]).unwrap();

    assert_eq!(auth.scheme().as_deref(), Some("Bearer"));
    assert_eq!(auth.len(), 3);
    assert_eq!(auth.get("service").as_deref(), Some("registry.docker.io"));
    assert_eq!(auth.get("scope").as_deref(), Some("repository:library/redis:pull"));
    let pairs = auth.iter();
    assert_eq!(pairs.len(), 3);
    assert_eq!(pairs[0].0, "realm");
    assert_eq!(pairs[0].1, "https://auth.docker.io/token");
    assert_eq!(pairs[1].0, "service");
    assert_eq!(pairs[2].0, "scope");
}

#[test]
fn scheme_alone_has_no_pairs() {
    let auth = decode_strs(&["Basic"]).unwrap();

    assert_eq!(auth.scheme().as_deref(), Some("Basic"));
    assert_eq!(auth.len(), 0);
    assert!(auth.iter().is_empty());
    assert_eq!(auth.get("realm"), None);
}

#[test]
fn no_value_fails() {
    assert!(decode_strs(&[]).is_err());
    assert_eq!(decode_strs(&[]).unwrap_err(), Error::invalid());
}

#[test]
fn only_first_value_is_read() {
    let auth = decode_strs(&["Basic", "Bearer realm=x"]).unwrap();

    assert_eq!(auth.scheme().as_deref(), Some("Basic"));
    assert_eq!(auth.len(), 0);
}

#[test]
fn token_without_equals_yields_nothing() {
    let auth = decode_strs(&["Bearer foo"]).unwrap();
    assert_eq!(auth.len(), 0);
    assert!(auth.iter().is_empty());
    assert_eq!(auth.get("foo"), None);

    let auth = decode_strs(&["Bearer a=1,foo,b=2"]).unwrap();
    assert_eq!(auth.len(), 2);
    let pairs = auth.iter();
    assert_eq!(pairs[0].0, "a");
    assert_eq!(pairs[0].1, "1");
    assert_eq!(pairs[1].0, "b");
    assert_eq!(pairs[1].1, "2");
}

#[test]
fn len_counts_tokens_with_equals() {
    let auth = decode_strs(&["Bearer a=1,,x, b = 2 ,yz"]).unwrap();
    assert_eq!(auth.len(), 2);
}

#[test]
fn keys_and_values_are_trimmed() {
    let auth = decode_strs(&["Bearer   a =  b , c=d"]).unwrap();
    assert_eq!(auth.get("a").as_deref(), Some("b"));
    assert_eq!(auth.get("c").as_deref(), Some("d"));
}

#[test]
fn first_match_wins() {
    let auth = decode_strs(&["Bearer a=1,a=2"]).unwrap();
    assert_eq!(auth.get("a").as_deref(), Some("1"));
}

#[test]
fn lookup_is_case_sensitive_and_exact() {
    let auth = decode_strs(&["Bearer Realm=x"]).unwrap();
    assert_eq!(auth.get("realm"), None);
    assert_eq!(auth.get("Realm").as_deref(), Some("x"));
}

// The quote handling is deliberately primitive: a value that starts with a
// double quote loses exactly its first and its last byte, whether or not
// the last byte is a quote, and a quoted comma still splits.
#[test]
fn quote_stripping_is_byte_blind() {
    let auth = decode_strs(&["Bearer a=\"b\""]).unwrap();
    assert_eq!(auth.get("a").as_deref(), Some("b"));

    let auth = decode_strs(&["Bearer a=\"b"]).unwrap();
    assert_eq!(auth.get("a").as_deref(), Some(""));

    let auth = decode_strs(&["Bearer a=\""]).unwrap();
    assert_eq!(auth.get("a").as_deref(), Some(""));

    let auth = decode_strs(&["Bearer a=\"bc"]).unwrap();
    assert_eq!(auth.get("a").as_deref(), Some("b"));

    let auth = decode_strs(&["Bearer a=\"b,c\""]).unwrap();
    assert_eq!(auth.len(), 1);
    assert_eq!(auth.get("a").as_deref(), Some(""));
}

#[test]
fn encode_round_trips_scheme_and_params() {
    let auth = decode_strs(&["Bearer realm=\"https://auth.docker.io/token\",service=\"registry.docker.io\""]).unwrap();
    let mut out: Vec<HeaderValue> = Vec::new();
    auth.encode(&mut out);
    assert_eq!(out.len(), 2);
    assert_eq!(out[0].as_bytes().as_slice(), &b"Bearer"[..]);
    assert_eq!(
        out[1].as_bytes().as_slice(),
        &b"realm=\"https://auth.docker.io/token\",service=\"registry.docker.io\""[..]
    );
}

#[test]
fn encode_scheme_alone_is_one_value() {
    let auth = decode_strs(&["Basic"]).unwrap();
    let mut out: Vec<HeaderValue> = Vec::new();
    auth.encode(&mut out);
    assert_eq!(out.len(), 1);
    assert_eq!(out[0].as_bytes().as_slice(), &b"Basic"[..]);
}

#[test]
fn encode_appends_after_existing_values() {
    let auth = decode_strs(&["Bearer a=1"]).unwrap();
    let mut out: Vec<HeaderValue> = vec![HeaderValue::from_bytes(b"before".to_vec()).unwrap()];
    auth.encode(&mut out);
    assert_eq!(out.len(), 3);
    assert_eq!(out[0].as_bytes().as_slice(), &b"before"[..]);
    assert_eq!(out[1].as_bytes().as_slice(), &b"Bearer"[..]);
    assert_eq!(out[2].as_bytes().as_slice(), &b"a=1"[..]);
}

#[test]
fn control_bytes_are_rejected() {
    assert!(HeaderValue::from_bytes(b"a\x00b".to_vec()).is_err());
    assert!(HeaderValue::from_bytes(b"line\nbreak".to_vec()).is_err());
    assert!(HeaderValue::from_bytes(b"del\x7f".to_vec()).is_err());
    assert!(HeaderValue::from_bytes(b"tab\tok".to_vec()).is_ok());
}

#[test]
fn non_ascii_scheme_is_not_text() {
    let mut raw: Vec<u8> = Vec::new();
    raw.extend_from_slice(b"Be");
    raw.push(0x80);
    raw.extend_from_slice(b" a=1");
    let values = vec![HeaderValue::from_bytes(raw).unwrap()];
    let auth = WwwAuthenticate::decode(&values).unwrap();
    assert_eq!(auth.scheme(), None);
    assert_eq!(auth.get("a").as_deref(), Some("1"));
}

#[test]
fn non_ascii_params_yield_no_pairs() {
    let mut raw: Vec<u8> = Vec::new();
    raw.extend_from_slice(b"Bearer a=1,b=");
    raw.push(0x80);
    let values = vec![HeaderValue::from_bytes(raw).unwrap()];
    let auth = WwwAuthenticate::decode(&values).unwrap();
    assert_eq!(auth.scheme().as_deref(), Some("Bearer"));
    assert_eq!(auth.len(), 0);
    assert_eq!(auth.get("a"), None);
}

#[test]
fn clone_is_equal() {
    let auth = decode_strs(&["Bearer a=1,b=2"]).unwrap();
    let copy = auth.clone();
    assert_eq!(copy, auth);
    assert_eq!(copy.scheme(), auth.scheme());
    assert_eq!(copy.iter(), auth.iter());
    let other = decode_strs(&["Bearer a=1"]).unwrap();
    assert_ne!(other, auth);
}

#[test]
fn header_name_is_fixed() {
    assert_eq!(<WwwAuthenticate as Header>::name(), "www-authenticate");
}

#[test]
fn trait_decode_matches_inherent_decode() {
    let values = vec![HeaderValue::from_bytes(b"Bearer a=1".to_vec()).unwrap()];
    let auth = <WwwAuthenticate as Header>::decode(&values).unwrap();
    assert_eq!(auth.get("a").as_deref(), Some("1"));
    let none: Vec<HeaderValue> = Vec::new();
    assert!(<WwwAuthenticate as Header>::decode(&none).is_err());
}
