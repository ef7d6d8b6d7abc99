use session_guard::session::{SameSitePolicy, Session, SessionId};

fn id_from(bytes: &[u8]) -> SessionId {
    SessionId::from_bytes(bytes.to_vec()).expect("16 bytes")
}

fn sample_bytes() -> Vec<u8> {
    vec![0, 1, 2, 3, 4, 5, 6, 7, 8, 9, 10, 11, 12, 13, 14, 15]
}

#[test]
fn missing_cookie_yields_fresh_empty_session() {
    let s = Session::from_cookie(None);
    assert_eq!(s.len(), 0);
    assert_eq!(s.id.bytes().len(), 16);
    assert!(s.get(&"user".to_string()).is_none());
}

#[test]
fn fresh_identifiers_differ() {
    let a = SessionId::fresh();
    let b = SessionId::fresh();
    assert!(!a.same(&b));
    assert_eq!(a.bytes().len(), 16);
}

#[test]
fn fresh_identifier_carries_version_four() {
    let a = SessionId::fresh();
    assert_eq!(a.bytes()[6] >> 4, 4);
}

#[test]
fn malformed_cookie_yields_fresh_empty_session() {
    let junk = "definitely not a session payload".to_string();
    let s = Session::from_cookie(Some(&junk));
    assert_eq!(s.len(), 0);
    assert_eq!(s.id.bytes().len(), 16);
}

#[test]
fn truncated_payload_yields_fresh_empty_session() {
    let mut s = Session::new(id_from(&sample_bytes()));
    s.add_data("user".to_string(), "alice".to_string());
    let mut payload = s.payload();
    payload.truncate(payload.len() - 2);
    let r = Session::from_cookie(Some(&payload));
    assert_eq!(r.len(), 0);
    assert!(!r.id.same(&s.id));
}

#[test]
fn round_trip_keeps_identity_and_state() {
    let mut s = Session::new(id_from(&sample_bytes()));
    s.add_data("user".to_string(), "alice".to_string());
    s.add_data("theme".to_string(), "dark".to_string());
    let payload = s.payload();
    let r = Session::from_cookie(Some(&payload));
    assert!(r.id.same(&s.id));
    assert_eq!(r.len(), 2);
    assert_eq!(r.get(&"user".to_string()).unwrap(), "alice");
    assert_eq!(r.get(&"theme".to_string()).unwrap(), "dark");
}

#[test]
fn round_trip_of_empty_state() {
    let s = Session::new(id_from(&sample_bytes()));
    let payload = s.payload();
    assert_eq!(
        payload,
        "{\"id\":\"00010203-0405-0607-0809-0a0b0c0d0e0f\",\"data\":{}}"
    );
    let r = Session::from_cookie(Some(&payload));
    assert!(r.id.same(&s.id));
    assert_eq!(r.len(), 0);
}

#[test]
fn round_trip_escapes_special_characters() {
    let mut s = Session::new(id_from(&sample_bytes()));
    s.add_data("qu\"ote".to_string(), "back\\slash".to_string());
    s.add_data("line\nbreak".to_string(), "tab\there".to_string());
    s.add_data("caf\u{e9}".to_string(), "\u{65e5}\u{672c}\u{8a9e}".to_string());
    let payload = s.payload();
    let r = Session::from_cookie(Some(&payload));
    assert!(r.id.same(&s.id));
    assert_eq!(r.get(&"qu\"ote".to_string()).unwrap(), "back\\slash");
    assert_eq!(r.get(&"line\nbreak".to_string()).unwrap(), "tab\there");
    assert_eq!(
        r.get(&"caf\u{e9}".to_string()).unwrap(),
        "\u{65e5}\u{672c}\u{8a9e}"
    );
}

#[test]
fn add_data_is_idempotent() {
    let mut s = Session::new(id_from(&sample_bytes()));
    s.add_data("k".to_string(), "v".to_string());
    let once = s.payload();
    s.add_data("k".to_string(), "v".to_string());
    let twice = s.payload();
    assert_eq!(once, twice);
    assert_eq!(s.len(), 1);
    assert_eq!(s.get(&"k".to_string()).unwrap(), "v");
}

#[test]
fn add_data_overwrites_exactly_one_key() {
    let mut s = Session::new(id_from(&sample_bytes()));
    s.add_data("a".to_string(), "1".to_string());
    s.add_data("b".to_string(), "2".to_string());
    s.add_data("a".to_string(), "3".to_string());
    assert_eq!(s.len(), 2);
    assert_eq!(s.get(&"a".to_string()).unwrap(), "3");
    assert_eq!(s.get(&"b".to_string()).unwrap(), "2");
}

#[test]
fn get_of_absent_key_is_none() {
    let mut s = Session::new(id_from(&sample_bytes()));
    s.add_data("a".to_string(), "1".to_string());
    assert!(s.get(&"missing".to_string()).is_none());
}

#[test]
fn scenario_no_cookie_then_set_then_write_back() {
    let mut s = Session::from_cookie(None);
    s.add_data("user".to_string(), "alice".to_string());
    let cookie = s.write_back_cookie();
    assert_eq!(cookie.name, "session");
    assert!(cookie.secure);
    assert!(cookie.http_only);
    assert_eq!(cookie.same_site, SameSitePolicy::Lax);
    let r = Session::from_cookie(Some(&cookie.value));
    assert!(r.id.same(&s.id));
    assert_eq!(r.get(&"user".to_string()).unwrap(), "alice");
}

#[test]
fn scenario_valid_cookie_without_mutation_keeps_everything() {
    let mut original = Session::new(id_from(&sample_bytes()));
    original.add_data("user".to_string(), "alice".to_string());
    let incoming = original.payload();
    let s = Session::from_cookie(Some(&incoming));
    let rewritten = s.write_back_cookie();
    assert_eq!(rewritten.value, incoming);
    let r = Session::from_cookie(Some(&rewritten.value));
    assert!(r.id.same(&original.id));
    assert_eq!(r.get(&"user".to_string()).unwrap(), "alice");
}

#[test]
fn scenario_unreadable_cookie_gets_new_identity() {
    let embedded = id_from(&sample_bytes());
    let broken = format!(
        "{{\"id\":\"{}\",\"data\":{{oops}}}}",
        embedded.canonical_text()
    );
    let s = Session::from_cookie(Some(&broken));
    assert_eq!(s.len(), 0);
    assert!(!s.id.same(&embedded));
    let cookie = s.write_back_cookie();
    let r = Session::from_cookie(Some(&cookie.value));
    assert!(r.id.same(&s.id));
    assert_eq!(r.len(), 0);
}

#[test]
fn repeated_keys_in_payload_keep_the_last_value() {
    let text =
        "{\"id\":\"00010203-0405-0607-0809-0a0b0c0d0e0f\",\"data\":{\"a\":\"1\",\"a\":\"2\"}}"
            .to_string();
    let s = Session::from_cookie(Some(&text));
    assert_eq!(s.get(&"a".to_string()).unwrap(), "2");
}

#[test]
fn canonical_text_of_identifier() {
    let id = id_from(&[
        0xf8, 0x6f, 0x01, 0x23, 0x45, 0x67, 0x89, 0xab, 0xcd, 0xef, 0x00, 0x11, 0x22, 0x33, 0x44,
        0x55,
    ]);
    assert_eq!(id.canonical_text(), "f86f0123-4567-89ab-cdef-001122334455");
}

#[test]
fn identifier_from_wrong_length_is_rejected() {
    assert!(SessionId::from_bytes(vec![1, 2, 3]).is_none());
    assert!(SessionId::from_bytes(vec![0; 17]).is_none());
    assert!(SessionId::from_bytes(vec![0; 16]).is_some());
}
