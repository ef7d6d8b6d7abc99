use session_guard::session::{Session, SessionId};

#[test]
fn payload_is_well_formed_json() {
    let id = SessionId::from_bytes(vec![0, 1, 2, 3, 4, 5, 6, 7, 8, 9, 10, 11, 12, 13, 14, 15])
        .expect("16 bytes");
    let mut s = Session::new(id);
    s.add_data("user".to_string(), "al\"ice\n".to_string());
    s.add_data("path".to_string(), "a\\b".to_string());
    let payload = s.payload();
    let v: serde_json::Value = serde_json::from_str(&payload).expect("valid JSON");
    assert_eq!(
        v["id"].as_str().unwrap(),
        "00010203-0405-0607-0809-0a0b0c0d0e0f"
    );
    assert_eq!(v["data"]["user"].as_str().unwrap(), "al\"ice\n");
    assert_eq!(v["data"]["path"].as_str().unwrap(), "a\\b");
    assert_eq!(v["data"].as_object().unwrap().len(), 2);
}

#[test]
fn control_characters_become_unicode_escapes() {
    let id = SessionId::from_bytes(vec![0; 16]).expect("16 bytes");
    let mut s = Session::new(id);
    s.add_data("k".to_string(), "\u{1}\u{1f}".to_string());
    let payload = s.payload();
    assert!(payload.contains("\\u0001"));
    assert!(payload.contains("\\u001f"));
    let v: serde_json::Value = serde_json::from_str(&payload).expect("valid JSON");
    assert_eq!(v["data"]["k"].as_str().unwrap(), "\u{1}\u{1f}");
}
