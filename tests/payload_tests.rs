use hiho::{decode_payload, encode_payload, Entry};

fn entry(n: &str, u: &str, p: &str) -> Entry {
    Entry::new(n, u, p)
}

fn same(a: &[Entry], b: &[Entry]) -> bool {
    a.len() == b.len()
        && a.iter().zip(b).all(|(x, y)| x.name == y.name && x.username == y.username && x.password == y.password)
}

#[test]
fn payload_is_compact_json() {
    let bytes = encode_payload(&vec![entry("email", "a@b.com", "xyz")]);
    assert_eq!(
        String::from_utf8(bytes).unwrap(),
        r#"{"entries":[{"name":"email","username":"a@b.com","password":"xyz"}]}"#
    );
    assert_eq!(String::from_utf8(encode_payload(&vec![])).unwrap(), r#"{"entries":[]}"#);
}

#[test]
fn payload_escapes_like_json() {
    let bytes = encode_payload(&vec![entry("q\"b\\n\nt\tc\u{1}", "é", "")]);
    assert_eq!(
        String::from_utf8(bytes.clone()).unwrap(),
        "{\"entries\":[{\"name\":\"q\\\"b\\\\n\\nt\\tc\\u0001\",\"username\":\"é\",\"password\":\"\"}]}"
    );
    let v: serde_json::Value = serde_json::from_slice(&bytes).unwrap();
    assert_eq!(v["entries"][0]["name"], "q\"b\\n\nt\tc\u{1}");
    assert_eq!(v["entries"][0]["username"], "é");
}

#[test]
fn payload_round_trip() {
    let es = vec![
        entry("email", "a@b.com", "xyz"),
        entry("bank", "me", "p\"a,s\\s"),
        entry("email", "other", "ünïcödé ✓"),
        entry("", "", ""),
    ];
    let back = decode_payload(&encode_payload(&es)).unwrap();
    assert!(same(&back, &es));
}

#[test]
fn payload_reads_serde_json_output() {
    let text = r#"{"entries":[{"name":"a","username":"b","password":"c\u001f"},{"name":"d","username":"e","password":"f"}]}"#;
    let back = decode_payload(text.as_bytes()).unwrap();
    assert!(same(&back, &[entry("a", "b", "c\u{1f}"), entry("d", "e", "f")]));
}

#[test]
fn malformed_payloads_are_rejected() {
    assert!(decode_payload(b"").is_none());
    assert!(decode_payload(b"{\"entries\":[").is_none());
    assert!(decode_payload(b"{\"entries\":[]}x").is_none());
    assert!(decode_payload(b"{\"entries\":[{\"name\":\"a\"}]}").is_none());
    assert!(decode_payload(b"{\"entries\":[{\"name\":\"\xff\",\"username\":\"\",\"password\":\"\"}]}").is_none());
    assert!(decode_payload(b"garbage that is not json").is_none());
}
