use uestc_client::cookie::{build_set_cookie_string, load_cookies, save_cookies, CookieRecord};

fn record(name: &str, domain: &str) -> CookieRecord {
    CookieRecord {
        name: name.to_string(),
        value: format!("v-{}", name),
        domain: domain.to_string(),
        path: "/".to_string(),
        expires: None,
        secure: true,
        http_only: false,
    }
}

#[test]
fn test_cookie_round_trip_preserves_fields() {
    let records = vec![
        CookieRecord {
            name: "SESSION".to_string(),
            value: "abc=42; weird \"value\"\n".to_string(),
            domain: "idas.example.edu".to_string(),
            path: "/authserver".to_string(),
            expires: Some("Wed, 01 Jan 2031 00:00:00 GMT".to_string()),
            secure: true,
            http_only: true,
        },
        record("route", "eportal.example.edu"),
    ];
    let text = save_cookies(&records);
    let loaded = load_cookies(&text);
    assert_eq!(loaded.len(), 2);
    assert_eq!(loaded[0].name, "SESSION");
    assert_eq!(loaded[0].value, "abc=42; weird \"value\"\n");
    assert_eq!(loaded[0].domain, "idas.example.edu");
    assert_eq!(loaded[0].path, "/authserver");
    assert_eq!(loaded[0].secure, true);
    assert_eq!(loaded[0].http_only, true);
    // the expiry is never preserved
    assert_eq!(loaded[0].expires, None);
    assert_eq!(loaded[1], record("route", "eportal.example.edu"));
}

#[test]
fn test_cookie_empty_domain_dropped() {
    let records = vec![record("keep", "a.example"), record("drop", "")];
    let text = save_cookies(&records);
    let loaded = load_cookies(&text);
    assert_eq!(loaded.len(), 1);
    assert_eq!(loaded[0].name, "keep");
}

#[test]
fn test_cookie_empty_jar() {
    let records: Vec<CookieRecord> = Vec::new();
    let text = save_cookies(&records);
    assert_eq!(text, "[]");
    assert_eq!(load_cookies(&text).len(), 0);
}

#[test]
fn test_cookie_save_is_pretty_json() {
    let text = save_cookies(&vec![record("a", "d.example")]);
    assert_eq!(
        text,
        "[\n  {\n    \"name\": \"a\",\n    \"value\": \"v-a\",\n    \"domain\": \"d.example\",\n    \"path\": \"/\",\n    \"expires\": null,\n    \"secure\": true,\n    \"http_only\": false\n  }\n]"
    );
}

#[test]
fn test_cookie_load_rejects_garbage() {
    assert_eq!(load_cookies("not json at all").len(), 0);
    assert_eq!(load_cookies("[\n  {\"name\": \"a\"}\n]").len(), 0);
    assert_eq!(load_cookies("").len(), 0);
}

#[test]
fn test_cookie_control_characters_round_trip() {
    let mut r = record("ctl", "d.example");
    r.value = "a\u{1}b\tc".to_string();
    let text = save_cookies(&vec![r.clone()]);
    let loaded = load_cookies(&text);
    assert_eq!(loaded[0].value, "a\u{1}b\tc");
}

#[test]
fn test_build_set_cookie_string() {
    let r = CookieRecord {
        name: "SESSION".to_string(),
        value: "xyz".to_string(),
        domain: "idas.example.edu".to_string(),
        path: "/authserver".to_string(),
        expires: None,
        secure: true,
        http_only: true,
    };
    assert_eq!(
        build_set_cookie_string(&r),
        "SESSION=xyz; Domain=idas.example.edu; Path=/authserver; Secure; HttpOnly"
    );
    let plain = CookieRecord {
        secure: false,
        http_only: false,
        ..r
    };
    assert_eq!(
        build_set_cookie_string(&plain),
        "SESSION=xyz; Domain=idas.example.edu; Path=/authserver"
    );
}
