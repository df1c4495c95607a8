use uestc_client::query::{parse_query_pairs, percent_decode, percent_encode};
use uestc_client::session::{login_succeeded, merge_credentials, on_wechat_domain, session_active};
use uestc_client::strutil::u128_to_string;

#[test]
fn test_merge_credentials_overwrites_and_inserts() {
    let mut form = vec![
        ("username".to_string(), "prefill".to_string()),
        ("lt".to_string(), "LT-1".to_string()),
    ];
    merge_credentials(&mut form, "2023010101", "ENCRYPTED");
    assert_eq!(
        form,
        vec![
            ("username".to_string(), "2023010101".to_string()),
            ("lt".to_string(), "LT-1".to_string()),
            ("password".to_string(), "ENCRYPTED".to_string()),
        ]
    );
}

#[test]
fn test_login_succeeded() {
    assert!(login_succeeded(
        true,
        "https://eportal.example.edu/new/index.html"
    ));
    assert!(!login_succeeded(
        true,
        "https://idas.example.edu/authserver/login?service=x"
    ));
    assert!(!login_succeeded(false, "https://eportal.example.edu/"));
}

#[test]
fn test_session_active() {
    assert!(session_active(
        "https://eportal.uestc.edu.cn/new/index.html?browser=no"
    ));
    assert!(!session_active(
        "https://idas.uestc.edu.cn/authserver/login"
    ));
}

#[test]
fn test_on_wechat_domain() {
    assert!(on_wechat_domain(
        "https://open.weixin.qq.com/connect/qrconnect?appid=x"
    ));
    assert!(!on_wechat_domain("https://idas.uestc.edu.cn/authserver"));
}

#[test]
fn test_percent_encode() {
    assert_eq!(percent_encode("https://y/a b"), "https%3A%2F%2Fy%2Fa%20b");
    assert_eq!(percent_encode("AZaz09-._~"), "AZaz09-._~");
    // non-ASCII characters become the escapes of their UTF-8 bytes
    assert_eq!(percent_encode("\u{6587}"), "%E6%96%87");
}

#[test]
fn test_percent_decode() {
    assert_eq!(percent_decode("https%3A%2F%2Fy"), "https://y");
    assert_eq!(percent_decode("a+b"), "a b");
    // a malformed escape stands for itself
    assert_eq!(percent_decode("100%zz"), "100%zz");
}

#[test]
fn test_parse_query_pairs() {
    let pairs = parse_query_pairs("https://x/p?a=1&&b=two%20words&c&d=x=y#frag");
    assert_eq!(
        pairs,
        vec![
            ("a".to_string(), "1".to_string()),
            ("b".to_string(), "two words".to_string()),
            ("c".to_string(), "".to_string()),
            ("d".to_string(), "x=y".to_string()),
        ]
    );
}

#[test]
fn test_u128_to_string() {
    assert_eq!(u128_to_string(0), "0");
    assert_eq!(u128_to_string(1700000000123), "1700000000123");
    assert_eq!(u128_to_string(u128::MAX), u128::MAX.to_string());
}
