use uestc_client::errors::ParseError;
use uestc_client::parser::{extract_error_message, parse_login_page};

const FIXTURE: &str = "<html><head>\
<script type=\"text/javascript\" src=\"/js/util.js\"></script>\
<script type=\"text/javascript\" src=\"/js/encrypt.js\"></script>\
</head><body>\
<div id=\"pwdLoginDiv\">\
<input id=\"username\" value=\"\">\
<input type=\"hidden\" id=\"pwdEncryptSalt\" value=\"SALT123456789012\">\
<input type=\"hidden\" id=\"lt\" value=\"LT-12345\">\
<input type=\"hidden\" id=\"execution\" value=\"e1s1\">\
</div></body></html>";

fn lookup<'a>(form: &'a [(String, String)], key: &str) -> Option<&'a str> {
    form.iter().find(|p| p.0 == key).map(|p| p.1.as_str())
}

#[test]
fn test_parse_login_page_fixture() {
    let info = parse_login_page(FIXTURE).unwrap();
    assert_eq!(info.pwd_encrypt_salt, "SALT123456789012");
    assert!(!info.form_data.is_empty());
    assert_eq!(info.encrypt_script_path.as_deref(), Some("/js/encrypt.js"));
    assert_eq!(lookup(&info.form_data, "lt"), Some("LT-12345"));
    assert_eq!(lookup(&info.form_data, "execution"), Some("e1s1"));
    assert_eq!(lookup(&info.form_data, "username"), Some(""));
}

#[test]
fn test_parse_login_page_missing_salt() {
    let html = "<div id=\"pwdLoginDiv\"><input id=\"lt\" value=\"x\"></div>";
    let r = parse_login_page(html);
    assert_eq!(
        r.err(),
        Some(ParseError::MissingField("pwdEncryptSalt".to_string()))
    );
}

#[test]
fn test_parse_login_page_no_form_div() {
    let html = "<html><body><p>maintenance</p></body></html>";
    let r = parse_login_page(html);
    assert_eq!(
        r.err(),
        Some(ParseError::MissingField("pwdEncryptSalt".to_string()))
    );
}

#[test]
fn test_parse_login_page_salt_without_value() {
    let html = "<div id=\"pwdLoginDiv\"><input id=\"pwdEncryptSalt\"></div>";
    let r = parse_login_page(html);
    assert!(r.is_err());
}

#[test]
fn test_parse_login_page_duplicate_id_last_wins() {
    let html = "<div id=\"pwdLoginDiv\">\
        <input id=\"pwdEncryptSalt\" value=\"first0123456789a\">\
        <input id=\"pwdEncryptSalt\" value=\"second123456789b\">\
        </div>";
    let info = parse_login_page(html).unwrap();
    assert_eq!(info.pwd_encrypt_salt, "second123456789b");
    assert_eq!(info.form_data.len(), 1);
}

#[test]
fn test_parse_login_page_input_outside_div_ignored() {
    let html = "<input id=\"pwdEncryptSalt\" value=\"outside123456789\">\
        <div id=\"pwdLoginDiv\"><input id=\"a\" value=\"b\"></div>";
    let r = parse_login_page(html);
    assert!(r.is_err());
}

#[test]
fn test_parse_login_page_nested_div() {
    let html = "<div id=\"pwdLoginDiv\"><div class=\"row\">\
        <input id=\"pwdEncryptSalt\" value=\"SALT123456789012\">\
        </div></div>\
        <input id=\"after\" value=\"no\">";
    let info = parse_login_page(html).unwrap();
    assert_eq!(info.pwd_encrypt_salt, "SALT123456789012");
    assert_eq!(lookup(&info.form_data, "after"), None);
}

#[test]
fn test_script_without_encrypt_not_taken() {
    let html = "<script type=\"text/javascript\" src=\"/js/other.js\"></script>\
        <div id=\"pwdLoginDiv\"><input id=\"pwdEncryptSalt\" value=\"SALT123456789012\"></div>";
    let info = parse_login_page(html).unwrap();
    assert_eq!(info.encrypt_script_path, None);
}

#[test]
fn test_extract_error_message_present() {
    let html = "<span id=\"showErrorTip\">  Wrong password  </span>";
    assert_eq!(
        extract_error_message(html),
        Some("Wrong password".to_string())
    );
}

#[test]
fn test_extract_error_message_nested_text() {
    let html = "<span id=\"showErrorTip\"><b>Account</b> locked</span>";
    assert_eq!(
        extract_error_message(html),
        Some("Account locked".to_string())
    );
}

#[test]
fn test_extract_error_message_blank() {
    let html = "<span id=\"showErrorTip\">   </span>";
    assert_eq!(extract_error_message(html), None);
}

#[test]
fn test_extract_error_message_absent() {
    let html = "<div id=\"other\">text</div>";
    assert_eq!(extract_error_message(html), None);
}
