use uestc_client::errors::{WeChatError, XmlParseError};
use uestc_client::wechat::{
    build_confirm_url, build_poll_url, build_poll_url_at, parse_scan_status, poll_last_code,
    poll_step, PollOutcome, PollPhase, ScanResult, ScanStatus, WechatAuthParams,
};
use uestc_client::xml::parse_qr_uuid_from_xml;

#[test]
fn test_from_url_extracts_params() {
    let p = WechatAuthParams::from_url(
        "https://x/connect?appid=A1&redirect_uri=https%3A%2F%2Fy&state=S1",
    )
    .unwrap();
    assert_eq!(p.appid, "A1");
    assert_eq!(p.redirect_uri, "https://y");
    assert_eq!(p.state, "S1");
}

#[test]
fn test_from_url_missing_appid() {
    let r = WechatAuthParams::from_url("https://x/connect?redirect_uri=https%3A%2F%2Fy&state=S1");
    assert_eq!(r.err(), Some(WeChatError::MissingParam("appid".to_string())));
}

#[test]
fn test_from_url_missing_redirect_uri() {
    let r = WechatAuthParams::from_url("https://x/connect?appid=A1&state=S1");
    assert_eq!(
        r.err(),
        Some(WeChatError::MissingParam("redirect_uri".to_string()))
    );
}

#[test]
fn test_from_url_missing_state() {
    let r = WechatAuthParams::from_url("https://x/connect?appid=A1&redirect_uri=y");
    assert_eq!(r.err(), Some(WeChatError::MissingParam("state".to_string())));
}

#[test]
fn test_from_url_no_query() {
    let r = WechatAuthParams::from_url("https://x/connect");
    assert_eq!(r.err(), Some(WeChatError::MissingParam("appid".to_string())));
}

#[test]
fn test_from_url_repeated_key_last_wins() {
    let p =
        WechatAuthParams::from_url("https://x/c?appid=A1&appid=A2&redirect_uri=y&state=s").unwrap();
    assert_eq!(p.appid, "A2");
}

#[test]
fn test_from_url_plus_decodes_to_space() {
    let p = WechatAuthParams::from_url("https://x/c?appid=a+b&redirect_uri=y&state=s").unwrap();
    assert_eq!(p.appid, "a b");
}

#[test]
fn test_build_qr_xml_url() {
    let p = WechatAuthParams {
        appid: "wx123".to_string(),
        redirect_uri: "https://idas.example/authserver/callback?client=wx".to_string(),
        state: "st/1".to_string(),
    };
    let url = p.build_qr_xml_url();
    assert_eq!(
        url,
        "https://open.weixin.qq.com/connect/qrconnect?appid=wx123\
         &redirect_uri=https%3A%2F%2Fidas.example%2Fauthserver%2Fcallback%3Fclient%3Dwx\
         &state=st%2F1\
         &response_type=code&scope=snsapi_login&f=xml&stylelite=1&fast_login=1"
    );
}

#[test]
fn test_build_callback_url_without_query() {
    let p = WechatAuthParams {
        appid: "A".to_string(),
        redirect_uri: "https://y".to_string(),
        state: "S1".to_string(),
    };
    assert_eq!(p.build_callback_url("C"), "https://y?code=C&state=S1");
}

#[test]
fn test_build_callback_url_with_query() {
    let p = WechatAuthParams {
        appid: "A".to_string(),
        redirect_uri: "https://y?x=1".to_string(),
        state: "S1".to_string(),
    };
    assert_eq!(p.build_callback_url("C"), "https://y?x=1&code=C&state=S1");
}

#[test]
fn test_build_poll_url_at() {
    let url = build_poll_url_at("UUID1", None, 1700000000123);
    assert_eq!(
        url,
        "https://lp.open.weixin.qq.com/connect/l/qrconnect?uuid=UUID1&_=1700000000123"
    );
    let url2 = build_poll_url_at("UUID1", Some("404"), 7);
    assert_eq!(
        url2,
        "https://lp.open.weixin.qq.com/connect/l/qrconnect?uuid=UUID1&_=7&last=404"
    );
}

#[test]
fn test_build_poll_url_uses_clock() {
    let url = build_poll_url("U", Some("404"));
    assert!(url.starts_with("https://lp.open.weixin.qq.com/connect/l/qrconnect?uuid=U&_="));
    assert!(url.ends_with("&last=404"));
}

#[test]
fn test_build_confirm_url() {
    assert_eq!(
        build_confirm_url("U-1"),
        "https://open.weixin.qq.com/connect/confirm?uuid=U-1"
    );
}

#[test]
fn test_parse_scan_status_scanned() {
    let r = parse_scan_status("window.wx_errcode=404").unwrap();
    assert_eq!(r.status, ScanStatus::Scanned);
    assert_eq!(r.wx_code, None);
}

#[test]
fn test_parse_scan_status_confirmed_with_code() {
    let r = parse_scan_status("window.wx_errcode=405;window.wx_code='XYZ123'").unwrap();
    assert_eq!(r.status, ScanStatus::Confirmed);
    assert_eq!(r.wx_code, Some("XYZ123".to_string()));
}

#[test]
fn test_parse_scan_status_confirmed_double_quoted() {
    let r = parse_scan_status("window.wx_errcode=405;window.wx_code=\"QQ\"").unwrap();
    assert_eq!(r.wx_code, Some("QQ".to_string()));
}

#[test]
fn test_parse_scan_status_expired() {
    let r = parse_scan_status("window.wx_errcode=402").unwrap();
    assert_eq!(r.status, ScanStatus::Expired);
}

#[test]
fn test_parse_scan_status_waiting() {
    let r = parse_scan_status("window.wx_errcode=408").unwrap();
    assert_eq!(r.status, ScanStatus::Waiting);
    assert_eq!(r.wx_code, None);
}

#[test]
fn test_parse_scan_status_unknown_code() {
    let r = parse_scan_status("window.wx_errcode=500").unwrap();
    assert_eq!(r.status, ScanStatus::Unknown(500));
}

#[test]
fn test_parse_scan_status_no_marker() {
    let r = parse_scan_status("nothing here").unwrap();
    assert_eq!(r.status, ScanStatus::Unknown(0));
    assert_eq!(r.wx_code, None);
}

#[test]
fn test_parse_scan_status_overflowing_code_reads_zero() {
    let r = parse_scan_status("window.wx_errcode=99999999999999999999").unwrap();
    assert_eq!(r.status, ScanStatus::Unknown(0));
}

#[test]
fn test_parse_scan_status_confirmed_without_code_fails() {
    let r = parse_scan_status("window.wx_errcode=405");
    assert_eq!(r.err(), Some(WeChatError::MissingWxCode));
}

#[test]
fn test_parse_qr_uuid_simple() {
    let xml = "<xml><uuid>abc-123</uuid></xml>";
    assert_eq!(parse_qr_uuid_from_xml(xml).unwrap(), "abc-123");
}

#[test]
fn test_parse_qr_uuid_trims_and_skips_whitespace() {
    let xml = "<xml><other>x</other><uuid>\n   u-77  \n</uuid></xml>";
    assert_eq!(parse_qr_uuid_from_xml(xml).unwrap(), "u-77");
}

#[test]
fn test_parse_qr_uuid_cdata() {
    let xml = "<xml><uuid><![CDATA[ cd-9 ]]></uuid></xml>";
    assert_eq!(parse_qr_uuid_from_xml(xml).unwrap(), "cd-9");
}

#[test]
fn test_parse_qr_uuid_missing() {
    let xml = "<xml><other>x</other></xml>";
    assert_eq!(
        parse_qr_uuid_from_xml(xml).err(),
        Some(XmlParseError::UuidNotFound)
    );
}

#[test]
fn test_parse_qr_uuid_malformed() {
    // an unterminated tag breaks the document's structure
    let xml = "<xml><uuid";
    assert_eq!(
        parse_qr_uuid_from_xml(xml).err(),
        Some(XmlParseError::NotWellFormed)
    );
    // so does an unterminated character-data section
    let xml2 = "<xml><uuid><![CDATA[x";
    assert_eq!(
        parse_qr_uuid_from_xml(xml2).err(),
        Some(XmlParseError::NotWellFormed)
    );
}

#[test]
fn test_parse_qr_uuid_ignores_comments() {
    let xml = "<!-- <uuid>no</uuid> --><uuid>yes</uuid>";
    assert_eq!(parse_qr_uuid_from_xml(xml).unwrap(), "yes");
}

#[test]
fn test_poll_step_transitions() {
    let waiting = ScanResult {
        status: ScanStatus::Waiting,
        wx_code: None,
    };
    let scanned = ScanResult {
        status: ScanStatus::Scanned,
        wx_code: None,
    };
    let unknown = ScanResult {
        status: ScanStatus::Unknown(7),
        wx_code: None,
    };
    let expired = ScanResult {
        status: ScanStatus::Expired,
        wx_code: None,
    };
    let confirmed = ScanResult {
        status: ScanStatus::Confirmed,
        wx_code: Some("C0".to_string()),
    };
    let confirmed_bare = ScanResult {
        status: ScanStatus::Confirmed,
        wx_code: None,
    };

    assert_eq!(
        poll_step(PollPhase::Waiting, &waiting).unwrap(),
        PollOutcome::Continue(PollPhase::Waiting)
    );
    assert_eq!(
        poll_step(PollPhase::Waiting, &scanned).unwrap(),
        PollOutcome::Continue(PollPhase::Scanned)
    );
    assert_eq!(
        poll_step(PollPhase::Scanned, &scanned).unwrap(),
        PollOutcome::Continue(PollPhase::Scanned)
    );
    assert_eq!(
        poll_step(PollPhase::Scanned, &unknown).unwrap(),
        PollOutcome::Continue(PollPhase::Scanned)
    );
    assert_eq!(
        poll_step(PollPhase::Waiting, &expired).unwrap(),
        PollOutcome::Expired
    );
    assert_eq!(
        poll_step(PollPhase::Scanned, &confirmed).unwrap(),
        PollOutcome::Done("C0".to_string())
    );
    assert_eq!(
        poll_step(PollPhase::Scanned, &confirmed_bare),
        Err(WeChatError::MissingWxCode)
    );
}

#[test]
fn test_poll_last_code() {
    assert_eq!(poll_last_code(PollPhase::Waiting), None);
    assert_eq!(poll_last_code(PollPhase::Scanned), Some("404".to_string()));
}
