//! The QR-login bridge: OAuth parameters out of a redirect URL, the QR and
//! polling URLs, the scan-status parser, and the polling state machine.
use vstd::prelude::*;

use crate::errors::WeChatError;
use crate::query::{
    lookup_pair, parse_query_pairs, percent_encode, percent_encoded, query_param,
};
use crate::strutil::{dec_str, find_char_from, first_idx, lemma_first_idx, u128_to_string};
use vstd::string::{StrSliceExecFns, StringExecFns};

verus! {

/// The OAuth parameters of one QR-login attempt, extracted from the
/// identity server's redirect URL and immutable thereafter.
#[derive(Debug, Clone)]
pub struct WechatAuthParams {
    pub appid: String,
    pub redirect_uri: String,
    pub state: String,
}

impl WechatAuthParams {
    /// Reads `appid`, `redirect_uri` and `state` out of the redirect URL's
    /// query string (decoded; with repeated keys the last counts). Each of
    /// the three is required, and the first missing one names the error.
    pub fn from_url(url: &str) -> (r: Result<WechatAuthParams, WeChatError>)
        ensures
            match query_param(url@, "appid"@) {
                None => r matches Err(WeChatError::MissingParam(p)) && p@ == "appid"@,
                Some(appid) => match query_param(url@, "redirect_uri"@) {
                    None => r matches Err(WeChatError::MissingParam(p)) && p@ == "redirect_uri"@,
                    Some(uri) => match query_param(url@, "state"@) {
                        None => r matches Err(WeChatError::MissingParam(p)) && p@ == "state"@,
                        Some(st) => r matches Ok(params) && params.appid@ == appid
                            && params.redirect_uri@ == uri && params.state@ == st,
                    },
                },
            },
    {
        let pairs = parse_query_pairs(url);
        let appid = match lookup_pair(&pairs, "appid") {
            Some(v) => v,
            None => {
                return Err(WeChatError::MissingParam(String::from_str("appid")));
            },
        };
        let redirect_uri = match lookup_pair(&pairs, "redirect_uri") {
            Some(v) => v,
            None => {
                return Err(WeChatError::MissingParam(String::from_str("redirect_uri")));
            },
        };
        let state = match lookup_pair(&pairs, "state") {
            Some(v) => v,
            None => {
                return Err(WeChatError::MissingParam(String::from_str("state")));
            },
        };
        Ok(WechatAuthParams { appid, redirect_uri, state })
    }

    /// Builds the QR-connect URL: the open-platform endpoint with the three
    /// OAuth parameters percent-encoded and the fixed QR-page settings.
    pub fn build_qr_xml_url(&self) -> (r: String)
        ensures
            r@ == qr_xml_url_spec(self.appid@, self.redirect_uri@, self.state@),
    {
        let mut r = String::from_str("https://open.weixin.qq.com/connect/qrconnect?appid=");
        r.append(percent_encode(self.appid.as_str()).as_str());
        r.append("&redirect_uri=");
        r.append(percent_encode(self.redirect_uri.as_str()).as_str());
        r.append("&state=");
        r.append(percent_encode(self.state.as_str()).as_str());
        r.append("&response_type=code&scope=snsapi_login&f=xml&stylelite=1&fast_login=1");
        r
    }

    /// Appends `code` and `state` to the redirect URI, with `&` when the
    /// URI already carries a query and `?` otherwise.
    pub fn build_callback_url(&self, wx_code: &str) -> (r: String)
        ensures
            r@ == callback_url_spec(self.redirect_uri@, wx_code@, self.state@),
    {
        let uri = self.redirect_uri.as_str();
        let n = uri.unicode_len();
        let qpos = find_char_from(uri, '?', 0);
        proof {
            lemma_first_idx(uri@, '?', 0);
        }
        let mut r = String::from_str("");
        r.append(uri);
        if qpos < n {
            proof {
                assert(self.redirect_uri@.contains('?'));
            }
            r.append("&");
        } else {
            proof {
                assert(!self.redirect_uri@.contains('?')) by {
                    if self.redirect_uri@.contains('?') {
                        let k = choose|k: int|
                            0 <= k < self.redirect_uri@.len() && self.redirect_uri@[k] == '?';
                        assert(uri@[k] == '?');
                    }
                }
            }
            r.append("?");
        }
        r.append("code=");
        r.append(wx_code);
        r.append("&state=");
        r.append(self.state.as_str());
        proof {
            reveal_strlit("");
            assert(Seq::<char>::empty() + self.redirect_uri@ =~= self.redirect_uri@);
            assert(r@ =~= callback_url_spec(self.redirect_uri@, wx_code@, self.state@));
        }
        r
    }
}

/// The QR-connect URL for the given OAuth parameters.
pub open spec fn qr_xml_url_spec(appid: Seq<char>, redirect_uri: Seq<char>, state: Seq<char>) -> Seq<
    char,
> {
    "https://open.weixin.qq.com/connect/qrconnect?appid="@ + percent_encoded(appid)
        + "&redirect_uri="@ + percent_encoded(redirect_uri) + "&state="@ + percent_encoded(state)
        + "&response_type=code&scope=snsapi_login&f=xml&stylelite=1&fast_login=1"@
}

/// The code-exchange callback URL: the redirect URI with `code` and `state`
/// appended, behind `&` when the URI already has a `?` and behind `?`
/// otherwise.
pub open spec fn callback_url_spec(redirect_uri: Seq<char>, code: Seq<char>, state: Seq<char>) -> Seq<
    char,
> {
    let sep: Seq<char> = if redirect_uri.contains('?') {
        "&"@
    } else {
        "?"@
    };
    redirect_uri + sep + "code="@ + code + "&state="@ + state
}

/// The confirmation-page URL whose QR rendering the user scans.
pub fn build_confirm_url(uuid: &str) -> (r: String)
    ensures
        r@ == "https://open.weixin.qq.com/connect/confirm?uuid="@ + uuid@,
{
    let mut r = String::from_str("https://open.weixin.qq.com/connect/confirm?uuid=");
    r.append(uuid);
    r
}

/// The long-poll URL for scan status: the bridge's polling endpoint with
/// the QR session's uuid, a millisecond cache-buster, and, when a status
/// was already observed, the `last` code the server must not repeat.
pub open spec fn poll_url_spec(uuid: Seq<char>, last_code: Option<Seq<char>>, millis: nat) -> Seq<
    char,
> {
    let base = "https://lp.open.weixin.qq.com/connect/l/qrconnect?uuid="@ + uuid + "&_="@ + dec_str(
        millis,
    );
    match last_code {
        None => base,
        Some(lc) => base + "&last="@ + lc,
    }
}

/// The view of an optional string slice.
pub open spec fn opt_str_view(o: Option<&str>) -> Option<Seq<char>> {
    match o {
        Some(s) => Some(s@),
        None => None,
    }
}

/// Builds the polling URL for the given moment, taken as milliseconds
/// since the Unix epoch.
pub fn build_poll_url_at(uuid: &str, last_code: Option<&str>, millis: u128) -> (r: String)
    ensures
        r@ == poll_url_spec(uuid@, opt_str_view(last_code), millis as nat),
{
    let mut r = String::from_str("https://lp.open.weixin.qq.com/connect/l/qrconnect?uuid=");
    r.append(uuid);
    r.append("&_=");
    r.append(u128_to_string(millis).as_str());
    match last_code {
        None => r,
        Some(code) => {
            r.append("&last=");
            r.append(code);
            r
        },
    }
}

/// Relies on std::time (`SystemTime::now`, `duration_since` of the Unix
/// epoch, `Duration::as_millis`): the wall clock, of whose reading nothing
/// is promised; a clock standing before the epoch reads zero.
#[verifier::external_body]
fn now_unix_millis() -> u128 {
    std::time::SystemTime::now().duration_since(std::time::UNIX_EPOCH).unwrap_or(
        std::time::Duration::from_secs(0),
    ).as_millis()
}

/// Builds the polling URL with the clock's current reading as the
/// cache-buster; everything else about the URL is fixed by the arguments.
pub fn build_poll_url(uuid: &str, last_code: Option<&str>) -> (r: String)
    ensures
        exists|t: nat| r@ == poll_url_spec(uuid@, opt_str_view(last_code), t),
{
    let millis = now_unix_millis();
    let r = build_poll_url_at(uuid, last_code, millis);
    proof {
        assert(r@ == poll_url_spec(uuid@, opt_str_view(last_code), millis as nat));
    }
    r
}

/// What one poll of the bridge reported.
#[derive(Debug, Clone, Copy, PartialEq, Eq, Structural)]
pub enum ScanStatus {
    /// The code has not been scanned yet.
    Waiting,
    /// Scanned; the user has yet to confirm on the phone.
    Scanned,
    /// The user confirmed the login.
    Confirmed,
    /// The code expired before confirmation.
    Expired,
    /// A status code outside the protocol's four.
    Unknown(i32),
}

/// One poll's outcome: the status, and the exchange code when (and only
/// when) the scan was confirmed.
#[derive(Debug, Clone, PartialEq, Eq)]
pub struct ScanResult {
    pub status: ScanStatus,
    pub wx_code: Option<String>,
}

/// The marker before the status code in a poll response.
pub open spec fn errcode_prefix() -> Seq<char> {
    "window.wx_errcode="@
}

/// True when the status-code marker stands at `i` with a digit right after
/// it: the places the status-code search can succeed.
pub open spec fn errcode_match_at(text: Seq<char>, i: int) -> bool {
    &&& crate::strutil::matches_at(text, errcode_prefix(), i)
    &&& i + errcode_prefix().len() < text.len()
    &&& crate::strutil::is_digit_char(text[i + errcode_prefix().len()])
}

/// The first place the status-code search succeeds at or after `from`.
pub open spec fn first_errcode_pos(text: Seq<char>, from: int) -> Option<int>
    decreases text.len() - from,
    when 0 <= from <= text.len()
{
    if from >= text.len() {
        None
    } else if errcode_match_at(text, from) {
        Some(from)
    } else {
        first_errcode_pos(text, from + 1)
    }
}

/// The unbroken run of digit characters starting at `from`.
pub open spec fn digit_run(text: Seq<char>, from: int) -> Seq<char>
    decreases text.len() - from,
    when 0 <= from <= text.len()
{
    if from < text.len() && crate::strutil::is_digit_char(text[from]) {
        seq![text[from]] + digit_run(text, from + 1)
    } else {
        Seq::empty()
    }
}

/// The digit run is exactly the maximal all-digit range starting at `from`.
proof fn lemma_digit_run_range(text: Seq<char>, from: int)
    requires
        0 <= from <= text.len(),
    ensures
        from + digit_run(text, from).len() <= text.len(),
        digit_run(text, from) =~= text.subrange(from, from + digit_run(text, from).len()),
        forall|k: int|
            from <= k < from + digit_run(text, from).len() ==> crate::strutil::is_digit_char(
                text[k],
            ),
        from + digit_run(text, from).len() < text.len() ==> !crate::strutil::is_digit_char(
            text[from + digit_run(text, from).len()],
        ),
    decreases text.len() - from,
{
    if from < text.len() && crate::strutil::is_digit_char(text[from]) {
        lemma_digit_run_range(text, from + 1);
    }
}

/// The code a digit run denotes, with the original's overflow rule: a
/// value that does not fit a 32-bit signed integer counts as zero.
pub open spec fn capped_code(ds: Seq<char>) -> int {
    if crate::strutil::digits_val(ds) > 0x7fff_ffff {
        0
    } else {
        crate::strutil::digits_val(ds) as int
    }
}

/// The protocol's reading of a status code: 408 waiting, 404 scanned,
/// 405 confirmed, 402 expired, anything else unknown.
pub open spec fn status_of_code(code: int) -> ScanStatus {
    if code == 408 {
        ScanStatus::Waiting
    } else if code == 404 {
        ScanStatus::Scanned
    } else if code == 405 {
        ScanStatus::Confirmed
    } else if code == 402 {
        ScanStatus::Expired
    } else {
        ScanStatus::Unknown(code as i32)
    }
}

/// The status a poll response denotes: the first status-code marker
/// followed by a digit supplies the code; a response without one counts
/// as unknown with code zero.
pub open spec fn spec_scan_status(text: Seq<char>) -> ScanStatus {
    match first_errcode_pos(text, 0) {
        None => ScanStatus::Unknown(0),
        Some(i) => status_of_code(capped_code(digit_run(text, i + errcode_prefix().len()))),
    }
}

/// The marker before the exchange code in a poll response.
pub open spec fn wxcode_prefix() -> Seq<char> {
    "window.wx_code="@
}

/// True for the two quote characters the exchange code may be wrapped in.
pub open spec fn is_quote_char(c: char) -> bool {
    c == '\'' || c == '"'
}

/// The first index at or after `from` holding a quote or a line break, or
/// the text's length when there is none: where a quoted value must end.
pub open spec fn first_stop_idx(text: Seq<char>, from: int) -> int
    decreases text.len() - from,
    when 0 <= from <= text.len()
{
    if from >= text.len() {
        text.len() as int
    } else if is_quote_char(text[from]) || text[from] == '\n' {
        from
    } else {
        first_stop_idx(text, from + 1)
    }
}

/// Nothing before the first stop is a quote or a line break, and the index
/// is in range.
proof fn lemma_first_stop_idx(text: Seq<char>, from: int)
    requires
        0 <= from <= text.len(),
    ensures
        from <= first_stop_idx(text, from) <= text.len(),
        first_stop_idx(text, from) < text.len() ==> (is_quote_char(text[first_stop_idx(text, from)])
            || text[first_stop_idx(text, from)] == '\n'),
        forall|k: int|
            from <= k < first_stop_idx(text, from) ==> (!is_quote_char(text[k]) && text[k] != '\n'),
    decreases text.len() - from,
{
    if from < text.len() && !(is_quote_char(text[from]) || text[from] == '\n') {
        lemma_first_stop_idx(text, from + 1);
    }
}

/// True when the exchange-code search succeeds at `i`: the marker, an
/// opening quote, at least one character of content without a line break,
/// and a closing quote.
pub open spec fn wxcode_match_at(text: Seq<char>, i: int) -> bool {
    let p = wxcode_prefix().len() as int;
    &&& crate::strutil::matches_at(text, wxcode_prefix(), i)
    &&& i + p < text.len()
    &&& is_quote_char(text[i + p])
    &&& {
        let j = first_stop_idx(text, i + p + 1);
        &&& j < text.len()
        &&& is_quote_char(text[j])
        &&& j > i + p + 1
    }
}

/// The first place the exchange-code search succeeds at or after `from`.
pub open spec fn first_wxcode_pos(text: Seq<char>, from: int) -> Option<int>
    decreases text.len() - from,
    when 0 <= from <= text.len()
{
    if from >= text.len() {
        None
    } else if wxcode_match_at(text, from) {
        Some(from)
    } else {
        first_wxcode_pos(text, from + 1)
    }
}

/// The exchange code captured at a successful match position: everything
/// between the opening quote and the stop that closes it.
pub open spec fn wxcode_content(text: Seq<char>, i: int) -> Seq<char> {
    let start = i + wxcode_prefix().len() + 1;
    text.subrange(start as int, first_stop_idx(text, start as int))
}

/// Tests the status-code search at one position.
fn errcode_match(text: &str, n: usize, i: usize) -> (r: bool)
    requires
        n == text@.len(),
        i <= n,
    ensures
        r == errcode_match_at(text@, i as int),
{
    proof {
        reveal_strlit("window.wx_errcode=");
    }
    if !crate::strutil::str_matches_at(text, i, "window.wx_errcode=") {
        return false;
    }
    if n - i <= 18 {
        return false;
    }
    crate::strutil::is_digit(text.get_char(i + 18))
}

/// Tests the exchange-code search at one position.
fn wxcode_match(text: &str, n: usize, i: usize) -> (r: bool)
    requires
        n == text@.len(),
        i <= n,
    ensures
        r == wxcode_match_at(text@, i as int),
{
    proof {
        reveal_strlit("window.wx_code=");
    }
    if !crate::strutil::str_matches_at(text, i, "window.wx_code=") {
        return false;
    }
    if n - i <= 15 {
        return false;
    }
    let open = text.get_char(i + 15);
    if !(open == '\'' || open == '"') {
        return false;
    }
    let j = find_stop_from(text, n, i + 16);
    proof {
        lemma_first_stop_idx(text@, i + 16);
    }
    if j >= n {
        return false;
    }
    let close = text.get_char(j);
    (close == '\'' || close == '"') && j > i + 16
}

/// Finds the first quote or line break at or after `from`.
fn find_stop_from(text: &str, n: usize, from: usize) -> (r: usize)
    requires
        n == text@.len(),
        from <= n,
    ensures
        r == first_stop_idx(text@, from as int),
{
    let mut j = from;
    while j < n
        invariant
            from <= j <= n,
            n == text@.len(),
            first_stop_idx(text@, from as int) == first_stop_idx(text@, j as int),
        decreases n - j,
    {
        let c = text.get_char(j);
        if c == '\'' || c == '"' || c == '\n' {
            return j;
        }
        j = j + 1;
    }
    n
}

/// Finds the first place the status-code search succeeds.
fn find_errcode(text: &str, n: usize) -> (r: Option<usize>)
    requires
        n == text@.len(),
    ensures
        match r {
            Some(p) => first_errcode_pos(text@, 0) == Some(p as int) && p < n && errcode_match_at(
                text@,
                p as int,
            ),
            None => first_errcode_pos(text@, 0) is None,
        },
{
    let mut j: usize = 0;
    while j < n
        invariant
            j <= n,
            n == text@.len(),
            first_errcode_pos(text@, 0) == first_errcode_pos(text@, j as int),
        decreases n - j,
    {
        if errcode_match(text, n, j) {
            return Some(j);
        }
        j = j + 1;
    }
    None
}

/// Finds the first place the exchange-code search succeeds.
fn find_wxcode(text: &str, n: usize) -> (r: Option<usize>)
    requires
        n == text@.len(),
    ensures
        match r {
            Some(p) => first_wxcode_pos(text@, 0) == Some(p as int) && p < n && wxcode_match_at(
                text@,
                p as int,
            ),
            None => first_wxcode_pos(text@, 0) is None,
        },
{
    let mut j: usize = 0;
    while j < n
        invariant
            j <= n,
            n == text@.len(),
            first_wxcode_pos(text@, 0) == first_wxcode_pos(text@, j as int),
        decreases n - j,
    {
        if wxcode_match(text, n, j) {
            return Some(j);
        }
        j = j + 1;
    }
    None
}

/// Where the polling state machine stands: the code has not been scanned
/// yet, or it was scanned and confirmation is awaited. Confirmation and
/// expiry end the loop and need no phase.
#[derive(Debug, Clone, Copy, PartialEq, Eq, Structural)]
pub enum PollPhase {
    Waiting,
    Scanned,
}

/// What one poll decides: keep polling in the given phase, finish with
/// the exchange code, or give up on an expired code.
#[derive(Debug, Clone, PartialEq, Eq)]
pub enum PollOutcome {
    Continue(PollPhase),
    Done(String),
    Expired,
}

/// One step of the polling state machine. A confirmed scan ends the loop
/// with its code (a confirmed scan without one is a protocol violation);
/// an expired code ends it without one; a scanned status moves to (or
/// stays in) the scanned phase; waiting and unknown statuses keep the
/// current phase, so an unknown code is treated as waiting.
pub fn poll_step(phase: PollPhase, result: &ScanResult) -> (r: Result<PollOutcome, WeChatError>)
    ensures
        match result.status {
            ScanStatus::Confirmed => match result.wx_code {
                Some(code) => r matches Ok(PollOutcome::Done(c)) && c@ == code@,
                None => r == Err::<PollOutcome, WeChatError>(WeChatError::MissingWxCode),
            },
            ScanStatus::Expired => r == Ok::<PollOutcome, WeChatError>(PollOutcome::Expired),
            ScanStatus::Scanned => r == Ok::<PollOutcome, WeChatError>(
                PollOutcome::Continue(PollPhase::Scanned),
            ),
            ScanStatus::Waiting => r == Ok::<PollOutcome, WeChatError>(
                PollOutcome::Continue(phase),
            ),
            ScanStatus::Unknown(_) => r == Ok::<PollOutcome, WeChatError>(
                PollOutcome::Continue(phase),
            ),
        },
{
    match result.status {
        ScanStatus::Confirmed => match &result.wx_code {
            Some(code) => Ok(PollOutcome::Done(code.clone())),
            None => Err(WeChatError::MissingWxCode),
        },
        ScanStatus::Expired => Ok(PollOutcome::Expired),
        ScanStatus::Scanned => Ok(PollOutcome::Continue(PollPhase::Scanned)),
        ScanStatus::Waiting => Ok(PollOutcome::Continue(phase)),
        ScanStatus::Unknown(_) => Ok(PollOutcome::Continue(phase)),
    }
}

/// The `last` code the next poll must carry: after a scan was observed,
/// the long-poll server is told not to repeat the scanned status.
pub fn poll_last_code(phase: PollPhase) -> (r: Option<String>)
    ensures
        match phase {
            PollPhase::Scanned => r matches Some(s) && s@ == "404"@,
            PollPhase::Waiting => r is None,
        },
{
    match phase {
        PollPhase::Scanned => Some(String::from_str("404")),
        PollPhase::Waiting => None,
    }
}

/// Reads the scan status out of a poll response's script-like body. The
/// first status-code marker followed by digits decides the status (absent
/// marker: unknown, code zero). Only a confirmed status carries the
/// exchange code, read from the first quoted code marker; a confirmed
/// status without one is a protocol violation and the one error this
/// parser reports.
pub fn parse_scan_status(text: &str) -> (r: Result<ScanResult, WeChatError>)
    ensures
        spec_scan_status(text@) != ScanStatus::Confirmed ==> (r matches Ok(res) && res.status
            == spec_scan_status(text@) && res.wx_code is None),
        spec_scan_status(text@) == ScanStatus::Confirmed ==> match first_wxcode_pos(text@, 0) {
            Some(i) => r matches Ok(res) && res.status == ScanStatus::Confirmed && (res.wx_code
                matches Some(c) && c@ == wxcode_content(text@, i)),
            None => r == Err::<ScanResult, WeChatError>(WeChatError::MissingWxCode),
        },
{
    let n = text.unicode_len();
    let start = match find_errcode(text, n) {
        None => {
            return Ok(ScanResult { status: ScanStatus::Unknown(0), wx_code: None });
        },
        Some(p) => p,
    };
    proof {
        reveal_strlit("window.wx_errcode=");
    }
    let dstart = start + 18;
    proof {
        lemma_digit_run_range(text@, dstart as int);
    }
    let ghost run = digit_run(text@, dstart as int);
    let mut e = dstart;
    while e < n && crate::strutil::is_digit(text.get_char(e))
        invariant
            dstart <= e <= n,
            n == text@.len(),
            run == digit_run(text@, dstart as int),
            e - dstart <= run.len(),
            forall|k: int| dstart <= k < e ==> crate::strutil::is_digit_char(text@[k]),
        decreases n - e,
    {
        proof {
            if e - dstart == run.len() {
                lemma_digit_run_range(text@, dstart as int);
                assert(!crate::strutil::is_digit_char(text@[e as int]));
            }
        }
        e = e + 1;
    }
    proof {
        lemma_digit_run_range(text@, dstart as int);
        assert(e - dstart == run.len()) by {
            if e - dstart < run.len() {
                assert(crate::strutil::is_digit_char(text@[e as int]));
            }
        }
        assert(run =~= text@.subrange(dstart as int, e as int));
    }
    let mut acc: u64 = 0;
    let mut k = dstart;
    proof {
        assert(text@.subrange(dstart as int, dstart as int) =~= Seq::<char>::empty());
    }
    while k < e
        invariant
            dstart <= k <= e <= n,
            n == text@.len(),
            forall|t: int| dstart <= t < e ==> crate::strutil::is_digit_char(text@[t]),
            ({
                let v = crate::strutil::digits_val(text@.subrange(dstart as int, k as int));
                (v <= 0x7fff_ffff && acc == v) || (v > 0x7fff_ffff && acc == 0x8000_0000)
            }),
        decreases e - k,
    {
        let c = text.get_char(k);
        let d = (c as u32 - 48) as u64;
        let na = if acc > 0x7fff_ffff {
            0x8000_0000u64
        } else if acc * 10 + d > 0x7fff_ffff {
            0x8000_0000u64
        } else {
            acc * 10 + d
        };
        proof {
            let pre = text@.subrange(dstart as int, k as int);
            let post = text@.subrange(dstart as int, k + 1);
            assert(post.drop_last() =~= pre);
            assert(post.last() == text@[k as int]);
            assert(crate::strutil::digits_val(post) == crate::strutil::digits_val(pre) * 10
                + crate::strutil::digit_val(text@[k as int]));
            if crate::strutil::digits_val(pre) > 0x7fff_ffff {
                assert(crate::strutil::digits_val(pre) * 10 >= crate::strutil::digits_val(pre))
                    by (nonlinear_arith);
            }
        }
        acc = na;
        k = k + 1;
    }
    let code: i32 = if acc > 0x7fff_ffff {
        0
    } else {
        acc as i32
    };
    proof {
        assert(code as int == capped_code(run));
    }
    let status: ScanStatus = if code == 408 {
        ScanStatus::Waiting
    } else if code == 404 {
        ScanStatus::Scanned
    } else if code == 405 {
        ScanStatus::Confirmed
    } else if code == 402 {
        ScanStatus::Expired
    } else {
        ScanStatus::Unknown(code)
    };
    proof {
        assert(status == spec_scan_status(text@));
    }
    if code != 405 {
        return Ok(ScanResult { status, wx_code: None });
    }
    match find_wxcode(text, n) {
        None => Err(WeChatError::MissingWxCode),
        Some(p) => {
            proof {
                reveal_strlit("window.wx_code=");
                lemma_first_stop_idx(text@, p + 16);
            }
            let stop = find_stop_from(text, n, p + 16);
            let content = text.substring_char(p + 16, stop).to_owned();
            proof {
                assert(content@ == wxcode_content(text@, p as int));
            }
            Ok(ScanResult { status: ScanStatus::Confirmed, wx_code: Some(content) })
        },
    }
}

} // verus!
