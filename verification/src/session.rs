//! The orchestrator's decisions, separated from the transport that carries
//! them out: merging credentials into the scraped form, judging a login
//! response, and probing whether a session is still alive.
use vstd::prelude::*;

use crate::parser::{upsert, upsert_field};
use crate::query::pairs_view;
use crate::strutil::{find_pat_from, first_pat_idx, lemma_first_pat_idx, str_eq, str_matches_at};
use vstd::string::{StrSliceExecFns, StringExecFns};

verus! {

/// Binds `username` and the encrypted password into the scraped form
/// fields, overwriting what the page pre-filled under those two ids.
pub fn merge_credentials(form_data: &mut Vec<(String, String)>, username: &str, encrypted_password: &str)
    ensures
        pairs_view(final(form_data)@) == upsert(
            upsert(pairs_view(old(form_data)@), "username"@, username@),
            "password"@,
            encrypted_password@,
        ),
{
    upsert_field(form_data, String::from_str("username"), String::from_str(username));
    upsert_field(form_data, String::from_str("password"), String::from_str(encrypted_password));
}

/// True when a URL holds the identity server's login path: landing there
/// again means the portal did not accept the attempt.
pub open spec fn url_has_login_path(url: Seq<char>) -> bool {
    first_pat_idx(url, "authserver/login"@, 0) < url.len()
}

/// Judges a login response: the submission succeeded exactly when the
/// response status was acceptable and the final resolved URL left the
/// login page behind.
pub fn login_succeeded(status_ok: bool, final_url: &str) -> (r: bool)
    ensures
        r == (status_ok && !url_has_login_path(final_url@)),
{
    if !status_ok {
        return false;
    }
    let n = final_url.unicode_len();
    proof {
        lemma_first_pat_idx(final_url@, "authserver/login"@, 0);
    }
    find_pat_from(final_url, "authserver/login", 0) >= n
}

/// The fixed address the portal resolves an authenticated probe to.
pub open spec fn personal_center_url() -> Seq<char> {
    "https://eportal.uestc.edu.cn/new/index.html?browser=no"@
}

/// Judges a session probe: the session is active exactly when the probe's
/// final resolved URL is the personal-center address; anything else,
/// including a transport failure upstream, counts as inactive.
pub fn session_active(final_url: &str) -> (r: bool)
    ensures
        r == (final_url@ == personal_center_url()),
{
    str_eq(final_url, "https://eportal.uestc.edu.cn/new/index.html?browser=no")
}

/// The chat app's open-platform origin, where the combined-login redirect
/// must land for QR login to proceed.
pub open spec fn wechat_open_origin() -> Seq<char> {
    "https://open.weixin.qq.com"@
}

/// Judges the combined-login redirect: QR login can proceed exactly when
/// the final URL sits on the open-platform origin.
pub fn on_wechat_domain(final_url: &str) -> (r: bool)
    ensures
        r == crate::strutil::matches_at(final_url@, wechat_open_origin(), 0),
{
    str_matches_at(final_url, 0, "https://open.weixin.qq.com")
}

} // verus!
