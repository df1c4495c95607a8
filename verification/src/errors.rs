use vstd::prelude::*;

verus! {

/// Reason a password could not be encrypted.
#[derive(Debug, Clone, PartialEq, Eq)]
pub enum CryptoError {
    /// The salt's byte length is not one of the supported cipher key sizes
    /// (16, 24 or 32 bytes); the offending length is carried along.
    InvalidKeyLength(usize),
}

/// Reason a login page could not be understood.
#[derive(Debug, Clone, PartialEq, Eq)]
pub enum ParseError {
    /// A required form field (named here) was absent from the page.
    MissingField(String),
}

/// Reason a QR-connect XML document could not be understood.
#[derive(Debug, Clone, PartialEq, Eq)]
pub enum XmlParseError {
    /// The document's tag structure is broken (an unterminated tag,
    /// comment or character-data section).
    NotWellFormed,
    /// The document holds no `uuid` element with text content.
    UuidNotFound,
}

/// Reason a step of the QR-login handshake failed.
#[derive(Debug, Clone, PartialEq, Eq)]
pub enum WeChatError {
    /// The redirect URL's query string lacks the named OAuth parameter.
    MissingParam(String),
    /// The poll response reported a confirmed scan but carried no code,
    /// which the protocol forbids.
    MissingWxCode,
    /// Any other break in the handshake: a redirect landing off the
    /// open-platform origin, a failed QR rendering, an expired code, or a
    /// transport failure while polling; carries a description.
    Protocol(String),
}

/// The cookie-jar operation that failed.
#[derive(Debug, Clone, PartialEq, Eq)]
pub enum CookieError {
    Read,
    Write,
    Serialize,
    Deserialize,
}

/// Every failure the client can report, one variant per failure family.
#[derive(Debug, Clone, PartialEq, Eq)]
pub enum UestcClientError {
    /// The transport could not complete a request.
    NetworkError(String),
    /// The login page's HTML lacked an expected part.
    HtmlParseError(ParseError),
    /// The QR-connect XML could not be understood.
    XmlParseError(XmlParseError),
    /// The salt handed to the password encryptor is unusable as a key.
    CryptoError(CryptoError),
    /// The portal rejected the login attempt; carries the portal's own
    /// banner text or a synthesized status message.
    LoginFailed(String),
    /// The portal rejected the logout request.
    LogoutFailed(String),
    /// A cookie-jar load or save failed.
    CookieError(CookieError),
    /// The QR-login handshake failed.
    WeChatError(WeChatError),
    /// A request that needs an authenticated session found none.
    SessionExpired,
    /// The HTTP client could not be constructed.
    ClientInitError(String),
}

} // verus!
