//! Where the tool connects and with which token.
use vstd::prelude::*;
use vstd::utf8::encode_utf8;

use crate::error::UsageError;
use crate::text::owned;

verus! {

/// The token and the GitLab instance to use.
pub struct Config {
    pub token: String,
    pub base_url: String,
}

/// The instance used when none is given.
pub open spec fn default_url() -> Seq<char> {
    "https://gitlab.com"@
}

/// A byte that an HTTP header value may hold: visible ASCII, space, tab,
/// and every byte from 128 up.
pub open spec fn header_byte_ok(b: u8) -> bool {
    (b >= 32 && b != 127) || b == 9
}

/// Every byte of `bytes` may stand in an HTTP header value.
pub open spec fn header_value_ok(bytes: Seq<u8>) -> bool {
    forall|i: int| 0 <= i < bytes.len() ==> header_byte_ok(#[trigger] bytes[i])
}

/// `HeaderValue::from_str` (of the `http` crate, as `reqwest` exports it):
/// succeeds exactly when every UTF-8 byte of `s` is a tab or at least 32
/// and not 127.
#[verifier::external_body]
fn header_value_accepts(s: &str) -> (ok: bool)
    ensures
        ok == header_value_ok(encode_utf8(s@)),
{
    match reqwest::header::HeaderValue::from_str(s) {
        Ok(_) => true,
        Err(_) => false,
    }
}

impl Config {
    /// The configuration from the `--token` and `--url` values (or their
    /// environment variables): a token is required and must not be empty;
    /// the URL defaults to `https://gitlab.com`.
    pub fn from_args(token: Option<String>, url: Option<String>) -> (r: Result<Config, UsageError>)
        ensures
            match token {
                Some(t) if t@.len() > 0 => r matches Ok(c) && c.token@ == t@ && c.base_url@ == (
                match url {
                    Some(u) => u@,
                    None => default_url(),
                }),
                _ => r == Err::<Config, UsageError>(UsageError::MissingToken),
            },
    {
        let token = match token {
            Some(t) => t,
            None => String::new(),
        };
        if token.as_str().is_empty() {
            return Err(UsageError::MissingToken);
        }
        let base_url = match url {
            Some(u) => u,
            None => owned("https://gitlab.com"),
        };
        Ok(Config { token, base_url })
    }

    /// Whether the token can be sent as the `PRIVATE-TOKEN` header: the
    /// client cannot be built with a token that an HTTP header value cannot
    /// hold.
    pub fn check_token(&self) -> (r: Result<(), UsageError>)
        ensures
            r is Ok <==> header_value_ok(encode_utf8(self.token@)),
            !(r is Ok) ==> r == Err::<(), UsageError>(UsageError::InvalidToken),
    {
        if header_value_accepts(self.token.as_str()) {
            Ok(())
        } else {
            Err(UsageError::InvalidToken)
        }
    }
}

} // verus!
