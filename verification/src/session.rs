use vstd::prelude::*;
use crate::auth::cookie_of;
use crate::auth::find_cookie;
use crate::config::Config;
use crate::text::{int_decimal, push_i64};

verus! {

/// Sessions of signed-in users, kept in the store under the hash of their
/// token.
pub struct SessionService;

/// `; Secure` when cookies are only sent over HTTPS.
pub open spec fn secure_suffix(secure: bool) -> Seq<char> {
    if secure { "; Secure"@ } else { Seq::empty() }
}

/// The `Set-Cookie` value that hands a session token to the browser for
/// `ttl_hours` hours.
pub open spec fn session_cookie_text(token: Seq<char>, ttl_hours: int, secure: bool) -> Seq<char> {
    "linkdock_session="@ + token + "; Path=/; HttpOnly; SameSite=Lax; Max-Age="@
        + int_decimal(ttl_hours * 3600) + secure_suffix(secure)
}

/// The `Set-Cookie` value that makes the browser drop the session cookie.
pub open spec fn cleared_cookie_text(secure: bool) -> Seq<char> {
    "linkdock_session=; Path=/; HttpOnly; SameSite=Lax; Max-Age=0"@ + secure_suffix(secure)
}

pub fn build_session_cookie(token: &str, config: &Config) -> (c: String)
    requires
        i64::MIN <= config.session_ttl_hours * 3600 <= i64::MAX,
    ensures
        c@ == session_cookie_text(token@, config.session_ttl_hours as int, config.cookie_secure),
{
    let mut c = String::from_str("linkdock_session=");
    c.append(token);
    c.append("; Path=/; HttpOnly; SameSite=Lax; Max-Age=");
    push_i64(&mut c, config.session_ttl_hours * 3600);
    if config.cookie_secure {
        c.append("; Secure");
    }
    c
}

pub fn clear_session_cookie(config: &Config) -> (c: String)
    ensures
        c@ == cleared_cookie_text(config.cookie_secure),
{
    let mut c = String::from_str("linkdock_session=; Path=/; HttpOnly; SameSite=Lax; Max-Age=0");
    if config.cookie_secure {
        c.append("; Secure");
    }
    c
}

/// The session token of the `linkdock_session` cookie in a `Cookie` header value.
pub fn extract_session_cookie(cookie: Option<&str>) -> (r: Option<String>)
    ensures
        match cookie {
            None => r is None,
            Some(h) => match r {
                Some(t) => cookie_of(h@, "linkdock_session="@) == Some(t@),
                None => cookie_of(h@, "linkdock_session="@) is None,
            },
        },
{
    match cookie {
        None => None,
        Some(h) => find_cookie(h, "linkdock_session="),
    }
}

} // verus!
