//! Email addresses and the SMTP settings of outgoing mail, whose password is
//! kept encrypted with the server's secret.
use vstd::prelude::*;
use aes_gcm::aead::{Aead, KeyInit};
use base64::Engine;
use rand::RngCore;
use crate::error::{AppError, AppResult, ErrorV, validation};
use crate::split::{pieces, pieces_of};
use crate::text::{
    byte_len, chars_of, contains, is_whitespace, is_ws, lowercase, str_eq, str_lower, trim,
    trimmed, utf8_len,
};

verus! {

/// The SMTP settings as they are shown: the password only as configured or
/// not.
#[derive(Debug, Clone)]
pub struct SmtpSettings {
    pub enabled: bool,
    pub host: String,
    pub port: u16,
    pub security: String,
    pub username: String,
    pub password_configured: bool,
    pub from_email: String,
    pub from_name: String,
}

/// New SMTP settings; a password left out keeps the stored one, an empty one
/// removes it.
#[derive(Debug)]
pub struct UpdateSmtpSettings {
    pub enabled: bool,
    pub host: String,
    pub port: u16,
    pub security: String,
    pub username: String,
    pub password: Option<String>,
    pub from_email: String,
    pub from_name: String,
}

/// The service that sends mail.
pub struct EmailService;

/// The normalized form of an email address, or why it is refused: trimmed
/// and lower-cased, at most 254 bytes, exactly one `@` with a non-empty local
/// part before it and a domain with a `.` after it, and no whitespace.
pub open spec fn email_of(value: Seq<char>) -> Option<Seq<char>> {
    let email = str_lower(trim(value));
    let parts = pieces(email, '@');
    let local = parts[0];
    let domain = if parts.len() > 1 { parts[1] } else { Seq::empty() };
    if utf8_len(email) > 254 || local.len() == 0 || domain.len() == 0 || !domain.contains('.')
        || parts.len() > 2 || (exists|i: int| 0 <= i < email.len() && is_ws(#[trigger] email[i])) {
        None
    } else {
        Some(email)
    }
}

fn has_char(s: &Vec<char>, c: char) -> (b: bool)
    ensures
        b == s@.contains(c),
{
    let mut i: usize = 0;
    while i < s.len()
        invariant
            i <= s@.len(),
            forall|j: int| 0 <= j < i ==> s@[j] != c,
        decreases s.len() - i,
    {
        if s[i] == c {
            return true;
        }
        i = i + 1;
    }
    false
}

/// Normalizes an email address; `invalid email address` when it is not one.
pub fn normalize_email(value: &str) -> (r: AppResult<String>)
    ensures
        match email_of(value@) {
            Some(e) => r matches Ok(s) && s@ == e,
            None => r matches Err(e) && e@ == ErrorV::Validation("invalid email address"@),
        },
{
    let t = trimmed(value);
    let email = lowercase(t.as_str());
    let parts = pieces_of(email.as_str(), '@');
    proof {
        assert(crate::text::vecs_v(parts@)[0] == parts@[0]@);
    }
    let empty: Vec<char> = Vec::new();
    let local = &parts[0];
    let domain = if parts.len() > 1 { &parts[1] } else { &empty };
    proof {
        if parts@.len() > 1 {
            assert(crate::text::vecs_v(parts@)[1] == parts@[1]@);
        }
    }
    let cs = chars_of(email.as_str());
    let mut any_ws = false;
    let mut i: usize = 0;
    while i < cs.len()
        invariant
            i <= cs@.len(),
            any_ws == (exists|j: int| 0 <= j < i && is_ws(#[trigger] cs@[j])),
        decreases cs.len() - i,
    {
        if is_whitespace(cs[i]) {
            any_ws = true;
        }
        i = i + 1;
    }
    if byte_len(email.as_str()) > 254 || local.len() == 0 || domain.len() == 0 || !has_char(domain, '.')
        || parts.len() > 2 || any_ws {
        return Err(validation("invalid email address"));
    }
    Ok(email)
}

/// Why new SMTP settings are refused, if they are: the security mode is
/// `starttls`, `tls` or `none`; host and sender name are not blank; the
/// sender address is valid.
pub open spec fn smtp_settings_error(input: UpdateSmtpSettings) -> Option<Seq<char>> {
    let sec = input.security@;
    if !(sec == "starttls"@ || sec == "tls"@ || sec == "none"@) {
        Some("invalid SMTP security mode"@)
    } else if trim(input.host@).len() == 0 || trim(input.from_name@).len() == 0 {
        Some("SMTP host and sender name are required"@)
    } else if email_of(input.from_email@) is None {
        Some("invalid email address"@)
    } else {
        None
    }
}

/// Checks new SMTP settings.
pub fn validate_settings(input: &UpdateSmtpSettings) -> (r: AppResult<()>)
    ensures
        match smtp_settings_error(*input) {
            None => r is Ok,
            Some(m) => r matches Err(e) && e@ == ErrorV::Validation(m),
        },
{
    let sec = input.security.as_str();
    if !(str_eq(sec, "starttls") || str_eq(sec, "tls") || str_eq(sec, "none")) {
        return Err(validation("invalid SMTP security mode"));
    }
    let host = trimmed(input.host.as_str());
    let name = trimmed(input.from_name.as_str());
    if host.as_str().is_empty() || name.as_str().is_empty() {
        return Err(validation("SMTP host and sender name are required"));
    }
    match normalize_email(input.from_email.as_str()) {
        Ok(_) => Ok(()),
        Err(e) => Err(e),
    }
}

/// What an update does to the stored password.
#[derive(Debug)]
pub enum PasswordChange {
    /// Encrypt and store this new password.
    Replace(String),
    /// Remove the stored password.
    Clear,
    /// Keep the stored password.
    Keep,
}

/// A non-empty password replaces the stored one, an empty one removes it,
/// none keeps it.
pub fn password_change(password: &Option<String>) -> (c: PasswordChange)
    ensures
        match password {
            Some(p) => if p@.len() > 0 {
                c matches PasswordChange::Replace(q) && q@ == p@
            } else {
                c is Clear
            },
            None => c is Keep,
        },
{
    match password {
        Some(p) => if !p.as_str().is_empty() {
            PasswordChange::Replace(p.clone())
        } else {
            PasswordChange::Clear
        },
        None => PasswordChange::Keep,
    }
}

/// What AES-256-GCM seals `plaintext` to under `key` and `nonce`: the
/// ciphertext with its tag.
pub uninterp spec fn gcm_seal(key: Seq<u8>, nonce: Seq<u8>, plaintext: Seq<u8>) -> Seq<u8>;

/// What AES-256-GCM opens `ciphertext` to under `key` and `nonce`: the
/// plaintext, or `None` when the tag does not check.
pub uninterp spec fn gcm_open(key: Seq<u8>, nonce: Seq<u8>, ciphertext: Seq<u8>) -> Option<Seq<u8>>;

/// What base64's `STANDARD` engine encodes `bytes` to.
pub uninterp spec fn b64std(bytes: Seq<u8>) -> Seq<char>;

/// What base64's `STANDARD` engine decodes `s` to, or `None` when `s` is not
/// base64.
pub uninterp spec fn b64std_dec(s: Seq<char>) -> Option<Seq<u8>>;

pub open spec fn bytes_opt(o: Option<Vec<u8>>) -> Option<Seq<u8>> {
    match o {
        Some(v) => Some(v@),
        None => None,
    }
}

/// The largest plaintext that AES-GCM encrypts, in bytes: the 32-bit block
/// counter leaves `2^32 - 2` blocks of 16 bytes for the message.
pub open spec fn gcm_max_plaintext() -> nat {
    68719476704
}

/// aes-gcm's `P_MAX` (`1 << 36`): a longer plaintext is refused with an
/// error.
pub open spec fn gcm_p_max() -> nat {
    68719476736
}

/// aes-gcm's `Aes256Gcm::encrypt` of `plaintext` under a 32-byte key and a
/// 12-byte nonce: the ciphertext is named `gcm_seal`, and decryption under
/// the same key and nonce gives the plaintext back; the ciphertext is the
/// plaintext's length plus a 16-byte tag. A plaintext longer than `P_MAX`
/// is refused (`None`). Between `gcm_max_plaintext` and `P_MAX` the counter
/// mode runs out of key stream and panics, so those lengths are not admitted.
#[verifier::external_body]
fn gcm_encrypt(key: &[u8; 32], nonce: &[u8; 12], plaintext: &[u8]) -> (c: Option<Vec<u8>>)
    requires
        plaintext@.len() <= gcm_max_plaintext() || plaintext@.len() > gcm_p_max(),
    ensures
        c is Some <==> plaintext@.len() <= gcm_p_max(),
        c matches Some(v) ==> v@ == gcm_seal(key@, nonce@, plaintext@),
        c matches Some(v) ==> v@.len() == plaintext@.len() + 16,
        c matches Some(v) ==> gcm_open(key@, nonce@, v@) == Some(plaintext@),
{
    let cipher = aes_gcm::Aes256Gcm::new_from_slice(key).expect("32-byte key");
    cipher.encrypt(aes_gcm::Nonce::from_slice(nonce), plaintext).ok()
}

/// aes-gcm's `Aes256Gcm::decrypt` of `ciphertext` under a 32-byte key and a
/// 12-byte nonce; the result is named `gcm_open`.
#[verifier::external_body]
fn gcm_decrypt(key: &[u8; 32], nonce: &[u8], ciphertext: &[u8]) -> (p: Option<Vec<u8>>)
    requires
        nonce@.len() == 12,
    ensures
        bytes_opt(p) == gcm_open(key@, nonce@, ciphertext@),
{
    let cipher = aes_gcm::Aes256Gcm::new_from_slice(key).expect("32-byte key");
    cipher.decrypt(aes_gcm::Nonce::from_slice(nonce), ciphertext).ok()
}

/// base64's `STANDARD.encode`, named `b64std`; decoding the result gives the
/// bytes back.
#[verifier::external_body]
pub(crate) fn b64std_encode(bytes: &[u8]) -> (s: String)
    ensures
        s@ == b64std(bytes@),
        b64std_dec(s@) == Some(bytes@),
{
    base64::engine::general_purpose::STANDARD.encode(bytes)
}

/// base64's `STANDARD.decode`, named `b64std_dec`.
#[verifier::external_body]
pub(crate) fn b64std_decode(s: &str) -> (r: Option<Vec<u8>>)
    ensures
        bytes_opt(r) == b64std_dec(s@),
{
    base64::engine::general_purpose::STANDARD.decode(s).ok()
}

/// 12 random bytes from rand's `thread_rng`. Nothing is said of them.
#[verifier::external_body]
fn random_nonce() -> (n: [u8; 12])
{
    let mut n = [0u8; 12];
    rand::thread_rng().fill_bytes(&mut n);
    n
}

/// What `value` is stored as: a random nonce followed by the sealed value,
/// base64-encoded.
pub open spec fn sealed_form(value: Seq<char>, key: Seq<u8>, nonce: Seq<u8>) -> Seq<char> {
    b64std(nonce + gcm_seal(key, nonce, vstd::utf8::encode_utf8(value)))
}

/// Whether `stored` is what `value` was stored as under `key`, with a nonce
/// whose sealing opens back and whose encoding decodes back.
pub open spec fn sealed_with(stored: Seq<char>, value: Seq<char>, key: Seq<u8>) -> bool {
    exists|n: Seq<u8>|
        #![trigger sealed_form(value, key, n)]
        n.len() == 12 && stored == sealed_form(value, key, n)
        && gcm_seal(key, n, vstd::utf8::encode_utf8(value)).len() == vstd::utf8::encode_utf8(value).len() + 16
        && gcm_open(key, n, gcm_seal(key, n, vstd::utf8::encode_utf8(value))) == Some(vstd::utf8::encode_utf8(value))
        && b64std_dec(stored) == Some(n + gcm_seal(key, n, vstd::utf8::encode_utf8(value)))
}

/// Encrypts `value` under `key` for storage. A value longer than the cipher
/// takes is refused with an internal error.
pub fn encrypt(value: &str, key: &[u8; 32]) -> (r: AppResult<String>)
    requires
        vstd::utf8::encode_utf8(value@).len() <= gcm_max_plaintext()
            || vstd::utf8::encode_utf8(value@).len() > gcm_p_max(),
    ensures
        r is Ok <==> vstd::utf8::encode_utf8(value@).len() <= gcm_max_plaintext(),
        r matches Ok(s) ==> sealed_with(s@, value@, key@),
        r matches Err(e) ==> e@ is Internal,
{
    let nonce = random_nonce();
    let sealed = match gcm_encrypt(key, &nonce, value.as_bytes()) {
        Some(c) => c,
        None => {
            return Err(AppError::Internal(String::from_str("aead::Error")));
        },
    };
    let mut packed: Vec<u8> = Vec::new();
    let mut i: usize = 0;
    while i < 12
        invariant
            i <= 12,
            packed@ == nonce@.take(i as int),
        decreases 12 - i,
    {
        packed.push(nonce[i]);
        i = i + 1;
        assert(packed@ =~= nonce@.take(i as int));
    }
    let mut j: usize = 0;
    while j < sealed.len()
        invariant
            j <= sealed@.len(),
            packed@ == nonce@ + sealed@.take(j as int),
        decreases sealed.len() - j,
    {
        packed.push(sealed[j]);
        j = j + 1;
        assert(packed@ =~= nonce@ + sealed@.take(j as int));
    }
    assert(nonce@.take(12) =~= nonce@);
    assert(sealed@.take(sealed@.len() as int) =~= sealed@);
    let out = b64std_encode(packed.as_slice());
    assert(out@ == sealed_form(value@, key@, nonce@));
    Ok(out)
}

/// What a stored value decrypts to under `key`: its base64 decoded, split
/// into a 12-byte nonce and the sealed rest (at least 13 bytes in all),
/// opened, and read as UTF-8; `None` where any step fails.
pub open spec fn decrypted(value: Seq<char>, key: Seq<u8>) -> Option<Seq<char>> {
    match b64std_dec(value) {
        None => None,
        Some(p) => if p.len() < 13 {
            None
        } else {
            match gcm_open(key, p.take(12), p.skip(12)) {
                None => None,
                Some(b) => if vstd::utf8::valid_utf8(b) { Some(vstd::utf8::decode_utf8(b)) } else { None },
            }
        },
    }
}

/// Decrypts a stored value: whatever `encrypt` stored under the same key
/// comes back. A value that is not base64, is too short, does not open or
/// is not UTF-8 is an internal error.
pub fn decrypt(value: &str, key: &[u8; 32]) -> (r: AppResult<String>)
    ensures
        match decrypted(value@, key@) {
            Some(v) => r matches Ok(s) && s@ == v,
            None => r matches Err(e) && e@ is Internal,
        },
        forall|v: Seq<char>| sealed_with(value@, v, key@) ==> (r matches Ok(s) && s@ == v),
{
    let packed = match b64std_decode(value) {
        Some(p) => p,
        None => return Err(AppError::Internal(String::from_str("invalid encrypted SMTP password"))),
    };
    proof {
        assert forall|v: Seq<char>| sealed_with(value@, v, key@) implies packed@.len() >= 28 by {
            let n = choose|n: Seq<u8>|
                #![trigger sealed_form(v, key@, n)]
                n.len() == 12 && value@ == sealed_form(v, key@, n)
                && gcm_seal(key@, n, vstd::utf8::encode_utf8(v)).len() == vstd::utf8::encode_utf8(v).len() + 16
                && gcm_open(key@, n, gcm_seal(key@, n, vstd::utf8::encode_utf8(v))) == Some(vstd::utf8::encode_utf8(v))
                && b64std_dec(value@) == Some(n + gcm_seal(key@, n, vstd::utf8::encode_utf8(v)));
        }
    }
    if packed.len() < 13 {
        return Err(AppError::Internal(String::from_str("invalid encrypted SMTP password")));
    }
    let mut nonce: Vec<u8> = Vec::new();
    let mut body: Vec<u8> = Vec::new();
    let mut i: usize = 0;
    while i < packed.len()
        invariant
            i <= packed@.len(),
            packed@.len() >= 13,
            nonce@ == packed@.take(if i < 12 { i as int } else { 12 }),
            body@ == if i < 12 { Seq::empty() } else { packed@.subrange(12, i as int) },
        decreases packed.len() - i,
    {
        if i < 12 {
            nonce.push(packed[i]);
        } else {
            body.push(packed[i]);
        }
        i = i + 1;
        assert(nonce@ =~= packed@.take(if i < 12 { i as int } else { 12 }));
        assert(body@ =~= if i < 12 { Seq::<u8>::empty() } else { packed@.subrange(12, i as int) });
    }
    proof {
        assert forall|v: Seq<char>| sealed_with(value@, v, key@)
            implies ({
                let n = choose|n: Seq<u8>|
                    #![trigger sealed_form(v, key@, n)]
                    n.len() == 12 && value@ == sealed_form(v, key@, n)
                    && gcm_seal(key@, n, vstd::utf8::encode_utf8(v)).len() == vstd::utf8::encode_utf8(v).len() + 16
                    && gcm_open(key@, n, gcm_seal(key@, n, vstd::utf8::encode_utf8(v))) == Some(vstd::utf8::encode_utf8(v))
                    && b64std_dec(value@) == Some(n + gcm_seal(key@, n, vstd::utf8::encode_utf8(v)));
                nonce@ == n && body@ == gcm_seal(key@, n, vstd::utf8::encode_utf8(v))
                && gcm_open(key@, n, body@) == Some(vstd::utf8::encode_utf8(v))
            }) by {
            let n = choose|n: Seq<u8>|
                #![trigger sealed_form(v, key@, n)]
                n.len() == 12 && value@ == sealed_form(v, key@, n)
                && gcm_seal(key@, n, vstd::utf8::encode_utf8(v)).len() == vstd::utf8::encode_utf8(v).len() + 16
                && gcm_open(key@, n, gcm_seal(key@, n, vstd::utf8::encode_utf8(v))) == Some(vstd::utf8::encode_utf8(v))
                && b64std_dec(value@) == Some(n + gcm_seal(key@, n, vstd::utf8::encode_utf8(v)));
            let whole = n + gcm_seal(key@, n, vstd::utf8::encode_utf8(v));
            assert(packed@ == whole);
            assert(nonce@ =~= n);
            assert(body@ =~= gcm_seal(key@, n, vstd::utf8::encode_utf8(v)));
        }
    }
    assert(nonce@ =~= packed@.take(12));
    assert(body@ =~= packed@.skip(12));
    let plain = match gcm_decrypt(key, nonce.as_slice(), body.as_slice()) {
        Some(p) => p,
        None => return Err(AppError::Internal(String::from_str("invalid encrypted SMTP password"))),
    };
    proof {
        broadcast use vstd::utf8::encode_utf8_valid_utf8, vstd::utf8::encode_utf8_decode_utf8;
    }
    match crate::text::string_from_utf8(plain) {
        Some(s) => Ok(s),
        None => Err(AppError::Internal(String::from_str("invalid encrypted SMTP password"))),
    }
}



/// The SMTP port as stored: the number where it fits a port, else 587.
pub fn smtp_port(stored: i64) -> (p: u16)
    ensures
        p == if 0 <= stored <= 65535 { stored as u16 } else { 587u16 },
{
    if 0 <= stored && stored <= 65535 {
        stored as u16
    } else {
        587
    }
}

/// The subject and text of the mail that carries a password reset link.
pub open spec fn reset_mail(public_url: Seq<char>, token: Seq<char>) -> (Seq<char>, Seq<char>) {
    ("Reset your Linkdock password"@,
        "A password reset was requested for your Linkdock account.\n\nOpen this link within one hour:\n"@
            + public_url + "/reset-password?token="@ + token
            + "\n\nIf you did not request this, you can ignore this email."@)
}

/// The mail that sends a reset `token`, linking to the server at
/// `public_url`: its subject and text.
pub fn reset_mail_text(public_url: &str, token: &str) -> (r: (String, String))
    ensures
        (r.0@, r.1@) == reset_mail(public_url@, token@),
{
    let mut body = "A password reset was requested for your Linkdock account.\n\nOpen this link within one hour:\n".to_owned();
    body.append(public_url);
    body.append("/reset-password?token=");
    body.append(token);
    body.append("\n\nIf you did not request this, you can ignore this email.");
    ("Reset your Linkdock password".to_owned(), body)
}

/// The subject and text of the mail that tests the SMTP settings.
pub fn test_mail_text() -> (r: (String, String))
    ensures
        r.0@ == "Linkdock email test"@,
        r.1@ == "Your Linkdock SMTP settings are working."@,
{
    ("Linkdock email test".to_owned(), "Your Linkdock SMTP settings are working.".to_owned())
}

/// Whether lettre reads `s` as an email address.
pub uninterp spec fn address_ok(s: Seq<char>) -> bool;

/// lettre's `Address::from_str`, reduced to whether it succeeds; named
/// `address_ok`.
#[verifier::external_body]
fn parses_as_address(s: &str) -> (b: bool)
    ensures
        b == address_ok(s@),
{
    s.parse::<lettre::Address>().is_ok()
}

/// Why a mail under `settings` to `recipient` cannot be addressed, if it
/// cannot; else the recipient normalized.
pub open spec fn mail_recipient(settings: SmtpSettings, recipient: Seq<char>) -> Result<Seq<char>, ErrorV> {
    if !settings.enabled {
        Err(ErrorV::Validation("email delivery is not configured"@))
    } else if !address_ok(settings.from_email@) {
        Err(ErrorV::Validation("invalid SMTP sender email address"@))
    } else {
        match email_of(recipient) {
            None => Err(ErrorV::Validation("invalid email address"@)),
            Some(t) => if address_ok(t) {
                Ok(t)
            } else {
                Err(ErrorV::Validation("invalid recipient email address"@))
            },
        }
    }
}

/// How outgoing mail reaches the SMTP server.
#[derive(Debug, PartialEq, Eq, Structural, Clone, Copy)]
pub enum SmtpTransport {
    /// TLS from the start.
    Tls,
    /// Plain, upgraded with STARTTLS.
    StartTls,
    /// Plain, unencrypted.
    Plain,
}

impl EmailService {
    /// The checks before sending: delivery is on, the sender address and the
    /// (normalized) recipient address read as addresses. The recipient
    /// normalized.
    pub fn mail_recipient(settings: &SmtpSettings, recipient: &str) -> (r: AppResult<String>)
        ensures
            match mail_recipient(*settings, recipient@) {
                Ok(t) => r matches Ok(x) && x@ == t,
                Err(e) => r matches Err(x) && x@ == e,
            },
    {
        if !settings.enabled {
            return Err(validation("email delivery is not configured"));
        }
        if !parses_as_address(settings.from_email.as_str()) {
            return Err(validation("invalid SMTP sender email address"));
        }
        let to = match normalize_email(recipient) {
            Ok(t) => t,
            Err(e) => {
                return Err(e);
            },
        };
        if !parses_as_address(to.as_str()) {
            return Err(validation("invalid recipient email address"));
        }
        Ok(to)
    }

    /// The transport that a security mode names: `tls`, `starttls` or
    /// `none`.
    pub fn transport(security: &str) -> (r: AppResult<SmtpTransport>)
        ensures
            security@ == "tls"@ ==> r == Ok::<SmtpTransport, AppError>(SmtpTransport::Tls),
            security@ == "starttls"@ ==> r == Ok::<SmtpTransport, AppError>(SmtpTransport::StartTls),
            security@ == "none"@ ==> r == Ok::<SmtpTransport, AppError>(SmtpTransport::Plain),
            !(security@ == "tls"@ || security@ == "starttls"@ || security@ == "none"@)
                ==> (r matches Err(e) && e@ == ErrorV::Validation("invalid SMTP security mode"@)),
    {
        proof {
            reveal_strlit("tls");
            reveal_strlit("starttls");
            reveal_strlit("none");
            assert("tls"@.len() == 3 && "starttls"@.len() == 8 && "none"@.len() == 4);
            assert("tls"@ != "starttls"@ && "tls"@ != "none"@ && "starttls"@ != "none"@);
        }
        if str_eq(security, "tls") {
            Ok(SmtpTransport::Tls)
        } else if str_eq(security, "starttls") {
            Ok(SmtpTransport::StartTls)
        } else if str_eq(security, "none") {
            Ok(SmtpTransport::Plain)
        } else {
            Err(validation("invalid SMTP security mode"))
        }
    }

    /// The credentials to sign in with: none without a user name; else the
    /// user name and the stored password decrypted with `key`, which must be
    /// there.
    pub fn credentials(settings: &SmtpSettings, encrypted_password: Option<&str>, key: &[u8; 32]) -> (r: AppResult<Option<(String, String)>>)
        ensures
            settings.username@.len() == 0 ==> r matches Ok(None),
            settings.username@.len() > 0 && encrypted_password is None
                ==> (r matches Err(e) && e@ == ErrorV::Validation("SMTP password is not configured"@)),
            settings.username@.len() > 0 && encrypted_password is Some ==> forall|v: Seq<char>|
                sealed_with(encrypted_password->Some_0@, v, key@)
                    ==> (r matches Ok(Some((u, p))) && u@ == settings.username@ && p@ == v),
    {
        if settings.username.as_str().is_empty() {
            return Ok(None);
        }
        let stored = match encrypted_password {
            Some(e) => e,
            None => {
                return Err(validation("SMTP password is not configured"));
            },
        };
        match decrypt(stored, key) {
            Ok(p) => Ok(Some((settings.username.clone(), p))),
            Err(e) => Err(e),
        }
    }
}

} // verus!
