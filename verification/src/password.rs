//! Passwords: argon2 hashes, and the checks of a sign-in and of a new
//! password.
use vstd::prelude::*;
use crate::account::AuthService;
use crate::error::{AppError, AppResult, ErrorV, validation};
use crate::text::{byte_len, utf8_len};

verus! {

/// Whether argon2 accepts `password` against the stored hash string.
pub uninterp spec fn password_matches(hash: Seq<char>, password: Seq<char>) -> bool;

/// argon2's `Argon2::default().hash_password` of `password` with `salt` (B64
/// encoded into a `SaltString`), as its PHC string; or the error's text.
/// The string carries the salt and the parameters, from which the verifier
/// recomputes the hash, so the same password verifies against it. With a
/// 16-byte salt (22 B64 characters, within `Salt`'s 4 to 64, and 16 bytes
/// decoded, at least argon2's `MIN_SALT_LEN` of 8) and the default
/// parameters, the one error left is `PwdTooLong`, for a password of more
/// than `MAX_PWD_LEN` (`0xFFFF_FFFF`) bytes.
#[verifier::external_body]
fn argon2_hash(password: &str, salt: &[u8]) -> (r: Result<String, String>)
    ensures
        r matches Ok(h) ==> password_matches(h@, password@),
        salt@.len() == 16 ==> (r is Ok <==> utf8_len(password@) <= 0xFFFF_FFFF),
{
    let salt = argon2::password_hash::SaltString::encode_b64(salt).map_err(|e| e.to_string())?;
    argon2::PasswordHasher::hash_password(&argon2::Argon2::default(), password.as_bytes(), &salt)
        .map(|h| h.to_string())
        .map_err(|e| e.to_string())
}

/// argon2's `PasswordHash::new` of `hash` and `Argon2::default()`'s
/// `verify_password` of `password` against it; `false` for a string that
/// is no PHC hash. Named `password_matches`.
#[verifier::external_body]
fn argon2_verify(password: &str, hash: &str) -> (b: bool)
    ensures
        b == password_matches(hash@, password@),
{
    match argon2::PasswordHash::new(hash) {
        Ok(parsed) => argon2::PasswordVerifier::verify_password(&argon2::Argon2::default(), password.as_bytes(), &parsed).is_ok(),
        Err(_) => false,
    }
}

/// The stored hash of `password`, with a random salt; the password verifies
/// against it. Only a password of more than `0xFFFF_FFFF` bytes is refused.
pub fn hash_password(password: &str) -> (r: AppResult<String>)
    ensures
        r is Ok <==> utf8_len(password@) <= 0xFFFF_FFFF,
        r matches Ok(h) ==> password_matches(h@, password@),
        r matches Err(e) ==> e@ is Internal,
{
    let salt = crate::token::random_bytes(16);
    match argon2_hash(password, salt.as_slice()) {
        Ok(h) => Ok(h),
        Err(e) => Err(AppError::Internal(e)),
    }
}

/// Whether `password` is the one that `hash` was made from.
pub fn verify_password(password: &str, hash: &str) -> (b: bool)
    ensures
        b == password_matches(hash@, password@),
{
    argon2_verify(password, hash)
}

/// What the store holds of a user who signs in by name.
#[derive(Debug, Clone)]
pub struct LoginRow {
    pub id: i64,
    pub password_hash: String,
    pub disabled: i64,
}

/// The outcome of a sign-in with `password` by the user found (or not):
/// an unknown name or a wrong password is `invalid credentials`; a disabled
/// user is refused.
pub open spec fn login_outcome(row: Option<LoginRow>, password: Seq<char>) -> Result<i64, ErrorV> {
    match row {
        None => Err(ErrorV::Validation("invalid credentials"@)),
        Some(r) => if r.disabled != 0 {
            Err(ErrorV::Forbidden)
        } else if !password_matches(r.password_hash@, password) {
            Err(ErrorV::Validation("invalid credentials"@))
        } else {
            Ok(r.id)
        },
    }
}

/// A hash that verifies no password, run when no user has the name so that
/// a sign-in takes as long either way.
pub fn dummy_hash() -> (h: &'static str)
    ensures
        h@ == "$argon2id$v=19$m=19456,t=2,p=1$YWFhYWFhYWFhYWFhYWFhYQ$YWFhYWFhYWFhYWFhYWFhYWFhYWFhYWFhYWFhYWFhYWE"@,
{
    "$argon2id$v=19$m=19456,t=2,p=1$YWFhYWFhYWFhYWFhYWFhYQ$YWFhYWFhYWFhYWFhYWFhYWFhYWFhYWFhYWFhYWFhYWE"
}

impl AuthService {
    /// The id of the user who signs in with `password`, as `login_outcome`
    /// says.
    pub fn check_login(row: Option<LoginRow>, password: &str) -> (r: AppResult<i64>)
        ensures
            match login_outcome(row, password@) {
                Ok(id) => r == Ok::<i64, AppError>(id),
                Err(e) => r matches Err(x) && x@ == e,
            },
    {
        let r = match row {
            Some(r) => r,
            None => {
                let _ = verify_password("x", dummy_hash());
                return Err(validation("invalid credentials"));
            },
        };
        if r.disabled != 0 {
            return Err(AppError::Forbidden);
        }
        if !verify_password(password, r.password_hash.as_str()) {
            return Err(validation("invalid credentials"));
        }
        Ok(r.id)
    }

    /// A new password must have at least 8 bytes.
    pub fn check_new_password(password: &str) -> (r: AppResult<()>)
        ensures
            utf8_len(password@) < 8 ==> (r matches Err(e) && e@ == ErrorV::Validation("password must be at least 8 chars"@)),
            utf8_len(password@) >= 8 ==> r is Ok,
    {
        if byte_len(password) < 8 {
            return Err(validation("password must be at least 8 chars"));
        }
        Ok(())
    }
}

/// A user who is not disabled signs in with the password whose hash is
/// stored for them: in particular with the one `hash_password` hashed.
pub proof fn lemma_sign_in_with_stored_password(id: i64, hash: Seq<char>, password: Seq<char>, row: LoginRow)
    requires
        password_matches(hash, password),
        row.id == id,
        row.password_hash@ == hash,
        row.disabled == 0,
    ensures
        login_outcome(Some(row), password) == Ok::<i64, ErrorV>(id),
{
}

} // verus!
