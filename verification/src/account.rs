//! User accounts: registration rules, the first-run setup token, and slugs.
use vstd::prelude::*;
use subtle::ConstantTimeEq;
use crate::email::{email_of, normalize_email};
use crate::error::{AppError, AppResult, ErrorV, validation};
use crate::text::{
    byte_len, char_alnum, chars_of, is_alnum, lowercase, str_lower, string_from_chars, trim,
    trimmed, utf8_len,
};

verus! {

/// A sign-up.
#[derive(Debug)]
pub struct RegisterRequest {
    pub username: String,
    pub email: String,
    pub password: String,
    pub display_name: String,
    pub setup_token: Option<String>,
}

/// A sign-in.
#[derive(Debug)]
pub struct LoginRequest {
    pub username: String,
    pub password: String,
}

/// A signed-in user with the token of the new session.
#[derive(Debug)]
pub struct AuthResponse {
    pub user: UserInfo,
    pub session: String,
}

/// What the API shows of a user.
#[derive(Debug)]
pub struct UserInfo {
    pub id: i64,
    pub uuid: String,
    pub username: String,
    pub display_name: String,
    pub email: Option<String>,
    pub is_system_admin: bool,
}

/// Whether the server has users yet, and whether the first sign-up needs the
/// setup token.
#[derive(Debug, Clone, Copy)]
pub struct SetupStatus {
    pub initialized: bool,
    pub requires_setup_token: bool,
}

/// The service that signs users up and in.
pub struct AuthService;

impl SetupStatus {
    /// The setup status of a server with `user_count` users.
    pub fn of(user_count: i64, has_setup_token: bool) -> (s: SetupStatus)
        ensures
            s.initialized == (user_count > 0),
            s.requires_setup_token == (user_count == 0 && has_setup_token),
    {
        SetupStatus { initialized: user_count > 0, requires_setup_token: user_count == 0 && has_setup_token }
    }
}

/// A character allowed in a username.
pub open spec fn username_char(c: char) -> bool {
    char_alnum(c) || c == '_' || c == '-' || c == '.'
}

/// Why a sign-up is refused before it reaches the store, if it is: a bad
/// email address, a trimmed username outside 2..64 bytes, a password under 8
/// bytes, or a username character that is not alphanumeric, `_`, `-` or `.`.
pub open spec fn registration_error(username: Seq<char>, email: Seq<char>, password: Seq<char>) -> Option<Seq<char>> {
    let u = trim(username);
    if email_of(email) is None {
        Some("invalid email address"@)
    } else if utf8_len(u) < 2 || utf8_len(u) > 64 {
        Some("username length must be 2..64"@)
    } else if utf8_len(password) < 8 {
        Some("password must be at least 8 chars"@)
    } else if exists|i: int| 0 <= i < u.len() && !username_char(#[trigger] u[i]) {
        Some("username may only contain alphanumeric, _ - ."@)
    } else {
        None
    }
}

/// A sign-up with a valid email address, a password of at least 8 bytes and
/// a trimmed username of 2 to 64 bytes is refused over its username exactly
/// when the username holds a character that is not alphanumeric, `_`, `-`
/// or `.`; otherwise it is accepted.
pub proof fn lemma_username_characters(username: Seq<char>, email: Seq<char>, password: Seq<char>)
    requires
        email_of(email) is Some,
        2 <= utf8_len(trim(username)) <= 64,
        utf8_len(password) >= 8,
    ensures
        (forall|i: int| 0 <= i < trim(username).len() ==> {
            let c = #[trigger] trim(username)[i];
            char_alnum(c) || c == '_' || c == '-' || c == '.'
        }) ==> registration_error(username, email, password) is None,
        (exists|i: int| 0 <= i < trim(username).len() && {
            let c = #[trigger] trim(username)[i];
            !(char_alnum(c) || c == '_' || c == '-' || c == '.')
        }) ==> registration_error(username, email, password)
            == Some("username may only contain alphanumeric, _ - ."@),
{
}

/// What a sign-up is refused for, checked in this order: an email address
/// that does not normalize, a trimmed username outside 2 to 64 bytes, and a
/// password under 8 bytes.
pub proof fn lemma_registration_refusals(username: Seq<char>, email: Seq<char>, password: Seq<char>)
    ensures
        email_of(email) is None ==> registration_error(username, email, password) == Some("invalid email address"@),
        email_of(email) is Some && (utf8_len(trim(username)) < 2 || utf8_len(trim(username)) > 64)
            ==> registration_error(username, email, password) == Some("username length must be 2..64"@),
        email_of(email) is Some && 2 <= utf8_len(trim(username)) <= 64 && utf8_len(password) < 8
            ==> registration_error(username, email, password) == Some("password must be at least 8 chars"@),
{
}

/// The trimmed username and normalized email of a sign-up, when its fields
/// are acceptable.
pub fn check_registration(req: &RegisterRequest) -> (r: AppResult<(String, String)>)
    ensures
        match registration_error(req.username@, req.email@, req.password@) {
            Some(m) => r matches Err(e) && e@ == ErrorV::Validation(m),
            None => r matches Ok((u, e)) && u@ == trim(req.username@) && Some(e@) == email_of(req.email@),
        },
{
    let username = trimmed(req.username.as_str());
    let email = match normalize_email(req.email.as_str()) {
        Ok(e) => e,
        Err(e) => return Err(e),
    };
    let ulen = byte_len(username.as_str());
    if ulen < 2 || ulen > 64 {
        return Err(validation("username length must be 2..64"));
    }
    if byte_len(req.password.as_str()) < 8 {
        return Err(validation("password must be at least 8 chars"));
    }
    let cs = chars_of(username.as_str());
    let mut i: usize = 0;
    while i < cs.len()
        invariant
            i <= cs@.len(),
            cs@ == username@,
            username@ == trim(req.username@),
            email_of(req.email@) is Some,
            2 <= utf8_len(trim(req.username@)) <= 64,
            utf8_len(req.password@) >= 8,
            forall|j: int| 0 <= j < i ==> username_char(#[trigger] cs@[j]),
        decreases cs.len() - i,
    {
        let c = cs[i];
        if !(is_alnum(c) || c == '_' || c == '-' || c == '.') {
            assert(!username_char(cs@[i as int]));
            return Err(validation("username may only contain alphanumeric, _ - ."));
        }
        i = i + 1;
    }
    Ok((username, email))
}

/// subtle's `ConstantTimeEq::ct_eq` on byte slices: `1` exactly when they
/// are equal (slices of different lengths are unequal).
#[verifier::external_body]
fn ct_eq_bytes(a: &[u8], b: &[u8]) -> (r: bool)
    ensures
        r == (a@ == b@),
{
    a.ct_eq(b).unwrap_u8() == 1
}

/// Whether a sign-up may go on as far as the setup token goes: only the
/// first sign-up on a server with a setup token needs it, compared in
/// constant time (a missing token counts as empty).
pub fn setup_token_accepted(user_count: i64, expected: Option<&str>, supplied: Option<&str>) -> (b: bool)
    ensures
        b == (user_count != 0 || match expected {
            None => true,
            Some(e) => e@ == match supplied {
                Some(s) => s@,
                None => Seq::empty(),
            },
        }),
{
    if user_count != 0 {
        return true;
    }
    match expected {
        None => true,
        Some(e) => {
            let s = match supplied {
                Some(s) => s,
                None => "",
            };
            proof {
                reveal_strlit("");
                broadcast use vstd::utf8::encode_utf8_decode_utf8;
            }
            let eq = ct_eq_bytes(e.as_bytes(), s.as_bytes());
            proof {
                if e@ != s@ {
                    assert(vstd::utf8::decode_utf8(vstd::utf8::encode_utf8(e@)) == e@);
                    assert(vstd::utf8::decode_utf8(vstd::utf8::encode_utf8(s@)) == s@);
                }
            }
            eq
        },
    }
}

/// `s` without leading `-`s.
pub open spec fn strip_lead_dashes(s: Seq<char>) -> Seq<char>
    decreases s.len(),
{
    if s.len() > 0 && s[0] == '-' { strip_lead_dashes(s.drop_first()) } else { s }
}

/// `s` without trailing `-`s.
pub open spec fn strip_trail_dashes(s: Seq<char>) -> Seq<char>
    decreases s.len(),
{
    if s.len() > 0 && s.last() == '-' { strip_trail_dashes(s.drop_last()) } else { s }
}

/// `s` with every character that is not alphanumeric made a `-`.
pub open spec fn dashed(s: Seq<char>) -> Seq<char> {
    Seq::new(s.len(), |i: int| if char_alnum(s[i]) { s[i] } else { '-' })
}

/// The slug of `s`: trimmed, lower-cased, every character that is not
/// alphanumeric made a `-`, and without leading or trailing `-`s.
pub open spec fn slug_of(s: Seq<char>) -> Seq<char> {
    strip_trail_dashes(strip_lead_dashes(dashed(str_lower(trim(s)))))
}

proof fn lemma_strip_lead(s: Seq<char>)
    ensures
        strip_lead_dashes(s) == s.skip(s.len() - strip_lead_dashes(s).len()),
        strip_lead_dashes(s).len() <= s.len(),
        strip_lead_dashes(s).len() > 0 ==> strip_lead_dashes(s)[0] != '-',
    decreases s.len(),
{
    if s.len() > 0 && s[0] == '-' {
        lemma_strip_lead(s.drop_first());
        let r = strip_lead_dashes(s);
        assert(s.drop_first().skip(s.len() - 1 - r.len()) =~= s.skip(s.len() - r.len()));
    } else {
        assert(s.skip(0) =~= s);
    }
}

proof fn lemma_strip_trail(s: Seq<char>)
    ensures
        strip_trail_dashes(s) == s.take(strip_trail_dashes(s).len() as int),
        strip_trail_dashes(s).len() <= s.len(),
        strip_trail_dashes(s).len() > 0 ==> strip_trail_dashes(s).last() != '-',
    decreases s.len(),
{
    if s.len() > 0 && s.last() == '-' {
        lemma_strip_trail(s.drop_last());
        let r = strip_trail_dashes(s);
        assert(s.drop_last().take(r.len() as int) =~= s.take(r.len() as int));
    } else {
        assert(s.take(s.len() as int) =~= s);
    }
}

/// A slug holds only alphanumeric characters and `-`, and neither begins
/// nor ends with `-`.
pub proof fn lemma_slug_shape(s: Seq<char>)
    ensures
        forall|i: int| 0 <= i < slug_of(s).len() ==> char_alnum(#[trigger] slug_of(s)[i]) || slug_of(s)[i] == '-',
        slug_of(s).len() > 0 ==> slug_of(s)[0] != '-' && slug_of(s).last() != '-',
{
    let d = dashed(str_lower(trim(s)));
    let a = strip_lead_dashes(d);
    let b = strip_trail_dashes(a);
    lemma_strip_lead(d);
    lemma_strip_trail(a);
    assert forall|i: int| 0 <= i < b.len() implies char_alnum(#[trigger] b[i]) || b[i] == '-' by {
        assert(b[i] == a[i]);
        assert(a[i] == d[i + (d.len() - a.len())]);
    }
    if b.len() > 0 {
        assert(b[0] == a[0]);
    }
}

/// The slug of `s`, for workspace addresses.
pub fn slugify(s: &str) -> (r: String)
    ensures
        r@ == slug_of(s@),
{
    let t = trimmed(s);
    let lower = lowercase(t.as_str());
    let cs = chars_of(lower.as_str());
    let mut d: Vec<char> = Vec::new();
    let mut i: usize = 0;
    while i < cs.len()
        invariant
            i <= cs@.len(),
            d@ == dashed(cs@).take(i as int),
        decreases cs.len() - i,
    {
        let c = cs[i];
        d.push(if is_alnum(c) { c } else { '-' });
        i = i + 1;
        assert(d@ =~= dashed(cs@).take(i as int));
    }
    assert(dashed(cs@).take(cs@.len() as int) =~= dashed(cs@));
    let mut lo: usize = 0;
    assert(d@.skip(0) =~= d@);
    while lo < d.len() && d[lo] == '-'
        invariant
            lo <= d@.len(),
            strip_lead_dashes(d@) == strip_lead_dashes(d@.skip(lo as int)),
        decreases d.len() - lo,
    {
        assert(d@.skip(lo as int).drop_first() =~= d@.skip(lo + 1));
        lo = lo + 1;
    }
    let ghost lead = d@.skip(lo as int);
    let mut hi: usize = d.len();
    assert(lead.take(lead.len() as int) =~= lead);
    while hi > lo && d[hi - 1] == '-'
        invariant
            lo <= hi <= d@.len(),
            lead == d@.skip(lo as int),
            strip_trail_dashes(lead) == strip_trail_dashes(d@.subrange(lo as int, hi as int)),
        decreases hi - lo,
    {
        assert(d@.subrange(lo as int, hi as int).drop_last() =~= d@.subrange(lo as int, hi - 1));
        hi = hi - 1;
    }
    proof {
        assert(d@.skip(lo as int) =~= d@.subrange(lo as int, d@.len() as int));
        if lo == d@.len() {
            assert(strip_lead_dashes(d@.skip(lo as int)) == d@.skip(lo as int));
        }
    }
    let out = crate::text::slice_chars(&d, lo, hi);
    string_from_chars(out.as_slice())
}

} // verus!
