use vstd::prelude::*;
use crate::error::{AppError, AppResult, ErrorV};
use crate::split::{chars_eq, contains_chars, has_word, lex_lt, pieces, pieces_of, str_lt, words, words_of};
use crate::text::{chars_of, match_at, match_at_exec, starts_with, str_eq, string_of, trim, trim_bounds, vecs_v};
use crate::token::{hash_session_token, sha256_hex, token_hash};

verus! {

/// Role of a user in the active tenant.
#[derive(Debug, Clone, Copy, PartialEq, Eq, Structural)]
pub enum TenantRole {
    Owner,
    Admin,
    Editor,
    Viewer,
}

/// The role a stored role name stands for; `member` is the older name of
/// `editor`.
pub open spec fn role_of(s: Seq<char>) -> Option<TenantRole> {
    if s == "owner"@ {
        Some(TenantRole::Owner)
    } else if s == "admin"@ {
        Some(TenantRole::Admin)
    } else if s == "editor"@ || s == "member"@ {
        Some(TenantRole::Editor)
    } else if s == "viewer"@ {
        Some(TenantRole::Viewer)
    } else {
        None
    }
}

/// The name under which a role is stored and reported.
pub open spec fn role_name(r: TenantRole) -> Seq<char> {
    match r {
        TenantRole::Owner => "owner"@,
        TenantRole::Admin => "admin"@,
        TenantRole::Editor => "editor"@,
        TenantRole::Viewer => "viewer"@,
    }
}

/// Owners and admins manage members and access tokens.
pub open spec fn manages(r: TenantRole) -> bool {
    r == TenantRole::Owner || r == TenantRole::Admin
}

/// Every role but viewer may change bookmarks.
pub open spec fn writes(r: TenantRole) -> bool {
    r != TenantRole::Viewer
}

impl TenantRole {
    pub fn parse(s: &str) -> (r: Option<TenantRole>)
        ensures
            r == role_of(s@),
    {
        if str_eq(s, "owner") {
            Some(TenantRole::Owner)
        } else if str_eq(s, "admin") {
            Some(TenantRole::Admin)
        } else if str_eq(s, "editor") || str_eq(s, "member") {
            Some(TenantRole::Editor)
        } else if str_eq(s, "viewer") {
            Some(TenantRole::Viewer)
        } else {
            None
        }
    }

    pub fn as_str(&self) -> (s: &'static str)
        ensures
            s@ == role_name(*self),
    {
        match self {
            TenantRole::Owner => "owner",
            TenantRole::Admin => "admin",
            TenantRole::Editor => "editor",
            TenantRole::Viewer => "viewer",
        }
    }

    pub fn can_manage_members(&self) -> (b: bool)
        ensures
            b == manages(*self),
    {
        matches!(self, TenantRole::Owner | TenantRole::Admin)
    }

    pub fn can_manage_tokens(&self) -> (b: bool)
        ensures
            b == manages(*self),
    {
        matches!(self, TenantRole::Owner | TenantRole::Admin)
    }

    pub fn can_write(&self) -> (b: bool)
        ensures
            b == writes(*self),
    {
        !matches!(self, TenantRole::Viewer)
    }
}

/// A role's stored name reads back as that role, and the names of two roles
/// differ.
pub proof fn lemma_role_name_roundtrip(r: TenantRole)
    ensures
        role_of(role_name(r)) == Some(r),
{
    reveal_strlit("owner");
    reveal_strlit("admin");
    reveal_strlit("editor");
    reveal_strlit("member");
    reveal_strlit("viewer");
    // The five names differ in their first or second character.
    assert("owner"@[0] != "admin"@[0]);
    assert("owner"@[0] != "editor"@[0]);
    assert("owner"@[0] != "member"@[0]);
    assert("owner"@[0] != "viewer"@[0]);
    assert("admin"@[0] != "editor"@[0]);
    assert("admin"@[0] != "member"@[0]);
    assert("admin"@[0] != "viewer"@[0]);
    assert("editor"@[0] != "viewer"@[0]);
    assert("member"@[0] != "viewer"@[0]);
}

/// Whoever may manage members or tokens may also write.
pub proof fn lemma_managers_write(r: TenantRole)
    ensures
        manages(r) ==> writes(r),
{
}

/// The scope that lets a token read bookmarks.
pub open spec fn read_scope() -> Seq<char> {
    "bookmarks:read"@
}

/// The scope that lets a token change bookmarks.
pub open spec fn write_scope() -> Seq<char> {
    "bookmarks:write"@
}

/// Whether `expected` is one of the whitespace-separated scopes in `scopes`.
pub fn has_scope(scopes: &str, expected: &str) -> (b: bool)
    ensures
        b == has_word(scopes@, expected@),
{
    let ws = words_of(scopes);
    let e = chars_of(expected);
    contains_chars(&ws, &e)
}

/// An authenticated user in the active tenant, from a session cookie or an
/// access token.
#[derive(Debug, Clone)]
pub struct AuthUser {
    pub user_id: i64,
    pub username: String,
    pub is_system_admin: bool,
    pub tenant_id: i64,
    pub tenant_role: TenantRole,
    /// Whether the request came with an access token.
    pub via_token: bool,
    /// The access token's id, when `via_token`.
    pub token_id: Option<i64>,
    /// The token's space-separated scopes, when `via_token`.
    pub token_scopes: Option<String>,
}

/// A session may write as its role allows; a token also needs the write scope.
pub open spec fn may_write(u: AuthUser) -> bool {
    &&& writes(u.tenant_role)
    &&& (!u.via_token || (u.token_scopes matches Some(s) && has_word(s@, write_scope())))
}

/// `Ok(())` when `ok`, else `Forbidden`.
pub open spec fn permit(ok: bool) -> AppResult<()> {
    if ok { Ok(()) } else { Err(AppError::Forbidden) }
}

impl AuthUser {
    pub fn require_write(&self) -> (r: AppResult<()>)
        ensures
            r == permit(may_write(*self)),
    {
        let token_can_write = !self.via_token || match &self.token_scopes {
            Some(s) => has_scope(s.as_str(), "bookmarks:write"),
            None => false,
        };
        if self.tenant_role.can_write() && token_can_write {
            Ok(())
        } else {
            Err(AppError::Forbidden)
        }
    }

    pub fn require_manage_members(&self) -> (r: AppResult<()>)
        ensures
            r == permit(manages(self.tenant_role)),
    {
        if self.tenant_role.can_manage_members() {
            Ok(())
        } else {
            Err(AppError::Forbidden)
        }
    }

    pub fn require_manage_tokens(&self) -> (r: AppResult<()>)
        ensures
            r == permit(manages(self.tenant_role)),
    {
        if self.tenant_role.can_manage_tokens() {
            Ok(())
        } else {
            Err(AppError::Forbidden)
        }
    }

    pub fn require_session(&self) -> (r: AppResult<()>)
        ensures
            r == permit(!self.via_token),
    {
        if self.via_token {
            Err(AppError::Forbidden)
        } else {
            Ok(())
        }
    }

    pub fn require_system_admin(&self) -> (r: AppResult<()>)
        ensures
            r == permit(self.is_system_admin),
    {
        if self.is_system_admin {
            Ok(())
        } else {
            Err(AppError::Forbidden)
        }
    }
}

/// The authenticated user of a request.
#[derive(Debug, Clone)]
pub struct AuthContext(pub AuthUser);

/// The authenticated user of a request that changes data: one that may write.
#[derive(Debug, Clone)]
pub struct AuthWriter(pub AuthUser);

/// The authenticated user of a request that needs a system administrator.
#[derive(Debug, Clone)]
pub struct RequireSystemAdmin(pub AuthContext);

/// The authenticated user of a request that needs the tenant's owner.
#[derive(Debug, Clone)]
pub struct RequireOwner(pub AuthContext);

impl AuthWriter {
    /// Admits `user` when it may write; else `Forbidden`.
    pub fn from_user(user: AuthUser) -> (r: AppResult<AuthWriter>)
        ensures
            r is Ok <==> may_write(user),
            r matches Ok(w) ==> w.0 == user,
            r matches Err(e) ==> e == AppError::Forbidden,
    {
        match user.require_write() {
            Ok(()) => Ok(AuthWriter(user)),
            Err(e) => Err(e),
        }
    }
}

impl RequireSystemAdmin {
    /// Admits a system administrator; else `Forbidden`.
    pub fn from_context(ctx: AuthContext) -> (r: AppResult<RequireSystemAdmin>)
        ensures
            r is Ok <==> ctx.0.is_system_admin,
            r matches Ok(w) ==> w.0 == ctx,
            r matches Err(e) ==> e == AppError::Forbidden,
    {
        match ctx.0.require_system_admin() {
            Ok(()) => Ok(RequireSystemAdmin(ctx)),
            Err(e) => Err(e),
        }
    }
}

impl RequireOwner {
    /// Admits the owner of the active tenant; else `Forbidden`.
    pub fn from_context(ctx: AuthContext) -> (r: AppResult<RequireOwner>)
        ensures
            r is Ok <==> ctx.0.tenant_role == TenantRole::Owner,
            r matches Ok(w) ==> w.0 == ctx,
            r matches Err(e) ==> e == AppError::Forbidden,
    {
        if ctx.0.tenant_role != TenantRole::Owner {
            return Err(AppError::Forbidden);
        }
        Ok(RequireOwner(ctx))
    }
}

/// The bearer token of an `Authorization` header value: what follows
/// `Bearer ` in the trimmed value, trimmed, when that is not empty.
pub open spec fn bearer_of(v: Seq<char>) -> Option<Seq<char>> {
    let t = trim(v);
    let p = "Bearer "@;
    if starts_with(t, p) && trim(t.skip(p.len() as int)).len() > 0 {
        Some(trim(t.skip(p.len() as int)))
    } else {
        None
    }
}

/// The value of the first cookie among `ps` (pieces of a `Cookie` header)
/// whose trimmed piece starts with `prefix` (a name and `=`) and whose value,
/// trimmed, is not empty.
pub open spec fn cookie_in(ps: Seq<Seq<char>>, prefix: Seq<char>) -> Option<Seq<char>>
    decreases ps.len(),
{
    if ps.len() == 0 {
        None
    } else {
        let t = trim(ps[0]);
        if starts_with(t, prefix) && trim(t.skip(prefix.len() as int)).len() > 0 {
            Some(trim(t.skip(prefix.len() as int)))
        } else {
            cookie_in(ps.drop_first(), prefix)
        }
    }
}

/// The cookie named by `prefix` in a `Cookie` header value.
pub open spec fn cookie_of(header: Seq<char>, prefix: Seq<char>) -> Option<Seq<char>> {
    cookie_in(pieces(header, ';'), prefix)
}

/// The trimmed rest of `p` after `prefix`, when the trimmed `p` starts with
/// `prefix` and that rest is not empty.
fn value_after(p: &Vec<char>, prefix: &Vec<char>) -> (r: Option<String>)
    ensures
        ({
            let t = trim(p@);
            if starts_with(t, prefix@) && trim(t.skip(prefix@.len() as int)).len() > 0 {
                r matches Some(v) && v@ == trim(t.skip(prefix@.len() as int))
            } else {
                r is None
            }
        }),
{
    let (a, b) = trim_bounds(p, 0, p.len());
    let ghost t = trim(p@);
    proof {
        assert(p@.subrange(0, p@.len() as int) =~= p@);
        assert(t == p@.subrange(a as int, b as int));
    }
    let n = prefix.len();
    if b - a >= n && match_at_exec(p, prefix, a, false) {
        proof {
            assert(t.take(n as int) =~= prefix@) by {
                assert forall|k: int| 0 <= k < n implies t.take(n as int)[k] == prefix@[k] by {
                    assert(t.take(n as int)[k] == p@[a + k]);
                }
            }
            assert(t.skip(n as int) =~= p@.subrange(a + n, b as int));
        }
        let (c, d) = trim_bounds(p, a + n, b);
        if c < d {
            return Some(string_of(p, c, d));
        }
        return None;
    }
    proof {
        if starts_with(t, prefix@) {
            assert(match_at(p@, prefix@, a as int, false)) by {
                assert forall|k: int| 0 <= k < prefix@.len() implies p@[a + k] == #[trigger] prefix@[k] by {
                    assert(t.take(n as int)[k] == p@[a + k]);
                }
            }
        }
    }
    None
}

/// The value of the cookie named by `prefix` in a `Cookie` header value.
pub fn find_cookie(header: &str, prefix: &str) -> (r: Option<String>)
    ensures
        match r {
            Some(v) => cookie_of(header@, prefix@) == Some(v@),
            None => cookie_of(header@, prefix@) is None,
        },
{
    let ps = pieces_of(header, ';');
    let pre = chars_of(prefix);
    let mut i: usize = 0;
    assert(vecs_v(ps@).skip(0) =~= vecs_v(ps@));
    while i < ps.len()
        invariant
            i <= ps@.len(),
            pre@ == prefix@,
            vecs_v(ps@) == pieces(header@, ';'),
            cookie_of(header@, prefix@) == cookie_in(vecs_v(ps@).skip(i as int), prefix@),
        decreases ps.len() - i,
    {
        let ghost rest = vecs_v(ps@).skip(i as int);
        assert(rest[0] == ps@[i as int]@);
        assert(rest.drop_first() =~= vecs_v(ps@).skip(i + 1));
        match value_after(&ps[i], &pre) {
            Some(v) => {
                return Some(v);
            },
            None => {},
        }
        i = i + 1;
    }
    None
}

/// The bearer token of an `Authorization` header value.
pub fn bearer_token(authorization: Option<&str>) -> (r: Option<String>)
    ensures
        match authorization {
            None => r is None,
            Some(v) => match r {
                Some(t) => bearer_of(v@) == Some(t@),
                None => bearer_of(v@) is None,
            },
        },
{
    match authorization {
        None => None,
        Some(v) => {
            let cs = chars_of(v);
            let pre = chars_of("Bearer ");
            value_after(&cs, &pre)
        },
    }
}

/// The session token that a request's `Cookie` header carries.
pub fn session_cookie(cookie: Option<&str>) -> (r: Option<String>)
    ensures
        match cookie {
            None => r is None,
            Some(h) => match r {
                Some(t) => cookie_of(h@, "linkdock_session="@) == Some(t@),
                None => cookie_of(h@, "linkdock_session="@) is None,
            },
        },
{
    match cookie {
        None => None,
        Some(h) => find_cookie(h, "linkdock_session="),
    }
}

/// How a request authenticates.
#[derive(Debug)]
pub enum Credential {
    /// An access token from the `Authorization` header, which goes first.
    Bearer(String),
    /// A session token from the cookie.
    Session(String),
}

/// The credential of a request, from its `Authorization` and `Cookie` header
/// values; `Unauthorized` when it carries neither.
pub fn credential(authorization: Option<&str>, cookie: Option<&str>) -> (r: AppResult<Credential>)
    ensures
        match (authorization, cookie) {
            (Some(a), _) if bearer_of(a@) is Some =>
                r matches Ok(Credential::Bearer(t)) && Some(t@) == bearer_of(a@),
            (_, Some(c)) if cookie_of(c@, "linkdock_session="@) is Some =>
                r matches Ok(Credential::Session(t)) && Some(t@) == cookie_of(c@, "linkdock_session="@),
            _ => r matches Err(e) && e == AppError::Unauthorized,
        },
{
    if let Some(t) = bearer_token(authorization) {
        return Ok(Credential::Bearer(t));
    }
    if let Some(t) = session_cookie(cookie) {
        return Ok(Credential::Session(t));
    }
    Err(AppError::Unauthorized)
}

/// What the store holds for an access token, with its user and membership.
#[derive(Debug, Clone)]
pub struct TokenAuthRow {
    pub id: i64,
    pub tenant_id: i64,
    pub user_id: i64,
    pub scopes: String,
    pub expires_at: Option<String>,
    pub revoked_at: Option<String>,
    pub username: String,
    pub is_system_admin: i64,
    pub disabled: i64,
    pub role: String,
}

/// What the store holds for a session, with its user and membership.
#[derive(Debug, Clone)]
pub struct SessionAuthRow {
    pub id: i64,
    pub user_id: i64,
    pub active_tenant_id: i64,
    pub expires_at: String,
    pub username: String,
    pub is_system_admin: i64,
    pub disabled: i64,
    pub role: String,
}

/// Whether a token row admits a request at time `now` (timestamps compare as
/// strings): not revoked, user not disabled, not expired, a known role and
/// the read scope.
pub open spec fn token_admits(row: TokenAuthRow, now: Seq<char>) -> bool {
    &&& row.revoked_at is None
    &&& row.disabled == 0
    &&& (row.expires_at matches Some(exp) ==> !lex_lt(exp@, now))
    &&& role_of(row.role@) is Some
    &&& has_word(row.scopes@, read_scope())
}

/// The user that an admitted token row stands for.
pub open spec fn token_user(u: AuthUser, row: TokenAuthRow) -> bool {
    &&& u.user_id == row.user_id
    &&& u.username@ == row.username@
    &&& u.is_system_admin == (row.is_system_admin != 0)
    &&& u.tenant_id == row.tenant_id
    &&& Some(u.tenant_role) == role_of(row.role@)
    &&& u.via_token
    &&& u.token_id == Some(row.id)
    &&& u.token_scopes matches Some(s) && s@ == row.scopes@
}

/// The user of an access token found (or not) under its hash; every refusal
/// is `Forbidden`, which is what sync clients expect.
pub fn authorize_token(row: Option<TokenAuthRow>, now: &str) -> (r: AppResult<AuthUser>)
    ensures
        match row {
            None => r matches Err(e) && e == AppError::Forbidden,
            Some(row) => if token_admits(row, now@) {
                r matches Ok(u) && token_user(u, row)
            } else {
                r matches Err(e) && e == AppError::Forbidden
            },
        },
{
    let row = match row {
        Some(r) => r,
        None => return Err(AppError::Forbidden),
    };
    if row.revoked_at.is_some() {
        return Err(AppError::Forbidden);
    }
    if row.disabled != 0 {
        return Err(AppError::Forbidden);
    }
    if let Some(exp) = &row.expires_at {
        if str_lt(exp.as_str(), now) {
            return Err(AppError::Forbidden);
        }
    }
    let role = match TenantRole::parse(row.role.as_str()) {
        Some(r) => r,
        None => return Err(AppError::Forbidden),
    };
    if !has_scope(row.scopes.as_str(), "bookmarks:read") {
        return Err(AppError::Forbidden);
    }
    Ok(AuthUser {
        user_id: row.user_id,
        username: row.username,
        is_system_admin: row.is_system_admin != 0,
        tenant_id: row.tenant_id,
        tenant_role: role,
        via_token: true,
        token_id: Some(row.id),
        token_scopes: Some(row.scopes),
    })
}

/// The user that a session row stands for.
pub open spec fn session_user(u: AuthUser, row: SessionAuthRow) -> bool {
    &&& u.user_id == row.user_id
    &&& u.username@ == row.username@
    &&& u.is_system_admin == (row.is_system_admin != 0)
    &&& u.tenant_id == row.active_tenant_id
    &&& Some(u.tenant_role) == role_of(row.role@)
    &&& !u.via_token
    &&& u.token_id is None
    &&& u.token_scopes is None
}

/// The user of a session found (or not) under its hash: an unknown or
/// expired session is `Unauthorized`, a disabled user or unknown role
/// `Forbidden`.
pub fn authorize_session(row: Option<SessionAuthRow>, now: &str) -> (r: AppResult<AuthUser>)
    ensures
        match row {
            None => r matches Err(e) && e == AppError::Unauthorized,
            Some(row) => if lex_lt(row.expires_at@, now@) {
                r matches Err(e) && e == AppError::Unauthorized
            } else if row.disabled != 0 || role_of(row.role@) is None {
                r matches Err(e) && e == AppError::Forbidden
            } else {
                r matches Ok(u) && session_user(u, row)
            },
        },
{
    let row = match row {
        Some(r) => r,
        None => return Err(AppError::Unauthorized),
    };
    if str_lt(row.expires_at.as_str(), now) {
        return Err(AppError::Unauthorized);
    }
    if row.disabled != 0 {
        return Err(AppError::Forbidden);
    }
    let role = match TenantRole::parse(row.role.as_str()) {
        Some(r) => r,
        None => return Err(AppError::Forbidden),
    };
    Ok(AuthUser {
        user_id: row.user_id,
        username: row.username,
        is_system_admin: row.is_system_admin != 0,
        tenant_id: row.active_tenant_id,
        tenant_role: role,
        via_token: false,
        token_id: None,
        token_scopes: None,
    })
}

/// The hash under which the store keeps a credential: access tokens and
/// sessions alike are kept as the SHA-256 hex of their text.
pub fn credential_hash(c: &Credential) -> (h: String)
    ensures
        match c {
            Credential::Bearer(t) => h@ == token_hash(t@),
            Credential::Session(t) => h@ == token_hash(t@),
        },
{
    match c {
        Credential::Bearer(t) => sha256_hex(t.as_str().as_bytes()),
        Credential::Session(t) => hash_session_token(t.as_str()),
    }
}

} // verus!
