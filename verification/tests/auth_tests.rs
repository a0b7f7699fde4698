use linkdock::account::AuthService;
use linkdock::password::{hash_password, verify_password, LoginRow};
use linkdock::access::{normalize_scopes, token_name};
use linkdock::account::{check_registration, setup_token_accepted, slugify, RegisterRequest, SetupStatus};
use linkdock::auth::{
    authorize_session, authorize_token, bearer_token, credential, credential_hash, find_cookie, has_scope,
    session_cookie, AuthUser, Credential, SessionAuthRow, TenantRole, TokenAuthRow,
};
use linkdock::error::AppError;
use linkdock::token::{generate_access_token, generate_session_token, hash_session_token, random_hex, sha256_hex};

fn user(role: TenantRole, via_token: bool, scopes: Option<&str>) -> AuthUser {
    AuthUser {
        user_id: 7,
        username: "ann".to_string(),
        is_system_admin: false,
        tenant_id: 3,
        tenant_role: role,
        via_token,
        token_id: if via_token { Some(11) } else { None },
        token_scopes: scopes.map(|s| s.to_string()),
    }
}

fn token_row() -> TokenAuthRow {
    TokenAuthRow {
        id: 11,
        tenant_id: 3,
        user_id: 7,
        scopes: "bookmarks:read bookmarks:write".to_string(),
        expires_at: None,
        revoked_at: None,
        username: "ann".to_string(),
        is_system_admin: 1,
        disabled: 0,
        role: "owner".to_string(),
    }
}

#[test]
fn role_names_read_back() {
    for role in [TenantRole::Owner, TenantRole::Admin, TenantRole::Editor, TenantRole::Viewer] {
        assert_eq!(TenantRole::parse(role.as_str()), Some(role));
    }
    assert_eq!(TenantRole::parse("member"), Some(TenantRole::Editor));
    assert_eq!(TenantRole::parse("Owner"), None);
    assert!(TenantRole::Admin.can_manage_members());
    assert!(!TenantRole::Editor.can_manage_tokens());
    assert!(TenantRole::Editor.can_write());
    assert!(!TenantRole::Viewer.can_write());
}

#[test]
fn write_needs_role_and_scope() {
    assert!(user(TenantRole::Editor, false, None).require_write().is_ok());
    assert!(matches!(user(TenantRole::Viewer, false, None).require_write(), Err(AppError::Forbidden)));
    assert!(user(TenantRole::Owner, true, Some("bookmarks:read bookmarks:write")).require_write().is_ok());
    assert!(matches!(
        user(TenantRole::Owner, true, Some("bookmarks:read")).require_write(),
        Err(AppError::Forbidden)
    ));
    assert!(matches!(user(TenantRole::Owner, true, None).require_write(), Err(AppError::Forbidden)));
    assert!(user(TenantRole::Admin, false, None).require_manage_members().is_ok());
    assert!(matches!(user(TenantRole::Editor, false, None).require_manage_members(), Err(AppError::Forbidden)));
    assert!(matches!(user(TenantRole::Owner, true, Some("bookmarks:read")).require_session(), Err(AppError::Forbidden)));
    assert!(matches!(user(TenantRole::Owner, false, None).require_system_admin(), Err(AppError::Forbidden)));
}

#[test]
fn scopes_are_whole_words() {
    assert!(has_scope("bookmarks:read bookmarks:write", "bookmarks:write"));
    assert!(!has_scope("bookmarks:read", "bookmarks:write"));
    assert!(!has_scope("bookmarks:readx", "bookmarks:read"));
    assert_eq!(normalize_scopes(None).unwrap(), "bookmarks:read bookmarks:write");
    assert_eq!(normalize_scopes(Some("bookmarks:read")).unwrap(), "bookmarks:read");
    assert_eq!(normalize_scopes(Some(" bookmarks:write  bookmarks:read ")).unwrap(), "bookmarks:read bookmarks:write");
    assert!(matches!(normalize_scopes(Some("bookmarks:write")), Err(AppError::Validation(m)) if m == "invalid token scopes"));
    assert!(matches!(normalize_scopes(Some("")), Err(AppError::Validation(_))));
    assert!(matches!(normalize_scopes(Some("bookmarks:read admin")), Err(AppError::Validation(_))));
}

#[test]
fn token_names_are_trimmed_and_bounded() {
    assert_eq!(token_name("  laptop ").unwrap(), "laptop");
    assert!(matches!(token_name("   "), Err(AppError::Validation(m)) if m == "token name length invalid"));
    assert!(token_name(&"x".repeat(100)).is_ok());
    assert!(token_name(&"x".repeat(101)).is_err());
}

#[test]
fn headers_give_credentials() {
    assert_eq!(bearer_token(Some("Bearer abc")).as_deref(), Some("abc"));
    assert_eq!(bearer_token(Some("Basic abc")), None);
    assert_eq!(bearer_token(None), None);
    assert_eq!(session_cookie(Some("a=1; linkdock_session=xyz; b=2")).as_deref(), Some("xyz"));
    assert_eq!(session_cookie(Some("a=1")), None);
    assert_eq!(find_cookie("x=1;y=2", "y=").as_deref(), Some("2"));
    match credential(Some("Bearer tok"), Some("linkdock_session=s")) {
        Ok(Credential::Bearer(t)) => assert_eq!(t, "tok"),
        other => panic!("unexpected {:?}", other),
    }
    match credential(None, Some("linkdock_session=s")) {
        Ok(Credential::Session(t)) => assert_eq!(t, "s"),
        other => panic!("unexpected {:?}", other),
    }
    assert!(matches!(credential(None, None), Err(AppError::Unauthorized)));
}

#[test]
fn tokens_are_stored_as_hashes() {
    assert_eq!(sha256_hex(b"abc"), "ba7816bf8f01cfea414140de5dae2223b00361a396177a9cb410ff61f20015ad");
    let (full, prefix, hash) = generate_access_token();
    assert_eq!(full.len(), 44);
    assert!(full.starts_with("lw_"));
    assert!(full.starts_with(&format!("lw_{}_", prefix)));
    assert_eq!(hash, sha256_hex(full.as_bytes()));
    let url_safe = |c: char| c.is_ascii_alphanumeric() || c == '-' || c == '_';
    assert!(prefix.chars().all(url_safe));
    assert!(full[12..].chars().all(url_safe));
    assert_eq!(hash.len(), 64);
    assert!(hash.chars().all(|c| c.is_ascii_hexdigit() && !c.is_ascii_uppercase()));
    assert_eq!(credential_hash(&Credential::Bearer(full.clone())), hash);
    let s = generate_session_token();
    assert_eq!(s.len(), 43);
    assert_eq!(hash_session_token(&s), sha256_hex(s.as_bytes()));
    let h = random_hex(16);
    assert_eq!(h.len(), 32);
    assert!(h.chars().all(|c| c.is_ascii_hexdigit() && !c.is_ascii_uppercase()));
}

#[test]
fn token_rows_authorize_or_forbid() {
    let u = authorize_token(Some(token_row()), "2024-01-01T00:00:00Z").unwrap();
    assert_eq!(u.user_id, 7);
    assert_eq!(u.tenant_id, 3);
    assert_eq!(u.tenant_role, TenantRole::Owner);
    assert!(u.via_token && u.is_system_admin);
    assert_eq!(u.token_id, Some(11));
    assert!(matches!(authorize_token(None, "2024"), Err(AppError::Forbidden)));
    let mut revoked = token_row();
    revoked.revoked_at = Some("2023".to_string());
    assert!(matches!(authorize_token(Some(revoked), "2024"), Err(AppError::Forbidden)));
    let mut expired = token_row();
    expired.expires_at = Some("2023-12-31T00:00:00Z".to_string());
    assert!(matches!(authorize_token(Some(expired), "2024-01-01T00:00:00Z"), Err(AppError::Forbidden)));
    let mut no_read = token_row();
    no_read.scopes = "bookmarks:write".to_string();
    assert!(matches!(authorize_token(Some(no_read), "2024"), Err(AppError::Forbidden)));
    let mut odd_role = token_row();
    odd_role.role = "guest".to_string();
    assert!(matches!(authorize_token(Some(odd_role), "2024"), Err(AppError::Forbidden)));
}

#[test]
fn session_rows_authorize_or_refuse() {
    let row = SessionAuthRow {
        id: 1,
        user_id: 7,
        active_tenant_id: 3,
        expires_at: "2030-01-01T00:00:00Z".to_string(),
        username: "ann".to_string(),
        is_system_admin: 0,
        disabled: 0,
        role: "viewer".to_string(),
    };
    let u = authorize_session(Some(row.clone()), "2024-01-01T00:00:00Z").unwrap();
    assert!(!u.via_token);
    assert_eq!(u.tenant_role, TenantRole::Viewer);
    assert!(matches!(authorize_session(None, "2024"), Err(AppError::Unauthorized)));
    assert!(matches!(authorize_session(Some(row.clone()), "2031"), Err(AppError::Unauthorized)));
    let mut disabled = row;
    disabled.disabled = 1;
    assert!(matches!(authorize_session(Some(disabled), "2024"), Err(AppError::Forbidden)));
}

#[test]
fn registration_rules() {
    let req = |u: &str, e: &str, p: &str| RegisterRequest {
        username: u.to_string(),
        email: e.to_string(),
        password: p.to_string(),
        display_name: String::new(),
        setup_token: None,
    };
    let (name, email) = check_registration(&req(" ann ", " Ann@Example.COM ", "password1")).unwrap();
    assert_eq!(name, "ann");
    assert_eq!(email, "ann@example.com");
    assert!(matches!(check_registration(&req("a", "a@b.c", "password1")), Err(AppError::Validation(m)) if m == "username length must be 2..64"));
    assert!(matches!(check_registration(&req("ann", "a@b.c", "short")), Err(AppError::Validation(m)) if m == "password must be at least 8 chars"));
    assert!(matches!(check_registration(&req("a b", "a@b.c", "password1")), Err(AppError::Validation(_))));
    assert!(check_registration(&req("ann", "not-an-email", "password1")).is_err());
}

#[test]
fn setup_token_guards_the_first_account() {
    assert!(setup_token_accepted(0, Some("s3cret"), Some("s3cret")));
    assert!(!setup_token_accepted(0, Some("s3cret"), Some("wrong")));
    assert!(!setup_token_accepted(0, Some("s3cret"), None));
    assert!(setup_token_accepted(0, None, None));
    assert!(setup_token_accepted(5, Some("s3cret"), None));
    let s = SetupStatus::of(0, true);
    assert!(!s.initialized && s.requires_setup_token);
    let t = SetupStatus::of(2, true);
    assert!(t.initialized && !t.requires_setup_token);
}

#[test]
fn slugs_are_lowercase_and_dashed() {
    assert_eq!(slugify("My Team!"), "my-team");
    assert_eq!(slugify("--Hello   World--"), "hello---world");
    assert_eq!(slugify("ab_c"), "ab-c");
}

#[test]
fn passwords_hash_and_sign_in() {
    let h = hash_password("correct horse").unwrap();
    assert!(h.starts_with("$argon2id$"));
    assert!(verify_password("correct horse", &h));
    assert!(!verify_password("wrong horse", &h));
    assert!(!verify_password("x", "not a hash"));
    assert_ne!(hash_password("correct horse").unwrap(), h);
    let row = LoginRow { id: 9, password_hash: h.clone(), disabled: 0 };
    assert_eq!(AuthService::check_login(Some(row.clone()), "correct horse").unwrap(), 9);
    assert!(matches!(AuthService::check_login(Some(row.clone()), "nope"), Err(AppError::Validation(m)) if m == "invalid credentials"));
    assert!(matches!(AuthService::check_login(None, "x"), Err(AppError::Validation(m)) if m == "invalid credentials"));
    let off = LoginRow { disabled: 1, ..row };
    assert!(matches!(AuthService::check_login(Some(off), "correct horse"), Err(AppError::Forbidden)));
    assert!(AuthService::check_new_password("12345678").is_ok());
    assert!(matches!(AuthService::check_new_password("1234567"), Err(AppError::Validation(m)) if m == "password must be at least 8 chars"));
}
