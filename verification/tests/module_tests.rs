use linkdock::email::{reset_mail_text, test_mail_text, EmailService, SmtpSettings, SmtpTransport};
use linkdock::web::{asset_mime, content_disposition, metrics_text, spa_route, SpaRoute, UploadForm};
use linkdock::search::SearchService;
use linkdock::webdav::ensure_unlocked;
use linkdock::auth::{AuthUser, TenantRole};
use linkdock::config::{Config, ConfigVars};
use linkdock::email::{decrypt, encrypt, normalize_email, password_change, validate_settings, PasswordChange, UpdateSmtpSettings};
use linkdock::error::AppError;
use linkdock::import_service::{check_import_url, duplicate_action, DuplicateAction, ImportService};
use linkdock::num::parse_i64;
use linkdock::search::{clamp_page_size, cursor_bound, paginate, sanitize_fts_query, SearchLink};
use linkdock::session::{build_session_cookie, clear_session_cookie, extract_session_cookie};
use linkdock::site::{html_escape, SiteSettings, SiteSettingsService, UpdateSiteSettings};
use linkdock::tag::{normalize, tag_name, tag_names};
use linkdock::tenant::{last_owner_check, manage_check, member_role, tenant_name, tenant_slug};

fn config(secure: bool) -> Config {
    let vars = ConfigVars {
        data_dir: None,
        database_url: None,
        listen: None,
        session_secret: None,
        cookie_secure: Some(if secure { "1" } else { "0" }.to_string()),
        setup_token: None,
        cors_origins: None,
        webauthn_rp_id: None,
        webauthn_origin: None,
        webauthn_rp_name: None,
        public_url: None,
    };
    Config::with_secret(&vars, [0u8; 32])
}

#[test]
fn session_cookies() {
    assert_eq!(
        build_session_cookie("abc", &config(true)),
        "linkdock_session=abc; Path=/; HttpOnly; SameSite=Lax; Max-Age=2592000; Secure"
    );
    assert_eq!(build_session_cookie("abc", &config(false)), "linkdock_session=abc; Path=/; HttpOnly; SameSite=Lax; Max-Age=2592000");
    assert_eq!(clear_session_cookie(&config(false)), "linkdock_session=; Path=/; HttpOnly; SameSite=Lax; Max-Age=0");
    assert_eq!(extract_session_cookie(Some("x=1; linkdock_session= tok ")).as_deref(), Some("tok"));
    assert_eq!(extract_session_cookie(Some("linkdock_session=  ")), None);
    assert_eq!(extract_session_cookie(None), None);
}

#[test]
fn numbers_parse_like_std() {
    assert_eq!(parse_i64("42"), Some(42));
    assert_eq!(parse_i64("-7"), Some(-7));
    assert_eq!(parse_i64("+7"), Some(7));
    assert_eq!(parse_i64("9223372036854775807"), Some(i64::MAX));
    assert_eq!(parse_i64("-9223372036854775808"), Some(i64::MIN));
    assert_eq!(parse_i64("9223372036854775808"), None);
    assert_eq!(parse_i64(""), None);
    assert_eq!(parse_i64("-"), None);
    assert_eq!(parse_i64("1x"), None);
}

#[test]
fn search_queries_and_pages() {
    assert_eq!(sanitize_fts_query("rust  lang!"), "\"rust\"* \"lang\"*");
    assert_eq!(sanitize_fts_query("a\"b OR (c)"), "\"ab\"* \"OR\"* \"c\"*");
    assert_eq!(sanitize_fts_query("!!! ???"), "");
    assert_eq!(sanitize_fts_query("https://x.io/a_b-c"), "\"https://x.io/a_b-c\"*");
    assert_eq!(cursor_bound(Some("120")), 120);
    assert_eq!(cursor_bound(Some("abc")), i64::MAX);
    assert_eq!(cursor_bound(None), i64::MAX);
    assert_eq!(clamp_page_size(0, 500), 1);
    assert_eq!(clamp_page_size(900, 500), 500);
    assert_eq!(clamp_page_size(20, 500), 20);
    let l = |id: i64| SearchLink {
        id,
        name: String::new(),
        url: String::new(),
        collection_id: 0,
        description: String::new(),
        created_at: String::new(),
        updated_at: String::new(),
    };
    let page = paginate(vec![l(9), l(8), l(7)], 2);
    assert_eq!(page.links.iter().map(|x| x.id).collect::<Vec<_>>(), vec![9, 8]);
    assert_eq!(page.next_cursor.as_deref(), Some("8"));
    let last = paginate(vec![l(9), l(8)], 2);
    assert_eq!(last.links.len(), 2);
    assert_eq!(last.next_cursor, None);
}

#[test]
fn tags_trim_and_normalize() {
    assert_eq!(normalize("  Rust LANG "), "rust lang");
    assert_eq!(tag_name(" Work ").unwrap(), ("Work".to_string(), "work".to_string()));
    assert!(matches!(tag_name("  "), Err(AppError::Validation(m)) if m == "tag name length invalid"));
    assert_eq!(tag_names(&vec![" a ".to_string(), "  ".to_string(), "b".to_string()]), vec!["a", "b"]);
}

fn member(role: TenantRole, tenant_id: i64) -> AuthUser {
    AuthUser {
        user_id: 1,
        username: "u".to_string(),
        is_system_admin: false,
        tenant_id,
        tenant_role: role,
        via_token: false,
        token_id: None,
        token_scopes: None,
    }
}

#[test]
fn workspaces_and_members() {
    assert_eq!(tenant_name("  Team  ").unwrap(), "Team");
    assert!(matches!(tenant_name(""), Err(AppError::Validation(m)) if m == "tenant name length invalid"));
    assert_eq!(tenant_slug(None, "My Team"), "my-team");
    assert_eq!(tenant_slug(None, "!!!"), "ws");
    assert_eq!(tenant_slug(Some("Given Slug"), "x"), "given-slug");
    assert_eq!(member_role("viewer").unwrap(), TenantRole::Viewer);
    assert!(matches!(member_role("boss"), Err(AppError::Validation(m)) if m == "invalid role"));
    assert!(manage_check(&member(TenantRole::Admin, 1), 1, None).is_ok());
    assert!(matches!(manage_check(&member(TenantRole::Editor, 1), 1, None), Err(AppError::Forbidden)));
    assert!(manage_check(&member(TenantRole::Viewer, 1), 2, Some("owner")).is_ok());
    assert!(matches!(manage_check(&member(TenantRole::Owner, 1), 2, Some("editor")), Err(AppError::Forbidden)));
    assert!(matches!(manage_check(&member(TenantRole::Owner, 1), 2, None), Err(AppError::Forbidden)));
    assert!(matches!(last_owner_check(true, 1, true), Err(AppError::Validation(m)) if m == "cannot remove the last owner"));
    assert!(matches!(last_owner_check(true, 1, false), Err(AppError::Validation(m)) if m == "cannot demote the last owner"));
    assert!(last_owner_check(true, 2, true).is_ok());
    assert!(last_owner_check(false, 1, true).is_ok());
}

#[test]
fn site_settings_and_tdk() {
    assert_eq!(html_escape("a<b>&\"c'"), "a&lt;b&gt;&amp;&quot;c'");
    let update = UpdateSiteSettings {
        site_name: " Dock ".to_string(),
        site_title: " Title ".to_string(),
        site_description: " d ".to_string(),
        site_keywords: "".to_string(),
    };
    let s = SiteSettingsService::prepare_update(&update).unwrap();
    assert_eq!((s.site_name.as_str(), s.site_title.as_str(), s.site_description.as_str()), ("Dock", "Title", "d"));
    let blank = UpdateSiteSettings {
        site_name: "  ".to_string(),
        site_title: "t".to_string(),
        site_description: String::new(),
        site_keywords: String::new(),
    };
    assert!(matches!(SiteSettingsService::prepare_update(&blank), Err(AppError::Validation(m)) if m == "site name and title are required"));
    let settings = SiteSettings {
        site_name: "Dock".to_string(),
        site_title: "New & Shiny".to_string(),
        site_description: "About".to_string(),
        site_keywords: String::new(),
    };
    let html = "<html><head><title>Old</title><meta name=\"description\" content=\"x\"><meta charset=\"utf-8\"></head></html>";
    assert_eq!(
        SiteSettingsService::inject_tdk(html, &settings),
        "<html><head>\n    <meta name=\"description\" content=\"About\" /><title>New &amp; Shiny</title><meta charset=\"utf-8\"></head></html>"
    );
}

fn smtp(security: &str, port: u16, password: Option<&str>) -> UpdateSmtpSettings {
    UpdateSmtpSettings {
        enabled: true,
        host: "smtp.example.com".to_string(),
        port,
        security: security.to_string(),
        username: "mailer".to_string(),
        password: password.map(|p| p.to_string()),
        from_email: "noreply@example.com".to_string(),
        from_name: "Dock".to_string(),
    }
}

#[test]
fn email_rules_and_secrets() {
    assert_eq!(normalize_email("  Ann@Example.COM ").unwrap(), "ann@example.com");
    for bad in ["", "a@b", "@b.c", "a@b.c@d", "a b@c.d", "ab.c"] {
        assert!(matches!(normalize_email(bad), Err(AppError::Validation(m)) if m == "invalid email address"), "{}", bad);
    }
    assert!(validate_settings(&smtp("starttls", 587, None)).is_ok());
    assert!(matches!(validate_settings(&smtp("ssl", 587, None)), Err(AppError::Validation(m)) if m == "invalid SMTP security mode"));
    assert!(matches!(password_change(&Some("pw".to_string())), PasswordChange::Replace(p) if p == "pw"));
    assert!(matches!(password_change(&Some(String::new())), PasswordChange::Clear));
    assert!(matches!(password_change(&None), PasswordChange::Keep));
    let key = [3u8; 32];
    let sealed = encrypt("smtp-secret", &key).unwrap();
    assert_ne!(sealed, "smtp-secret");
    assert_eq!(decrypt(&sealed, &key).unwrap(), "smtp-secret");
    assert!(decrypt(&sealed, &[4u8; 32]).is_err());
    assert!(matches!(decrypt("not base64!", &key), Err(AppError::Internal(_))));
    assert!(matches!(decrypt("AAAAAAAAAAAAAAAAAA==", &key), Err(AppError::Internal(_))));
    assert_ne!(encrypt("smtp-secret", &key).unwrap(), sealed);
}

#[test]
fn import_checks() {
    assert_eq!(check_import_url("  https://a.example ").unwrap(), "https://a.example");
    assert!(matches!(check_import_url("JavaScript:alert(1)"), Err(AppError::Validation(m)) if m == "unsupported protocol"));
    assert_eq!(check_import_url("FTP://files.example/a").unwrap(), "FTP://files.example/a");
    assert!(matches!(check_import_url("   "), Err(AppError::Validation(m)) if m == "invalid url"));
    assert!(matches!(check_import_url("mailto:x@y.z"), Err(AppError::Validation(m)) if m == "unsupported protocol"));
    assert_eq!(duplicate_action("keep", Some(4)), DuplicateAction::Create);
    assert_eq!(duplicate_action("skip", Some(4)), DuplicateAction::Skip);
    assert_eq!(duplicate_action("update", Some(4)), DuplicateAction::Update(4));
    assert_eq!(duplicate_action("skip", None), DuplicateAction::Create);
    assert_eq!(duplicate_action("other", Some(4)), DuplicateAction::Create);
}

#[test]
fn import_formats_and_preview() {
    let csv = "URL,Title,Folder\nhttps://a,A,Work/Docs\nhttps://b,B,\n";
    let b = ImportService::parse("csv", csv).unwrap();
    assert_eq!(b.len(), 2);
    assert_eq!(b[0].url, "https://a");
    assert_eq!(b[0].name, "A");
    assert_eq!(b[0].folder_path, vec!["Work", "Docs"]);
    assert!(b[1].folder_path.is_empty());
    assert!(matches!(ImportService::parse("pdf", "x"), Err(AppError::Validation(m)) if m == "unknown format: pdf"));
    let json = r#"{"collections":[{"id":1,"name":"Top","parentId":null},{"id":2,"name":"Sub","parentId":1}],
        "links":[{"url":"https://x","name":"X","collectionId":2,"description":"d"}]}"#;
    let j = ImportService::parse("json", json).unwrap();
    assert_eq!(j.len(), 1);
    assert_eq!(j[0].folder_path, vec!["Top", "Sub"]);
    assert_eq!(j[0].description, "d");
    assert!(ImportService::parse("json", "{not json").is_err());
    let p = ImportService::preview("csv", &b);
    assert_eq!(p.total_bookmarks, 2);
    assert_eq!(p.total_folders, 1);
    assert_eq!(p.folders, vec!["Work / Docs"]);
    assert_eq!(p.sample.len(), 2);
}

#[test]
fn mail_texts_and_transport() {
    let (subject, body) = reset_mail_text("https://dock.example", "tok123");
    assert_eq!(subject, "Reset your Linkdock password");
    assert_eq!(
        body,
        "A password reset was requested for your Linkdock account.\n\nOpen this link within one hour:\nhttps://dock.example/reset-password?token=tok123\n\nIf you did not request this, you can ignore this email."
    );
    assert_eq!(test_mail_text().0, "Linkdock email test");
    assert_eq!(EmailService::transport("tls").unwrap(), SmtpTransport::Tls);
    assert_eq!(EmailService::transport("starttls").unwrap(), SmtpTransport::StartTls);
    assert_eq!(EmailService::transport("none").unwrap(), SmtpTransport::Plain);
    assert!(matches!(EmailService::transport("ssl"), Err(AppError::Validation(m)) if m == "invalid SMTP security mode"));
    let mut s = SmtpSettings {
        enabled: true,
        host: "smtp.example.com".to_string(),
        port: 587,
        security: "starttls".to_string(),
        username: String::new(),
        password_configured: false,
        from_email: "noreply@example.com".to_string(),
        from_name: "Dock".to_string(),
    };
    assert_eq!(EmailService::mail_recipient(&s, " Bob@Example.com ").unwrap(), "bob@example.com");
    assert!(matches!(EmailService::mail_recipient(&s, "nope"), Err(AppError::Validation(m)) if m == "invalid email address"));
    let key = [5u8; 32];
    assert!(matches!(EmailService::credentials(&s, None, &key), Ok(None)));
    s.username = "mailer".to_string();
    assert!(matches!(EmailService::credentials(&s, None, &key), Err(AppError::Validation(m)) if m == "SMTP password is not configured"));
    let sealed = encrypt("pw", &key).unwrap();
    assert_eq!(EmailService::credentials(&s, Some(&sealed), &key).unwrap(), Some(("mailer".to_string(), "pw".to_string())));
    s.from_email = "not an address".to_string();
    assert!(matches!(EmailService::mail_recipient(&s, "bob@example.com"), Err(AppError::Validation(m)) if m == "invalid SMTP sender email address"));
    s.enabled = false;
    assert!(matches!(EmailService::mail_recipient(&s, "bob@example.com"), Err(AppError::Validation(m)) if m == "email delivery is not configured"));
}

#[test]
fn web_texts_routes_and_uploads() {
    assert_eq!(
        metrics_text(3, 2, 40, 5, -1),
        "# HELP linkwarden_users_total Total number of registered users.\n# TYPE linkwarden_users_total gauge\nlinkwarden_users_total 3\n\
# HELP linkwarden_tenants_total Total number of workspaces.\n# TYPE linkwarden_tenants_total gauge\nlinkwarden_tenants_total 2\n\
# HELP linkwarden_links_total Total number of active bookmarks.\n# TYPE linkwarden_links_total gauge\nlinkwarden_links_total 40\n\
# HELP linkwarden_collections_total Total number of active collections.\n# TYPE linkwarden_collections_total gauge\nlinkwarden_collections_total 5\n\
# HELP linkwarden_active_sessions Total number of active sessions.\n# TYPE linkwarden_active_sessions gauge\nlinkwarden_active_sessions -1\n"
    );
    assert_eq!(content_disposition("bookmarks.csv"), "attachment; filename=\"bookmarks.csv\"");
    assert_eq!(spa_route("/api/v1/collections"), SpaRoute::ApiNotFound);
    assert_eq!(spa_route("//assets/app.js"), SpaRoute::Asset("assets/app.js".to_string()));
    assert_eq!(spa_route("/"), SpaRoute::Index);
    assert_eq!(spa_route("/bookmarks"), SpaRoute::Asset("bookmarks".to_string()));
    assert_eq!(asset_mime("assets/app.js"), "text/javascript");
    assert_eq!(asset_mime("index.html"), "text/html");
    assert_eq!(asset_mime("blob"), "application/octet-stream");
    let mut f = UploadForm::new();
    assert_eq!(f.format, "html");
    f.take_format("csv".to_string());
    assert!(matches!(f.take_file(&vec![0u8; 2 * 1048576 + 1], 2), Err(AppError::Validation(m)) if m == "file too large (max 2MB)"));
    assert!(f.take_file(&[b'a', 0xff, b'b'], 2).is_ok());
    assert_eq!(f.content, "a\u{fffd}b");
    assert_eq!(f.finish().unwrap(), ("csv".to_string(), "a\u{fffd}b".to_string()));
    assert!(matches!(UploadForm::new().finish(), Err(AppError::Validation(m)) if m == "no file uploaded"));
}

#[test]
fn editor_respects_live_locks_and_search_plans() {
    assert!(matches!(ensure_unlocked(Some(9_800), 10_000), Err(AppError::Locked)));
    assert!(matches!(ensure_unlocked(Some(9_700), 10_000), Err(AppError::Locked)));
    assert!(ensure_unlocked(Some(9_699), 10_000).is_ok());
    assert!(ensure_unlocked(None, 10_000).is_ok());
    let p = SearchService::plan("  ", Some("50"), 0, 500);
    assert!(p.fts_query.is_none());
    assert_eq!((p.after_id, p.limit, p.page_size), (50, 2, 1));
    let q = SearchService::plan("rust!", None, 900, 500);
    assert_eq!(q.fts_query.as_deref(), Some("\"rust\"*"));
    assert_eq!((q.after_id, q.limit, q.page_size), (i64::MAX, 501, 500));
}
