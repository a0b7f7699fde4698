use linkdock::auth::{AuthUser, TenantRole};
use linkdock::bookmark::{is_xbel_name, trim_suffixes, BookmarkService};
use linkdock::xbel_read::parse_xbel;
use linkdock::collection::CollectionService;
use linkdock::config::{Config, ConfigVars};
use linkdock::domain::{BookmarkNode, Collection};
use linkdock::error::AppError;
use linkdock::import_service::{folder_cache_key, folder_steps, uses_fallback, ImportOutcome, ImportResult};
use linkdock::webdav::{
    delete_plan, delete_status, format_http_date, lock_expired, lock_put_status, may_write_locked, move_target,
    normalize_path, percent_decode, put_plan, DeletePlan, PutPlan,
};

fn no_vars() -> ConfigVars {
    ConfigVars {
        data_dir: None,
        database_url: None,
        listen: None,
        session_secret: None,
        cookie_secure: None,
        setup_token: None,
        cors_origins: None,
        webauthn_rp_id: None,
        webauthn_origin: None,
        webauthn_rp_name: None,
        public_url: None,
    }
}

#[test]
fn config_defaults() {
    let c = Config::with_secret(&no_vars(), [7u8; 32]);
    assert_eq!(c.data_dir, "data");
    assert_eq!(c.database_url, "sqlite://data/linkdock.sqlite3?mode=rwc");
    assert_eq!(c.listen_addr, "0.0.0.0:3000");
    assert_eq!(c.session_secret, [7u8; 32]);
    assert_eq!(c.session_ttl_hours, 720);
    assert!(c.cookie_secure);
    assert_eq!(c.setup_token, None);
    assert_eq!(c.webauthn_rp_id, "localhost");
    assert_eq!(c.webauthn_rp_origin, "http://localhost:3000");
    assert_eq!(c.webauthn_rp_name, "Linkdock");
    assert_eq!(c.public_url, "http://localhost:3000");
    assert!(c.cors_origins.is_empty());
    assert_eq!((c.max_upload_mb, c.default_page_size, c.max_page_size), (50, 50, 500));
}

#[test]
fn config_from_variables() {
    let mut v = no_vars();
    v.data_dir = Some("/srv/dock".to_string());
    v.listen = Some("10.0.0.5:80".to_string());
    v.session_secret = Some("0001020304050607080910111213141516171819202122232425262728293031".to_string());
    v.setup_token = Some("  tok  ".to_string());
    v.cors_origins = Some(" https://a.example, ,https://b.example,".to_string());
    v.public_url = Some("https://dock.example//".to_string());
    let c = Config::with_secret(&v, [0u8; 32]);
    assert_eq!(c.database_url, "sqlite:///srv/dock/linkdock.sqlite3?mode=rwc");
    assert!(c.cookie_secure);
    assert_eq!(c.session_secret[1], 1);
    assert_eq!(c.session_secret[31], 0x31);
    assert_eq!(c.setup_token.as_deref(), Some("tok"));
    assert_eq!(c.cors_origins, vec!["https://a.example", "", "https://b.example"]);
    assert_eq!(c.public_url, "https://dock.example");
}

#[test]
fn config_secret_and_cookie_edge_cases() {
    let mut v = no_vars();
    v.session_secret = Some("abcd".to_string());
    v.cookie_secure = Some("FALSE".to_string());
    v.setup_token = Some("   ".to_string());
    let c = Config::with_secret(&v, [9u8; 32]);
    assert_eq!(c.session_secret, [9u8; 32]);
    assert!(!c.cookie_secure);
    assert_eq!(c.setup_token, None);
    v.cookie_secure = Some("yes".to_string());
    v.session_secret = Some("zz".repeat(32));
    let c = Config::with_secret(&v, [9u8; 32]);
    assert!(c.cookie_secure);
    assert_eq!(c.session_secret, [9u8; 32]);
    v.cookie_secure = None;
    v.listen = Some("127.0.0.1:3000".to_string());
    assert!(Config::with_secret(&v, [0u8; 32]).cookie_secure);
    v.cookie_secure = Some("0".to_string());
    assert!(!Config::with_secret(&v, [0u8; 32]).cookie_secure);
    let r = Config::from_vars(&no_vars());
    assert_eq!(r.session_secret.len(), 32);
}

#[test]
fn error_texts() {
    assert_eq!(AppError::NotFound.message(), "not found");
    assert_eq!(AppError::Validation("bad".to_string()).message(), "validation: bad");
    assert_eq!(AppError::Validation("bad".to_string()).response_message(), "bad");
    assert_eq!(AppError::Internal("db".to_string()).response_message(), "internal error");
    assert_eq!(AppError::CircularRef.response_message(), "circular collection reference");
    assert!(AppError::Internal(String::new()).is_server_error());
    assert!(!AppError::Forbidden.is_server_error());
    assert_eq!(AppError::RateLimited.status(), 429);
    assert_eq!(AppError::Conflict("x".to_string()).code(), "conflict");
}

#[test]
fn import_tally_counts_outcomes() {
    let mut r = ImportResult::start(4);
    r.record(0, "https://a", &Ok(ImportOutcome::Created));
    r.record(1, "https://b", &Ok(ImportOutcome::Skipped));
    r.record(2, "ftp:x", &Err(AppError::Validation("unsupported protocol".to_string())));
    r.record(3, "https://d", &Ok(ImportOutcome::Updated));
    assert_eq!((r.total, r.success, r.skipped, r.failed), (4, 2, 1, 1));
    assert_eq!(r.errors, vec!["bookmark #3 (ftp:x): validation: unsupported protocol"]);
}

#[test]
fn folder_paths_become_steps() {
    let p = vec![" Work ".to_string(), "  ".to_string(), "Docs".to_string()];
    assert!(!uses_fallback(&p));
    assert!(uses_fallback(&vec![" ".to_string(), String::new()]));
    assert!(uses_fallback(&vec![]));
    let steps = folder_steps(&p);
    assert_eq!(steps, vec![("Work".to_string(), "Work".to_string()), ("Docs".to_string(), "Work/Docs".to_string())]);
    assert_eq!(folder_cache_key(&p), " Work /  /Docs");
    assert_eq!(folder_cache_key(&vec![]), "");
}

#[test]
fn webdav_paths_and_dates() {
    assert_eq!(normalize_path("/a/b.xbel/").as_deref(), Some("a/b.xbel"));
    assert_eq!(normalize_path("a/../b"), None);
    assert_eq!(normalize_path("//"), None);
    assert_eq!(percent_decode("my%20file%2Exbel").as_deref(), Some("my file.xbel"));
    assert_eq!(percent_decode("bad%2"), None);
    assert_eq!(percent_decode("%ff"), None);
    assert_eq!(format_http_date(0), "Thu, 01 Jan 1970 00:00:00 GMT");
    assert_eq!(format_http_date(-5), "Thu, 01 Jan 1970 00:00:00 GMT");
    assert_eq!(format_http_date(1700000000), "Tue, 14 Nov 2023 22:13:20 GMT");
}

#[test]
fn webdav_locks_and_plans() {
    let now = 10_000;
    assert!(lock_expired(now - 301, now));
    assert!(!lock_expired(now - 300, now));
    assert!(may_write_locked(None, 4, now));
    assert!(may_write_locked(Some((4, now)), 4, now));
    assert!(!may_write_locked(Some((5, now)), 4, now));
    assert!(may_write_locked(Some((5, now - 400)), 4, now));
    assert!(matches!(put_plan("bookmarks.xbel.lock", true, Some(3)), PutPlan::Lock { document, token_id: 3 } if document == "bookmarks.xbel"));
    assert!(matches!(put_plan("bookmarks.xbel.temp.temp", true, Some(3)), PutPlan::Stage { document, .. } if document == "bookmarks.xbel"));
    assert!(matches!(put_plan("Bookmarks.XBEL", true, Some(3)), PutPlan::Replace { token_id: 3 }));
    assert!(matches!(put_plan("notes.txt", true, Some(3)), PutPlan::Unsupported));
    assert!(matches!(put_plan("bookmarks.xbel", true, None), PutPlan::Forbidden));
    assert!(matches!(put_plan("bookmarks.xbel", false, Some(3)), PutPlan::Forbidden));
    assert_eq!(lock_put_status(1), 201);
    assert_eq!(lock_put_status(0), 423);
    let unlock = delete_plan("b.xbel.lock", true);
    assert!(matches!(&unlock, DeletePlan::Unlock { document } if document == "b.xbel"));
    assert_eq!(delete_status(&unlock, 0), 423);
    assert_eq!(delete_status(&unlock, 1), 204);
    assert_eq!(delete_status(&delete_plan("b.xbel.temp", true), 0), 404);
    assert_eq!(delete_status(&delete_plan("b.xbel", true), 0), 404);
    assert_eq!(delete_status(&delete_plan("b.xbel", false), 1), 403);
    assert_eq!(move_target("b.xbel.temp", true, Some("https://h/webdav/b.xbel")), Ok("b.xbel".to_string()));
    assert_eq!(move_target("b.xbel.temp", true, Some("/webdav/my%20b.XBEL")), Ok("my b.XBEL".to_string()));
    assert_eq!(move_target("b.xbel.temp", true, Some("https://h/other/b.xbel")), Err(400));
    assert_eq!(move_target("b.xbel.temp", true, Some("https://h/webdav/b.txt")), Err(400));
    assert_eq!(move_target("b.xbel.temp", true, None), Err(400));
    assert_eq!(move_target("b.xbel", true, Some("https://h/webdav/b.xbel")), Err(403));
    assert_eq!(move_target("b.xbel.temp", false, Some("https://h/webdav/b.xbel")), Err(403));
}

fn col(id: i64, parent: Option<i64>) -> Collection {
    Collection {
        id,
        uuid: String::new(),
        tenant_id: 1,
        parent_id: parent,
        name: format!("c{}", id),
        description: String::new(),
        color: None,
        position: 0,
        created_by: 1,
        deleted_at: None,
        created_at: String::new(),
        updated_at: String::new(),
    }
}

#[test]
fn descendants_are_found_in_search_order() {
    let rows = vec![(1, None), (2, Some(1)), (3, Some(1)), (4, Some(2)), (5, Some(3)), (6, None)];
    assert_eq!(CollectionService::collect_descendants(&rows, 1), vec![2, 3, 5, 4]);
    assert_eq!(CollectionService::collect_descendants(&rows, 6), Vec::<i64>::new());
    let cols: Vec<Collection> = rows.iter().map(|(i, p)| col(*i, *p)).collect();
    assert!(CollectionService::is_descendant(&cols, 4, 1));
    assert!(!CollectionService::is_descendant(&cols, 6, 1));
    assert!(!CollectionService::is_descendant(&cols, 1, 4));
}

fn node(id: i64, parent: Option<i64>, kind: &str, ext: &str, title: &str, url: Option<&str>) -> BookmarkNode {
    BookmarkNode {
        id,
        uuid: String::new(),
        document_id: 1,
        user_id: 1,
        parent_id: parent,
        node_type: kind.to_string(),
        external_id: ext.to_string(),
        title: title.to_string(),
        url: url.map(|u| u.to_string()),
        description: String::new(),
        color: None,
        position: 0,
        created_by: 1,
        deleted_at: None,
        created_at: String::new(),
        updated_at: String::new(),
    }
}

#[test]
fn stored_nodes_serialize_in_stored_order() {
    let nodes = vec![
        node(1, None, "bookmark", "1", "First", Some("https://1")),
        node(2, None, "folder", "2", "Middle folder", None),
        node(3, Some(2), "bookmark", "3", "Nested", Some("https://3")),
        node(4, None, "separator", "4", "", None),
        node(5, None, "bookmark", "5", "Last", Some("https://5")),
    ];
    let xml = BookmarkService::serialize_xbel("Bar", 6, nodes);
    assert_eq!(
        xml,
        [
            "<?xml version=\"1.0\" encoding=\"UTF-8\"?>",
            "<xbel version=\"1.0\">",
            "  <title>Bar</title>",
            "  <bookmark href=\"https://1\" id=\"1\">",
            "    <title>First</title>",
            "  </bookmark>",
            "  <folder id=\"2\">",
            "    <title>Middle folder</title>",
            "    <bookmark href=\"https://3\" id=\"3\">",
            "      <title>Nested</title>",
            "    </bookmark>",
            "  </folder>",
            "  <separator id=\"4\"/>",
            "  <bookmark href=\"https://5\" id=\"5\">",
            "    <title>Last</title>",
            "  </bookmark>",
            "  <!--- highestId :5: -->",
            "</xbel>",
            "",
        ]
        .join("\n")
    );
}

fn writer() -> AuthUser {
    AuthUser {
        user_id: 1,
        username: "u".to_string(),
        is_system_admin: false,
        tenant_id: 1,
        tenant_role: TenantRole::Owner,
        via_token: true,
        token_id: Some(2),
        token_scopes: Some("bookmarks:read bookmarks:write".to_string()),
    }
}

#[test]
fn uploads_keep_stable_ids_and_get_new_ones() {
    let xbel = "<?xml version=\"1.0\"?><xbel version=\"1.0\"><title>T</title>\
<folder id=\"7\"><title>F</title><bookmark href=\"https://a\" id=\"x\"><title>A</title></bookmark>\
<bookmark href=\"https://b\" id=\"7\"><title>B</title></bookmark></folder><separator/></xbel>";
    let (title, flat, next) = BookmarkService::plan_replace(&writer(), xbel.as_bytes(), 3).unwrap();
    assert_eq!(title, "T");
    assert_eq!(flat.len(), 4);
    let ids: Vec<String> = flat.iter().map(|f| f.node.external_id.clone().unwrap()).collect();
    assert_eq!(ids, vec!["7", "x", "8", "9"]);
    assert_eq!(next, 10);
    let parents: Vec<Option<usize>> = flat.iter().map(|f| f.parent_index).collect();
    assert_eq!(parents, vec![None, Some(0), Some(0), None]);
    let positions: Vec<i64> = flat.iter().map(|f| f.position).collect();
    assert_eq!(positions, vec![0, 0, 1, 1]);
    let mut reader = writer();
    reader.token_scopes = Some("bookmarks:read".to_string());
    assert!(matches!(BookmarkService::plan_replace(&reader, xbel.as_bytes(), 1), Err(AppError::Forbidden)));
    assert!(matches!(
        BookmarkService::plan_replace(&writer(), &[0xff, 0xfe], 1),
        Err(AppError::Validation(m)) if m == "XBEL must be UTF-8"
    ));
    assert!(matches!(BookmarkService::plan_replace(&writer(), b"<xbel><folder>", 1), Err(AppError::Validation(_))));
}

#[test]
fn upload_checks_come_before_the_path_check() {
    let xbel = "<?xml version=\"1.0\"?><xbel version=\"1.0\"><title>T</title><separator/></xbel>";
    let mut reader = writer();
    reader.token_scopes = Some("bookmarks:read".to_string());
    assert!(matches!(BookmarkService::read_upload(&reader, "bad", xbel.as_bytes()), Err(AppError::Forbidden)));
    assert!(matches!(
        BookmarkService::read_upload(&writer(), "bad", &[0xff, 0xfe]),
        Err(AppError::Validation(m)) if m == "XBEL must be UTF-8"
    ));
    assert!(matches!(
        BookmarkService::read_upload(&writer(), "bad", xbel.as_bytes()),
        Err(AppError::Validation(m)) if m == "sync document path must end in .xbel"
    ));
    let doc = BookmarkService::read_upload(&writer(), "Bookmarks.XBEL", xbel.as_bytes()).unwrap();
    assert_eq!(doc.title, "T");
    let (title, flat, next) = BookmarkService::plan_upload(doc, 0).unwrap();
    assert_eq!((title.as_str(), flat.len(), next), ("T", 1, 2));
}

#[test]
fn document_names() {
    assert!(is_xbel_name("a.XBEL"));
    assert!(!is_xbel_name("a.xbel.temp"));
    assert_eq!(trim_suffixes("a.temp.temp", ".temp"), "a");
    assert_eq!(trim_suffixes("a.xbel", ".temp"), "a.xbel");
}

#[test]
fn upload_stored_and_served_keeps_mixed_order() {
    let xbel = "<?xml version=\"1.0\"?><xbel version=\"1.0\"><title>T</title>\
<bookmark href=\"https://a\" id=\"1\"><title>A</title></bookmark>\
<folder id=\"2\"><title>F</title><separator id=\"3\"/><bookmark href=\"https://b\" id=\"4\"><title>B</title><desc>d</desc></bookmark></folder>\
<separator id=\"5\"/><bookmark href=\"https://c\" id=\"6\"><title>C</title></bookmark></xbel>";
    let (title, flat, next) = BookmarkService::plan_replace(&writer(), xbel.as_bytes(), 1).unwrap();
    // Row ids that do not follow document order, as reused rows would have.
    let ids: Vec<i64> = (0..flat.len() as i64).map(|i| 100 - 7 * i).collect();
    let mut rows: Vec<BookmarkNode> = flat
        .iter()
        .enumerate()
        .map(|(k, f)| BookmarkNode {
            id: ids[k],
            uuid: String::new(),
            document_id: 1,
            user_id: 1,
            parent_id: f.parent_index.map(|j| ids[j]),
            node_type: f.node.node_type.as_str().to_string(),
            external_id: f.node.external_id.clone().unwrap(),
            title: f.node.title.clone(),
            url: f.node.url.clone(),
            description: f.node.description.clone(),
            color: None,
            position: f.position,
            created_by: 1,
            deleted_at: None,
            created_at: String::new(),
            updated_at: String::new(),
        })
        .collect();
    rows.sort_by_key(|r| (r.position, r.id));
    let served = BookmarkService::serialize_xbel(&title, next, rows);
    let again = parse_xbel(&served).unwrap();
    let first = parse_xbel(xbel).unwrap();
    assert_eq!(again.title, first.title);
    assert_eq!(format!("{:?}", again.nodes), format!("{:?}", first.nodes));
}
