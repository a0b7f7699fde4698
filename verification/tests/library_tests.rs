use linkdock::auth::{AuthUser, TenantRole};
use linkdock::bookmark::{
    allocate_external_id, build_tree, check_document_path, check_reorder, default_document_title, resolve_update,
    validate_node_input, UpdateNodeInput,
};
use linkdock::collection::{build_tree as collection_tree, collection_name, resolve_collection_update, UpdateCollectionInput};
use linkdock::domain::{BookmarkNode, Collection, Link, Tenant, TenantMember};
use linkdock::error::AppError;
use linkdock::import_service::resolve_json_path;
use linkdock::links::{default_limit, link_url, moves_collection, require_admin, resolve_link_update, webauthn_error, LwCollection, LwLink, UpdateLinkInput};
use linkdock::search::SearchLink;
use linkdock::site::{inject_meta, strip_meta, title_in_order};
use linkdock::tenant::with_roles;
use linkdock::webdav::{basic_token, destination_path, hex_digit, propfind_xml, xml_escape};

fn col(id: i64, parent: Option<i64>, name: &str) -> Collection {
    Collection {
        id,
        uuid: String::new(),
        tenant_id: 1,
        parent_id: parent,
        name: name.to_string(),
        description: "d".to_string(),
        color: None,
        position: 0,
        created_by: 4,
        deleted_at: None,
        created_at: String::new(),
        updated_at: String::new(),
    }
}

#[test]
fn collection_tree_sorts_top_level_by_name() {
    let cols = vec![col(1, None, "Zeta"), col(2, Some(1), "b"), col(3, None, "Alpha"), col(4, Some(1), "a")];
    let t = collection_tree(&cols);
    assert_eq!(t.iter().map(|n| n.name.as_str()).collect::<Vec<_>>(), vec!["Alpha", "Zeta"]);
    assert_eq!(t[1].children.iter().map(|n| n.id).collect::<Vec<_>>(), vec![2, 4]);
    assert!(t[0].children.is_empty());
}

#[test]
fn collection_names_and_edits() {
    assert_eq!(collection_name("  Reading  ").unwrap(), "Reading");
    assert!(matches!(collection_name(""), Err(AppError::Validation(m)) if m == "collection name length invalid"));
    let existing = col(5, Some(1), "Old");
    let keep = UpdateCollectionInput { name: None, parent_id: None, description: None, color: None };
    let e = resolve_collection_update(5, &existing, keep, false).unwrap();
    assert_eq!((e.name.as_str(), e.parent_id, e.description.as_str()), ("Old", Some(1), "d"));
    let mv = UpdateCollectionInput { name: Some(" New ".to_string()), parent_id: Some(None), description: None, color: Some(Some("red".to_string())) };
    let e = resolve_collection_update(5, &existing, mv, false).unwrap();
    assert_eq!((e.name.as_str(), e.parent_id, e.color.as_deref()), ("New", None, Some("red")));
    let self_parent = UpdateCollectionInput { name: None, parent_id: Some(Some(5)), description: None, color: None };
    assert!(matches!(resolve_collection_update(5, &existing, self_parent, false), Err(AppError::CircularRef)));
    let under_child = UpdateCollectionInput { name: None, parent_id: Some(Some(9)), description: None, color: None };
    assert!(matches!(resolve_collection_update(5, &existing, under_child, true), Err(AppError::CircularRef)));
}

fn link() -> Link {
    Link {
        id: 1,
        uuid: String::new(),
        tenant_id: 1,
        collection_id: 2,
        url: "https://a".to_string(),
        name: "A".to_string(),
        description: "x".to_string(),
        position: 0,
        created_by: 1,
        deleted_at: None,
        created_at: String::new(),
        updated_at: String::new(),
    }
}

#[test]
fn links_and_their_edits() {
    assert_eq!(link_url(" https://a ").unwrap(), "https://a");
    assert!(matches!(link_url(" "), Err(AppError::Validation(m)) if m == "url length invalid"));
    let req = UpdateLinkInput { url: None, name: Some("B".to_string()), description: None, collection_id: Some(3), tags: None };
    assert!(moves_collection(&link(), &req));
    let e = resolve_link_update(&link(), req);
    assert_eq!((e.url.as_str(), e.name.as_str(), e.description.as_str(), e.collection_id), ("https://a", "B", "x", 3));
    let same = UpdateLinkInput { url: None, name: None, description: None, collection_id: Some(2), tags: None };
    assert!(!moves_collection(&link(), &same));
    let c = LwCollection::from(col(7, None, "C"));
    assert_eq!((c.id, c.name.as_str(), c.owner_id), (7, "C", 4));
    let s = SearchLink {
        id: 3,
        name: "n".to_string(),
        url: "u".to_string(),
        collection_id: 9,
        description: String::new(),
        created_at: String::new(),
        updated_at: String::new(),
    };
    let l = LwLink::from_search(s);
    assert_eq!((l.id, l.collection_id), (3, 9));
    assert!(matches!(webauthn_error(), AppError::Validation(m) if m == "passkey verification failed"));
    assert_eq!(default_limit(), 100);
    let admin = AuthUser {
        user_id: 1,
        username: "a".to_string(),
        is_system_admin: true,
        tenant_id: 1,
        tenant_role: TenantRole::Viewer,
        via_token: false,
        token_id: None,
        token_scopes: None,
    };
    assert!(require_admin(&admin).is_ok());
    assert!(matches!(require_admin(&AuthUser { is_system_admin: false, ..admin }), Err(AppError::Forbidden)));
}

#[test]
fn workspaces_show_the_users_role() {
    let t = |id: i64| Tenant {
        id,
        uuid: String::new(),
        name: format!("t{}", id),
        slug: String::new(),
        created_by: 1,
        created_at: String::new(),
        updated_at: String::new(),
    };
    let m = |tenant_id: i64, role: &str| TenantMember {
        tenant_id,
        user_id: 1,
        role: role.to_string(),
        created_at: String::new(),
        updated_at: String::new(),
    };
    let r = with_roles(vec![t(1), t(2)], &vec![m(1, "viewer"), m(1, "owner")]);
    assert_eq!(r.iter().map(|x| x.role.as_str()).collect::<Vec<_>>(), vec!["owner", "member"]);
}

fn node(id: i64, parent: Option<i64>, kind: &str) -> BookmarkNode {
    BookmarkNode {
        id,
        uuid: String::new(),
        document_id: 1,
        user_id: 1,
        parent_id: parent,
        node_type: kind.to_string(),
        external_id: id.to_string(),
        title: format!("n{}", id),
        url: if kind == "bookmark" { Some("https://x".to_string()) } else { None },
        description: String::new(),
        color: None,
        position: 0,
        created_by: 1,
        deleted_at: None,
        created_at: String::new(),
        updated_at: String::new(),
    }
}

#[test]
fn document_trees_keep_stored_order_and_tags() {
    let nodes = vec![node(1, None, "folder"), node(2, Some(1), "bookmark"), node(3, None, "separator"), node(4, Some(1), "bookmark"), node(5, Some(99), "bookmark")];
    let tags = vec![(2, "a".to_string()), (2, "b".to_string()), (4, "c".to_string())];
    let t = build_tree(nodes, tags);
    assert_eq!(t.len(), 2);
    assert_eq!(t[0].node.id, 1);
    assert_eq!(t[0].children.iter().map(|c| c.node.id).collect::<Vec<_>>(), vec![2, 4]);
    assert_eq!(t[0].children[0].tags, vec!["a", "b"]);
    assert_eq!(t[1].node.id, 3);
}

#[test]
fn node_checks() {
    assert!(check_document_path("bookmarks.xbel").is_ok());
    assert!(matches!(check_document_path("notes.txt"), Err(AppError::Validation(m)) if m == "sync document path must end in .xbel"));
    assert!(check_document_path("").is_err());
    assert_eq!(default_document_title("bookmarks.xbel"), "bookmarks");
    assert!(validate_node_input("folder", "F", None).is_ok());
    assert!(matches!(validate_node_input("link", "F", None), Err(AppError::Validation(m)) if m == "invalid node_type"));
    assert!(matches!(validate_node_input("bookmark", "B", Some("  ")), Err(AppError::Validation(m)) if m == "bookmark URL is invalid"));
    assert!(matches!(validate_node_input("folder", &"t".repeat(201), None), Err(AppError::Validation(m)) if m == "title is too long"));
    assert!(check_reorder(&vec![1, 2, 3], &vec![3, 1, 2]).is_ok());
    assert!(matches!(check_reorder(&vec![1, 2, 3], &vec![3, 1]), Err(AppError::Validation(m)) if m == "node_ids must contain every sibling exactly once"));
    assert!(check_reorder(&vec![1, 2, 3], &vec![3, 1, 4]).is_err());
    let existing = node(7, Some(1), "bookmark");
    let req = UpdateNodeInput { parent_id: Some(None), title: Some(" T ".to_string()), url: None, description: None, tags: None };
    let e = resolve_update(7, &existing, req, false).unwrap();
    assert_eq!(e.parent_id, None);
    assert_eq!(e.url.as_deref(), Some("https://x"));
    let cyc = UpdateNodeInput { parent_id: Some(Some(7)), title: None, url: None, description: None, tags: None };
    assert!(matches!(resolve_update(7, &existing, cyc, false), Err(AppError::CircularRef)));
    let mut next = 3i64;
    let mut used = vec!["3".to_string(), "4".to_string()];
    assert_eq!(allocate_external_id(&mut next, &mut used), "5");
    assert_eq!(next, 6);
    assert_eq!(used, vec!["3", "4", "5"]);
}

#[test]
fn linkwarden_paths_walk_up_parents() {
    let es = vec![(1, "Top".to_string(), None), (2, "Mid".to_string(), Some(1)), (3, "Leaf".to_string(), Some(2))];
    assert_eq!(resolve_json_path(3, &es), vec!["Top", "Mid", "Leaf"]);
    assert_eq!(resolve_json_path(42, &es), Vec::<String>::new());
    let cyc = vec![(1, "A".to_string(), Some(2)), (2, "B".to_string(), Some(1))];
    assert_eq!(resolve_json_path(1, &cyc), vec!["B", "A"]);
}

#[test]
fn webdav_helpers() {
    // "u:tok" in standard base64.
    assert_eq!(basic_token(Some("Basic dTp0b2s=")).as_deref(), Some("tok"));
    assert_eq!(basic_token(Some("Basic !!")), None);
    assert_eq!(basic_token(Some("Bearer x")), None);
    assert_eq!(destination_path("http://h:3000/webdav/a%2Fb/c.xbel").as_deref(), Some("a/b/c.xbel"));
    assert_eq!(destination_path("/webdav/../x"), None);
    assert_eq!(xml_escape("<a href='x'>&</a>"), "&lt;a href=&apos;x&apos;&gt;&amp;&lt;/a&gt;");
    assert_eq!(hex_digit(b'f'), Some(15));
    assert_eq!(hex_digit(b'G'), None);
    assert_eq!(
        propfind_xml("a&b.xbel", "12", "Thu, 01 Jan 1970 00:00:00 GMT"),
        "<?xml version=\"1.0\" encoding=\"utf-8\"?><d:multistatus xmlns:d=\"DAV:\"><d:response><d:href>/webdav/a&amp;b.xbel</d:href><d:propstat><d:prop><d:getcontentlength>12</d:getcontentlength><d:getlastmodified>Thu, 01 Jan 1970 00:00:00 GMT</d:getlastmodified></d:prop><d:status>HTTP/1.1 200 OK</d:status></d:propstat></d:response></d:multistatus>"
    );
}

#[test]
fn page_metadata_helpers() {
    assert!(title_in_order("<title>x</title>"));
    assert!(title_in_order("no title"));
    assert!(!title_in_order("</title>..........<title>"));
    assert_eq!(strip_meta("a<meta name=\"x\">b<meta charset=\"u\">c", "name=\"x\""), "ab<meta charset=\"u\">c");
    assert_eq!(strip_meta("a<meta name=\"x\"", "name=\"x\""), "a<meta name=\"x\"");
    assert_eq!(inject_meta("<head>x", "k=\"v\""), "<head>\n    <meta k=\"v\" />x");
    assert_eq!(inject_meta("<head lang=\"en\">x", "k"), "<head lang=\"en\">\n    <meta k />x");
    assert_eq!(inject_meta("<body>", "k"), "<body>");
}
