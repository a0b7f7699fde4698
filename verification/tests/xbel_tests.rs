use linkdock::domain::{BookmarkNode, BookmarkTreeNode};
use linkdock::xbel::NodeKind;
use linkdock::xbel_read::parse_xbel;
use linkdock::xbel_write::{escape_attr, escape_text, render_xbel};

#[test]
fn parses_mixed_order_and_entities() {
    let document = parse_xbel(
        r#"<?xml version="1.0"?><xbel><title>Main</title>
            <bookmark id="1" href="https://one.example/?a=1&amp;b=2"><title>One &amp; first</title></bookmark>
            <folder id="2"><title>Middle</title><bookmark id="3" href="https://nested.example"><title>Nested</title></bookmark></folder>
            <separator/><bookmark id="4" href="https://last.example"><title>Last</title></bookmark>
            </xbel>"#,
    )
    .unwrap();
    assert_eq!(document.title, "Main");
    assert_eq!(document.nodes.len(), 4);
    assert_eq!(document.nodes[0].node_type.as_str(), "bookmark");
    assert_eq!(document.nodes[0].title, "One & first");
    assert_eq!(document.nodes[1].node_type.as_str(), "folder");
    assert_eq!(document.nodes[1].children.len(), 1);
    assert_eq!(document.nodes[2].node_type.as_str(), "separator");
    assert_eq!(document.nodes[3].title, "Last");
}

#[test]
fn keeps_ids_urls_and_descriptions() {
    let document = parse_xbel(
        r#"<xbel version="1.0"><folder id="7"><title>F</title><desc>about &lt;f&gt;</desc><bookmark href="https://a.example/?x=1&amp;y=2" id="8"><title>A</title></bookmark></folder></xbel>"#,
    )
    .unwrap();
    let folder = &document.nodes[0];
    assert_eq!(folder.node_type, NodeKind::Folder);
    assert_eq!(folder.external_id.as_deref(), Some("7"));
    assert_eq!(folder.description, "about <f>");
    let bookmark = &folder.children[0];
    assert_eq!(bookmark.url.as_deref(), Some("https://a.example/?x=1&y=2"));
    assert_eq!(bookmark.external_id.as_deref(), Some("8"));
}

#[test]
fn malformed_documents_are_rejected() {
    assert!(parse_xbel("<xbel><folder><title>broken</title></xbel>").is_err());
    assert!(parse_xbel("<folder></folder>").is_err());
    assert!(parse_xbel("<xbel><bookmark href=\"\"></bookmark></xbel>").is_err());
    assert!(parse_xbel("<xbel></xbel><xbel></xbel>").is_err());
    assert!(parse_xbel("<xbel><folder></bookmark></xbel>").is_err());
    assert!(parse_xbel("").is_err());
}

#[test]
fn depth_limit_is_enforced() {
    let mut deep = String::from("<xbel>");
    for _ in 0..129 {
        deep.push_str("<folder>");
    }
    for _ in 0..129 {
        deep.push_str("</folder>");
    }
    deep.push_str("</xbel>");
    let err = parse_xbel(&deep).unwrap_err();
    assert_eq!(err.code(), "validation");
}

fn row(id: i64, parent: Option<i64>, kind: &str, ext: &str, title: &str, url: Option<&str>) -> BookmarkNode {
    BookmarkNode {
        id,
        uuid: String::new(),
        document_id: 1,
        user_id: 1,
        parent_id: parent,
        node_type: kind.to_string(),
        external_id: ext.to_string(),
        title: title.to_string(),
        url: url.map(|u| u.to_string()),
        description: String::new(),
        color: None,
        position: 0,
        created_by: 1,
        deleted_at: None,
        created_at: String::new(),
        updated_at: String::new(),
    }
}

#[test]
fn escapes_text_and_attributes() {
    assert_eq!(escape_text("a & <b> \"c\""), "a &amp; &lt;b&gt; \"c\"");
    assert_eq!(escape_attr("a & 'b' \"c\""), "a &amp; &apos;b&apos; &quot;c&quot;");
}

#[test]
fn renders_tree_in_sibling_order() {
    let roots = vec![
        BookmarkTreeNode { node: row(1, None, "bookmark", "1", "First", Some("https://a.example")), tags: vec![], children: vec![] },
        BookmarkTreeNode {
            node: row(2, None, "folder", "2", "Middle folder", None),
            tags: vec![],
            children: vec![BookmarkTreeNode { node: row(3, Some(2), "bookmark", "3", "Nested", Some("https://n.example")), tags: vec![], children: vec![] }],
        },
        BookmarkTreeNode { node: row(4, None, "separator", "4", "", None), tags: vec![], children: vec![] },
    ];
    let xml = render_xbel("Doc", 5, &roots);
    let expected = "<?xml version=\"1.0\" encoding=\"UTF-8\"?>\n<xbel version=\"1.0\">\n  <title>Doc</title>\n  <bookmark href=\"https://a.example\" id=\"1\">\n    <title>First</title>\n  </bookmark>\n  <folder id=\"2\">\n    <title>Middle folder</title>\n    <bookmark href=\"https://n.example\" id=\"3\">\n      <title>Nested</title>\n    </bookmark>\n  </folder>\n  <separator id=\"4\"/>\n  <!--- highestId :4: -->\n</xbel>\n";
    assert_eq!(xml, expected);
    let back = parse_xbel(&xml).unwrap();
    assert_eq!(back.title, "Doc");
    assert_eq!(back.nodes.len(), 3);
    assert_eq!(back.nodes[1].children[0].title, "Nested");
    assert_eq!(back.nodes[2].node_type, NodeKind::Separator);
}
