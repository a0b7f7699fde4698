use linkdock::import::{decode_html_entities, extract_attr, extract_bookmark, extract_tag, parse_netscape_html, parse_xbel};

#[test]
fn test_parse_xbel_with_multiline_titles() {
    let xbel = r#"<?xml version="1.0" encoding="UTF-8"?>
<!DOCTYPE xbel PUBLIC "+//IDN python.org//DTD XML Bookmark Exchange Language 1.0//EN//XML" "http://pyxml.sourceforge.net/topics/dtds/xbel.dtd">
<xbel version="1.0">
<folder id="1">
  <title>Bookmarks Bar</title>
  <folder id="3">
    <title>常去</title>
    <bookmark href="http://example.com/" id="13">
      <title>Example Site</title>
    </bookmark>
    <bookmark href="http://other.com/" id="14">
      <title>Other Site</title>
    </bookmark>
  </folder>
  <bookmark href="http://root.com/" id="15">
    <title>Root Bookmark</title>
  </bookmark>
</folder>
</xbel>"#;

    let bookmarks = parse_xbel(xbel).unwrap();
    assert_eq!(bookmarks.len(), 3, "should parse 3 bookmarks");

    assert_eq!(bookmarks[0].url, "http://example.com/");
    assert_eq!(bookmarks[0].name, "Example Site");
    assert_eq!(bookmarks[0].folder_path, vec!["Bookmarks Bar", "常去"]);

    assert_eq!(bookmarks[1].url, "http://other.com/");
    assert_eq!(bookmarks[1].name, "Other Site");
    assert_eq!(bookmarks[1].folder_path, vec!["Bookmarks Bar", "常去"]);

    assert_eq!(bookmarks[2].url, "http://root.com/");
    assert_eq!(bookmarks[2].name, "Root Bookmark");
    assert_eq!(bookmarks[2].folder_path, vec!["Bookmarks Bar"]);
}

#[test]
fn test_parse_xbel_html_entities() {
    let xbel = r#"<?xml version="1.0" encoding="UTF-8"?>
<xbel version="1.0">
<folder id="1">
  <title>Test &amp; Demo</title>
  <bookmark href="http://example.com/" id="1">
    <title>Sound&apos;s Blog</title>
  </bookmark>
</folder>
</xbel>"#;

    let bookmarks = parse_xbel(xbel).unwrap();
    assert_eq!(bookmarks.len(), 1);
    assert_eq!(bookmarks[0].name, "Sound's Blog");
    assert_eq!(bookmarks[0].folder_path, vec!["Test & Demo"]);
}

#[test]
fn test_parse_xbel_empty_title_fallback() {
    let xbel = r#"<?xml version="1.0" encoding="UTF-8"?>
<xbel version="1.0">
<folder id="1">
  <bookmark href="http://notitle.com/" id="1">
  </bookmark>
</folder>
</xbel>"#;

    let bookmarks = parse_xbel(xbel).unwrap();
    assert_eq!(bookmarks.len(), 1);
    assert_eq!(bookmarks[0].url, "http://notitle.com/");
    assert_eq!(bookmarks[0].name, "");
    assert_eq!(bookmarks[0].folder_path, vec!["Untitled"]);
}

#[test]
fn netscape_export_is_read_with_folders() {
    let html = "<!DOCTYPE NETSCAPE-Bookmark-file-1>\r\n<DL><p>\r\n    <DT><H3 ADD_DATE=\"1\">Dev &amp; Ops</H3>\r\n    <DL><p>\r\n        <DT><A HREF=\"https://x.example/?a=1&amp;b=2\" ADD_DATE=\"2\">X site</A>\r\n    </DL><p>\r\n    <DT><A HREF=\"https://y.example\">Y</A>\r\n</DL><p>\r\n";
    let b = parse_netscape_html(html).unwrap();
    assert_eq!(b.len(), 2);
    assert_eq!(b[0].url, "https://x.example/?a=1&b=2");
    assert_eq!(b[0].name, "X site");
    assert_eq!(b[0].folder_path, vec!["Dev & Ops"]);
    assert_eq!(b[1].url, "https://y.example");
    assert!(b[1].folder_path.is_empty());
}

#[test]
fn helpers_find_tags_attributes_and_entities() {
    assert_eq!(extract_tag("<DT><H3 x=\"1\">  Name </H3>", "h3").as_deref(), Some("Name"));
    assert_eq!(extract_tag("<title>no close", "title"), None);
    assert_eq!(extract_attr("<bookmark HREF=\"u\" id=\"2\">", "href").as_deref(), Some("u"));
    assert_eq!(extract_attr("<bookmark id=\"2\">", "href"), None);
    assert_eq!(
        extract_bookmark("<A HREF=\"https://a\">  A  </A>"),
        Some(("https://a".to_string(), "A".to_string()))
    );
    assert_eq!(
        extract_bookmark("<DT><A HREF=\"https://a\">A</A>"),
        Some(("https://a".to_string(), "A".to_string()))
    );
    assert_eq!(extract_bookmark("<A HREF=\"https://a\">no close"), None);
    assert_eq!(decode_html_entities("&amp;lt; &quot;q&quot; &#39;&nbsp;"), "< \"q\" ' ");
}
