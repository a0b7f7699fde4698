use linkdock::domain::{Collection, Link, Tag};
use linkdock::export::ExportService;
use linkdock::import_service::JsonValue;

fn col(id: i64, parent: Option<i64>, name: &str) -> Collection {
    Collection {
        id,
        uuid: format!("c-{}", id),
        tenant_id: 1,
        parent_id: parent,
        name: name.to_string(),
        description: String::new(),
        color: None,
        position: 0,
        created_by: 1,
        deleted_at: None,
        created_at: "t0".to_string(),
        updated_at: "t1".to_string(),
    }
}

fn link(id: i64, collection_id: i64, url: &str, name: &str, description: &str) -> Link {
    Link {
        id,
        uuid: format!("l-{}", id),
        tenant_id: 1,
        collection_id,
        url: url.to_string(),
        name: name.to_string(),
        description: description.to_string(),
        position: 0,
        created_by: 1,
        deleted_at: None,
        created_at: "t0".to_string(),
        updated_at: "t1".to_string(),
    }
}

fn sample() -> (Vec<Collection>, Vec<Link>) {
    let cols = vec![col(1, None, "Dev & Ops"), col(2, Some(1), "Sub")];
    let links = vec![
        link(10, 1, "https://a", "A<1>", "d"),
        link(11, 2, "https://b", "B", ""),
        link(12, 0, "https://c", "C", "ignored desc"),
    ];
    (cols, links)
}

#[test]
fn html_export_nests_folders_then_links() {
    let (cols, links) = sample();
    let html = ExportService::export_html(&cols, &links);
    let expected = "<!DOCTYPE NETSCAPE-Bookmark-file-1>\n\
<META HTTP-EQUIV=\"Content-Type\" CONTENT=\"text/html; charset=UTF-8\">\n\
<TITLE>Bookmarks</TITLE>\n\
<H1>Bookmarks</H1>\n\
<DL><p>\n    <DT><H3>Dev &amp; Ops</H3>\n    <DL><p>\n        <DT><H3>Sub</H3>\n        <DL><p>\n            <DT><A HREF=\"https://b\">B</A>\n        </DL><p>\n        <DT><A HREF=\"https://a\">A&lt;1&gt;</A>\n        <DD>d\n    </DL><p>\n    <DT><A HREF=\"https://c\">C</A>\n</DL><p>\n";
    assert_eq!(html, expected);
}

#[test]
fn xbel_export_nests_folders_then_links() {
    let (cols, links) = sample();
    let xml = ExportService::export_xbel(&cols, &links);
    let expected = "<?xml version=\"1.0\" encoding=\"UTF-8\"?>\n\
<!DOCTYPE xbel PUBLIC \"+//IDN python.org//DTD XML Bookmark Exchange Language 1.0//EN//XML\" \"http://www.python.org/topics/xml/dtds/xbel-1.0.dtd\">\n\
<xbel version=\"1.0\">\n  <folder>\n    <title>Dev &amp; Ops</title>\n    <folder>\n      <title>Sub</title>\n      <bookmark href=\"https://b\">\n        <title>B</title>\n      </bookmark>\n    </folder>\n    <bookmark href=\"https://a\">\n      <title>A&lt;1&gt;</title>\n    </bookmark>\n  </folder>\n  <bookmark href=\"https://c\">\n    <title>C</title>\n  </bookmark>\n</xbel>\n";
    assert_eq!(xml, expected);
}

#[test]
fn empty_export_is_just_the_frame() {
    let html = ExportService::export_html(&vec![], &vec![]);
    assert!(html.ends_with("<DL><p>\n</DL><p>\n"));
    let xml = ExportService::export_xbel(&vec![], &vec![]);
    assert!(xml.ends_with("<xbel version=\"1.0\">\n</xbel>\n"));
}

#[test]
fn csv_export_quotes_where_needed() {
    let (cols, mut links) = sample();
    links.push(link(13, 99, "https://d", "He said \"hi\", ok", "line\nbreak"));
    let csv = ExportService::export_csv(&cols, &links).unwrap();
    assert_eq!(
        csv,
        "url,name,description,collection\n\
https://a,A<1>,d,Dev & Ops\n\
https://b,B,,Sub\n\
https://c,C,ignored desc,\n\
https://d,\"He said \"\"hi\"\", ok\",\"line\nbreak\",\n"
    );
}

#[test]
fn csv_export_uses_the_last_collection_of_an_id() {
    let cols = vec![col(1, None, "First"), col(1, None, "Second")];
    let links = vec![link(10, 1, "u", "n", "")];
    assert_eq!(ExportService::export_csv(&cols, &links).unwrap(), "url,name,description,collection\nu,n,,Second\n");
}

fn tag(id: i64, name: &str) -> Tag {
    Tag {
        id,
        uuid: format!("t-{}", id),
        user_id: 1,
        name: name.to_string(),
        normalized_name: name.to_lowercase(),
        created_at: "t0".to_string(),
    }
}

fn get<'a>(v: &'a JsonValue, key: &str) -> &'a JsonValue {
    match v {
        JsonValue::Object(m) => &m.iter().find(|(k, _)| k == key).expect("key").1,
        _ => panic!("not an object"),
    }
}

#[test]
fn json_document_lists_everything_with_tag_names() {
    let (cols, links) = sample();
    let tags = vec![tag(5, "work"), tag(6, "fun")];
    let pairs = vec![(10, 6), (11, 5), (10, 5), (10, 42)];
    let doc = ExportService::export_document(&cols, &links, &tags, &pairs, "2024-01-01T00:00:00Z");
    assert!(matches!(get(&doc, "version"), JsonValue::Number(Some(1))));
    assert!(matches!(get(&doc, "exported_at"), JsonValue::Str(s) if s == "2024-01-01T00:00:00Z"));
    match get(&doc, "collections") {
        JsonValue::Array(a) => {
            assert_eq!(a.len(), 2);
            assert!(matches!(get(&a[0], "parentId"), JsonValue::Null));
            assert!(matches!(get(&a[1], "parentId"), JsonValue::Number(Some(1))));
            assert!(matches!(get(&a[0], "color"), JsonValue::Null));
        },
        _ => panic!("collections"),
    }
    match get(&doc, "links") {
        JsonValue::Array(a) => {
            assert_eq!(a.len(), 3);
            match get(&a[0], "tags") {
                JsonValue::Array(t) => {
                    let names: Vec<&str> = t.iter().map(|x| match x {
                        JsonValue::Str(s) => s.as_str(),
                        _ => "",
                    }).collect();
                    assert_eq!(names, vec!["fun", "work"]);
                },
                _ => panic!("tags"),
            }
            assert!(matches!(get(&a[1], "collectionId"), JsonValue::Number(Some(2))));
        },
        _ => panic!("links"),
    }
    let text = ExportService::export_json(&cols, &links, &tags, &pairs, "2024-01-01T00:00:00Z");
    assert!(text.contains("\"version\": 1"));
    assert!(text.contains("\"exported_at\": \"2024-01-01T00:00:00Z\""));
    assert!(text.contains("\"name\": \"Dev & Ops\""));
}
