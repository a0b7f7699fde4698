//! Writing a sync document's tree as XBEL, in sibling order.
use vstd::prelude::*;
use crate::domain::BookmarkTreeNode;
use crate::text::{Escape, escaped, push_escaped, spaces, str_eq, int_decimal, push_i64};

verus! {

/// `value` with `&`, `<` and `>` escaped for XML text.
pub fn escape_text(value: &str) -> (r: String)
    ensures
        r@ == escaped(Escape::Text, value@),
{
    crate::text::escape(value, Escape::Text)
}

/// `value` escaped for an XML attribute: `&`, `<`, `>`, `"` and `'`.
pub fn escape_attr(value: &str) -> (r: String)
    ensures
        r@ == escaped(Escape::Attr, value@),
{
    crate::text::escape(value, Escape::Attr)
}

pub open spec fn indent(d: nat) -> Seq<char> {
    spaces(2 * d)
}

pub open spec fn opt_text(o: Option<String>) -> Seq<char> {
    match o {
        Some(s) => s@,
        None => Seq::empty(),
    }
}

/// The `desc` line of a node at depth `d`, when it has a description.
pub open spec fn desc_xml(desc: Seq<char>, d: nat) -> Seq<char> {
    if desc.len() == 0 {
        Seq::empty()
    } else {
        indent(d) + "  <desc>"@ + escaped(Escape::Text, desc) + "</desc>\n"@
    }
}

/// The XBEL of a node at depth `d`, with its subtree. A node of an unknown
/// type is left out with its subtree.
pub open spec fn node_xml(t: BookmarkTreeNode, d: nat) -> Seq<char>
    decreases t, t.children@.len() + 1,
{
    let n = t.node;
    if n.node_type@ == "folder"@ {
        indent(d) + "<folder id=\""@ + escaped(Escape::Attr, n.external_id@) + "\">\n"@
            + indent(d) + "  <title>"@ + escaped(Escape::Text, n.title@) + "</title>\n"@
            + desc_xml(n.description@, d)
            + children_xml(t, t.children@.len() as int, d + 1)
            + indent(d) + "</folder>\n"@
    } else if n.node_type@ == "bookmark"@ {
        indent(d) + "<bookmark href=\""@ + escaped(Escape::Attr, opt_text(n.url)) + "\" id=\""@
            + escaped(Escape::Attr, n.external_id@) + "\">\n"@
            + indent(d) + "  <title>"@ + escaped(Escape::Text, n.title@) + "</title>\n"@
            + desc_xml(n.description@, d)
            + indent(d) + "</bookmark>\n"@
    } else if n.node_type@ == "separator"@ {
        indent(d) + "<separator id=\""@ + escaped(Escape::Attr, n.external_id@) + "\"/>\n"@
    } else {
        Seq::empty()
    }
}

/// The XBEL of the first `i` children of `t`, at depth `d`.
pub open spec fn children_xml(t: BookmarkTreeNode, i: int, d: nat) -> Seq<char>
    decreases t, i,
{
    if i <= 0 || i > t.children@.len() {
        Seq::empty()
    } else {
        proof {
            vstd::std_specs::vec::axiom_vec_index_decreases(t.children, i - 1);
        }
        children_xml(t, i - 1, d) + node_xml(t.children@[i - 1], d)
    }
}

/// The XBEL of the first `i` nodes of `ts`, at depth `d`.
pub open spec fn forest_xml(ts: Seq<BookmarkTreeNode>, i: int, d: nat) -> Seq<char>
    decreases i,
{
    if i <= 0 || i > ts.len() {
        Seq::empty()
    } else {
        forest_xml(ts, i - 1, d) + node_xml(ts[i - 1], d)
    }
}

/// `n - 1`, stopping at the least `i64`.
pub open spec fn saturating_pred(n: i64) -> int {
    if n == i64::MIN { n as int } else { n - 1 }
}

/// The XBEL file of a document titled `title`, whose next external id is
/// `next_external_id`, with the top-level nodes `roots`.
pub open spec fn document_xml(title: Seq<char>, next_external_id: i64, roots: Seq<BookmarkTreeNode>) -> Seq<char> {
    "<?xml version=\"1.0\" encoding=\"UTF-8\"?>\n"@ + "<xbel version=\"1.0\">\n"@
        + (if title.len() == 0 {
            Seq::empty()
        } else {
            "  <title>"@ + escaped(Escape::Text, title) + "</title>\n"@
        })
        + forest_xml(roots, roots.len() as int, 1)
        + "  <!--- highestId :"@ + int_decimal(saturating_pred(next_external_id)) + ": -->\n"@
        + "</xbel>\n"@
}

fn push_desc(xml: &mut String, desc: &String, ind: &String, Ghost(d): Ghost<nat>)
    requires
        ind@ == indent(d),
    ensures
        final(xml)@ == old(xml)@ + desc_xml(desc@, d),
{
    if !desc.as_str().is_empty() {
        xml.append(ind.as_str());
        xml.append("  <desc>");
        push_escaped(xml, desc.as_str(), Escape::Text);
        xml.append("</desc>\n");
    } else {
        assert(desc@.len() == 0);
    }
}

/// Appends the XBEL of `t` at the depth whose indentation is `ind`.
fn write_node(xml: &mut String, t: &BookmarkTreeNode, ind: &String, Ghost(d): Ghost<nat>)
    requires
        ind@ == indent(d),
    ensures
        final(xml)@ == old(xml)@ + node_xml(*t, d),
    decreases t,
{
    let n = &t.node;
    let ghost start = xml@;
    if str_eq(n.node_type.as_str(), "folder") {
        xml.append(ind.as_str());
        xml.append("<folder id=\"");
        push_escaped(xml, n.external_id.as_str(), Escape::Attr);
        xml.append("\">\n");
        xml.append(ind.as_str());
        xml.append("  <title>");
        push_escaped(xml, n.title.as_str(), Escape::Text);
        xml.append("</title>\n");
        push_desc(xml, &n.description, ind, Ghost(d));
        let ghost mid = xml@;
        let mut child_ind = ind.clone();
        child_ind.append("  ");
        proof {
            reveal_strlit("  ");
        }
        assert(child_ind@ =~= indent(d + 1));
        let mut i: usize = 0;
        while i < t.children.len()
            invariant
                i <= t.children@.len(),
                child_ind@ == indent(d + 1),
                xml@ == mid + children_xml(*t, i as int, d + 1),
            decreases t.children.len() - i,
        {
            proof {
                vstd::std_specs::vec::axiom_vec_index_decreases(t.children, i as int);
            }
            write_node(xml, &t.children[i], &child_ind, Ghost(d + 1));
            i = i + 1;
        }
        assert(i == t.children@.len());
        let ghost kids = children_xml(*t, t.children@.len() as int, d + 1);
        assert(xml@ == mid + kids);
        xml.append(ind.as_str());
        xml.append("</folder>\n");
        let ghost head = indent(d) + "<folder id=\""@ + escaped(Escape::Attr, n.external_id@) + "\">\n"@
            + indent(d) + "  <title>"@ + escaped(Escape::Text, n.title@) + "</title>\n"@
            + desc_xml(n.description@, d);
        assert(mid =~= start + head);
        assert(node_xml(*t, d) == head + kids + indent(d) + "</folder>\n"@);
        assert(xml@ =~= start + node_xml(*t, d));
    } else if str_eq(n.node_type.as_str(), "bookmark") {
        xml.append(ind.as_str());
        xml.append("<bookmark href=\"");
        match &n.url {
            Some(u) => push_escaped(xml, u.as_str(), Escape::Attr),
            None => {
                proof {
                    reveal_strlit("");
                }
                assert(""@ =~= Seq::<char>::empty());
                push_escaped(xml, "", Escape::Attr)
            },
        }
        xml.append("\" id=\"");
        push_escaped(xml, n.external_id.as_str(), Escape::Attr);
        xml.append("\">\n");
        xml.append(ind.as_str());
        xml.append("  <title>");
        push_escaped(xml, n.title.as_str(), Escape::Text);
        xml.append("</title>\n");
        push_desc(xml, &n.description, ind, Ghost(d));
        xml.append(ind.as_str());
        xml.append("</bookmark>\n");
        assert(xml@ =~= start + node_xml(*t, d));
    } else if str_eq(n.node_type.as_str(), "separator") {
        xml.append(ind.as_str());
        xml.append("<separator id=\"");
        push_escaped(xml, n.external_id.as_str(), Escape::Attr);
        xml.append("\"/>\n");
        assert(xml@ =~= start + node_xml(*t, d));
    } else {
        assert(xml@ =~= start + node_xml(*t, d));
    }
}

/// The XBEL file of a document titled `title`, whose next external id is
/// `next_external_id`, with the top-level nodes `roots`: every node in
/// sibling order with its stable id, the title and description escaped, and
/// the highest id given out so far.
pub fn render_xbel(title: &str, next_external_id: i64, roots: &Vec<BookmarkTreeNode>) -> (xml: String)
    ensures
        xml@ == document_xml(title@, next_external_id, roots@),
{
    let mut xml = String::new();
    xml.append("<?xml version=\"1.0\" encoding=\"UTF-8\"?>\n");
    xml.append("<xbel version=\"1.0\">\n");
    if !title.is_empty() {
        xml.append("  <title>");
        push_escaped(&mut xml, title, Escape::Text);
        xml.append("</title>\n");
    }
    let ghost mid = xml@;
    let ind = "  ".to_owned();
    proof {
        reveal_strlit("  ");
    }
    assert(ind@ =~= indent(1));
    let mut i: usize = 0;
    while i < roots.len()
        invariant
            i <= roots@.len(),
            ind@ == indent(1),
            xml@ == mid + forest_xml(roots@, i as int, 1),
        decreases roots.len() - i,
    {
        write_node(&mut xml, &roots[i], &ind, Ghost(1));
        i = i + 1;
    }
    xml.append("  <!--- highestId :");
    let highest = if next_external_id == i64::MIN { next_external_id } else { next_external_id - 1 };
    push_i64(&mut xml, highest);
    xml.append(": -->\n");
    xml.append("</xbel>\n");
    assert(xml@ =~= document_xml(title@, next_external_id, roots@));
    xml
}


proof fn lemma_children_xml_same(t1: BookmarkTreeNode, t2: BookmarkTreeNode, i: int, d: nat)
    requires
        t1.children@ == t2.children@,
    ensures
        children_xml(t1, i, d) == children_xml(t2, i, d),
    decreases i,
{
    if i > 0 && i <= t1.children@.len() {
        lemma_children_xml_same(t1, t2, i - 1, d);
    }
}

/// A node's title is written XML-escaped, where its title line stands:
/// two folders or two bookmarks that differ only in their titles are
/// written as the same text around `<title>` and `</title>`, with each
/// title escaped between them; and escaped text reads back as the title.
#[verifier::spinoff_prover]
#[verifier::rlimit(40)]
pub proof fn lemma_node_title_escaped(t1: BookmarkTreeNode, t2: BookmarkTreeNode, d: nat)
    requires
        t1.node.node_type@ == t2.node.node_type@,
        t1.node.node_type@ == "folder"@ || t1.node.node_type@ == "bookmark"@,
        t1.node.external_id@ == t2.node.external_id@,
        opt_text(t1.node.url) == opt_text(t2.node.url),
        t1.node.description@ == t2.node.description@,
        t1.children@ == t2.children@,
    ensures
        exists|p: Seq<char>, q: Seq<char>|
            node_xml(t1, d) == p + "<title>"@ + escaped(Escape::Text, t1.node.title@) + "</title>"@ + q
            && node_xml(t2, d) == p + "<title>"@ + escaped(Escape::Text, t2.node.title@) + "</title>"@ + q,
        crate::text::xml_decoded(escaped(Escape::Text, t1.node.title@)) == t1.node.title@,
{
    crate::text::lemma_escaped_reads_back(Escape::Text, t1.node.title@);
    lemma_children_xml_same(t1, t2, t1.children@.len() as int, d + 1);
    let n = t1.node;
    reveal_strlit("  ");
    reveal_strlit("  <title>");
    reveal_strlit("<title>");
    reveal_strlit("</title>\n");
    reveal_strlit("</title>");
    reveal_strlit("\n");
    if n.node_type@ == "folder"@ {
        let p = indent(d) + "<folder id=\""@ + escaped(Escape::Attr, n.external_id@) + "\">\n"@ + indent(d) + "  "@;
        let q = "\n"@ + desc_xml(n.description@, d) + children_xml(t1, t1.children@.len() as int, d + 1)
            + indent(d) + "</folder>\n"@;
        assert(node_xml(t1, d) =~= p + "<title>"@ + escaped(Escape::Text, t1.node.title@) + "</title>"@ + q);
        assert(node_xml(t2, d) =~= p + "<title>"@ + escaped(Escape::Text, t2.node.title@) + "</title>"@ + q);
    } else {
        let p = indent(d) + "<bookmark href=\""@ + escaped(Escape::Attr, opt_text(n.url)) + "\" id=\""@
            + escaped(Escape::Attr, n.external_id@) + "\">\n"@ + indent(d) + "  "@;
        let q = "\n"@ + desc_xml(n.description@, d) + indent(d) + "</bookmark>\n"@;
        assert(node_xml(t1, d) =~= p + "<title>"@ + escaped(Escape::Text, t1.node.title@) + "</title>"@ + q);
        assert(node_xml(t2, d) =~= p + "<title>"@ + escaped(Escape::Text, t2.node.title@) + "</title>"@ + q);
    }
}

/// The document's own title is written XML-escaped in the same way.
#[verifier::spinoff_prover]
#[verifier::rlimit(40)]
pub proof fn lemma_document_title_escaped(title1: Seq<char>, title2: Seq<char>, next_external_id: i64, roots: Seq<BookmarkTreeNode>)
    requires
        title1.len() > 0,
        title2.len() > 0,
    ensures
        exists|p: Seq<char>, q: Seq<char>|
            document_xml(title1, next_external_id, roots) == p + "<title>"@ + escaped(Escape::Text, title1) + "</title>"@ + q
            && document_xml(title2, next_external_id, roots) == p + "<title>"@ + escaped(Escape::Text, title2) + "</title>"@ + q,
        crate::text::xml_decoded(escaped(Escape::Text, title1)) == title1,
{
    crate::text::lemma_escaped_reads_back(Escape::Text, title1);
    reveal_strlit("  <title>");
    reveal_strlit("<title>");
    reveal_strlit("</title>\n");
    reveal_strlit("</title>");
    reveal_strlit("\n");
    reveal_strlit("  ");
    let p = "<?xml version=\"1.0\" encoding=\"UTF-8\"?>\n"@ + "<xbel version=\"1.0\">\n"@ + "  "@;
    let q = "\n"@ + forest_xml(roots, roots.len() as int, 1)
        + "  <!--- highestId :"@ + int_decimal(saturating_pred(next_external_id)) + ": -->\n"@ + "</xbel>\n"@;
    assert(document_xml(title1, next_external_id, roots) =~= p + "<title>"@ + escaped(Escape::Text, title1) + "</title>"@ + q);
    assert(document_xml(title2, next_external_id, roots) =~= p + "<title>"@ + escaped(Escape::Text, title2) + "</title>"@ + q);
}


/// A bookmark's URL is written XML-escaped as its `href` value: two
/// bookmarks that differ only in their URLs are written as the same text
/// around it, with each URL escaped there; and the escaped URL reads back as
/// the URL.
#[verifier::spinoff_prover]
#[verifier::rlimit(40)]
pub proof fn lemma_bookmark_url_escaped(t1: BookmarkTreeNode, t2: BookmarkTreeNode, d: nat)
    requires
        t1.node.node_type@ == "bookmark"@,
        t2.node.node_type@ == "bookmark"@,
        t1.node.external_id@ == t2.node.external_id@,
        t1.node.title@ == t2.node.title@,
        t1.node.description@ == t2.node.description@,
    ensures
        exists|p: Seq<char>, q: Seq<char>|
            node_xml(t1, d) == p + escaped(Escape::Attr, opt_text(t1.node.url)) + q
            && node_xml(t2, d) == p + escaped(Escape::Attr, opt_text(t2.node.url)) + q,
        crate::text::xml_decoded(escaped(Escape::Attr, opt_text(t1.node.url))) == opt_text(t1.node.url),
{
    crate::text::lemma_escaped_reads_back(Escape::Attr, opt_text(t1.node.url));
    reveal_strlit("folder");
    reveal_strlit("bookmark");
    assert("bookmark"@ != "folder"@) by { assert("bookmark"@.len() != "folder"@.len()); }
    let n = t1.node;
    let p = indent(d) + "<bookmark href=\""@;
    let q = "\" id=\""@ + escaped(Escape::Attr, n.external_id@) + "\">\n"@
        + indent(d) + "  <title>"@ + escaped(Escape::Text, n.title@) + "</title>\n"@
        + desc_xml(n.description@, d) + indent(d) + "</bookmark>\n"@;
    assert(node_xml(t1, d) =~= p + escaped(Escape::Attr, opt_text(t1.node.url)) + q);
    assert(node_xml(t2, d) =~= p + escaped(Escape::Attr, opt_text(t2.node.url)) + q);
}

/// A description is written XML-escaped on its `<desc>` line: two folders or
/// two bookmarks that differ only in their (non-empty) descriptions are
/// written as the same text around it, with each description escaped there.
#[verifier::spinoff_prover]
#[verifier::rlimit(40)]
pub proof fn lemma_description_escaped(t1: BookmarkTreeNode, t2: BookmarkTreeNode, d: nat)
    requires
        t1.node.node_type@ == t2.node.node_type@,
        t1.node.node_type@ == "folder"@ || t1.node.node_type@ == "bookmark"@,
        t1.node.external_id@ == t2.node.external_id@,
        opt_text(t1.node.url) == opt_text(t2.node.url),
        t1.node.title@ == t2.node.title@,
        t1.node.description@.len() > 0,
        t2.node.description@.len() > 0,
        t1.children@ == t2.children@,
    ensures
        exists|p: Seq<char>, q: Seq<char>|
            node_xml(t1, d) == p + escaped(Escape::Text, t1.node.description@) + q
            && node_xml(t2, d) == p + escaped(Escape::Text, t2.node.description@) + q,
{
    lemma_children_xml_same(t1, t2, t1.children@.len() as int, d + 1);
    let n = t1.node;
    let e1 = escaped(Escape::Text, t1.node.description@);
    let e2 = escaped(Escape::Text, t2.node.description@);
    let dp = indent(d) + "  <desc>"@;
    let dq = "</desc>\n"@;
    assert(desc_xml(t1.node.description@, d) == dp + e1 + dq);
    assert(desc_xml(t2.node.description@, d) == dp + e2 + dq);
    if n.node_type@ == "folder"@ {
        let a = indent(d) + "<folder id=\""@ + escaped(Escape::Attr, n.external_id@) + "\">\n"@
            + indent(d) + "  <title>"@ + escaped(Escape::Text, n.title@) + "</title>\n"@;
        let b = children_xml(t1, t1.children@.len() as int, d + 1) + indent(d) + "</folder>\n"@;
        assert(node_xml(t1, d) == a + desc_xml(t1.node.description@, d) + b);
        assert(node_xml(t2, d) == a + desc_xml(t2.node.description@, d) + b);
        assert(a + (dp + e1 + dq) + b =~= (a + dp) + e1 + (dq + b));
        assert(a + (dp + e2 + dq) + b =~= (a + dp) + e2 + (dq + b));
        assert(node_xml(t1, d) == (a + dp) + e1 + (dq + b));
        assert(node_xml(t2, d) == (a + dp) + e2 + (dq + b));
    } else {
        let a = indent(d) + "<bookmark href=\""@ + escaped(Escape::Attr, opt_text(n.url)) + "\" id=\""@
            + escaped(Escape::Attr, n.external_id@) + "\">\n"@
            + indent(d) + "  <title>"@ + escaped(Escape::Text, n.title@) + "</title>\n"@;
        let b = indent(d) + "</bookmark>\n"@;
        assert(node_xml(t1, d) == a + desc_xml(t1.node.description@, d) + b);
        assert(node_xml(t2, d) == a + desc_xml(t2.node.description@, d) + b);
        assert(a + (dp + e1 + dq) + b =~= (a + dp) + e1 + (dq + b));
        assert(a + (dp + e2 + dq) + b =~= (a + dp) + e2 + (dq + b));
        assert(node_xml(t1, d) == (a + dp) + e1 + (dq + b));
        assert(node_xml(t2, d) == (a + dp) + e2 + (dq + b));
    }
}

} // verus!
