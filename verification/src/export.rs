//! Exporting a workspace's collections and links as Netscape bookmark HTML,
//! as XBEL, as CSV and as Linkwarden-style JSON.
use vstd::prelude::*;
use crate::collection::{kids, kids_of};
use crate::domain::{Collection, Link, Tag};
use crate::import_service::{JsonV, JsonValue};
use crate::error::AppError;
use crate::text::{Escape, escaped, push_escaped, strs_v};

verus! {

/// The service that writes a workspace out in the formats it can read back.
pub struct ExportService;

/// `s` with `&`, `<`, `>` and `"` escaped.
pub open spec fn esc(s: Seq<char>) -> Seq<char> {
    escaped(Escape::Html, s)
}

/// One level of indentation: four spaces in HTML, two in XBEL.
pub open spec fn unit(html: bool) -> Seq<char> {
    if html { "    "@ } else { "  "@ }
}

/// The lines of link `l` under the indentation `ind`; in HTML its
/// description follows on a `<DD>` line when `dd` holds and it has one.
pub open spec fn link_text(html: bool, l: Link, ind: Seq<char>, dd: bool) -> Seq<char> {
    if html {
        ind + "    <DT><A HREF=\""@ + esc(l.url@) + "\">"@ + esc(l.name@) + "</A>\n"@
            + (if dd && l.description@.len() > 0 {
                ind + "    <DD>"@ + esc(l.description@) + "\n"@
            } else {
                Seq::empty()
            })
    } else {
        ind + "  <bookmark href=\""@ + esc(l.url@) + "\">\n"@
            + ind + "    <title>"@ + esc(l.name@) + "</title>\n"@
            + ind + "  </bookmark>\n"@
    }
}

/// The lines of the links of `ls` that belong to collection `cid`, in order.
pub open spec fn links_text(html: bool, ls: Seq<Link>, cid: i64, ind: Seq<char>, dd: bool) -> Seq<char>
    decreases ls.len(),
{
    if ls.len() == 0 {
        Seq::empty()
    } else {
        links_text(html, ls.drop_last(), cid, ind, dd) + (if ls.last().collection_id == cid {
            link_text(html, ls.last(), ind, dd)
        } else {
            Seq::empty()
        })
    }
}

/// The lines that open the folder of collection `c`.
pub open spec fn folder_head(html: bool, c: Collection, ind: Seq<char>) -> Seq<char> {
    if html {
        ind + "<DT><H3>"@ + esc(c.name@) + "</H3>\n"@ + ind + "<DL><p>\n"@
    } else {
        ind + "<folder>\n"@ + ind + "  <title>"@ + esc(c.name@) + "</title>\n"@
    }
}

/// The line that closes a folder.
pub open spec fn folder_tail(html: bool, ind: Seq<char>) -> Seq<char> {
    if html { ind + "</DL><p>\n"@ } else { ind + "</folder>\n"@ }
}

/// The folder of collection `c` under the indentation `ind`: its
/// sub-collections, then its links; `None` when it nests deeper than `fuel`,
/// which for a cycle of parents it always does.
pub open spec fn folder_text(
    html: bool,
    cols: Seq<Collection>,
    links: Seq<Link>,
    c: Collection,
    ind: Seq<char>,
    fuel: nat,
) -> Option<Seq<char>>
    decreases fuel, 0nat,
{
    if fuel == 0 {
        None
    } else {
        match folders_text(html, cols, links, kids(cols, Some(c.id)), ind + unit(html), (fuel - 1) as nat) {
            Some(sub) => Some(
                folder_head(html, c, ind) + sub + links_text(html, links, c.id, ind, true)
                    + folder_tail(html, ind),
            ),
            None => None,
        }
    }
}

/// The folders of the collections `ks`, in order.
pub open spec fn folders_text(
    html: bool,
    cols: Seq<Collection>,
    links: Seq<Link>,
    ks: Seq<Collection>,
    ind: Seq<char>,
    fuel: nat,
) -> Option<Seq<char>>
    decreases fuel, ks.len(),
{
    if ks.len() == 0 {
        Some(Seq::empty())
    } else {
        match (folder_text(html, cols, links, ks[0], ind, fuel), folders_text(html, cols, links, ks.drop_first(), ind, fuel)) {
            (Some(a), Some(r)) => Some(a + r),
            _ => None,
        }
    }
}

pub proof fn lemma_folder_fuel(
    html: bool,
    cols: Seq<Collection>,
    links: Seq<Link>,
    c: Collection,
    ind: Seq<char>,
    f: nat,
    g: nat,
)
    requires
        folder_text(html, cols, links, c, ind, f) is Some,
        f <= g,
    ensures
        folder_text(html, cols, links, c, ind, g) == folder_text(html, cols, links, c, ind, f),
    decreases f, 0nat,
{
    lemma_folders_fuel(html, cols, links, kids(cols, Some(c.id)), ind + unit(html), (f - 1) as nat, (g - 1) as nat);
}

pub proof fn lemma_folders_fuel(
    html: bool,
    cols: Seq<Collection>,
    links: Seq<Link>,
    ks: Seq<Collection>,
    ind: Seq<char>,
    f: nat,
    g: nat,
)
    requires
        folders_text(html, cols, links, ks, ind, f) is Some,
        f <= g,
    ensures
        folders_text(html, cols, links, ks, ind, g) == folders_text(html, cols, links, ks, ind, f),
    decreases f, ks.len(),
{
    if ks.len() > 0 {
        lemma_folder_fuel(html, cols, links, ks[0], ind, f, g);
        lemma_folders_fuel(html, cols, links, ks.drop_first(), ind, f, g);
    }
}

/// The first lines of an export.
pub open spec fn export_head(html: bool) -> Seq<char> {
    if html {
        "<!DOCTYPE NETSCAPE-Bookmark-file-1>\n"@
            + "<META HTTP-EQUIV=\"Content-Type\" CONTENT=\"text/html; charset=UTF-8\">\n"@
            + "<TITLE>Bookmarks</TITLE>\n"@ + "<H1>Bookmarks</H1>\n"@ + "<DL><p>\n"@
    } else {
        "<?xml version=\"1.0\" encoding=\"UTF-8\"?>\n"@
            + "<!DOCTYPE xbel PUBLIC \"+//IDN python.org//DTD XML Bookmark Exchange Language 1.0//EN//XML\" \"http://www.python.org/topics/xml/dtds/xbel-1.0.dtd\">\n"@
            + "<xbel version=\"1.0\">\n"@
    }
}

/// The last line of an export.
pub open spec fn export_tail(html: bool) -> Seq<char> {
    if html { "</DL><p>\n"@ } else { "</xbel>\n"@ }
}

proof fn lemma_folder_ranked(html: bool, cols: Seq<Collection>, links: Seq<Link>, rank: spec_fn(i64) -> nat, c: Collection, ind: Seq<char>, f: nat)
    requires
        crate::collection::ranked(cols, rank),
        rank(c.id) < f,
    ensures
        folder_text(html, cols, links, c, ind, f) is Some,
    decreases f, 0nat,
{
    let ks = kids(cols, Some(c.id));
    crate::collection::lemma_kids_in(cols, Some(c.id));
    assert forall|j: int| 0 <= j < ks.len() implies rank(#[trigger] ks[j].id) < (f - 1) as nat by {
        let i = choose|i: int| 0 <= i < cols.len() && #[trigger] ks[j] == cols[i] && cols[i].parent_id == Some(c.id);
        assert(rank(cols[i].id) < cols.len());
    }
    lemma_folders_ranked(html, cols, links, rank, ks, ind + unit(html), (f - 1) as nat);
}

proof fn lemma_folders_ranked(html: bool, cols: Seq<Collection>, links: Seq<Link>, rank: spec_fn(i64) -> nat, ks: Seq<Collection>, ind: Seq<char>, f: nat)
    requires
        crate::collection::ranked(cols, rank),
        forall|j: int| 0 <= j < ks.len() ==> rank(#[trigger] ks[j].id) < f,
    ensures
        folders_text(html, cols, links, ks, ind, f) is Some,
    decreases f, ks.len(),
{
    if ks.len() > 0 {
        lemma_folder_ranked(html, cols, links, rank, ks[0], ind, f);
        assert forall|j: int| 0 <= j < ks.drop_first().len() implies rank(#[trigger] ks.drop_first()[j].id) < f by {
            assert(ks.drop_first()[j] == ks[j + 1]);
        }
        lemma_folders_ranked(html, cols, links, rank, ks.drop_first(), ind, f);
    }
}

/// Collections whose parent links form no cycle, as a rank shows, can be
/// exported: the `requires` of `export_html` and `export_xbel` holds of
/// them, with one more step of fuel than there are collections.
pub proof fn lemma_ranked_export(html: bool, cols: Seq<Collection>, links: Seq<Link>, rank: spec_fn(i64) -> nat)
    requires
        crate::collection::ranked(cols, rank),
    ensures
        export_text(html, cols, links, cols.len() + 1) is Some,
{
    let ks = kids(cols, None);
    crate::collection::lemma_kids_in(cols, None);
    assert forall|j: int| 0 <= j < ks.len() implies rank(#[trigger] ks[j].id) < cols.len() + 1 by {
        let i = choose|i: int| 0 <= i < cols.len() && #[trigger] ks[j] == cols[i] && cols[i].parent_id == None::<i64>;
        assert(rank(cols[i].id) < cols.len());
    }
    lemma_folders_ranked(html, cols, links, rank, ks, unit(html), cols.len() + 1);
}

/// A whole export: the top-level collections as folders, in the given
/// order, then the links of no collection (id 0) without descriptions.
pub open spec fn export_text(html: bool, cols: Seq<Collection>, links: Seq<Link>, fuel: nat) -> Option<Seq<char>> {
    match folders_text(html, cols, links, kids(cols, None), unit(html), fuel) {
        Some(f) => Some(export_head(html) + f + links_text(html, links, 0, Seq::empty(), false) + export_tail(html)),
        None => None,
    }
}

fn push_link(out: &mut String, html: bool, l: &Link, ind: &String, dd: bool)
    ensures
        final(out)@ == old(out)@ + link_text(html, *l, ind@, dd),
{
    let ghost start = out@;
    if html {
        out.append(ind.as_str());
        out.append("    <DT><A HREF=\"");
        push_escaped(out, l.url.as_str(), Escape::Html);
        out.append("\">");
        push_escaped(out, l.name.as_str(), Escape::Html);
        out.append("</A>\n");
        let ghost mid = out@;
        if dd && !l.description.as_str().is_empty() {
            out.append(ind.as_str());
            out.append("    <DD>");
            push_escaped(out, l.description.as_str(), Escape::Html);
            out.append("\n");
        } else {
            assert(out@ =~= mid + Seq::<char>::empty());
        }
    } else {
        out.append(ind.as_str());
        out.append("  <bookmark href=\"");
        push_escaped(out, l.url.as_str(), Escape::Html);
        out.append("\">\n");
        out.append(ind.as_str());
        out.append("    <title>");
        push_escaped(out, l.name.as_str(), Escape::Html);
        out.append("</title>\n");
        out.append(ind.as_str());
        out.append("  </bookmark>\n");
    }
    assert(out@ =~= start + link_text(html, *l, ind@, dd));
}

fn push_links(out: &mut String, html: bool, links: &Vec<Link>, cid: i64, ind: &String, dd: bool)
    ensures
        final(out)@ == old(out)@ + links_text(html, links@, cid, ind@, dd),
{
    let ghost start = out@;
    let mut i: usize = 0;
    assert(links@.take(0) =~= Seq::<Link>::empty());
    assert(out@ =~= start + links_text(html, links@.take(0), cid, ind@, dd));
    while i < links.len()
        invariant
            i <= links@.len(),
            out@ == start + links_text(html, links@.take(i as int), cid, ind@, dd),
        decreases links.len() - i,
    {
        let ghost t1 = links@.take(i + 1);
        assert(t1.drop_last() =~= links@.take(i as int));
        assert(t1.last() == links@[i as int]);
        let ghost before = out@;
        if links[i].collection_id == cid {
            push_link(out, html, &links[i], ind, dd);
        }
        assert(out@ =~= start + links_text(html, t1, cid, ind@, dd));
        i = i + 1;
    }
    assert(links@.take(links@.len() as int) =~= links@);
}

fn unit_of(html: bool) -> (r: &'static str)
    ensures
        r@ == unit(html),
{
    if html { "    " } else { "  " }
}

/// Appends the folders of the collections at `ks`, in order.
fn push_folders(
    out: &mut String,
    html: bool,
    cols: &Vec<Collection>,
    links: &Vec<Link>,
    ks: &Vec<usize>,
    ind: &String,
    Ghost(kv): Ghost<Seq<Collection>>,
    Ghost(fuel): Ghost<nat>,
)
    requires
        ks@.len() == kv.len(),
        forall|k: int| 0 <= k < ks@.len() ==> #[trigger] ks@[k] < cols@.len(),
        forall|k: int| 0 <= k < ks@.len() ==> cols@[ks@[k] as int] == #[trigger] kv[k],
        folders_text(html, cols@, links@, kv, ind@, fuel) is Some,
    ensures
        final(out)@ == old(out)@ + folders_text(html, cols@, links@, kv, ind@, fuel)->Some_0,
    decreases fuel, 1nat,
{
    let ghost start = out@;
    let mut i: usize = 0;
    assert(kv.skip(0) =~= kv);
    assert(start =~= start + Seq::<char>::empty());
    while i < ks.len()
        invariant
            i <= ks@.len(),
            ks@.len() == kv.len(),
            forall|k: int| 0 <= k < ks@.len() ==> #[trigger] ks@[k] < cols@.len(),
            forall|k: int| 0 <= k < ks@.len() ==> cols@[ks@[k] as int] == #[trigger] kv[k],
            folders_text(html, cols@, links@, kv, ind@, fuel) is Some,
            folders_text(html, cols@, links@, kv, ind@, fuel) == match folders_text(html, cols@, links@, kv.skip(i as int), ind@, fuel) {
                Some(r) => Some(out@.skip(start.len() as int) + r),
                None => None::<Seq<char>>,
            },
            out@.len() >= start.len(),
            out@.take(start.len() as int) == start,
        decreases ks.len() - i,
    {
        let ghost rest = kv.skip(i as int);
        assert(rest[0] == kv[i as int]);
        assert(rest.drop_first() =~= kv.skip(i + 1));
        let ghost before = out@;
        write_folder(out, html, cols, links, &cols[ks[i]], ind, Ghost(fuel));
        proof {
            let a = folder_text(html, cols@, links@, kv[i as int], ind@, fuel)->Some_0;
            assert(out@ == before + a);
            assert(out@.skip(start.len() as int) =~= before.skip(start.len() as int) + a);
            assert(out@.take(start.len() as int) =~= before.take(start.len() as int));
            match folders_text(html, cols@, links@, kv.skip(i + 1), ind@, fuel) {
                Some(r) => {
                    assert(before.skip(start.len() as int) + (a + r) =~= out@.skip(start.len() as int) + r);
                },
                None => {},
            }
        }
        i = i + 1;
    }
    assert(kv.skip(i as int) =~= Seq::<Collection>::empty());
    assert(out@ =~= start + out@.skip(start.len() as int));
    assert(out@.skip(start.len() as int) + Seq::<char>::empty() =~= out@.skip(start.len() as int));
}

/// Appends the folder of collection `c`: its sub-collections, then its links.
fn write_folder(
    out: &mut String,
    html: bool,
    cols: &Vec<Collection>,
    links: &Vec<Link>,
    c: &Collection,
    ind: &String,
    Ghost(fuel): Ghost<nat>,
)
    requires
        folder_text(html, cols@, links@, *c, ind@, fuel) is Some,
    ensures
        final(out)@ == old(out)@ + folder_text(html, cols@, links@, *c, ind@, fuel)->Some_0,
    decreases fuel, 0nat,
{
    let ghost start = out@;
    if html {
        out.append(ind.as_str());
        out.append("<DT><H3>");
        push_escaped(out, c.name.as_str(), Escape::Html);
        out.append("</H3>\n");
        out.append(ind.as_str());
        out.append("<DL><p>\n");
    } else {
        out.append(ind.as_str());
        out.append("<folder>\n");
        out.append(ind.as_str());
        out.append("  <title>");
        push_escaped(out, c.name.as_str(), Escape::Html);
        out.append("</title>\n");
    }
    assert(out@ =~= start + folder_head(html, *c, ind@));
    let ghost head_end = out@;
    let ks = kids_of(cols, Some(c.id));
    let mut sub_ind = ind.clone();
    sub_ind.append(unit_of(html));
    push_folders(out, html, cols, links, &ks, &sub_ind, Ghost(kids(cols@, Some(c.id))), Ghost((fuel - 1) as nat));
    let ghost sub = folders_text(html, cols@, links@, kids(cols@, Some(c.id)), ind@ + unit(html), (fuel - 1) as nat)->Some_0;
    assert(out@ == head_end + sub);
    push_links(out, html, links, c.id, ind, true);
    if html {
        out.append(ind.as_str());
        out.append("</DL><p>\n");
    } else {
        out.append(ind.as_str());
        out.append("</folder>\n");
    }
    assert(out@ =~= start + (folder_head(html, *c, ind@) + sub + links_text(html, links@, c.id, ind@, true)
        + folder_tail(html, ind@)));
}



/// A byte that makes csv's writer quote a field by default: the delimiter,
/// the quote, or a line break.
pub open spec fn csv_special(c: char) -> bool {
    c == ',' || c == '"' || c == '\r' || c == '\n'
}

pub open spec fn csv_needs_quotes(f: Seq<char>) -> bool {
    exists|i: int| 0 <= i < f.len() && csv_special(#[trigger] f[i])
}

/// `f` with each `"` doubled.
pub open spec fn doubled_quotes(f: Seq<char>) -> Seq<char>
    decreases f.len(),
{
    if f.len() == 0 {
        Seq::empty()
    } else {
        doubled_quotes(f.drop_last()) + (if f.last() == '"' { "\"\""@ } else { seq![f.last()] })
    }
}

/// One field as csv's writer puts it: quoted, with quotes doubled, where it
/// holds a special character; as it is otherwise.
pub open spec fn csv_field(f: Seq<char>) -> Seq<char> {
    if csv_needs_quotes(f) { "\""@ + doubled_quotes(f) + "\""@ } else { f }
}

/// The fields of a record, separated by commas.
pub open spec fn csv_fields(fs: Seq<Seq<char>>) -> Seq<char>
    decreases fs.len(),
{
    if fs.len() == 0 {
        Seq::empty()
    } else if fs.len() == 1 {
        csv_field(fs[0])
    } else {
        csv_fields(fs.drop_last()) + ","@ + csv_field(fs.last())
    }
}

/// A record of at least two fields as csv's writer puts it, with its `\n`.
pub open spec fn csv_line(fs: Seq<Seq<char>>) -> Seq<char> {
    csv_fields(fs) + "\n"@
}

/// csv's `Writer::from_writer` on an empty `Vec`, `write_record` of
/// `fields`, `into_inner`, and the bytes read back with
/// `String::from_utf8_lossy`: with the default settings (comma, `"` doubled,
/// `\n` terminator, quoting where necessary) the line is `csv_line(fields)`.
/// It does not fail: the one record sets the writer's field count, so no
/// `UnequalLengths` can come, and writing into a `Vec` raises no I/O error.
#[verifier::external_body]
fn csv_record(fields: &Vec<String>) -> (r: Result<String, String>)
    requires
        fields@.len() >= 2,
    ensures
        r is Ok,
        r matches Ok(s) ==> s@ == csv_line(strs_v(fields@)),
{
    let mut w = csv::Writer::from_writer(Vec::new());
    w.write_record(fields).map_err(|e| e.to_string())?;
    let data = w.into_inner().map_err(|e| e.to_string())?;
    Ok(String::from_utf8_lossy(&data).into_owned())
}

/// The name of the collection whose id is `id`: the last one with that id,
/// or empty.
pub open spec fn collection_name_of(cols: Seq<Collection>, id: i64) -> Seq<char>
    decreases cols.len(),
{
    if cols.len() == 0 {
        Seq::empty()
    } else if cols.last().id == id {
        cols.last().name@
    } else {
        collection_name_of(cols.drop_last(), id)
    }
}

pub open spec fn csv_header() -> Seq<Seq<char>> {
    seq!["url"@, "name"@, "description"@, "collection"@]
}

/// The record of link `l`: its URL, name, description and collection name.
pub open spec fn csv_row(cols: Seq<Collection>, l: Link) -> Seq<Seq<char>> {
    seq![l.url@, l.name@, l.description@, collection_name_of(cols, l.collection_id)]
}

/// The CSV of the links `ls`, after the header line.
pub open spec fn csv_rows(cols: Seq<Collection>, ls: Seq<Link>) -> Seq<char>
    decreases ls.len(),
{
    if ls.len() == 0 {
        Seq::empty()
    } else {
        csv_rows(cols, ls.drop_last()) + csv_line(csv_row(cols, ls.last()))
    }
}

pub open spec fn csv_export(cols: Seq<Collection>, links: Seq<Link>) -> Seq<char> {
    csv_line(csv_header()) + csv_rows(cols, links)
}

fn name_of(cols: &Vec<Collection>, id: i64) -> (r: String)
    ensures
        r@ == collection_name_of(cols@, id),
{
    let mut i = cols.len();
    assert(cols@.take(cols@.len() as int) =~= cols@);
    while i > 0
        invariant
            i <= cols@.len(),
            collection_name_of(cols@, id) == collection_name_of(cols@.take(i as int), id),
        decreases i,
    {
        let ghost t = cols@.take(i as int);
        assert(t.drop_last() =~= cols@.take(i - 1));
        assert(t.last() == cols@[i - 1]);
        if cols[i - 1].id == id {
            return cols[i - 1].name.clone();
        }
        i = i - 1;
    }
    String::new()
}


pub open spec fn jnum(n: i64) -> JsonV {
    JsonV::Number(Some(n))
}

pub open spec fn jopt_num(o: Option<i64>) -> JsonV {
    match o {
        Some(n) => jnum(n),
        None => JsonV::Null,
    }
}

pub open spec fn jopt_str(o: Option<String>) -> JsonV {
    match o {
        Some(s) => JsonV::Str(s@),
        None => JsonV::Null,
    }
}

/// The JSON object of a collection.
pub open spec fn collection_json(c: Collection) -> JsonV {
    JsonV::Object(seq![
        ("id"@, jnum(c.id)),
        ("uuid"@, JsonV::Str(c.uuid@)),
        ("parentId"@, jopt_num(c.parent_id)),
        ("name"@, JsonV::Str(c.name@)),
        ("description"@, JsonV::Str(c.description@)),
        ("color"@, jopt_str(c.color)),
        ("createdAt"@, JsonV::Str(c.created_at@)),
        ("updatedAt"@, JsonV::Str(c.updated_at@)),
    ])
}

/// The name of the first tag of `tags` whose id is `id`.
pub open spec fn first_tag_name(tags: Seq<Tag>, id: i64) -> Option<Seq<char>>
    decreases tags.len(),
{
    if tags.len() == 0 {
        None
    } else {
        match first_tag_name(tags.drop_last(), id) {
            Some(n) => Some(n),
            None => if tags.last().id == id { Some(tags.last().name@) } else { None },
        }
    }
}

/// The names of the tags of link `lid`: one for each `(link, tag)` pair of
/// it, in order, where a tag of that id is known.
pub open spec fn link_tag_names(tags: Seq<Tag>, pairs: Seq<(i64, i64)>, lid: i64) -> Seq<JsonV>
    decreases pairs.len(),
{
    if pairs.len() == 0 {
        Seq::empty()
    } else {
        link_tag_names(tags, pairs.drop_last(), lid) + (if pairs.last().0 == lid {
            match first_tag_name(tags, pairs.last().1) {
                Some(n) => seq![JsonV::Str(n)],
                None => Seq::empty(),
            }
        } else {
            Seq::empty()
        })
    }
}

/// The JSON object of a link with its tag names.
pub open spec fn link_json(l: Link, names: Seq<JsonV>) -> JsonV {
    JsonV::Object(seq![
        ("id"@, jnum(l.id)),
        ("uuid"@, JsonV::Str(l.uuid@)),
        ("collectionId"@, jnum(l.collection_id)),
        ("url"@, JsonV::Str(l.url@)),
        ("name"@, JsonV::Str(l.name@)),
        ("description"@, JsonV::Str(l.description@)),
        ("tags"@, JsonV::Array(names)),
        ("createdAt"@, JsonV::Str(l.created_at@)),
        ("updatedAt"@, JsonV::Str(l.updated_at@)),
    ])
}

/// The JSON object of a tag.
pub open spec fn tag_json(t: Tag) -> JsonV {
    JsonV::Object(seq![("id"@, jnum(t.id)), ("uuid"@, JsonV::Str(t.uuid@)), ("name"@, JsonV::Str(t.name@))])
}

/// The whole JSON export made at `at`.
pub open spec fn export_doc(
    cols: Seq<Collection>,
    links: Seq<Link>,
    tags: Seq<Tag>,
    pairs: Seq<(i64, i64)>,
    at: Seq<char>,
) -> JsonV {
    JsonV::Object(seq![
        ("version"@, jnum(1)),
        ("exported_at"@, JsonV::Str(at)),
        ("collections"@, JsonV::Array(Seq::new(cols.len(), |i: int| collection_json(cols[i])))),
        ("links"@, JsonV::Array(Seq::new(links.len(), |i: int| link_json(links[i], link_tag_names(tags, pairs, links[i].id))))),
        ("tags"@, JsonV::Array(Seq::new(tags.len(), |i: int| tag_json(tags[i])))),
    ])
}

/// The entries of an object, by value.
pub open spec fn entries_v(m: Seq<(String, JsonValue)>) -> Seq<(Seq<char>, JsonV)> {
    Seq::new(m.len(), |i: int| (m[i].0@, m[i].1.jv()))
}

pub proof fn lemma_object_jv(m: Vec<(String, JsonValue)>)
    ensures
        JsonValue::Object(m).jv() == JsonV::Object(entries_v(m@)),
{
    let x = JsonValue::Object(m);
    let mv = match x.jv() {
        JsonV::Object(mm) => mm,
        _ => arbitrary(),
    };
    assert(x.jv() == JsonV::Object(mv));
    assert(mv =~= entries_v(m@));
}

pub proof fn lemma_array_jv(a: Vec<JsonValue>)
    ensures
        JsonValue::Array(a).jv() == JsonV::Array(Seq::new(a@.len(), |i: int| a@[i].jv())),
{
    let x = JsonValue::Array(a);
    let av = match x.jv() {
        JsonV::Array(aa) => aa,
        _ => arbitrary(),
    };
    assert(x.jv() == JsonV::Array(av));
    assert(av =~= Seq::new(a@.len(), |i: int| a@[i].jv()));
}

fn jstr(s: &String) -> (r: JsonValue)
    ensures
        r.jv() == JsonV::Str(s@),
{
    JsonValue::Str(s.clone())
}

fn jopt(o: &Option<String>) -> (r: JsonValue)
    ensures
        r.jv() == jopt_str(*o),
{
    match o {
        Some(s) => JsonValue::Str(s.clone()),
        None => JsonValue::Null,
    }
}

fn key(k: &str) -> (r: String)
    ensures
        r@ == k@,
{
    k.to_owned()
}

fn collection_value(c: &Collection) -> (r: JsonValue)
    ensures
        r.jv() == collection_json(*c),
{
    let m = vec![
        (key("id"), JsonValue::Number(Some(c.id))),
        (key("uuid"), jstr(&c.uuid)),
        (key("parentId"), match c.parent_id { Some(p) => JsonValue::Number(Some(p)), None => JsonValue::Null }),
        (key("name"), jstr(&c.name)),
        (key("description"), jstr(&c.description)),
        (key("color"), jopt(&c.color)),
        (key("createdAt"), jstr(&c.created_at)),
        (key("updatedAt"), jstr(&c.updated_at)),
    ];
    proof {
        lemma_object_jv(m);
        let pv = match c.parent_id { Some(p) => JsonValue::Number(Some(p)), None => JsonValue::Null };
        assert(pv.jv() == jopt_num(c.parent_id));
        assert(JsonValue::Number(Some(c.id)).jv() == jnum(c.id));
        assert(entries_v(m@) =~= seq![
            ("id"@, jnum(c.id)),
            ("uuid"@, JsonV::Str(c.uuid@)),
            ("parentId"@, jopt_num(c.parent_id)),
            ("name"@, JsonV::Str(c.name@)),
            ("description"@, JsonV::Str(c.description@)),
            ("color"@, jopt_str(c.color)),
            ("createdAt"@, JsonV::Str(c.created_at@)),
            ("updatedAt"@, JsonV::Str(c.updated_at@)),
        ]);
    }
    JsonValue::Object(m)
}

fn tag_value(t: &Tag) -> (r: JsonValue)
    ensures
        r.jv() == tag_json(*t),
{
    let m = vec![(key("id"), JsonValue::Number(Some(t.id))), (key("uuid"), jstr(&t.uuid)), (key("name"), jstr(&t.name))];
    proof {
        lemma_object_jv(m);
        assert(JsonValue::Number(Some(t.id)).jv() == jnum(t.id));
        assert(entries_v(m@) =~= seq![("id"@, jnum(t.id)), ("uuid"@, JsonV::Str(t.uuid@)), ("name"@, JsonV::Str(t.name@))]);
    }
    JsonValue::Object(m)
}


pub proof fn lemma_first_tag_prefix(tags: Seq<Tag>, id: i64, k: int)
    requires
        0 <= k <= tags.len(),
        first_tag_name(tags.take(k), id) is Some,
    ensures
        first_tag_name(tags, id) == first_tag_name(tags.take(k), id),
    decreases tags.len(),
{
    if k < tags.len() {
        assert(tags.drop_last().take(k) =~= tags.take(k));
        lemma_first_tag_prefix(tags.drop_last(), id, k);
    } else {
        assert(tags.take(k) =~= tags);
    }
}

fn first_tag(tags: &Vec<Tag>, id: i64) -> (r: Option<String>)
    ensures
        match r {
            Some(n) => first_tag_name(tags@, id) == Some(n@),
            None => first_tag_name(tags@, id) is None,
        },
{
    let mut i: usize = 0;
    assert(tags@.take(0) =~= Seq::<Tag>::empty());
    while i < tags.len()
        invariant
            i <= tags@.len(),
            first_tag_name(tags@.take(i as int), id) is None,
        decreases tags.len() - i,
    {
        let ghost t1 = tags@.take(i + 1);
        assert(t1.drop_last() =~= tags@.take(i as int));
        assert(t1.last() == tags@[i as int]);
        if tags[i].id == id {
            proof {
                lemma_first_tag_prefix(tags@, id, i + 1);
            }
            return Some(tags[i].name.clone());
        }
        i = i + 1;
    }
    assert(tags@.take(tags@.len() as int) =~= tags@);
    None
}

pub open spec fn values_v(v: Seq<JsonValue>) -> Seq<JsonV> {
    Seq::new(v.len(), |i: int| v[i].jv())
}

fn tag_names_of(tags: &Vec<Tag>, pairs: &Vec<(i64, i64)>, lid: i64) -> (r: Vec<JsonValue>)
    ensures
        values_v(r@) == link_tag_names(tags@, pairs@, lid),
{
    let mut r: Vec<JsonValue> = Vec::new();
    let mut i: usize = 0;
    assert(pairs@.take(0) =~= Seq::<(i64, i64)>::empty());
    assert(values_v(r@) =~= Seq::<JsonV>::empty());
    while i < pairs.len()
        invariant
            i <= pairs@.len(),
            values_v(r@) == link_tag_names(tags@, pairs@.take(i as int), lid),
        decreases pairs.len() - i,
    {
        let ghost t1 = pairs@.take(i + 1);
        assert(t1.drop_last() =~= pairs@.take(i as int));
        assert(t1.last() == pairs@[i as int]);
        let ghost before = values_v(r@);
        let (l, t) = pairs[i];
        if l == lid {
            match first_tag(tags, t) {
                Some(n) => {
                    r.push(JsonValue::Str(n));
                    assert(values_v(r@) =~= before + seq![JsonV::Str(first_tag_name(tags@, t)->Some_0)]);
                },
                None => {
                    assert(values_v(r@) =~= before + Seq::<JsonV>::empty());
                },
            }
        } else {
            assert(values_v(r@) =~= before + Seq::<JsonV>::empty());
        }
        assert(values_v(r@) == link_tag_names(tags@, t1, lid));
        i = i + 1;
    }
    assert(pairs@.take(pairs@.len() as int) =~= pairs@);
    r
}

fn link_value(l: &Link, tags: &Vec<Tag>, pairs: &Vec<(i64, i64)>) -> (r: JsonValue)
    ensures
        r.jv() == link_json(*l, link_tag_names(tags@, pairs@, l.id)),
{
    let names = tag_names_of(tags, pairs, l.id);
    proof {
        lemma_array_jv(names);
    }
    let ghost nv = values_v(names@);
    let arr = JsonValue::Array(names);
    assert(arr.jv() == JsonV::Array(nv));
    let m = vec![
        (key("id"), JsonValue::Number(Some(l.id))),
        (key("uuid"), jstr(&l.uuid)),
        (key("collectionId"), JsonValue::Number(Some(l.collection_id))),
        (key("url"), jstr(&l.url)),
        (key("name"), jstr(&l.name)),
        (key("description"), jstr(&l.description)),
        (key("tags"), arr),
        (key("createdAt"), jstr(&l.created_at)),
        (key("updatedAt"), jstr(&l.updated_at)),
    ];
    proof {
        lemma_object_jv(m);
        assert(JsonValue::Number(Some(l.id)).jv() == jnum(l.id));
        assert(JsonValue::Number(Some(l.collection_id)).jv() == jnum(l.collection_id));
        assert(entries_v(m@) =~= seq![
            ("id"@, jnum(l.id)),
            ("uuid"@, JsonV::Str(l.uuid@)),
            ("collectionId"@, jnum(l.collection_id)),
            ("url"@, JsonV::Str(l.url@)),
            ("name"@, JsonV::Str(l.name@)),
            ("description"@, JsonV::Str(l.description@)),
            ("tags"@, JsonV::Array(link_tag_names(tags@, pairs@, l.id))),
            ("createdAt"@, JsonV::Str(l.created_at@)),
            ("updatedAt"@, JsonV::Str(l.updated_at@)),
        ]);
    }
    JsonValue::Object(m)
}


/// What serde_json's `to_string_pretty` gives for a value, or an empty
/// string where it fails.
pub uninterp spec fn pretty_json(v: JsonV) -> Seq<char>;

/// A `JsonValue` as a `serde_json::Value`, one variant for another; a number
/// that holds no `i64` becomes `null`.
#[verifier::external_body]
fn value_of(v: &JsonValue) -> serde_json::Value {
    match v {
        JsonValue::Null => serde_json::Value::Null,
        JsonValue::Bool(b) => serde_json::Value::Bool(*b),
        JsonValue::Number(Some(n)) => serde_json::Value::from(*n),
        JsonValue::Number(None) => serde_json::Value::Null,
        JsonValue::Str(s) => serde_json::Value::String(s.clone()),
        JsonValue::Array(a) => serde_json::Value::Array(a.iter().map(value_of).collect()),
        JsonValue::Object(m) => serde_json::Value::Object(m.iter().map(|(k, x)| (k.clone(), value_of(x))).collect()),
    }
}

/// serde_json's `to_string_pretty` of `v`, `unwrap_or_default` on its
/// error; named `pretty_json`, a function of the value alone.
#[verifier::external_body]
fn json_pretty(v: &JsonValue) -> (r: String)
    ensures
        r@ == pretty_json(v.jv()),
{
    serde_json::to_string_pretty(&value_of(v)).unwrap_or_default()
}

fn export_tree(html: bool, cols: &Vec<Collection>, links: &Vec<Link>) -> (r: String)
    requires
        exists|f: nat| #[trigger] export_text(html, cols@, links@, f) is Some,
    ensures
        forall|f: nat| #[trigger] export_text(html, cols@, links@, f) is Some ==> export_text(html, cols@, links@, f) == Some(r@),
{
    let ghost fuel = choose|f: nat| #[trigger] export_text(html, cols@, links@, f) is Some;
    let mut out = String::new();
    if html {
        out.append("<!DOCTYPE NETSCAPE-Bookmark-file-1>\n");
        out.append("<META HTTP-EQUIV=\"Content-Type\" CONTENT=\"text/html; charset=UTF-8\">\n");
        out.append("<TITLE>Bookmarks</TITLE>\n");
        out.append("<H1>Bookmarks</H1>\n");
        out.append("<DL><p>\n");
    } else {
        out.append("<?xml version=\"1.0\" encoding=\"UTF-8\"?>\n");
        out.append("<!DOCTYPE xbel PUBLIC \"+//IDN python.org//DTD XML Bookmark Exchange Language 1.0//EN//XML\" \"http://www.python.org/topics/xml/dtds/xbel-1.0.dtd\">\n");
        out.append("<xbel version=\"1.0\">\n");
    }
    assert(out@ =~= export_head(html));
    let ks = kids_of(cols, None);
    let top = unit_of(html).to_owned();
    push_folders(&mut out, html, cols, links, &ks, &top, Ghost(kids(cols@, None)), Ghost(fuel));
    let root = String::new();
    assert(root@ =~= Seq::<char>::empty());
    push_links(&mut out, html, links, 0, &root, false);
    if html {
        out.append("</DL><p>\n");
    } else {
        out.append("</xbel>\n");
    }
    let ghost f = folders_text(html, cols@, links@, kids(cols@, None), unit(html), fuel)->Some_0;
    assert(out@ =~= export_head(html) + f + links_text(html, links@, 0, Seq::empty(), false) + export_tail(html));
    proof {
        assert forall|g: nat| #[trigger] export_text(html, cols@, links@, g) is Some implies export_text(html, cols@, links@, g) == Some(out@) by {
            if g >= fuel {
                lemma_folders_fuel(html, cols@, links@, kids(cols@, None), unit(html), fuel, g);
            } else {
                lemma_folders_fuel(html, cols@, links@, kids(cols@, None), unit(html), g, fuel);
            }
        }
    }
    out
}

impl ExportService {
    /// The workspace as Netscape bookmark HTML: each top-level collection (in
    /// the given order) a folder holding its sub-collections and then its
    /// links with their descriptions; then the links of no collection.
    pub fn export_html(collections: &Vec<Collection>, links: &Vec<Link>) -> (r: String)
        requires
            exists|f: nat| #[trigger] export_text(true, collections@, links@, f) is Some,
        ensures
            forall|f: nat| #[trigger] export_text(true, collections@, links@, f) is Some
                ==> export_text(true, collections@, links@, f) == Some(r@),
    {
        export_tree(true, collections, links)
    }

    /// The workspace as XBEL, folders and bookmarks laid out as in
    /// `export_html`.
    pub fn export_xbel(collections: &Vec<Collection>, links: &Vec<Link>) -> (r: String)
        requires
            exists|f: nat| #[trigger] export_text(false, collections@, links@, f) is Some,
        ensures
            forall|f: nat| #[trigger] export_text(false, collections@, links@, f) is Some
                ==> export_text(false, collections@, links@, f) == Some(r@),
    {
        export_tree(false, collections, links)
    }

    /// The links as CSV: a header line, then a line per link with its URL,
    /// name, description and the name of its collection (empty where no
    /// collection has its id). It does not fail.
    pub fn export_csv(collections: &Vec<Collection>, links: &Vec<Link>) -> (r: Result<String, AppError>)
        ensures
            r matches Ok(s) && s@ == csv_export(collections@, links@),
    {
        let header = vec!["url".to_owned(), "name".to_owned(), "description".to_owned(), "collection".to_owned()];
        assert(strs_v(header@) =~= csv_header());
        let mut out = match csv_record(&header) {
            Ok(line) => line,
            Err(e) => {
                return Err(AppError::Internal(e));
            },
        };
        let ghost start = out@;
        let mut i: usize = 0;
        assert(links@.take(0) =~= Seq::<Link>::empty());
        assert(out@ =~= start + csv_rows(collections@, links@.take(0)));
        while i < links.len()
            invariant
                i <= links@.len(),
                start == csv_line(csv_header()),
                out@ == start + csv_rows(collections@, links@.take(i as int)),
            decreases links.len() - i,
        {
            let l = &links[i];
            let row = vec![l.url.clone(), l.name.clone(), l.description.clone(), name_of(collections, l.collection_id)];
            assert(strs_v(row@) =~= csv_row(collections@, links@[i as int]));
            let line = match csv_record(&row) {
                Ok(line) => line,
                Err(e) => {
                    return Err(AppError::Internal(e));
                },
            };
            let ghost t1 = links@.take(i + 1);
            assert(t1.drop_last() =~= links@.take(i as int));
            assert(t1.last() == links@[i as int]);
            out.append(line.as_str());
            assert(out@ =~= start + csv_rows(collections@, t1));
            i = i + 1;
        }
        assert(links@.take(links@.len() as int) =~= links@);
        Ok(out)
    }

    /// The JSON document of an export made at `exported_at`: the format
    /// version, the time, and the collections, links (each with the names of
    /// its tags) and tags, in the given order.
    pub fn export_document(
        collections: &Vec<Collection>,
        links: &Vec<Link>,
        tags: &Vec<Tag>,
        link_tags: &Vec<(i64, i64)>,
        exported_at: &str,
    ) -> (r: JsonValue)
        ensures
            r.jv() == export_doc(collections@, links@, tags@, link_tags@, exported_at@),
    {
        let mut cs: Vec<JsonValue> = Vec::new();
        let mut i: usize = 0;
        while i < collections.len()
            invariant
                i <= collections@.len(),
                cs@.len() == i,
                forall|k: int| 0 <= k < i ==> #[trigger] cs@[k].jv() == collection_json(collections@[k]),
            decreases collections.len() - i,
        {
            cs.push(collection_value(&collections[i]));
            i = i + 1;
        }
        proof {
            lemma_array_jv(cs);
            assert(Seq::new(cs@.len(), |i: int| cs@[i].jv())
                =~= Seq::new(collections@.len(), |i: int| collection_json(collections@[i])));
        }
        let mut ls: Vec<JsonValue> = Vec::new();
        let mut i: usize = 0;
        while i < links.len()
            invariant
                i <= links@.len(),
                ls@.len() == i,
                forall|k: int| 0 <= k < i ==> #[trigger] ls@[k].jv()
                    == link_json(links@[k], link_tag_names(tags@, link_tags@, links@[k].id)),
            decreases links.len() - i,
        {
            ls.push(link_value(&links[i], tags, link_tags));
            i = i + 1;
        }
        proof {
            lemma_array_jv(ls);
            assert(Seq::new(ls@.len(), |i: int| ls@[i].jv()) =~= Seq::new(
                links@.len(),
                |i: int| link_json(links@[i], link_tag_names(tags@, link_tags@, links@[i].id)),
            ));
        }
        let mut ts: Vec<JsonValue> = Vec::new();
        let mut i: usize = 0;
        while i < tags.len()
            invariant
                i <= tags@.len(),
                ts@.len() == i,
                forall|k: int| 0 <= k < i ==> #[trigger] ts@[k].jv() == tag_json(tags@[k]),
            decreases tags.len() - i,
        {
            ts.push(tag_value(&tags[i]));
            i = i + 1;
        }
        proof {
            lemma_array_jv(ts);
            assert(Seq::new(ts@.len(), |i: int| ts@[i].jv()) =~= Seq::new(tags@.len(), |i: int| tag_json(tags@[i])));
        }
        let m = vec![
            (key("version"), JsonValue::Number(Some(1))),
            (key("exported_at"), JsonValue::Str(exported_at.to_owned())),
            (key("collections"), JsonValue::Array(cs)),
            (key("links"), JsonValue::Array(ls)),
            (key("tags"), JsonValue::Array(ts)),
        ];
        proof {
            lemma_object_jv(m);
            assert(JsonValue::Number(Some(1)).jv() == jnum(1));
            assert(entries_v(m@) =~= match export_doc(collections@, links@, tags@, link_tags@, exported_at@) {
                JsonV::Object(e) => e,
                _ => arbitrary(),
            });
        }
        JsonValue::Object(m)
    }

    /// The export as pretty-printed JSON: serde_json's rendering of
    /// `export_document`.
    pub fn export_json(
        collections: &Vec<Collection>,
        links: &Vec<Link>,
        tags: &Vec<Tag>,
        link_tags: &Vec<(i64, i64)>,
        exported_at: &str,
    ) -> (r: String)
        ensures
            r@ == pretty_json(export_doc(collections@, links@, tags@, link_tags@, exported_at@)),
    {
        let doc = Self::export_document(collections, links, tags, link_tags, exported_at);
        json_pretty(&doc)
    }
}


/// A link's URL is written escaped, where its `href` stands: two links that
/// differ only in their URLs are exported, as HTML or as XBEL, as the same
/// text around the URL, with each URL escaped there; and the escaped URL
/// reads back as the URL.
#[verifier::spinoff_prover]
pub proof fn lemma_link_url_escaped(html: bool, l1: Link, l2: Link, ind: Seq<char>, dd: bool)
    requires
        l1.name@ == l2.name@,
        l1.description@ == l2.description@,
    ensures
        exists|p: Seq<char>, q: Seq<char>|
            link_text(html, l1, ind, dd) == p + escaped(Escape::Html, l1.url@) + q
            && link_text(html, l2, ind, dd) == p + escaped(Escape::Html, l2.url@) + q,
        crate::text::xml_decoded(escaped(Escape::Html, l1.url@)) == l1.url@,
{
    crate::text::lemma_escaped_reads_back(Escape::Html, l1.url@);
    if html {
        let p = ind + "    <DT><A HREF=\""@;
        let q = "\">"@ + esc(l1.name@) + "</A>\n"@
            + (if dd && l1.description@.len() > 0 { ind + "    <DD>"@ + esc(l1.description@) + "\n"@ } else { Seq::empty() });
        assert(link_text(html, l1, ind, dd) =~= p + escaped(Escape::Html, l1.url@) + q);
        assert(link_text(html, l2, ind, dd) =~= p + escaped(Escape::Html, l2.url@) + q);
    } else {
        let p = ind + "  <bookmark href=\""@;
        let q = "\">\n"@ + ind + "    <title>"@ + esc(l1.name@) + "</title>\n"@ + ind + "  </bookmark>\n"@;
        assert(link_text(html, l1, ind, dd) =~= p + escaped(Escape::Html, l1.url@) + q);
        assert(link_text(html, l2, ind, dd) =~= p + escaped(Escape::Html, l2.url@) + q);
    }
}

/// A link's name is written escaped in the same way.
#[verifier::spinoff_prover]
pub proof fn lemma_link_name_escaped(html: bool, l1: Link, l2: Link, ind: Seq<char>, dd: bool)
    requires
        l1.url@ == l2.url@,
        l1.description@ == l2.description@,
    ensures
        exists|p: Seq<char>, q: Seq<char>|
            link_text(html, l1, ind, dd) == p + escaped(Escape::Html, l1.name@) + q
            && link_text(html, l2, ind, dd) == p + escaped(Escape::Html, l2.name@) + q,
        crate::text::xml_decoded(escaped(Escape::Html, l1.name@)) == l1.name@,
{
    crate::text::lemma_escaped_reads_back(Escape::Html, l1.name@);
    if html {
        let p = ind + "    <DT><A HREF=\""@ + esc(l1.url@) + "\">"@;
        let q = "</A>\n"@
            + (if dd && l1.description@.len() > 0 { ind + "    <DD>"@ + esc(l1.description@) + "\n"@ } else { Seq::empty() });
        assert(link_text(html, l1, ind, dd) =~= p + escaped(Escape::Html, l1.name@) + q);
        assert(link_text(html, l2, ind, dd) =~= p + escaped(Escape::Html, l2.name@) + q);
    } else {
        let p = ind + "  <bookmark href=\""@ + esc(l1.url@) + "\">\n"@ + ind + "    <title>"@;
        let q = "</title>\n"@ + ind + "  </bookmark>\n"@;
        assert(link_text(html, l1, ind, dd) =~= p + escaped(Escape::Html, l1.name@) + q);
        assert(link_text(html, l2, ind, dd) =~= p + escaped(Escape::Html, l2.name@) + q);
    }
}


/// A collection's name is written escaped as its folder's title: the
/// heads of two folders whose collections differ only in their names are
/// the same text around the name, with each name escaped there.
#[verifier::spinoff_prover]
pub proof fn lemma_folder_name_escaped(html: bool, c1: Collection, c2: Collection, ind: Seq<char>)
    ensures
        exists|p: Seq<char>, q: Seq<char>|
            folder_head(html, c1, ind) == p + escaped(Escape::Html, c1.name@) + q
            && folder_head(html, c2, ind) == p + escaped(Escape::Html, c2.name@) + q,
        crate::text::xml_decoded(escaped(Escape::Html, c1.name@)) == c1.name@,
{
    crate::text::lemma_escaped_reads_back(Escape::Html, c1.name@);
    if html {
        let p = ind + "<DT><H3>"@;
        let q = "</H3>\n"@ + ind + "<DL><p>\n"@;
        assert(folder_head(html, c1, ind) =~= p + escaped(Escape::Html, c1.name@) + q);
        assert(folder_head(html, c2, ind) =~= p + escaped(Escape::Html, c2.name@) + q);
    } else {
        let p = ind + "<folder>\n"@ + ind + "  <title>"@;
        let q = "</title>\n"@;
        assert(folder_head(html, c1, ind) =~= p + escaped(Escape::Html, c1.name@) + q);
        assert(folder_head(html, c2, ind) =~= p + escaped(Escape::Html, c2.name@) + q);
    }
}

} // verus!
