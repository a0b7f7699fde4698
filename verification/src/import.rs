//! Reading bookmark exports of other tools: Netscape HTML, line-oriented
//! XBEL, Linkwarden JSON and CSV.
use vstd::prelude::*;
use crate::error::{AppError, ErrorV};
use crate::text::{
    chars_of, find_from, find_in, lemma_find_from, trim, trim_bounds, slice_chars, string_of,
    string_from_chars, replace_all, replace_in, starts_with, starts_with_exec, lines, lines_of,
    vecs_v, strs_v,
};

verus! {

/// A parsed bookmark from an import file.
#[derive(Debug, Clone)]
pub struct ParsedBookmark {
    pub url: String,
    pub name: String,
    pub description: String,
    /// Names of the folders from the top level down to the bookmark's parent.
    pub folder_path: Vec<String>,
}

/// The value of a `ParsedBookmark`.
pub struct BookmarkV {
    pub url: Seq<char>,
    pub name: Seq<char>,
    pub description: Seq<char>,
    pub folder_path: Seq<Seq<char>>,
}

impl ParsedBookmark {
    pub open spec fn bv(&self) -> BookmarkV {
        BookmarkV {
            url: self.url@,
            name: self.name@,
            description: self.description@,
            folder_path: strs_v(self.folder_path@),
        }
    }
}

pub open spec fn bookmarks_v(v: Seq<ParsedBookmark>) -> Seq<BookmarkV> {
    Seq::new(v.len(), |i: int| v[i].bv())
}

pub open spec fn amp_entity() -> Seq<char> { seq!['&', 'a', 'm', 'p', ';'] }
pub open spec fn lt_entity() -> Seq<char> { seq!['&', 'l', 't', ';'] }
pub open spec fn gt_entity() -> Seq<char> { seq!['&', 'g', 't', ';'] }
pub open spec fn quot_entity() -> Seq<char> { seq!['&', 'q', 'u', 'o', 't', ';'] }
pub open spec fn num39_entity() -> Seq<char> { seq!['&', '#', '3', '9', ';'] }
pub open spec fn apos_entity() -> Seq<char> { seq!['&', 'a', 'p', 'o', 's', ';'] }
pub open spec fn nbsp_entity() -> Seq<char> { seq!['&', 'n', 'b', 's', 'p', ';'] }

/// The entity replacements, applied one after another over the whole text:
/// `&amp;`, `&lt;`, `&gt;`, `&quot;`, `&#39;`, `&apos;`, `&nbsp;`.
pub open spec fn decode_entities(s: Seq<char>) -> Seq<char> {
    let s1 = replace_all(s, amp_entity(), seq!['&']);
    let s2 = replace_all(s1, lt_entity(), seq!['<']);
    let s3 = replace_all(s2, gt_entity(), seq!['>']);
    let s4 = replace_all(s3, quot_entity(), seq!['"']);
    let s5 = replace_all(s4, num39_entity(), seq!['\'']);
    let s6 = replace_all(s5, apos_entity(), seq!['\'']);
    replace_all(s6, nbsp_entity(), seq![' '])
}

fn decode_chars(s: &Vec<char>) -> (r: Vec<char>)
    ensures
        r@ == decode_entities(s@),
{
    let p1 = vec!['&', 'a', 'm', 'p', ';'];
    let p2 = vec!['&', 'l', 't', ';'];
    let p3 = vec!['&', 'g', 't', ';'];
    let p4 = vec!['&', 'q', 'u', 'o', 't', ';'];
    let p5 = vec!['&', '#', '3', '9', ';'];
    let p6 = vec!['&', 'a', 'p', 'o', 's', ';'];
    let p7 = vec!['&', 'n', 'b', 's', 'p', ';'];
    let r1 = vec!['&'];
    let r2 = vec!['<'];
    let r3 = vec!['>'];
    let r4 = vec!['"'];
    let r5 = vec!['\''];
    let r7 = vec![' '];
    assert(p1@ =~= amp_entity());
    assert(p2@ =~= lt_entity());
    assert(p3@ =~= gt_entity());
    assert(p4@ =~= quot_entity());
    assert(p5@ =~= num39_entity());
    assert(p6@ =~= apos_entity());
    assert(p7@ =~= nbsp_entity());
    assert(r1@ =~= seq!['&']);
    assert(r2@ =~= seq!['<']);
    assert(r3@ =~= seq!['>']);
    assert(r4@ =~= seq!['"']);
    assert(r5@ =~= seq!['\'']);
    assert(r7@ =~= seq![' ']);
    let s1 = replace_in(s, &p1, &r1);
    let s2 = replace_in(&s1, &p2, &r2);
    let s3 = replace_in(&s2, &p3, &r3);
    let s4 = replace_in(&s3, &p4, &r4);
    let s5 = replace_in(&s4, &p5, &r5);
    let s6 = replace_in(&s5, &p6, &r5);
    replace_in(&s6, &p7, &r7)
}

/// Replaces the common HTML entities, one kind after another.
pub fn decode_html_entities(s: &str) -> (r: String)
    ensures
        r@ == decode_entities(s@),
{
    let cs = chars_of(s);
    let d = decode_chars(&cs);
    string_from_chars(d.as_slice())
}

/// The trimmed content of the first `<tag ...>...</tag` of a line; tag names
/// match in any ASCII case, `tag` being given in small letters.
pub open spec fn spec_extract_tag(line: Seq<char>, tag: Seq<char>) -> Option<Seq<char>> {
    match find_from(line, seq!['<'] + tag, 0, true) {
        None => None,
        Some(start) => match find_from(line, seq!['>'], start, false) {
            None => None,
            Some(gt) => match find_from(line, seq!['<', '/'] + tag, gt + 1, true) {
                None => None,
                Some(close) => Some(trim(line.subrange(gt + 1, close))),
            },
        },
    }
}

fn extract_tag_chars(line: &Vec<char>, tag: &Vec<char>) -> (r: Option<Vec<char>>)
    ensures
        match r {
            Some(v) => spec_extract_tag(line@, tag@) == Some(v@),
            None => spec_extract_tag(line@, tag@) is None,
        },
{
    let mut open = vec!['<'];
    let mut close = vec!['<', '/'];
    let mut i: usize = 0;
    while i < tag.len()
        invariant
            i <= tag@.len(),
            open@ == seq!['<'] + tag@.take(i as int),
            close@ == seq!['<', '/'] + tag@.take(i as int),
        decreases tag.len() - i,
    {
        open.push(tag[i]);
        close.push(tag[i]);
        i = i + 1;
        assert(open@ =~= seq!['<'] + tag@.take(i as int));
        assert(close@ =~= seq!['<', '/'] + tag@.take(i as int));
    }
    assert(tag@.take(tag@.len() as int) =~= tag@);
    assert(open@ =~= seq!['<'] + tag@);
    assert(close@ =~= seq!['<', '/'] + tag@);
    let n = line.len();
    let gt_pat = vec!['>'];
    assert(gt_pat@ =~= seq!['>']);
    let start = match find_in(line, &open, 0, true) {
        None => {
            return None;
        },
        Some(s) => s,
    };
    proof {
        lemma_find_from(line@, open@, 0, true);
    }
    let gt = match find_in(line, &gt_pat, start, false) {
        None => {
            return None;
        },
        Some(g) => g,
    };
    proof {
        lemma_find_from(line@, gt_pat@, start as int, false);
    }
    let cs = gt + 1;
    let close_at = match find_in(line, &close, cs, true) {
        None => {
            return None;
        },
        Some(c) => c,
    };
    proof {
        lemma_find_from(line@, close@, cs as int, true);
    }
    let (a, b) = trim_bounds(line, cs, close_at);
    Some(slice_chars(line, a, b))
}

/// The trimmed content of the first `<tag ...>...</tag` of `line`.
pub fn extract_tag(line: &str, tag: &str) -> (r: Option<String>)
    ensures
        match r {
            Some(v) => spec_extract_tag(line@, tag@) == Some(v@),
            None => spec_extract_tag(line@, tag@) is None,
        },
{
    let l = chars_of(line);
    let t = chars_of(tag);
    match extract_tag_chars(&l, &t) {
        Some(v) => Some(string_from_chars(v.as_slice())),
        None => None,
    }
}

pub open spec fn href_pattern() -> Seq<char> { seq!['h', 'r', 'e', 'f', '=', '"'] }
pub open spec fn close_a_pattern() -> Seq<char> { seq!['<', '/', 'a', '>'] }

/// The URL (up to the next `"` after `href="`) and the trimmed name (after
/// the `>` that ends the `<A ...>` tag, the first one past the URL, and up to
/// `</a>`) of an anchor line.
pub open spec fn spec_extract_bookmark(line: Seq<char>) -> Option<(Seq<char>, Seq<char>)> {
    match find_from(line, href_pattern(), 0, true) {
        None => None,
        Some(h) => match find_from(line, seq!['"'], h + 6, false) {
            None => None,
            Some(ue) => match find_from(line, seq!['>'], ue + 1, false) {
                None => None,
                Some(a) => match find_from(line, close_a_pattern(), a + 1, true) {
                    None => None,
                    Some(e) => Some((line.subrange(h + 6, ue), trim(line.subrange(a + 1, e)))),
                },
            },
        },
    }
}

fn extract_bookmark_chars(line: &Vec<char>) -> (r: Option<(Vec<char>, Vec<char>)>)
    ensures
        match r {
            Some((u, n)) => spec_extract_bookmark(line@) == Some((u@, n@)),
            None => spec_extract_bookmark(line@) is None,
        },
{
    let href = vec!['h', 'r', 'e', 'f', '=', '"'];
    let quote = vec!['"'];
    let gt = vec!['>'];
    let close = vec!['<', '/', 'a', '>'];
    let n = line.len();
    assert(href@ =~= href_pattern());
    assert(quote@ =~= seq!['"']);
    assert(gt@ =~= seq!['>']);
    assert(close@ =~= close_a_pattern());
    let h = match find_in(line, &href, 0, true) {
        None => {
            return None;
        },
        Some(h) => h,
    };
    proof {
        lemma_find_from(line@, href@, 0, true);
    }
    let us = h + 6;
    let ue = match find_in(line, &quote, us, false) {
        None => {
            return None;
        },
        Some(e) => e,
    };
    proof {
        lemma_find_from(line@, quote@, us as int, false);
    }
    let url = slice_chars(line, us, ue);
    let a = match find_in(line, &gt, ue + 1, false) {
        None => {
            return None;
        },
        Some(a) => a,
    };
    proof {
        lemma_find_from(line@, gt@, ue + 1, false);
    }
    let e = match find_in(line, &close, a + 1, true) {
        None => {
            return None;
        },
        Some(e) => e,
    };
    proof {
        lemma_find_from(line@, close@, a + 1, true);
    }
    let (x, y) = trim_bounds(line, a + 1, e);
    Some((url, slice_chars(line, x, y)))
}

/// The URL and the name of an anchor line.
pub fn extract_bookmark(line: &str) -> (r: Option<(String, String)>)
    ensures
        match r {
            Some((u, n)) => spec_extract_bookmark(line@) == Some((u@, n@)),
            None => spec_extract_bookmark(line@) is None,
        },
{
    let l = chars_of(line);
    match extract_bookmark_chars(&l) {
        Some((u, n)) => Some((string_from_chars(u.as_slice()), string_from_chars(n.as_slice()))),
        None => None,
    }
}

/// The value of `attr="..."` (matched in any ASCII case, `attr` being given
/// in small letters) up to the next `"`.
pub open spec fn spec_extract_attr(line: Seq<char>, attr: Seq<char>) -> Option<Seq<char>> {
    match find_from(line, attr + seq!['=', '"'], 0, true) {
        None => None,
        Some(pos) => match find_from(line, seq!['"'], pos + attr.len() + 2, false) {
            None => None,
            Some(e) => Some(line.subrange(pos + attr.len() + 2, e)),
        },
    }
}

fn extract_attr_chars(line: &Vec<char>, attr: &Vec<char>) -> (r: Option<Vec<char>>)
    ensures
        match r {
            Some(v) => spec_extract_attr(line@, attr@) == Some(v@),
            None => spec_extract_attr(line@, attr@) is None,
        },
{
    let mut pat: Vec<char> = Vec::new();
    let mut i: usize = 0;
    while i < attr.len()
        invariant
            i <= attr@.len(),
            pat@ == attr@.take(i as int),
        decreases attr.len() - i,
    {
        pat.push(attr[i]);
        i = i + 1;
        assert(pat@ =~= attr@.take(i as int));
    }
    pat.push('=');
    pat.push('"');
    assert(pat@ =~= attr@ + seq!['=', '"']);
    let n = line.len();
    let quote = vec!['"'];
    assert(quote@ =~= seq!['"']);
    let pos = match find_in(line, &pat, 0, true) {
        None => {
            return None;
        },
        Some(p) => p,
    };
    proof {
        lemma_find_from(line@, pat@, 0, true);
    }
    let start = pos + pat.len();
    let e = match find_in(line, &quote, start, false) {
        None => {
            return None;
        },
        Some(e) => e,
    };
    proof {
        lemma_find_from(line@, quote@, start as int, false);
    }
    Some(slice_chars(line, start, e))
}

/// The value of `attr="..."` in `line`.
pub fn extract_attr(line: &str, attr: &str) -> (r: Option<String>)
    ensures
        match r {
            Some(v) => spec_extract_attr(line@, attr@) == Some(v@),
            None => spec_extract_attr(line@, attr@) is None,
        },
{
    let l = chars_of(line);
    let a = chars_of(attr);
    match extract_attr_chars(&l, &a) {
        Some(v) => Some(string_from_chars(v.as_slice())),
        None => None,
    }
}


/// What import parsing has gathered: the bookmarks so far and the names of
/// the open folders.
pub struct ImportState {
    pub bookmarks: Seq<BookmarkV>,
    pub stack: Seq<Seq<char>>,
}

pub open spec fn empty_import() -> ImportState {
    ImportState { bookmarks: Seq::empty(), stack: Seq::empty() }
}

/// `Vec::pop` on the folder stack, keeping an empty stack empty.
pub open spec fn pop_folder(s: Seq<Seq<char>>) -> Seq<Seq<char>> {
    if s.len() > 0 { s.drop_last() } else { s }
}

pub open spec fn h3_tag() -> Seq<char> { seq!['h', '3'] }
pub open spec fn close_dl() -> Seq<char> { seq!['<', '/', 'd', 'l', '>'] }

/// One line of a Netscape bookmark file: an `<H3>` opens a folder, a line
/// holding `</DL>` (in any case) closes one, an anchor adds a bookmark.
pub open spec fn netscape_line(st: ImportState, line: Seq<char>) -> ImportState {
    let t = trim(line);
    match spec_extract_tag(t, h3_tag()) {
        Some(name) => ImportState { stack: st.stack.push(decode_entities(name)), ..st },
        None => if find_from(t, close_dl(), 0, true) is Some {
            ImportState { stack: pop_folder(st.stack), ..st }
        } else {
            match spec_extract_bookmark(t) {
                Some((u, n)) => ImportState {
                    bookmarks: st.bookmarks.push(BookmarkV {
                        url: decode_entities(u),
                        name: decode_entities(n),
                        description: Seq::empty(),
                        folder_path: st.stack,
                    }),
                    ..st
                },
                None => st,
            }
        },
    }
}

/// The state after the first `n` lines of a Netscape bookmark file.
pub open spec fn netscape_upto(ls: Seq<Seq<char>>, n: int) -> ImportState
    decreases n,
{
    if n <= 0 || n > ls.len() {
        empty_import()
    } else {
        netscape_line(netscape_upto(ls, n - 1), ls[n - 1])
    }
}

/// The bookmarks of a Netscape bookmark file, with their folder paths.
pub open spec fn spec_parse_netscape(content: Seq<char>) -> Seq<BookmarkV> {
    let ls = lines(content);
    netscape_upto(ls, ls.len() as int).bookmarks
}

/// Whether bookmark `b` is the anchor of `line`: the line, trimmed, holds
/// an anchor with URL `u` and text `n`, and `b` has `u` and `n` with their
/// HTML entities decoded.
pub open spec fn anchor_of(line: Seq<char>, b: BookmarkV) -> bool {
    match spec_extract_bookmark(trim(line)) {
        Some((u, n)) => b.url == decode_entities(u) && b.name == decode_entities(n),
        None => false,
    }
}

proof fn lemma_netscape_anchors(ls: Seq<Seq<char>>, n: int)
    requires
        0 <= n <= ls.len(),
    ensures
        forall|k: int| 0 <= k < netscape_upto(ls, n).bookmarks.len() ==> exists|j: int| 0 <= j < n
            && anchor_of(ls[j], #[trigger] netscape_upto(ls, n).bookmarks[k]),
    decreases n,
{
    if n > 0 {
        lemma_netscape_anchors(ls, n - 1);
        let st = netscape_upto(ls, n - 1);
        let st2 = netscape_upto(ls, n);
        assert(st2 == netscape_line(st, ls[n - 1]));
        assert forall|k: int| 0 <= k < st2.bookmarks.len() implies exists|j: int| 0 <= j < n
            && anchor_of(ls[j], #[trigger] st2.bookmarks[k]) by {
            if k < st.bookmarks.len() {
                assert(st2.bookmarks[k] == st.bookmarks[k]);
                let j = choose|j: int| 0 <= j < n - 1 && anchor_of(ls[j], #[trigger] st.bookmarks[k]);
                assert(anchor_of(ls[j], st2.bookmarks[k]));
            } else {
                assert(anchor_of(ls[n - 1], st2.bookmarks[k]));
            }
        }
    }
}

/// Every bookmark read from a Netscape file comes from an anchor line of
/// the file: its URL and its name are that anchor's URL and text with their
/// HTML entities decoded.
pub proof fn lemma_netscape_names_decoded(content: Seq<char>)
    ensures
        forall|k: int| 0 <= k < spec_parse_netscape(content).len() ==> exists|j: int| 0 <= j < lines(content).len()
            && anchor_of(lines(content)[j], #[trigger] spec_parse_netscape(content)[k]),
{
    lemma_netscape_anchors(lines(content), lines(content).len() as int);
}

pub(crate) fn clone_strings(v: &Vec<String>) -> (r: Vec<String>)
    ensures
        strs_v(r@) == strs_v(v@),
{
    let mut r: Vec<String> = Vec::new();
    let mut i: usize = 0;
    while i < v.len()
        invariant
            i <= v@.len(),
            strs_v(r@) == strs_v(v@.take(i as int)),
        decreases v.len() - i,
    {
        let c = v[i].clone();
        assert(c@ == v@[i as int]@);
        let ghost before = strs_v(r@);
        r.push(c);
        assert(strs_v(r@) =~= before.push(c@));
        i = i + 1;
        assert(strs_v(r@) =~= strs_v(v@.take(i as int)));
    }
    assert(v@.take(v@.len() as int) =~= v@);
    r
}

fn trimmed_line(line: &Vec<char>) -> (r: Vec<char>)
    ensures
        r@ == trim(line@),
{
    let (a, b) = trim_bounds(line, 0, line.len());
    assert(line@.subrange(0, line@.len() as int) =~= line@);
    slice_chars(line, a, b)
}

/// Reads a Netscape bookmark file (the HTML export of browsers).
pub fn parse_netscape_html(content: &str) -> (r: Result<Vec<ParsedBookmark>, AppError>)
    ensures
        r is Ok,
        r matches Ok(v) ==> bookmarks_v(v@) == spec_parse_netscape(content@),
{
    let ls = lines_of(content);
    let ghost lsv = lines(content@);
    let h3 = vec!['h', '3'];
    let dl = vec!['<', '/', 'd', 'l', '>'];
    assert(h3@ =~= h3_tag());
    assert(dl@ =~= close_dl());
    let mut bookmarks: Vec<ParsedBookmark> = Vec::new();
    let mut stack: Vec<String> = Vec::new();
    let mut i: usize = 0;
    assert(bookmarks_v(bookmarks@) =~= Seq::<BookmarkV>::empty());
    assert(strs_v(stack@) =~= Seq::<Seq<char>>::empty());
    while i < ls.len()
        invariant
            vecs_v(ls@) == lsv,
            h3@ == h3_tag(),
            dl@ == close_dl(),
            i <= ls@.len(),
            netscape_upto(lsv, i as int) == (ImportState { bookmarks: bookmarks_v(bookmarks@), stack: strs_v(stack@) }),
        decreases ls.len() - i,
    {
        let t = trimmed_line(&ls[i]);
        assert(ls@[i as int]@ == lsv[i as int]);
        let ghost bv = bookmarks_v(bookmarks@);
        let ghost sv = strs_v(stack@);
        match extract_tag_chars(&t, &h3) {
            Some(name) => {
                let d = decode_chars(&name);
                stack.push(string_from_chars(d.as_slice()));
                assert(strs_v(stack@) =~= sv.push(decode_entities(name@)));
            },
            None => {
                if find_in(&t, &dl, 0, true).is_some() {
                    stack.pop();
                    assert(strs_v(stack@) =~= pop_folder(sv));
                } else {
                    match extract_bookmark_chars(&t) {
                        Some((u, n)) => {
                            let du = decode_chars(&u);
                            let dn = decode_chars(&n);
                            let b = ParsedBookmark {
                                url: string_from_chars(du.as_slice()),
                                name: string_from_chars(dn.as_slice()),
                                description: String::new(),
                                folder_path: clone_strings(&stack),
                            };
                            bookmarks.push(b);
                            assert(bookmarks_v(bookmarks@) =~= bv.push(BookmarkV {
                                url: decode_entities(u@),
                                name: decode_entities(n@),
                                description: Seq::empty(),
                                folder_path: sv,
                            }));
                        },
                        None => {},
                    }
                }
            },
        }
        i = i + 1;
    }
    Ok(bookmarks)
}

pub open spec fn title_tag() -> Seq<char> { seq!['t', 'i', 't', 'l', 'e'] }
pub open spec fn open_folder() -> Seq<char> { seq!['<', 'f', 'o', 'l', 'd', 'e', 'r'] }
pub open spec fn close_folder() -> Seq<char> { seq!['<', '/', 'f', 'o', 'l', 'd', 'e', 'r', '>'] }
pub open spec fn open_bookmark() -> Seq<char> { seq!['<', 'b', 'o', 'o', 'k', 'm', 'a', 'r', 'k'] }
pub open spec fn close_bookmark() -> Seq<char> { seq!['<', '/', 'b', 'o', 'o', 'k', 'm', 'a', 'r', 'k', '>'] }
pub open spec fn href_attr() -> Seq<char> { seq!['h', 'r', 'e', 'f'] }
pub open spec fn untitled() -> Seq<char> { seq!['U', 'n', 't', 'i', 't', 'l', 'e', 'd'] }

/// The first non-empty `<title>` from line `j` up to (not including) line
/// `end`, stopping after a line that starts a closing bookmark or folder tag.
pub open spec fn look_from(ls: Seq<Seq<char>>, j: int, end: int) -> Option<Seq<char>>
    decreases end - j,
{
    if j >= end || j < 0 || j >= ls.len() {
        None
    } else {
        let t = trim(ls[j]);
        match spec_extract_tag(t, title_tag()) {
            Some(title) if title.len() > 0 => Some(decode_entities(title)),
            _ => if starts_with(t, close_bookmark()) || starts_with(t, close_folder()) {
                None
            } else {
                look_from(ls, j + 1, end)
            },
        }
    }
}

/// The title found from line `start` through `max_lines` lines further.
pub open spec fn spec_look_ahead_title(ls: Seq<Seq<char>>, start: int, max_lines: int) -> Option<Seq<char>> {
    let end = if start + max_lines + 1 < ls.len() { start + max_lines + 1 } else { ls.len() as int };
    look_from(ls, start, end)
}

/// Looks for a `<title>...</title>` from line `start` on, up to `max_lines`
/// lines further, stopping at a closing bookmark or folder tag.
fn look_ahead_title(lines: &Vec<Vec<char>>, start: usize, max_lines: usize) -> (r: Option<Vec<char>>)
    requires
        start < lines@.len(),
        max_lines <= 10,
    ensures
        match r {
            Some(v) => spec_look_ahead_title(vecs_v(lines@), start as int, max_lines as int) == Some(v@),
            None => spec_look_ahead_title(vecs_v(lines@), start as int, max_lines as int) is None,
        },
{
    let ghost ls = vecs_v(lines@);
    let end = if lines.len() - start > max_lines + 1 { start + max_lines + 1 } else { lines.len() };
    let title = vec!['t', 'i', 't', 'l', 'e'];
    let cb = vec!['<', '/', 'b', 'o', 'o', 'k', 'm', 'a', 'r', 'k', '>'];
    let cf = vec!['<', '/', 'f', 'o', 'l', 'd', 'e', 'r', '>'];
    assert(title@ =~= title_tag());
    assert(cb@ =~= close_bookmark());
    assert(cf@ =~= close_folder());
    let mut j = start;
    while j < end
        invariant
            start <= j <= end <= lines@.len(),
            ls == vecs_v(lines@),
            title@ == title_tag(),
            cb@ == close_bookmark(),
            cf@ == close_folder(),
            spec_look_ahead_title(ls, start as int, max_lines as int) == look_from(ls, j as int, end as int),
        decreases end - j,
    {
        let t = trimmed_line(&lines[j]);
        assert(lines@[j as int]@ == ls[j as int]);
        match extract_tag_chars(&t, &title) {
            Some(tv) => {
                if tv.len() > 0 {
                    return Some(decode_chars(&tv));
                }
            },
            None => {},
        }
        if starts_with_exec(&t, &cb) || starts_with_exec(&t, &cf) {
            return None;
        }
        j = j + 1;
    }
    None
}

/// One line of an XBEL file read line by line: `<folder` opens a folder named
/// by the title within five lines (else "Untitled"), `</folder>` closes one,
/// `<bookmark` with an `href` adds a bookmark named by the title within ten
/// lines (else empty).
pub open spec fn xbel_line(st: ImportState, ls: Seq<Seq<char>>, i: int) -> ImportState {
    let t = trim(ls[i]);
    if starts_with(t, open_folder()) {
        let name = match spec_look_ahead_title(ls, i, 5) {
            Some(n) => n,
            None => untitled(),
        };
        ImportState { stack: st.stack.push(name), ..st }
    } else if starts_with(t, close_folder()) {
        ImportState { stack: pop_folder(st.stack), ..st }
    } else if starts_with(t, open_bookmark()) {
        match spec_extract_attr(t, href_attr()) {
            Some(h) => ImportState {
                bookmarks: st.bookmarks.push(BookmarkV {
                    url: h,
                    name: match spec_look_ahead_title(ls, i, 10) {
                        Some(n) => n,
                        None => Seq::empty(),
                    },
                    description: Seq::empty(),
                    folder_path: st.stack,
                }),
                ..st
            },
            None => st,
        }
    } else {
        st
    }
}

pub open spec fn xbel_lines_upto(ls: Seq<Seq<char>>, n: int) -> ImportState
    decreases n,
{
    if n <= 0 || n > ls.len() {
        empty_import()
    } else {
        xbel_line(xbel_lines_upto(ls, n - 1), ls, n - 1)
    }
}

/// The bookmarks of an XBEL file read line by line.
pub open spec fn spec_parse_xbel_lines(content: Seq<char>) -> Seq<BookmarkV> {
    let ls = lines(content);
    xbel_lines_upto(ls, ls.len() as int).bookmarks
}

/// Reads an XBEL export line by line, as browsers and sync tools lay it out.
pub fn parse_xbel(content: &str) -> (r: Result<Vec<ParsedBookmark>, AppError>)
    ensures
        r is Ok,
        r matches Ok(v) ==> bookmarks_v(v@) == spec_parse_xbel_lines(content@),
{
    let ls = lines_of(content);
    let ghost lsv = lines(content@);
    let of = vec!['<', 'f', 'o', 'l', 'd', 'e', 'r'];
    let cf = vec!['<', '/', 'f', 'o', 'l', 'd', 'e', 'r', '>'];
    let ob = vec!['<', 'b', 'o', 'o', 'k', 'm', 'a', 'r', 'k'];
    let href = vec!['h', 'r', 'e', 'f'];
    assert(of@ =~= open_folder());
    assert(cf@ =~= close_folder());
    assert(ob@ =~= open_bookmark());
    assert(href@ =~= href_attr());
    let mut bookmarks: Vec<ParsedBookmark> = Vec::new();
    let mut stack: Vec<String> = Vec::new();
    let mut i: usize = 0;
    assert(bookmarks_v(bookmarks@) =~= Seq::<BookmarkV>::empty());
    assert(strs_v(stack@) =~= Seq::<Seq<char>>::empty());
    while i < ls.len()
        invariant
            vecs_v(ls@) == lsv,
            of@ == open_folder(),
            cf@ == close_folder(),
            ob@ == open_bookmark(),
            href@ == href_attr(),
            i <= ls@.len(),
            xbel_lines_upto(lsv, i as int) == (ImportState { bookmarks: bookmarks_v(bookmarks@), stack: strs_v(stack@) }),
        decreases ls.len() - i,
    {
        let t = trimmed_line(&ls[i]);
        assert(ls@[i as int]@ == lsv[i as int]);
        let ghost bv = bookmarks_v(bookmarks@);
        let ghost sv = strs_v(stack@);
        if starts_with_exec(&t, &of) {
            let name = match look_ahead_title(&ls, i, 5) {
                Some(n) => string_from_chars(n.as_slice()),
                None => {
                    proof {
                        reveal_strlit("Untitled");
                    }
                    let u = "Untitled".to_owned();
                    assert(u@ =~= untitled());
                    u
                },
            };
            stack.push(name);
            assert(strs_v(stack@) =~= sv.push(name@));
        } else if starts_with_exec(&t, &cf) {
            stack.pop();
            assert(strs_v(stack@) =~= pop_folder(sv));
        } else if starts_with_exec(&t, &ob) {
            match extract_attr_chars(&t, &href) {
                Some(h) => {
                    let name = match look_ahead_title(&ls, i, 10) {
                        Some(n) => string_from_chars(n.as_slice()),
                        None => String::new(),
                    };
                    let b = ParsedBookmark {
                        url: string_from_chars(h.as_slice()),
                        name,
                        description: String::new(),
                        folder_path: clone_strings(&stack),
                    };
                    let ghost bb = b.bv();
                    bookmarks.push(b);
                    assert(bookmarks_v(bookmarks@) =~= bv.push(bb));
                },
                None => {},
            }
        }
        i = i + 1;
    }
    Ok(bookmarks)
}

} // verus!
