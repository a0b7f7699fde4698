//! Link search: turning a user's query into a safe full-text query, and
//! paging results by link id.
use vstd::prelude::*;
use crate::num::{i64_text, parse_i64};
use crate::split::{ws_words, ws_words_of};
use crate::xbel::opt_view;
use crate::text::{char_alnum, int_decimal, is_alnum, push_i64, string_from_chars, vecs_v};

verus! {

/// A link found by a search.
#[derive(Debug, Clone)]
pub struct SearchLink {
    pub id: i64,
    pub name: String,
    pub url: String,
    pub collection_id: i64,
    pub description: String,
    pub created_at: String,
    pub updated_at: String,
}

/// A page of found links, newest first, with the cursor of the next page.
#[derive(Debug)]
pub struct SearchResult {
    pub links: Vec<SearchLink>,
    pub next_cursor: Option<String>,
}

/// The service that searches a workspace's links.
pub struct SearchService;

/// A character kept in a search term: alphanumeric, `_`, `-`, `.`, `/`, `:`.
pub open spec fn term_char(c: char) -> bool {
    char_alnum(c) || c == '_' || c == '-' || c == '.' || c == '/' || c == ':'
}

/// `w` without the characters that are not kept.
pub open spec fn cleaned(w: Seq<char>) -> Seq<char>
    decreases w.len(),
{
    if w.len() == 0 {
        Seq::empty()
    } else if term_char(w.last()) {
        cleaned(w.drop_last()).push(w.last())
    } else {
        cleaned(w.drop_last())
    }
}

/// The prefix terms of the words `ws`: each cleaned word that is not empty,
/// quoted and followed by `*`.
pub open spec fn fts_terms(ws: Seq<Seq<char>>) -> Seq<Seq<char>>
    decreases ws.len(),
{
    if ws.len() == 0 {
        Seq::empty()
    } else {
        let c = cleaned(ws.last());
        if c.len() == 0 {
            fts_terms(ws.drop_last())
        } else {
            fts_terms(ws.drop_last()).push(seq!['"'] + c + seq!['"', '*'])
        }
    }
}

/// `ts` joined with single spaces.
pub open spec fn join_spaces(ts: Seq<Seq<char>>) -> Seq<char>
    decreases ts.len(),
{
    if ts.len() == 0 {
        Seq::empty()
    } else if ts.len() == 1 {
        ts[0]
    } else {
        join_spaces(ts.drop_last()) + seq![' '] + ts.last()
    }
}

/// The full-text query for a user's query: its whitespace-separated words,
/// each reduced to the kept characters and made a quoted prefix term; words
/// with nothing left are dropped.
pub open spec fn fts_query(q: Seq<char>) -> Seq<char> {
    join_spaces(fts_terms(ws_words(q)))
}

fn clean_word(w: &Vec<char>) -> (r: Vec<char>)
    ensures
        r@ == cleaned(w@),
{
    let mut r: Vec<char> = Vec::new();
    let mut i: usize = 0;
    while i < w.len()
        invariant
            i <= w@.len(),
            r@ == cleaned(w@.take(i as int)),
        decreases w.len() - i,
    {
        let c = w[i];
        assert(w@.take(i + 1).drop_last() =~= w@.take(i as int));
        if is_alnum(c) || c == '_' || c == '-' || c == '.' || c == '/' || c == ':' {
            r.push(c);
        }
        i = i + 1;
    }
    assert(w@.take(w@.len() as int) =~= w@);
    r
}

/// Makes a user's query safe for the full-text index.
pub fn sanitize_fts_query(query: &str) -> (r: String)
    ensures
        r@ == fts_query(query@),
{
    let ws = ws_words_of(query);
    let ghost all = vecs_v(ws@);
    let mut out: Vec<char> = Vec::new();
    let ghost mut terms: Seq<Seq<char>> = Seq::empty();
    let mut count: usize = 0;
    let mut i: usize = 0;
    while i < ws.len()
        invariant
            i <= ws@.len(),
            all == vecs_v(ws@),
            all == ws_words(query@),
            terms == fts_terms(all.take(i as int)),
            count == terms.len(),
            count <= i,
            out@ == join_spaces(terms),
        decreases ws.len() - i,
    {
        let c = clean_word(&ws[i]);
        assert(all.take(i + 1).drop_last() =~= all.take(i as int));
        assert(all.take(i + 1).last() == ws@[i as int]@);
        if c.len() > 0 {
            let ghost t = seq!['"'] + c@ + seq!['"', '*'];
            let ghost before = out@;
            if count > 0 {
                out.push(' ');
            }
            out.push('"');
            let mut k: usize = 0;
            let ghost mid = out@;
            while k < c.len()
                invariant
                    k <= c@.len(),
                    out@ == mid + c@.take(k as int),
                decreases c.len() - k,
            {
                out.push(c[k]);
                k = k + 1;
                assert(out@ =~= mid + c@.take(k as int));
            }
            out.push('"');
            out.push('*');
            proof {
                assert(c@.take(c@.len() as int) =~= c@);
                let nt = terms.push(t);
                if terms.len() == 0 {
                    assert(out@ =~= t);
                    assert(join_spaces(nt) == nt[0]);
                } else {
                    assert(nt.drop_last() =~= terms);
                    assert(out@ =~= before + seq![' '] + t);
                }
                terms = nt;
            }
            count = count + 1;
        }
        i = i + 1;
    }
    assert(all.take(all.len() as int) =~= all);
    string_from_chars(out.as_slice())
}


/// How a search reads the store.
#[derive(Debug)]
pub struct SearchPlan {
    /// The full-text query; `None` to list every link.
    pub fts_query: Option<String>,
    /// Only links with an id below this one.
    pub after_id: i64,
    /// How many rows to fetch: one beyond the page, to see if more follow.
    pub limit: i64,
    /// The page size used.
    pub page_size: usize,
}

impl SearchService {
    /// The plan of a search for `query` from `cursor`, `page_size` links
    /// a page (kept within `1..=max_page_size`): a blank query lists every
    /// link, newest first; any other is made safe for the full-text index.
    pub fn plan(query: &str, cursor: Option<&str>, page_size: usize, max_page_size: usize) -> (p: SearchPlan)
        requires
            1 <= max_page_size < i64::MAX,
        ensures
            p.page_size == (if page_size < 1 { 1 } else if page_size > max_page_size { max_page_size } else { page_size }),
            p.limit == p.page_size + 1,
            p.after_id == match cursor {
                Some(c) => match i64_text(c@) {
                    Some(n) => n,
                    None => i64::MAX,
                },
                None => i64::MAX,
            },
            crate::text::trim(query@).len() == 0 ==> p.fts_query is None,
            crate::text::trim(query@).len() > 0 ==> (p.fts_query matches Some(q) && q@ == fts_query(query@)),
    {
        let size = clamp_page_size(page_size, max_page_size);
        let after_id = cursor_bound(cursor);
        let t = crate::text::trimmed(query);
        let fts = if t.as_str().is_empty() { None } else { Some(sanitize_fts_query(query)) };
        SearchPlan { fts_query: fts, after_id, limit: size as i64 + 1, page_size: size }
    }
}

/// The id below which a page starts: the one the cursor names, or every id
/// when there is no readable cursor.
pub fn cursor_bound(cursor: Option<&str>) -> (b: i64)
    ensures
        b == match cursor {
            Some(c) => match i64_text(c@) {
                Some(n) => n,
                None => i64::MAX,
            },
            None => i64::MAX,
        },
{
    match cursor {
        Some(c) => match parse_i64(c) {
            Some(n) => n,
            None => i64::MAX,
        },
        None => i64::MAX,
    }
}

/// The page size used: the requested one, kept within `1..=max`.
pub fn clamp_page_size(page_size: usize, max: usize) -> (n: usize)
    requires
        1 <= max,
    ensures
        n == if page_size < 1 { 1 } else if page_size > max { max } else { page_size },
{
    if page_size < 1 {
        1
    } else if page_size > max {
        max
    } else {
        page_size
    }
}

/// The page of at most `page_size` links from `links` (fetched one beyond
/// the page), with the id of its last link as the next cursor when more
/// links follow.
pub fn paginate(links: Vec<SearchLink>, page_size: usize) -> (r: SearchResult)
    ensures
        if links@.len() > page_size {
            &&& r.links@ == links@.take(page_size as int)
            &&& opt_view(r.next_cursor) == if page_size > 0 {
                Some(int_decimal(links@[page_size - 1].id as int))
            } else {
                None
            }
        } else {
            r.links@ == links@ && r.next_cursor is None
        },
{
    let mut links = links;
    let has_more = links.len() > page_size;
    if has_more {
        links.truncate(page_size);
        let cursor = if links.len() > 0 {
            let mut s = String::new();
            push_i64(&mut s, links[links.len() - 1].id);
            Some(s)
        } else {
            None
        };
        SearchResult { links, next_cursor: cursor }
    } else {
        SearchResult { links, next_cursor: None }
    }
}

} // verus!
