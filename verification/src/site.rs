//! Site settings and their injection into the served `index.html`: the page
//! title, description and keywords.
use vstd::prelude::*;
use crate::error::{AppError, AppResult, ErrorV, validation};
use crate::text::{
    Escape, chars_of, contains, escaped, find, find_in, lemma_find_from, lemma_find_shift,
    push_escaped, slice_chars, string_from_chars, trim, trimmed,
};

verus! {

/// The name, title, description and keywords of the site.
#[derive(Debug, Clone)]
pub struct SiteSettings {
    pub site_name: String,
    pub site_title: String,
    pub site_description: String,
    pub site_keywords: String,
}

/// New site settings.
#[derive(Debug)]
pub struct UpdateSiteSettings {
    pub site_name: String,
    pub site_title: String,
    pub site_description: String,
    pub site_keywords: String,
}

/// The service that keeps the site settings.
pub struct SiteSettingsService;

/// `s` with `&`, `<`, `>` and `"` escaped for HTML.
pub fn html_escape(s: &str) -> (r: String)
    ensures
        r@ == escaped(Escape::Html, s@),
{
    crate::text::escape(s, Escape::Html)
}

/// `html` without the `<meta ...>` tags that contain `pat`; a `<meta` with
/// no `>` after it ends the scan and is kept with the rest.
pub open spec fn strip_meta_spec(html: Seq<char>, pat: Seq<char>) -> Seq<char>
    decreases html.len(),
{
    match find(html, "<meta"@) {
        None => html,
        Some(pos) => if 0 <= pos < html.len() {
            let after = html.skip(pos);
            match find(after, ">"@) {
                None => html,
                Some(e) => if 0 <= e < after.len() {
                    let tag = after.take(e + 1);
                    html.take(pos) + (if contains(tag, pat) { Seq::empty() } else { tag })
                        + strip_meta_spec(after.skip(e + 1), pat)
                } else {
                    html
                },
            }
        } else {
            html
        },
    }
}

fn append_chars(out: &mut Vec<char>, s: &Vec<char>, lo: usize, hi: usize)
    requires
        lo <= hi <= s@.len(),
    ensures
        final(out)@ == old(out)@ + s@.subrange(lo as int, hi as int),
{
    let mut k = lo;
    while k < hi
        invariant
            lo <= k <= hi <= s@.len(),
            out@ == old(out)@ + s@.subrange(lo as int, k as int),
        decreases hi - k,
    {
        out.push(s[k]);
        k = k + 1;
        assert(out@ =~= old(out)@ + s@.subrange(lo as int, k as int));
    }
}

/// Removes the meta tags of `html` that contain `attr_pattern`.
pub fn strip_meta(html: &str, attr_pattern: &str) -> (r: String)
    ensures
        r@ == strip_meta_spec(html@, attr_pattern@),
{
    let s = chars_of(html);
    let pat = chars_of(attr_pattern);
    let open = chars_of("<meta");
    let close = chars_of(">");
    proof {
        reveal_strlit("<meta");
        reveal_strlit(">");
    }
    let mut out: Vec<char> = Vec::new();
    let mut i: usize = 0;
    assert(s@.skip(0) =~= s@);
    loop
        invariant
            i <= s@.len(),
            open@ == "<meta"@,
            close@ == ">"@,
            open@.len() == 5,
            close@.len() == 1,
            strip_meta_spec(html@, attr_pattern@) == out@ + strip_meta_spec(s@.skip(i as int), pat@),
            s@ == html@,
            pat@ == attr_pattern@,
        decreases s@.len() - i,
    {
        let ghost rest = s@.skip(i as int);
        proof {
            lemma_find_shift(s@, open@, i as int, i as int);
            lemma_find_from(s@, open@, i as int, false);
        }
        match find_in(&s, &open, i, false) {
            None => {
                append_chars(&mut out, &s, i, s.len());
                assert(rest =~= s@.subrange(i as int, s@.len() as int));
                return string_from_chars(out.as_slice());
            },
            Some(pos) => {
                proof {
                    lemma_find_shift(s@, close@, pos as int, i as int);
                    lemma_find_shift(s@, close@, pos as int, pos as int);
                    lemma_find_from(s@, close@, pos as int, false);
                    assert(rest.skip(pos - i) =~= s@.skip(pos as int));
                }
                match find_in(&s, &close, pos, false) {
                    None => {
                        append_chars(&mut out, &s, i, s.len());
                        assert(rest =~= s@.subrange(i as int, s@.len() as int));
                        return string_from_chars(out.as_slice());
                    },
                    Some(e) => {
                        assert(crate::text::match_at(s@, close@, e as int, false));
                        assert(e < s.len());
                        let tag = slice_chars(&s, pos, e + 1);
                        let keep = match find_in(&tag, &pat, 0, false) {
                            Some(_) => false,
                            None => true,
                        };
                        let ghost before = out@;
                        append_chars(&mut out, &s, i, pos);
                        if keep {
                            append_chars(&mut out, &s, pos, e + 1);
                        }
                        proof {
                            let after = rest.skip(pos - i);
                            assert(after.take(e - pos + 1) =~= tag@);
                            assert(rest.take(pos - i) =~= s@.subrange(i as int, pos as int));
                            assert(after.skip(e - pos + 1) =~= s@.skip(e + 1));
                            assert(tag@ =~= s@.subrange(pos as int, e + 1));
                        }
                        i = e + 1;
                    },
                }
            },
        }
    }
}

/// The meta tag `    <meta attrs />` put on a line of its own right after the
/// opening `<head>` (or `<head ...>`) tag; `html` as it is without one.
pub open spec fn inject_meta_spec(html: Seq<char>, attrs: Seq<char>) -> Seq<char> {
    let tag = "    <meta "@ + attrs + " />"@;
    match find(html, "<head>"@) {
        Some(pos) => html.take(pos + 6) + seq!['\n'] + tag + html.skip(pos + 6),
        None => match find(html, "<head "@) {
            Some(pos) => match find(html.skip(pos), ">"@) {
                Some(c) => html.take(pos + c + 1) + seq!['\n'] + tag + html.skip(pos + c + 1),
                None => html,
            },
            None => html,
        },
    }
}

/// Puts a meta tag with `meta_attrs` right after the `<head>` tag of `html`.
pub fn inject_meta(html: &str, meta_attrs: &str) -> (r: String)
    ensures
        r@ == inject_meta_spec(html@, meta_attrs@),
{
    let s = chars_of(html);
    let head = chars_of("<head>");
    let head_sp = chars_of("<head ");
    let close = chars_of(">");
    let pre = chars_of("    <meta ");
    let attrs = chars_of(meta_attrs);
    let post = chars_of(" />");
    proof {
        reveal_strlit("<head>");
        reveal_strlit("<head ");
        reveal_strlit(">");
        lemma_find_from(s@, head@, 0, false);
        lemma_find_from(s@, head_sp@, 0, false);
    }
    let n0 = s.len();
    let cut = match find_in(&s, &head, 0, false) {
        Some(pos) => {
            assert(crate::text::match_at(s@, head@, pos as int, false));
            assert(pos + 6 <= n0);
            pos + 6
        },
        None => match find_in(&s, &head_sp, 0, false) {
            Some(pos) => {
                proof {
                    lemma_find_shift(s@, close@, pos as int, pos as int);
                    lemma_find_from(s@, close@, pos as int, false);
                }
                let n = s.len();
                match find_in(&s, &close, pos, false) {
                    Some(c) => {
                        assert(crate::text::match_at(s@, close@, c as int, false));
                        assert(c + 1 <= n);
                        c + 1
                    },
                    None => {
                        return string_from_chars(s.as_slice());
                    },
                }
            },
            None => {
                return string_from_chars(s.as_slice());
            },
        },
    };
    let mut out: Vec<char> = Vec::new();
    append_chars(&mut out, &s, 0, cut);
    out.push('\n');
    append_chars(&mut out, &pre, 0, pre.len());
    append_chars(&mut out, &attrs, 0, attrs.len());
    append_chars(&mut out, &post, 0, post.len());
    append_chars(&mut out, &s, cut, s.len());
    proof {
        assert(s@.subrange(0, cut as int) =~= s@.take(cut as int));
        assert(s@.subrange(cut as int, s@.len() as int) =~= s@.skip(cut as int));
        assert(pre@.subrange(0, pre@.len() as int) =~= pre@);
        assert(attrs@.subrange(0, attrs@.len() as int) =~= attrs@);
        assert(post@.subrange(0, post@.len() as int) =~= post@);
        assert(out@ =~= inject_meta_spec(html@, meta_attrs@));
    }
    string_from_chars(out.as_slice())
}

/// `html` with the text of its first `<title>` element replaced by `title`,
/// when it has both `<title>` and `</title>`.
pub open spec fn with_title(html: Seq<char>, title: Seq<char>) -> Seq<char> {
    match (find(html, "<title>"@), find(html, "</title>"@)) {
        (Some(start), Some(end)) => html.take(start) + "<title>"@ + title + "</title>"@ + html.skip(end + 8),
        _ => html,
    }
}

/// `html` with the settings' title, description and keywords, HTML-escaped,
/// in place of its own: the title element's text is replaced, the old
/// description and keywords meta tags are removed and new ones put after
/// `<head>` when the setting is not empty.
pub open spec fn tdk_html(html: Seq<char>, title: Seq<char>, description: Seq<char>, keywords: Seq<char>) -> Seq<char> {
    let d = escaped(Escape::Html, description);
    let k = escaped(Escape::Html, keywords);
    let r1 = with_title(html, escaped(Escape::Html, title));
    let r2 = strip_meta_spec(r1, "name=\"description\""@);
    let r3 = if d.len() == 0 { r2 } else { inject_meta_spec(r2, "name=\"description\" content=\""@ + d + "\""@) };
    let r4 = strip_meta_spec(r3, "name=\"keywords\""@);
    if k.len() == 0 { r4 } else { inject_meta_spec(r4, "name=\"keywords\" content=\""@ + k + "\""@) }
}

/// Setting keywords puts them on the page: the page served with keywords
/// `k` (not empty) is the page served without keywords, with
/// `<meta name="keywords" content="...">`, holding `k` HTML-escaped, on its
/// own line right after the first `<head>`.
#[verifier::spinoff_prover]
pub proof fn lemma_keywords_served(html: Seq<char>, title: Seq<char>, description: Seq<char>, keywords: Seq<char>)
    requires
        keywords.len() > 0,
        find(tdk_html(html, title, description, Seq::empty()), "<head>"@) is Some,
    ensures
        ({
            let base = tdk_html(html, title, description, Seq::empty());
            let p = find(base, "<head>"@)->Some_0;
            tdk_html(html, title, description, keywords)
                == base.take(p + 6) + "\n    <meta name=\"keywords\" content=\""@ + escaped(Escape::Html, keywords)
                    + "\" />"@ + base.skip(p + 6)
        }),
{
    crate::text::lemma_escaped_nonempty(Escape::Html, keywords);
    crate::text::lemma_escaped_nonempty(Escape::Html, Seq::<char>::empty());
    reveal_strlit("\n    <meta name=\"keywords\" content=\"");
    reveal_strlit("    <meta ");
    reveal_strlit("name=\"keywords\" content=\"");
    reveal_strlit("\"");
    reveal_strlit(" />");
    reveal_strlit("\" />");
    let k = escaped(Escape::Html, keywords);
    let base = tdk_html(html, title, description, Seq::empty());
    let p = find(base, "<head>"@)->Some_0;
    let a = "name=\"keywords\" content=\""@ + k + "\""@;
    assert(tdk_html(html, title, description, keywords) == inject_meta_spec(base, a));
    assert(seq!['\n'] + ("    <meta "@ + a + " />"@) =~= "\n    <meta name=\"keywords\" content=\""@ + k + "\" />"@);
    assert(base.take(p + 6) + seq!['\n'] + ("    <meta "@ + a + " />"@) + base.skip(p + 6)
        =~= base.take(p + 6) + "\n    <meta name=\"keywords\" content=\""@ + k + "\" />"@ + base.skip(p + 6));
}

/// Whether replacing the title element would panic: the first `</title>`
/// ends before the first `<title>` starts.
pub open spec fn title_out_of_order(html: Seq<char>) -> bool {
    match (find(html, "<title>"@), find(html, "</title>"@)) {
        (Some(start), Some(end)) => start > end + 8,
        _ => false,
    }
}

/// Whether the title element of `html` can be replaced: the first
/// `</title>` does not end before the first `<title>` starts.
pub fn title_in_order(html: &str) -> (b: bool)
    ensures
        b == !title_out_of_order(html@),
{
    let s = chars_of(html);
    let open = chars_of("<title>");
    let close = chars_of("</title>");
    proof {
        reveal_strlit("<title>");
        reveal_strlit("</title>");
        lemma_find_from(s@, open@, 0, false);
        lemma_find_from(s@, close@, 0, false);
    }
    match (find_in(&s, &open, 0, false), find_in(&s, &close, 0, false)) {
        (Some(start), Some(end)) => start <= end || start - end <= 8,
        _ => true,
    }
}

impl SiteSettingsService {
    /// The served page with the site's title, description and keywords.
    pub fn inject_tdk(html: &str, settings: &SiteSettings) -> (r: String)
        requires
            !title_out_of_order(html@),
        ensures
            r@ == tdk_html(html@, settings.site_title@, settings.site_description@, settings.site_keywords@),
    {
        let title = html_escape(settings.site_title.as_str());
        let description = html_escape(settings.site_description.as_str());
        let keywords = html_escape(settings.site_keywords.as_str());
        let s = chars_of(html);
        let open = chars_of("<title>");
        let close = chars_of("</title>");
        proof {
            reveal_strlit("<title>");
            reveal_strlit("</title>");
            lemma_find_from(s@, open@, 0, false);
            lemma_find_from(s@, close@, 0, false);
        }
        let mut result = match (find_in(&s, &open, 0, false), find_in(&s, &close, 0, false)) {
            (Some(start), Some(end)) => {
                let n = s.len();
                assert(crate::text::match_at(s@, close@, end as int, false));
                assert(end + 8 <= n);
                let mut out: Vec<char> = Vec::new();
                append_chars(&mut out, &s, 0, start);
                let tcs = chars_of(title.as_str());
                append_chars(&mut out, &open, 0, open.len());
                append_chars(&mut out, &tcs, 0, tcs.len());
                append_chars(&mut out, &close, 0, close.len());
                append_chars(&mut out, &s, end + 8, s.len());
                proof {
                    assert(s@.subrange(0, start as int) =~= s@.take(start as int));
                    assert(s@.subrange(end + 8, s@.len() as int) =~= s@.skip(end + 8));
                    assert(open@.subrange(0, open@.len() as int) =~= open@);
                    assert(tcs@.subrange(0, tcs@.len() as int) =~= tcs@);
                    assert(close@.subrange(0, close@.len() as int) =~= close@);
                    assert(out@ =~= with_title(html@, title@));
                }
                string_from_chars(out.as_slice())
            },
            _ => string_from_chars(s.as_slice()),
        };
        result = strip_meta(result.as_str(), "name=\"description\"");
        if !description.as_str().is_empty() {
            let mut tag = String::from_str("name=\"description\" content=\"");
            tag.append(description.as_str());
            tag.append("\"");
            result = inject_meta(result.as_str(), tag.as_str());
        }
        result = strip_meta(result.as_str(), "name=\"keywords\"");
        if !keywords.as_str().is_empty() {
            let mut tag = String::from_str("name=\"keywords\" content=\"");
            tag.append(keywords.as_str());
            tag.append("\"");
            result = inject_meta(result.as_str(), tag.as_str());
        }
        result
    }

    /// The settings that an update stores: its fields trimmed; the name and
    /// title must not be blank.
    pub fn prepare_update(input: &UpdateSiteSettings) -> (r: AppResult<SiteSettings>)
        ensures
            trim(input.site_name@).len() == 0 || trim(input.site_title@).len() == 0 ==>
                (r matches Err(e) && e@ == ErrorV::Validation("site name and title are required"@)),
            trim(input.site_name@).len() > 0 && trim(input.site_title@).len() > 0 ==> (r matches Ok(s) && {
                &&& s.site_name@ == trim(input.site_name@)
                &&& s.site_title@ == trim(input.site_title@)
                &&& s.site_description@ == trim(input.site_description@)
                &&& s.site_keywords@ == trim(input.site_keywords@)
            }),
    {
        let name = trimmed(input.site_name.as_str());
        let title = trimmed(input.site_title.as_str());
        if name.as_str().is_empty() || title.as_str().is_empty() {
            return Err(validation("site name and title are required"));
        }
        Ok(SiteSettings {
            site_name: name,
            site_title: title,
            site_description: trimmed(input.site_description.as_str()),
            site_keywords: trimmed(input.site_keywords.as_str()),
        })
    }
}

} // verus!
