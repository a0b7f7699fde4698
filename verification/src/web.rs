//! What the HTTP side of the server computes: the metrics page, download
//! headers, where a path outside the API goes, and an uploaded import file.
use vstd::prelude::*;
use crate::error::{AppError, AppResult, ErrorV, validation};
use crate::text::{decimal, int_decimal, push_decimal, push_i64, starts_with};
use crate::webdav::trim_start_char;

verus! {

/// One gauge of the metrics page.
pub open spec fn gauge(name: Seq<char>, help: Seq<char>, value: i64) -> Seq<char> {
    "# HELP "@ + name + " "@ + help + "\n# TYPE "@ + name + " gauge\n"@ + name + " "@ + int_decimal(value as int) + "\n"@
}

/// The Prometheus metrics page for the given counts.
pub open spec fn metrics_page(users: i64, tenants: i64, links: i64, collections: i64, sessions: i64) -> Seq<char> {
    gauge("linkwarden_users_total"@, "Total number of registered users."@, users)
        + gauge("linkwarden_tenants_total"@, "Total number of workspaces."@, tenants)
        + gauge("linkwarden_links_total"@, "Total number of active bookmarks."@, links)
        + gauge("linkwarden_collections_total"@, "Total number of active collections."@, collections)
        + gauge("linkwarden_active_sessions"@, "Total number of active sessions."@, sessions)
}

fn push_gauge(out: &mut String, name: &str, help: &str, value: i64)
    ensures
        final(out)@ == old(out)@ + gauge(name@, help@, value),
{
    let ghost start = out@;
    out.append("# HELP ");
    out.append(name);
    out.append(" ");
    out.append(help);
    out.append("\n# TYPE ");
    out.append(name);
    out.append(" gauge\n");
    out.append(name);
    out.append(" ");
    push_i64(out, value);
    out.append("\n");
    assert(out@ =~= start + gauge(name@, help@, value));
}

/// The metrics page: users, workspaces, active links and collections, and
/// live sessions, each a gauge.
pub fn metrics_text(users: i64, tenants: i64, links: i64, collections: i64, sessions: i64) -> (r: String)
    ensures
        r@ == metrics_page(users, tenants, links, collections, sessions),
{
    let mut out = String::new();
    push_gauge(&mut out, "linkwarden_users_total", "Total number of registered users.", users);
    push_gauge(&mut out, "linkwarden_tenants_total", "Total number of workspaces.", tenants);
    push_gauge(&mut out, "linkwarden_links_total", "Total number of active bookmarks.", links);
    push_gauge(&mut out, "linkwarden_collections_total", "Total number of active collections.", collections);
    push_gauge(&mut out, "linkwarden_active_sessions", "Total number of active sessions.", sessions);
    assert(out@ =~= metrics_page(users, tenants, links, collections, sessions));
    out
}

/// The `Content-Disposition` of a download saved as `filename`.
pub fn content_disposition(filename: &str) -> (r: String)
    ensures
        r@ == "attachment; filename=\""@ + filename@ + "\""@,
{
    let mut r = "attachment; filename=\"".to_owned();
    r.append(filename);
    r.append("\"");
    r
}

/// Where a request outside the API and WebDAV routes goes.
#[derive(Debug, PartialEq, Eq)]
pub enum SpaRoute {
    /// 404 with a JSON error: an unknown API path.
    ApiNotFound,
    /// The embedded file at this path, if there is one, else the app page.
    Asset(String),
    /// The app page.
    Index,
}

/// The route of a request path: unknown `/api/` paths are refused; any
/// other path names an embedded file (without its leading slashes), except
/// the root, which is the app page.
pub fn spa_route(path: &str) -> (r: SpaRoute)
    ensures
        starts_with(path@, "/api/"@) ==> r == SpaRoute::ApiNotFound,
        !starts_with(path@, "/api/"@) ==> if trim_start_char(path@, '/').len() > 0 {
            r matches SpaRoute::Asset(a) && a@ == trim_start_char(path@, '/')
        } else {
            r == SpaRoute::Index
        },
{
    let cs = crate::text::chars_of(path);
    let api = crate::text::chars_of("/api/");
    if crate::text::starts_with_exec(&cs, &api) {
        return SpaRoute::ApiNotFound;
    }
    let mut i: usize = 0;
    assert(cs@.skip(0) =~= cs@);
    while i < cs.len() && cs[i] == '/'
        invariant
            i <= cs@.len(),
            cs@ == path@,
            trim_start_char(path@, '/') == trim_start_char(cs@.skip(i as int), '/'),
        decreases cs.len() - i,
    {
        assert(cs@.skip(i as int).drop_first() =~= cs@.skip(i + 1));
        i = i + 1;
    }
    assert(cs@.skip(i as int).len() == 0 || cs@.skip(i as int)[0] != '/');
    assert(trim_start_char(cs@.skip(i as int), '/') == cs@.skip(i as int));
    if i == cs.len() {
        SpaRoute::Index
    } else {
        assert(cs@.subrange(i as int, cs@.len() as int) =~= cs@.skip(i as int));
        SpaRoute::Asset(crate::text::string_of(&cs, i, cs.len()))
    }
}

/// The MIME type mime_guess gives for a path: that of its extension, or
/// `application/octet-stream`.
pub uninterp spec fn guessed_mime(path: Seq<char>) -> Seq<char>;

/// mime_guess's `from_path(..).first_or_octet_stream()`, as its essence
/// string; named `guessed_mime`.
#[verifier::external_body]
fn mime_for(path: &str) -> (r: String)
    ensures
        r@ == guessed_mime(path@),
{
    mime_guess::from_path(path).first_or_octet_stream().essence_str().to_string()
}

/// The `Content-Type` an embedded file is served with.
pub fn asset_mime(path: &str) -> (r: String)
    ensures
        r@ == guessed_mime(path@),
{
    mime_for(path)
}

/// What `String::from_utf8_lossy` makes of bytes.
pub uninterp spec fn lossy_text(bytes: Seq<u8>) -> Seq<char>;

/// std's `String::from_utf8_lossy`: valid UTF-8 reads as its characters;
/// other bytes are named `lossy_text`.
#[verifier::external_body]
fn utf8_lossy(bytes: &[u8]) -> (r: String)
    ensures
        r@ == lossy_text(bytes@),
        vstd::utf8::valid_utf8(bytes@) ==> r@ == vstd::utf8::decode_utf8(bytes@),
{
    String::from_utf8_lossy(bytes).into_owned()
}

/// The fields of an import upload read so far: the format (HTML unless a
/// `format` field says otherwise) and the file's text.
#[derive(Debug)]
pub struct UploadForm {
    pub format: String,
    pub content: String,
}

/// The refusal of a file over the upload limit.
pub open spec fn too_large(max_upload_mb: nat) -> Seq<char> {
    "file too large (max "@ + decimal(max_upload_mb) + "MB)"@
}

impl UploadForm {
    /// A form with no field read yet.
    pub fn new() -> (f: UploadForm)
        ensures
            f.format@ == "html"@,
            f.content@.len() == 0,
    {
        UploadForm { format: "html".to_owned(), content: String::new() }
    }

    /// Reads a `format` field.
    pub fn take_format(&mut self, text: String)
        ensures
            final(self).format@ == text@,
            final(self).content@ == old(self).content@,
    {
        self.format = text;
    }

    /// Reads a `file` field: refused when larger than `max_upload_mb`
    /// megabytes, else kept as text (invalid UTF-8 replaced).
    pub fn take_file(&mut self, data: &[u8], max_upload_mb: usize) -> (r: AppResult<()>)
        requires
            max_upload_mb * 1048576 <= usize::MAX,
        ensures
            data@.len() > max_upload_mb * 1048576 ==> (r matches Err(e) && e@ == ErrorV::Validation(too_large(max_upload_mb as nat))
                && final(self).content@ == old(self).content@),
            data@.len() <= max_upload_mb * 1048576 ==> (r is Ok && final(self).content@ == lossy_text(data@)),
            final(self).format@ == old(self).format@,
    {
        let max_size = max_upload_mb * 1024 * 1024;
        if data.len() > max_size {
            let mut m = "file too large (max ".to_owned();
            push_decimal(&mut m, max_upload_mb as u64);
            m.append("MB)");
            return Err(AppError::Validation(m));
        }
        self.content = utf8_lossy(data);
        Ok(())
    }

    /// The format and the text of the upload; `no file uploaded` without
    /// one (or with an empty one).
    pub fn finish(self) -> (r: AppResult<(String, String)>)
        ensures
            self.content@.len() == 0 ==> (r matches Err(e) && e@ == ErrorV::Validation("no file uploaded"@)),
            self.content@.len() > 0 ==> (r matches Ok((f, c)) && f@ == self.format@ && c@ == self.content@),
    {
        if self.content.as_str().is_empty() {
            return Err(validation("no file uploaded"));
        }
        Ok((self.format, self.content))
    }
}

} // verus!
