//! The WebDAV side of sync: resource paths, percent-decoding, locks, HTTP
//! dates, Basic credentials, and the XML of a `PROPFIND` answer.
use vstd::prelude::*;
use crate::email::{b64std_dec, b64std_decode};
use crate::error::{AppError, AppResult};
use crate::split::{pieces, pieces_of};
use crate::text::{
    Escape, byte_len, chars_of, decimal, escaped, push_decimal, push_escaped, starts_with,
    string_from_chars, string_from_utf8, utf8_len, vecs_v,
};

verus! {

/// How long a lock lives without being refreshed, in seconds.
pub const LOCK_TTL_SECONDS: i64 = 300;

/// `s` without leading `c`s.
pub open spec fn trim_start_char(s: Seq<char>, c: char) -> Seq<char>
    decreases s.len(),
{
    if s.len() > 0 && s[0] == c { trim_start_char(s.drop_first(), c) } else { s }
}

/// `s` without trailing `c`s.
pub open spec fn trim_end_char(s: Seq<char>, c: char) -> Seq<char>
    decreases s.len(),
{
    if s.len() > 0 && s.last() == c { trim_end_char(s.drop_last(), c) } else { s }
}

/// `str::trim_matches` with one character.
pub open spec fn trim_char(s: Seq<char>, c: char) -> Seq<char> {
    trim_end_char(trim_start_char(s, c), c)
}

/// A path segment that may stand in a resource path.
pub open spec fn segment_ok(part: Seq<char>) -> bool {
    part.len() > 0 && part != seq!['.'] && part != seq!['.', '.']
}

/// The canonical form of a resource path: without leading and trailing
/// slashes, not empty, at most 1024 bytes, and no empty, `.` or `..`
/// segment.
pub open spec fn normal_path(path: Seq<char>) -> Option<Seq<char>> {
    let p = trim_char(path, '/');
    let parts = pieces(p, '/');
    if p.len() == 0 || utf8_len(p) > 1024 || exists|i: int| 0 <= i < parts.len() && !segment_ok(#[trigger] parts[i]) {
        None
    } else {
        Some(p)
    }
}

proof fn lemma_trim_start_char(s: Seq<char>, c: char)
    ensures
        trim_start_char(s, c).len() <= s.len(),
        trim_start_char(s, c) == s.skip(s.len() - trim_start_char(s, c).len()),
        trim_start_char(s, c).len() > 0 ==> trim_start_char(s, c)[0] != c,
    decreases s.len(),
{
    if s.len() > 0 && s[0] == c {
        lemma_trim_start_char(s.drop_first(), c);
        let r = trim_start_char(s, c);
        assert(s.drop_first().skip(s.len() - 1 - r.len()) =~= s.skip(s.len() - r.len()));
    } else {
        assert(s.skip(0) =~= s);
    }
}

proof fn lemma_trim_end_char(s: Seq<char>, c: char)
    ensures
        trim_end_char(s, c).len() <= s.len(),
        trim_end_char(s, c) == s.take(trim_end_char(s, c).len() as int),
        trim_end_char(s, c).len() > 0 ==> trim_end_char(s, c).last() != c,
    decreases s.len(),
{
    if s.len() > 0 && s.last() == c {
        lemma_trim_end_char(s.drop_last(), c);
        let r = trim_end_char(s, c);
        assert(s.drop_last().take(r.len() as int) =~= s.take(r.len() as int));
    } else {
        assert(s.take(s.len() as int) =~= s);
    }
}

/// A canonical path is its own canonical form: normalizing twice is
/// normalizing once.
pub proof fn lemma_normal_path_idempotent(path: Seq<char>)
    requires
        normal_path(path) is Some,
    ensures
        normal_path(normal_path(path)->0) == normal_path(path),
{
    let t = trim_start_char(path, '/');
    let q = trim_end_char(t, '/');
    lemma_trim_start_char(path, '/');
    lemma_trim_end_char(t, '/');
    assert(q.len() > 0);
    assert(q[0] == t[0]);
    lemma_trim_start_char(q, '/');
    assert(trim_start_char(q, '/') == q);
    lemma_trim_end_char(q, '/');
    assert(trim_end_char(q, '/') == q);
    assert(trim_char(q, '/') == q);
}

fn trim_char_bounds(s: &Vec<char>, c: char) -> (r: (usize, usize))
    ensures
        r.0 <= r.1 <= s@.len(),
        s@.subrange(r.0 as int, r.1 as int) == trim_char(s@, c),
{
    let mut lo: usize = 0;
    assert(s@.skip(0) =~= s@);
    while lo < s.len() && s[lo] == c
        invariant
            lo <= s@.len(),
            trim_start_char(s@, c) == trim_start_char(s@.skip(lo as int), c),
        decreases s.len() - lo,
    {
        assert(s@.skip(lo as int).drop_first() =~= s@.skip(lo + 1));
        lo = lo + 1;
    }
    let ghost lead = s@.skip(lo as int);
    assert(lead =~= s@.subrange(lo as int, s@.len() as int));
    let mut hi: usize = s.len();
    while hi > lo && s[hi - 1] == c
        invariant
            lo <= hi <= s@.len(),
            lead == s@.skip(lo as int),
            trim_end_char(lead, c) == trim_end_char(s@.subrange(lo as int, hi as int), c),
        decreases hi - lo,
    {
        assert(s@.subrange(lo as int, hi as int).drop_last() =~= s@.subrange(lo as int, hi - 1));
        hi = hi - 1;
    }
    proof {
        if lo == s@.len() {
            assert(trim_start_char(s@.skip(lo as int), c) == s@.skip(lo as int));
        }
    }
    (lo, hi)
}

/// The canonical form of a resource path, or `None` when it is not one.
pub fn normalize_path(path: &str) -> (r: Option<String>)
    ensures
        match r {
            Some(p) => normal_path(path@) == Some(p@),
            None => normal_path(path@) is None,
        },
{
    let cs = chars_of(path);
    let (lo, hi) = trim_char_bounds(&cs, '/');
    let p = string_from_chars(crate::text::slice_chars(&cs, lo, hi).as_slice());
    let parts = pieces_of(p.as_str(), '/');
    let mut bad = false;
    let mut i: usize = 0;
    while i < parts.len()
        invariant
            i <= parts@.len(),
            vecs_v(parts@) == pieces(p@, '/'),
            bad == (exists|j: int| 0 <= j < i && !segment_ok(#[trigger] vecs_v(parts@)[j])),
        decreases parts.len() - i,
    {
        let part = &parts[i];
        let this_bad = part.len() == 0 || (part.len() == 1 && part[0] == '.')
            || (part.len() == 2 && part[0] == '.' && part[1] == '.');
        proof {
            let v = vecs_v(parts@)[i as int];
            assert(v == part@);
            if part@.len() == 1 && part@[0] == '.' {
                assert(v =~= seq!['.']);
            }
            if part@.len() == 2 && part@[0] == '.' && part@[1] == '.' {
                assert(v =~= seq!['.', '.']);
            }
            if v == seq!['.'] {
                assert(v.len() == 1);
            }
            if v == seq!['.', '.'] {
                assert(v.len() == 2);
            }
            assert(this_bad == !segment_ok(v));
        }
        if this_bad {
            bad = true;
        }
        i = i + 1;
    }
    if p.as_str().is_empty() || byte_len(p.as_str()) > 1024 || bad {
        return None;
    }
    Some(p)
}

/// The value of an ASCII hex digit.
pub open spec fn hex_value(b: u8) -> Option<u8> {
    if 48 <= b <= 57 {
        Some((b - 48) as u8)
    } else if 97 <= b <= 102 {
        Some((b - 87) as u8)
    } else if 65 <= b <= 70 {
        Some((b - 55) as u8)
    } else {
        None
    }
}

/// The value of an ASCII hex digit, when `value` is one.
pub fn hex_digit(value: u8) -> (r: Option<u8>)
    ensures
        r == hex_value(value),
{
    if 48 <= value && value <= 57 {
        Some(value - 48)
    } else if 97 <= value && value <= 102 {
        Some(value - 87)
    } else if 65 <= value && value <= 70 {
        Some(value - 55)
    } else {
        None
    }
}

/// The bytes that `bs` percent-decodes to: `%` and two hex digits stand for
/// one byte; a `%` without two hex digits after it spoils the whole.
pub open spec fn pct_decoded(bs: Seq<u8>) -> Option<Seq<u8>>
    decreases bs.len(),
{
    if bs.len() == 0 {
        Some(Seq::empty())
    } else if bs[0] == 37 {
        if bs.len() < 3 {
            None
        } else {
            match (hex_value(bs[1]), hex_value(bs[2])) {
                (Some(h), Some(l)) => match pct_decoded(bs.skip(3)) {
                    Some(r) => Some(seq![(h * 16 + l) as u8] + r),
                    None => None,
                },
                _ => None,
            }
        }
    } else {
        match pct_decoded(bs.skip(1)) {
            Some(r) => Some(seq![bs[0]] + r),
            None => None,
        }
    }
}

/// The text that `value` percent-decodes to, when the decoded bytes are
/// UTF-8.
pub open spec fn pct_text(value: Seq<char>) -> Option<Seq<char>> {
    match pct_decoded(vstd::utf8::encode_utf8(value)) {
        Some(b) => if vstd::utf8::valid_utf8(b) { Some(vstd::utf8::decode_utf8(b)) } else { None },
        None => None,
    }
}

/// Percent-decodes `value`.
pub fn percent_decode(value: &str) -> (r: Option<String>)
    ensures
        match r {
            Some(s) => pct_text(value@) == Some(s@),
            None => pct_text(value@) is None,
        },
{
    let bytes = value.as_bytes();
    let ghost all = bytes@;
    let mut decoded: Vec<u8> = Vec::new();
    let mut index: usize = 0;
    let n = bytes.len();
    assert(all.skip(0) =~= all);
    assert(all == vstd::utf8::encode_utf8(value@));
    while index < n
        invariant
            n == all.len(),
            bytes@ == all,
            all == vstd::utf8::encode_utf8(value@),
            index <= n,
            pct_decoded(all) == match pct_decoded(all.skip(index as int)) {
                Some(r) => Some(decoded@ + r),
                None => None::<Seq<u8>>,
            },
        decreases n - index,
    {
        let ghost rest = all.skip(index as int);
        assert(rest[0] == bytes@[index as int]);
        assert(rest.len() == n - index);
        if bytes[index] == 37 {
            if index + 1 >= n || index + 2 >= n {
                return None;
            }
            let high = match hex_digit(bytes[index + 1]) {
                Some(h) => h,
                None => {
                    assert(rest[1] == bytes@[index + 1]);
                    return None;
                },
            };
            let low = match hex_digit(bytes[index + 2]) {
                Some(l) => l,
                None => {
                    assert(rest[2] == bytes@[index + 2]);
                    return None;
                },
            };
            assert(rest[1] == bytes@[index + 1]);
            assert(rest[2] == bytes@[index + 2]);
            assert(rest.skip(3) =~= all.skip(index + 3));
            let byte = high * 16 + low;
            let ghost before = decoded@;
            decoded.push(byte);
            proof {
                match pct_decoded(all.skip(index + 3)) {
                    Some(r) => {
                        assert(before + (seq![byte] + r) =~= decoded@ + r);
                    },
                    None => {},
                }
            }
            index = index + 3;
        } else {
            assert(rest.skip(1) =~= all.skip(index + 1));
            let ghost before = decoded@;
            decoded.push(bytes[index]);
            proof {
                match pct_decoded(all.skip(index + 1)) {
                    Some(r) => {
                        assert(before + (seq![bytes@[index as int]] + r) =~= decoded@ + r);
                    },
                    None => {},
                }
            }
            index = index + 1;
        }
    }
    proof {
        assert(all.skip(index as int) =~= Seq::<u8>::empty());
        assert(decoded@ + Seq::<u8>::empty() =~= decoded@);
    }
    string_from_utf8(decoded)
}

/// `value` escaped for XML: `&`, `<`, `>`, `"` and `'`.
pub fn xml_escape(value: &str) -> (r: String)
    ensures
        r@ == escaped(Escape::Attr, value@),
{
    crate::text::escape(value, Escape::Attr)
}

/// Whether a lock last refreshed at `updated_at` has lapsed at `now`.
pub fn lock_expired(updated_at: i64, now: i64) -> (b: bool)
    requires
        now >= i64::MIN + LOCK_TTL_SECONDS,
    ensures
        b == (updated_at < now - LOCK_TTL_SECONDS),
{
    updated_at < now - LOCK_TTL_SECONDS
}

/// Whether `token_id` may write a document whose lock (if any) is held by
/// `lock_owner`, last refreshed at `lock_updated`: there is no lock, the
/// token holds it, or it has lapsed.
pub fn may_write_locked(lock: Option<(i64, i64)>, token_id: i64, now: i64) -> (b: bool)
    requires
        now >= i64::MIN + LOCK_TTL_SECONDS,
    ensures
        b == match lock {
            None => true,
            Some((owner, updated)) => owner == token_id || updated < now - LOCK_TTL_SECONDS,
        },
{
    match lock {
        None => true,
        Some((owner, updated)) => owner == token_id || lock_expired(updated, now),
    }
}

/// The path of the URL that `value` parses to, as url's `Url::parse` and
/// `Url::path` give it.
pub uninterp spec fn url_path_of(value: Seq<char>) -> Option<Seq<char>>;

/// url's `Url::parse` followed by `Url::path`; `None` when `value` is not an
/// absolute URL. The result is named `url_path_of`.
#[verifier::external_body]
fn url_path(value: &str) -> (r: Option<String>)
    ensures
        crate::xbel::opt_view(r) == url_path_of(value@),
{
    url::Url::parse(value).ok().map(|u| u.path().to_string())
}

/// The document path that a `Destination` header names: the path of the URL
/// (or the value itself when it is no URL) below `/webdav/`, percent-decoded
/// and in canonical form.
pub open spec fn destination_of(value: Seq<char>) -> Option<Seq<char>> {
    let path = match url_path_of(value) {
        Some(p) => p,
        None => value,
    };
    if starts_with(path, "/webdav/"@) {
        match pct_text(path.skip(8)) {
            Some(d) => normal_path(d),
            None => None,
        }
    } else {
        None
    }
}

/// The document path that a `Destination` header names.
pub fn destination_path(value: &str) -> (r: Option<String>)
    ensures
        match r {
            Some(p) => destination_of(value@) == Some(p@),
            None => destination_of(value@) is None,
        },
{
    let path = match url_path(value) {
        Some(p) => p,
        None => String::from_str(value),
    };
    let cs = chars_of(path.as_str());
    let pre = chars_of("/webdav/");
    proof {
        reveal_strlit("/webdav/");
    }
    if !crate::text::starts_with_exec(&cs, &pre) {
        return None;
    }
    let rest = string_from_chars(crate::text::slice_chars(&cs, 8, cs.len()).as_slice());
    assert(cs@.subrange(8, cs@.len() as int) =~= cs@.skip(8));
    match percent_decode(rest.as_str()) {
        Some(d) => normalize_path(d.as_str()),
        None => None,
    }
}

/// The calendar fields of a moment, in UTC: weekday (Monday is 0), day of
/// the month, month (1 to 12), year, hour, minute, second.
pub struct CivilTime {
    pub weekday: u8,
    pub day: u8,
    pub month: u8,
    pub year: i32,
    pub hour: u8,
    pub minute: u8,
    pub second: u8,
}

/// The UTC calendar fields of a Unix timestamp in the proleptic Gregorian
/// calendar; `None` outside the years -9999 to 9999 that time supports
/// (`Date::MIN` to `Date::MAX` without its `large-dates` feature). The day
/// count is turned into a date by the usual era/year-of-era computation from
/// 0000-03-01; 1970-01-01 was a Thursday.
pub open spec fn civil_of(timestamp: i64) -> Option<CivilTime> {
    if timestamp < -377705116800 || timestamp > 253402300799 {
        None
    } else {
        let days = timestamp / 86400;
        let secs = timestamp % 86400;
        let z = days + 719468;
        let era = z / 146097;
        let doe = z - era * 146097;
        let yoe = (doe - doe / 1460 + doe / 36524 - doe / 146096) / 365;
        let doy = doe - (365 * yoe + yoe / 4 - yoe / 100);
        let mp = (5 * doy + 2) / 153;
        let d = doy - (153 * mp + 2) / 5 + 1;
        let m = if mp < 10 { mp + 3 } else { mp - 9 };
        let y = yoe + era * 400 + (if m <= 2 { 1int } else { 0int });
        Some(CivilTime {
            weekday: ((days + 3) % 7) as u8,
            day: d as u8,
            month: m as u8,
            year: y as i32,
            hour: (secs / 3600) as u8,
            minute: ((secs % 3600) / 60) as u8,
            second: (secs % 60) as u8,
        })
    }
}

/// time's `OffsetDateTime::from_unix_timestamp` read out as calendar fields:
/// the date of the timestamp's day (`div_floor` by 86400 from the epoch's
/// Julian day) and the time of its second within the day (`rem_euclid`), as
/// `civil_of` computes them; an error outside the supported range. The
/// fields are within their ranges.
#[verifier::external_body]
fn civil_time(timestamp: i64) -> (r: Option<CivilTime>)
    ensures
        r == civil_of(timestamp),
        r matches Some(c) ==> c.weekday < 7 && 1 <= c.month <= 12
            && 1 <= c.day <= 31 && c.hour < 24 && c.minute < 60 && c.second < 60
            && -9999 <= c.year <= 9999 && (timestamp >= 0 ==> c.year >= 1970),
        0 <= timestamp <= 253402300799 ==> r is Some,
{
    time::OffsetDateTime::from_unix_timestamp(timestamp).ok().map(|d| CivilTime {
        weekday: d.weekday().number_days_from_monday(),
        day: d.day(),
        month: u8::from(d.month()),
        year: d.year(),
        hour: d.hour(),
        minute: d.minute(),
        second: d.second(),
    })
}

pub open spec fn weekday_name(w: u8) -> Seq<char> {
    if w == 0 { "Mon"@ } else if w == 1 { "Tue"@ } else if w == 2 { "Wed"@ } else if w == 3 { "Thu"@ }
    else if w == 4 { "Fri"@ } else if w == 5 { "Sat"@ } else { "Sun"@ }
}

pub open spec fn month_name(m: u8) -> Seq<char> {
    if m == 1 { "Jan"@ } else if m == 2 { "Feb"@ } else if m == 3 { "Mar"@ } else if m == 4 { "Apr"@ }
    else if m == 5 { "May"@ } else if m == 6 { "Jun"@ } else if m == 7 { "Jul"@ } else if m == 8 { "Aug"@ }
    else if m == 9 { "Sep"@ } else if m == 10 { "Oct"@ } else if m == 11 { "Nov"@ } else { "Dec"@ }
}

/// `n` in decimal with at least `width` digits, zero-padded.
pub open spec fn padded(n: nat, width: nat) -> Seq<char> {
    let d = decimal(n);
    if d.len() >= width { d } else { Seq::new((width - d.len()) as nat, |i: int| '0') + d }
}

/// The HTTP date of the calendar fields `c`.
pub open spec fn http_date_of(c: CivilTime) -> Seq<char> {
    weekday_name(c.weekday) + ", "@ + padded(c.day as nat, 2) + " "@ + month_name(c.month) + " "@
        + padded(c.year as nat, 4) + " "@ + padded(c.hour as nat, 2) + ":"@ + padded(c.minute as nat, 2)
        + ":"@ + padded(c.second as nat, 2) + " GMT"@
}

/// The HTTP date of a timestamp: negative ones count as the epoch, and so do
/// ones past what time supports.
pub open spec fn http_date(timestamp: i64) -> Seq<char> {
    let t = if timestamp < 0 { 0 } else { timestamp };
    match civil_of(t) {
        Some(c) => http_date_of(c),
        None => http_date_of(civil_of(0)->Some_0),
    }
}

fn push_padded(s: &mut String, n: u64, width: usize)
    requires
        width <= 4,
    ensures
        final(s)@ == old(s)@ + padded(n as nat, width as nat),
{
    let mut digits = String::new();
    push_decimal(&mut digits, n);
    let dc = chars_of(digits.as_str());
    assert(dc@ =~= decimal(n as nat));
    let len = dc.len();
    let pad: usize = if len < width { width - len } else { 0 };
    let ghost start = s@;
    let mut k: usize = 0;
    while k < pad
        invariant
            k <= pad,
            s@ == start + Seq::new(k as nat, |i: int| '0'),
        decreases pad - k,
    {
        crate::text::push_char(s, '0');
        k = k + 1;
        assert(s@ =~= start + Seq::new(k as nat, |i: int| '0'));
    }
    s.append(digits.as_str());
    proof {
        if len >= width {
            assert(Seq::new(0nat, |i: int| '0') =~= Seq::<char>::empty());
            assert(s@ =~= start + decimal(n as nat));
        } else {
            assert(s@ =~= start + (Seq::new((width - len) as nat, |i: int| '0') + decimal(n as nat)));
        }
    }
}

/// Formats a Unix timestamp as an HTTP date, such as
/// `Thu, 01 Jan 1970 00:00:00 GMT`.
pub fn format_http_date(timestamp: i64) -> (r: String)
    ensures
        r@ == http_date(timestamp),
{
    let t = if timestamp < 0 { 0 } else { timestamp };
    let c = match civil_time(t) {
        Some(c) => c,
        None => match civil_time(0) {
            Some(c) => c,
            None => {
                assert(false);
                return String::new();
            },
        },
    };
    let mut s = String::new();
    let w = c.weekday;
    s.append(if w == 0 { "Mon" } else if w == 1 { "Tue" } else if w == 2 { "Wed" } else if w == 3 { "Thu" }
        else if w == 4 { "Fri" } else if w == 5 { "Sat" } else { "Sun" });
    s.append(", ");
    push_padded(&mut s, c.day as u64, 2);
    s.append(" ");
    let m = c.month;
    s.append(if m == 1 { "Jan" } else if m == 2 { "Feb" } else if m == 3 { "Mar" } else if m == 4 { "Apr" }
        else if m == 5 { "May" } else if m == 6 { "Jun" } else if m == 7 { "Jul" } else if m == 8 { "Aug" }
        else if m == 9 { "Sep" } else if m == 10 { "Oct" } else if m == 11 { "Nov" } else { "Dec" });
    s.append(" ");
    push_padded(&mut s, c.year as u64, 4);
    s.append(" ");
    push_padded(&mut s, c.hour as u64, 2);
    s.append(":");
    push_padded(&mut s, c.minute as u64, 2);
    s.append(":");
    push_padded(&mut s, c.second as u64, 2);
    s.append(" GMT");
    s
}

/// The access token in an `Authorization: Basic` header value: the password
/// part (after the first `:`) of the base64-decoded credentials.
pub open spec fn basic_token_of(v: Seq<char>) -> Option<Seq<char>> {
    if starts_with(v, "Basic "@) {
        match b64std_dec(crate::text::trim(v.skip(6))) {
            Some(b) => if vstd::utf8::valid_utf8(b) {
                let cred = vstd::utf8::decode_utf8(b);
                match crate::text::find(cred, seq![':']) {
                    Some(k) => Some(cred.skip(k + 1)),
                    None => None,
                }
            } else {
                None
            },
            None => None,
        }
    } else {
        None
    }
}

/// The access token of a WebDAV request's `Authorization` header value.
pub fn basic_token(authorization: Option<&str>) -> (r: Option<String>)
    ensures
        match authorization {
            None => r is None,
            Some(v) => crate::xbel::opt_view(r) == basic_token_of(v@),
        },
{
    let v = match authorization {
        Some(v) => v,
        None => return None,
    };
    let cs = chars_of(v);
    let pre = chars_of("Basic ");
    proof {
        reveal_strlit("Basic ");
    }
    if !crate::text::starts_with_exec(&cs, &pre) {
        return None;
    }
    assert(cs@.subrange(6, cs@.len() as int) =~= cs@.skip(6));
    let (a, b) = crate::text::trim_bounds(&cs, 6, cs.len());
    let encoded = crate::text::string_of(&cs, a, b);
    let bytes = match b64std_decode(encoded.as_str()) {
        Some(b) => b,
        None => return None,
    };
    let cred = match string_from_utf8(bytes) {
        Some(c) => c,
        None => return None,
    };
    let cc = chars_of(cred.as_str());
    let colon = vec![':'];
    assert(colon@ =~= seq![':']);
    proof {
        crate::text::lemma_find_from(cc@, colon@, 0, false);
    }
    let n = cc.len();
    match crate::text::find_in(&cc, &colon, 0, false) {
        Some(k) => {
            assert(crate::text::match_at(cc@, colon@, k as int, false));
            assert(cc@.subrange(k + 1, cc@.len() as int) =~= cc@.skip(k + 1));
            assert(k + 1 <= n);
            Some(crate::text::string_of(&cc, k + 1, n))
        },
        None => None,
    }
}

/// What a WebDAV path names: the lock of a document (`<doc>.lock`), a
/// staged upload (`*.temp`), or a document.
#[derive(Debug)]
pub enum Resource {
    Lock(String),
    Staging,
    Document,
}

/// `s` without the suffix `p`, when it ends with it.
pub open spec fn strip_suffix(s: Seq<char>, p: Seq<char>) -> Option<Seq<char>> {
    if crate::bookmark::ends_with(s, p) { Some(s.take(s.len() - p.len())) } else { None }
}

fn suffix_split(cs: &Vec<char>, suffix: &str) -> (r: Option<String>)
    ensures
        match r {
            Some(d) => strip_suffix(cs@, suffix@) == Some(d@),
            None => strip_suffix(cs@, suffix@) is None,
        },
{
    let p = chars_of(suffix);
    if cs.len() < p.len() {
        return None;
    }
    let off = cs.len() - p.len();
    let tail = crate::text::slice_chars(cs, off, cs.len());
    assert(tail@ =~= cs@.skip(off as int));
    if crate::split::chars_eq(&tail, &p) {
        Some(crate::text::string_of(cs, 0, off))
    } else {
        None
    }
}

/// Classifies a WebDAV path.
pub fn resource_kind(path: &str) -> (r: Resource)
    ensures
        match strip_suffix(path@, ".lock"@) {
            Some(d) => r matches Resource::Lock(doc) && doc@ == d,
            None => if crate::bookmark::ends_with(path@, ".temp"@) { r is Staging } else { r is Document },
        },
{
    let cs = chars_of(path);
    match suffix_split(&cs, ".lock") {
        Some(d) => Resource::Lock(d),
        None => match suffix_split(&cs, ".temp") {
            Some(_) => Resource::Staging,
            None => Resource::Document,
        },
    }
}

/// The XML of a `PROPFIND` answer for one file.
pub open spec fn propfind_xml_of(path: Seq<char>, size: Seq<char>, modified: Seq<char>) -> Seq<char> {
    "<?xml version=\"1.0\" encoding=\"utf-8\"?><d:multistatus xmlns:d=\"DAV:\"><d:response><d:href>/webdav/"@
        + escaped(Escape::Attr, path)
        + "</d:href><d:propstat><d:prop><d:getcontentlength>"@ + size
        + "</d:getcontentlength><d:getlastmodified>"@ + modified
        + "</d:getlastmodified></d:prop><d:status>HTTP/1.1 200 OK</d:status></d:propstat></d:response></d:multistatus>"@
}

/// The XML of a `PROPFIND` answer for the file at `path`, of `size` bytes,
/// last modified at `modified`.
pub fn propfind_xml(path: &str, size: &str, modified: &str) -> (x: String)
    ensures
        x@ == propfind_xml_of(path@, size@, modified@),
{
    let mut x = String::from_str("<?xml version=\"1.0\" encoding=\"utf-8\"?><d:multistatus xmlns:d=\"DAV:\"><d:response><d:href>/webdav/");
    push_escaped(&mut x, path, Escape::Attr);
    x.append("</d:href><d:propstat><d:prop><d:getcontentlength>");
    x.append(size);
    x.append("</d:getcontentlength><d:getlastmodified>");
    x.append(modified);
    x.append("</d:getlastmodified></d:prop><d:status>HTTP/1.1 200 OK</d:status></d:propstat></d:response></d:multistatus>");
    x
}


/// The check before a signed-in user edits a document in the web editor:
/// `Locked` while a WebDAV lock on it (last refreshed at `lock_updated`, if
/// there is one) is live.
pub fn ensure_unlocked(lock_updated: Option<i64>, now: i64) -> (r: AppResult<()>)
    requires
        now >= i64::MIN + LOCK_TTL_SECONDS,
    ensures
        match lock_updated {
            Some(u) => if u >= now - LOCK_TTL_SECONDS { r matches Err(e) && e == AppError::Locked } else { r is Ok },
            None => r is Ok,
        },
{
    match lock_updated {
        Some(u) => if u >= now - LOCK_TTL_SECONDS { Err(AppError::Locked) } else { Ok(()) },
        None => Ok(()),
    }
}

/// A lock is live in one place exactly when it is live in the other: while
/// it keeps the web editor out of a document, it keeps every token but its
/// owner from writing it, and once it lapses both may write.
pub proof fn lemma_live_lock_blocks_both(owner: i64, updated: i64, token_id: i64, now: i64)
    requires
        now >= i64::MIN + LOCK_TTL_SECONDS,
        token_id != owner,
    ensures
        (updated >= now - LOCK_TTL_SECONDS) <==> !(owner == token_id || updated < now - LOCK_TTL_SECONDS),
{
}

/// What a `PUT` on a WebDAV path does, before its body is read.
#[derive(Debug)]
pub enum PutPlan {
    /// 403: the user may not write, or did not come with a token.
    Forbidden,
    /// Take or refresh the lock of `document` for the token.
    Lock { document: String, token_id: i64 },
    /// Keep the upload as staging content, where the token may write
    /// `document` (every trailing `.temp` taken off the path).
    Stage { document: String, token_id: i64 },
    /// 415: a document path that does not end in `.xbel`.
    Unsupported,
    /// Replace the document's tree, where the token may write it.
    Replace { token_id: i64 },
}

/// The plan of a `PUT` on `path` by a user who may write iff `can_write`,
/// signed in with the token `token_id`, if any.
pub open spec fn put_plan_of(path: Seq<char>, can_write: bool, token_id: Option<i64>) -> PutPlanV {
    if !can_write || token_id is None {
        PutPlanV::Forbidden
    } else {
        let t = token_id->Some_0;
        match strip_suffix(path, ".lock"@) {
            Some(d) => PutPlanV::Lock(d, t),
            None => if crate::bookmark::ends_with(path, ".temp"@) {
                PutPlanV::Stage(crate::bookmark::strip_suffixes(path, ".temp"@), t)
            } else if !crate::bookmark::ends_with(crate::bookmark::lower_ascii(path), ".xbel"@) {
                PutPlanV::Unsupported
            } else {
                PutPlanV::Replace(t)
            },
        }
    }
}

/// The value of a `PutPlan`.
pub enum PutPlanV {
    Forbidden,
    Lock(Seq<char>, i64),
    Stage(Seq<char>, i64),
    Unsupported,
    Replace(i64),
}

impl PutPlan {
    pub open spec fn pv(&self) -> PutPlanV {
        match self {
            PutPlan::Forbidden => PutPlanV::Forbidden,
            PutPlan::Lock { document, token_id } => PutPlanV::Lock(document@, *token_id),
            PutPlan::Stage { document, token_id } => PutPlanV::Stage(document@, *token_id),
            PutPlan::Unsupported => PutPlanV::Unsupported,
            PutPlan::Replace { token_id } => PutPlanV::Replace(*token_id),
        }
    }
}

/// Decides what a `PUT` on `path` does.
pub fn put_plan(path: &str, can_write: bool, token_id: Option<i64>) -> (r: PutPlan)
    ensures
        r.pv() == put_plan_of(path@, can_write, token_id),
{
    let t = match token_id {
        Some(t) => t,
        None => {
            return PutPlan::Forbidden;
        },
    };
    if !can_write {
        return PutPlan::Forbidden;
    }
    proof {
        reveal_strlit(".temp");
    }
    match resource_kind(path) {
        Resource::Lock(document) => PutPlan::Lock { document, token_id: t },
        Resource::Staging => PutPlan::Stage { document: crate::bookmark::trim_suffixes(path, ".temp"), token_id: t },
        Resource::Document => {
            if crate::bookmark::is_xbel_name(path) {
                PutPlan::Replace { token_id: t }
            } else {
                PutPlan::Unsupported
            }
        },
    }
}

/// The status of a `PUT` on a lock: 201 where the upsert took (no other
/// token holds a live lock), else 423.
pub fn lock_put_status(rows_affected: u64) -> (s: u16)
    ensures
        s == if rows_affected > 0 { 201u16 } else { 423u16 },
{
    if rows_affected > 0 { 201 } else { 423 }
}

/// What a `DELETE` on a WebDAV path does.
#[derive(Debug)]
pub enum DeletePlan {
    /// 403: the user may not write.
    Forbidden,
    /// Drop the lock of `document` where the token holds it or it lapsed.
    Unlock { document: String },
    /// Drop the token's staging content.
    DropStaging,
    /// Delete the document, where the token may write it.
    Remove,
}

/// Decides what a `DELETE` on `path` does.
pub fn delete_plan(path: &str, can_write: bool) -> (r: DeletePlan)
    ensures
        !can_write ==> r is Forbidden,
        can_write ==> match strip_suffix(path@, ".lock"@) {
            Some(d) => r matches DeletePlan::Unlock { document } && document@ == d,
            None => if crate::bookmark::ends_with(path@, ".temp"@) { r is DropStaging } else { r is Remove },
        },
{
    if !can_write {
        return DeletePlan::Forbidden;
    }
    match resource_kind(path) {
        Resource::Lock(document) => DeletePlan::Unlock { document },
        Resource::Staging => DeletePlan::DropStaging,
        Resource::Document => DeletePlan::Remove,
    }
}

/// The status of a `DELETE` that removed `rows_affected` rows: 204 where it
/// removed one; else 423 for a lock (held by another token) and 404 for
/// staging content or a document.
pub fn delete_status(plan: &DeletePlan, rows_affected: u64) -> (s: u16)
    ensures
        s == if plan is Forbidden {
            403u16
        } else if rows_affected > 0 {
            204u16
        } else if plan is Unlock {
            423u16
        } else {
            404u16
        },
{
    match plan {
        DeletePlan::Forbidden => 403,
        DeletePlan::Unlock { .. } => if rows_affected > 0 { 204 } else { 423 },
        _ => if rows_affected > 0 { 204 } else { 404 },
    }
}

/// Where a `MOVE` of the staging file `source` goes: `Err(403)` where the
/// user may not write or `source` is no `.temp` file, `Err(400)` where the
/// `Destination` header gives no `.xbel` document path, else that path.
pub fn move_target(source: &str, can_write: bool, destination: Option<&str>) -> (r: Result<String, u16>)
    ensures
        (!can_write || !crate::bookmark::ends_with(source@, ".temp"@)) ==> r == Err::<String, u16>(403u16),
        (can_write && crate::bookmark::ends_with(source@, ".temp"@)) ==> match destination {
            Some(v) => match destination_of(v@) {
                Some(d) => if crate::bookmark::ends_with(crate::bookmark::lower_ascii(d), ".xbel"@) {
                    r matches Ok(p) && p@ == d
                } else {
                    r == Err::<String, u16>(400u16)
                },
                None => r == Err::<String, u16>(400u16),
            },
            None => r == Err::<String, u16>(400u16),
        },
{
    let is_temp = match resource_kind(source) {
        Resource::Staging => true,
        _ => false,
    };
    proof {
        if crate::bookmark::ends_with(source@, ".temp"@) && strip_suffix(source@, ".lock"@) is Some {
            reveal_strlit(".temp");
            reveal_strlit(".lock");
            let n = source@.len();
            assert(source@.skip(n - 5)[4] == source@[n - 1]);
            assert(source@.skip(n - 4)[3] == source@[n - 1]);
            assert(".temp"@[4] == 'p');
            assert(".lock"@[3] == 'k');
        }
    }
    if !can_write || !is_temp {
        return Err(403);
    }
    let v = match destination {
        Some(v) => v,
        None => {
            return Err(400);
        },
    };
    match destination_path(v) {
        Some(d) => {
            if crate::bookmark::is_xbel_name(d.as_str()) {
                Ok(d)
            } else {
                Err(400)
            }
        },
        None => Err(400),
    }
}

} // verus!
