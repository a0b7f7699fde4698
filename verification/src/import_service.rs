//! Importing bookmarks: Linkwarden JSON and CSV exports, the choice of
//! parser by format, and the preview shown before an import.
use vstd::prelude::*;
use crate::error::{AppError, AppResult, ErrorV, validation};
use crate::import::{
    BookmarkV, ParsedBookmark, bookmarks_v, clone_strings, parse_netscape_html, spec_parse_netscape,
    spec_parse_xbel_lines,
};
use crate::split::{join_with, lemma_lex_irreflexive, lemma_lex_total, lemma_lex_transitive, lex_lt, pieces, pieces_of, str_lt};
use crate::text::{
    ascii_lower, chars_of, str_eq, string_from_chars, strs_v, to_ascii_lower, trim, trimmed,
    vecs_v,
};

verus! {

/// A JSON value, as an import reads it: numbers only as the `i64` they
/// hold, when they hold one.
#[derive(Debug)]
pub enum JsonValue {
    Null,
    Bool(bool),
    Number(Option<i64>),
    Str(String),
    Array(Vec<JsonValue>),
    Object(Vec<(String, JsonValue)>),
}

/// The value of a `JsonValue`.
pub enum JsonV {
    Null,
    Bool(bool),
    Number(Option<i64>),
    Str(Seq<char>),
    Array(Seq<JsonV>),
    Object(Seq<(Seq<char>, JsonV)>),
}

impl JsonValue {
    pub open spec fn jv(&self) -> JsonV
        decreases self,
    {
        match self {
            JsonValue::Null => JsonV::Null,
            JsonValue::Bool(b) => JsonV::Bool(*b),
            JsonValue::Number(n) => JsonV::Number(*n),
            JsonValue::Str(s) => JsonV::Str(s@),
            JsonValue::Array(a) => JsonV::Array(Seq::new(a@.len(), |i: int| {
                if 0 <= i < a@.len() {
                    proof {
                        vstd::std_specs::vec::axiom_vec_index_decreases(*a, i);
                    }
                    a@[i].jv()
                } else {
                    arbitrary()
                }
            })),
            JsonValue::Object(m) => JsonV::Object(Seq::new(m@.len(), |i: int| {
                if 0 <= i < m@.len() {
                    proof {
                        vstd::std_specs::vec::axiom_vec_index_decreases(*m, i);
                    }
                    (m@[i].0@, m@[i].1.jv())
                } else {
                    arbitrary()
                }
            })),
        }
    }
}

/// What serde_json's `from_str` parses `text` to, or its error message.
pub uninterp spec fn json_parsed(text: Seq<char>) -> Result<JsonV, Seq<char>>;

pub open spec fn json_result(r: Result<JsonValue, String>) -> Result<JsonV, Seq<char>> {
    match r {
        Ok(v) => Ok(v.jv()),
        Err(e) => Err(e@),
    }
}

#[verifier::external_type_specification]
#[verifier::external_body]
pub struct ExJsonValue(serde_json::Value);

/// serde_json's `Value` as a `JsonValue`, one variant for another.
#[verifier::external_body]
fn json_from_value(v: &serde_json::Value) -> JsonValue {
    match v {
        serde_json::Value::Null => JsonValue::Null,
        serde_json::Value::Bool(b) => JsonValue::Bool(*b),
        serde_json::Value::Number(n) => JsonValue::Number(n.as_i64()),
        serde_json::Value::String(s) => JsonValue::Str(s.clone()),
        serde_json::Value::Array(a) => JsonValue::Array(a.iter().map(json_from_value).collect()),
        serde_json::Value::Object(m) => JsonValue::Object(m.iter().map(|(k, x)| (k.clone(), json_from_value(x))).collect()),
    }
}

/// serde_json's `from_str::<Value>`: the parsed value, or the error's
/// message; named `json_parsed`.
#[verifier::external_body]
fn parse_json(text: &str) -> (r: Result<JsonValue, String>)
    ensures
        json_result(r) == json_parsed(text@),
{
    match serde_json::from_str::<serde_json::Value>(text) {
        Ok(v) => Ok(json_from_value(&v)),
        Err(e) => Err(e.to_string()),
    }
}

/// The first entry of `m` under `key`.
pub open spec fn entry_of(m: Seq<(Seq<char>, JsonV)>, key: Seq<char>) -> Option<JsonV>
    decreases m.len(),
{
    if m.len() == 0 {
        None
    } else if m[0].0 == key {
        Some(m[0].1)
    } else {
        entry_of(m.drop_first(), key)
    }
}

/// `Value::get` with a key: the member of an object, `None` for any other
/// value.
pub open spec fn jget(v: JsonV, key: Seq<char>) -> Option<JsonV> {
    match v {
        JsonV::Object(m) => entry_of(m, key),
        _ => None,
    }
}

pub open spec fn jarray(o: Option<JsonV>) -> Option<Seq<JsonV>> {
    match o {
        Some(JsonV::Array(a)) => Some(a),
        _ => None,
    }
}

pub open spec fn jstr(o: Option<JsonV>) -> Seq<char> {
    match o {
        Some(JsonV::Str(s)) => s,
        _ => Seq::empty(),
    }
}

pub open spec fn ji64(o: Option<JsonV>) -> Option<i64> {
    match o {
        Some(JsonV::Number(n)) => n,
        _ => None,
    }
}

/// The member under `a`, or else the one under `b`.
pub open spec fn jget_either(v: JsonV, a: Seq<char>, b: Seq<char>) -> Option<JsonV> {
    match jget(v, a) {
        Some(x) => Some(x),
        None => jget(v, b),
    }
}

/// `value.get(key)`.
fn json_get<'a>(v: &'a JsonValue, key: &str) -> (r: Option<&'a JsonValue>)
    ensures
        match r {
            Some(x) => jget(v.jv(), key@) == Some(x.jv()),
            None => jget(v.jv(), key@) is None,
        },
{
    match v {
        JsonValue::Object(m) => {
            let ghost mv = match v.jv() {
                JsonV::Object(mm) => mm,
                _ => arbitrary(),
            };
            assert(v.jv() == JsonV::Object(mv));
            let mut i: usize = 0;
            assert(mv.skip(0) =~= mv);
            while i < m.len()
                invariant
                    i <= m@.len(),
                    mv.len() == m@.len(),
                    forall|j: int| 0 <= j < m@.len() ==> #[trigger] mv[j] == (m@[j].0@, m@[j].1.jv()),
                    entry_of(mv, key@) == entry_of(mv.skip(i as int), key@),
                    v.jv() == JsonV::Object(mv),
                decreases m.len() - i,
            {
                assert(mv.skip(i as int)[0] == mv[i as int]);
                assert(mv.skip(i as int).drop_first() =~= mv.skip(i + 1));
                if str_eq(m[i].0.as_str(), key) {
                    assert(entry_of(mv.skip(i as int), key@) == Some(mv[i as int].1));
                    return Some(&m[i].1);
                }
                i = i + 1;
            }
            None
        },
        _ => None,
    }
}

fn json_str(o: Option<&JsonValue>) -> (r: String)
    ensures
        r@ == jstr(match o {
            Some(x) => Some(x.jv()),
            None => None,
        }),
{
    match o {
        Some(JsonValue::Str(s)) => s.clone(),
        _ => String::new(),
    }
}

fn json_i64(o: Option<&JsonValue>) -> (r: Option<i64>)
    ensures
        r == ji64(match o {
            Some(x) => Some(x.jv()),
            None => None,
        }),
{
    match o {
        Some(JsonValue::Number(n)) => *n,
        _ => None,
    }
}

/// A collection of an export: its id (0 when missing), name and parent.
pub open spec fn col_entry(c: JsonV) -> (i64, Seq<char>, Option<i64>) {
    let id = match ji64(jget(c, "id"@)) {
        Some(i) => i,
        None => 0,
    };
    (id, jstr(jget(c, "name"@)), ji64(jget_either(c, "parentId"@, "parent_id"@)))
}

/// The name and parent of collection `id`: the last entry with that id.
pub open spec fn col_lookup(es: Seq<(i64, Seq<char>, Option<i64>)>, id: i64) -> Option<(Seq<char>, Option<i64>)>
    decreases es.len(),
{
    if es.len() == 0 {
        None
    } else if es.last().0 == id {
        Some((es.last().1, es.last().2))
    } else {
        col_lookup(es.drop_last(), id)
    }
}

/// The names on the way up from `cur` to the top, top first, stopping at a
/// collection seen before or one that is not listed.
pub open spec fn walk_up(es: Seq<(i64, Seq<char>, Option<i64>)>, cur: Option<i64>, seen: Seq<i64>, fuel: nat) -> Seq<Seq<char>>
    decreases fuel,
{
    match cur {
        None => Seq::empty(),
        Some(c) => if seen.contains(c) || fuel == 0 {
            Seq::empty()
        } else {
            match col_lookup(es, c) {
                None => Seq::empty(),
                Some((name, parent)) => walk_up(es, parent, seen.push(c), (fuel - 1) as nat).push(name),
            }
        },
    }
}

/// The folder path of collection `id`: the names from the top down to it.
/// The fuel never runs out: every step visits another listed collection.
pub open spec fn json_path(es: Seq<(i64, Seq<char>, Option<i64>)>, id: i64) -> Seq<Seq<char>> {
    walk_up(es, Some(id), Seq::empty(), es.len() + 1)
}

/// The bookmark of a link of an export.
pub open spec fn link_bookmark(es: Seq<(i64, Seq<char>, Option<i64>)>, l: JsonV) -> BookmarkV {
    BookmarkV {
        url: jstr(jget(l, "url"@)),
        name: jstr(jget(l, "name"@)),
        description: jstr(jget(l, "description"@)),
        folder_path: match ji64(jget_either(l, "collectionId"@, "collection_id"@)) {
            Some(cid) => if col_lookup(es, cid) is Some { json_path(es, cid) } else { Seq::empty() },
            None => Seq::empty(),
        },
    }
}

/// The bookmarks of a Linkwarden JSON export: one for each member of its
/// `links` array, filed under the path of its collection.
pub open spec fn spec_parse_linkwarden(content: Seq<char>) -> Result<Seq<BookmarkV>, ErrorV> {
    match json_parsed(content) {
        Err(m) => Err(ErrorV::Validation("invalid JSON: "@ + m)),
        Ok(v) => match jarray(jget(v, "links"@)) {
            None => Err(ErrorV::Validation("missing 'links' array"@)),
            Some(links) => {
                let es = match jarray(jget(v, "collections"@)) {
                    Some(cs) => Seq::new(cs.len(), |i: int| col_entry(cs[i])),
                    None => Seq::empty(),
                };
                Ok(Seq::new(links.len(), |i: int| link_bookmark(es, links[i])))
            },
        },
    }
}

pub open spec fn entries_v(es: Seq<(i64, String, Option<i64>)>) -> Seq<(i64, Seq<char>, Option<i64>)> {
    Seq::new(es.len(), |i: int| (es[i].0, es[i].1@, es[i].2))
}

fn lookup_col(es: &Vec<(i64, String, Option<i64>)>, id: i64) -> (r: Option<usize>)
    ensures
        match r {
            Some(j) => j < es@.len() && es@[j as int].0 == id && col_lookup(entries_v(es@), id)
                == Some((es@[j as int].1@, es@[j as int].2)),
            None => col_lookup(entries_v(es@), id) is None,
        },
{
    let mut k = es.len();
    assert(entries_v(es@).take(k as int) =~= entries_v(es@));
    while k > 0
        invariant
            k <= es@.len(),
            col_lookup(entries_v(es@), id) == col_lookup(entries_v(es@).take(k as int), id),
        decreases k,
    {
        let ghost t = entries_v(es@).take(k as int);
        assert(t.last() == entries_v(es@)[k - 1]);
        if es[k - 1].0 == id {
            return Some(k - 1);
        }
        assert(t.drop_last() =~= entries_v(es@).take(k - 1));
        k = k - 1;
    }
    None
}

fn has_id(v: &Vec<i64>, x: i64) -> (b: bool)
    ensures
        b == v@.contains(x),
{
    let mut i: usize = 0;
    while i < v.len()
        invariant
            i <= v@.len(),
            forall|j: int| 0 <= j < i ==> v@[j] != x,
        decreases v.len() - i,
    {
        if v[i] == x {
            return true;
        }
        i = i + 1;
    }
    false
}

proof fn lemma_seen_bound(seen: Seq<i64>, ids: Seq<i64>)
    requires
        seen.no_duplicates(),
        forall|k: int| 0 <= k < seen.len() ==> ids.contains(#[trigger] seen[k]),
    ensures
        seen.len() <= ids.len(),
{
    seen.unique_seq_to_set();
    ids.lemma_cardinality_of_set();
    assert(seen.to_set().subset_of(ids.to_set()));
    vstd::set_lib::lemma_len_subset(seen.to_set(), ids.to_set());
}

/// The folder path of collection `id`.
pub fn resolve_json_path(id: i64, es: &Vec<(i64, String, Option<i64>)>) -> (r: Vec<String>)
    ensures
        strs_v(r@) == json_path(entries_v(es@), id),
{
    let ghost ev = entries_v(es@);
    let ghost ids = Seq::new(ev.len(), |i: int| ev[i].0);
    let mut path: Vec<String> = Vec::new();
    let mut current: Option<i64> = Some(id);
    let mut seen: Vec<i64> = Vec::new();
    loop
        invariant
            ev == entries_v(es@),
            ids == Seq::new(ev.len(), |i: int| ev[i].0),
            seen@.no_duplicates(),
            forall|k: int| 0 <= k < seen@.len() ==> ids.contains(#[trigger] seen@[k]),
            json_path(ev, id) == walk_up(ev, current, seen@, (ev.len() + 1 - seen@.len()) as nat) + strs_v(path@),
        ensures
            json_path(ev, id) == strs_v(path@),
        decreases ev.len() + 1 - seen@.len(),
    {
        proof {
            lemma_seen_bound(seen@, ids);
        }
        let c = match current {
            None => {
                assert(strs_v(path@) =~= Seq::<Seq<char>>::empty() + strs_v(path@));
                break;
            },
            Some(c) => c,
        };
        if has_id(&seen, c) {
            assert(Seq::<Seq<char>>::empty() + strs_v(path@) =~= strs_v(path@));
            break;
        }
        let ghost old_seen = seen@;
        match lookup_col(es, c) {
            None => {
                assert(Seq::<Seq<char>>::empty() + strs_v(path@) =~= strs_v(path@));
                break;
            },
            Some(j) => {
                seen.push(c);
                let ghost before = strs_v(path@);
                let name = es[j].1.clone();
                path.insert(0, name);
                assert(strs_v(path@) =~= seq![es@[j as int].1@] + before);
                current = es[j].2;
                proof {
                    assert(ids[j as int] == c);
                    assert forall|k: int| 0 <= k < seen@.len() implies ids.contains(#[trigger] seen@[k]) by {
                        if k == old_seen.len() {
                            assert(ids[j as int] == seen@[k]);
                        } else {
                            assert(seen@[k] == old_seen[k]);
                        }
                    }
                    assert(seen@.no_duplicates()) by {
                        assert forall|a: int, b: int| 0 <= a < b < seen@.len() implies seen@[a] != seen@[b] by {
                            if b == old_seen.len() {
                                assert(old_seen.contains(old_seen[a]));
                            }
                        }
                    }
                    let w = walk_up(ev, current, seen@, (ev.len() + 1 - seen@.len()) as nat);
                    assert(w.push(es@[j as int].1@) + before =~= w + strs_v(path@));
                }
            },
        }
    }
    path
}

fn json_array<'a>(o: Option<&'a JsonValue>) -> (r: Option<&'a Vec<JsonValue>>)
    ensures
        match r {
            Some(a) => jarray(match o { Some(x) => Some(x.jv()), None => None }) == Some(Seq::new(a@.len(), |i: int| a@[i].jv())),
            None => jarray(match o { Some(x) => Some(x.jv()), None => None }) is None,
        },
{
    match o {
        Some(JsonValue::Array(a)) => {
            let ghost x = o->Some_0;
            assert(x.jv() matches JsonV::Array(aa) && aa =~= Seq::new(a@.len(), |i: int| a@[i].jv()));
            Some(a)
        },
        _ => None,
    }
}

fn json_get_either<'a>(v: &'a JsonValue, a: &str, b: &str) -> (r: Option<&'a JsonValue>)
    ensures
        match r {
            Some(x) => jget_either(v.jv(), a@, b@) == Some(x.jv()),
            None => jget_either(v.jv(), a@, b@) is None,
        },
{
    match json_get(v, a) {
        Some(x) => Some(x),
        None => json_get(v, b),
    }
}

/// Reads a Linkwarden JSON export.
pub fn parse_linkwarden_json(content: &str) -> (r: AppResult<Vec<ParsedBookmark>>)
    ensures
        match spec_parse_linkwarden(content@) {
            Ok(bs) => r matches Ok(v) && bookmarks_v(v@) == bs,
            Err(e) => r matches Err(x) && x@ == e,
        },
{
    let value = match parse_json(content) {
        Ok(v) => v,
        Err(m) => {
            let mut msg = String::from_str("invalid JSON: ");
            msg.append(m.as_str());
            return Err(AppError::Validation(msg));
        },
    };
    let links = match json_array(json_get(&value, "links")) {
        Some(l) => l,
        None => return Err(validation("missing 'links' array")),
    };
    let mut es: Vec<(i64, String, Option<i64>)> = Vec::new();
    let ghost cs_spec = jarray(jget(value.jv(), "collections"@));
    match json_array(json_get(&value, "collections")) {
        Some(cs) => {
            let mut i: usize = 0;
            while i < cs.len()
                invariant
                    i <= cs@.len(),
                    es@.len() == i,
                    entries_v(es@) == Seq::new(i as nat, |k: int| col_entry(cs@[k].jv())),
                decreases cs.len() - i,
            {
                let c = &cs[i];
                let id = match json_i64(json_get(c, "id")) {
                    Some(n) => n,
                    None => 0,
                };
                let name = json_str(json_get(c, "name"));
                let parent = json_i64(json_get_either(c, "parentId", "parent_id"));
                let ghost before = entries_v(es@);
                let ghost raw = es@;
                let ghost nv = name@;
                assert((id, nv, parent) == col_entry(c.jv()));
                es.push((id, name, parent));
                assert(es@ == raw.push((id, name, parent)));
                assert(entries_v(es@)[i as int] == (id, nv, parent));
                assert(entries_v(es@)[i as int] == col_entry(cs@[i as int].jv()));
                assert forall|k: int| 0 <= k < i + 1 implies #[trigger] entries_v(es@)[k] == col_entry(cs@[k].jv()) by {
                    if k < i {
                        assert(es@[k] == raw[k]);
                        assert(before[k] == col_entry(cs@[k].jv()));
                    }
                }
                assert(entries_v(es@) =~= Seq::new((i + 1) as nat, |k: int| col_entry(cs@[k].jv())));
                i = i + 1;
            }
        },
        None => {},
    }
    let ghost ev = entries_v(es@);
    assert(ev == match cs_spec {
        Some(cs) => Seq::new(cs.len(), |i: int| col_entry(cs[i])),
        None => Seq::<(i64, Seq<char>, Option<i64>)>::empty(),
    }) by {
        match cs_spec {
            Some(cs) => assert(ev =~= Seq::new(cs.len(), |i: int| col_entry(cs[i]))),
            None => assert(ev =~= Seq::<(i64, Seq<char>, Option<i64>)>::empty()),
        }
    }
    let mut out: Vec<ParsedBookmark> = Vec::new();
    let mut i: usize = 0;
    while i < links.len()
        invariant
            i <= links@.len(),
            out@.len() == i,
            ev == entries_v(es@),
            bookmarks_v(out@) == Seq::new(i as nat, |k: int| link_bookmark(ev, links@[k].jv())),
        decreases links.len() - i,
    {
        let l = &links[i];
        let url = json_str(json_get(l, "url"));
        let name = json_str(json_get(l, "name"));
        let description = json_str(json_get(l, "description"));
        let empty: Vec<String> = Vec::new();
        assert(strs_v(empty@) =~= Seq::<Seq<char>>::empty());
        let folder_path = match json_i64(json_get_either(l, "collectionId", "collection_id")) {
            Some(cid) => match lookup_col(&es, cid) {
                Some(_) => resolve_json_path(cid, &es),
                None => empty,
            },
            None => empty,
        };
        let b = ParsedBookmark { url, name, description, folder_path };
        assert(b.bv() == link_bookmark(ev, l.jv()));
        let ghost before = bookmarks_v(out@);
        let ghost bv = b.bv();
        let ghost raw = out@;
        out.push(b);
        assert(bookmarks_v(out@)[i as int] == bv);
        assert forall|k: int| 0 <= k < i + 1 implies #[trigger] bookmarks_v(out@)[k] == link_bookmark(ev, links@[k].jv()) by {
            if k < i {
                assert(out@[k] == raw[k]);
                assert(before[k] == link_bookmark(ev, links@[k].jv()));
            }
        }
        assert(bookmarks_v(out@) =~= Seq::new((i + 1) as nat, |k: int| link_bookmark(ev, links@[k].jv())));
        i = i + 1;
    }
    Ok(out)
}

/// What the csv crate reads from `content`: the header row (or the error's
/// message), then every record (or the first error's message).
pub uninterp spec fn csv_table(content: Seq<char>) -> Result<(Seq<Seq<char>>, Result<Seq<Seq<Seq<char>>>, Seq<char>>), Seq<char>>;

pub open spec fn rows_v(rs: Seq<Vec<String>>) -> Seq<Seq<Seq<char>>> {
    Seq::new(rs.len(), |i: int| strs_v(rs[i]@))
}

pub open spec fn table_v(r: Result<(Vec<String>, Result<Vec<Vec<String>>, String>), String>) -> Result<(Seq<Seq<char>>, Result<Seq<Seq<Seq<char>>>, Seq<char>>), Seq<char>> {
    match r {
        Err(e) => Err(e@),
        Ok((h, Err(e))) => Ok((strs_v(h@), Err(e@))),
        Ok((h, Ok(rs))) => Ok((strs_v(h@), Ok(rows_v(rs@)))),
    }
}

/// csv's `Reader` over `content`: its `headers` and its `records`, as
/// strings; named `csv_table`.
#[verifier::external_body]
fn read_csv(content: &str) -> (r: Result<(Vec<String>, Result<Vec<Vec<String>>, String>), String>)
    ensures
        table_v(r) == csv_table(content@),
{
    let mut reader = csv::Reader::from_reader(content.as_bytes());
    let headers: Vec<String> = match reader.headers() {
        Ok(h) => h.iter().map(|f| f.to_string()).collect(),
        Err(e) => return Err(e.to_string()),
    };
    let records: Result<Vec<Vec<String>>, String> = reader
        .records()
        .map(|rec| rec.map(|r| r.iter().map(|f| f.to_string()).collect()).map_err(|e| e.to_string()))
        .collect();
    Ok((headers, records))
}

/// `str::eq_ignore_ascii_case`.
pub open spec fn eq_ascii_fold(a: Seq<char>, b: Seq<char>) -> bool {
    a.len() == b.len() && forall|i: int| 0 <= i < a.len() ==> ascii_lower(a[i]) == ascii_lower(b[i])
}

pub(crate) fn eq_ignore_ascii_case(a: &str, b: &str) -> (r: bool)
    ensures
        r == eq_ascii_fold(a@, b@),
{
    let x = chars_of(a);
    let y = chars_of(b);
    if x.len() != y.len() {
        return false;
    }
    let mut i: usize = 0;
    while i < x.len()
        invariant
            i <= x@.len(),
            x@.len() == y@.len(),
            x@ == a@,
            y@ == b@,
            forall|k: int| 0 <= k < i ==> ascii_lower(x@[k]) == ascii_lower(y@[k]),
        decreases x.len() - i,
    {
        if to_ascii_lower(x[i]) != to_ascii_lower(y[i]) {
            return false;
        }
        i = i + 1;
    }
    true
}

/// The index of the first header that is `a` or `b`, in any ASCII case.
pub open spec fn column_of(hs: Seq<Seq<char>>, a: Seq<char>, b: Seq<char>) -> Option<int>
    decreases hs.len(),
{
    if hs.len() == 0 {
        None
    } else if eq_ascii_fold(hs[0], a) || eq_ascii_fold(hs[0], b) {
        Some(0)
    } else {
        match column_of(hs.drop_first(), a, b) {
            Some(j) => Some(j + 1),
            None => None,
        }
    }
}

fn find_column(hs: &Vec<String>, a: &str, b: &str) -> (r: Option<usize>)
    ensures
        match r {
            Some(j) => column_of(strs_v(hs@), a@, b@) == Some(j as int),
            None => column_of(strs_v(hs@), a@, b@) is None,
        },
{
    let ghost hv = strs_v(hs@);
    let mut i: usize = 0;
    assert(hv.skip(0) =~= hv);
    while i < hs.len()
        invariant
            i <= hs@.len(),
            hv == strs_v(hs@),
            column_of(hv, a@, b@) == match column_of(hv.skip(i as int), a@, b@) {
                Some(j) => Some(j + i),
                None => None::<int>,
            },
        decreases hs.len() - i,
    {
        assert(hv.skip(i as int)[0] == hs@[i as int]@);
        assert(hv.skip(i as int).drop_first() =~= hv.skip(i + 1));
        if eq_ignore_ascii_case(hs[i].as_str(), a) || eq_ignore_ascii_case(hs[i].as_str(), b) {
            return Some(i);
        }
        i = i + 1;
    }
    None
}

/// The field at `idx` of a record, or an empty one past its end.
pub open spec fn field(rec: Seq<Seq<char>>, idx: Option<int>) -> Seq<char> {
    match idx {
        Some(i) => if 0 <= i < rec.len() { rec[i] } else { Seq::empty() },
        None => Seq::empty(),
    }
}

/// The trimmed, non-empty pieces of `s` between slashes.
pub open spec fn folder_parts(ps: Seq<Seq<char>>) -> Seq<Seq<char>>
    decreases ps.len(),
{
    if ps.len() == 0 {
        Seq::empty()
    } else {
        let rest = folder_parts(ps.drop_last());
        let t = trim(ps.last());
        if t.len() == 0 { rest } else { rest.push(t) }
    }
}

/// The bookmarks of the records `rows`, each under its folder path; records
/// with an empty URL are skipped.
pub open spec fn csv_bookmarks(rows: Seq<Seq<Seq<char>>>, url: int, name: Option<int>, desc: Option<int>, folder: Option<int>) -> Seq<BookmarkV>
    decreases rows.len(),
{
    if rows.len() == 0 {
        Seq::empty()
    } else {
        let rest = csv_bookmarks(rows.drop_last(), url, name, desc, folder);
        let r = rows.last();
        let u = field(r, Some(url));
        if u.len() == 0 {
            rest
        } else {
            rest.push(BookmarkV {
                url: u,
                name: field(r, name),
                description: field(r, desc),
                folder_path: match folder {
                    Some(f) => if 0 <= f < r.len() { folder_parts(pieces(r[f], '/')) } else { Seq::empty() },
                    None => Seq::empty(),
                },
            })
        }
    }
}

/// The bookmarks of a CSV file with a header row naming its columns: `url`
/// or `link` (required), `name` or `title`, `description` or `notes`,
/// `folder` or `collection` (a slash-separated path).
pub open spec fn spec_parse_csv(content: Seq<char>) -> Result<Seq<BookmarkV>, ErrorV> {
    match csv_table(content) {
        Err(e) => Err(ErrorV::Validation("CSV error: "@ + e)),
        Ok((hs, records)) => match column_of(hs, "url"@, "link"@) {
            None => Err(ErrorV::Validation("CSV must have a 'url' column"@)),
            Some(u) => match records {
                Err(e) => Err(ErrorV::Validation("CSV row error: "@ + e)),
                Ok(rows) => Ok(csv_bookmarks(rows, u, column_of(hs, "name"@, "title"@),
                    column_of(hs, "description"@, "notes"@), column_of(hs, "folder"@, "collection"@))),
            },
        },
    }
}

fn field_of(rec: &Vec<String>, idx: Option<usize>) -> (r: String)
    ensures
        r@ == field(strs_v(rec@), match idx { Some(i) => Some(i as int), None => None }),
{
    match idx {
        Some(i) => if i < rec.len() { rec[i].clone() } else { String::new() },
        None => String::new(),
    }
}

fn folder_path_of(s: &str) -> (r: Vec<String>)
    ensures
        strs_v(r@) == folder_parts(pieces(s@, '/')),
{
    let ps = pieces_of(s, '/');
    let ghost all = vecs_v(ps@);
    let mut out: Vec<String> = Vec::new();
    let mut i: usize = 0;
    while i < ps.len()
        invariant
            i <= ps@.len(),
            all == vecs_v(ps@),
            all == pieces(s@, '/'),
            strs_v(out@) == folder_parts(all.take(i as int)),
        decreases ps.len() - i,
    {
        let t = trimmed(string_from_chars(ps[i].as_slice()).as_str());
        assert(all.take(i + 1).drop_last() =~= all.take(i as int));
        assert(all.take(i + 1).last() == ps@[i as int]@);
        if !t.as_str().is_empty() {
            let ghost before = strs_v(out@);
            out.push(t);
            assert(strs_v(out@) =~= before.push(t@));
        }
        i = i + 1;
    }
    assert(all.take(all.len() as int) =~= all);
    out
}

/// Reads a CSV export.
pub fn parse_csv(content: &str) -> (r: AppResult<Vec<ParsedBookmark>>)
    ensures
        match spec_parse_csv(content@) {
            Ok(bs) => r matches Ok(v) && bookmarks_v(v@) == bs,
            Err(e) => r matches Err(x) && x@ == e,
        },
{
    let (headers, records) = match read_csv(content) {
        Ok(t) => t,
        Err(m) => {
            let mut msg = String::from_str("CSV error: ");
            msg.append(m.as_str());
            return Err(AppError::Validation(msg));
        },
    };
    let url_idx = match find_column(&headers, "url", "link") {
        Some(i) => i,
        None => return Err(validation("CSV must have a 'url' column")),
    };
    let name_idx = find_column(&headers, "name", "title");
    let desc_idx = find_column(&headers, "description", "notes");
    let folder_idx = find_column(&headers, "folder", "collection");
    let rows = match records {
        Ok(rows) => rows,
        Err(m) => {
            let mut msg = String::from_str("CSV row error: ");
            msg.append(m.as_str());
            return Err(AppError::Validation(msg));
        },
    };
    let ghost rv = rows_v(rows@);
    let ghost ni = match name_idx { Some(i) => Some(i as int), None => None };
    let ghost di = match desc_idx { Some(i) => Some(i as int), None => None };
    let ghost fi = match folder_idx { Some(i) => Some(i as int), None => None };
    let mut out: Vec<ParsedBookmark> = Vec::new();
    let mut i: usize = 0;
    while i < rows.len()
        invariant
            i <= rows@.len(),
            rv == rows_v(rows@),
            ni == match name_idx { Some(i) => Some(i as int), None => None::<int> },
            di == match desc_idx { Some(i) => Some(i as int), None => None::<int> },
            fi == match folder_idx { Some(i) => Some(i as int), None => None::<int> },
            bookmarks_v(out@) == csv_bookmarks(rv.take(i as int), url_idx as int, ni, di, fi),
        decreases rows.len() - i,
    {
        let rec = &rows[i];
        assert(rv.take(i + 1).drop_last() =~= rv.take(i as int));
        assert(rv.take(i + 1).last() == strs_v(rec@));
        let url = field_of(rec, Some(url_idx));
        if !url.as_str().is_empty() {
            let name = field_of(rec, name_idx);
            let description = field_of(rec, desc_idx);
            let empty: Vec<String> = Vec::new();
            assert(strs_v(empty@) =~= Seq::<Seq<char>>::empty());
            let folder_path = match folder_idx {
                Some(f) => if f < rec.len() {
                    assert(strs_v(rec@)[f as int] == rec@[f as int]@);
                    folder_path_of(rec[f].as_str())
                } else {
                    empty
                },
                None => empty,
            };
            let b = ParsedBookmark { url, name, description, folder_path };
            let ghost before = bookmarks_v(out@);
            out.push(b);
            assert(bookmarks_v(out@) =~= before.push(b.bv()));
        }
        i = i + 1;
    }
    assert(rv.take(rv.len() as int) =~= rv);
    Ok(out)
}

/// What an import would bring in: the format, the number of bookmarks, the
/// folder paths (each joined with ` / `, sorted, without repeats) and the
/// first ten bookmarks.
#[derive(Debug)]
pub struct ImportPreview {
    pub format: String,
    pub total_bookmarks: usize,
    pub total_folders: usize,
    pub folders: Vec<String>,
    pub sample: Vec<ParsedBookmark>,
}

/// What an import did.
#[derive(Debug)]
pub struct ImportResult {
    pub total: usize,
    pub success: usize,
    pub skipped: usize,
    pub failed: usize,
    pub errors: Vec<String>,
}

/// The bookmarks to import, where to, and what to do with a URL that the
/// target collection already holds: `skip`, `update` or `keep`.
#[derive(Debug)]
pub struct ImportConfirm {
    pub bookmarks: Vec<ParsedBookmark>,
    pub target_collection_id: Option<i64>,
    pub duplicate_strategy: String,
}

/// The service that imports bookmarks.
pub struct ImportService;


/// How the import of one bookmark ended.
#[derive(Debug, PartialEq, Eq, Structural, Clone, Copy)]
pub enum ImportOutcome {
    Created,
    Skipped,
    Updated,
}

/// Whether a folder path names no folder: every part of it is blank.
pub open spec fn no_folder(ps: Seq<Seq<char>>) -> bool {
    forall|i: int| 0 <= i < ps.len() ==> #[trigger] trim(ps[i]).len() == 0
}

/// Whether a bookmark goes to the fallback collection (the target, or
/// `Uncategorized`): its folder path names no folder.
pub fn uses_fallback(folder_path: &Vec<String>) -> (b: bool)
    ensures
        b == no_folder(strs_v(folder_path@)),
{
    let mut i: usize = 0;
    while i < folder_path.len()
        invariant
            i <= folder_path@.len(),
            forall|k: int| 0 <= k < i ==> #[trigger] trim(strs_v(folder_path@)[k]).len() == 0,
        decreases folder_path.len() - i,
    {
        let t = trimmed(folder_path[i].as_str());
        if !t.as_str().is_empty() {
            assert(trim(strs_v(folder_path@)[i as int]).len() != 0);
            return false;
        }
        i = i + 1;
    }
    true
}

/// The folders that a path leads through, in order: each part that is not
/// blank, trimmed, with the path of those names up to it joined by `/`.
pub open spec fn folder_steps_v(ps: Seq<Seq<char>>) -> Seq<(Seq<char>, Seq<char>)>
    decreases ps.len(),
{
    if ps.len() == 0 {
        Seq::empty()
    } else {
        let prev = folder_steps_v(ps.drop_last());
        let t = trim(ps.last());
        if t.len() == 0 {
            prev
        } else {
            prev.push((t, if prev.len() == 0 { t } else { prev.last().1 + "/"@ + t }))
        }
    }
}

pub open spec fn steps_v(v: Seq<(String, String)>) -> Seq<(Seq<char>, Seq<char>)> {
    Seq::new(v.len(), |i: int| (v[i].0@, v[i].1@))
}

/// The folders that `folder_path` leads through, each with its path, for
/// finding or creating them level by level.
pub fn folder_steps(folder_path: &Vec<String>) -> (r: Vec<(String, String)>)
    ensures
        steps_v(r@) == folder_steps_v(strs_v(folder_path@)),
{
    let ghost ps = strs_v(folder_path@);
    let mut r: Vec<(String, String)> = Vec::new();
    let mut i: usize = 0;
    assert(ps.take(0) =~= Seq::<Seq<char>>::empty());
    assert(steps_v(r@) =~= Seq::<(Seq<char>, Seq<char>)>::empty());
    while i < folder_path.len()
        invariant
            i <= folder_path@.len(),
            ps == strs_v(folder_path@),
            steps_v(r@) == folder_steps_v(ps.take(i as int)),
        decreases folder_path.len() - i,
    {
        let ghost t1 = ps.take(i + 1);
        assert(t1.drop_last() =~= ps.take(i as int));
        assert(t1.last() == folder_path@[i as int]@);
        let ghost before = steps_v(r@);
        let t = trimmed(folder_path[i].as_str());
        if !t.as_str().is_empty() {
            let path = if r.len() == 0 {
                t.clone()
            } else {
                let mut p = r[r.len() - 1].1.clone();
                p.append("/");
                p.append(t.as_str());
                p
            };
            r.push((t, path));
            assert(steps_v(r@) =~= before.push((trim(ps[i as int]), if before.len() == 0 {
                trim(ps[i as int])
            } else {
                before.last().1 + "/"@ + trim(ps[i as int])
            })));
        }
        i = i + 1;
    }
    assert(ps.take(ps.len() as int) =~= ps);
    r
}

/// The key under which a whole folder path's collection is remembered: its
/// parts, as given, joined by `/`.
pub fn folder_cache_key(folder_path: &Vec<String>) -> (r: String)
    ensures
        r@ == join_with(strs_v(folder_path@), "/"@),
{
    let ghost ps = strs_v(folder_path@);
    let mut r = String::new();
    let mut i: usize = 0;
    assert(ps.take(0) =~= Seq::<Seq<char>>::empty());
    assert(r@ =~= join_with(ps.take(0), "/"@));
    while i < folder_path.len()
        invariant
            i <= folder_path@.len(),
            ps == strs_v(folder_path@),
            r@ == join_with(ps.take(i as int), "/"@),
        decreases folder_path.len() - i,
    {
        let ghost t1 = ps.take(i + 1);
        assert(t1.drop_last() =~= ps.take(i as int));
        assert(t1.last() == folder_path@[i as int]@);
        if i > 0 {
            r.append("/");
        } else {
            assert(t1 =~= seq![t1[0]]);
        }
        r.append(folder_path[i].as_str());
        assert(r@ =~= join_with(t1, "/"@));
        i = i + 1;
    }
    assert(ps.take(ps.len() as int) =~= ps);
    r
}

/// The line an import reports for the bookmark at `index` (from 0), with
/// URL `url`, that failed with `e`.
pub open spec fn import_error_line(index: int, url: Seq<char>, e: ErrorV) -> Seq<char> {
    "bookmark #"@ + crate::text::decimal((index + 1) as nat) + " ("@ + url + "): "@ + e.text()
}

impl ImportResult {
    /// The tally of an import of `total` bookmarks before any is done.
    pub fn start(total: usize) -> (r: ImportResult)
        ensures
            r.total == total,
            r.success == 0,
            r.skipped == 0,
            r.failed == 0,
            r.errors@.len() == 0,
    {
        ImportResult { total, success: 0, skipped: 0, failed: 0, errors: Vec::new() }
    }

    /// Counts how the bookmark at `index`, with URL `url`, ended: a created
    /// or updated link is a success, a skipped one is skipped, and an error
    /// is a failure with its line.
    pub fn record(&mut self, index: usize, url: &str, outcome: &AppResult<ImportOutcome>)
        requires
            old(self).success + old(self).skipped + old(self).failed == index,
            old(self).errors@.len() == old(self).failed,
            index < usize::MAX,
        ensures
            final(self).total == old(self).total,
            final(self).success + final(self).skipped + final(self).failed == index + 1,
            final(self).errors@.len() == final(self).failed,
            match outcome {
                Ok(ImportOutcome::Skipped) => final(self).skipped == old(self).skipped + 1
                    && final(self).success == old(self).success && final(self).failed == old(self).failed
                    && final(self).errors@ == old(self).errors@,
                Ok(_) => final(self).success == old(self).success + 1
                    && final(self).skipped == old(self).skipped && final(self).failed == old(self).failed
                    && final(self).errors@ == old(self).errors@,
                Err(e) => final(self).failed == old(self).failed + 1
                    && final(self).success == old(self).success && final(self).skipped == old(self).skipped
                    && strs_v(final(self).errors@) == strs_v(old(self).errors@).push(import_error_line(index as int, url@, e@)),
            },
    {
        match outcome {
            Ok(ImportOutcome::Skipped) => {
                self.skipped = self.skipped + 1;
            },
            Ok(_) => {
                self.success = self.success + 1;
            },
            Err(e) => {
                let mut line = "bookmark #".to_owned();
                crate::text::push_decimal(&mut line, (index + 1) as u64);
                line.append(" (");
                line.append(url);
                line.append("): ");
                line.append(e.message().as_str());
                let ghost before = self.errors@;
                self.errors.push(line);
                self.failed = self.failed + 1;
                assert(strs_v(self.errors@) =~= strs_v(before).push(import_error_line(index as int, url@, e@)));
            },
        }
    }
}
/// The duplicate strategy of a confirmation that names none.
pub fn default_duplicate_strategy() -> (s: String)
    ensures
        s@ == "keep"@,
{
    String::from_str("keep")
}

/// The bookmarks that `content` holds in `format`, or why it cannot be read.
pub open spec fn spec_parse_import(format: Seq<char>, content: Seq<char>) -> Result<Seq<BookmarkV>, ErrorV> {
    if format == "html"@ || format == "netscape"@ {
        Ok(spec_parse_netscape(content))
    } else if format == "json"@ {
        spec_parse_linkwarden(content)
    } else if format == "csv"@ {
        spec_parse_csv(content)
    } else if format == "xbel"@ {
        Ok(spec_parse_xbel_lines(content))
    } else {
        Err(ErrorV::Validation("unknown format: "@ + format))
    }
}

pub open spec fn import_v(r: AppResult<Vec<ParsedBookmark>>) -> Result<Seq<BookmarkV>, ErrorV> {
    match r {
        Ok(v) => Ok(bookmarks_v(v@)),
        Err(e) => Err(e@),
    }
}

/// A bookmark's folder path as the preview shows it.
pub open spec fn shown_path(b: BookmarkV) -> Seq<char> {
    join_with(b.folder_path, " / "@)
}

/// Whether `p` is the shown path of one of `bs`, and not empty.
pub open spec fn is_folder_of(bs: Seq<BookmarkV>, p: Seq<char>) -> bool {
    p.len() > 0 && exists|i: int| 0 <= i < bs.len() && #[trigger] shown_path(bs[i]) == p
}

/// Whether `s` is in strictly increasing order.
pub open spec fn strictly_sorted(s: Seq<Seq<char>>) -> bool {
    forall|i: int, j: int| 0 <= i < j < s.len() ==> lex_lt(#[trigger] s[i], #[trigger] s[j])
}

fn join_path(parts: &Vec<String>) -> (r: String)
    ensures
        r@ == join_with(strs_v(parts@), " / "@),
{
    let ghost pv = strs_v(parts@);
    let mut out = String::new();
    let mut i: usize = 0;
    while i < parts.len()
        invariant
            i <= parts@.len(),
            pv == strs_v(parts@),
            out@ == join_with(pv.take(i as int), " / "@),
        decreases parts.len() - i,
    {
        assert(pv.take(i + 1).drop_last() =~= pv.take(i as int));
        if i > 0 {
            out.append(" / ");
        }
        out.append(parts[i].as_str());
        proof {
            if i == 0 {
                assert(pv.take(1) =~= seq![pv[0]]);
            }
        }
        i = i + 1;
    }
    assert(pv.take(pv.len() as int) =~= pv);
    out
}

/// Adds `x` to the sorted, repeat-free `v`.
fn insert_sorted(v: &mut Vec<String>, x: String)
    requires
        strictly_sorted(strs_v(old(v)@)),
    ensures
        strictly_sorted(strs_v(final(v)@)),
        forall|p: Seq<char>| strs_v(final(v)@).contains(p) <==> (strs_v(old(v)@).contains(p) || p == x@),
{
    let ghost old_v = strs_v(v@);
    let mut k: usize = 0;
    while k < v.len() && str_lt(v[k].as_str(), x.as_str())
        invariant
            k <= v@.len(),
            old_v == strs_v(v@),
            forall|j: int| 0 <= j < k ==> lex_lt(#[trigger] old_v[j], x@),
        decreases v.len() - k,
    {
        k = k + 1;
    }
    if k < v.len() && crate::text::str_eq(v[k].as_str(), x.as_str()) {
        proof {
            assert forall|p: Seq<char>| strs_v(v@).contains(p) <==> (old_v.contains(p) || p == x@) by {
                if p == x@ {
                    assert(old_v[k as int] == p);
                }
            }
        }
        return;
    }
    proof {
        if k < v@.len() {
            lemma_lex_total(old_v[k as int], x@);
        }
    }
    let ghost xv = x@;
    v.insert(k, x);
    proof {
        let nv = strs_v(v@);
        assert(nv =~= old_v.insert(k as int, xv));
        assert forall|i: int, j: int| 0 <= i < j < nv.len() implies lex_lt(#[trigger] nv[i], #[trigger] nv[j]) by {
            if j < k {
            } else if j == k {
            } else if i < k {
                assert(nv[j] == old_v[j - 1]);
                if j - 1 > k {
                    lemma_lex_transitive(xv, old_v[k as int], old_v[j - 1]);
                }
                lemma_lex_transitive(old_v[i], xv, old_v[j - 1]);
            } else if i == k {
                assert(nv[j] == old_v[j - 1]);
                if j - 1 > k {
                    lemma_lex_transitive(xv, old_v[k as int], old_v[j - 1]);
                }
            } else {
                assert(nv[i] == old_v[i - 1]);
                assert(nv[j] == old_v[j - 1]);
            }
        }
        assert forall|p: Seq<char>| nv.contains(p) <==> (old_v.contains(p) || p == xv) by {
            if nv.contains(p) {
                let q = choose|q: int| 0 <= q < nv.len() && nv[q] == p;
                if q < k {
                    assert(old_v[q] == p);
                } else if q > k {
                    assert(old_v[q - 1] == p);
                }
            }
            if old_v.contains(p) {
                let q = choose|q: int| 0 <= q < old_v.len() && old_v[q] == p;
                if q < k {
                    assert(nv[q] == p);
                } else {
                    assert(nv[q + 1] == p);
                }
            }
            if p == xv {
                assert(nv[k as int] == p);
            }
        }
    }
}

fn clone_bookmark(b: &ParsedBookmark) -> (r: ParsedBookmark)
    ensures
        r.bv() == b.bv(),
{
    ParsedBookmark {
        url: b.url.clone(),
        name: b.name.clone(),
        description: b.description.clone(),
        folder_path: clone_strings(&b.folder_path),
    }
}

impl ImportService {
    /// Reads `content` in `format`: `html` or `netscape`, `json`
    /// (Linkwarden), `csv` or `xbel`.
    pub fn parse(format: &str, content: &str) -> (r: AppResult<Vec<ParsedBookmark>>)
        ensures
            import_v(r) == spec_parse_import(format@, content@),
    {
        if str_eq(format, "html") || str_eq(format, "netscape") {
            parse_netscape_html(content)
        } else if str_eq(format, "json") {
            parse_linkwarden_json(content)
        } else if str_eq(format, "csv") {
            parse_csv(content)
        } else if str_eq(format, "xbel") {
            crate::import::parse_xbel(content)
        } else {
            let mut msg = String::from_str("unknown format: ");
            msg.append(format);
            Err(AppError::Validation(msg))
        }
    }

    /// The preview of importing `bookmarks` read in `format`.
    pub fn preview(format: &str, bookmarks: &Vec<ParsedBookmark>) -> (p: ImportPreview)
        ensures
            p.format@ == format@,
            p.total_bookmarks == bookmarks@.len(),
            p.total_folders == p.folders@.len(),
            strictly_sorted(strs_v(p.folders@)),
            forall|s: Seq<char>| strs_v(p.folders@).contains(s) <==> is_folder_of(bookmarks_v(bookmarks@), s),
            bookmarks_v(p.sample@) == bookmarks_v(bookmarks@).take(if bookmarks@.len() < 10 { bookmarks@.len() as int } else { 10 }),
    {
        let ghost bs = bookmarks_v(bookmarks@);
        let mut folders: Vec<String> = Vec::new();
        let mut i: usize = 0;
        while i < bookmarks.len()
            invariant
                i <= bookmarks@.len(),
                bs == bookmarks_v(bookmarks@),
                strictly_sorted(strs_v(folders@)),
                forall|s: Seq<char>| strs_v(folders@).contains(s) <==> is_folder_of(bs.take(i as int), s),
            decreases bookmarks.len() - i,
        {
            let path = join_path(&bookmarks[i].folder_path);
            let ghost pv = path@;
            assert(pv == shown_path(bs[i as int]));
            let ghost before = strs_v(folders@);
            if !path.as_str().is_empty() {
                insert_sorted(&mut folders, path);
            }
            proof {
                assert forall|s: Seq<char>| strs_v(folders@).contains(s) <==> is_folder_of(bs.take(i + 1), s) by {
                    if is_folder_of(bs.take(i + 1), s) {
                        let q = choose|q: int| 0 <= q < bs.take(i + 1).len() && #[trigger] shown_path(bs.take(i + 1)[q]) == s;
                        if q < i {
                            assert(bs.take(i as int)[q] == bs.take(i + 1)[q]);
                            assert(is_folder_of(bs.take(i as int), s));
                        }
                    }
                    if is_folder_of(bs.take(i as int), s) {
                        let q = choose|q: int| 0 <= q < bs.take(i as int).len() && #[trigger] shown_path(bs.take(i as int)[q]) == s;
                        assert(bs.take(i + 1)[q] == bs.take(i as int)[q]);
                    }
                    if s == pv && pv.len() > 0 {
                        assert(bs.take(i + 1)[i as int] == bs[i as int]);
                    }
                }
            }
            i = i + 1;
        }
        assert(bs.take(bs.len() as int) =~= bs);
        let n: usize = if bookmarks.len() < 10 { bookmarks.len() } else { 10 };
        let mut sample: Vec<ParsedBookmark> = Vec::new();
        let mut j: usize = 0;
        while j < n
            invariant
                j <= n,
                n <= bookmarks@.len(),
                bs == bookmarks_v(bookmarks@),
                bookmarks_v(sample@) == bs.take(j as int),
            decreases n - j,
        {
            let c = clone_bookmark(&bookmarks[j]);
            let ghost before = bookmarks_v(sample@);
            sample.push(c);
            assert(bookmarks_v(sample@) =~= before.push(c.bv()));
            j = j + 1;
            assert(bs.take(j as int) =~= bs.take(j - 1).push(bs[j - 1]));
        }
        let total_folders = folders.len();
        ImportPreview {
            format: String::from_str(format),
            total_bookmarks: bookmarks.len(),
            total_folders,
            folders,
            sample,
        }
    }
}

/// Why an imported URL is refused, if it is: trimmed it must have 1 to 8000
/// bytes, and its lower-cased form must start with `http://`, `https://` or
/// `ftp://`; any other scheme (`javascript:` among them) is refused.
pub open spec fn import_url_error(url: Seq<char>) -> Option<Seq<char>> {
    let u = trim(url);
    let l = crate::text::str_lower(u);
    if u.len() == 0 || crate::text::utf8_len(u) > 8000 {
        Some("invalid url"@)
    } else if !(crate::text::starts_with(l, "http://"@) || crate::text::starts_with(l, "https://"@)
        || crate::text::starts_with(l, "ftp://"@)) {
        Some("unsupported protocol"@)
    } else {
        None
    }
}

fn has_prefix(s: &str, p: &str) -> (b: bool)
    ensures
        b == crate::text::starts_with(s@, p@),
{
    let a = chars_of(s);
    let b = chars_of(p);
    crate::text::starts_with_exec(&a, &b)
}

/// The trimmed URL of a bookmark to import, when it is acceptable.
pub fn check_import_url(url: &str) -> (r: AppResult<String>)
    ensures
        match import_url_error(url@) {
            Some(m) => r matches Err(e) && e@ == ErrorV::Validation(m),
            None => r matches Ok(u) && u@ == trim(url@),
        },
{
    let u = trimmed(url);
    if u.as_str().is_empty() || crate::text::byte_len(u.as_str()) > 8000 {
        return Err(validation("invalid url"));
    }
    let l = crate::text::lowercase(u.as_str());
    if !(has_prefix(l.as_str(), "http://") || has_prefix(l.as_str(), "https://")
        || has_prefix(l.as_str(), "ftp://")) {
        return Err(validation("unsupported protocol"));
    }
    Ok(u)
}

/// What to do with a bookmark whose URL the target collection may already
/// hold.
#[derive(Debug, PartialEq, Eq, Structural, Clone, Copy)]
pub enum DuplicateAction {
    /// Add a new link.
    Create,
    /// Leave the existing link alone.
    Skip,
    /// Give the existing link (by id) the bookmark's name and description.
    Update(i64),
}

/// The action for a bookmark under `strategy`, where `existing` is the link
/// with the same URL in the target collection (only looked up when the
/// strategy is not `keep`).
pub fn duplicate_action(strategy: &str, existing: Option<i64>) -> (a: DuplicateAction)
    ensures
        a == if strategy@ == "keep"@ {
            DuplicateAction::Create
        } else {
            match existing {
                Some(id) => if strategy@ == "skip"@ {
                    DuplicateAction::Skip
                } else if strategy@ == "update"@ {
                    DuplicateAction::Update(id)
                } else {
                    DuplicateAction::Create
                },
                None => DuplicateAction::Create,
            }
        },
{
    if str_eq(strategy, "keep") {
        return DuplicateAction::Create;
    }
    match existing {
        Some(id) => if str_eq(strategy, "skip") {
            DuplicateAction::Skip
        } else if str_eq(strategy, "update") {
            DuplicateAction::Update(id)
        } else {
            DuplicateAction::Create
        },
        None => DuplicateAction::Create,
    }
}

} // verus!
