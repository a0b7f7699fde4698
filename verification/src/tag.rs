//! Tags: their names and the normalized form under which they are unique.
use vstd::prelude::*;
use crate::error::{AppError, AppResult, ErrorV, validation};
use crate::text::{byte_len, lowercase, str_lower, trim, trimmed, utf8_len};

verus! {

/// A new tag.
#[derive(Debug)]
pub struct CreateTagInput {
    pub name: String,
}

/// A tag's new name.
#[derive(Debug)]
pub struct UpdateTagInput {
    pub name: String,
}

/// The service that keeps a user's tags.
pub struct TagService;

/// The form under which tag names are compared: trimmed and lower-cased.
pub open spec fn normalized(s: Seq<char>) -> Seq<char> {
    str_lower(trim(s))
}

/// The normalized form of a tag name.
pub fn normalize(s: &str) -> (r: String)
    ensures
        r@ == normalized(s@),
{
    let t = trimmed(s);
    lowercase(t.as_str())
}

/// The name a tag is stored under (trimmed) and its normalized form, when
/// the trimmed name has 1 to 100 bytes.
pub fn tag_name(name: &str) -> (r: AppResult<(String, String)>)
    ensures
        ({
            let t = trim(name@);
            if t.len() == 0 || utf8_len(t) > 100 {
                r matches Err(e) && e@ == ErrorV::Validation("tag name length invalid"@)
            } else {
                r matches Ok((n, k)) && n@ == t && k@ == normalized(name@)
            }
        }),
{
    let t = trimmed(name);
    if t.as_str().is_empty() || byte_len(t.as_str()) > 100 {
        return Err(validation("tag name length invalid"));
    }
    let k = lowercase(t.as_str());
    Ok((t, k))
}

/// The names of `tags` that a node or link gets, trimmed, without the blank
/// ones, in order.
pub open spec fn kept_tags(tags: Seq<Seq<char>>) -> Seq<Seq<char>>
    decreases tags.len(),
{
    if tags.len() == 0 {
        Seq::empty()
    } else {
        let rest = kept_tags(tags.drop_last());
        let t = trim(tags.last());
        if t.len() == 0 { rest } else { rest.push(t) }
    }
}

/// The trimmed, non-blank tag names of `tags`, in order.
pub fn tag_names(tags: &Vec<String>) -> (r: Vec<String>)
    ensures
        crate::text::strs_v(r@) == kept_tags(crate::text::strs_v(tags@)),
{
    let ghost all = crate::text::strs_v(tags@);
    let mut out: Vec<String> = Vec::new();
    let mut i: usize = 0;
    while i < tags.len()
        invariant
            i <= tags@.len(),
            all == crate::text::strs_v(tags@),
            crate::text::strs_v(out@) == kept_tags(all.take(i as int)),
        decreases tags.len() - i,
    {
        let t = trimmed(tags[i].as_str());
        assert(all.take(i + 1).drop_last() =~= all.take(i as int));
        assert(all.take(i + 1).last() == tags@[i as int]@);
        if !t.as_str().is_empty() {
            let ghost before = crate::text::strs_v(out@);
            out.push(t);
            assert(crate::text::strs_v(out@) =~= before.push(t@));
        }
        i = i + 1;
    }
    assert(all.take(tags@.len() as int) =~= all);
    out
}

} // verus!
