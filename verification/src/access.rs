//! Access tokens of sync clients: their names and scopes.
use vstd::prelude::*;
use crate::auth::{read_scope, write_scope};
use crate::error::{AppError, AppResult, ErrorV, validation};
use crate::split::{chars_eq, words, words_of};
use crate::text::{byte_len, chars_of, trim, trimmed, utf8_len, vecs_v};

verus! {

/// A new access token.
#[derive(Debug)]
pub struct CreateTokenRequest {
    pub name: String,
    pub scopes: Option<String>,
    pub expires_at: Option<String>,
}

/// The service that keeps a user's access tokens.
pub struct TokenService;

/// Requested scopes that are acceptable: at least one, each of them
/// `bookmarks:read` or `bookmarks:write`, and the read scope among them.
pub open spec fn scopes_ok(ws: Seq<Seq<char>>) -> bool {
    &&& ws.len() > 0
    &&& forall|i: int| 0 <= i < ws.len() ==> #[trigger] ws[i] == read_scope() || ws[i] == write_scope()
    &&& ws.contains(read_scope())
}

/// The scopes stored for a token that may read and write.
pub open spec fn both_scopes() -> Seq<char> {
    "bookmarks:read bookmarks:write"@
}

/// The scopes a new token gets: read and write when none are asked for;
/// else the asked ones, which must be acceptable, as read only or read and
/// write.
pub fn normalize_scopes(requested: Option<&str>) -> (r: AppResult<String>)
    ensures
        match requested {
            None => r matches Ok(s) && s@ == both_scopes(),
            Some(q) => if scopes_ok(words(q@)) {
                r matches Ok(s) && s@ == if words(q@).contains(write_scope()) { both_scopes() } else { read_scope() }
            } else {
                r matches Err(e) && e@ == ErrorV::Validation("invalid token scopes"@)
            },
        },
{
    let q = match requested {
        None => return Ok(String::from_str("bookmarks:read bookmarks:write")),
        Some(q) => q,
    };
    let ws = words_of(q);
    let read = chars_of("bookmarks:read");
    let write = chars_of("bookmarks:write");
    let mut has_read = false;
    let mut has_write = false;
    let mut i: usize = 0;
    while i < ws.len()
        invariant
            i <= ws@.len(),
            requested == Some(q),
            vecs_v(ws@) == words(q@),
            read@ == read_scope(),
            write@ == write_scope(),
            forall|j: int| 0 <= j < i ==> #[trigger] vecs_v(ws@)[j] == read_scope() || vecs_v(ws@)[j] == write_scope(),
            has_read == vecs_v(ws@).take(i as int).contains(read_scope()),
            has_write == vecs_v(ws@).take(i as int).contains(write_scope()),
        decreases ws.len() - i,
    {
        let ghost before = vecs_v(ws@).take(i as int);
        assert(vecs_v(ws@).take(i + 1) =~= before.push(vecs_v(ws@)[i as int]));
        let is_read = chars_eq(&ws[i], &read);
        let is_write = chars_eq(&ws[i], &write);
        if !is_read && !is_write {
            assert(vecs_v(ws@)[i as int] == ws@[i as int]@);
            assert(!(vecs_v(ws@)[i as int] == read_scope() || vecs_v(ws@)[i as int] == write_scope()));
            return Err(validation("invalid token scopes"));
        }
        if is_read {
            has_read = true;
        }
        if is_write {
            has_write = true;
        }
        proof {
            lemma_take_contains(vecs_v(ws@), i as int, read_scope());
            lemma_take_contains(vecs_v(ws@), i as int, write_scope());
        }
        i = i + 1;
    }
    assert(vecs_v(ws@).take(ws@.len() as int) =~= vecs_v(ws@));
    if ws.len() == 0 || !has_read {
        return Err(validation("invalid token scopes"));
    }
    if has_write {
        Ok(String::from_str("bookmarks:read bookmarks:write"))
    } else {
        Ok(String::from_str("bookmarks:read"))
    }
}

proof fn lemma_take_contains<A>(s: Seq<A>, i: int, x: A)
    requires
        0 <= i < s.len(),
    ensures
        s.take(i + 1).contains(x) == (s.take(i).contains(x) || s[i] == x),
{
    let after = s.take(i + 1);
    let before = s.take(i);
    if after.contains(x) {
        let k = choose|k: int| 0 <= k < after.len() && after[k] == x;
        if k < i {
            assert(before[k] == x);
        }
    }
    if before.contains(x) {
        let k = choose|k: int| 0 <= k < before.len() && before[k] == x;
        assert(after[k] == x);
    }
    if s[i] == x {
        assert(after[i] == x);
    }
}

/// The name a new token is stored under: trimmed, 1 to 100 bytes.
pub fn token_name(name: &str) -> (r: AppResult<String>)
    ensures
        ({
            let t = trim(name@);
            if t.len() == 0 || utf8_len(t) > 100 {
                r matches Err(e) && e@ == ErrorV::Validation("token name length invalid"@)
            } else {
                r matches Ok(n) && n@ == t
            }
        }),
{
    let t = trimmed(name);
    if t.as_str().is_empty() || byte_len(t.as_str()) > 100 {
        return Err(validation("token name length invalid"));
    }
    Ok(t)
}

} // verus!
