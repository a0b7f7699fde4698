//! Server settings, from the values of the `DOCK_*` environment variables.
use vstd::prelude::*;
use crate::import_service::{eq_ascii_fold, eq_ignore_ascii_case};
use crate::split::{pieces, pieces_of};
use crate::text::{chars_of, string_from_chars, trim, trimmed, vecs_v, strs_v};
use crate::webdav::{hex_value, trim_end_char};

verus! {

/// Settings of a running server.
#[derive(Clone, Debug)]
pub struct Config {
    pub database_url: String,
    pub data_dir: String,
    pub listen_addr: String,
    pub session_secret: [u8; 32],
    pub session_ttl_hours: i64,
    pub cookie_secure: bool,
    pub setup_token: Option<String>,
    pub webauthn_rp_id: String,
    pub webauthn_rp_origin: String,
    pub webauthn_rp_name: String,
    pub public_url: String,
    pub cors_origins: Vec<String>,
    pub max_upload_mb: usize,
    pub default_page_size: usize,
    pub max_page_size: usize,
}

/// The `DOCK_*` environment variables a `Config` is made from, each `None`
/// where it is unset.
#[derive(Clone, Debug)]
pub struct ConfigVars {
    pub data_dir: Option<String>,
    pub database_url: Option<String>,
    pub listen: Option<String>,
    pub session_secret: Option<String>,
    pub cookie_secure: Option<String>,
    pub setup_token: Option<String>,
    pub cors_origins: Option<String>,
    pub webauthn_rp_id: Option<String>,
    pub webauthn_origin: Option<String>,
    pub webauthn_rp_name: Option<String>,
    pub public_url: Option<String>,
}

/// The value of a variable, or `d` where it is unset.
pub open spec fn or_default(o: Option<String>, d: Seq<char>) -> Seq<char> {
    match o {
        Some(v) => v@,
        None => d,
    }
}

/// The value of a hex digit written as a character.
pub open spec fn hex_char_value(c: char) -> Option<u8> {
    if (c as u32) < 128 { hex_value(c as u8) } else { None }
}

/// What hex's `decode` gives for `s`: the bytes of its pairs of digits
/// (either case), or `None` for an odd length or a character that is no hex
/// digit.
pub open spec fn hex_decoded(s: Seq<char>) -> Option<Seq<u8>> {
    if s.len() % 2 == 0 && forall|i: int| 0 <= i < s.len() ==> #[trigger] hex_char_value(s[i]) is Some {
        Some(Seq::new((s.len() / 2) as nat, |i: int|
            (hex_char_value(s[2 * i])->Some_0 * 16 + hex_char_value(s[2 * i + 1])->Some_0) as u8))
    } else {
        None
    }
}

/// hex's `decode`, with its error left out.
#[verifier::external_body]
fn hex_decode(s: &str) -> (r: Option<Vec<u8>>)
    ensures
        match r {
            Some(b) => hex_decoded(s@) == Some(b@),
            None => hex_decoded(s@) is None,
        },
{
    hex::decode(s).ok()
}

/// What `Path::new(dir).join(file).display()` writes.
pub uninterp spec fn path_joined(dir: Seq<char>, file: Seq<char>) -> Seq<char>;

/// std's `Path::join` of `file` onto `dir`, displayed; named `path_joined`.
/// As `PathBuf::push` documents, an absolute `file` replaces `dir`, and a
/// relative one is added after a separator (`/tmp` and `file.bk` give
/// `/tmp/file.bk`); the display of a path made from a `str` is that text.
/// What an empty `dir`, or one that ends in `/`, gives is left to the name.
#[verifier::external_body]
fn join_path(dir: &str, file: &str) -> (r: String)
    ensures
        r@ == path_joined(dir@, file@),
        file@.len() > 0 && file@[0] == '/' ==> r@ == file@,
        file@.len() > 0 && file@[0] != '/' && dir@.len() > 0 && dir@.last() != '/' ==> r@ == dir@ + "/"@ + file@,
{
    std::path::Path::new(dir).join(file).display().to_string()
}

/// The 32-byte session secret that `v` spells in hex, else `fallback`.
pub open spec fn secret_of(v: Option<String>, fallback: Seq<u8>) -> Seq<u8> {
    match v {
        Some(s) => match hex_decoded(s@) {
            Some(b) => if b.len() == 32 { b } else { fallback },
            None => fallback,
        },
        None => fallback,
    }
}

/// Whether cookies get `Secure`: as `DOCK_COOKIE_SECURE` says (anything but
/// `0` and `false` in any case), and `true` where it is unset.
pub open spec fn cookie_secure_of(v: Option<String>) -> bool {
    match v {
        Some(s) => s@ != "0"@ && !eq_ascii_fold(s@, "false"@),
        None => true,
    }
}

/// The setup token: the variable trimmed, where that leaves something.
pub open spec fn setup_token_of(v: Option<String>) -> Option<Seq<char>> {
    match v {
        Some(s) => if trim(s@).len() > 0 { Some(trim(s@)) } else { None },
        None => None,
    }
}

/// The non-empty comma-separated pieces of `ps`, each trimmed.
pub open spec fn origins_of(ps: Seq<Seq<char>>) -> Seq<Seq<char>>
    decreases ps.len(),
{
    if ps.len() == 0 {
        Seq::empty()
    } else {
        origins_of(ps.drop_last()) + (if ps.last().len() > 0 { seq![trim(ps.last())] } else { Seq::empty() })
    }
}

pub open spec fn default_origin() -> Seq<char> {
    "http://localhost:3000"@
}

/// The database URL where none is set: a SQLite file in the data directory
/// (`<dir>/linkdock.sqlite3` for a directory that is not empty and does not
/// end in `/`).
pub open spec fn default_database_url(dir: Seq<char>) -> Seq<char> {
    "sqlite://"@ + (if dir.len() > 0 && dir.last() != '/' {
        dir + "/"@ + "linkdock.sqlite3"@
    } else {
        path_joined(dir, "linkdock.sqlite3"@)
    }) + "?mode=rwc"@
}

/// `Config` made from `vars` with `fallback` as the session secret where
/// none valid is set.
pub open spec fn config_matches(c: Config, vars: ConfigVars, fallback: Seq<u8>) -> bool {
    let dir = or_default(vars.data_dir, "data"@);
    let origin = or_default(vars.webauthn_origin, default_origin());
    &&& c.data_dir@ == dir
    &&& c.database_url@ == or_default(vars.database_url, default_database_url(dir))
    &&& c.listen_addr@ == or_default(vars.listen, "0.0.0.0:3000"@)
    &&& c.session_secret@ == secret_of(vars.session_secret, fallback)
    &&& c.session_ttl_hours == 720
    &&& c.cookie_secure == cookie_secure_of(vars.cookie_secure)
    &&& match c.setup_token {
        Some(t) => setup_token_of(vars.setup_token) == Some(t@),
        None => setup_token_of(vars.setup_token) is None,
    }
    &&& c.webauthn_rp_id@ == or_default(vars.webauthn_rp_id, "localhost"@)
    &&& c.webauthn_rp_origin@ == origin
    &&& c.webauthn_rp_name@ == or_default(vars.webauthn_rp_name, "Linkdock"@)
    &&& c.public_url@ == trim_end_char(or_default(vars.public_url, origin), '/')
    &&& strs_v(c.cors_origins@) == origins_of(pieces(or_default(vars.cors_origins, Seq::empty()), ','))
    &&& c.max_upload_mb == 50
    &&& c.default_page_size == 50
    &&& c.max_page_size == 500
}

fn value_or(o: &Option<String>, d: &str) -> (r: String)
    ensures
        r@ == or_default(*o, d@),
{
    match o {
        Some(v) => v.clone(),
        None => d.to_owned(),
    }
}

fn secret_from(v: &Option<String>, fallback: [u8; 32]) -> (r: [u8; 32])
    ensures
        r@ == secret_of(*v, fallback@),
{
    let s = match v {
        Some(s) => s,
        None => {
            return fallback;
        },
    };
    let b = match hex_decode(s.as_str()) {
        Some(b) => b,
        None => {
            return fallback;
        },
    };
    if b.len() != 32 {
        return fallback;
    }
    let mut arr = fallback;
    let mut i: usize = 0;
    while i < 32
        invariant
            i <= 32,
            b@.len() == 32,
            arr@.len() == 32,
            forall|k: int| 0 <= k < i ==> arr@[k] == b@[k],
        decreases 32 - i,
    {
        arr.set(i, b[i]);
        i = i + 1;
    }
    assert(arr@ =~= b@);
    arr
}

fn cookie_secure_from(v: &Option<String>) -> (r: bool)
    ensures
        r == cookie_secure_of(*v),
{
    match v {
        Some(s) => !crate::text::str_eq(s.as_str(), "0") && !eq_ignore_ascii_case(s.as_str(), "false"),
        None => true,
    }
}

fn origins_from(v: &Option<String>) -> (r: Vec<String>)
    ensures
        strs_v(r@) == origins_of(pieces(or_default(*v, Seq::empty()), ',')),
{
    proof {
        reveal_strlit("");
    }
    assert(""@ =~= Seq::<char>::empty());
    let all = value_or(v, "");
    let ps = pieces_of(all.as_str(), ',');
    let ghost pv = vecs_v(ps@);
    let mut r: Vec<String> = Vec::new();
    let mut i: usize = 0;
    assert(pv.take(0) =~= Seq::<Seq<char>>::empty());
    assert(strs_v(r@) =~= Seq::<Seq<char>>::empty());
    while i < ps.len()
        invariant
            i <= ps@.len(),
            pv == vecs_v(ps@),
            strs_v(r@) == origins_of(pv.take(i as int)),
        decreases ps.len() - i,
    {
        let ghost t1 = pv.take(i + 1);
        assert(t1.drop_last() =~= pv.take(i as int));
        assert(t1.last() == ps@[i as int]@);
        let ghost before = strs_v(r@);
        if ps[i].len() > 0 {
            let piece = string_from_chars(ps[i].as_slice());
            r.push(trimmed(piece.as_str()));
            assert(strs_v(r@) =~= before + seq![trim(ps@[i as int]@)]);
        } else {
            assert(strs_v(r@) =~= before + Seq::<Seq<char>>::empty());
        }
        i = i + 1;
    }
    assert(pv.take(pv.len() as int) =~= pv);
    r
}

fn trim_trailing_slashes(s: &str) -> (r: String)
    ensures
        r@ == trim_end_char(s@, '/'),
{
    let cs = chars_of(s);
    let mut n = cs.len();
    assert(cs@.take(n as int) =~= cs@);
    while n > 0 && cs[n - 1] == '/'
        invariant
            n <= cs@.len(),
            cs@ == s@,
            trim_end_char(s@, '/') == trim_end_char(cs@.take(n as int), '/'),
        decreases n,
    {
        assert(cs@.take(n as int).drop_last() =~= cs@.take(n - 1));
        n = n - 1;
    }
    assert(cs@.take(n as int) =~= cs@.subrange(0, n as int));
    crate::text::string_of(&cs, 0, n)
}

/// 32 random bytes.
fn random_secret() -> (r: [u8; 32])
    ensures
        r@.len() == 32,
{
    let b = crate::token::random_bytes(32);
    let mut arr = [0u8; 32];
    let mut i: usize = 0;
    while i < 32
        invariant
            i <= 32,
            b@.len() == 32,
            arr@.len() == 32,
        decreases 32 - i,
    {
        arr.set(i, b[i]);
        i = i + 1;
    }
    arr
}

impl Config {
    /// The settings that `vars` give, with `fallback` as the session secret
    /// where `DOCK_SESSION_SECRET` is unset or is not 32 bytes in hex.
    pub fn with_secret(vars: &ConfigVars, fallback: [u8; 32]) -> (c: Config)
        ensures
            config_matches(c, *vars, fallback@),
    {
        let data_dir = value_or(&vars.data_dir, "data");
        let database_url = match &vars.database_url {
            Some(u) => u.clone(),
            None => {
                let mut u = "sqlite://".to_owned();
                proof {
                    reveal_strlit("linkdock.sqlite3");
                }
                let p = join_path(data_dir.as_str(), "linkdock.sqlite3");
                u.append(p.as_str());
                u.append("?mode=rwc");
                u
            },
        };
        let origin = value_or(&vars.webauthn_origin, "http://localhost:3000");
        let public = value_or(&vars.public_url, origin.as_str());
        let setup_token = match &vars.setup_token {
            Some(t) => {
                let v = trimmed(t.as_str());
                if v.as_str().is_empty() { None } else { Some(v) }
            },
            None => None,
        };
        Config {
            database_url,
            data_dir,
            listen_addr: value_or(&vars.listen, "0.0.0.0:3000"),
            session_secret: secret_from(&vars.session_secret, fallback),
            session_ttl_hours: 24 * 30,
            cookie_secure: cookie_secure_from(&vars.cookie_secure),
            setup_token,
            webauthn_rp_id: value_or(&vars.webauthn_rp_id, "localhost"),
            webauthn_rp_origin: origin,
            webauthn_rp_name: value_or(&vars.webauthn_rp_name, "Linkdock"),
            public_url: trim_trailing_slashes(public.as_str()),
            cors_origins: origins_from(&vars.cors_origins),
            max_upload_mb: 50,
            default_page_size: 50,
            max_page_size: 500,
        }
    }

    /// The settings that `vars` give, with a random session secret where
    /// `DOCK_SESSION_SECRET` is unset or is not 32 bytes in hex.
    pub fn from_vars(vars: &ConfigVars) -> (c: Config)
        ensures
            exists|fallback: Seq<u8>| fallback.len() == 32 && config_matches(c, *vars, fallback),
    {
        let fallback = random_secret();
        Self::with_secret(vars, fallback)
    }
}

} // verus!
