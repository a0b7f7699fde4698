use vstd::prelude::*;
use base64::Engine;
use rand::RngCore;
use sha2::Digest;

verus! {

/// The ASCII character of a hex digit `n < 16`, lower case.
pub open spec fn hex_char(n: int) -> char {
    if n < 10 { (48 + n) as char } else { (87 + n) as char }
}

/// Lower-case hex: two digits for each byte, high nibble first.
pub open spec fn hex_lower(b: Seq<u8>) -> Seq<char>
    decreases b.len(),
{
    if b.len() == 0 {
        Seq::empty()
    } else {
        hex_lower(b.drop_last()) + seq![hex_char(b.last() as int / 16), hex_char(b.last() as int % 16)]
    }
}

/// Whether `c` is a lower-case hex digit.
pub open spec fn hex_digit_char(c: char) -> bool {
    ('0' <= c && c <= '9') || ('a' <= c && c <= 'f')
}

/// Whether `c` is in base64's URL-safe alphabet: `A`-`Z`, `a`-`z`, `0`-`9`,
/// `-` and `_`.
pub open spec fn b64url_char(c: char) -> bool {
    ('A' <= c && c <= 'Z') || ('a' <= c && c <= 'z') || ('0' <= c && c <= '9') || c == '-' || c == '_'
}

pub proof fn lemma_hex_lower_len(b: Seq<u8>)
    ensures
        hex_lower(b).len() == 2 * b.len(),
        forall|i: int| 0 <= i < hex_lower(b).len() ==> hex_digit_char(#[trigger] hex_lower(b)[i]),
    decreases b.len(),
{
    if b.len() > 0 {
        lemma_hex_lower_len(b.drop_last());
        let h = hex_lower(b.drop_last());
        let x = b.last() as int;
        assert(0 <= x / 16 < 16 && 0 <= x % 16 < 16);
        assert forall|i: int| 0 <= i < hex_lower(b).len() implies hex_digit_char(#[trigger] hex_lower(b)[i]) by {
            if i >= h.len() {
                let n = if i == h.len() { x / 16 } else { x % 16 };
                assert(hex_lower(b)[i] == hex_char(n));
            } else {
                assert(hex_lower(b)[i] == h[i]);
            }
        }
    }
}

/// What base64's `URL_SAFE_NO_PAD` engine encodes `bytes` to.
pub uninterp spec fn b64url(bytes: Seq<u8>) -> Seq<char>;

/// The SHA-256 digest of `input`, as sha2's `Sha256` computes it.
pub uninterp spec fn sha256_digest(input: Seq<u8>) -> Seq<u8>;

/// The stored form of a secret token: the lower-case hex of the SHA-256 of
/// its UTF-8 bytes.
pub open spec fn token_hash(t: Seq<char>) -> Seq<char> {
    hex_lower(sha256_digest(vstd::utf8::encode_utf8(t)))
}

/// `n` bytes from rand's `thread_rng`. Nothing is said of their values,
/// which are random.
#[verifier::external_body]
pub(crate) fn random_bytes(n: usize) -> (buf: Vec<u8>)
    ensures
        buf@.len() == n,
{
    let mut buf = vec![0u8; n];
    rand::thread_rng().fill_bytes(&mut buf);
    buf
}

/// base64's `URL_SAFE_NO_PAD.encode`: the result is named `b64url`; without
/// padding, every 3 bytes give 4 characters and a rest of 1 or 2 bytes gives
/// 2 or 3, each from the URL-safe alphabet.
#[verifier::external_body]
fn b64url_encode(bytes: &[u8]) -> (s: String)
    ensures
        s@ == b64url(bytes@),
        s@.len() == (4 * bytes@.len() + 2) / 3,
        forall|i: int| 0 <= i < s@.len() ==> b64url_char(#[trigger] s@[i]),
{
    base64::engine::general_purpose::URL_SAFE_NO_PAD.encode(bytes)
}

/// sha2's `Sha256` over `input`: the 32-byte digest, named `sha256_digest`.
#[verifier::external_body]
fn sha256(input: &[u8]) -> (d: Vec<u8>)
    ensures
        d@ == sha256_digest(input@),
        d@.len() == 32,
{
    let mut hasher = sha2::Sha256::new();
    hasher.update(input);
    hasher.finalize().to_vec()
}

/// hex's `encode`: two lower-case hex digits for each byte.
#[verifier::external_body]
fn hex_encode(bytes: &[u8]) -> (s: String)
    ensures
        s@ == hex_lower(bytes@),
{
    hex::encode(bytes)
}

/// A random hex string of `n_bytes` bytes.
pub fn random_hex(n_bytes: usize) -> (s: String)
    ensures
        exists|b: Seq<u8>| b.len() == n_bytes && s@ == hex_lower(b),
        s@.len() == 2 * n_bytes,
        forall|i: int| 0 <= i < s@.len() ==> hex_digit_char(#[trigger] s@[i]),
{
    let buf = random_bytes(n_bytes);
    let s = hex_encode(buf.as_slice());
    proof {
        lemma_hex_lower_len(buf@);
    }
    s
}

/// A random URL-safe base64 string of `n_bytes` bytes of entropy.
pub fn random_b64url(n_bytes: usize) -> (s: String)
    requires
        n_bytes <= usize::MAX / 4,
    ensures
        exists|b: Seq<u8>| b.len() == n_bytes && s@ == b64url(b),
        s@.len() == (4 * n_bytes + 2) / 3,
        forall|i: int| 0 <= i < s@.len() ==> b64url_char(#[trigger] s@[i]),
{
    let buf = random_bytes(n_bytes);
    b64url_encode(buf.as_slice())
}

/// The SHA-256 hex digest of `input`.
pub fn sha256_hex(input: &[u8]) -> (s: String)
    ensures
        s@ == hex_lower(sha256_digest(input@)),
        s@.len() == 64,
        forall|i: int| 0 <= i < s@.len() ==> hex_digit_char(#[trigger] s@[i]),
{
    let d = sha256(input);
    let s = hex_encode(d.as_slice());
    proof {
        lemma_hex_lower_len(d@);
    }
    s
}

/// An access token `lw_<prefix>_<secret>`, with its prefix and its stored hash.
pub fn generate_access_token() -> (r: (String, String, String))
    ensures
        exists|p: Seq<u8>, q: Seq<u8>|
            p.len() == 6 && q.len() == 24 && r.1@ == b64url(p)
                && r.0@ == "lw_"@ + b64url(p) + "_"@ + b64url(q),
        r.2@ == token_hash(r.0@),
        r.1@.len() == 8,
        r.0@.len() == 44,
        forall|i: int| 0 <= i < 8 ==> b64url_char(#[trigger] r.1@[i]),
        forall|i: int| 12 <= i < 44 ==> b64url_char(#[trigger] r.0@[i]),
        r.2@.len() == 64,
        forall|i: int| 0 <= i < 64 ==> hex_digit_char(#[trigger] r.2@[i]),
{
    let prefix = random_b64url(6);
    let secret = random_b64url(24);
    let mut full = String::from_str("lw_");
    full.append(prefix.as_str());
    full.append("_");
    full.append(secret.as_str());
    let hash = sha256_hex(full.as_str().as_bytes());
    proof {
        reveal_strlit("lw_");
        reveal_strlit("_");
        let p = choose|p: Seq<u8>| p.len() == 6 && prefix@ == b64url(p);
        let q = choose|q: Seq<u8>| q.len() == 24 && secret@ == b64url(q);
        assert(full@ == "lw_"@ + b64url(p) + "_"@ + b64url(q));
        assert forall|i: int| 12 <= i < 44 implies b64url_char(#[trigger] full@[i]) by {
            assert(full@[i] == secret@[i - 12]);
        }
    }
    (full, prefix, hash)
}

/// A fresh session token: 32 random bytes, URL-safe base64.
pub fn generate_session_token() -> (s: String)
    ensures
        exists|b: Seq<u8>| b.len() == 32 && s@ == b64url(b),
        s@.len() == 43,
        forall|i: int| 0 <= i < 43 ==> b64url_char(#[trigger] s@[i]),
{
    random_b64url(32)
}

/// The stored hash of a session token.
pub fn hash_session_token(token: &str) -> (h: String)
    ensures
        h@ == token_hash(token@),
        h@.len() == 64,
        forall|i: int| 0 <= i < 64 ==> hex_digit_char(#[trigger] h@[i]),
{
    sha256_hex(token.as_bytes())
}

} // verus!
