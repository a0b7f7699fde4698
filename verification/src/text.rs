use vstd::prelude::*;

verus! {

broadcast use vstd::string::group_string_axioms;

/// The characters of `s`, in order.
pub fn chars_of(s: &str) -> (out: Vec<char>)
    ensures
        out@ == s@,
{
    let mut out: Vec<char> = Vec::new();
    for c in it: s.chars()
        invariant
            out@ == it.seq().take(it.index()),
    {
        out.push(c);
    }
    out
}


/// Length in bytes of the UTF-8 encoding of `s`.
pub open spec fn utf8_len(s: Seq<char>) -> nat {
    vstd::utf8::encode_utf8(s).len()
}

/// `str::len`: the length of `s` in bytes, which, for a string held in
/// memory, is exactly the length of its UTF-8 encoding.
#[verifier::external_body]
pub fn byte_len(s: &str) -> (n: usize)
    ensures
        n as nat == utf8_len(s@),
{
    s.len()
}


/// `String::from_utf8`: the text of `bytes` when they are valid UTF-8.
#[verifier::external_body]
pub(crate) fn string_from_utf8(bytes: Vec<u8>) -> (r: Option<String>)
    ensures
        match r {
            Some(t) => vstd::utf8::valid_utf8(bytes@) && t@ == vstd::utf8::decode_utf8(bytes@),
            None => !vstd::utf8::valid_utf8(bytes@),
        },
{
    String::from_utf8(bytes).ok()
}

/// `String::push`: appends one character.
#[verifier::external_body]
pub fn push_char(s: &mut String, c: char)
    ensures
        final(s)@ == old(s)@.push(c),
{
    s.push(c)
}

/// `String::from_iter` over characters.
#[verifier::external_body]
pub fn string_from_chars(cs: &[char]) -> (s: String)
    ensures
        s@ == cs@,
{
    cs.iter().collect()
}

/// Whether two strings hold the same characters.
pub fn str_eq(a: &str, b: &str) -> (r: bool)
    ensures
        r == (a@ == b@),
{
    let x = chars_of(a);
    let y = chars_of(b);
    if x.len() != y.len() {
        return false;
    }
    let mut i: usize = 0;
    while i < x.len()
        invariant
            x@ == a@,
            y@ == b@,
            x@.len() == y@.len(),
            i <= x@.len(),
            forall|j: int| 0 <= j < i ==> x@[j] == y@[j],
        decreases x.len() - i,
    {
        if x[i] != y[i] {
            return false;
        }
        i = i + 1;
    }
    assert(x@ =~= y@);
    true
}

/// `n` spaces.
pub open spec fn spaces(n: nat) -> Seq<char> {
    Seq::new(n, |i: int| ' ')
}

/// The ASCII digit for `d`.
pub open spec fn digit_char(d: nat) -> char {
    (48 + d) as char
}

/// The decimal digits of `n`, without leading zeros.
pub open spec fn decimal(n: nat) -> Seq<char>
    decreases n,
{
    if n < 10 {
        seq![digit_char(n)]
    } else {
        decimal(n / 10).push(digit_char(n % 10))
    }
}

/// The decimal form of `n`, with a leading `-` when negative.
pub open spec fn int_decimal(n: int) -> Seq<char> {
    if n < 0 {
        seq!['-'] + decimal((-n) as nat)
    } else {
        decimal(n as nat)
    }
}

/// Appends the decimal digits of `n`.
pub fn push_decimal(s: &mut String, n: u64)
    ensures
        final(s)@ == old(s)@ + decimal(n as nat),
    decreases n,
{
    if n >= 10 {
        push_decimal(s, n / 10);
    }
    let d = (n % 10) as u8;
    let c = (48u8 + d) as char;
    push_char(s, c);
}

/// Appends the decimal form of `n`, as `Display` writes it.
pub fn push_i64(s: &mut String, n: i64)
    ensures
        final(s)@ == old(s)@ + int_decimal(n as int),
{
    if n < 0 {
        push_char(s, '-');
        let m: u64 = (0i128 - n as i128) as u64;
        push_decimal(s, m);
        assert(final(s)@ =~= old(s)@ + int_decimal(n as int));
    } else {
        push_decimal(s, n as u64);
    }
}


/// The characters that an escaping replaces.
#[derive(PartialEq, Eq, Structural, Clone, Copy)]
pub enum Escape {
    /// `&`, `<` and `>`, as in XML text.
    Text,
    /// `&`, `<`, `>`, `"` and `'`, as in XML attribute values.
    Attr,
    /// `&`, `<`, `>` and `"`, as in HTML.
    Html,
}

/// The escaped form of one character.
pub open spec fn escape_char(mode: Escape, c: char) -> Seq<char> {
    if c == '&' {
        "&amp;"@
    } else if c == '<' {
        "&lt;"@
    } else if c == '>' {
        "&gt;"@
    } else if c == '"' && mode != Escape::Text {
        "&quot;"@
    } else if c == '\'' && mode == Escape::Attr {
        "&apos;"@
    } else {
        seq![c]
    }
}

/// `s` with each character replaced by its escaped form.
pub open spec fn escaped(mode: Escape, s: Seq<char>) -> Seq<char>
    decreases s.len(),
{
    if s.len() == 0 {
        Seq::empty()
    } else {
        escaped(mode, s.drop_last()) + escape_char(mode, s.last())
    }
}

pub proof fn lemma_escaped_nonempty(mode: Escape, s: Seq<char>)
    ensures
        s.len() > 0 ==> escaped(mode, s).len() > 0,
        s.len() == 0 ==> escaped(mode, s) == Seq::<char>::empty(),
{
    if s.len() > 0 {
        reveal_strlit("&amp;");
        reveal_strlit("&lt;");
        reveal_strlit("&gt;");
        reveal_strlit("&quot;");
        reveal_strlit("&apos;");
        assert(escape_char(mode, s.last()).len() > 0);
    }
}

/// Escaping a concatenation escapes each part.
pub proof fn lemma_escaped_concat(mode: Escape, a: Seq<char>, b: Seq<char>)
    ensures
        escaped(mode, a + b) == escaped(mode, a) + escaped(mode, b),
    decreases b.len(),
{
    if b.len() == 0 {
        assert(a + b =~= a);
    } else {
        assert((a + b).drop_last() =~= a + b.drop_last());
        assert((a + b).last() == b.last());
        lemma_escaped_concat(mode, a, b.drop_last());
    }
}

/// XML's reading of text: the predefined entities `&amp;`, `&lt;`, `&gt;`,
/// `&quot;` and `&apos;` stand for `&`, `<`, `>`, `"` and `'`; every other
/// character stands for itself.
pub open spec fn xml_decoded(s: Seq<char>) -> Seq<char>
    decreases s.len(),
{
    if s.len() == 0 {
        Seq::empty()
    } else if starts_with(s, seq!['&', 'a', 'm', 'p', ';']) {
        seq!['&'] + xml_decoded(s.skip(5))
    } else if starts_with(s, seq!['&', 'l', 't', ';']) {
        seq!['<'] + xml_decoded(s.skip(4))
    } else if starts_with(s, seq!['&', 'g', 't', ';']) {
        seq!['>'] + xml_decoded(s.skip(4))
    } else if starts_with(s, seq!['&', 'q', 'u', 'o', 't', ';']) {
        seq!['"'] + xml_decoded(s.skip(6))
    } else if starts_with(s, seq!['&', 'a', 'p', 'o', 's', ';']) {
        seq!['\''] + xml_decoded(s.skip(6))
    } else {
        seq![s[0]] + xml_decoded(s.skip(1))
    }
}

/// Escaped text reads back as the text: an XML reader of `escaped(mode, s)`
/// gets `s`, and the escaped text holds no `<` or `>` that could be taken
/// for markup.
pub proof fn lemma_escaped_reads_back(mode: Escape, s: Seq<char>)
    ensures
        xml_decoded(escaped(mode, s)) == s,
        forall|i: int| 0 <= i < escaped(mode, s).len() ==> #[trigger] escaped(mode, s)[i] != '<'
            && escaped(mode, s)[i] != '>',
    decreases s.len(),
{
    reveal_strlit("&amp;");
    reveal_strlit("&lt;");
    reveal_strlit("&gt;");
    reveal_strlit("&quot;");
    reveal_strlit("&apos;");
    if s.len() > 0 {
        let c = s[0];
        let rest = s.drop_first();
        lemma_escaped_reads_back(mode, rest);
        assert(s =~= seq![c] + rest);
        lemma_escaped_concat(mode, seq![c], rest);
        assert(seq![c].drop_last() =~= Seq::<char>::empty());
        assert(seq![c].last() == c);
        assert(escaped(mode, Seq::<char>::empty()) == Seq::<char>::empty());
        assert(escaped(mode, seq![c]) == escaped(mode, Seq::<char>::empty()) + escape_char(mode, c));
        assert(escaped(mode, seq![c]) =~= escape_char(mode, c));
        let e = escape_char(mode, c);
        let er = escaped(mode, rest);
        let all = e + er;
        assert(escaped(mode, s) == all);
        if c == '&' {
            assert(e =~= seq!['&', 'a', 'm', 'p', ';']);
            assert(all.take(5) =~= e);
            assert(all.skip(5) =~= er);
        } else if c == '<' {
            assert(e =~= seq!['&', 'l', 't', ';']);
            assert(all.take(4) =~= e);
            assert(all.skip(4) =~= er);
            assert(!starts_with(all, seq!['&', 'a', 'm', 'p', ';']));
        } else if c == '>' {
            assert(e =~= seq!['&', 'g', 't', ';']);
            assert(all.take(4) =~= e);
            assert(all.skip(4) =~= er);
            assert(!starts_with(all, seq!['&', 'a', 'm', 'p', ';']));
            assert(!starts_with(all, seq!['&', 'l', 't', ';']));
        } else if c == '"' && mode != Escape::Text {
            assert(e =~= seq!['&', 'q', 'u', 'o', 't', ';']);
            assert(all.take(6) =~= e);
            assert(all.skip(6) =~= er);
            assert(!starts_with(all, seq!['&', 'a', 'm', 'p', ';']));
            assert(!starts_with(all, seq!['&', 'l', 't', ';']));
            assert(!starts_with(all, seq!['&', 'g', 't', ';']));
        } else if c == '\'' && mode == Escape::Attr {
            assert(e =~= seq!['&', 'a', 'p', 'o', 's', ';']);
            assert(all.take(6) =~= e);
            assert(all.skip(6) =~= er);
            assert(!starts_with(all, seq!['&', 'a', 'm', 'p', ';']));
            assert(!starts_with(all, seq!['&', 'l', 't', ';']));
            assert(!starts_with(all, seq!['&', 'g', 't', ';']));
            assert(!starts_with(all, seq!['&', 'q', 'u', 'o', 't', ';']));
        } else {
            assert(e =~= seq![c]);
            assert(all[0] == c);
            assert(all.skip(1) =~= er);
        }
        assert forall|i: int| 0 <= i < all.len() implies #[trigger] all[i] != '<' && all[i] != '>' by {
            if i >= e.len() {
                assert(all[i] == er[i - e.len()]);
            }
        }
    }
}

/// Appends `v` with the characters of `mode` escaped.
pub fn push_escaped(out: &mut String, v: &str, mode: Escape)
    ensures
        final(out)@ == old(out)@ + escaped(mode, v@),
{
    let cs = chars_of(v);
    let ghost start = out@;
    let mut i: usize = 0;
    assert(cs@.take(0) =~= Seq::<char>::empty());
    while i < cs.len()
        invariant
            cs@ == v@,
            i <= cs@.len(),
            out@ == start + escaped(mode, cs@.take(i as int)),
        decreases cs.len() - i,
    {
        let c = cs[i];
        assert(cs@.take(i + 1).drop_last() =~= cs@.take(i as int));
        if c == '&' {
            out.append("&amp;");
        } else if c == '<' {
            out.append("&lt;");
        } else if c == '>' {
            out.append("&gt;");
        } else if c == '"' && mode != Escape::Text {
            out.append("&quot;");
        } else if c == '\'' && mode == Escape::Attr {
            out.append("&apos;");
        } else {
            push_char(out, c);
        }
        assert(out@ =~= start + escaped(mode, cs@.take(i + 1)));
        i = i + 1;
    }
    assert(cs@.take(cs@.len() as int) =~= cs@);
}

/// `v` with the characters of `mode` escaped.
pub fn escape(v: &str, mode: Escape) -> (r: String)
    ensures
        r@ == escaped(mode, v@),
{
    let mut r = String::new();
    push_escaped(&mut r, v, mode);
    assert(r@ =~= escaped(mode, v@));
    r
}


/// Unicode `White_Space`, as `char::is_whitespace` and `str::trim` use it.
pub open spec fn is_ws(c: char) -> bool {
    let u = c as u32;
    (0x9 <= u && u <= 0xd) || u == 0x20 || u == 0x85 || u == 0xa0 || u == 0x1680
        || (0x2000 <= u && u <= 0x200a) || u == 0x2028 || u == 0x2029 || u == 0x202f
        || u == 0x205f || u == 0x3000
}

/// `char::is_whitespace`.
pub fn is_whitespace(c: char) -> (b: bool)
    ensures
        b == is_ws(c),
{
    let u = c as u32;
    (0x9 <= u && u <= 0xd) || u == 0x20 || u == 0x85 || u == 0xa0 || u == 0x1680
        || (0x2000 <= u && u <= 0x200a) || u == 0x2028 || u == 0x2029 || u == 0x202f
        || u == 0x205f || u == 0x3000
}

/// Index of the first character of `s` that is not whitespace (or its length).
pub open spec fn trim_lo(s: Seq<char>) -> int
    decreases s.len(),
{
    if s.len() == 0 || !is_ws(s[0]) { 0 } else { 1 + trim_lo(s.drop_first()) }
}

/// Length of `s` without its trailing whitespace.
pub open spec fn trim_hi(s: Seq<char>) -> int
    decreases s.len(),
{
    if s.len() == 0 || !is_ws(s.last()) { s.len() as int } else { trim_hi(s.drop_last()) }
}

/// `str::trim_start`.
pub open spec fn trim_start(s: Seq<char>) -> Seq<char> {
    s.skip(trim_lo(s))
}

/// `str::trim_end`.
pub open spec fn trim_end(s: Seq<char>) -> Seq<char> {
    s.take(trim_hi(s))
}

/// `str::trim`: `s` without leading and trailing whitespace.
pub open spec fn trim(s: Seq<char>) -> Seq<char> {
    trim_end(trim_start(s))
}

/// The bounds of `s[lo..hi]` trimmed: `(lo + trim_lo, lo + trim_lo + trim_hi)`.
pub fn trim_bounds(s: &Vec<char>, lo: usize, hi: usize) -> (r: (usize, usize))
    requires
        lo <= hi <= s@.len(),
    ensures
        lo <= r.0 <= r.1 <= hi,
        s@.subrange(r.0 as int, r.1 as int) == trim(s@.subrange(lo as int, hi as int)),
{
    let ghost t = s@.subrange(lo as int, hi as int);
    let mut a = lo;
    while a < hi && is_whitespace(s[a])
        invariant
            lo <= a <= hi <= s@.len(),
            t == s@.subrange(lo as int, hi as int),
            trim_lo(t) == (a - lo) + trim_lo(s@.subrange(a as int, hi as int)),
        decreases hi - a,
    {
        assert(s@.subrange(a as int, hi as int).drop_first() =~= s@.subrange(a + 1, hi as int));
        a = a + 1;
    }
    proof {
        assert(trim_lo(s@.subrange(a as int, hi as int)) == 0);
        assert(trim_start(t) =~= s@.subrange(a as int, hi as int));
    }
    let ghost u = s@.subrange(a as int, hi as int);
    let mut b = hi;
    while b > a && is_whitespace(s[b - 1])
        invariant
            lo <= a <= b <= hi <= s@.len(),
            u == s@.subrange(a as int, hi as int),
            trim_hi(u) == trim_hi(s@.subrange(a as int, b as int)),
        decreases b - a,
    {
        assert(s@.subrange(a as int, b as int).drop_last() =~= s@.subrange(a as int, b - 1));
        b = b - 1;
    }
    proof {
        assert(trim_hi(s@.subrange(a as int, b as int)) == b - a);
        assert(trim_end(u) =~= s@.subrange(a as int, b as int));
    }
    (a, b)
}

/// The string of `s[lo..hi]`.
pub fn string_of(s: &Vec<char>, lo: usize, hi: usize) -> (r: String)
    requires
        lo <= hi <= s@.len(),
    ensures
        r@ == s@.subrange(lo as int, hi as int),
{
    let mut v: Vec<char> = Vec::new();
    let mut i = lo;
    while i < hi
        invariant
            lo <= i <= hi <= s@.len(),
            v@ == s@.subrange(lo as int, i as int),
        decreases hi - i,
    {
        v.push(s[i]);
        i = i + 1;
        assert(v@ =~= s@.subrange(lo as int, i as int));
    }
    string_from_chars(v.as_slice())
}

/// `str::trim`, as an owned string.
pub fn trimmed(v: &str) -> (r: String)
    ensures
        r@ == trim(v@),
{
    let cs = chars_of(v);
    let (a, b) = trim_bounds(&cs, 0, cs.len());
    assert(cs@.subrange(0, cs@.len() as int) =~= cs@);
    string_of(&cs, a, b)
}


/// What `str::to_lowercase` makes of `s` (Unicode lower case, which may
/// change the number of characters).
pub uninterp spec fn str_lower(s: Seq<char>) -> Seq<char>;

/// `str::to_lowercase`; its result is named `str_lower`.
#[verifier::external_body]
pub fn lowercase(s: &str) -> (r: String)
    ensures
        r@ == str_lower(s@),
{
    s.to_lowercase()
}

/// Whether `char::is_alphanumeric` holds of `c` (Unicode `Alphabetic` or
/// `Numeric`).
pub uninterp spec fn char_alnum(c: char) -> bool;

/// `char::is_alphanumeric`; its result is named `char_alnum`. For ASCII
/// characters it holds exactly of letters and digits.
#[verifier::external_body]
pub fn is_alnum(c: char) -> (b: bool)
    ensures
        b == char_alnum(c),
        (c as u32) < 128 ==> (b <==> (('a' <= c && c <= 'z') || ('A' <= c && c <= 'Z') || ('0' <= c && c <= '9'))),
{
    c.is_alphanumeric()
}

/// `c` with ASCII capitals made small.
pub open spec fn ascii_lower(c: char) -> char {
    if 'A' <= c && c <= 'Z' { ((c as u32) + 32) as char } else { c }
}

/// `char::to_ascii_lowercase`.
pub fn to_ascii_lower(c: char) -> (r: char)
    ensures
        r == ascii_lower(c),
{
    if 'A' <= c && c <= 'Z' {
        let b = (c as u32) as u8;
        (b + 32) as char
    } else {
        c
    }
}

/// Whether `p` occurs in `s` at `i`; with `fold`, ASCII capitals of `s`
/// compare as small letters.
pub open spec fn match_at(s: Seq<char>, p: Seq<char>, i: int, fold: bool) -> bool {
    &&& 0 <= i
    &&& i + p.len() <= s.len()
    &&& forall|k: int| 0 <= k < p.len() ==> (if fold { ascii_lower(s[i + k]) } else { s[i + k] }) == #[trigger] p[k]
}

/// The first index at or after `i` where `p` occurs in `s`.
pub open spec fn find_from(s: Seq<char>, p: Seq<char>, i: int, fold: bool) -> Option<int>
    decreases s.len() + 1 - i,
{
    if i < 0 || i + p.len() > s.len() {
        None
    } else if match_at(s, p, i, fold) {
        Some(i)
    } else {
        find_from(s, p, i + 1, fold)
    }
}

/// `str::find`: the first index where `p` occurs in `s`.
pub open spec fn find(s: Seq<char>, p: Seq<char>) -> Option<int> {
    find_from(s, p, 0, false)
}

/// Whether `p` occurs in `s`.
pub open spec fn contains(s: Seq<char>, p: Seq<char>) -> bool {
    find(s, p) is Some
}

/// `str::starts_with`.
pub open spec fn starts_with(s: Seq<char>, p: Seq<char>) -> bool {
    p.len() <= s.len() && s.take(p.len() as int) == p
}

/// Whether `p` occurs in `s` at `i`.
pub fn match_at_exec(s: &Vec<char>, p: &Vec<char>, i: usize, fold: bool) -> (r: bool)
    ensures
        r == match_at(s@, p@, i as int, fold),
{
    if i > s.len() || p.len() > s.len() - i {
        return false;
    }
    let n = s.len();
    let mut k: usize = 0;
    while k < p.len()
        invariant
            n == s@.len(),
            i + p@.len() <= s@.len(),
            k <= p@.len(),
            forall|j: int| 0 <= j < k ==> (if fold { ascii_lower(s@[i + j]) } else { s@[i + j] }) == #[trigger] p@[j],
        decreases p.len() - k,
    {
        assert(i + k < s@.len());
        let ik = i + k;
        let c = if fold { to_ascii_lower(s[ik]) } else { s[ik] };
        if c != p[k] {
            return false;
        }
        k = k + 1;
    }
    true
}

/// The first index at or after `from` where `p` occurs in `s`.
pub fn find_in(s: &Vec<char>, p: &Vec<char>, from: usize, fold: bool) -> (r: Option<usize>)
    ensures
        match r {
            Some(i) => find_from(s@, p@, from as int, fold) == Some(i as int),
            None => find_from(s@, p@, from as int, fold) is None,
        },
{
    let mut i = from;
    while i <= s.len() && p.len() <= s.len() - i
        invariant
            from <= i,
            find_from(s@, p@, from as int, fold) == find_from(s@, p@, i as int, fold),
        decreases s.len() + 1 - i,
    {
        if match_at_exec(s, p, i, fold) {
            return Some(i);
        }
        i = i + 1;
    }
    None
}

/// Whether `s` starts with `p`.
pub fn starts_with_exec(s: &Vec<char>, p: &Vec<char>) -> (r: bool)
    ensures
        r == starts_with(s@, p@),
{
    let r = match_at_exec(s, p, 0, false);
    assert(r ==> s@.take(p@.len() as int) =~= p@);
    proof {
        if starts_with(s@, p@) {
            assert forall|k: int| 0 <= k < p@.len() implies s@[0 + k] == #[trigger] p@[k] by {
                assert(s@.take(p@.len() as int)[k] == s@[k]);
            }
        }
    }
    r
}

/// `s` with every non-overlapping occurrence of `p`, from the left, replaced
/// by `r`, as `str::replace` does for a non-empty `p`.
pub open spec fn replace_all(s: Seq<char>, p: Seq<char>, r: Seq<char>) -> Seq<char>
    decreases s.len(),
{
    if p.len() == 0 {
        s
    } else {
        match find(s, p) {
            None => s,
            Some(i) => if i + p.len() <= s.len() && i >= 0 {
                s.take(i) + r + replace_all(s.skip(i + p.len()), p, r)
            } else {
                s
            },
        }
    }
}

pub proof fn lemma_find_from(s: Seq<char>, p: Seq<char>, i: int, fold: bool)
    requires
        0 <= i,
    ensures
        match find_from(s, p, i, fold) {
            Some(j) => i <= j && match_at(s, p, j, fold)
                && forall|k: int| i <= k < j ==> !#[trigger] match_at(s, p, k, fold),
            None => forall|k: int| i <= k ==> !#[trigger] match_at(s, p, k, fold),
        },
    decreases s.len() + 1 - i,
{
    if i + p.len() > s.len() {
    } else if !match_at(s, p, i, fold) {
        lemma_find_from(s, p, i + 1, fold);
    }
}

pub proof fn lemma_find_shift(s: Seq<char>, p: Seq<char>, i: int, j: int)
    requires
        0 <= j <= i,
        j <= s.len(),
    ensures
        find_from(s, p, i, false) == match find_from(s.skip(j), p, i - j, false) {
            Some(k) => Some(k + j),
            None => None::<int>,
        },
    decreases s.len() + 1 - i,
{
    if i + p.len() <= s.len() {
        assert(match_at(s, p, i, false) == match_at(s.skip(j), p, i - j, false)) by {
            if match_at(s.skip(j), p, i - j, false) {
                assert forall|k: int| 0 <= k < p.len() implies s[i + k] == #[trigger] p[k] by {
                    assert(s.skip(j)[i - j + k] == s[i + k]);
                }
            }
            if match_at(s, p, i, false) {
                assert forall|k: int| 0 <= k < p.len() implies s.skip(j)[i - j + k] == #[trigger] p[k] by {
                    assert(s.skip(j)[i - j + k] == s[i + k]);
                }
            }
        }
        lemma_find_shift(s, p, i + 1, j);
    }
}

/// Replaces every occurrence of `p` in `s` from index `from` on, appending
/// the result to `out`.
pub fn replace_in(s: &Vec<char>, p: &Vec<char>, r: &Vec<char>) -> (out: Vec<char>)
    requires
        p@.len() > 0,
    ensures
        out@ == replace_all(s@, p@, r@),
{
    let mut out: Vec<char> = Vec::new();
    let mut i: usize = 0;
    let n = s.len();
    assert(s@.skip(0) =~= s@);
    loop
        invariant
            n == s@.len(),
            p@.len() > 0,
            i <= s@.len(),
            replace_all(s@, p@, r@) == out@ + replace_all(s@.skip(i as int), p@, r@),
        decreases s@.len() - i,
    {
        match find_in(s, p, i, false) {
            None => {
                proof {
                    lemma_find_shift(s@, p@, i as int, i as int);
                }
                let mut k = i;
                let ghost base = out@;
                while k < s.len()
                    invariant
                        i <= k <= s@.len(),
                        out@ == base + s@.subrange(i as int, k as int),
                    decreases s.len() - k,
                {
                    out.push(s[k]);
                    k = k + 1;
                    assert(out@ =~= base + s@.subrange(i as int, k as int));
                }
                assert(s@.skip(i as int) =~= s@.subrange(i as int, s@.len() as int));
                return out;
            },
            Some(j) => {
                proof {
                    lemma_find_shift(s@, p@, i as int, i as int);
                    lemma_find_from(s@, p@, i as int, false);
                }
                let ghost base = out@;
                let mut k = i;
                while k < j
                    invariant
                        i <= k <= j,
                        j + p@.len() <= s@.len(),
                        out@ == base + s@.subrange(i as int, k as int),
                    decreases j - k,
                {
                    out.push(s[k]);
                    k = k + 1;
                    assert(out@ =~= base + s@.subrange(i as int, k as int));
                }
                let mut m: usize = 0;
                let ghost mid = out@;
                while m < r.len()
                    invariant
                        m <= r@.len(),
                        out@ == mid + r@.take(m as int),
                    decreases r.len() - m,
                {
                    out.push(r[m]);
                    m = m + 1;
                    assert(out@ =~= mid + r@.take(m as int));
                }
                assert(r@.take(r@.len() as int) =~= r@);
                let ghost t = s@.skip(i as int);
                assert(t.take(j - i) =~= s@.subrange(i as int, j as int));
                assert(t.skip(j - i + p@.len()) =~= s@.skip(j + p@.len()));
                i = j + p.len();
            },
        }
    }
}


/// A line without the `\r` of a `\r\n` ending.
pub open spec fn strip_cr(l: Seq<char>) -> Seq<char> {
    if l.len() > 0 && l.last() == '\r' { l.drop_last() } else { l }
}

/// `str::lines`: the pieces between `\n`s, each without a `\r` right before
/// its `\n`; a final `\n` ends the last line rather than starting a new one.
pub open spec fn lines(s: Seq<char>) -> Seq<Seq<char>>
    decreases s.len(),
{
    match find(s, seq!['\n']) {
        None => if s.len() == 0 { Seq::empty() } else { seq![s] },
        Some(k) => if 0 <= k < s.len() {
            seq![strip_cr(s.take(k))] + lines(s.skip(k + 1))
        } else {
            Seq::empty()
        },
    }
}

/// The values of a sequence of strings.
pub open spec fn strs_v(v: Seq<String>) -> Seq<Seq<char>> {
    Seq::new(v.len(), |i: int| v[i]@)
}

/// The values of a sequence of character vectors.
pub open spec fn vecs_v(v: Seq<Vec<char>>) -> Seq<Seq<char>> {
    Seq::new(v.len(), |i: int| v[i]@)
}

/// The characters of `s[lo..hi]`.
pub fn slice_chars(s: &Vec<char>, lo: usize, hi: usize) -> (r: Vec<char>)
    requires
        lo <= hi <= s@.len(),
    ensures
        r@ == s@.subrange(lo as int, hi as int),
{
    let mut v: Vec<char> = Vec::new();
    let mut i = lo;
    while i < hi
        invariant
            lo <= i <= hi <= s@.len(),
            v@ == s@.subrange(lo as int, i as int),
        decreases hi - i,
    {
        v.push(s[i]);
        i = i + 1;
        assert(v@ =~= s@.subrange(lo as int, i as int));
    }
    v
}

/// The lines of `s`, as `str::lines` yields them.
pub fn lines_of(s: &str) -> (out: Vec<Vec<char>>)
    ensures
        vecs_v(out@) == lines(s@),
{
    let cs = chars_of(s);
    let nl = vec!['\n'];
    let mut out: Vec<Vec<char>> = Vec::new();
    let mut start: usize = 0;
    let n = cs.len();
    assert(cs@.skip(0) =~= cs@);
    assert(vecs_v(out@) =~= Seq::<Seq<char>>::empty());
    loop
        invariant
            cs@ == s@,
            n == cs@.len(),
            nl@ == seq!['\n'],
            start <= n,
            lines(s@) == vecs_v(out@) + lines(cs@.skip(start as int)),
        decreases n - start,
    {
        let ghost rest = cs@.skip(start as int);
        proof {
            lemma_find_shift(cs@, nl@, start as int, start as int);
            lemma_find_from(cs@, nl@, start as int, false);
        }
        match find_in(&cs, &nl, start, false) {
            None => {
                if start < n {
                    let ghost before = vecs_v(out@);
                    let line = slice_chars(&cs, start, n);
                    assert(line@ =~= rest);
                    out.push(line);
                    assert(vecs_v(out@) =~= before.push(rest));
                } else {
                    assert(rest.len() == 0);
                }
                return out;
            },
            Some(k) => {
                let mut e = k;
                if e > start && cs[e - 1] == '\r' {
                    e = e - 1;
                }
                let line = slice_chars(&cs, start, e);
                proof {
                    assert(rest.take(k - start) =~= cs@.subrange(start as int, k as int));
                    assert(line@ == strip_cr(rest.take(k - start)));
                    assert(rest.skip(k - start + 1) =~= cs@.skip(k + 1));
                }
                let ghost before = vecs_v(out@);
                out.push(line);
                assert(vecs_v(out@) =~= before.push(line@));
                start = k + 1;
            },
        }
    }
}

} // verus!
