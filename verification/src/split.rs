use vstd::prelude::*;
use crate::text::{chars_of, is_whitespace, is_ws, vecs_v};

verus! {

/// ASCII whitespace, as `u8::is_ascii_whitespace` has it: space, tab, line
/// feed, form feed and carriage return.
pub open spec fn is_ascii_ws(c: char) -> bool {
    c == ' ' || c == '\t' || c == '\n' || c == '\x0C' || c == '\r'
}

/// `seq![w]` when `w` is not empty, else nothing.
pub open spec fn nonempty(w: Seq<char>) -> Seq<Seq<char>> {
    if w.len() == 0 { Seq::empty() } else { seq![w] }
}

/// Whether `c` separates words: Unicode whitespace when `unicode`, else
/// ASCII whitespace.
pub open spec fn separates(c: char, unicode: bool) -> bool {
    if unicode { is_ws(c) } else { is_ascii_ws(c) }
}

/// The words of `s[i..]`, the first of them starting with `cur`: the maximal
/// runs of characters that do not separate words.
pub open spec fn words_from(s: Seq<char>, i: int, cur: Seq<char>, unicode: bool) -> Seq<Seq<char>>
    decreases s.len() - i,
{
    if i < 0 || i >= s.len() {
        nonempty(cur)
    } else if separates(s[i], unicode) {
        nonempty(cur) + words_from(s, i + 1, Seq::empty(), unicode)
    } else {
        words_from(s, i + 1, cur.push(s[i]), unicode)
    }
}

/// `str::split_ascii_whitespace`: the words of `s`, in order.
pub open spec fn words(s: Seq<char>) -> Seq<Seq<char>> {
    words_from(s, 0, Seq::empty(), false)
}

/// `str::split_whitespace`: the words of `s` between Unicode whitespace, in
/// order.
pub open spec fn ws_words(s: Seq<char>) -> Seq<Seq<char>> {
    words_from(s, 0, Seq::empty(), true)
}

/// The pieces of `s[i..]` between occurrences of `sep`, the first of them
/// starting with `cur`.
pub open spec fn pieces_from(s: Seq<char>, sep: char, i: int, cur: Seq<char>) -> Seq<Seq<char>>
    decreases s.len() - i,
{
    if i < 0 || i >= s.len() {
        seq![cur]
    } else if s[i] == sep {
        seq![cur] + pieces_from(s, sep, i + 1, Seq::empty())
    } else {
        pieces_from(s, sep, i + 1, cur.push(s[i]))
    }
}

/// `str::split` on one character: the pieces between the separators, empty
/// ones included; there is always one more piece than separators.
pub open spec fn pieces(s: Seq<char>, sep: char) -> Seq<Seq<char>> {
    pieces_from(s, sep, 0, Seq::empty())
}

/// The words of `s`, as `str::split_ascii_whitespace` yields them.
pub fn words_of(s: &str) -> (out: Vec<Vec<char>>)
    ensures
        vecs_v(out@) == words(s@),
{
    words_split(s, false)
}

/// The words of `s`, as `str::split_whitespace` yields them.
pub fn ws_words_of(s: &str) -> (out: Vec<Vec<char>>)
    ensures
        vecs_v(out@) == ws_words(s@),
{
    words_split(s, true)
}

fn words_split(s: &str, unicode: bool) -> (out: Vec<Vec<char>>)
    ensures
        vecs_v(out@) == words_from(s@, 0, Seq::empty(), unicode),
{
    let cs = chars_of(s);
    let mut out: Vec<Vec<char>> = Vec::new();
    let mut cur: Vec<char> = Vec::new();
    let mut i: usize = 0;
    while i < cs.len()
        invariant
            cs@ == s@,
            i <= cs@.len(),
            words_from(s@, 0, Seq::empty(), unicode) == vecs_v(out@) + words_from(cs@, i as int, cur@, unicode),
        decreases cs.len() - i,
    {
        let c = cs[i];
        let sep = if unicode {
            is_whitespace(c)
        } else {
            c == ' ' || c == '\t' || c == '\n' || c == '\x0C' || c == '\r'
        };
        if sep {
            if cur.len() > 0 {
                let ghost before = vecs_v(out@);
                let w = cur;
                out.push(w);
                cur = Vec::new();
                assert(vecs_v(out@) =~= before + nonempty(w@));
            } else {
                assert(nonempty(cur@) =~= Seq::<Seq<char>>::empty());
                assert(vecs_v(out@) + nonempty(cur@) =~= vecs_v(out@));
            }
            assert(words_from(s@, 0, Seq::empty(), unicode) == vecs_v(out@) + words_from(cs@, i + 1, cur@, unicode)) by {
                assert(cur@ =~= Seq::<char>::empty());
                assert(vecs_v(out@) + words_from(cs@, i + 1, cur@, unicode) =~= vecs_v(out@) + words_from(cs@, i + 1, Seq::<char>::empty(), unicode));
            }
        } else {
            cur.push(c);
        }
        i = i + 1;
    }
    if cur.len() > 0 {
        let ghost before = vecs_v(out@);
        out.push(cur);
        assert(vecs_v(out@) =~= before + words_from(cs@, i as int, cur@, unicode));
    } else {
        assert(words_from(cs@, i as int, cur@, unicode) =~= Seq::<Seq<char>>::empty());
        assert(vecs_v(out@) + Seq::<Seq<char>>::empty() =~= vecs_v(out@));
    }
    out
}

/// The pieces of `s` between occurrences of `sep`, as `str::split` yields them.
pub fn pieces_of(s: &str, sep: char) -> (out: Vec<Vec<char>>)
    ensures
        vecs_v(out@) == pieces(s@, sep),
        out@.len() >= 1,
{
    let cs = chars_of(s);
    let mut out: Vec<Vec<char>> = Vec::new();
    let mut cur: Vec<char> = Vec::new();
    let mut i: usize = 0;
    while i < cs.len()
        invariant
            cs@ == s@,
            i <= cs@.len(),
            pieces(s@, sep) == vecs_v(out@) + pieces_from(cs@, sep, i as int, cur@),
        decreases cs.len() - i,
    {
        let c = cs[i];
        if c == sep {
            let ghost before = vecs_v(out@);
            let w = cur;
            out.push(w);
            cur = Vec::new();
            assert(vecs_v(out@) =~= before + seq![w@]);
            assert(pieces_from(cs@, sep, i + 1, cur@) == pieces_from(cs@, sep, i + 1, Seq::<char>::empty())) by {
                assert(cur@ =~= Seq::<char>::empty());
            }
        } else {
            cur.push(c);
        }
        i = i + 1;
    }
    let ghost before = vecs_v(out@);
    out.push(cur);
    assert(vecs_v(out@) =~= before + pieces_from(cs@, sep, i as int, cur@));
    out
}

/// Whether `a` and `b` hold the same characters.
pub fn chars_eq(a: &Vec<char>, b: &Vec<char>) -> (r: bool)
    ensures
        r == (a@ == b@),
{
    if a.len() != b.len() {
        return false;
    }
    let mut i: usize = 0;
    while i < a.len()
        invariant
            a@.len() == b@.len(),
            i <= a@.len(),
            forall|j: int| 0 <= j < i ==> a@[j] == b@[j],
        decreases a.len() - i,
    {
        if a[i] != b[i] {
            return false;
        }
        i = i + 1;
    }
    assert(a@ =~= b@);
    true
}

/// Whether `w` is one of the words of `s`.
pub open spec fn has_word(s: Seq<char>, w: Seq<char>) -> bool {
    words(s).contains(w)
}

/// Whether one of `ws` holds the characters of `w`.
pub fn contains_chars(ws: &Vec<Vec<char>>, w: &Vec<char>) -> (r: bool)
    ensures
        r == vecs_v(ws@).contains(w@),
{
    let mut i: usize = 0;
    while i < ws.len()
        invariant
            i <= ws@.len(),
            forall|j: int| 0 <= j < i ==> vecs_v(ws@)[j] != w@,
        decreases ws.len() - i,
    {
        if chars_eq(&ws[i], w) {
            assert(vecs_v(ws@)[i as int] == w@);
            return true;
        }
        i = i + 1;
    }
    proof {
        if vecs_v(ws@).contains(w@) {
            let k = choose|k: int| 0 <= k < vecs_v(ws@).len() && vecs_v(ws@)[k] == w@;
            assert(vecs_v(ws@)[k] != w@);
        }
    }
    false
}

/// Lexicographic order on characters by their code points; on strings held
/// in memory it is the order of `<` on `str`, since UTF-8 keeps the order of
/// code points.
pub open spec fn lex_lt(a: Seq<char>, b: Seq<char>) -> bool
    decreases a.len(),
{
    if a.len() == 0 {
        b.len() > 0
    } else if b.len() == 0 {
        false
    } else if a[0] != b[0] {
        (a[0] as u32) < (b[0] as u32)
    } else {
        lex_lt(a.drop_first(), b.drop_first())
    }
}

pub proof fn lemma_lex_irreflexive(a: Seq<char>)
    ensures
        !lex_lt(a, a),
    decreases a.len(),
{
    if a.len() > 0 {
        lemma_lex_irreflexive(a.drop_first());
    }
}

pub proof fn lemma_lex_transitive(a: Seq<char>, b: Seq<char>, c: Seq<char>)
    requires
        lex_lt(a, b),
        lex_lt(b, c),
    ensures
        lex_lt(a, c),
    decreases a.len(),
{
    if a.len() > 0 && b.len() > 0 && c.len() > 0 {
        if a[0] == b[0] && b[0] == c[0] {
            lemma_lex_transitive(a.drop_first(), b.drop_first(), c.drop_first());
        }
    }
}

pub proof fn lemma_lex_total(a: Seq<char>, b: Seq<char>)
    requires
        a != b,
    ensures
        lex_lt(a, b) || lex_lt(b, a),
    decreases a.len(),
{
    if a.len() > 0 && b.len() > 0 && a[0] == b[0] {
        if a.drop_first() == b.drop_first() {
            assert(a =~= seq![a[0]] + a.drop_first());
            assert(b =~= seq![b[0]] + b.drop_first());
        }
        lemma_lex_total(a.drop_first(), b.drop_first());
    } else if a.len() > 0 && b.len() > 0 {
        let x = a[0] as u32;
        let y = b[0] as u32;
        vstd::utf8::char_u32_cast(a[0], x);
        vstd::utf8::char_u32_cast(b[0], y);
        assert(x != y);
    } else if a.len() == 0 && b.len() == 0 {
        assert(a =~= b);
    }
}

/// `ts` joined with `sep` between them.
pub open spec fn join_with(ts: Seq<Seq<char>>, sep: Seq<char>) -> Seq<char>
    decreases ts.len(),
{
    if ts.len() == 0 {
        Seq::empty()
    } else if ts.len() == 1 {
        ts[0]
    } else {
        join_with(ts.drop_last(), sep) + sep + ts.last()
    }
}

/// `a < b` on strings.
pub fn str_lt(a: &str, b: &str) -> (r: bool)
    ensures
        r == lex_lt(a@, b@),
{
    let x = chars_of(a);
    let y = chars_of(b);
    let mut i: usize = 0;
    assert(x@.skip(0) =~= x@);
    assert(y@.skip(0) =~= y@);
    while i < x.len() && i < y.len() && x[i] == y[i]
        invariant
            x@ == a@,
            y@ == b@,
            i <= x@.len(),
            i <= y@.len(),
            lex_lt(a@, b@) == lex_lt(x@.skip(i as int), y@.skip(i as int)),
        decreases x.len() - i,
    {
        assert(x@.skip(i as int).drop_first() =~= x@.skip(i + 1));
        assert(y@.skip(i as int).drop_first() =~= y@.skip(i + 1));
        i = i + 1;
    }
    if i == x.len() {
        i < y.len()
    } else if i == y.len() {
        false
    } else {
        assert(x@.skip(i as int)[0] == x@[i as int]);
        assert(y@.skip(i as int)[0] == y@[i as int]);
        (x[i] as u32) < (y[i] as u32)
    }
}

} // verus!
