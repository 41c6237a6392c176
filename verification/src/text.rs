//! Character-level text operations used by the INI reader and the obfuscator.
//!
//! Every operation works on `Vec<char>` and is specified over `Seq<char>`, the
//! view of `String` and `str`.
use vstd::prelude::*;

verus! {

/// The Unicode `White_Space` property, the set that `char::is_whitespace` and
/// `str::trim` use.
pub open spec fn is_space(c: char) -> bool {
    ||| ('\t' <= c && c <= '\r')
    ||| c == ' '
    ||| c == '\u{85}'
    ||| c == '\u{a0}'
    ||| c == '\u{1680}'
    ||| ('\u{2000}' <= c && c <= '\u{200a}')
    ||| c == '\u{2028}'
    ||| c == '\u{2029}'
    ||| c == '\u{202f}'
    ||| c == '\u{205f}'
    ||| c == '\u{3000}'
}

/// A character that UTF-8 encodes in one byte.
pub open spec fn is_ascii_char(c: char) -> bool {
    (c as u32) < 0x80
}

/// `s` without its leading white space.
pub open spec fn trim_start(s: Seq<char>) -> Seq<char>
    decreases s.len(),
{
    if s.len() > 0 && is_space(s[0]) {
        trim_start(s.drop_first())
    } else {
        s
    }
}

/// `s` without its trailing white space.
pub open spec fn trim_end(s: Seq<char>) -> Seq<char>
    decreases s.len(),
{
    if s.len() > 0 && is_space(s.last()) {
        trim_end(s.drop_last())
    } else {
        s
    }
}

/// `s` without leading and trailing white space (what `str::trim` returns).
pub open spec fn trim(s: Seq<char>) -> Seq<char> {
    trim_end(trim_start(s))
}

pub open spec fn starts_with(s: Seq<char>, p: Seq<char>) -> bool {
    p.len() <= s.len() && s.take(p.len() as int) == p
}

pub open spec fn ends_with(s: Seq<char>, p: Seq<char>) -> bool {
    p.len() <= s.len() && s.skip(s.len() - p.len()) == p
}

/// `i` is the position of the first `c` in `s`.
pub open spec fn is_first(s: Seq<char>, c: char, i: int) -> bool {
    &&& 0 <= i < s.len()
    &&& s[i] == c
    &&& forall|j: int| 0 <= j < i ==> s[j] != c
}

/// The position of the first `c` in `s`; meaningful where `s.contains(c)`.
pub open spec fn first_index(s: Seq<char>, c: char) -> int {
    choose|i: int| is_first(s, c, i)
}

/// What `str::replace(s, from, to)` returns for a non-empty `from`: each
/// occurrence of `from`, taken from left to right without overlap, becomes `to`.
pub open spec fn replace(s: Seq<char>, from: Seq<char>, to: Seq<char>) -> Seq<char>
    decreases s.len(),
{
    if from.len() == 0 || s.len() < from.len() {
        s
    } else if s.take(from.len() as int) == from {
        to + replace(s.skip(from.len() as int), from, to)
    } else {
        seq![s[0]] + replace(s.drop_first(), from, to)
    }
}

pub proof fn lemma_first_unique(s: Seq<char>, c: char, i: int)
    requires
        is_first(s, c, i),
    ensures
        first_index(s, c) == i,
        s.contains(c),
{
    let k = first_index(s, c);
    assert(is_first(s, c, k));
    if k < i {
        assert(s[k] != c);
    } else if i < k {
        assert(s[i] != c);
    }
}

/// Tells whether `c` is white space.
pub fn is_space_char(c: char) -> (r: bool)
    ensures
        r == is_space(c),
{
    ('\t' <= c && c <= '\r') || c == ' ' || c == '\u{85}' || c == '\u{a0}' || c == '\u{1680}' || (
    '\u{2000}' <= c && c <= '\u{200a}') || c == '\u{2028}' || c == '\u{2029}' || c == '\u{202f}'
        || c == '\u{205f}' || c == '\u{3000}'
}

/// Tells whether `c` encodes in a single UTF-8 byte.
pub fn is_ascii_char_exec(c: char) -> (r: bool)
    ensures
        r == is_ascii_char(c),
{
    c <= '\u{7f}'
}

/// The characters of `s`, in order.
pub fn to_chars(s: &str) -> (r: Vec<char>)
    ensures
        r@ == s@,
{
    let mut r: Vec<char> = Vec::new();
    for c in it: s.chars()
        invariant
            r@ == it.seq().take(it.index() as int),
            it.seq() == s@,
    {
        r.push(c);
    }
    r
}

/// `String::from_iter` over a slice of characters: a `String` that holds them in order.
#[verifier::external_body]
pub(crate) fn from_chars(cs: &[char]) -> (r: String)
    ensures
        r@ == cs@,
{
    cs.iter().collect()
}

/// The characters of `s` from position `lo` up to, not including, `hi`.
pub fn slice_of(s: &Vec<char>, lo: usize, hi: usize) -> (r: Vec<char>)
    requires
        lo <= hi <= s.len(),
    ensures
        r@ == s@.subrange(lo as int, hi as int),
{
    let mut r: Vec<char> = Vec::new();
    let mut i = lo;
    while i < hi
        invariant
            lo <= i <= hi <= s.len(),
            r@ == s@.subrange(lo as int, i as int),
        decreases hi - i,
    {
        r.push(s[i]);
        i = i + 1;
    }
    r
}

/// `a` followed by `b`.
pub fn concat(a: &Vec<char>, b: &Vec<char>) -> (r: Vec<char>)
    ensures
        r@ == a@ + b@,
{
    let mut r = a.clone();
    let mut i: usize = 0;
    while i < b.len()
        invariant
            i <= b.len(),
            r@ == a@ + b@.take(i as int),
        decreases b.len() - i,
    {
        r.push(b[i]);
        i = i + 1;
        assert(b@.take(i as int) == b@.take(i - 1) + seq![b@[i - 1]]);
    }
    assert(b@.take(b.len() as int) == b@);
    r
}

proof fn lemma_trim_start_skip(s: Seq<char>, i: int)
    requires
        0 <= i < s.len(),
        is_space(s[i]),
    ensures
        trim_start(s.skip(i)) == trim_start(s.skip(i + 1)),
{
    assert(s.skip(i).drop_first() == s.skip(i + 1));
}

proof fn lemma_trim_end_take(s: Seq<char>, a: int, j: int)
    requires
        0 <= a < j <= s.len(),
        is_space(s[j - 1]),
    ensures
        trim_end(s.subrange(a, j)) == trim_end(s.subrange(a, j - 1)),
{
    assert(s.subrange(a, j).drop_last() == s.subrange(a, j - 1));
}

/// The bounds of `s` once white space is cut from both ends: what `str::trim` keeps.
pub fn trim_bounds(s: &Vec<char>) -> (r: (usize, usize))
    ensures
        r.0 <= r.1 <= s.len(),
        s@.subrange(r.0 as int, r.1 as int) == trim(s@),
{
    let mut a: usize = 0;
    assert(s@.skip(0) == s@);
    while a < s.len() && is_space_char(s[a])
        invariant
            a <= s.len(),
            trim_start(s@) == trim_start(s@.skip(a as int)),
        decreases s.len() - a,
    {
        proof {
            lemma_trim_start_skip(s@, a as int);
        }
        a = a + 1;
    }
    assert(trim_start(s@) == s@.skip(a as int));
    let mut b: usize = s.len();
    assert(s@.skip(a as int) == s@.subrange(a as int, b as int));
    while b > a && is_space_char(s[b - 1])
        invariant
            a <= b <= s.len(),
            trim(s@) == trim_end(s@.subrange(a as int, b as int)),
        decreases b,
    {
        proof {
            lemma_trim_end_take(s@, a as int, b as int);
        }
        b = b - 1;
    }
    let ghost t = s@.subrange(a as int, b as int);
    assert(t.len() > 0 ==> t.last() == s@[b - 1]);
    (a, b)
}

/// `s` without leading and trailing white space.
pub fn trim_chars(s: &Vec<char>) -> (r: Vec<char>)
    ensures
        r@ == trim(s@),
{
    let (a, b) = trim_bounds(s);
    slice_of(s, a, b)
}

/// Tells whether `p` is a prefix of `s`.
pub fn has_prefix(s: &Vec<char>, p: &Vec<char>) -> (r: bool)
    ensures
        r == starts_with(s@, p@),
{
    if p.len() > s.len() {
        return false;
    }
    let mut i: usize = 0;
    while i < p.len()
        invariant
            p.len() <= s.len(),
            i <= p.len(),
            forall|j: int| 0 <= j < i ==> s@[j] == p@[j],
        decreases p.len() - i,
    {
        if s[i] != p[i] {
            assert(s@.take(p.len() as int)[i as int] != p@[i as int]);
            return false;
        }
        i = i + 1;
    }
    assert(s@.take(p.len() as int) == p@);
    true
}

/// Tells whether `p` is a suffix of `s`.
pub fn has_suffix(s: &Vec<char>, p: &Vec<char>) -> (r: bool)
    ensures
        r == ends_with(s@, p@),
{
    if p.len() > s.len() {
        return false;
    }
    let off = s.len() - p.len();
    let mut i: usize = 0;
    while i < p.len()
        invariant
            p.len() <= s.len(),
            off == s.len() - p.len(),
            i <= p.len(),
            forall|j: int| 0 <= j < i ==> s@[off + j] == p@[j],
        decreases p.len() - i,
    {
        if s[off + i] != p[i] {
            assert(s@.skip(off as int)[i as int] != p@[i as int]);
            return false;
        }
        i = i + 1;
    }
    assert(s@.skip(off as int) == p@);
    true
}

/// The position of the first `c` in `s` at or after `from`, if any.
pub fn find_char_from(s: &Vec<char>, c: char, from: usize) -> (r: Option<usize>)
    requires
        from <= s.len(),
    ensures
        match r {
            Some(i) => from <= i < s.len() && s@.skip(from as int).contains(c)
                && i - from == first_index(s@.skip(from as int), c)
                && is_first(s@.skip(from as int), c, i - from),
            None => !s@.skip(from as int).contains(c),
        },
{
    let ghost t = s@.skip(from as int);
    let mut i = from;
    while i < s.len()
        invariant
            from <= i <= s.len(),
            t == s@.skip(from as int),
            forall|j: int| 0 <= j < i - from ==> t[j] != c,
        decreases s.len() - i,
    {
        if s[i] == c {
            proof {
                assert(t[i - from] == c);
                lemma_first_unique(t, c, i - from);
            }
            return Some(i);
        }
        i = i + 1;
    }
    assert forall|j: int| 0 <= j < t.len() implies t[j] != c by {}
    None
}

/// The position of the first `c` in `s`, if any.
pub fn find_char(s: &Vec<char>, c: char) -> (r: Option<usize>)
    ensures
        match r {
            Some(i) => s@.contains(c) && i == first_index(s@, c) && is_first(s@, c, i as int),
            None => !s@.contains(c),
        },
{
    assert(s@.skip(0) == s@);
    find_char_from(s, c, 0)
}

/// Tells whether `c` occurs in `s`.
pub fn contains_char(s: &Vec<char>, c: char) -> (r: bool)
    ensures
        r == s@.contains(c),
{
    find_char(s, c).is_some()
}

proof fn lemma_replace_step_match(s: Seq<char>, from: Seq<char>, to: Seq<char>, i: int)
    requires
        from.len() > 0,
        0 <= i,
        i + from.len() <= s.len(),
        s.skip(i).take(from.len() as int) == from,
    ensures
        replace(s.skip(i), from, to) == to + replace(s.skip(i + from.len()), from, to),
{
    assert(s.skip(i).skip(from.len() as int) == s.skip(i + from.len()));
}

proof fn lemma_replace_step_other(s: Seq<char>, from: Seq<char>, to: Seq<char>, i: int)
    requires
        from.len() > 0,
        0 <= i,
        i + from.len() <= s.len(),
        s.skip(i).take(from.len() as int) != from,
    ensures
        replace(s.skip(i), from, to) == seq![s[i]] + replace(s.skip(i + 1), from, to),
{
    assert(s.skip(i).drop_first() == s.skip(i + 1));
}

/// Tells whether `p` occurs in `s` at position `i`.
fn matches_at(s: &Vec<char>, p: &Vec<char>, i: usize) -> (r: bool)
    requires
        i + p.len() <= s.len(),
    ensures
        r == (s@.skip(i as int).take(p.len() as int) == p@),
{
    let mut j: usize = 0;
    while j < p.len()
        invariant
            i + p.len() <= s.len(),
            j <= p.len(),
            forall|k: int| 0 <= k < j ==> s@[i + k] == p@[k],
        decreases p.len() - j,
    {
        if s[i + j] != p[j] {
            assert(s@.skip(i as int).take(p.len() as int)[j as int] != p@[j as int]);
            return false;
        }
        j = j + 1;
    }
    assert(s@.skip(i as int).take(p.len() as int) == p@);
    true
}

/// What `str::replace` returns: each occurrence of `from` in `s`, from left to right
/// and without overlap, replaced by `to`.
pub fn replace_all(s: &Vec<char>, from: &Vec<char>, to: &Vec<char>) -> (r: Vec<char>)
    requires
        from.len() > 0,
    ensures
        r@ == replace(s@, from@, to@),
{
    let mut out: Vec<char> = Vec::new();
    let mut i: usize = 0;
    assert(s@.skip(0) == s@);
    while i < s.len()
        invariant
            from.len() > 0,
            i <= s.len(),
            out@ + replace(s@.skip(i as int), from@, to@) == replace(s@, from@, to@),
        decreases s.len() - i,
    {
        if from.len() <= s.len() - i {
            if matches_at(s, from, i) {
                proof {
                    lemma_replace_step_match(s@, from@, to@, i as int);
                    assert(out@ + to@ + replace(s@.skip(i + from.len()), from@, to@) == out@ + (
                    to@ + replace(s@.skip(i + from.len()), from@, to@)));
                }
                let mut k: usize = 0;
                let ghost out0 = out@;
                while k < to.len()
                    invariant
                        k <= to.len(),
                        out@ == out0 + to@.take(k as int),
                    decreases to.len() - k,
                {
                    out.push(to[k]);
                    k = k + 1;
                    assert(to@.take(k as int) == to@.take(k - 1) + seq![to@[k - 1]]);
                }
                assert(to@.take(to.len() as int) == to@);
                i = i + from.len();
            } else {
                proof {
                    lemma_replace_step_other(s@, from@, to@, i as int);
                    assert(out@ + seq![s@[i as int]] + replace(s@.skip(i + 1), from@, to@) == out@
                        + (seq![s@[i as int]] + replace(s@.skip(i + 1), from@, to@)));
                }
                out.push(s[i]);
                i = i + 1;
            }
        } else {
            let ghost rest = s@.skip(i as int);
            assert(replace(rest, from@, to@) == rest);
            proof {
                assert(out@ + rest == out@ + seq![s@[i as int]] + s@.skip(i + 1)) by {
                    assert(rest == seq![s@[i as int]] + s@.skip(i + 1));
                }
                let r2 = s@.skip(i + 1);
                assert(r2.len() < from.len());
                assert(replace(r2, from@, to@) == r2);
            }
            out.push(s[i]);
            i = i + 1;
        }
    }
    assert(s@.skip(s.len() as int).len() == 0);
    assert(replace(s@.skip(s.len() as int), from@, to@) == s@.skip(s.len() as int));
    assert(out@ + s@.skip(s.len() as int) == out@);
    out
}

/// `str::replace` on a text that starts with the pattern: the pattern becomes
/// `to`, and the rest is replaced on its own.
pub proof fn lemma_replace_front(from: Seq<char>, rest: Seq<char>, to: Seq<char>)
    requires
        from.len() > 0,
    ensures
        replace(from + rest, from, to) == to + replace(rest, from, to),
{
    let s = from + rest;
    assert(s.take(from.len() as int) == from);
    assert(s.skip(from.len() as int) == rest);
}

/// Text before the pattern that holds no character like the pattern's first
/// one comes through `str::replace` as it is.
pub proof fn lemma_replace_clear_prefix(a: Seq<char>, rest: Seq<char>, from: Seq<char>, to: Seq<char>)
    requires
        from.len() > 0,
        !a.contains(from[0]),
    ensures
        replace(a + rest, from, to) == a + replace(rest, from, to),
    decreases a.len(),
{
    if a.len() > 0 {
        let s = a + rest;
        assert(s[0] == a[0]);
        if s.len() >= from.len() {
            assert(s.take(from.len() as int)[0] == a[0]);
            assert(s.take(from.len() as int) != from);
        }
        assert(s.drop_first() == a.drop_first() + rest);
        assert forall|i: int| 0 <= i < a.drop_first().len() implies a.drop_first()[i] != from[0] by {
            assert(a.drop_first()[i] == a[i + 1]);
        }
        lemma_replace_clear_prefix(a.drop_first(), rest, from, to);
        assert(seq![a[0]] + (a.drop_first() + replace(rest, from, to)) == a + replace(rest, from, to));
    } else {
        assert(a + rest == rest);
        assert(a + replace(rest, from, to) == replace(rest, from, to));
    }
}

/// A text that holds no character like the pattern's first one comes through
/// `str::replace` as it is.
pub proof fn lemma_replace_absent(s: Seq<char>, from: Seq<char>, to: Seq<char>)
    requires
        from.len() > 0,
        !s.contains(from[0]),
    ensures
        replace(s, from, to) == s,
{
    lemma_replace_clear_prefix(s, Seq::empty(), from, to);
    assert(s + Seq::<char>::empty() == s);
    assert(replace(Seq::<char>::empty(), from, to) == Seq::<char>::empty());
}

/// `trim_start` skips leading white space: `ws + s` starts trimmed where `s` does.
pub proof fn lemma_trim_start_spaces(ws: Seq<char>, s: Seq<char>)
    requires
        forall|i: int| 0 <= i < ws.len() ==> is_space(#[trigger] ws[i]),
    ensures
        trim_start(ws + s) == trim_start(s),
    decreases ws.len(),
{
    if ws.len() > 0 {
        assert((ws + s)[0] == ws[0]);
        assert((ws + s).drop_first() == ws.drop_first() + s);
        assert forall|i: int| 0 <= i < ws.drop_first().len() implies is_space(#[trigger] ws.drop_first()[i]) by {
            assert(ws.drop_first()[i] == ws[i + 1]);
        }
        lemma_trim_start_spaces(ws.drop_first(), s);
    } else {
        assert(ws + s == s);
    }
}

/// `trim_end` only takes white space off the end: what it keeps is a prefix,
/// and that prefix reaches past every character that is not white space.
pub proof fn lemma_trim_end_prefix(s: Seq<char>)
    ensures
        trim_end(s).len() <= s.len(),
        trim_end(s) == s.take(trim_end(s).len() as int),
        forall|i: int| trim_end(s).len() <= i < s.len() ==> is_space(#[trigger] s[i]),
    decreases s.len(),
{
    if s.len() > 0 && is_space(s.last()) {
        lemma_trim_end_prefix(s.drop_last());
        assert(s.drop_last().take(trim_end(s).len() as int) == s.take(trim_end(s).len() as int));
        assert forall|i: int| trim_end(s).len() <= i < s.len() implies is_space(#[trigger] s[i]) by {
            if i < s.len() - 1 {
                assert(s[i] == s.drop_last()[i]);
            }
        }
    } else {
        assert(s.take(s.len() as int) == s);
    }
}


/// A text that lacks one of the pattern's characters comes through
/// `str::replace` as it is.
pub proof fn lemma_replace_lacking(s: Seq<char>, from: Seq<char>, to: Seq<char>, j: int)
    requires
        0 <= j < from.len(),
        !s.contains(from[j]),
    ensures
        replace(s, from, to) == s,
    decreases s.len(),
{
    if s.len() >= from.len() {
        if s.take(from.len() as int) == from {
            assert(s[j] == from[j]);
        }
        assert forall|i: int| 0 <= i < s.drop_first().len() implies s.drop_first()[i] != from[j] by {
            assert(s.drop_first()[i] == s[i + 1]);
        }
        lemma_replace_lacking(s.drop_first(), from, to, j);
        assert(seq![s[0]] + s.drop_first() == s);
    }
}


} // verus!
