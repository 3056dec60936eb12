//! Character-level text helpers shared by the CSS, path and persistence code.
//!
//! Every helper works on `Seq<char>` views: a `&str` or `String` is read as
//! the sequence of its Unicode scalar values, the way `str::chars` yields them.

use vstd::prelude::*;

verus! {

/// The Unicode `White_Space` property, which is what `char::is_whitespace`
/// and `str::trim` test.
pub open spec fn is_ws(c: char) -> bool {
    ||| ('\u{9}' <= c && c <= '\u{d}')
    ||| c == ' '
    ||| c == '\u{85}'
    ||| c == '\u{a0}'
    ||| c == '\u{1680}'
    ||| ('\u{2000}' <= c && c <= '\u{200a}')
    ||| c == '\u{2028}'
    ||| c == '\u{2029}'
    ||| c == '\u{202f}'
    ||| c == '\u{205f}'
    ||| c == '\u{3000}'
}

/// `s` without its leading white space.
pub open spec fn trim_start(s: Seq<char>) -> Seq<char>
    decreases s.len(),
{
    if s.len() > 0 && is_ws(s[0]) {
        trim_start(s.drop_first())
    } else {
        s
    }
}

/// `s` without its trailing white space.
pub open spec fn trim_end(s: Seq<char>) -> Seq<char>
    decreases s.len(),
{
    if s.len() > 0 && is_ws(s.last()) {
        trim_end(s.drop_last())
    } else {
        s
    }
}

/// `s` without leading and trailing white space (`str::trim`).
pub open spec fn trim(s: Seq<char>) -> Seq<char> {
    trim_end(trim_start(s))
}

/// ASCII lower-casing of one character (`char::to_ascii_lowercase`).
pub open spec fn lower(c: char) -> char {
    if 'A' <= c && c <= 'Z' {
        ((c as u32) + 32) as char
    } else {
        c
    }
}

/// ASCII lower-casing of a whole sequence (`str::to_ascii_lowercase`).
pub open spec fn lower_seq(s: Seq<char>) -> Seq<char> {
    s.map_values(|c: char| lower(c))
}

/// The first index at or after `k` where `p` occurs in `s`.
pub open spec fn find_from(s: Seq<char>, p: Seq<char>, k: int) -> Option<int>
    decreases s.len() + 1 - k,
{
    if k < 0 || k + p.len() > s.len() {
        None
    } else if s.subrange(k, k + p.len()) == p {
        Some(k)
    } else {
        find_from(s, p, k + 1)
    }
}

/// The first index where `p` occurs in `s` (`str::find`).
pub open spec fn find_first(s: Seq<char>, p: Seq<char>) -> Option<int> {
    find_from(s, p, 0)
}

/// The part of `s` before the first `c`, or all of `s` when it has none.
pub open spec fn before_first(s: Seq<char>, c: char) -> Seq<char> {
    match find_first(s, seq![c]) {
        Some(i) => s.take(i),
        None => s,
    }
}

/// `s` begins with `p`.
pub open spec fn starts_with(s: Seq<char>, p: Seq<char>) -> bool {
    p.len() <= s.len() && s.take(p.len() as int) == p
}

/// `s` ends with `p`.
pub open spec fn ends_with(s: Seq<char>, p: Seq<char>) -> bool {
    p.len() <= s.len() && s.skip(s.len() - p.len()) == p
}

/// Splits `s` at every `sep` (`str::split` with a `char` pattern). The
/// result always has one more piece than `s` has separators.
pub open spec fn split_on(s: Seq<char>, sep: char) -> Seq<Seq<char>>
    decreases s.len(),
{
    if s.len() == 0 {
        seq![Seq::<char>::empty()]
    } else if s.last() == sep {
        split_on(s.drop_last(), sep).push(Seq::<char>::empty())
    } else {
        let p = split_on(s.drop_last(), sep);
        p.update(p.len() - 1, p.last().push(s.last()))
    }
}

/// Joins pieces with `sep` between consecutive ones (`[T]::join`).
pub open spec fn join_with(pieces: Seq<Seq<char>>, sep: Seq<char>) -> Seq<char>
    decreases pieces.len(),
{
    if pieces.len() == 0 {
        Seq::<char>::empty()
    } else if pieces.len() == 1 {
        pieces[0]
    } else {
        join_with(pieces.drop_last(), sep) + sep + pieces.last()
    }
}

pub proof fn lemma_split_nonempty(s: Seq<char>, sep: char)
    ensures
        split_on(s, sep).len() >= 1,
    decreases s.len(),
{
    if s.len() > 0 {
        lemma_split_nonempty(s.drop_last(), sep);
    }
}

/// Whether `c` is white space (`char::is_whitespace`).
pub fn char_is_ws(c: char) -> (r: bool)
    ensures
        r == is_ws(c),
{
    ('\u{9}' <= c && c <= '\u{d}') || c == ' ' || c == '\u{85}' || c == '\u{a0}' || c
        == '\u{1680}' || ('\u{2000}' <= c && c <= '\u{200a}') || c == '\u{2028}' || c
        == '\u{2029}' || c == '\u{202f}' || c == '\u{205f}' || c == '\u{3000}'
}

/// `char::to_ascii_lowercase`.
pub fn char_lower(c: char) -> (r: char)
    ensures
        r == lower(c),
{
    if 'A' <= c && c <= 'Z' {
        let u = (c as u32) + 32;
        let r = char_from_ascii(u);
        r
    } else {
        c
    }
}

fn char_from_ascii(u: u32) -> (r: char)
    requires
        u < 128,
    ensures
        r == u as char,
{
    let b = u as u8;
    b as char
}

/// The characters of `s`, in order.
pub fn to_chars(s: &str) -> (v: Vec<char>)
    ensures
        v@ == s@,
{
    let mut v: Vec<char> = Vec::new();
    for c in it: s.chars()
        invariant
            it.seq() == s@,
            v@ == it.seq().take(it.index() as int),
    {
        v.push(c);
    }
    v
}

/// Trusted: `String::push`, which appends `c` to the string.
#[verifier::external_body]
fn push_char(s: &mut String, c: char)
    ensures
        final(s)@ == old(s)@.push(c),
{
    s.push(c);
}

/// A `String` holding exactly the characters `v`.
pub fn from_chars(v: &[char]) -> (s: String)
    ensures
        s@ == v@,
{
    let mut s = String::new();
    let mut i: usize = 0;
    while i < v.len()
        invariant
            i <= v.len(),
            s@ == v@.take(i as int),
        decreases v.len() - i,
    {
        push_char(&mut s, v[i]);
        assert(v@.take(i + 1) == v@.take(i as int).push(v@[i as int]));
        i = i + 1;
    }
    assert(v@.take(v.len() as int) == v@);
    s
}

/// A copy of `v[a..b]`.
pub fn slice_chars(v: &[char], a: usize, b: usize) -> (r: Vec<char>)
    requires
        a <= b <= v.len(),
    ensures
        r@ == v@.subrange(a as int, b as int),
{
    let mut r: Vec<char> = Vec::new();
    let mut i = a;
    while i < b
        invariant
            a <= i <= b <= v.len(),
            r@ == v@.subrange(a as int, i as int),
        decreases b - i,
    {
        r.push(v[i]);
        assert(v@.subrange(a as int, i + 1) == v@.subrange(a as int, i as int).push(v@[i as int]));
        i = i + 1;
    }
    r
}

/// `v` followed by `w`.
pub fn concat_chars(v: &[char], w: &[char]) -> (r: Vec<char>)
    ensures
        r@ == v@ + w@,
{
    let mut r: Vec<char> = Vec::new();
    let mut i: usize = 0;
    while i < v.len()
        invariant
            i <= v.len(),
            r@ == v@.take(i as int),
        decreases v.len() - i,
    {
        r.push(v[i]);
        assert(v@.take(i + 1) == v@.take(i as int).push(v@[i as int]));
        i = i + 1;
    }
    assert(v@.take(v.len() as int) == v@);
    let mut j: usize = 0;
    while j < w.len()
        invariant
            j <= w.len(),
            r@ == v@ + w@.take(j as int),
        decreases w.len() - j,
    {
        r.push(w[j]);
        assert(w@.take(j + 1) == w@.take(j as int).push(w@[j as int]));
        j = j + 1;
    }
    assert(w@.take(w.len() as int) == w@);
    r
}

/// `v` and `w` hold the same characters.
pub fn chars_eq(v: &[char], w: &[char]) -> (r: bool)
    ensures
        r == (v@ == w@),
{
    if v.len() != w.len() {
        return false;
    }
    let mut i: usize = 0;
    while i < v.len()
        invariant
            i <= v.len() == w.len(),
            v@.take(i as int) == w@.take(i as int),
        decreases v.len() - i,
    {
        if v[i] != w[i] {
            assert(v@[i as int] != w@[i as int]);
            return false;
        }
        assert(v@.take(i + 1) == v@.take(i as int).push(v@[i as int]));
        assert(w@.take(i + 1) == w@.take(i as int).push(w@[i as int]));
        i = i + 1;
    }
    assert(v@ == v@.take(v.len() as int));
    assert(w@ == w@.take(w.len() as int));
    true
}

/// `a` and `b` hold the same characters.
pub fn str_eq(a: &str, b: &str) -> (r: bool)
    ensures
        r == (a@ == b@),
{
    let va = to_chars(a);
    let vb = to_chars(b);
    chars_eq(va.as_slice(), vb.as_slice())
}

/// The ASCII lower-cased copy of `v`.
pub fn lower_chars(v: &[char]) -> (r: Vec<char>)
    ensures
        r@ == lower_seq(v@),
{
    let mut r: Vec<char> = Vec::new();
    let mut i: usize = 0;
    while i < v.len()
        invariant
            i <= v.len(),
            r@ == lower_seq(v@.take(i as int)),
        decreases v.len() - i,
    {
        let c = char_lower(v[i]);
        r.push(c);
        assert(lower_seq(v@.take(i + 1)) == lower_seq(v@.take(i as int)).push(lower(v@[i as int])))
            by {
            assert(v@.take(i + 1) == v@.take(i as int).push(v@[i as int]));
        }
        i = i + 1;
    }
    assert(v@.take(v.len() as int) == v@);
    r
}

pub proof fn lemma_trim_start_skip(s: Seq<char>, i: int)
    requires
        0 <= i <= s.len(),
        forall|j: int| 0 <= j < i ==> is_ws(#[trigger] s[j]),
    ensures
        trim_start(s) == trim_start(s.skip(i)),
    decreases i,
{
    if i > 0 {
        assert(is_ws(s[0]));
        let t = s.drop_first();
        assert forall|j: int| 0 <= j < i - 1 implies is_ws(#[trigger] t[j]) by {
            assert(t[j] == s[j + 1]);
        }
        lemma_trim_start_skip(t, i - 1);
        assert(t.skip(i - 1) == s.skip(i));
    } else {
        assert(s.skip(0) == s);
    }
}

proof fn lemma_trim_end_take(s: Seq<char>, j: int)
    requires
        0 <= j <= s.len(),
        forall|k: int| j <= k < s.len() ==> is_ws(#[trigger] s[k]),
    ensures
        trim_end(s) == trim_end(s.take(j)),
    decreases s.len() - j,
{
    if j < s.len() {
        assert(is_ws(s.last()));
        let t = s.drop_last();
        assert forall|k: int| j <= k < t.len() implies is_ws(#[trigger] t[k]) by {
            assert(t[k] == s[k]);
        }
        lemma_trim_end_take(t, j);
        assert(t.take(j) == s.take(j));
    } else {
        assert(s.take(j) == s);
    }
}

/// The bounds `(a, b)` such that `v[a..b]` is `v` trimmed (`str::trim`).
pub fn trim_bounds(v: &[char]) -> (r: (usize, usize))
    ensures
        r.0 <= r.1 <= v.len(),
        v@.subrange(r.0 as int, r.1 as int) == trim(v@),
        r.0 as int == v.len() || !is_ws(v@[r.0 as int]),
        forall|k: int| 0 <= k < r.0 ==> is_ws(#[trigger] v@[k]),
{
    let mut a: usize = 0;
    while a < v.len() && char_is_ws(v[a])
        invariant
            a <= v.len(),
            forall|k: int| 0 <= k < a ==> is_ws(#[trigger] v@[k]),
        decreases v.len() - a,
    {
        a = a + 1;
    }
    proof {
        lemma_trim_start_skip(v@, a as int);
        if a < v.len() {
            assert(v@.skip(a as int)[0] == v@[a as int]);
        }
        assert(trim_start(v@.skip(a as int)) == v@.skip(a as int));
    }
    let mut b: usize = v.len();
    while b > a && char_is_ws(v[b - 1])
        invariant
            a <= b <= v.len(),
            forall|k: int| b <= k < v.len() ==> is_ws(#[trigger] v@[k]),
        decreases b,
    {
        b = b - 1;
    }
    proof {
        let t = v@.skip(a as int);
        assert forall|k: int| b - a <= k < t.len() implies is_ws(#[trigger] t[k]) by {
            assert(t[k] == v@[k + a]);
        }
        lemma_trim_end_take(t, b - a);
        let u = t.take(b - a);
        if b > a {
            assert(u.last() == v@[b - 1]);
        }
        assert(trim_end(u) == u);
        assert(u == v@.subrange(a as int, b as int));
    }
    (a, b)
}

/// `v` trimmed of leading and trailing white space.
pub fn trim_chars(v: &[char]) -> (r: Vec<char>)
    ensures
        r@ == trim(v@),
{
    let (a, b) = trim_bounds(v);
    slice_chars(v, a, b)
}

proof fn lemma_find_step(s: Seq<char>, p: Seq<char>, k: int)
    requires
        0 <= k,
        k + p.len() <= s.len(),
        s.subrange(k, k + p.len()) != p,
    ensures
        find_from(s, p, k) == find_from(s, p, k + 1),
{
}

/// Whether `p` occurs in `v` at index `i`.
pub fn matches_at(v: &[char], p: &[char], i: usize) -> (r: bool)
    requires
        i + p.len() <= v.len(),
    ensures
        r == (v@.subrange(i as int, i + p.len()) == p@),
{
    let mut j: usize = 0;
    while j < p.len()
        invariant
            j <= p.len(),
            i + p.len() <= v.len(),
            v@.subrange(i as int, i + j) == p@.take(j as int),
        decreases p.len() - j,
    {
        if v[i + j] != p[j] {
            assert(v@.subrange(i as int, i + p.len())[j as int] == v@[i + j]);
            return false;
        }
        assert(v@.subrange(i as int, i + j + 1) == v@.subrange(i as int, i + j).push(v@[i + j]));
        assert(p@.take(j + 1) == p@.take(j as int).push(p@[j as int]));
        j = j + 1;
    }
    assert(p@.take(p.len() as int) == p@);
    true
}

/// The first index at or after `from` where `p` occurs in `v`.
pub fn find_chars_from(v: &[char], p: &[char], from: usize) -> (r: Option<usize>)
    requires
        from <= v.len(),
    ensures
        find_from(v@, p@, from as int) == (match r {
            Some(i) => Some(i as int),
            None => None,
        }),
        r matches Some(i) ==> from <= i && i + p.len() <= v.len(),
{
    if p.len() > v.len() {
        return None;
    }
    if p.len() == 0 {
        assert(v@.subrange(from as int, from as int) =~= p@);
        return Some(from);
    }
    let mut k = from;
    let last = v.len() - p.len();
    while k <= last
        invariant
            from <= k <= v.len(),
            0 < p.len() <= v.len(),
            last == v.len() - p.len(),
            find_from(v@, p@, from as int) == find_from(v@, p@, k as int),
        decreases v.len() + 1 - k,
    {
        if matches_at(v, p, k) {
            return Some(k);
        }
        proof {
            lemma_find_step(v@, p@, k as int);
        }
        k = k + 1;
    }
    None
}

/// The first index where `c` occurs in `v` (`str::find` with a `char`).
pub fn find_char(v: &[char], c: char) -> (r: Option<usize>)
    ensures
        find_first(v@, seq![c]) == (match r {
            Some(i) => Some(i as int),
            None => None,
        }),
        r matches Some(i) ==> i < v.len() && v@[i as int] == c,
        r is None ==> forall|k: int| 0 <= k < v.len() ==> v@[k] != c,
        r matches Some(i) ==> forall|k: int| 0 <= k < i ==> v@[k] != c,
{
    let pat = vec![c];
    let r = find_chars_from(v, pat.as_slice(), 0);
    proof {
        assert(pat@ == seq![c]);
        lemma_find_char_exact(v@, c, 0);
        if let Some(i) = r {
            assert(v@.subrange(i as int, i + 1)[0] == v@[i as int]);
        }
    }
    r
}

proof fn lemma_find_char_exact(s: Seq<char>, c: char, k: int)
    requires
        0 <= k <= s.len(),
    ensures
        find_from(s, seq![c], k) matches Some(i) ==> k <= i < s.len() && s[i] == c && forall|
            j: int,
        | k <= j < i ==> s[j] != c,
        find_from(s, seq![c], k) is None ==> forall|j: int| k <= j < s.len() ==> s[j] != c,
    decreases s.len() - k,
{
    if k + 1 <= s.len() {
        if s.subrange(k, k + 1) == seq![c] {
            assert(s.subrange(k, k + 1)[0] == s[k]);
        } else {
            assert(s[k] != c) by {
                if s[k] == c {
                    assert(s.subrange(k, k + 1) =~= seq![c]);
                }
            }
            lemma_find_char_exact(s, c, k + 1);
        }
    }
}

/// Whether `v` begins with `p`.
pub fn starts_with_chars(v: &[char], p: &[char]) -> (r: bool)
    ensures
        r == starts_with(v@, p@),
{
    if p.len() > v.len() {
        return false;
    }
    let r = matches_at(v, p, 0);
    assert(v@.subrange(0, p.len() as int) == v@.take(p.len() as int));
    r
}

/// Whether `v` ends with `p`.
pub fn ends_with_chars(v: &[char], p: &[char]) -> (r: bool)
    ensures
        r == ends_with(v@, p@),
{
    if p.len() > v.len() {
        return false;
    }
    let r = matches_at(v, p, v.len() - p.len());
    assert(v@.subrange(v.len() - p.len(), v.len() as int) == v@.skip(v.len() - p.len()));
    r
}

/// What a successful search yields: a match at or after the start.
pub proof fn lemma_find_from_bounds(s: Seq<char>, p: Seq<char>, k: int)
    ensures
        find_from(s, p, k) matches Some(i) ==> k <= i && 0 <= i && i + p.len() <= s.len()
            && s.subrange(i, i + p.len()) == p,
    decreases s.len() + 1 - k,
{
    if !(k < 0 || k + p.len() > s.len()) && s.subrange(k, k + p.len()) != p {
        lemma_find_from_bounds(s, p, k + 1);
    }
}

/// Searching from `k + m` in `s` is searching from `m` in `s.skip(k)`.
pub proof fn lemma_find_from_shift(s: Seq<char>, p: Seq<char>, k: int, m: int)
    requires
        0 <= k <= s.len(),
        0 <= m,
    ensures
        find_from(s, p, k + m) == (match find_from(s.skip(k), p, m) {
            Some(i) => Some(i + k),
            None => None,
        }),
    decreases s.len() + 1 - (k + m),
{
    let t = s.skip(k);
    if k + m + p.len() > s.len() {
    } else {
        assert(s.subrange(k + m, k + m + p.len()) == t.subrange(m, m + p.len()));
        if s.subrange(k + m, k + m + p.len()) != p {
            lemma_find_from_shift(s, p, k, m + 1);
        }
    }
}

/// The views of a list of character vectors.
pub open spec fn char_views(v: Seq<Vec<char>>) -> Seq<Seq<char>> {
    v.map_values(|w: Vec<char>| w@)
}

/// `v` split at every `sep` (`str::split` with a `char` pattern).
pub fn split_chars(v: &[char], sep: char) -> (r: Vec<Vec<char>>)
    ensures
        char_views(r@) == split_on(v@, sep),
{
    let mut done: Vec<Vec<char>> = Vec::new();
    let mut cur: Vec<char> = Vec::new();
    let mut i: usize = 0;
    while i < v.len()
        invariant
            i <= v.len(),
            split_on(v@.take(i as int), sep) == char_views(done@).push(cur@),
        decreases v.len() - i,
    {
        let ghost t = v@.take(i + 1);
        assert(t.drop_last() == v@.take(i as int));
        assert(t.last() == v@[i as int]);
        if v[i] == sep {
            let seg = cur;
            cur = Vec::new();
            let ghost before = done@;
            done.push(seg);
            assert(char_views(done@) =~= char_views(before).push(seg@));
            assert(split_on(t, sep) == char_views(done@).push(cur@));
        } else {
            cur.push(v[i]);
            proof {
                let p = split_on(v@.take(i as int), sep);
                assert(p.update(p.len() - 1, p.last().push(v@[i as int])) =~= char_views(done@).push(
                    cur@,
                ));
            }
        }
        i = i + 1;
    }
    assert(v@.take(v.len() as int) == v@);
    let ghost before = done@;
    let ghost last = cur@;
    done.push(cur);
    assert(char_views(done@) =~= char_views(before).push(last));
    done
}

/// The character sequences of a run of strings.
pub open spec fn string_views(v: Seq<String>) -> Seq<Seq<char>> {
    v.map_values(|s: String| s@)
}

/// The character sequence of an optional string.
pub open spec fn opt_view(o: Option<String>) -> Option<Seq<char>> {
    match o {
        Some(s) => Some(s@),
        None => None,
    }
}

/// A copy of an optional string.
pub fn clone_opt(o: &Option<String>) -> (r: Option<String>)
    ensures
        r == *o,
{
    match o {
        Some(s) => Some(s.clone()),
        None => None,
    }
}

} // verus!
