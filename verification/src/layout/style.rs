//! Tiny CSS subset: declaration lists, type-selector rules from `<style>`
//! blocks, and the keyword and colour values the layout engine reads.
//!
//! Lengths and line heights are numbers with units; this module splits
//! them into their number and unit text and names the unit, and the
//! measuring code turns them into pixels.

use vstd::prelude::*;
use vstd::utf8::encode_utf8;

use crate::text::{
    char_views, split_chars, str_eq, chars_eq, find_char, find_chars_from, find_first, find_from, from_chars, lemma_find_from_bounds,
    lemma_find_from_shift, lemma_split_nonempty, lower_chars, lower_seq, slice_chars, split_on,
    to_chars, trim, trim_bounds, trim_chars,
};

verus! {

/// A character allowed in a bare type selector.
pub open spec fn is_selector_char(c: char) -> bool {
    ('a' <= c && c <= 'z') || ('A' <= c && c <= 'Z') || ('0' <= c && c <= '9') || c == '-' || c
        == '_'
}

/// A bare type selector: a non-empty run of ASCII letters, digits, `-`
/// and `_`.
pub open spec fn is_type_selector_spec(s: Seq<char>) -> bool {
    s.len() > 0 && forall|i: int| 0 <= i < s.len() ==> is_selector_char(#[trigger] s[i])
}

/// Whether `sel` is a bare type selector such as `p` or `h1` (class, id,
/// combinator and attribute selectors are not).
pub fn is_type_selector(sel: &str) -> (r: bool)
    ensures
        r == is_type_selector_spec(sel@),
{
    let v = to_chars(sel);
    if v.len() == 0 {
        return false;
    }
    let mut i: usize = 0;
    while i < v.len()
        invariant
            i <= v.len(),
            v@ == sel@,
            forall|k: int| 0 <= k < i ==> is_selector_char(#[trigger] v@[k]),
        decreases v.len() - i,
    {
        let c = v[i];
        if !(('a' <= c && c <= 'z') || ('A' <= c && c <= 'Z') || ('0' <= c && c <= '9') || c
            == '-' || c == '_') {
            assert(!is_selector_char(sel@[i as int]));
            return false;
        }
        i = i + 1;
    }
    true
}

/// `s` with every `/* … */` comment removed; an unterminated comment runs
/// to the end.
pub open spec fn strip_comments_spec(s: Seq<char>) -> Seq<char>
    decreases s.len(),
{
    match find_first(s, seq!['/', '*']) {
        None => s,
        Some(i) => {
            proof {
                lemma_find_from_bounds(s, seq!['/', '*'], 0);
            }
            let after = s.skip(i + 2);
            s.take(i) + match find_first(after, seq!['*', '/']) {
                None => Seq::<char>::empty(),
                Some(e) => {
                    proof {
                        lemma_find_from_bounds(after, seq!['*', '/'], 0);
                    }
                    strip_comments_spec(after.skip(e + 2))
                },
            }
        },
    }
}

/// Removes every `/* … */` comment from `s`. CSS comments do not nest; an
/// unterminated comment swallows the rest.
pub fn strip_comments(s: &str) -> (r: String)
    ensures
        r@ == strip_comments_spec(s@),
{
    let v = to_chars(s);
    let out = strip_comments_chars(v.as_slice());
    from_chars(out.as_slice())
}

fn strip_comments_chars(v: &[char]) -> (out: Vec<char>)
    ensures
        out@ == strip_comments_spec(v@),
{
    let open = vec!['/', '*'];
    let close = vec!['*', '/'];
    assert(open@ == seq!['/', '*']);
    assert(close@ == seq!['*', '/']);
    let mut out: Vec<char> = Vec::new();
    let mut pos: usize = 0;
    assert(v@.skip(0) == v@);
    loop
        invariant
            pos <= v.len(),
            open@ == seq!['/', '*'],
            close@ == seq!['*', '/'],
            out@ + strip_comments_spec(v@.skip(pos as int)) == strip_comments_spec(v@),
        decreases v.len() - pos,
    {
        let ghost rest = v@.skip(pos as int);
        proof {
            lemma_find_from_shift(v@, seq!['/', '*'], pos as int, 0);
            lemma_find_from_bounds(v@, seq!['/', '*'], pos as int);
        }
        match find_chars_from(v, open.as_slice(), pos) {
            None => {
                let tail = slice_chars(v, pos, v.len());
                assert(tail@ == rest);
                let out2 = crate::text::concat_chars(out.as_slice(), tail.as_slice());
                return out2;
            },
            Some(start) => {
                let kept = slice_chars(v, pos, start);
                assert(kept@ == rest.take(start - pos));
                out = crate::text::concat_chars(out.as_slice(), kept.as_slice());
                let after_pos = start + 2;
                let ghost after = rest.skip(start - pos + 2);
                assert(after == v@.skip(after_pos as int));
                proof {
                    lemma_find_from_shift(v@, seq!['*', '/'], after_pos as int, 0);
                    lemma_find_from_bounds(v@, seq!['*', '/'], after_pos as int);
                }
                match find_chars_from(v, close.as_slice(), after_pos) {
                    None => {
                        assert(out@ == strip_comments_spec(v@));
                        return out;
                    },
                    Some(end) => {
                        assert(after.skip(end - after_pos + 2) == v@.skip(end + 2));
                        pos = end + 2;
                    },
                }
            },
        }
    }
}

/// One `prop: value` declaration as read from a segment between `;`s:
/// both sides trimmed and non-empty, the property lower-cased.
pub open spec fn decl_of(seg: Seq<char>) -> Option<(Seq<char>, Seq<char>)> {
    let d = trim(seg);
    if d.len() == 0 {
        None
    } else {
        match find_first(d, seq![':']) {
            None => None,
            Some(c) => {
                let prop = trim(d.take(c));
                let value = trim(d.skip(c + 1));
                if prop.len() == 0 || value.len() == 0 {
                    None
                } else {
                    Some((lower_seq(prop), value))
                }
            },
        }
    }
}

/// The declarations read from a sequence of segments, in order.
pub open spec fn decls_of_segments(segs: Seq<Seq<char>>) -> Seq<(Seq<char>, Seq<char>)>
    decreases segs.len(),
{
    if segs.len() == 0 {
        Seq::empty()
    } else {
        let p = decls_of_segments(segs.drop_last());
        match decl_of(segs.last()) {
            Some(d) => p.push(d),
            None => p,
        }
    }
}

/// The declarations of a CSS declaration body: comments removed, split at
/// `;`, malformed or empty declarations skipped.
pub open spec fn decls_spec(css: Seq<char>) -> Seq<(Seq<char>, Seq<char>)> {
    decls_of_segments(split_on(strip_comments_spec(css), ';'))
}

/// The views of a list of declarations.
pub open spec fn decl_views(v: Seq<(String, String)>) -> Seq<(Seq<char>, Seq<char>)> {
    v.map_values(|d: (String, String)| (d.0@, d.1@))
}

fn decl_of_chars(seg: &[char]) -> (r: Option<(String, String)>)
    ensures
        match (r, decl_of(seg@)) {
            (Some(d), Some(e)) => d.0@ == e.0 && d.1@ == e.1,
            (None, None) => true,
            _ => false,
        },
{
    let d = trim_chars(seg);
    if d.len() == 0 {
        return None;
    }
    let colon = match find_char(d.as_slice(), ':') {
        Some(c) => c,
        None => return None,
    };
    let left = slice_chars(d.as_slice(), 0, colon);
    assert(left@ == d@.take(colon as int));
    let right = slice_chars(d.as_slice(), colon + 1, d.len());
    assert(right@ == d@.skip(colon + 1));
    let prop = trim_chars(left.as_slice());
    let value = trim_chars(right.as_slice());
    if prop.len() == 0 || value.len() == 0 {
        return None;
    }
    let lp = lower_chars(prop.as_slice());
    Some((from_chars(lp.as_slice()), from_chars(value.as_slice())))
}

fn decls_of_chars(v: &[char]) -> (r: Vec<(String, String)>)
    ensures
        decl_views(r@) == decls_of_segments(split_on(v@, ';')),
{
    let mut out: Vec<(String, String)> = Vec::new();
    let mut cur: Vec<char> = Vec::new();
    let ghost mut done: Seq<Seq<char>> = Seq::empty();
    let mut i: usize = 0;
    while i < v.len()
        invariant
            i <= v.len(),
            split_on(v@.take(i as int), ';') == done.push(cur@),
            decl_views(out@) == decls_of_segments(done),
        decreases v.len() - i,
    {
        let ghost t = v@.take(i + 1);
        assert(t.drop_last() == v@.take(i as int));
        assert(t.last() == v@[i as int]);
        if v[i] == ';' {
            let d = decl_of_chars(cur.as_slice());
            let ghost seg = cur@;
            proof {
                assert(done.push(seg).drop_last() == done);
            }
            match d {
                Some(pair) => {
                    let ghost before = out@;
                    out.push(pair);
                    assert(decl_views(out@) =~= decl_views(before).push((pair.0@, pair.1@)));
                },
                None => {},
            }
            cur = Vec::new();
            proof {
                done = done.push(seg);
                assert(split_on(t, ';') == done.push(cur@));
            }
        } else {
            cur.push(v[i]);
            proof {
                let p = split_on(v@.take(i as int), ';');
                assert(p.update(p.len() - 1, p.last().push(v@[i as int])) =~= done.push(cur@));
            }
        }
        i = i + 1;
    }
    assert(v@.take(v.len() as int) == v@);
    let ghost seg = cur@;
    let d = decl_of_chars(cur.as_slice());
    proof {
        assert(done.push(seg).drop_last() == done);
    }
    match d {
        Some(pair) => {
            let ghost before = out@;
            out.push(pair);
            assert(decl_views(out@) =~= decl_views(before).push((pair.0@, pair.1@)));
        },
        None => {},
    }
    out
}

/// The `(property, value)` declarations of a CSS declaration body such as
/// the contents of a `style="..."` attribute: comments are stripped, the
/// body is split at `;`, each side is trimmed, the property is lower-cased,
/// and declarations without a `:` or with an empty side are skipped.
pub fn iter_decls(css: &str) -> (r: Vec<(String, String)>)
    ensures
        decl_views(r@) == decls_spec(css@),
{
    let v = to_chars(css);
    let cleaned = strip_comments_chars(v.as_slice());
    decls_of_chars(cleaned.as_slice())
}

/// A character of the numeric part of a length.
pub open spec fn is_number_char(c: char) -> bool {
    ('0' <= c && c <= '9') || c == '.'
}

/// Length of the optional leading sign.
pub open spec fn sign_len(s: Seq<char>) -> int {
    if s.len() > 0 && (s[0] == '-' || s[0] == '+') {
        1
    } else {
        0
    }
}

/// The end of the run of number characters that starts at `k`.
pub open spec fn number_end(s: Seq<char>, k: int) -> int
    decreases s.len() - k,
{
    if 0 <= k < s.len() && is_number_char(s[k]) {
        number_end(s, k + 1)
    } else {
        k
    }
}

/// A length split into its number (with sign) and its trimmed unit, or
/// nothing when no digit or `.` follows the optional sign.
pub open spec fn split_number_spec(s: Seq<char>) -> Option<(Seq<char>, Seq<char>)> {
    let start = sign_len(s);
    let end = number_end(s, start);
    if end == start {
        None
    } else {
        Some((s.take(end), trim(s.skip(end))))
    }
}

proof fn lemma_number_end(s: Seq<char>, k: int)
    requires
        0 <= k <= s.len(),
    ensures
        k <= number_end(s, k) <= s.len(),
    decreases s.len() - k,
{
    if k < s.len() && is_number_char(s[k]) {
        lemma_number_end(s, k + 1);
    }
}

/// Splits a CSS length such as `1.5em` into `("1.5", "em")`: an optional
/// sign, then digits and dots, then the rest trimmed. `None` when there are
/// no digits or dots after the sign.
pub fn split_number(s: &str) -> (r: Option<(String, String)>)
    ensures
        match (r, split_number_spec(s@)) {
            (Some(d), Some(e)) => d.0@ == e.0 && d.1@ == e.1,
            (None, None) => true,
            _ => false,
        },
{
    let v = to_chars(s);
    let mut i: usize = 0;
    if i < v.len() && (v[i] == '-' || v[i] == '+') {
        i = i + 1;
    }
    let start = i;
    assert(start == sign_len(v@));
    while i < v.len() && (('0' <= v[i] && v[i] <= '9') || v[i] == '.')
        invariant
            start <= i <= v.len(),
            number_end(v@, start as int) == number_end(v@, i as int),
        decreases v.len() - i,
    {
        i = i + 1;
    }
    if i == start {
        return None;
    }
    let num = slice_chars(v.as_slice(), 0, i);
    assert(num@ == v@.take(i as int));
    let rest = slice_chars(v.as_slice(), i, v.len());
    assert(rest@ == v@.skip(i as int));
    let unit = trim_chars(rest.as_slice());
    Some((from_chars(num.as_slice()), from_chars(unit.as_slice())))
}

/// A decimal digit character.
pub open spec fn is_digit(c: char) -> bool {
    '0' <= c && c <= '9'
}

/// The value of a string of decimal digits.
pub open spec fn digits_value(s: Seq<char>) -> int
    decreases s.len(),
{
    if s.len() == 0 {
        0
    } else {
        digits_value(s.drop_last()) * 10 + (s.last() as int - '0' as int)
    }
}

/// The digits of an unsigned number: `s` without one leading `+`.
pub open spec fn unsigned_digits(s: Seq<char>) -> Seq<char> {
    if s.len() > 0 && s[0] == '+' {
        s.drop_first()
    } else {
        s
    }
}

/// Every character of `d` is a decimal digit.
pub open spec fn all_digits(d: Seq<char>) -> bool {
    forall|i: int| 0 <= i < d.len() ==> is_digit(#[trigger] d[i])
}

/// What `str::parse::<u16>` accepts: an optional `+`, then one or more
/// decimal digits whose value fits in a `u16`.
pub open spec fn parse_u16_spec(s: Seq<char>) -> Option<u16> {
    let d = unsigned_digits(s);
    if d.len() > 0 && all_digits(d) && digits_value(d) <= 0xffff {
        Some(digits_value(d) as u16)
    } else {
        None
    }
}

proof fn lemma_digits_value_grows(d: Seq<char>, k: int)
    requires
        0 <= k <= d.len(),
        forall|i: int| 0 <= i < d.len() ==> is_digit(#[trigger] d[i]),
    ensures
        digits_value(d.take(k)) <= digits_value(d),
        0 <= digits_value(d),
    decreases d.len() - k,
{
    if k < d.len() {
        lemma_digits_value_grows(d, k + 1);
        let t = d.take(k + 1);
        assert(t.drop_last() == d.take(k));
        assert(is_digit(d[k]));
        lemma_digits_nonneg(d.take(k));
    } else {
        assert(d.take(k) == d);
        lemma_digits_nonneg(d);
    }
}

proof fn lemma_digits_nonneg(d: Seq<char>)
    requires
        forall|i: int| 0 <= i < d.len() ==> is_digit(#[trigger] d[i]),
    ensures
        0 <= digits_value(d),
    decreases d.len(),
{
    if d.len() > 0 {
        let t = d.drop_last();
        assert(forall|i: int| 0 <= i < t.len() ==> t[i] == d[i]);
        lemma_digits_nonneg(t);
        assert(is_digit(d[d.len() - 1]));
    }
}

/// `str::parse::<u16>`.
pub fn parse_u16(v: &[char]) -> (r: Option<u16>)
    ensures
        r == parse_u16_spec(v@),
{
    let start: usize = if v.len() > 0 && v[0] == '+' {
        1
    } else {
        0
    };
    let ghost d = unsigned_digits(v@);
    assert(d == v@.skip(start as int));
    if start == v.len() {
        return None;
    }
    let mut acc: u32 = 0;
    let mut i = start;
    while i < v.len()
        invariant
            start <= i <= v.len(),
            start < v.len(),
            d == v@.skip(start as int),
            d == unsigned_digits(v@),
            forall|k: int| 0 <= k < i - start ==> is_digit(#[trigger] d[k]),
            acc as int == digits_value(d.take(i - start)),
            acc <= 0xffff,
        decreases v.len() - i,
    {
        let c = v[i];
        if !('0' <= c && c <= '9') {
            assert(!is_digit(d[i - start]));
            return None;
        }
        let digit = (c as u32) - ('0' as u32);
        let ghost t = d.take(i - start + 1);
        assert(t.drop_last() == d.take(i - start));
        assert(t.last() == c);
        acc = acc * 10 + digit;
        if acc > 0xffff {
            proof {
                assert forall|k: int| 0 <= k < i - start + 1 implies is_digit(#[trigger] d[k]) by {
                    if k == i - start {
                        assert(d[k] == c);
                    }
                }
                if all_digits(d) {
                    lemma_digits_value_grows(d, i - start + 1);
                }
            }
            return None;
        }
        i = i + 1;
    }
    assert(d.take(d.len() as int) == d);
    Some(acc as u16)
}

/// The font weight a `font-weight` value names: the keywords `normal`,
/// `bold`, `lighter` and `bolder` (any case), or a number.
pub open spec fn parse_weight_spec(value: Seq<char>) -> Option<u16> {
    let v = lower_seq(trim(value));
    if v == "normal"@ {
        Some(400)
    } else if v == "bold"@ {
        Some(700)
    } else if v == "lighter"@ {
        Some(300)
    } else if v == "bolder"@ {
        Some(700)
    } else {
        parse_u16_spec(v)
    }
}

/// Whether `v` holds exactly the characters of `lit`.
fn is_word(v: &[char], lit: &str) -> (r: bool)
    ensures
        r == (v@ == lit@),
{
    let w = to_chars(lit);
    chars_eq(v, w.as_slice())
}

/// Parses a `font-weight` value: `normal` is 400, `bold` and `bolder` are
/// 700, `lighter` is 300 (keywords in any case), anything else must be a
/// `u16` number.
pub fn parse_weight(value: &str) -> (r: Option<u16>)
    ensures
        r == parse_weight_spec(value@),
{
    let v = lower_chars(trim_chars(to_chars(value).as_slice()).as_slice());
    if is_word(v.as_slice(), "normal") {
        Some(400)
    } else if is_word(v.as_slice(), "bold") {
        Some(700)
    } else if is_word(v.as_slice(), "lighter") {
        Some(300)
    } else if is_word(v.as_slice(), "bolder") {
        Some(700)
    } else {
        parse_u16(v.as_slice())
    }
}

/// The value of a hexadecimal digit byte.
pub open spec fn hex_digit_value(b: u8) -> Option<u8> {
    if 0x30 <= b && b <= 0x39 {
        Some((b - 0x30) as u8)
    } else if 0x61 <= b && b <= 0x66 {
        Some((b - 0x61 + 10) as u8)
    } else if 0x41 <= b && b <= 0x46 {
        Some((b - 0x41 + 10) as u8)
    } else {
        None
    }
}

/// What `u8::from_str_radix(piece, 16)` yields for a piece of at most two
/// bytes: an optional `+`, then one or two hexadecimal digits.
pub open spec fn hex_piece(piece: Seq<u8>) -> Option<u8> {
    let d = if piece.len() > 0 && piece[0] == 0x2b {
        piece.drop_first()
    } else {
        piece
    };
    if d.len() == 1 {
        hex_digit_value(d[0])
    } else if d.len() == 2 {
        match (hex_digit_value(d[0]), hex_digit_value(d[1])) {
            (Some(h), Some(l)) => Some((h * 16 + l) as u8),
            _ => None,
        }
    } else {
        None
    }
}

/// The colour a `#rgb` or `#rrggbb` hex string (without the `#`) names,
/// read from its UTF-8 bytes.
pub open spec fn hex_color_spec(b: Seq<u8>) -> Option<(u8, u8, u8)> {
    if b.len() == 3 {
        match (hex_piece(seq![b[0], b[0]]), hex_piece(seq![b[1], b[1]]), hex_piece(seq![b[2], b[2]])) {
            (Some(r), Some(g), Some(bl)) => Some((r, g, bl)),
            _ => None,
        }
    } else if b.len() == 6 {
        match (hex_piece(b.subrange(0, 2)), hex_piece(b.subrange(2, 4)), hex_piece(b.subrange(4, 6))) {
            (Some(r), Some(g), Some(bl)) => Some((r, g, bl)),
            _ => None,
        }
    } else {
        None
    }
}

fn hex_digit(b: u8) -> (r: Option<u8>)
    ensures
        r == hex_digit_value(b),
{
    if 0x30 <= b && b <= 0x39 {
        Some(b - 0x30)
    } else if 0x61 <= b && b <= 0x66 {
        Some(b - 0x61 + 10)
    } else if 0x41 <= b && b <= 0x46 {
        Some(b - 0x41 + 10)
    } else {
        None
    }
}

fn parse_hex_piece(b0: u8, b1: u8) -> (r: Option<u8>)
    ensures
        r == hex_piece(seq![b0, b1]),
{
    let ghost p = seq![b0, b1];
    if b0 == 0x2b {
        assert(p.drop_first() =~= seq![b1]);
        hex_digit(b1)
    } else {
        match (hex_digit(b0), hex_digit(b1)) {
            (Some(h), Some(l)) => Some(h * 16 + l),
            _ => None,
        }
    }
}

/// Parses the hex digits of a `#rgb` or `#rrggbb` colour (without the
/// `#`); three digits are each doubled. `None` for any other length or a
/// non-hex digit.
pub fn parse_hex(hex: &str) -> (r: Option<(u8, u8, u8)>)
    ensures
        r == hex_color_spec(encode_utf8(hex@)),
{
    let b = hex.as_bytes();
    let ghost bs = b@;
    assert(bs == encode_utf8(hex@));
    if b.len() == 3 {
        match (parse_hex_piece(b[0], b[0]), parse_hex_piece(b[1], b[1]), parse_hex_piece(b[2], b[2])) {
            (Some(r), Some(g), Some(bl)) => Some((r, g, bl)),
            _ => None,
        }
    } else if b.len() == 6 {
        assert(bs.subrange(0, 2) =~= seq![bs[0], bs[1]]);
        assert(bs.subrange(2, 4) =~= seq![bs[2], bs[3]]);
        assert(bs.subrange(4, 6) =~= seq![bs[4], bs[5]]);
        match (parse_hex_piece(b[0], b[1]), parse_hex_piece(b[2], b[3]), parse_hex_piece(b[4], b[5])) {
            (Some(r), Some(g), Some(bl)) => Some((r, g, bl)),
            _ => None,
        }
    } else {
        None
    }
}

/// The colours named by the supported CSS colour keywords (lower case).
pub open spec fn named_color(v: Seq<char>) -> Option<(u8, u8, u8)> {
    if v == "black"@ {
        Some((0, 0, 0))
    } else if v == "white"@ {
        Some((255, 255, 255))
    } else if v == "red"@ {
        Some((255, 0, 0))
    } else if v == "green"@ {
        Some((0, 128, 0))
    } else if v == "blue"@ {
        Some((0, 0, 255))
    } else if v == "gray"@ || v == "grey"@ {
        Some((128, 128, 128))
    } else if v == "silver"@ {
        Some((192, 192, 192))
    } else if v == "maroon"@ {
        Some((128, 0, 0))
    } else if v == "yellow"@ {
        Some((255, 255, 0))
    } else if v == "navy"@ {
        Some((0, 0, 128))
    } else {
        None
    }
}

/// The colour a CSS colour value names: `#rgb` / `#rrggbb`, or one of the
/// supported keywords in any case.
pub open spec fn parse_color_spec(value: Seq<char>) -> Option<(u8, u8, u8)> {
    let v = trim(value);
    if v.len() > 0 && v[0] == '#' {
        hex_color_spec(encode_utf8(v.drop_first()))
    } else {
        named_color(lower_seq(v))
    }
}

fn named_color_of(v: &[char]) -> (r: Option<(u8, u8, u8)>)
    ensures
        r == named_color(v@),
{
    if is_word(v, "black") {
        Some((0, 0, 0))
    } else if is_word(v, "white") {
        Some((255, 255, 255))
    } else if is_word(v, "red") {
        Some((255, 0, 0))
    } else if is_word(v, "green") {
        Some((0, 128, 0))
    } else if is_word(v, "blue") {
        Some((0, 0, 255))
    } else if is_word(v, "gray") || is_word(v, "grey") {
        Some((128, 128, 128))
    } else if is_word(v, "silver") {
        Some((192, 192, 192))
    } else if is_word(v, "maroon") {
        Some((128, 0, 0))
    } else if is_word(v, "yellow") {
        Some((255, 255, 0))
    } else if is_word(v, "navy") {
        Some((0, 0, 128))
    } else {
        None
    }
}

/// Parses a CSS colour: `#rgb` or `#rrggbb` hex, or one of the keywords
/// black, white, red, green, blue, gray/grey, silver, maroon, yellow and
/// navy in any case.
pub fn parse_color(value: &str) -> (r: Option<(u8, u8, u8)>)
    ensures
        r == parse_color_spec(value@),
{
    let v = trim_chars(to_chars(value).as_slice());
    if v.len() > 0 && v[0] == '#' {
        let rest = slice_chars(v.as_slice(), 1, v.len());
        assert(rest@ == v@.drop_first());
        let hex = from_chars(rest.as_slice());
        parse_hex(hex.as_str())
    } else {
        let l = lower_chars(v.as_slice());
        named_color_of(l.as_slice())
    }
}

/// `s` without leading quote characters (`"` or `'`).
pub open spec fn trim_quotes_start(s: Seq<char>) -> Seq<char>
    decreases s.len(),
{
    if s.len() > 0 && (s[0] == '"' || s[0] == '\'') {
        trim_quotes_start(s.drop_first())
    } else {
        s
    }
}

/// `s` without trailing quote characters.
pub open spec fn trim_quotes_end(s: Seq<char>) -> Seq<char>
    decreases s.len(),
{
    if s.len() > 0 && (s.last() == '"' || s.last() == '\'') {
        trim_quotes_end(s.drop_last())
    } else {
        s
    }
}

/// The first family of a `font-family` list, unquoted and trimmed, unless
/// that is empty.
pub open spec fn first_family_spec(value: Seq<char>) -> Option<Seq<char>> {
    let first = trim(crate::text::before_first(value, ','));
    let stripped = trim(trim_quotes_end(trim_quotes_start(first)));
    if stripped.len() == 0 {
        None
    } else {
        Some(stripped)
    }
}

fn trim_quotes(v: &[char]) -> (r: Vec<char>)
    ensures
        r@ == trim_quotes_end(trim_quotes_start(v@)),
{
    let mut a: usize = 0;
    assert(v@.skip(0) == v@);
    while a < v.len() && (v[a] == '"' || v[a] == '\'')
        invariant
            a <= v.len(),
            trim_quotes_start(v@.skip(a as int)) == trim_quotes_start(v@),
        decreases v.len() - a,
    {
        proof {
            let t = v@.skip(a as int);
            assert(t[0] == v@[a as int]);
            assert(t.drop_first() == v@.skip(a + 1));
        }
        a = a + 1;
    }
    proof {
        if a < v.len() {
            assert(v@.skip(a as int)[0] == v@[a as int]);
        }
    }
    let mut b: usize = v.len();
    assert(v@.subrange(a as int, v.len() as int) == v@.skip(a as int));
    while b > a && (v[b - 1] == '"' || v[b - 1] == '\'')
        invariant
            a <= b <= v.len(),
            trim_quotes_end(v@.subrange(a as int, b as int)) == trim_quotes_end(v@.skip(a as int)),
        decreases b,
    {
        proof {
            let t = v@.subrange(a as int, b as int);
            assert(t.last() == v@[b - 1]);
            assert(t.drop_last() == v@.subrange(a as int, b - 1));
        }
        b = b - 1;
    }
    proof {
        let t = v@.subrange(a as int, b as int);
        if b > a {
            assert(t.last() == v@[b - 1]);
        }
    }
    slice_chars(v, a, b)
}

/// The first family of a `font-family` value, with surrounding quotes and
/// white space removed; `None` when that leaves nothing.
pub fn first_family(value: &str) -> (r: Option<String>)
    ensures
        match (r, first_family_spec(value@)) {
            (Some(f), Some(g)) => f@ == g,
            (None, None) => true,
            _ => false,
        },
{
    let v = to_chars(value);
    let first = match find_char(v.as_slice(), ',') {
        Some(i) => {
            assert(v@.subrange(0, i as int) == v@.take(i as int));
            slice_chars(v.as_slice(), 0, i)
        },
        None => {
            assert(v@.subrange(0, v.len() as int) == v@);
            slice_chars(v.as_slice(), 0, v.len())
        },
    };
    let first = trim_chars(first.as_slice());
    let unquoted = trim_quotes(first.as_slice());
    let stripped = trim_chars(unquoted.as_slice());
    if stripped.len() == 0 {
        None
    } else {
        Some(from_chars(stripped.as_slice()))
    }
}

/// The unit of a CSS length.
#[derive(Debug, Clone, Copy, PartialEq, Eq, Structural)]
pub enum LengthUnit {
    /// `px`, or no unit at all.
    Px,
    /// `pt`, 96/72 of a pixel.
    Pt,
    /// `em` or `rem`, a multiple of the parent font size.
    Em,
    /// `%`, a hundredth of the parent font size.
    Percent,
}

/// The unit a length's unit text names, in any case.
pub open spec fn length_unit_spec(unit: Seq<char>) -> Option<LengthUnit> {
    let u = lower_seq(unit);
    if u.len() == 0 || u == "px"@ {
        Some(LengthUnit::Px)
    } else if u == "pt"@ {
        Some(LengthUnit::Pt)
    } else if u == "em"@ || u == "rem"@ {
        Some(LengthUnit::Em)
    } else if u == "%"@ {
        Some(LengthUnit::Percent)
    } else {
        None
    }
}

/// Names the unit of a CSS length: empty or `px`, `pt`, `em` or `rem`,
/// `%` (any case); `None` for any other unit.
pub fn length_unit(unit: &str) -> (r: Option<LengthUnit>)
    ensures
        r == length_unit_spec(unit@),
{
    let u = lower_chars(to_chars(unit).as_slice());
    if u.len() == 0 || is_word(u.as_slice(), "px") {
        Some(LengthUnit::Px)
    } else if is_word(u.as_slice(), "pt") {
        Some(LengthUnit::Pt)
    } else if is_word(u.as_slice(), "em") || is_word(u.as_slice(), "rem") {
        Some(LengthUnit::Em)
    } else if is_word(u.as_slice(), "%") {
        Some(LengthUnit::Percent)
    } else {
        None
    }
}

/// One stylesheet rule: `(selector, property, value)`.
pub type RuleView = (Seq<char>, Seq<char>, Seq<char>);

/// The rules one selector of a rule set contributes: one per declaration
/// when the trimmed selector is a bare type selector, none otherwise.
pub open spec fn rules_for_selector(sel: Seq<char>, decls: Seq<(Seq<char>, Seq<char>)>) -> Seq<
    RuleView,
> {
    let t = trim(sel);
    if is_type_selector_spec(t) {
        decls.map_values(|d: (Seq<char>, Seq<char>)| (lower_seq(t), d.0, d.1))
    } else {
        Seq::empty()
    }
}

/// The rules of a comma-separated selector list, in order.
pub open spec fn selector_rules(sels: Seq<Seq<char>>, decls: Seq<(Seq<char>, Seq<char>)>) -> Seq<
    RuleView,
>
    decreases sels.len(),
{
    if sels.len() == 0 {
        Seq::empty()
    } else {
        selector_rules(sels.drop_last(), decls) + rules_for_selector(sels.last(), decls)
    }
}

/// The type-selector rules of a `<style>` block: each `selectors { body }`
/// set in turn, stopping at a `{` without a matching `}`.
pub open spec fn rules_of(css: Seq<char>) -> Seq<RuleView>
    decreases css.len(),
{
    match find_first(css, seq!['{']) {
        None => Seq::empty(),
        Some(b) => {
            proof {
                lemma_find_from_bounds(css, seq!['{'], 0);
            }
            let after = css.skip(b + 1);
            match find_first(after, seq!['}']) {
                None => Seq::empty(),
                Some(c) => {
                    proof {
                        lemma_find_from_bounds(after, seq!['}'], 0);
                    }
                    selector_rules(split_on(trim(css.take(b)), ','), decls_spec(after.take(c)))
                        + rules_of(after.skip(c + 1))
                },
            }
        },
    }
}

/// The user stylesheet collected from a chapter's `<style>` blocks. Only
/// type selectors are kept; other rules are dropped.
#[derive(Debug)]
pub struct Stylesheet {
    rules: Vec<(String, String, String)>,
}

impl View for Stylesheet {
    type V = Seq<RuleView>;

    closed spec fn view(&self) -> Seq<RuleView> {
        self.rules@.map_values(|r: (String, String, String)| (r.0@, r.1@, r.2@))
    }
}

/// The `(property, value)` pairs of the rules whose selector is `tag`, in
/// stylesheet order.
pub open spec fn decls_for_tag(rules: Seq<RuleView>, tag: Seq<char>) -> Seq<(Seq<char>, Seq<char>)>
    decreases rules.len(),
{
    if rules.len() == 0 {
        Seq::empty()
    } else {
        let p = decls_for_tag(rules.drop_last(), tag);
        if rules.last().0 == tag {
            p.push((rules.last().1, rules.last().2))
        } else {
            p
        }
    }
}

impl Stylesheet {
    /// An empty stylesheet.
    pub fn new() -> (r: Stylesheet)
        ensures
            r@ == Seq::<RuleView>::empty(),
    {
        let r = Stylesheet { rules: Vec::new() };
        assert(r@ =~= Seq::<RuleView>::empty());
        r
    }

    fn push_rules(&mut self, sel: &[char], decls: &Vec<(String, String)>)
        ensures
            final(self)@ == old(self)@ + rules_for_selector(sel@, decl_views(decls@)),
    {
        let t = trim_chars(sel);
        let ts = from_chars(t.as_slice());
        if !is_type_selector(ts.as_str()) {
            assert(old(self)@ + Seq::<RuleView>::empty() == old(self)@);
            return;
        }
        let lt = lower_chars(t.as_slice());
        let mut i: usize = 0;
        let ghost start = self@;
        while i < decls.len()
            invariant
                i <= decls.len(),
                lt@ == lower_seq(trim(sel@)),
                self@ == start + decl_views(decls@).take(i as int).map_values(
                    |d: (Seq<char>, Seq<char>)| (lower_seq(trim(sel@)), d.0, d.1),
                ),
            decreases decls.len() - i,
        {
            let sel_s = from_chars(lt.as_slice());
            let p = decls[i].0.clone();
            let v = decls[i].1.clone();
            let ghost before = self@;
            self.rules.push((sel_s, p, v));
            proof {
                let f = |d: (Seq<char>, Seq<char>)| (lower_seq(trim(sel@)), d.0, d.1);
                assert(decl_views(decls@).take(i + 1) == decl_views(decls@).take(i as int).push(
                    decl_views(decls@)[i as int],
                ));
                assert(self@ =~= before.push(f(decl_views(decls@)[i as int])));
                assert(decl_views(decls@).take(i + 1).map_values(f) =~= decl_views(decls@).take(
                    i as int,
                ).map_values(f).push(f(decl_views(decls@)[i as int])));
            }
            i = i + 1;
        }
        assert(decl_views(decls@).take(decls.len() as int) == decl_views(decls@));
    }

    /// Parses one `<style>` block and appends its type-selector rules: for
    /// each `selectors { declarations }` set, every declaration is recorded
    /// under every bare type selector of the comma-separated list
    /// (lower-cased). Other selectors are dropped; a `{` without a closing
    /// `}` ends the parse.
    pub fn add_source(&mut self, css: &str)
        ensures
            final(self)@ == old(self)@ + rules_of(css@),
    {
        let v = to_chars(css);
        let open = vec!['{'];
        let close = vec!['}'];
        assert(open@ == seq!['{']);
        assert(close@ == seq!['}']);
        let mut pos: usize = 0;
        let ghost start = self@;
        assert(v@.skip(0) == v@);
        assert(start + Seq::<RuleView>::empty() == start);
        loop
            invariant
                pos <= v.len(),
                v@ == css@,
                start == old(self)@,
                open@ == seq!['{'],
                close@ == seq!['}'],
                exists|done: Seq<RuleView>|
                    self@ == start + done && done + rules_of(v@.skip(pos as int)) == rules_of(v@),
            decreases v.len() - pos,
        {
            let ghost rest = v@.skip(pos as int);
            let ghost done = choose|done: Seq<RuleView>|
                self@ == start + done && done + rules_of(v@.skip(pos as int)) == rules_of(v@);
            proof {
                lemma_find_from_shift(v@, seq!['{'], pos as int, 0);
                lemma_find_from_bounds(v@, seq!['{'], pos as int);
            }
            let brace = match find_chars_from(v.as_slice(), open.as_slice(), pos) {
                Some(b) => b,
                None => {
                    assert(rules_of(rest) == Seq::<RuleView>::empty());
                    assert(done + Seq::<RuleView>::empty() == done);
                    return;
                },
            };
            let after_pos = brace + 1;
            let ghost after = rest.skip(brace - pos + 1);
            assert(after == v@.skip(after_pos as int));
            proof {
                lemma_find_from_shift(v@, seq!['}'], after_pos as int, 0);
                lemma_find_from_bounds(v@, seq!['}'], after_pos as int);
            }
            let close_at = match find_chars_from(v.as_slice(), close.as_slice(), after_pos) {
                Some(c) => c,
                None => {
                    assert(rules_of(rest) == Seq::<RuleView>::empty());
                    assert(done + Seq::<RuleView>::empty() == done);
                    return;
                },
            };
            let selector = slice_chars(v.as_slice(), pos, brace);
            assert(selector@ == rest.take(brace - pos));
            let selector = trim_chars(selector.as_slice());
            let body = slice_chars(v.as_slice(), after_pos, close_at);
            assert(body@ == after.take(close_at - after_pos));
            let cleaned = strip_comments_chars(body.as_slice());
            let decls = decls_of_chars(cleaned.as_slice());
            let sels = split_chars(selector.as_slice(), ',');
            let ghost sel_views = char_views(sels@);
            let ghost dv = decl_views(decls@);
            let ghost before_set = self@;
            let mut k: usize = 0;
            while k < sels.len()
                invariant
                    k <= sels.len(),
                    sel_views == char_views(sels@),
                    self@ == before_set + selector_rules(sel_views.take(k as int), dv),
                    dv == decl_views(decls@),
                decreases sels.len() - k,
            {
                self.push_rules(sels[k].as_slice(), &decls);
                proof {
                    let t = sel_views.take(k + 1);
                    assert(t.drop_last() == sel_views.take(k as int));
                    assert(t.last() == sels@[k as int]@);
                }
                k = k + 1;
            }
            proof {
                assert(sel_views.take(sels.len() as int) == sel_views);
                let here = selector_rules(sel_views, dv);
                assert(after.skip(close_at - after_pos + 1) == v@.skip(close_at + 1));
                assert(rules_of(rest) == here + rules_of(v@.skip(close_at + 1)));
                assert(self@ == start + (done + here));
                assert((done + here) + rules_of(v@.skip(close_at + 1)) == rules_of(v@));
            }
            pos = close_at + 1;
        }
    }

    /// The `(property, value)` declarations of every rule whose selector
    /// is `tag`, in stylesheet order.
    pub fn declarations_for(&self, tag: &str) -> (r: Vec<(String, String)>)
        ensures
            decl_views(r@) == decls_for_tag(self@, tag@),
    {
        let mut out: Vec<(String, String)> = Vec::new();
        let mut i: usize = 0;
        while i < self.rules.len()
            invariant
                i <= self.rules.len(),
                decl_views(out@) == decls_for_tag(self@.take(i as int), tag@),
            decreases self.rules.len() - i,
        {
            let ghost t = self@.take(i + 1);
            assert(t.drop_last() == self@.take(i as int));
            assert(t.last() == self@[i as int]);
            if str_eq(self.rules[i].0.as_str(), tag) {
                let p = self.rules[i].1.clone();
                let v = self.rules[i].2.clone();
                let ghost before = out@;
                out.push((p, v));
                assert(decl_views(out@) =~= decl_views(before).push((p@, v@)));
            }
            i = i + 1;
        }
        assert(self@.take(self.rules.len() as int) == self@);
        out
    }
}

/// Horizontal alignment of a block's lines.
#[derive(Debug, Clone, Copy, PartialEq, Eq, Structural)]
pub enum TextAlign {
    /// `left` / `start`.
    Start,
    /// `right` / `end`.
    End,
    /// `center`.
    Center,
    /// `justify`.
    Justify,
}

/// What one CSS declaration asks of an element's style. Lengths keep their
/// text (the measuring code resolves them against font sizes).
#[derive(Debug)]
pub enum StyleDecl {
    /// `font-family`: the first family of the list.
    FontFamily(String),
    /// `font-size`: a length or percentage, as written.
    FontSize(String),
    /// `font-weight`.
    FontWeight(u16),
    /// `font-style`: whether the text is italic.
    FontStyle(bool),
    /// `text-align`.
    TextAlign(TextAlign),
    /// `line-height`: a bare multiplier or a length, as written.
    LineHeight(String),
    /// `margin-top`: a length or percentage, as written.
    MarginTop(String),
    /// `margin-bottom`: a length or percentage, as written.
    MarginBottom(String),
    /// `color`.
    Color((u8, u8, u8)),
    /// A property outside the subset, or a value it cannot use.
    Ignored,
}

/// `s` without trailing `;` characters (`str::trim_end_matches(';')`).
pub open spec fn trim_semicolons_end(s: Seq<char>) -> Seq<char>
    decreases s.len(),
{
    if s.len() > 0 && s.last() == ';' {
        trim_semicolons_end(s.drop_last())
    } else {
        s
    }
}

/// A declaration's value as the style code reads it: trimmed, trailing
/// `;`s removed, trimmed again.
pub open spec fn declared_value(value: Seq<char>) -> Seq<char> {
    trim(trim_semicolons_end(trim(value)))
}

/// The `font-style` keywords: italic for `italic`/`oblique`, upright for
/// `normal` (any case).
pub open spec fn font_style_spec(v: Seq<char>) -> Option<bool> {
    let l = lower_seq(v);
    if l == "italic"@ || l == "oblique"@ {
        Some(true)
    } else if l == "normal"@ {
        Some(false)
    } else {
        None
    }
}

/// The `text-align` keywords (any case).
pub open spec fn text_align_spec(v: Seq<char>) -> Option<TextAlign> {
    let l = lower_seq(v);
    if l == "left"@ || l == "start"@ {
        Some(TextAlign::Start)
    } else if l == "right"@ || l == "end"@ {
        Some(TextAlign::End)
    } else if l == "center"@ {
        Some(TextAlign::Center)
    } else if l == "justify"@ {
        Some(TextAlign::Justify)
    } else {
        None
    }
}

/// `r` is what the declaration `prop: value` asks for.
pub open spec fn classified(r: StyleDecl, prop: Seq<char>, value: Seq<char>) -> bool {
    let v = declared_value(value);
    if prop == "font-family"@ {
        match first_family_spec(v) {
            Some(f) => r matches StyleDecl::FontFamily(s) && s@ == f,
            None => r is Ignored,
        }
    } else if prop == "font-size"@ {
        r matches StyleDecl::FontSize(s) && s@ == v
    } else if prop == "font-weight"@ {
        match parse_weight_spec(v) {
            Some(w) => r == StyleDecl::FontWeight(w),
            None => r is Ignored,
        }
    } else if prop == "font-style"@ {
        match font_style_spec(v) {
            Some(b) => r == StyleDecl::FontStyle(b),
            None => r is Ignored,
        }
    } else if prop == "text-align"@ {
        match text_align_spec(v) {
            Some(a) => r == StyleDecl::TextAlign(a),
            None => r is Ignored,
        }
    } else if prop == "line-height"@ {
        r matches StyleDecl::LineHeight(s) && s@ == v
    } else if prop == "margin-top"@ {
        r matches StyleDecl::MarginTop(s) && s@ == v
    } else if prop == "margin-bottom"@ {
        r matches StyleDecl::MarginBottom(s) && s@ == v
    } else if prop == "color"@ {
        match parse_color_spec(v) {
            Some(c) => r == StyleDecl::Color(c),
            None => r is Ignored,
        }
    } else {
        r is Ignored
    }
}

fn declared_value_chars(value: &str) -> (r: Vec<char>)
    ensures
        r@ == declared_value(value@),
{
    let t = trim_chars(to_chars(value).as_slice());
    let mut b: usize = t.len();
    assert(t@.take(t.len() as int) == t@);
    while b > 0 && t[b - 1] == ';'
        invariant
            b <= t.len(),
            trim_semicolons_end(t@.take(b as int)) == trim_semicolons_end(t@),
        decreases b,
    {
        proof {
            let u = t@.take(b as int);
            assert(u.last() == t@[b - 1]);
            assert(u.drop_last() == t@.take(b - 1));
        }
        b = b - 1;
    }
    proof {
        let u = t@.take(b as int);
        if b > 0 {
            assert(u.last() == t@[b - 1]);
        }
    }
    let cut = slice_chars(t.as_slice(), 0, b);
    assert(cut@ == t@.take(b as int));
    trim_chars(cut.as_slice())
}

/// Reads one CSS declaration of the supported subset: `font-family`,
/// `font-size`, `font-weight`, `font-style`, `text-align`, `line-height`,
/// `margin-top`, `margin-bottom` and `color`. The value is trimmed and
/// loses trailing `;`s; keyword and colour values that cannot be read,
/// and every other property, are `Ignored`.
pub fn classify_declaration(prop: &str, value: &str) -> (r: StyleDecl)
    ensures
        classified(r, prop@, value@),
{
    let v = declared_value_chars(value);
    let vs = from_chars(v.as_slice());
    if str_eq(prop, "font-family") {
        match first_family(vs.as_str()) {
            Some(f) => StyleDecl::FontFamily(f),
            None => StyleDecl::Ignored,
        }
    } else if str_eq(prop, "font-size") {
        StyleDecl::FontSize(vs)
    } else if str_eq(prop, "font-weight") {
        match parse_weight(vs.as_str()) {
            Some(w) => StyleDecl::FontWeight(w),
            None => StyleDecl::Ignored,
        }
    } else if str_eq(prop, "font-style") {
        let l = lower_chars(v.as_slice());
        if is_word(l.as_slice(), "italic") || is_word(l.as_slice(), "oblique") {
            StyleDecl::FontStyle(true)
        } else if is_word(l.as_slice(), "normal") {
            StyleDecl::FontStyle(false)
        } else {
            StyleDecl::Ignored
        }
    } else if str_eq(prop, "text-align") {
        let l = lower_chars(v.as_slice());
        if is_word(l.as_slice(), "left") || is_word(l.as_slice(), "start") {
            StyleDecl::TextAlign(TextAlign::Start)
        } else if is_word(l.as_slice(), "right") || is_word(l.as_slice(), "end") {
            StyleDecl::TextAlign(TextAlign::End)
        } else if is_word(l.as_slice(), "center") {
            StyleDecl::TextAlign(TextAlign::Center)
        } else if is_word(l.as_slice(), "justify") {
            StyleDecl::TextAlign(TextAlign::Justify)
        } else {
            StyleDecl::Ignored
        }
    } else if str_eq(prop, "line-height") {
        StyleDecl::LineHeight(vs)
    } else if str_eq(prop, "margin-top") {
        StyleDecl::MarginTop(vs)
    } else if str_eq(prop, "margin-bottom") {
        StyleDecl::MarginBottom(vs)
    } else if str_eq(prop, "color") {
        match parse_color(vs.as_str()) {
            Some(c) => StyleDecl::Color(c),
            None => StyleDecl::Ignored,
        }
    } else {
        StyleDecl::Ignored
    }
}

/// Whether `tag` names a heading element, `h1` to `h6`.
pub open spec fn is_heading(tag: Seq<char>) -> bool {
    tag.len() == 2 && tag[0] == 'h' && '1' <= tag[1] && tag[1] <= '6'
}

/// The font weight an element starts from before its declarations apply:
/// headings are bold (700), every other element inherits `parent`.
pub fn element_weight(tag: &str, parent: u16) -> (r: u16)
    ensures
        r == (if is_heading(tag@) {
            700
        } else {
            parent
        }),
{
    let t = to_chars(tag);
    if t.len() == 2 && t[0] == 'h' && '1' <= t[1] && t[1] <= '6' {
        700
    } else {
        parent
    }
}

/// Law: `text-align` keywords map to their alignment, in any case and
/// around white space and trailing `;`s: `left` and `start` to the start,
/// `right` and `end` to the end, `center` and `justify` to themselves; any
/// other value is ignored. So each alignment comes only from its own
/// keywords.
pub proof fn law_text_align_keywords(r: StyleDecl, prop: Seq<char>, value: Seq<char>)
    requires
        prop == seq!['t', 'e', 'x', 't', '-', 'a', 'l', 'i', 'g', 'n'],
        classified(r, prop, value),
    ensures
        ({
            let l = lower_seq(trim(trim_semicolons_end(trim(value))));
            &&& (l == seq!['r', 'i', 'g', 'h', 't'] || l == seq!['e', 'n', 'd']) <==> r
                == StyleDecl::TextAlign(TextAlign::End)
            &&& (l == seq!['l', 'e', 'f', 't'] || l == seq!['s', 't', 'a', 'r', 't']) <==> r
                == StyleDecl::TextAlign(TextAlign::Start)
            &&& l == seq!['c', 'e', 'n', 't', 'e', 'r'] <==> r == StyleDecl::TextAlign(
                TextAlign::Center,
            )
            &&& l == seq!['j', 'u', 's', 't', 'i', 'f', 'y'] <==> r == StyleDecl::TextAlign(
                TextAlign::Justify,
            )
            &&& r is TextAlign || r is Ignored
        }),
{
    reveal_strlit("font-family");
    reveal_strlit("font-size");
    reveal_strlit("font-weight");
    reveal_strlit("font-style");
    reveal_strlit("text-align");
    reveal_strlit("left");
    reveal_strlit("start");
    reveal_strlit("right");
    reveal_strlit("end");
    reveal_strlit("center");
    reveal_strlit("justify");
    assert("left"@ =~= seq!['l', 'e', 'f', 't']);
    assert("start"@ =~= seq!['s', 't', 'a', 'r', 't']);
    assert("right"@ =~= seq!['r', 'i', 'g', 'h', 't']);
    assert("end"@ =~= seq!['e', 'n', 'd']);
    assert("center"@ =~= seq!['c', 'e', 'n', 't', 'e', 'r']);
    assert("justify"@ =~= seq!['j', 'u', 's', 't', 'i', 'f', 'y']);
    assert(prop =~= "text-align"@);
    assert(prop != "font-family"@);
    assert(prop != "font-size"@);
    assert(prop != "font-weight"@);
    assert(prop != "font-style"@);
}

} // verus!
