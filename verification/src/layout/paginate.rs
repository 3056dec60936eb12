//! Archive-path resolution for `<img src>` references and SVG sniffing.

use vstd::prelude::*;


use vstd::utf8::{decode_utf8, valid_utf8};

use crate::format::BookSource;

use crate::text::{
    before_first, concat_chars, ends_with, ends_with_chars, find_char, find_chars_from, find_first,
    from_chars, join_with, lower_chars, lower_seq, slice_chars, split_on, starts_with,
    starts_with_chars, to_chars, trim_bounds, trim_start,
};

verus! {

/// One step of `..`/`.` collapsing: the stack of kept segments after
/// reading `seg`.
pub open spec fn collapse_step(stack: Seq<Seq<char>>, seg: Seq<char>) -> Seq<Seq<char>> {
    if seg.len() == 0 || seg == seq!['.'] {
        stack
    } else if seg == seq!['.', '.'] {
        if stack.len() > 0 {
            stack.drop_last()
        } else {
            stack
        }
    } else {
        stack.push(seg)
    }
}

/// The segments kept after reading `segs` left to right.
pub open spec fn collapse_all(segs: Seq<Seq<char>>) -> Seq<Seq<char>>
    decreases segs.len(),
{
    if segs.len() == 0 {
        Seq::<Seq<char>>::empty()
    } else {
        collapse_step(collapse_all(segs.drop_last()), segs.last())
    }
}

/// A `/`-separated archive path with empty and `.` segments dropped and
/// each `..` removing the segment before it.
pub open spec fn collapse_path(path: Seq<char>) -> Seq<char> {
    join_with(collapse_all(split_on(path, '/')), seq!['/'])
}

/// `s` with every leading `./` removed (`str::trim_start_matches("./")`).
pub open spec fn strip_dot_slash(s: Seq<char>) -> Seq<char>
    decreases s.len(),
{
    if s.len() >= 2 && s[0] == '.' && s[1] == '/' {
        strip_dot_slash(s.skip(2))
    } else {
        s
    }
}

/// The index of the last `c` in `s`.
pub open spec fn last_index_of(s: Seq<char>, c: char) -> Option<int>
    decreases s.len(),
{
    if s.len() == 0 {
        None
    } else if s.last() == c {
        Some(s.len() - 1)
    } else {
        last_index_of(s.drop_last(), c)
    }
}

/// The directory part of an archive path: everything up to and including
/// its last `/`, or nothing when it has none.
pub open spec fn dir_of(base: Seq<char>) -> Seq<char> {
    match last_index_of(base, '/') {
        Some(i) => base.take(i + 1),
        None => Seq::<char>::empty(),
    }
}

/// The reference itself, without fragment, query and leading `./`.
pub open spec fn bare_reference(src: Seq<char>) -> Seq<char> {
    strip_dot_slash(before_first(before_first(src, '#'), '?'))
}

/// Where an `<img src>` lives in the archive, given the path of the
/// chapter that references it.
pub open spec fn resolve_spec(src: Seq<char>, base_path: Seq<char>) -> Seq<char> {
    let s = bare_reference(src);
    if s.len() > 0 && s[0] == '/' {
        collapse_path(s.drop_first())
    } else {
        collapse_path(dir_of(base_path) + s)
    }
}

/// The views of a stack of segments.
pub open spec fn views(stack: Seq<Vec<char>>) -> Seq<Seq<char>> {
    stack.map_values(|w: Vec<char>| w@)
}

fn collapse_push(stack: &mut Vec<Vec<char>>, seg: Vec<char>)
    ensures
        views(final(stack)@) == collapse_step(views(old(stack)@), seg@),
{
    let ghost s = seg@;
    if seg.len() == 0 || (seg.len() == 1 && seg[0] == '.') {
        proof {
            if seg.len() == 1 {
                assert(s =~= seq!['.']);
            }
        }
    } else if seg.len() == 2 && seg[0] == '.' && seg[1] == '.' {
        assert(s =~= seq!['.', '.']);
        assert(s != seq!['.']) by {
            assert(s.len() != seq!['.'].len());
        }
        let _ = stack.pop();
        assert(views(stack@) =~= collapse_step(views(old(stack)@), s));
    } else {
        proof {
            if s.len() == 1 {
                assert(s != seq!['.']) by {
                    assert(s[0] != seq!['.'][0]);
                }
            }
            if s.len() == 2 {
                assert(s != seq!['.', '.']) by {
                    if s == seq!['.', '.'] {
                        assert(s[0] == '.' && s[1] == '.');
                    }
                }
            }
            if s.len() != 1 {
                assert(s != seq!['.']) by {
                    assert(s.len() != seq!['.'].len());
                }
            }
            if s.len() != 2 {
                assert(s != seq!['.', '.']) by {
                    assert(s.len() != seq!['.', '.'].len());
                }
            }
        }
        stack.push(seg);
        assert(views(stack@) =~= views(old(stack)@).push(s));
    }
}

fn join_segments(stack: &Vec<Vec<char>>) -> (r: Vec<char>)
    ensures
        r@ == join_with(views(stack@), seq!['/']),
{
    let mut out: Vec<char> = Vec::new();
    let mut i: usize = 0;
    while i < stack.len()
        invariant
            i <= stack.len(),
            out@ == join_with(views(stack@).take(i as int), seq!['/']),
        decreases stack.len() - i,
    {
        let ghost prev = views(stack@).take(i as int);
        let ghost next = views(stack@).take(i + 1);
        assert(next.drop_last() == prev);
        assert(next.last() == stack@[i as int]@);
        if i == 0 {
            out = slice_chars(stack[0].as_slice(), 0, stack[0].len());
            assert(stack[0]@.subrange(0, stack[0]@.len() as int) == stack[0]@);
        } else {
            let sep = vec!['/'];
            let with_sep = concat_chars(out.as_slice(), sep.as_slice());
            out = concat_chars(with_sep.as_slice(), stack[i].as_slice());
            assert(sep@ == seq!['/']);
        }
        i = i + 1;
    }
    assert(views(stack@).take(stack.len() as int) == views(stack@));
    out
}

/// Collapses `.` and `..` segments in a `/`-separated archive path and
/// drops empty segments.
pub fn collapse_segments(path: &str) -> (r: String)
    ensures
        r@ == collapse_path(path@),
{
    let v = to_chars(path);
    let r = collapse_chars(v.as_slice());
    from_chars(r.as_slice())
}

fn collapse_chars(v: &[char]) -> (r: Vec<char>)
    ensures
        r@ == collapse_path(v@),
{
    let mut stack: Vec<Vec<char>> = Vec::new();
    let mut cur: Vec<char> = Vec::new();
    let ghost mut done: Seq<Seq<char>> = Seq::empty();
    let mut i: usize = 0;
    while i < v.len()
        invariant
            i <= v.len(),
            split_on(v@.take(i as int), '/') == done.push(cur@),
            views(stack@) == collapse_all(done),
        decreases v.len() - i,
    {
        let ghost t = v@.take(i + 1);
        assert(t.drop_last() == v@.take(i as int));
        assert(t.last() == v@[i as int]);
        if v[i] == '/' {
            let seg = cur;
            cur = Vec::new();
            proof {
                assert(collapse_all(done.push(seg@)) == collapse_step(collapse_all(done), seg@)) by {
                    assert(done.push(seg@).drop_last() == done);
                }
            }
            collapse_push(&mut stack, seg);
            proof {
                done = done.push(seg@);
                assert(split_on(t, '/') == done.push(cur@));
            }
        } else {
            let ghost old_cur = cur@;
            cur.push(v[i]);
            proof {
                let p = split_on(v@.take(i as int), '/');
                assert(p.len() - 1 == done.len());
                assert(p.update(p.len() - 1, p.last().push(v@[i as int])) =~= done.push(cur@));
            }
        }
        i = i + 1;
    }
    assert(v@.take(v.len() as int) == v@);
    let ghost last = cur@;
    collapse_push(&mut stack, cur);
    proof {
        assert(done.push(last).drop_last() == done);
        assert(views(stack@) == collapse_all(split_on(v@, '/')));
    }
    join_segments(&stack)
}

fn strip_dot_slash_bounds(v: &[char]) -> (a: usize)
    ensures
        a <= v.len(),
        v@.skip(a as int) == strip_dot_slash(v@),
{
    let mut a: usize = 0;
    proof {
        assert(v@.skip(0) == v@);
    }
    while a < v.len() && v.len() - a >= 2 && v[a] == '.' && v[a + 1] == '/'
        invariant
            a <= v.len(),
            strip_dot_slash(v@.skip(a as int)) == strip_dot_slash(v@),
        decreases v.len() - a,
    {
        proof {
            let t = v@.skip(a as int);
            assert(t[0] == v@[a as int] && t[1] == v@[a + 1]);
            assert(t.skip(2) == v@.skip(a + 2));
        }
        a = a + 2;
    }
    proof {
        let t = v@.skip(a as int);
        if t.len() >= 2 {
            assert(t[0] == v@[a as int] && t[1] == v@[a + 1]);
        }
    }
    a
}

fn last_slash(v: &[char]) -> (r: Option<usize>)
    ensures
        last_index_of(v@, '/') == (match r {
            Some(i) => Some(i as int),
            None => None,
        }),
        r matches Some(i) ==> i < v.len(),
{
    let mut j: usize = v.len();
    assert(v@.take(v.len() as int) == v@);
    while j > 0
        invariant
            j <= v.len(),
            last_index_of(v@, '/') == last_index_of(v@.take(j as int), '/'),
        decreases j,
    {
        let ghost t = v@.take(j as int);
        assert(t.last() == v@[j - 1]);
        assert(t.drop_last() == v@.take(j - 1));
        if v[j - 1] == '/' {
            return Some(j - 1);
        }
        j = j - 1;
    }
    assert(v@.take(0).len() == 0);
    None
}

fn before_char(v: &[char], c: char) -> (r: Vec<char>)
    ensures
        r@ == before_first(v@, c),
{
    match find_char(v, c) {
        Some(i) => {
            assert(v@.subrange(0, i as int) == v@.take(i as int));
            slice_chars(v, 0, i)
        },
        None => {
            assert(v@.subrange(0, v.len() as int) == v@);
            slice_chars(v, 0, v.len())
        },
    }
}

/// Resolves an `<img src>` against the chapter's archive-internal path.
///
/// The fragment and query are dropped, then any leading `./`; a reference
/// starting with `/` is taken from the archive root, any other one from the
/// chapter's directory; `.` and `..` segments are then collapsed.
pub fn resolve_path(src: &str, base_path: &str) -> (r: String)
    ensures
        r@ == resolve_spec(src@, base_path@),
{
    let v = to_chars(src);
    let no_frag = before_char(v.as_slice(), '#');
    let no_query = before_char(no_frag.as_slice(), '?');
    let a = strip_dot_slash_bounds(no_query.as_slice());
    let s = slice_chars(no_query.as_slice(), a, no_query.len());
    assert(s@ == bare_reference(src@));
    if s.len() > 0 && s[0] == '/' {
        let rest = slice_chars(s.as_slice(), 1, s.len());
        assert(rest@ == s@.drop_first());
        let r = collapse_chars(rest.as_slice());
        return from_chars(r.as_slice());
    }
    let base = to_chars(base_path);
    let dir = match last_slash(base.as_slice()) {
        Some(i) => slice_chars(base.as_slice(), 0, i + 1),
        None => Vec::new(),
    };
    assert(dir@ == dir_of(base_path@));
    let combined = concat_chars(dir.as_slice(), s.as_slice());
    let r = collapse_chars(combined.as_slice());
    from_chars(r.as_slice())
}

/// `s` with every leading byte-order mark removed
/// (`str::trim_start_matches('\u{FEFF}')`).
pub open spec fn strip_bom(s: Seq<char>) -> Seq<char>
    decreases s.len(),
{
    if s.len() > 0 && s[0] == '\u{FEFF}' {
        strip_bom(s.drop_first())
    } else {
        s
    }
}

/// The first (at most) 512 bytes of a resource, which is all the SVG
/// sniffing looks at.
pub open spec fn sniff_head(bytes: Seq<u8>) -> Seq<u8> {
    if bytes.len() <= 512 {
        bytes
    } else {
        bytes.take(512)
    }
}

/// Whether a resource looks like SVG: by the extension of its `src`, or by
/// an `<svg` (or an XML declaration followed somewhere by `<svg`) at the
/// start of its first 512 bytes, which must be valid UTF-8.
pub open spec fn is_svg_spec(src: Seq<char>, bytes: Seq<u8>) -> bool {
    let lower = lower_seq(src);
    if ends_with(lower, seq!['.', 's', 'v', 'g']) || ends_with(lower, seq!['.', 's', 'v', 'g', 'z']) {
        true
    } else if !valid_utf8(sniff_head(bytes)) {
        false
    } else {
        let t = trim_start(strip_bom(decode_utf8(sniff_head(bytes))));
        if starts_with(t, seq!['<', 's', 'v', 'g']) {
            true
        } else if starts_with(t, seq!['<', '?', 'x', 'm', 'l']) {
            find_first(t, seq!['<', 's', 'v', 'g']) is Some
        } else {
            false
        }
    }
}

/// Trusted: `std::str::from_utf8`, which accepts exactly the well-formed
/// UTF-8 byte strings and then yields the characters they encode.
#[verifier::external_body]
pub(crate) fn utf8_text(bytes: &[u8]) -> (r: Option<&str>)
    ensures
        r is Some <==> valid_utf8(bytes@),
        r matches Some(t) ==> t@ == decode_utf8(bytes@),
{
    std::str::from_utf8(bytes).ok()
}

fn bytes_prefix(bytes: &[u8], n: usize) -> (r: Vec<u8>)
    requires
        n <= bytes.len(),
    ensures
        r@ == bytes@.take(n as int),
{
    let mut r: Vec<u8> = Vec::new();
    let mut i: usize = 0;
    while i < n
        invariant
            i <= n <= bytes.len(),
            r@ == bytes@.take(i as int),
        decreases n - i,
    {
        r.push(bytes[i]);
        assert(bytes@.take(i + 1) == bytes@.take(i as int).push(bytes@[i as int]));
        i = i + 1;
    }
    r
}

fn strip_bom_start(v: &[char]) -> (a: usize)
    ensures
        a <= v.len(),
        v@.skip(a as int) == strip_bom(v@),
{
    let mut a: usize = 0;
    assert(v@.skip(0) == v@);
    while a < v.len() && v[a] == '\u{FEFF}'
        invariant
            a <= v.len(),
            strip_bom(v@.skip(a as int)) == strip_bom(v@),
        decreases v.len() - a,
    {
        proof {
            let t = v@.skip(a as int);
            assert(t[0] == v@[a as int]);
            assert(t.drop_first() == v@.skip(a + 1));
        }
        a = a + 1;
    }
    proof {
        if a < v.len() {
            assert(v@.skip(a as int)[0] == v@[a as int]);
        }
    }
    a
}

/// Whether a resource should be rasterized as SVG: true for a `.svg` or
/// `.svgz` extension (any case), or when the resource's first 512 bytes
/// decode as UTF-8 text that, after byte-order marks and white space,
/// starts with `<svg`, or with `<?xml` and contains `<svg`.
pub fn is_svg(src: &str, bytes: &[u8]) -> (r: bool)
    ensures
        r == is_svg_spec(src@, bytes@),
{
    let lower = lower_chars(to_chars(src).as_slice());
    let ext1 = vec!['.', 's', 'v', 'g'];
    let ext2 = vec!['.', 's', 'v', 'g', 'z'];
    assert(ext1@ == seq!['.', 's', 'v', 'g']);
    assert(ext2@ == seq!['.', 's', 'v', 'g', 'z']);
    if ends_with_chars(lower.as_slice(), ext1.as_slice()) || ends_with_chars(
        lower.as_slice(),
        ext2.as_slice(),
    ) {
        return true;
    }
    let n = if bytes.len() <= 512 {
        bytes.len()
    } else {
        512
    };
    let head = bytes_prefix(bytes, n);
    assert(head@ == sniff_head(bytes@)) by {
        if bytes.len() <= 512 {
            assert(bytes@.take(bytes.len() as int) == bytes@);
        }
    }
    let text = match utf8_text(head.as_slice()) {
        Some(t) => t,
        None => return false,
    };
    let chars = to_chars(text);
    let a = strip_bom_start(chars.as_slice());
    let no_bom = slice_chars(chars.as_slice(), a, chars.len());
    let (b, _) = trim_bounds(no_bom.as_slice());
    proof {
        crate::text::lemma_trim_start_skip(no_bom@, b as int);
        let u = no_bom@.skip(b as int);
        if b < no_bom.len() {
            assert(u[0] == no_bom@[b as int]);
        }
        assert(crate::text::trim_start(u) == u);
    }
    let t = slice_chars(no_bom.as_slice(), b, no_bom.len());
    assert(t@ == trim_start(strip_bom(decode_utf8(sniff_head(bytes@)))));
    let svg = vec!['<', 's', 'v', 'g'];
    let xml = vec!['<', '?', 'x', 'm', 'l'];
    assert(svg@ == seq!['<', 's', 'v', 'g']);
    assert(xml@ == seq!['<', '?', 'x', 'm', 'l']);
    if starts_with_chars(t.as_slice(), svg.as_slice()) {
        return true;
    }
    if starts_with_chars(t.as_slice(), xml.as_slice()) {
        let found = find_chars_from(t.as_slice(), svg.as_slice(), 0);
        return found.is_some();
    }
    false
}

/// What becomes of an `<img>` reference once its resource is looked up.
#[derive(Debug)]
pub enum ImageSource {
    /// Nothing to draw: a framed box stands in.
    Placeholder,
    /// An SVG document, rasterized at layout time.
    Svg {
        /// The archive path it was read from.
        resolved: String,
        /// Its bytes.
        bytes: Vec<u8>,
    },
    /// A decoded raster image.
    Raster {
        /// Width in pixels.
        width: u32,
        /// Height in pixels.
        height: u32,
        /// Row-major RGBA8 pixels, `width * height * 4` bytes.
        rgba: Vec<u8>,
    },
}

/// What `image::load_from_memory(..).to_rgba8()` makes of some bytes: the
/// width, height and RGBA8 pixels, or nothing when they do not decode. It
/// depends on the bytes alone.
pub uninterp spec fn decoded_image(bytes: Seq<u8>) -> Option<(u32, u32, Seq<u8>)>;

/// Trusted: `image::load_from_memory` followed by `to_rgba8`; an RGBA8
/// buffer holds four bytes per pixel.
#[verifier::external_body]
fn decode_raster(bytes: &[u8]) -> (r: Option<(u32, u32, Vec<u8>)>)
    ensures
        match r {
            Some(t) => decoded_image(bytes@) == Some((t.0, t.1, t.2@)) && t.2@.len() == t.0 * t.1
                * 4,
            None => decoded_image(bytes@) is None,
        },
{
    match image::load_from_memory(bytes) {
        Ok(img) => {
            let rgba = img.to_rgba8();
            Some((rgba.width(), rgba.height(), rgba.into_raw()))
        },
        Err(_) => None,
    }
}

/// `r` is what an `<img src>` whose resource `resolved` was fetched as
/// `fetched` comes to: no resource gives a placeholder; SVG (by extension
/// or content) is kept for rasterizing; other bytes are decoded, and a
/// placeholder stands in when they do not decode.
pub open spec fn classified_image(
    src: Seq<char>,
    resolved: Seq<char>,
    fetched: Option<Seq<u8>>,
    r: ImageSource,
) -> bool {
    match fetched {
        None => r is Placeholder,
        Some(b) => if is_svg_spec(src, b) {
            r matches ImageSource::Svg { resolved: p, bytes } && p@ == resolved && bytes@ == b
        } else {
            match decoded_image(b) {
                Some(d) => r matches ImageSource::Raster { width, height, rgba } && width == d.0
                    && height == d.1 && rgba@ == d.2 && rgba@.len() == width * height * 4,
                None => r is Placeholder,
            }
        },
    }
}

/// The bytes of an optional buffer.
pub open spec fn opt_bytes(o: Option<Vec<u8>>) -> Option<Seq<u8>> {
    match o {
        Some(b) => Some(b@),
        None => None,
    }
}

/// Classify the image an `<img src>` refers to, given the bytes fetched
/// for its resolved path `resolved`.
pub fn image_from_resource(src: &str, resolved: String, fetched: Option<Vec<u8>>) -> (r: ImageSource)
    ensures
        classified_image(src@, resolved@, opt_bytes(fetched), r),
{
    let bytes = match fetched {
        Some(b) => b,
        None => return ImageSource::Placeholder,
    };
    if is_svg(src, bytes.as_slice()) {
        return ImageSource::Svg { resolved, bytes };
    }
    match decode_raster(bytes.as_slice()) {
        Some((width, height, rgba)) => ImageSource::Raster { width, height, rgba },
        None => ImageSource::Placeholder,
    }
}

/// Look up and decode the image an `<img src>` in the chapter at
/// `chapter_base_path` refers to. An empty `src` gives a placeholder;
/// otherwise the reference is resolved against the chapter's directory and
/// fetched from `book` at that path, and what came back is classified as
/// [`image_from_resource`] says; a failed fetch gives a placeholder. For a
/// book that keeps the [`BookSource`] promises, the bytes classified are
/// those it holds at the resolved path.
pub fn resolve_image<B: BookSource + ?Sized>(src: &str, chapter_base_path: &str, book: &mut B) -> (r: ImageSource)
    ensures
        src@.len() == 0 ==> r is Placeholder,
        src@.len() > 0 ==> exists|fetched: Option<Seq<u8>>|
            {
                &&& (old(book).obeys_book_spec() && fetched is Some ==> fetched == old(
                    book,
                ).resource_at(resolve_spec(src@, chapter_base_path@)))
                &&& #[trigger] classified_image(
                    src@,
                    resolve_spec(src@, chapter_base_path@),
                    fetched,
                    r,
                )
            },
        src@.len() > 0 && old(book).obeys_book_spec() && old(book).resource_at(
            resolve_spec(src@, chapter_base_path@),
        ) is None ==> r is Placeholder,
{
    if src.is_empty() {
        return ImageSource::Placeholder;
    }
    let resolved = resolve_path(src, chapter_base_path);
    let fetched = match book.resource(resolved.as_str()) {
        Ok(b) => Some(b),
        Err(_) => None,
    };
    image_from_resource(src, resolved, fetched)
}

/// Channel `c` of a pixel with pre-multiplied alpha `a`, brought back to
/// straight alpha (rounded, capped at 255); opaque and fully transparent
/// pixels keep their channels.
pub open spec fn demul(c: u8, a: u8) -> u8 {
    if 0 < a < 255 {
        let v = (c * 255 + a / 2) / (a as int);
        if v > 255 {
            255
        } else {
            v as u8
        }
    } else {
        c
    }
}

/// Byte `i` of the RGBA8 buffer `before` after demultiplying: the colour
/// channels of every whole pixel are divided by its alpha; alpha bytes and
/// a trailing partial pixel stay as they are.
pub open spec fn demultiplied(before: Seq<u8>, i: int) -> u8 {
    let base = i - i % 4;
    if i % 4 < 3 && base + 3 < before.len() {
        demul(before[i], before[base + 3])
    } else {
        before[i]
    }
}

fn demul_channel(c: u8, a: u8) -> (r: u8)
    ensures
        r == demul(c, a),
{
    if a > 0 && a < 255 {
        let af = a as u32;
        let c32 = c as u32;
        assert(c32 * 255 <= 255 * 255) by (nonlinear_arith)
            requires
                c32 <= 255,
        ;
        let v = (c32 * 255 + af / 2) / af;
        if v > 255 {
            255
        } else {
            v as u8
        }
    } else {
        c
    }
}

/// Turn an RGBA8 buffer with pre-multiplied alpha (as SVG rasterization
/// yields it) into straight alpha, pixel by pixel.
pub fn demultiply_alpha(data: &mut Vec<u8>)
    ensures
        final(data)@.len() == old(data)@.len(),
        forall|i: int| 0 <= i < old(data)@.len() ==> #[trigger] final(data)@[i] == demultiplied(old(data)@, i),
{
    let ghost before = data@;
    let n = data.len();
    let mut c: usize = 0;
    while n - c >= 4
        invariant
            n == data@.len(),
            before.len() == n,
            c <= n,
            c % 4 == 0,
            forall|i: int| 0 <= i < c ==> #[trigger] data@[i] == demultiplied(before, i),
            forall|i: int| c <= i < n ==> #[trigger] data@[i] == before[i],
        decreases n - c,
    {
        let a = data[c + 3];
        let r = demul_channel(data[c], a);
        let g = demul_channel(data[c + 1], a);
        let b = demul_channel(data[c + 2], a);
        data.set(c, r);
        data.set(c + 1, g);
        data.set(c + 2, b);
        proof {
            assert forall|i: int| c <= i < c + 4 implies #[trigger] data@[i] == demultiplied(before, i) by {
                assert(i % 4 == i - c);
                assert(i - i % 4 == c);
            }
        }
        c = c + 4;
    }
    proof {
        assert forall|i: int| c <= i < n implies #[trigger] data@[i] == demultiplied(before, i) by {
            assert(i - i % 4 + 3 >= c + 3);
        }
    }
}

/// Decode cover image bytes to RGBA8: `(width, height, pixels)` when they
/// decode to an image with no zero-sized side, `None` otherwise.
pub fn decode_cover(bytes: &[u8]) -> (r: Option<(u32, u32, Vec<u8>)>)
    ensures
        match decoded_image(bytes@) {
            Some(d) => if d.0 > 0 && d.1 > 0 {
                r matches Some(t) && t.0 == d.0 && t.1 == d.1 && t.2@ == d.2 && t.2@.len() == t.0
                    * t.1 * 4
            } else {
                r is None
            },
            None => r is None,
        },
{
    match decode_raster(bytes) {
        Some((width, height, rgba)) => if width == 0 || height == 0 {
            None
        } else {
            Some((width, height, rgba))
        },
        None => None,
    }
}

} // verus!
