//! The EPUB package model.
//!
//! The container is opened and unzipped by the application; what the reader
//! needs from it arrives here as plain values ([`PackageDocument`]). From
//! those this module derives the book's [`Metadata`], pairs the spine with
//! table-of-contents titles, and turns spine indices into chapter content.

use vstd::prelude::*;

use vstd::utf8::{decode_utf8, valid_utf8};

use crate::error::Error;
use crate::format::{ChapterContent, ChapterRef, Metadata};
use crate::layout::paginate::utf8_text;
use crate::text::{chars_eq, clone_opt, opt_view, str_eq, string_views, to_chars};

verus! {

/// One `<dc:*>` / `<meta>` entry of the package metadata.
pub struct MetadataItem {
    /// The property name (`title`, `creator`, `language`, ...).
    pub property: String,
    /// The declared value.
    pub value: String,
}

/// One entry of the NCX table of contents, with its nested entries.
pub struct NavPoint {
    /// The entry's title.
    pub label: String,
    /// The archive path the entry points at.
    pub content: String,
    /// Nested entries, in document order.
    pub children: Vec<NavPoint>,
}

/// One manifest item: its id and archive path.
pub struct ResourceEntry {
    /// Manifest id (what spine `idref`s name).
    pub id: String,
    /// Archive path of the resource.
    pub path: String,
}

/// What the reader takes from an EPUB's package document.
pub struct PackageDocument {
    /// Metadata items in declaration order.
    pub metadata: Vec<MetadataItem>,
    /// The package's `unique-identifier`, when it resolves.
    pub unique_identifier: Option<String>,
    /// Spine `idref`s in reading order.
    pub spine: Vec<String>,
    /// The manifest, one entry per id.
    pub resources: Vec<ResourceEntry>,
    /// The NCX table of contents.
    pub toc: Vec<NavPoint>,
}

/// `title`.
pub open spec fn title_word() -> Seq<char> {
    seq!['t', 'i', 't', 'l', 'e']
}

/// `creator`.
pub open spec fn creator_word() -> Seq<char> {
    seq!['c', 'r', 'e', 'a', 't', 'o', 'r']
}

/// `language`.
pub open spec fn language_word() -> Seq<char> {
    seq!['l', 'a', 'n', 'g', 'u', 'a', 'g', 'e']
}

/// `identifier`.
pub open spec fn identifier_word() -> Seq<char> {
    seq!['i', 'd', 'e', 'n', 't', 'i', 'f', 'i', 'e', 'r']
}

/// `publisher`.
pub open spec fn publisher_word() -> Seq<char> {
    seq!['p', 'u', 'b', 'l', 'i', 's', 'h', 'e', 'r']
}

/// The first index at or after `i` whose item has property `prop`.
pub open spec fn property_from(items: Seq<MetadataItem>, prop: Seq<char>, i: int) -> Option<int>
    decreases items.len() - i,
{
    if i < 0 || i >= items.len() {
        None
    } else if items[i].property@ == prop {
        Some(i)
    } else {
        property_from(items, prop, i + 1)
    }
}

/// The value of the first item with property `prop`.
pub open spec fn mdata(items: Seq<MetadataItem>, prop: Seq<char>) -> Option<Seq<char>> {
    match property_from(items, prop, 0) {
        Some(i) => Some(items[i].value@),
        None => None,
    }
}

/// The values of all `creator` items, in declaration order.
pub open spec fn creators(items: Seq<MetadataItem>) -> Seq<Seq<char>>
    decreases items.len(),
{
    if items.len() == 0 {
        Seq::empty()
    } else {
        let rest = creators(items.drop_last());
        if items.last().property@ == creator_word() {
            rest.push(items.last().value@)
        } else {
            rest
        }
    }
}

/// `m` is the metadata that `pkg` declares: the first title (or nothing),
/// every creator, the first language and publisher, and the package's
/// unique identifier or else the first `identifier` item.
pub open spec fn metadata_of(pkg: PackageDocument, m: Metadata) -> bool {
    &&& m.title@ == (match mdata(pkg.metadata@, title_word()) {
        Some(v) => v,
        None => Seq::<char>::empty(),
    })
    &&& string_views(m.authors@) == creators(pkg.metadata@)
    &&& opt_view(m.language) == mdata(pkg.metadata@, language_word())
    &&& opt_view(m.identifier) == (match pkg.unique_identifier {
        Some(u) => Some(u@),
        None => mdata(pkg.metadata@, identifier_word()),
    })
    &&& opt_view(m.publisher) == mdata(pkg.metadata@, publisher_word())
}

fn find_property(items: &[MetadataItem], prop: &str) -> (r: Option<usize>)
    ensures
        match r {
            Some(i) => property_from(items@, prop@, 0) == Some(i as int) && i < items.len(),
            None => property_from(items@, prop@, 0) is None,
        },
{
    let mut i: usize = 0;
    while i < items.len()
        invariant
            i <= items.len(),
            property_from(items@, prop@, 0) == property_from(items@, prop@, i as int),
        decreases items.len() - i,
    {
        if str_eq(items[i].property.as_str(), prop) {
            return Some(i);
        }
        i = i + 1;
    }
    None
}

/// The value of the first item with property `prop` (`EpubDoc::mdata`).
fn mdata_value(items: &[MetadataItem], prop: &str) -> (r: Option<String>)
    ensures
        opt_view(r) == mdata(items@, prop@),
{
    match find_property(items, prop) {
        Some(i) => Some(items[i].value.clone()),
        None => None,
    }
}

/// The value of the first item with the given property, for each property
/// the reader keeps.
fn declared(items: &[MetadataItem], which: u8) -> (r: Option<String>)
    requires
        which < 4,
    ensures
        which == 0 ==> opt_view(r) == mdata(items@, title_word()),
        which == 1 ==> opt_view(r) == mdata(items@, language_word()),
        which == 2 ==> opt_view(r) == mdata(items@, identifier_word()),
        which == 3 ==> opt_view(r) == mdata(items@, publisher_word()),
{
    if which == 0 {
        proof {
            reveal_strlit("title");
            assert("title"@ == title_word());
        }
        mdata_value(items, "title")
    } else if which == 1 {
        proof {
            reveal_strlit("language");
            assert("language"@ == language_word());
        }
        mdata_value(items, "language")
    } else if which == 2 {
        proof {
            reveal_strlit("identifier");
            assert("identifier"@ == identifier_word());
        }
        mdata_value(items, "identifier")
    } else {
        proof {
            reveal_strlit("publisher");
            assert("publisher"@ == publisher_word());
        }
        mdata_value(items, "publisher")
    }
}

/// The values of the `creator` items, in declaration order.
fn creator_values(items: &[MetadataItem]) -> (r: Vec<String>)
    ensures
        string_views(r@) == creators(items@),
{
    proof {
        reveal_strlit("creator");
        assert("creator"@ == creator_word());
    }
    let mut authors: Vec<String> = Vec::new();
    let mut i: usize = 0;
    while i < items.len()
        invariant
            i <= items.len(),
            "creator"@ == creator_word(),
            string_views(authors@) == creators(items@.take(i as int)),
        decreases items.len() - i,
    {
        assert(items@.take(i + 1).drop_last() == items@.take(i as int));
        if str_eq(items[i].property.as_str(), "creator") {
            authors.push(items[i].value.clone());
            assert(string_views(authors@) == string_views(authors@.drop_last()).push(
                items@[i as int].value@,
            ));
        }
        i = i + 1;
    }
    assert(items@.take(items.len() as int) == items@);
    authors
}

/// The metadata the package declares.
pub fn extract_metadata(pkg: &PackageDocument) -> (m: Metadata)
    ensures
        metadata_of(*pkg, m),
{
    let items = pkg.metadata.as_slice();
    let title = match declared(items, 0) {
        Some(t) => t,
        None => String::new(),
    };
    let authors = creator_values(items);
    let language = declared(items, 1);
    let identifier = match &pkg.unique_identifier {
        Some(u) => Some(u.clone()),
        None => declared(items, 2),
    };
    let publisher = declared(items, 3);
    Metadata { title, authors, language, identifier, publisher }
}

/// The `(archive path, title)` pairs of a table of contents, each entry
/// before its nested entries.
pub open spec fn flatten_toc(points: Seq<NavPoint>) -> Seq<(Seq<char>, Seq<char>)>
    decreases points,
{
    if points.len() == 0 {
        Seq::empty()
    } else {
        let p = points.last();
        proof {
            assert(decreases_to!(points => p));
            assert(decreases_to!(p => p.children));
            assert(decreases_to!(p.children => p.children@));
        }
        flatten_toc(points.drop_last()) + seq![(p.content@, p.label@)] + flatten_toc(
            p.children@,
        )
    }
}

/// The character views of a list of string pairs.
pub open spec fn pair_views(v: Seq<(String, String)>) -> Seq<(Seq<char>, Seq<char>)> {
    v.map_values(|p: (String, String)| (p.0@, p.1@))
}

fn append_pairs(out: &mut Vec<(String, String)>, more: Vec<(String, String)>)
    ensures
        pair_views(final(out)@) == pair_views(old(out)@) + pair_views(more@),
{
    let ghost start = out@;
    let mut i: usize = 0;
    while i < more.len()
        invariant
            i <= more.len(),
            pair_views(out@) == pair_views(start) + pair_views(more@.take(i as int)),
        decreases more.len() - i,
    {
        let ghost prev = out@;
        let a = more[i].0.clone();
        let b = more[i].1.clone();
        out.push((a, b));
        assert(pair_views(out@) == pair_views(prev).push((more@[i as int].0@, more@[i as int].1@)));
        assert(pair_views(more@.take(i + 1)) == pair_views(more@.take(i as int)).push(
            (more@[i as int].0@, more@[i as int].1@),
        ));
        i = i + 1;
    }
    assert(more@.take(more.len() as int) == more@);
}

/// Flatten the table of contents into `(archive path, title)` pairs.
pub fn collect_toc_titles(points: &[NavPoint]) -> (r: Vec<(String, String)>)
    ensures
        pair_views(r@) == flatten_toc(points@),
    decreases points@,
{
    let mut out: Vec<(String, String)> = Vec::new();
    let mut i: usize = 0;
    while i < points.len()
        invariant
            i <= points.len(),
            pair_views(out@) == flatten_toc(points@.take(i as int)),
        decreases points.len() - i,
    {
        let p = &points[i];
        proof {
            assert(decreases_to!(points@ => points@[i as int]));
            assert(decreases_to!(points@[i as int] => points@[i as int].children));
            assert(decreases_to!(points@[i as int].children => points@[i as int].children@));
        }
        out.push((p.content.clone(), p.label.clone()));
        let nested = collect_toc_titles(p.children.as_slice());
        append_pairs(&mut out, nested);
        assert(points@.take(i + 1).drop_last() == points@.take(i as int));
        i = i + 1;
    }
    assert(points@.take(points.len() as int) == points@);
    out
}

/// Trusted: `std::path::MAIN_SEPARATOR`, the platform's primary path
/// separator. Nothing is promised of which character it is.
#[verifier::external_body]
fn main_separator() -> char {
    std::path::MAIN_SEPARATOR
}

/// Whether `c` separates archive path pieces: `/` always, and the
/// platform's separator `sep` (`\` on Windows).
pub open spec fn is_sep(c: char, sep: char) -> bool {
    c == '/' || c == sep
}

/// Whether a path piece names a component: it is neither empty (repeated
/// or trailing separators) nor `.`.
pub open spec fn kept(p: Seq<char>) -> bool {
    p.len() > 0 && p != seq!['.']
}

/// Reading `s` from the left: the components completed so far, and the
/// piece after the last separator.
pub open spec fn split_parts(s: Seq<char>, sep: char) -> (Seq<Seq<char>>, Seq<char>)
    decreases s.len(),
{
    if s.len() == 0 {
        (Seq::empty(), Seq::empty())
    } else {
        let prev = split_parts(s.drop_last(), sep);
        if is_sep(s.last(), sep) {
            (
                if kept(prev.1) {
                    prev.0.push(prev.1)
                } else {
                    prev.0
                },
                Seq::empty(),
            )
        } else {
            (prev.0, prev.1.push(s.last()))
        }
    }
}

/// The named components of `s`, in order.
pub open spec fn path_parts(s: Seq<char>, sep: char) -> Seq<Seq<char>> {
    let d = split_parts(s, sep);
    if kept(d.1) {
        d.0.push(d.1)
    } else {
        d.0
    }
}

/// The components of an archive path, as `std::path::Path::components`
/// reads a path without a prefix: whether it starts at the root, whether
/// it starts with a `.` component, and its named components in order;
/// repeated and trailing separators and every other `.` are normalized
/// away.
pub open spec fn path_components(s: Seq<char>, sep: char) -> (bool, bool, Seq<Seq<char>>) {
    (
        s.len() > 0 && is_sep(s[0], sep),
        s.len() > 0 && s[0] == '.' && (s.len() == 1 || is_sep(s[1], sep)),
        path_parts(s, sep),
    )
}

/// Whether two archive paths name the same file: they have the same
/// components, `/` and `sep` both separating them.
pub open spec fn same_archive_path(a: Seq<char>, b: Seq<char>, sep: char) -> bool {
    path_components(a, sep) == path_components(b, sep)
}

/// The character sequences of a list of pieces.
pub open spec fn parts_view(v: Seq<Vec<char>>) -> Seq<Seq<char>> {
    v.map_values(|p: Vec<char>| p@)
}

fn is_kept(p: &Vec<char>) -> (r: bool)
    ensures
        r == kept(p@),
{
    if p.len() == 0 {
        return false;
    }
    if p.len() == 1 && p[0] == '.' {
        assert(p@ =~= seq!['.']);
        return false;
    }
    assert(p@ != seq!['.']) by {
        if p@ == seq!['.'] {
            assert(p@.len() == 1 && p@[0] == '.');
        }
    }
    true
}

fn path_parts_of(s: &[char], sep: char) -> (r: Vec<Vec<char>>)
    ensures
        parts_view(r@) == path_parts(s@, sep),
{
    let mut done: Vec<Vec<char>> = Vec::new();
    let mut cur: Vec<char> = Vec::new();
    let mut i: usize = 0;
    assert(s@.take(0) =~= Seq::<char>::empty());
    assert(parts_view(done@) =~= Seq::<Seq<char>>::empty());
    while i < s.len()
        invariant
            i <= s.len(),
            parts_view(done@) == split_parts(s@.take(i as int), sep).0,
            cur@ == split_parts(s@.take(i as int), sep).1,
        decreases s.len() - i,
    {
        let c = s[i];
        assert(s@.take(i + 1).drop_last() =~= s@.take(i as int));
        assert(s@.take(i + 1).last() == c);
        if c == '/' || c == sep {
            if is_kept(&cur) {
                let ghost before = done@;
                done.push(cur);
                assert(parts_view(done@) =~= parts_view(before).push(split_parts(s@.take(i as int), sep).1));
            }
            cur = Vec::new();
            assert(cur@ =~= Seq::<char>::empty());
        } else {
            cur.push(c);
        }
        i = i + 1;
    }
    assert(s@.take(s.len() as int) =~= s@);
    if is_kept(&cur) {
        let ghost before = done@;
        done.push(cur);
        assert(parts_view(done@) =~= parts_view(before).push(split_parts(s@, sep).1));
    }
    done
}

fn parts_equal(a: &Vec<Vec<char>>, b: &Vec<Vec<char>>) -> (r: bool)
    ensures
        r == (parts_view(a@) == parts_view(b@)),
{
    if a.len() != b.len() {
        assert(parts_view(a@).len() != parts_view(b@).len());
        return false;
    }
    let mut i: usize = 0;
    while i < a.len()
        invariant
            i <= a.len(),
            a.len() == b.len(),
            forall|k: int| 0 <= k < i ==> #[trigger] parts_view(a@)[k] == parts_view(b@)[k],
        decreases a.len() - i,
    {
        if !chars_eq(a[i].as_slice(), b[i].as_slice()) {
            assert(parts_view(a@)[i as int] != parts_view(b@)[i as int]);
            return false;
        }
        i = i + 1;
    }
    assert(parts_view(a@) =~= parts_view(b@));
    true
}

/// Whether the archive paths `a` and `b` name the same file, `/` and
/// `sep` both separating their components.
pub fn archive_paths_equal(a: &str, b: &str, sep: char) -> (r: bool)
    ensures
        r == same_archive_path(a@, b@, sep),
{
    let av = to_chars(a);
    let bv = to_chars(b);
    let a_root = av.len() > 0 && (av[0] == '/' || av[0] == sep);
    let b_root = bv.len() > 0 && (bv[0] == '/' || bv[0] == sep);
    let a_dot = av.len() > 0 && av[0] == '.' && (av.len() == 1 || av[1] == '/' || av[1] == sep);
    let b_dot = bv.len() > 0 && bv[0] == '.' && (bv.len() == 1 || bv[1] == '/' || bv[1] == sep);
    if a_root != b_root || a_dot != b_dot {
        return false;
    }
    let ap = path_parts_of(av.as_slice(), sep);
    let bp = path_parts_of(bv.as_slice(), sep);
    parts_equal(&ap, &bp)
}

/// The first manifest index at or after `i` with id `id`.
pub open spec fn resource_from(res: Seq<ResourceEntry>, id: Seq<char>, i: int) -> Option<int>
    decreases res.len() - i,
{
    if i < 0 || i >= res.len() {
        None
    } else if res[i].id@ == id {
        Some(i)
    } else {
        resource_from(res, id, i + 1)
    }
}

/// The first TOC pair at or after `i` whose path is the same file as `path`.
pub open spec fn label_from(
    flat: Seq<(Seq<char>, Seq<char>)>,
    path: Seq<char>,
    i: int,
    sep: char,
) -> Option<int>
    decreases flat.len() - i,
{
    if i < 0 || i >= flat.len() {
        None
    } else if same_archive_path(flat[i].0, path, sep) {
        Some(i)
    } else {
        label_from(flat, path, i + 1, sep)
    }
}

/// The TOC title of the spine entry `idref`: the label of the first TOC
/// entry pointing at the same file as the manifest item `idref` names.
pub open spec fn toc_title(
    res: Seq<ResourceEntry>,
    flat: Seq<(Seq<char>, Seq<char>)>,
    idref: Seq<char>,
    sep: char,
) -> Option<Seq<char>> {
    match resource_from(res, idref, 0) {
        None => None,
        Some(r) => match label_from(flat, res[r].path@, 0, sep) {
            Some(k) => Some(flat[k].1),
            None => None,
        },
    }
}

fn find_resource(res: &[ResourceEntry], id: &str) -> (r: Option<usize>)
    ensures
        match r {
            Some(i) => resource_from(res@, id@, 0) == Some(i as int) && i < res.len(),
            None => resource_from(res@, id@, 0) is None,
        },
{
    let mut i: usize = 0;
    while i < res.len()
        invariant
            i <= res.len(),
            resource_from(res@, id@, 0) == resource_from(res@, id@, i as int),
        decreases res.len() - i,
    {
        if str_eq(res[i].id.as_str(), id) {
            return Some(i);
        }
        i = i + 1;
    }
    None
}

fn find_label(flat: &[(String, String)], path: &str, sep: char) -> (r: Option<String>)
    ensures
        match label_from(pair_views(flat@), path@, 0, sep) {
            Some(k) => r matches Some(t) && t@ == pair_views(flat@)[k].1,
            None => r is None,
        },
{
    let ghost fv = pair_views(flat@);
    let mut i: usize = 0;
    while i < flat.len()
        invariant
            i <= flat.len(),
            fv == pair_views(flat@),
            label_from(fv, path@, 0, sep) == label_from(fv, path@, i as int, sep),
        decreases flat.len() - i,
    {
        if archive_paths_equal(flat[i].0.as_str(), path, sep) {
            return Some(flat[i].1.clone());
        }
        i = i + 1;
    }
    None
}

/// The reading order, each spine entry paired with its TOC title; TOC and
/// manifest paths are compared with `/` and `sep` as separators.
pub fn build_spine(pkg: &PackageDocument, sep: char) -> (r: Vec<ChapterRef>)
    ensures
        r.len() == pkg.spine.len(),
        forall|k: int|
            0 <= k < r.len() ==> {
                &&& (#[trigger] r@[k]).id@ == pkg.spine@[k]@
                &&& opt_view(r@[k].title) == toc_title(
                    pkg.resources@,
                    flatten_toc(pkg.toc@),
                    pkg.spine@[k]@,
                    sep,
                )
            },
{
    let flat = collect_toc_titles(pkg.toc.as_slice());
    let mut out: Vec<ChapterRef> = Vec::new();
    let mut i: usize = 0;
    while i < pkg.spine.len()
        invariant
            i <= pkg.spine.len(),
            out.len() == i,
            pair_views(flat@) == flatten_toc(pkg.toc@),
            forall|k: int|
                0 <= k < i ==> {
                    &&& (#[trigger] out@[k]).id@ == pkg.spine@[k]@
                    &&& opt_view(out@[k].title) == toc_title(
                        pkg.resources@,
                        flatten_toc(pkg.toc@),
                        pkg.spine@[k]@,
                        sep,
                    )
                },
        decreases pkg.spine.len() - i,
    {
        let idref = &pkg.spine[i];
        let title = match find_resource(pkg.resources.as_slice(), idref.as_str()) {
            Some(r) => find_label(flat.as_slice(), pkg.resources[r].path.as_str(), sep),
            None => None,
        };
        out.push(ChapterRef { id: idref.clone(), title });
        i = i + 1;
    }
    out
}

/// The parts of an opened EPUB that chapter lookups need.
pub struct EpubIndex {
    /// The book's metadata.
    pub metadata: Metadata,
    /// The reading order with TOC titles.
    pub spine: Vec<ChapterRef>,
    /// The manifest.
    pub resources: Vec<ResourceEntry>,
    /// The platform's path separator, which TOC paths were matched with.
    pub separator: char,
}

impl EpubIndex {
    /// Derive metadata and spine from the package document.
    pub fn from_package(pkg: PackageDocument) -> (r: EpubIndex)
        ensures
            metadata_of(pkg, r.metadata),
            r.spine.len() == pkg.spine.len(),
            forall|k: int|
                0 <= k < r.spine.len() ==> {
                    &&& (#[trigger] r.spine@[k]).id@ == pkg.spine@[k]@
                    &&& opt_view(r.spine@[k].title) == toc_title(
                        pkg.resources@,
                        flatten_toc(pkg.toc@),
                        pkg.spine@[k]@,
                        r.separator,
                    )
                },
            r.resources@ == pkg.resources@,
    {
        let metadata = extract_metadata(&pkg);
        let separator = main_separator();
        let spine = build_spine(&pkg, separator);
        EpubIndex { metadata, spine, resources: pkg.resources, separator }
    }

    /// The archive path of the chapter at spine `index`:
    /// [`Error::InvalidChapter`] past the end of the spine, and
    /// [`Error::MissingResource`] naming the idref when the manifest has no
    /// such item.
    pub fn chapter_path(&self, index: usize) -> (r: Result<String, Error>)
        ensures
            index >= self.spine.len() ==> r == Err::<String, Error>(
                Error::InvalidChapter { index, len: self.spine.len() },
            ),
            index < self.spine.len() ==> match resource_from(
                self.resources@,
                self.spine@[index as int].id@,
                0,
            ) {
                Some(k) => r matches Ok(p) && p@ == self.resources@[k].path@,
                None => r matches Err(Error::MissingResource { path }) && path@
                    == self.spine@[index as int].id@,
            },
    {
        if index >= self.spine.len() {
            return Err(Error::InvalidChapter { index, len: self.spine.len() });
        }
        let id = &self.spine[index].id;
        match find_resource(self.resources.as_slice(), id.as_str()) {
            Some(k) => Ok(self.resources[k].path.clone()),
            None => Err(Error::MissingResource { path: id.clone() }),
        }
    }
}

/// The chapter at spine `index`, from the bytes stored at `resource_path`:
/// [`Error::MissingResource`] when the archive has no such entry, and
/// [`Error::InvalidUtf8`] when the bytes are not UTF-8.
pub fn chapter_from_resource(index: usize, resource_path: String, bytes: Option<Vec<u8>>) -> (r:
    Result<ChapterContent, Error>)
    ensures
        match bytes {
            None => r matches Err(Error::MissingResource { path }) && path@ == resource_path@,
            Some(b) => if valid_utf8(b@) {
                r matches Ok(c) && c.xhtml@ == decode_utf8(b@) && c.base_path@ == resource_path@
            } else {
                r == Err::<ChapterContent, Error>(Error::InvalidUtf8 { index })
            },
        },
{
    match bytes {
        None => Err(Error::MissingResource { path: resource_path }),
        Some(b) => match utf8_text(b.as_slice()) {
            Some(t) => Ok(ChapterContent { xhtml: t.to_owned(), base_path: resource_path }),
            None => Err(Error::InvalidUtf8 { index }),
        },
    }
}

/// The values of the `creator` items of `items`, in order, read off the
/// items one by one.
proof fn lemma_creators_filter(items: Seq<MetadataItem>)
    ensures
        creators(items) == items.filter(
            |it: MetadataItem| it.property@ == seq!['c', 'r', 'e', 'a', 't', 'o', 'r'],
        ).map_values(|it: MetadataItem| it.value@),
    decreases items.len(),
{
    let pred = |it: MetadataItem| it.property@ == seq!['c', 'r', 'e', 'a', 't', 'o', 'r'];
    reveal_with_fuel(Seq::filter, 1);
    if items.len() > 0 {
        lemma_creators_filter(items.drop_last());
        let sub = items.drop_last().filter(pred);
        if pred(items.last()) {
            assert(sub.push(items.last()).map_values(|it: MetadataItem| it.value@) =~= sub.map_values(
                |it: MetadataItem| it.value@,
            ).push(items.last().value@));
        }
    } else {
        assert(items.filter(pred).map_values(|it: MetadataItem| it.value@) =~= Seq::<
            Seq<char>,
        >::empty());
    }
}

/// Law: every author is kept. The authors of the extracted metadata are
/// the values of the package's `creator` items, one for each such item,
/// in declaration order.
pub proof fn law_authors_are_all_creators(pkg: PackageDocument, m: Metadata)
    requires
        metadata_of(pkg, m),
    ensures
        string_views(m.authors@) == pkg.metadata@.filter(
            |it: MetadataItem| it.property@ == seq!['c', 'r', 'e', 'a', 't', 'o', 'r'],
        ).map_values(|it: MetadataItem| it.value@),
{
    lemma_creators_filter(pkg.metadata@);
}

} // verus!
