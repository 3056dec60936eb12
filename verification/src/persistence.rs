//! Recents list and per-book reading position.
//!
//! The store keeps up to [`MAX_RECENTS`] recently opened books and the
//! reader's position in each. When an open pushes the list past the cap,
//! the entry read least recently is dropped. Cover thumbnails live next to
//! the list under `covers/`, named after a sanitised form of the book key.
//!
//! Reading and writing the files is the application's business; this
//! module decides what the list holds, which entries go, which key a book
//! gets and which file names its cover uses.

use vstd::prelude::*;

use std::path::PathBuf;
use std::time::{Duration, SystemTime};

use crate::format::{BookSource, Metadata};
use crate::text::{
    clone_opt, concat_chars, from_chars, join_with, opt_view, str_eq, string_views, to_chars, trim,
    trim_chars,
};

verus! {

/// Maximum number of entries the store keeps.
pub const MAX_RECENTS: usize = 20;

/// Maximum length in UTF-8 bytes of the key-derived part of a cover file
/// name, before the extension.
pub const MAX_KEY_FILENAME: usize = 200;

/// Schema version of the recents file.
pub const SCHEMA_VERSION: u32 = 1;

/// One remembered book.
#[derive(Debug, Clone)]
pub struct RecentEntry {
    /// Stable identifier of the book: its declared identifier, else the
    /// canonical path it was opened from.
    pub key: String,
    /// Path the book was last opened from.
    pub path: PathBuf,
    /// Display title, if the book declares one.
    pub title: Option<String>,
    /// Authors joined with `", "`, if the book declares any.
    pub author: Option<String>,
    /// Spine index of the chapter being read.
    pub current_chapter: usize,
    /// Page within that chapter (0-based).
    pub current_page_in_chapter: usize,
    /// Total pages of the book at the last save, if known.
    pub total_pages: Option<usize>,
    /// Page offset across the whole book at the last save, if known.
    pub global_page: Option<usize>,
    /// Seconds since the Unix epoch of the last open or page change.
    pub last_read_at: u64,
}

/// An entry with its strings read as character sequences.
pub ghost struct EntryView {
    pub key: Seq<char>,
    pub path: PathBuf,
    pub title: Option<Seq<char>>,
    pub author: Option<Seq<char>>,
    pub current_chapter: usize,
    pub current_page_in_chapter: usize,
    pub total_pages: Option<usize>,
    pub global_page: Option<usize>,
    pub last_read_at: u64,
}

impl View for RecentEntry {
    type V = EntryView;

    open spec fn view(&self) -> EntryView {
        EntryView {
            key: self.key@,
            path: self.path,
            title: opt_view(self.title),
            author: opt_view(self.author),
            current_chapter: self.current_chapter,
            current_page_in_chapter: self.current_page_in_chapter,
            total_pages: self.total_pages,
            global_page: self.global_page,
            last_read_at: self.last_read_at,
        }
    }
}

/// The views of a list of entries.
pub open spec fn entry_views(v: Seq<RecentEntry>) -> Seq<EntryView> {
    v.map_values(|e: RecentEntry| e@)
}

/// The on-disk form of the store.
#[derive(Debug, Clone)]
pub struct RecentsFile {
    /// Schema version.
    pub version: u32,
    /// Entries in no particular order; see [`RecentsStore::ordered`].
    pub entries: Vec<RecentEntry>,
}

impl Default for RecentsFile {
    fn default() -> (r: Self)
        ensures
            r.version == SCHEMA_VERSION,
            r.entries@.len() == 0,
    {
        RecentsFile { version: SCHEMA_VERSION, entries: Vec::new() }
    }
}

/// Dimensions of a stored cover thumbnail.
#[derive(Debug, Clone, Copy)]
pub struct CoverSidecar {
    /// Width in pixels.
    pub width: u32,
    /// Height in pixels.
    pub height: u32,
}

impl CoverSidecar {
    /// Whether `len` bytes is exactly one RGBA8 image of these dimensions.
    pub fn fits(&self, len: usize) -> (r: bool)
        ensures
            r == (len == self.width * self.height * 4),
    {
        let w = self.width as u128;
        let h = self.height as u128;
        assert(w * h <= 0xffff_ffff * 0xffff_ffff) by (nonlinear_arith)
            requires
                w <= 0xffff_ffff,
                h <= 0xffff_ffff,
        ;
        let expected: u128 = w * h * 4;
        (len as u128) == expected
    }
}

/// A stored thumbnail as `(width, height, pixels)`, provided the pixel
/// buffer matches the sidecar's dimensions.
pub fn thumbnail_from_parts(sidecar: CoverSidecar, pixels: Vec<u8>) -> (r: Option<(u32, u32, Vec<u8>)>)
    ensures
        pixels.len() == sidecar.width * sidecar.height * 4 ==> r == Some(
            (sidecar.width, sidecar.height, pixels),
        ),
        pixels.len() != sidecar.width * sidecar.height * 4 ==> r is None,
{
    if sidecar.fits(pixels.len()) {
        Some((sidecar.width, sidecar.height, pixels))
    } else {
        None
    }
}

/// The recents store: where its files live and what the list holds.
#[derive(Debug)]
pub struct RecentsStore {
    base_dir: PathBuf,
    file: RecentsFile,
}

/// The first index at or after `i` whose entry has key `key`.
pub open spec fn key_at(s: Seq<EntryView>, key: Seq<char>, i: int) -> Option<int>
    decreases s.len() - i,
{
    if i < 0 || i >= s.len() {
        None
    } else if s[i].key == key {
        Some(i)
    } else {
        key_at(s, key, i + 1)
    }
}

impl View for RecentsStore {
    type V = Seq<EntryView>;

    closed spec fn view(&self) -> Seq<EntryView> {
        entry_views(self.file.entries@)
    }
}

impl RecentsStore {
    /// The directory the store's files live under.
    pub closed spec fn base(&self) -> PathBuf {
        self.base_dir
    }

    /// The schema version the store writes.
    pub closed spec fn wf(&self) -> bool {
        self.file.version == SCHEMA_VERSION
    }

    /// A store rooted at `base_dir` holding what was read from disk: the
    /// parsed file when there was one with the current schema version, an
    /// empty list otherwise (missing, unreadable, unparseable or
    /// other-version files all start fresh).
    pub fn load_from(base_dir: PathBuf, parsed: Option<RecentsFile>) -> (r: RecentsStore)
        ensures
            r.wf(),
            r.base() == base_dir,
            r@ == (match parsed {
                Some(f) => if f.version == SCHEMA_VERSION {
                    entry_views(f.entries@)
                } else {
                    Seq::<EntryView>::empty()
                },
                None => Seq::<EntryView>::empty(),
            }),
    {
        let file = match parsed {
            Some(f) => if f.version == SCHEMA_VERSION {
                f
            } else {
                RecentsFile::default()
            },
            None => RecentsFile::default(),
        };
        proof {
            assert(entry_views(Seq::<RecentEntry>::empty()) == Seq::<EntryView>::empty());
        }
        RecentsStore { base_dir, file }
    }

    /// The file as it is to be written to disk.
    pub fn file(&self) -> (r: &RecentsFile)
        ensures
            entry_views(r.entries@) == self@,
            self.wf() ==> r.version == SCHEMA_VERSION,
    {
        &self.file
    }

    /// The directory the store's files live under.
    pub fn base_dir(&self) -> (r: &PathBuf)
        ensures
            *r == self.base(),
    {
        &self.base_dir
    }

    /// Whether the store has no entries.
    pub fn is_empty(&self) -> (r: bool)
        ensures
            r == (self@.len() == 0),
    {
        self.file.entries.len() == 0
    }

    /// Number of entries in the store.
    pub fn len(&self) -> (r: usize)
        ensures
            r == self@.len(),
    {
        self.file.entries.len()
    }

    fn find_key(&self, key: &str) -> (r: Option<usize>)
        ensures
            match r {
                Some(i) => key_at(self@, key@, 0) == Some(i as int) && i < self@.len(),
                None => key_at(self@, key@, 0) is None,
            },
    {
        let entries = &self.file.entries;
        let mut i: usize = 0;
        while i < entries.len()
            invariant
                i <= entries.len(),
                self@ == entry_views(entries@),
                key_at(self@, key@, 0) == key_at(self@, key@, i as int),
            decreases entries.len() - i,
        {
            if str_eq(entries[i].key.as_str(), key) {
                return Some(i);
            }
            i = i + 1;
        }
        None
    }

    /// The first entry whose key is `key`.
    pub fn get(&self, key: &str) -> (r: Option<&RecentEntry>)
        ensures
            match key_at(self@, key@, 0) {
                Some(i) => r matches Some(e) && e@ == self@[i],
                None => r is None,
            },
    {
        match self.find_key(key) {
            Some(i) => Some(&self.file.entries[i]),
            None => None,
        }
    }
}

/// The key of a book: its declared identifier with surrounding white
/// space removed, unless that leaves nothing, in which case `fallback`
/// (the canonical form of the path it was opened from).
pub open spec fn key_spec(identifier: Option<Seq<char>>, fallback: Seq<char>) -> Seq<char> {
    match identifier {
        Some(id) => if trim(id).len() > 0 {
            trim(id)
        } else {
            fallback
        },
        None => fallback,
    }
}

/// The key under which the book described by `metadata` is tracked.
pub fn key_for(metadata: &Metadata, fallback: &str) -> (r: String)
    ensures
        r@ == key_spec(opt_view(metadata.identifier), fallback@),
{
    match &metadata.identifier {
        Some(id) => {
            let chars = to_chars(id.as_str());
            let t = trim_chars(chars.as_slice());
            if t.len() > 0 {
                from_chars(t.as_slice())
            } else {
                fallback.to_owned()
            }
        },
        None => fallback.to_owned(),
    }
}

/// Index of the entry read least recently; the first of several such.
pub open spec fn oldest(s: Seq<EntryView>) -> int
    decreases s.len(),
{
    if s.len() <= 1 {
        0
    } else {
        let m = oldest(s.drop_last());
        if s.last().last_read_at < s[m].last_read_at {
            s.len() - 1
        } else {
            m
        }
    }
}

/// `oldest` is an index of `s`, and no entry was read earlier.
pub proof fn lemma_oldest(s: Seq<EntryView>)
    requires
        s.len() > 0,
    ensures
        0 <= oldest(s) < s.len(),
        forall|j: int| 0 <= j < s.len() ==> s[oldest(s)].last_read_at <= #[trigger] s[j].last_read_at,
    decreases s.len(),
{
    if s.len() > 1 {
        let t = s.drop_last();
        lemma_oldest(t);
        assert forall|j: int| 0 <= j < s.len() implies s[oldest(s)].last_read_at
            <= #[trigger] s[j].last_read_at by {
            if j < s.len() - 1 {
                assert(s[j] == t[j]);
            }
            assert(s[oldest(t)] == t[oldest(t)]);
        }
    }
}

/// What eviction leaves of `s` and what it drops, in dropping order:
/// while more than [`MAX_RECENTS`] entries remain, the first entry read
/// least recently goes.
pub open spec fn evict(s: Seq<EntryView>) -> (Seq<EntryView>, Seq<EntryView>)
    decreases s.len(),
{
    if s.len() <= MAX_RECENTS {
        (s, Seq::empty())
    } else {
        let i = oldest(s);
        proof {
            lemma_oldest(s);
        }
        let rest = evict(s.remove(i));
        (rest.0, seq![s[i]] + rest.1)
    }
}

/// The title recorded for a book: none when it declares an empty one.
pub open spec fn title_of(m: Metadata) -> Option<Seq<char>> {
    if m.title@.len() == 0 {
        None
    } else {
        Some(m.title@)
    }
}

/// The author line recorded for a book: its authors joined with `", "`,
/// none when it declares no author.
pub open spec fn author_of(m: Metadata) -> Option<Seq<char>> {
    if m.authors@.len() == 0 {
        None
    } else {
        Some(join_with(string_views(m.authors@), seq![',', ' ']))
    }
}

/// The list after an open of `key`: the first entry with that key gets the
/// new path, title, author and time, keeping its reading position; when no
/// entry has the key, a fresh one at the start of the book is appended.
pub open spec fn upsert(
    s: Seq<EntryView>,
    key: Seq<char>,
    path: PathBuf,
    title: Option<Seq<char>>,
    author: Option<Seq<char>>,
    now: u64,
) -> Seq<EntryView> {
    match key_at(s, key, 0) {
        Some(i) => s.update(
            i,
            EntryView { path: path, title: title, author: author, last_read_at: now, ..s[i] },
        ),
        None => s.push(
            EntryView {
                key: key,
                path: path,
                title: title,
                author: author,
                current_chapter: 0,
                current_page_in_chapter: 0,
                total_pages: None,
                global_page: None,
                last_read_at: now,
            },
        ),
    }
}

/// The list, and the entries dropped, after recording an open of the book
/// `key` with metadata `m` from `path` at time `now`.
pub open spec fn opened(
    s: Seq<EntryView>,
    key: Seq<char>,
    path: PathBuf,
    m: Metadata,
    now: u64,
) -> (Seq<EntryView>, Seq<EntryView>) {
    evict(upsert(s, key, path, title_of(m), author_of(m), now))
}

/// `pieces` joined with `sep` (`[String]::join`).
pub fn join_strings(pieces: &[String], sep: &str) -> (r: String)
    ensures
        r@ == join_with(string_views(pieces@), sep@),
{
    if pieces.len() == 0 {
        return String::new();
    }
    let sep_chars = to_chars(sep);
    let mut acc = to_chars(pieces[0].as_str());
    let mut i: usize = 1;
    assert(string_views(pieces@).take(1) =~= seq![pieces@[0]@]);
    while i < pieces.len()
        invariant
            1 <= i <= pieces.len(),
            sep_chars@ == sep@,
            acc@ == join_with(string_views(pieces@).take(i as int), sep@),
        decreases pieces.len() - i,
    {
        let with_sep = concat_chars(acc.as_slice(), sep_chars.as_slice());
        let piece = to_chars(pieces[i].as_str());
        acc = concat_chars(with_sep.as_slice(), piece.as_slice());
        let ghost t = string_views(pieces@).take(i + 1);
        assert(t.drop_last() =~= string_views(pieces@).take(i as int));
        assert(t.last() == pieces@[i as int]@);
        i = i + 1;
    }
    assert(string_views(pieces@).take(pieces.len() as int) =~= string_views(pieces@));
    from_chars(acc.as_slice())
}

fn oldest_index(v: &Vec<RecentEntry>) -> (r: usize)
    requires
        v.len() > 0,
    ensures
        r as int == oldest(entry_views(v@)),
        r < v.len(),
{
    let ghost s = entry_views(v@);
    let mut best: usize = 0;
    let mut i: usize = 1;
    assert(s.take(1).len() == 1);
    while i < v.len()
        invariant
            1 <= i <= v.len(),
            s == entry_views(v@),
            best < i,
            best as int == oldest(s.take(i as int)),
        decreases v.len() - i,
    {
        let ghost t = s.take(i + 1);
        assert(t.drop_last() =~= s.take(i as int));
        proof {
            lemma_oldest(s.take(i as int));
        }
        assert(t[best as int] == s[best as int]);
        if v[i].last_read_at < v[best].last_read_at {
            best = i;
        }
        i = i + 1;
    }
    assert(s.take(v.len() as int) =~= s);
    best
}

impl RecentsStore {
    /// Drop entries read least recently until at most [`MAX_RECENTS`]
    /// remain; the dropped entries come back in dropping order.
    fn evict_overflow(&mut self) -> (dropped: Vec<RecentEntry>)
        ensures
            final(self)@ == evict(old(self)@).0,
            entry_views(dropped@) == evict(old(self)@).1,
            final(self).base() == old(self).base(),
            final(self).wf() == old(self).wf(),
    {
        let ghost orig = self@;
        let mut dropped: Vec<RecentEntry> = Vec::new();
        while self.file.entries.len() > MAX_RECENTS
            invariant
                evict(self@).0 == evict(orig).0,
                entry_views(dropped@) + evict(self@).1 == evict(orig).1,
                self.base() == old(self).base(),
                self.wf() == old(self).wf(),
            decreases self.file.entries.len(),
        {
            let ghost cur = self@;
            let ghost dv = entry_views(dropped@);
            let i = oldest_index(&self.file.entries);
            let ghost before = self.file.entries@;
            let e = self.file.entries.remove(i);
            assert(self@ =~= cur.remove(i as int));
            dropped.push(e);
            assert(entry_views(dropped@) =~= dv.push(cur[i as int]));
            assert(entry_views(dropped@) + evict(self@).1 =~= dv + evict(cur).1);
        }
        dropped
    }

    /// Record an open of the book `key` with `metadata`, read from `path`
    /// at time `now`. The entries dropped to respect [`MAX_RECENTS`] come
    /// back, so that their cover files can be removed.
    pub fn record_open_at(&mut self, key: String, path: PathBuf, metadata: &Metadata, now: u64) -> (dropped: Vec<RecentEntry>)
        ensures
            final(self)@ == opened(old(self)@, key@, path, *metadata, now).0,
            entry_views(dropped@) == opened(old(self)@, key@, path, *metadata, now).1,
            final(self).base() == old(self).base(),
            final(self).wf() == old(self).wf(),
    {
        let title = if metadata.title.as_str().is_empty() {
            None
        } else {
            Some(metadata.title.clone())
        };
        proof {
            reveal_strlit(", ");
            assert(", "@ == seq![',', ' ']);
        }
        let author = if metadata.authors.len() == 0 {
            None
        } else {
            Some(join_strings(metadata.authors.as_slice(), ", "))
        };
        let ghost s = self@;
        let ghost u = upsert(s, key@, path, title_of(*metadata), author_of(*metadata), now);
        match self.find_key(key.as_str()) {
            Some(i) => {
                let old_entry = &self.file.entries[i];
                let updated = RecentEntry {
                    key: old_entry.key.clone(),
                    path,
                    title,
                    author,
                    current_chapter: old_entry.current_chapter,
                    current_page_in_chapter: old_entry.current_page_in_chapter,
                    total_pages: old_entry.total_pages,
                    global_page: old_entry.global_page,
                    last_read_at: now,
                };
                self.file.entries.set(i, updated);
                assert(self@ =~= s.update(
                    i as int,
                    EntryView {
                        path: path,
                        title: title_of(*metadata),
                        author: author_of(*metadata),
                        last_read_at: now,
                        ..s[i as int]
                    },
                ));
            },
            None => {
                self.file.entries.push(
                    RecentEntry {
                        key,
                        path,
                        title,
                        author,
                        current_chapter: 0,
                        current_page_in_chapter: 0,
                        total_pages: None,
                        global_page: None,
                        last_read_at: now,
                    },
                );
            },
        }
        assert(self@ =~= u);
        self.evict_overflow()
    }
}

/// `std::time::SystemTime`, carried through as an opaque value.
#[verifier::external_type_specification]
#[verifier::external_body]
pub struct ExSystemTime(SystemTime);

/// Trusted: `SystemTime::now`. Nothing is promised of the time it reads.
#[verifier::external_body]
fn system_now() -> SystemTime {
    SystemTime::now()
}

/// Trusted: `SystemTime::duration_since(UNIX_EPOCH)`, `None` for a clock
/// that reads before the epoch. Nothing is promised of the duration.
#[verifier::external_body]
fn since_epoch(t: &SystemTime) -> Option<Duration> {
    t.duration_since(std::time::UNIX_EPOCH).ok()
}

/// Trusted: `Duration::as_secs`. Nothing is promised of the count.
#[verifier::external_body]
fn whole_seconds(d: &Duration) -> u64 {
    d.as_secs()
}

/// Seconds since the Unix epoch by the system clock, 0 for a clock set
/// before the epoch.
pub(crate) fn unix_now() -> u64 {
    match since_epoch(&system_now()) {
        Some(d) => whole_seconds(&d),
        None => 0,
    }
}

/// The list after a page change in the book `key` at time `now`: the first
/// entry with that key takes the new chapter and page, the global page and
/// total when they are given, and the time; without such an entry nothing
/// changes.
pub open spec fn progressed(
    s: Seq<EntryView>,
    key: Seq<char>,
    chapter: usize,
    page: usize,
    global_page: Option<usize>,
    total_pages: Option<usize>,
    now: u64,
) -> Seq<EntryView> {
    match key_at(s, key, 0) {
        Some(i) => s.update(
            i,
            EntryView {
                current_chapter: chapter,
                current_page_in_chapter: page,
                global_page: if global_page is Some {
                    global_page
                } else {
                    s[i].global_page
                },
                total_pages: if total_pages is Some {
                    total_pages
                } else {
                    s[i].total_pages
                },
                last_read_at: now,
                ..s[i]
            },
        ),
        None => s,
    }
}

/// `p` lists the indices of `s` most recently read first, entries read at
/// the same time keeping their order in `s`.
pub open spec fn recency_order(s: Seq<EntryView>, p: Seq<int>) -> bool {
    &&& p.len() == s.len()
    &&& forall|j: int| 0 <= j < p.len() ==> 0 <= #[trigger] p[j] < s.len()
    &&& forall|a: int, b: int| 0 <= a < b < p.len() ==> #[trigger] p[a] != #[trigger] p[b]
    &&& forall|a: int, b: int|
        0 <= a < b < p.len() ==> s[#[trigger] p[a]].last_read_at >= s[#[trigger] p[b]].last_read_at
    &&& forall|a: int, b: int|
        0 <= a < b < p.len() && s[#[trigger] p[a]].last_read_at == s[#[trigger] p[b]].last_read_at
            ==> p[a] < p[b]
}

impl RecentsStore {
    /// Record an open of `book`, read from `path`, at the current time.
    /// The book's key is its identifier, or `fallback_key` (the canonical
    /// form of `path`) when it declares none. The entries dropped to
    /// respect [`MAX_RECENTS`] come back, so that their cover files can be
    /// removed.
    pub fn record_open<B: BookSource + ?Sized>(&mut self, book: &B, path: PathBuf, fallback_key: &str) -> (dropped:
        Vec<RecentEntry>)
        ensures
            exists|m: Metadata, now: u64|
                {
                    &&& (book.obeys_book_spec() ==> m == book.metadata_view())
                    &&& #[trigger] opened(
                        old(self)@,
                        key_spec(opt_view(m.identifier), fallback_key@),
                        path,
                        m,
                        now,
                    ) == (final(self)@, entry_views(dropped@))
                },
            final(self).base() == old(self).base(),
            final(self).wf() == old(self).wf(),
    {
        let metadata = book.metadata();
        let key = key_for(metadata, fallback_key);
        let now = unix_now();
        self.record_open_at(key, path, metadata, now)
    }

    /// Record a page change in the book `key` at time `now`; whether the
    /// store knows the book.
    pub fn update_progress_at(
        &mut self,
        key: &str,
        chapter: usize,
        page: usize,
        global_page: Option<usize>,
        total_pages: Option<usize>,
        now: u64,
    ) -> (found: bool)
        ensures
            final(self)@ == progressed(
                old(self)@,
                key@,
                chapter,
                page,
                global_page,
                total_pages,
                now,
            ),
            found == key_at(old(self)@, key@, 0) is Some,
            final(self).base() == old(self).base(),
            final(self).wf() == old(self).wf(),
    {
        let ghost s = self@;
        match self.find_key(key) {
            Some(i) => {
                let e = &self.file.entries[i];
                let updated = RecentEntry {
                    key: e.key.clone(),
                    path: e.path.clone(),
                    title: clone_opt(&e.title),
                    author: clone_opt(&e.author),
                    current_chapter: chapter,
                    current_page_in_chapter: page,
                    total_pages: if total_pages.is_some() {
                        total_pages
                    } else {
                        e.total_pages
                    },
                    global_page: if global_page.is_some() {
                        global_page
                    } else {
                        e.global_page
                    },
                    last_read_at: now,
                };
                self.file.entries.set(i, updated);
                assert(self@ =~= progressed(s, key@, chapter, page, global_page, total_pages, now));
                true
            },
            None => false,
        }
    }

    /// Record a page change in the book `key` at the current time; whether
    /// the store knows the book. An unknown key changes nothing.
    pub fn update_progress(
        &mut self,
        key: &str,
        chapter: usize,
        page: usize,
        global_page: Option<usize>,
        total_pages: Option<usize>,
    ) -> (found: bool)
        ensures
            exists|now: u64|
                final(self)@ == progressed(
                    old(self)@,
                    key@,
                    chapter,
                    page,
                    global_page,
                    total_pages,
                    now,
                ),
            found == key_at(old(self)@, key@, 0) is Some,
            final(self).base() == old(self).base(),
            final(self).wf() == old(self).wf(),
    {
        let now = unix_now();
        self.update_progress_at(key, chapter, page, global_page, total_pages, now)
    }

    /// The key of `book`: its declared identifier without surrounding
    /// white space, or `fallback` (the canonical form of the path it was
    /// opened from) when that is blank or absent.
    pub fn book_key<B: BookSource + ?Sized>(book: &B, fallback: &str) -> (r: String)
        ensures
            exists|id: Option<Seq<char>>| r@ == key_spec(id, fallback@),
            book.obeys_book_spec() ==> r@ == key_spec(
                opt_view(book.metadata_view().identifier),
                fallback@,
            ),
    {
        let metadata = book.metadata();
        key_for(metadata, fallback)
    }

    /// The entries, most recently read first; entries read at the same
    /// time keep their stored order.
    pub fn ordered(&self) -> (r: Vec<&RecentEntry>)
        ensures
            exists|p: Seq<int>|
                {
                    &&& recency_order(self@, p)
                    &&& r@.len() == p.len()
                    &&& forall|j: int| 0 <= j < p.len() ==> (#[trigger] r@[j])@ == self@[p[j]]
                },
    {
        let entries = &self.file.entries;
        let ghost s = self@;
        let mut out: Vec<&RecentEntry> = Vec::new();
        let ghost mut p: Seq<int> = Seq::empty();
        let mut i: usize = 0;
        while i < entries.len()
            invariant
                i <= entries.len(),
                s == entry_views(entries@),
                out@.len() == p.len() == i,
                forall|j: int| 0 <= j < p.len() ==> 0 <= #[trigger] p[j] < i,
                forall|a: int, b: int| 0 <= a < b < p.len() ==> #[trigger] p[a] != #[trigger] p[b],
                forall|a: int, b: int|
                    0 <= a < b < p.len() ==> s[#[trigger] p[a]].last_read_at >= s[#[trigger] p[
                        b
                    ]].last_read_at,
                forall|a: int, b: int|
                    0 <= a < b < p.len() && s[#[trigger] p[a]].last_read_at == s[#[trigger] p[
                        b
                    ]].last_read_at ==> p[a] < p[b],
                forall|j: int| 0 <= j < p.len() ==> (#[trigger] out@[j])@ == s[p[j]],
            decreases entries.len() - i,
        {
            let ts = entries[i].last_read_at;
            let mut j: usize = 0;
            while j < out.len() && out[j].last_read_at >= ts
                invariant
                    j <= out@.len(),
                    out@.len() == p.len(),
                    forall|k: int| 0 <= k < j ==> s[#[trigger] p[k]].last_read_at >= ts,
                    forall|k: int| 0 <= k < p.len() ==> (#[trigger] out@[k])@ == s[p[k]],
                decreases out@.len() - j,
            {
                j = j + 1;
            }
            let ghost old_p = p;
            out.insert(j, &entries[i]);
            proof {
                p = old_p.insert(j as int, i as int);
                old_p.insert_ensures(j as int, i as int);
                assert(s[i as int] == entries@[i as int]@);
                if j < old_p.len() {
                    assert(s[old_p[j as int]].last_read_at < ts);
                }
                assert forall|k: int| 0 <= k < p.len() implies 0 <= #[trigger] p[k] < i + 1 by {
                    if k > j {
                        assert(p[k] == old_p[k - 1]);
                    }
                }
                assert forall|a: int, b: int| 0 <= a < b < p.len() implies #[trigger] p[a]
                    != #[trigger] p[b] by {
                    if b > j {
                        assert(p[b] == old_p[b - 1]);
                    }
                    if a > j {
                        assert(p[a] == old_p[a - 1]);
                    }
                }
                assert forall|a: int, b: int| 0 <= a < b < p.len() implies s[#[trigger] p[
                    a
                ]].last_read_at >= s[#[trigger] p[b]].last_read_at by {
                    if b > j {
                        assert(p[b] == old_p[b - 1]);
                        if a != j {
                            if a > j {
                                assert(p[a] == old_p[a - 1]);
                            }
                        } else {
                            assert(s[old_p[j as int]].last_read_at >= s[old_p[b - 1]].last_read_at);
                        }
                    }
                    if a > j {
                        assert(p[a] == old_p[a - 1]);
                    }
                }
                assert forall|a: int, b: int|
                    0 <= a < b < p.len() && s[#[trigger] p[a]].last_read_at == s[#[trigger] p[
                        b
                    ]].last_read_at implies p[a] < p[b] by {
                    if b > j {
                        assert(p[b] == old_p[b - 1]);
                        if a == j {
                            assert(s[old_p[j as int]].last_read_at >= s[old_p[b - 1]].last_read_at);
                        }
                    }
                    if a > j {
                        assert(p[a] == old_p[a - 1]);
                    }
                }
                assert forall|k: int| 0 <= k < p.len() implies (#[trigger] out@[k])@ == s[p[k]] by {
                    if k > j {
                        assert(p[k] == old_p[k - 1]);
                    }
                }
            }
            i = i + 1;
        }
        assert(recency_order(s, p));
        out
    }
}

/// Whether `c` is a control character (`char::is_control`: general
/// category Cc, U+0000 to U+001F and U+007F to U+009F).
pub open spec fn is_control(c: char) -> bool {
    c <= '\u{1f}' || ('\u{7f}' <= c && c <= '\u{9f}')
}

/// The file-name-safe form of one key character: path separators, colons,
/// the characters Windows forbids in names, and control characters become
/// `_`.
pub open spec fn sanitized(c: char) -> char {
    if c == '/' || c == '\\' || c == ':' || c == '*' || c == '?' || c == '"' || c == '<' || c
        == '>' || c == '|' || is_control(c) {
        '_'
    } else {
        c
    }
}

/// Number of bytes UTF-8 spends on `c`.
pub open spec fn utf8_width(c: char) -> int {
    if (c as u32) < 0x80 {
        1
    } else if (c as u32) < 0x800 {
        2
    } else if (c as u32) < 0x10000 {
        3
    } else {
        4
    }
}

/// The longest prefix of `s` whose UTF-8 encoding takes at most `limit`
/// bytes.
pub open spec fn prefix_within(s: Seq<char>, limit: int) -> Seq<char>
    decreases s.len(),
{
    if s.len() == 0 || utf8_width(s[0]) > limit {
        Seq::empty()
    } else {
        seq![s[0]] + prefix_within(s.drop_first(), limit - utf8_width(s[0]))
    }
}

/// The cover file name for `key` with extension `ext`: the sanitised key,
/// cut to at most [`MAX_KEY_FILENAME`] bytes on a character boundary, then
/// `.` and `ext`.
pub open spec fn cover_filename_spec(key: Seq<char>, ext: Seq<char>) -> Seq<char> {
    prefix_within(key.map_values(|c: char| sanitized(c)), MAX_KEY_FILENAME as int) + seq!['.']
        + ext
}

fn sanitize_char(c: char) -> (r: char)
    ensures
        r == sanitized(c),
{
    if c == '/' || c == '\\' || c == ':' || c == '*' || c == '?' || c == '"' || c == '<' || c
        == '>' || c == '|' || c <= '\u{1f}' || ('\u{7f}' <= c && c <= '\u{9f}') {
        '_'
    } else {
        c
    }
}

fn char_width(c: char) -> (r: usize)
    ensures
        r == utf8_width(c),
{
    let u = c as u32;
    if u < 0x80 {
        1
    } else if u < 0x800 {
        2
    } else if u < 0x10000 {
        3
    } else {
        4
    }
}

/// A file-system-safe file name derived from the book key `key`, with
/// extension `ext`.
pub fn cover_filename(key: &str, ext: &str) -> (r: String)
    ensures
        r@ == cover_filename_spec(key@, ext@),
{
    let chars = to_chars(key);
    let ghost s = key@.map_values(|c: char| sanitized(c));
    let mut out: Vec<char> = Vec::new();
    let mut budget: usize = MAX_KEY_FILENAME;
    let mut done = false;
    let mut i: usize = 0;
    assert(s.skip(0) =~= s);
    assert(out@ + prefix_within(s, MAX_KEY_FILENAME as int) =~= prefix_within(s, MAX_KEY_FILENAME as int));
    while i < chars.len() && !done
        invariant
            i <= chars.len(),
            chars@ == key@,
            s == key@.map_values(|c: char| sanitized(c)),
            budget <= MAX_KEY_FILENAME,
            done ==> out@ == prefix_within(s, MAX_KEY_FILENAME as int),
            !done ==> out@ + prefix_within(s.skip(i as int), budget as int) == prefix_within(
                s,
                MAX_KEY_FILENAME as int,
            ),
        decreases (chars.len() - i) * 2 + (if done {
            0int
        } else {
            1int
        }),
    {
        let c = sanitize_char(chars[i]);
        let w = char_width(c);
        let ghost rest = s.skip(i as int);
        assert(rest[0] == c);
        assert(rest.drop_first() =~= s.skip(i + 1));
        if w > budget {
            assert(out@ + Seq::<char>::empty() =~= out@);
            done = true;
        } else {
            out.push(c);
            assert(out@ + prefix_within(s.skip(i + 1), (budget - w) as int) =~= out@.drop_last()
                + prefix_within(rest, budget as int));
            budget = budget - w;
            i = i + 1;
        }
    }
    proof {
        if !done {
            assert(s.skip(i as int).len() == 0);
            assert(out@ + Seq::<char>::empty() =~= out@);
        }
    }
    out.push('.');
    let ext_chars = to_chars(ext);
    let all = concat_chars(out.as_slice(), ext_chars.as_slice());
    from_chars(all.as_slice())
}

/// The path `name` under `base` (`Path::join`), which depends on the two
/// arguments alone.
pub uninterp spec fn joined(base: PathBuf, name: Seq<char>) -> PathBuf;

/// Trusted: `Path::join`; what it yields is left to the name.
#[verifier::external_body]
fn join_path(base: &PathBuf, name: &str) -> (r: PathBuf)
    ensures
        r == joined(*base, name@),
{
    base.join(name)
}

/// `covers`.
pub open spec fn covers_word() -> Seq<char> {
    seq!['c', 'o', 'v', 'e', 'r', 's']
}

/// The cover file for `key` with extension `ext` under the store at `base`.
pub open spec fn cover_file(base: PathBuf, key: Seq<char>, ext: Seq<char>) -> PathBuf {
    joined(joined(base, covers_word()), cover_filename_spec(key, ext))
}

impl RecentsStore {
    fn cover_file_path(&self, key: &str, ext: &str) -> (r: PathBuf)
        ensures
            r == cover_file(self.base(), key@, ext@),
    {
        proof {
            reveal_strlit("covers");
            assert("covers"@ == covers_word());
        }
        let dir = join_path(&self.base_dir, "covers");
        let name = cover_filename(key, ext);
        join_path(&dir, name.as_str())
    }

    /// Where the raw RGBA8 cover thumbnail of `key` is stored.
    pub fn cover_thumbnail_path(&self, key: &str) -> (r: PathBuf)
        ensures
            r == cover_file(self.base(), key@, seq!['b', 'i', 'n']),
    {
        proof {
            reveal_strlit("bin");
            assert("bin"@ == seq!['b', 'i', 'n']);
        }
        self.cover_file_path(key, "bin")
    }

    /// Where the dimensions of the cover thumbnail of `key` are stored.
    pub fn cover_sidecar_path(&self, key: &str) -> (r: PathBuf)
        ensures
            r == cover_file(self.base(), key@, seq!['j', 's', 'o', 'n']),
    {
        proof {
            reveal_strlit("json");
            assert("json"@ == seq!['j', 's', 'o', 'n']);
        }
        self.cover_file_path(key, "json")
    }

    /// Where the recents list itself is stored.
    pub fn recents_path(&self) -> (r: PathBuf)
        ensures
            r == joined(
                self.base(),
                seq!['r', 'e', 'c', 'e', 'n', 't', 's', '.', 'j', 's', 'o', 'n'],
            ),
    {
        proof {
            reveal_strlit("recents.json");
            assert("recents.json"@ == seq![
                'r',
                'e',
                'c',
                'e',
                'n',
                't',
                's',
                '.',
                'j',
                's',
                'o',
                'n',
            ]);
        }
        join_path(&self.base_dir, "recents.json")
    }
}

/// What `key_at` finds: the first entry at or after `k` with the key, or
/// that there is none.
pub proof fn lemma_key_at(s: Seq<EntryView>, key: Seq<char>, k: int)
    requires
        0 <= k <= s.len(),
    ensures
        match key_at(s, key, k) {
            Some(i) => k <= i < s.len() && s[i].key == key && forall|j: int|
                k <= j < i ==> #[trigger] s[j].key != key,
            None => forall|j: int| k <= j < s.len() ==> #[trigger] s[j].key != key,
        },
    decreases s.len() - k,
{
    if k < s.len() {
        lemma_key_at(s, key, k + 1);
    }
}

/// Removing an entry other than the first with `key` keeps that entry the
/// first with `key`.
proof fn lemma_key_at_remove(t: Seq<EntryView>, key: Seq<char>, o: int, i: int)
    requires
        0 <= o < t.len(),
        key_at(t, key, 0) == Some(i),
        o != i,
    ensures
        key_at(t.remove(o), key, 0) == Some(if o < i { i - 1 } else { i }),
{
    lemma_key_at(t, key, 0);
    let r = t.remove(o);
    t.remove_ensures(o);
    let i2 = if o < i { i - 1 } else { i };
    assert(r[i2] == t[i]);
    lemma_key_at(r, key, 0);
    match key_at(r, key, 0) {
        Some(x) => {
            if x < i2 {
                if x < o {
                    assert(r[x] == t[x]);
                } else {
                    assert(r[x] == t[x + 1]);
                }
            }
        },
        None => {},
    }
}

/// An entry read strictly later than every other entry of `t`, and first
/// with its key, survives eviction and stays first with its key.
proof fn lemma_evict_keeps(t: Seq<EntryView>, key: Seq<char>, i: int)
    requires
        key_at(t, key, 0) == Some(i),
        forall|j: int| 0 <= j < t.len() && j != i ==> #[trigger] t[j].last_read_at < t[i].last_read_at,
    ensures
        key_at(evict(t).0, key, 0) matches Some(x) && evict(t).0[x] == t[i],
    decreases t.len(),
{
    lemma_key_at(t, key, 0);
    if t.len() > MAX_RECENTS {
        let o = oldest(t);
        lemma_oldest(t);
        let j: int = if i == 0 {
            1
        } else {
            0
        };
        assert(t[o].last_read_at <= t[j].last_read_at);
        assert(o != i);
        let r = t.remove(o);
        t.remove_ensures(o);
        let i2 = if o < i {
            i - 1
        } else {
            i
        };
        lemma_key_at_remove(t, key, o, i);
        assert(r[i2] == t[i]);
        assert forall|j: int| 0 <= j < r.len() && j != i2 implies #[trigger] r[j].last_read_at
            < r[i2].last_read_at by {
            if j < o {
                assert(r[j] == t[j]);
            } else {
                assert(r[j] == t[j + 1]);
            }
        }
        lemma_evict_keeps(r, key, i2);
    }
}

/// `oldest` picks the first of the least recently read entries: every
/// entry before it was read later.
proof fn lemma_oldest_first(s: Seq<EntryView>)
    requires
        s.len() > 0,
    ensures
        forall|j: int| 0 <= j < oldest(s) ==> #[trigger] s[j].last_read_at > s[oldest(s)].last_read_at,
    decreases s.len(),
{
    if s.len() > 1 {
        let t = s.drop_last();
        lemma_oldest_first(t);
        lemma_oldest(t);
        assert forall|j: int| 0 <= j < oldest(s) implies #[trigger] s[j].last_read_at > s[oldest(
            s,
        )].last_read_at by {
            assert(s[j] == t[j]);
            assert(s[oldest(t)] == t[oldest(t)]);
        }
    }
}

/// An entry read no earlier than any other, first with its key, and with
/// at least as many entries before it as eviction drops, survives eviction
/// and stays first with its key.
proof fn lemma_evict_keeps_late(t: Seq<EntryView>, key: Seq<char>, i: int)
    requires
        key_at(t, key, 0) == Some(i),
        forall|j: int| 0 <= j < t.len() ==> #[trigger] t[j].last_read_at <= t[i].last_read_at,
        t.len() <= MAX_RECENTS + i,
    ensures
        key_at(evict(t).0, key, 0) matches Some(x) && evict(t).0[x] == t[i],
    decreases t.len(),
{
    lemma_key_at(t, key, 0);
    if t.len() > MAX_RECENTS {
        let o = oldest(t);
        lemma_oldest(t);
        lemma_oldest_first(t);
        assert(t[0].last_read_at <= t[i].last_read_at);
        assert(o != i);
        let r = t.remove(o);
        t.remove_ensures(o);
        let i2 = if o < i {
            i - 1
        } else {
            i
        };
        lemma_key_at_remove(t, key, o, i);
        assert(r[i2] == t[i]);
        assert forall|j: int| 0 <= j < r.len() implies #[trigger] r[j].last_read_at
            <= r[i2].last_read_at by {
            if j < o {
                assert(r[j] == t[j]);
            } else {
                assert(r[j] == t[j + 1]);
            }
        }
        lemma_evict_keeps_late(r, key, i2);
    }
}

/// Law: an open recorded no earlier than every stored entry is remembered.
/// After it the book is found under its key, with the path, title, author
/// and time of the open; a book already stored keeps its reading position,
/// a new one starts at the beginning. A new book is always kept. A stored
/// book is kept when eviction drops no more entries than stand before it,
/// or when every other entry was read strictly earlier (otherwise, on an
/// overfull list of ties, it can be the first of the oldest).
pub proof fn law_open_is_remembered(
    s: Seq<EntryView>,
    key: Seq<char>,
    path: PathBuf,
    m: Metadata,
    now: u64,
)
    requires
        forall|j: int| 0 <= j < s.len() ==> #[trigger] s[j].last_read_at <= now,
        key_at(s, key, 0) matches Some(i) ==> s.len() <= MAX_RECENTS + i || forall|j: int|
            0 <= j < s.len() && j != i ==> #[trigger] s[j].last_read_at < now,
    ensures
        key_at(opened(s, key, path, m, now).0, key, 0) matches Some(x) && {
            let e = opened(s, key, path, m, now).0[x];
            &&& e.key == key
            &&& e.path == path
            &&& e.title == title_of(m)
            &&& e.author == author_of(m)
            &&& e.last_read_at == now
            &&& match key_at(s, key, 0) {
                Some(i) => {
                    &&& e.current_chapter == s[i].current_chapter
                    &&& e.current_page_in_chapter == s[i].current_page_in_chapter
                    &&& e.global_page == s[i].global_page
                    &&& e.total_pages == s[i].total_pages
                },
                None => {
                    &&& e.current_chapter == 0
                    &&& e.current_page_in_chapter == 0
                    &&& e.global_page is None
                    &&& e.total_pages is None
                },
            }
        },
{
    let u = upsert(s, key, path, title_of(m), author_of(m), now);
    lemma_key_at(s, key, 0);
    match key_at(s, key, 0) {
        Some(i) => {
            lemma_key_at(u, key, 0);
            assert(u[i].key == key);
            match key_at(u, key, 0) {
                Some(x) => {
                    if x < i {
                        assert(u[x] == s[x]);
                    }
                },
                None => {},
            }
            assert(key_at(u, key, 0) == Some(i));
            if s.len() <= MAX_RECENTS + i {
                assert forall|j: int| 0 <= j < u.len() implies #[trigger] u[j].last_read_at
                    <= u[i].last_read_at by {
                    if j != i {
                        assert(u[j] == s[j]);
                    }
                }
                lemma_evict_keeps_late(u, key, i);
            } else {
                assert forall|j: int| 0 <= j < u.len() && j != i implies #[trigger] u[j].last_read_at
                    < u[i].last_read_at by {
                    assert(u[j] == s[j]);
                }
                lemma_evict_keeps(u, key, i);
            }
        },
        None => {
            let n = s.len() as int;
            lemma_key_at(u, key, 0);
            assert(u[n].key == key);
            match key_at(u, key, 0) {
                Some(x) => {
                    if x < n {
                        assert(u[x] == s[x]);
                    }
                },
                None => {},
            }
            assert(key_at(u, key, 0) == Some(n));
            assert forall|j: int| 0 <= j < u.len() implies #[trigger] u[j].last_read_at
                <= u[n].last_read_at by {
                if j != n {
                    assert(u[j] == s[j]);
                }
            }
            lemma_evict_keeps_late(u, key, n);
        },
    }
}

/// How many entries eviction keeps and drops.
proof fn lemma_evict_len(s: Seq<EntryView>)
    ensures
        evict(s).0.len() == (if s.len() > MAX_RECENTS {
            MAX_RECENTS as int
        } else {
            s.len() as int
        }),
        evict(s).0.len() + evict(s).1.len() == s.len(),
    decreases s.len(),
{
    if s.len() > MAX_RECENTS {
        lemma_oldest(s);
        lemma_evict_len(s.remove(oldest(s)));
    }
}

/// Law: after an open the store holds at most [`MAX_RECENTS`] entries,
/// and exactly that many when the open overflowed it; nothing but the
/// overflow is dropped.
pub proof fn law_open_respects_cap(
    s: Seq<EntryView>,
    key: Seq<char>,
    path: PathBuf,
    m: Metadata,
    now: u64,
)
    ensures
        opened(s, key, path, m, now).0.len() <= MAX_RECENTS,
        opened(s, key, path, m, now).0.len() + opened(s, key, path, m, now).1.len() == upsert(
            s,
            key,
            path,
            title_of(m),
            author_of(m),
            now,
        ).len(),
        s.len() < MAX_RECENTS ==> opened(s, key, path, m, now).1.len() == 0,
{
    let u = upsert(s, key, path, title_of(m), author_of(m), now);
    lemma_evict_len(u);
    lemma_key_at(s, key, 0);
    match key_at(s, key, 0) {
        Some(i) => {},
        None => {},
    }
    assert(u.len() <= s.len() + 1);
}

/// Every entry eviction keeps was an entry of `s`.
proof fn lemma_evict_members(s: Seq<EntryView>)
    ensures
        forall|j: int| 0 <= j < evict(s).0.len() ==> s.contains(#[trigger] evict(s).0[j]),
    decreases s.len(),
{
    if s.len() > MAX_RECENTS {
        let o = oldest(s);
        lemma_oldest(s);
        let r = s.remove(o);
        s.remove_ensures(o);
        lemma_evict_members(r);
        assert forall|j: int| 0 <= j < evict(s).0.len() implies s.contains(
            #[trigger] evict(s).0[j],
        ) by {
            let x = evict(s).0[j];
            assert(x == evict(r).0[j]);
            assert(r.contains(x));
            let k = choose|k: int| 0 <= k < r.len() && r[k] == x;
            if k < o {
                assert(s[k] == x);
            } else {
                assert(s[k + 1] == x);
            }
        }
    }
}

/// No entry eviction drops was read later than an entry it keeps.
proof fn lemma_evict_oldest(s: Seq<EntryView>)
    ensures
        forall|a: int, b: int|
            0 <= a < evict(s).1.len() && 0 <= b < evict(s).0.len() ==> (#[trigger] evict(
                s,
            ).1[a]).last_read_at <= (#[trigger] evict(s).0[b]).last_read_at,
    decreases s.len(),
{
    if s.len() > MAX_RECENTS {
        let o = oldest(s);
        lemma_oldest(s);
        let r = s.remove(o);
        s.remove_ensures(o);
        lemma_evict_oldest(r);
        lemma_evict_members(r);
        assert forall|a: int, b: int|
            0 <= a < evict(s).1.len() && 0 <= b < evict(s).0.len() implies (#[trigger] evict(
                s,
            ).1[a]).last_read_at <= (#[trigger] evict(s).0[b]).last_read_at by {
            if a == 0 {
                let x = evict(s).0[b];
                assert(x == evict(r).0[b]);
                assert(r.contains(x));
                let k = choose|k: int| 0 <= k < r.len() && r[k] == x;
                if k < o {
                    assert(s[k] == x);
                } else {
                    assert(s[k + 1] == x);
                }
            } else {
                assert(evict(s).1[a] == evict(r).1[a - 1]);
            }
        }
    }
}

/// Law: an open drops only entries read no later than every entry it
/// keeps: the least recently read books go first.
pub proof fn law_open_drops_oldest(
    s: Seq<EntryView>,
    key: Seq<char>,
    path: PathBuf,
    m: Metadata,
    now: u64,
)
    ensures
        forall|a: int, b: int|
            0 <= a < opened(s, key, path, m, now).1.len() && 0 <= b < opened(
                s,
                key,
                path,
                m,
                now,
            ).0.len() ==> (#[trigger] opened(s, key, path, m, now).1[a]).last_read_at <= (
            #[trigger] opened(s, key, path, m, now).0[b]).last_read_at,
{
    lemma_evict_oldest(upsert(s, key, path, title_of(m), author_of(m), now));
}

/// No two entries share a key.
pub open spec fn unique_keys(s: Seq<EntryView>) -> bool {
    forall|a: int, b: int| 0 <= a < b < s.len() ==> #[trigger] s[a].key != #[trigger] s[b].key
}

proof fn lemma_evict_unique(s: Seq<EntryView>)
    requires
        unique_keys(s),
    ensures
        unique_keys(evict(s).0),
    decreases s.len(),
{
    if s.len() > MAX_RECENTS {
        let o = oldest(s);
        lemma_oldest(s);
        let r = s.remove(o);
        s.remove_ensures(o);
        assert forall|a: int, b: int| 0 <= a < b < r.len() implies #[trigger] r[a].key
            != #[trigger] r[b].key by {
            let a2 = if a < o {
                a
            } else {
                a + 1
            };
            let b2 = if b < o {
                b
            } else {
                b + 1
            };
            assert(r[a] == s[a2]);
            assert(r[b] == s[b2]);
        }
        lemma_evict_unique(r);
    }
}

/// Law: opens never give two entries the same key.
pub proof fn law_open_keeps_keys_unique(
    s: Seq<EntryView>,
    key: Seq<char>,
    path: PathBuf,
    m: Metadata,
    now: u64,
)
    requires
        unique_keys(s),
    ensures
        unique_keys(opened(s, key, path, m, now).0),
{
    let u = upsert(s, key, path, title_of(m), author_of(m), now);
    lemma_key_at(s, key, 0);
    match key_at(s, key, 0) {
        Some(i) => {
            assert forall|a: int, b: int| 0 <= a < b < u.len() implies #[trigger] u[a].key
                != #[trigger] u[b].key by {
                assert(u[a].key == s[a].key);
                assert(u[b].key == s[b].key);
            }
        },
        None => {
            assert forall|a: int, b: int| 0 <= a < b < u.len() implies #[trigger] u[a].key
                != #[trigger] u[b].key by {
                if b < s.len() {
                    assert(u[a] == s[a]);
                    assert(u[b] == s[b]);
                } else {
                    assert(u[a] == s[a]);
                }
            }
        },
    }
    lemma_evict_unique(u);
}

/// Law: a page change is read back. After it the book's entry, still the
/// first with its key, holds the new chapter and page, and the global
/// page and total wherever they were given; every other entry is as it
/// was. For an unknown key the list is unchanged.
pub proof fn law_progress_read_back(
    s: Seq<EntryView>,
    key: Seq<char>,
    chapter: usize,
    page: usize,
    global_page: Option<usize>,
    total_pages: Option<usize>,
    now: u64,
)
    ensures
        ({
            let t = progressed(s, key, chapter, page, global_page, total_pages, now);
            match key_at(s, key, 0) {
                Some(i) => {
                    &&& key_at(t, key, 0) == Some(i)
                    &&& t[i].current_chapter == chapter
                    &&& t[i].current_page_in_chapter == page
                    &&& (global_page is Some ==> t[i].global_page == global_page)
                    &&& (total_pages is Some ==> t[i].total_pages == total_pages)
                    &&& t[i].last_read_at == now
                    &&& t.len() == s.len()
                    &&& forall|j: int| 0 <= j < s.len() && j != i ==> #[trigger] t[j] == s[j]
                },
                None => t == s,
            }
        }),
{
    let t = progressed(s, key, chapter, page, global_page, total_pages, now);
    lemma_key_at(s, key, 0);
    match key_at(s, key, 0) {
        Some(i) => {
            lemma_key_at(t, key, 0);
            assert(t[i].key == key);
            match key_at(t, key, 0) {
                Some(x) => {
                    if x < i {
                        assert(t[x] == s[x]);
                    }
                },
                None => {},
            }
        },
        None => {},
    }
}

/// Law: a reading position survives closing and reopening the book. After
/// a page change in a stored book, reopening it no earlier than every
/// stored entry was read finds it at that chapter and page, with the
/// global page and total wherever the change gave them (on the same terms
/// as [`law_open_is_remembered`] for a stored book).
pub proof fn law_position_survives_reopen(
    s: Seq<EntryView>,
    key: Seq<char>,
    chapter: usize,
    page: usize,
    global_page: Option<usize>,
    total_pages: Option<usize>,
    saved_at: u64,
    path: PathBuf,
    m: Metadata,
    reopened_at: u64,
)
    requires
        key_at(s, key, 0) is Some,
        saved_at <= reopened_at,
        forall|j: int| 0 <= j < s.len() ==> #[trigger] s[j].last_read_at <= reopened_at,
        s.len() <= MAX_RECENTS + key_at(s, key, 0)->0 || forall|j: int|
            0 <= j < s.len() && j != key_at(s, key, 0)->0 ==> #[trigger] s[j].last_read_at
                < reopened_at,
    ensures
        ({
            let after = opened(
                progressed(s, key, chapter, page, global_page, total_pages, saved_at),
                key,
                path,
                m,
                reopened_at,
            ).0;
            key_at(after, key, 0) matches Some(x) && {
                &&& after[x].current_chapter == chapter
                &&& after[x].current_page_in_chapter == page
                &&& (global_page is Some ==> after[x].global_page == global_page)
                &&& (total_pages is Some ==> after[x].total_pages == total_pages)
            }
        }),
{
    let p = progressed(s, key, chapter, page, global_page, total_pages, saved_at);
    law_progress_read_back(s, key, chapter, page, global_page, total_pages, saved_at);
    let i = key_at(s, key, 0)->0;
    assert forall|j: int| 0 <= j < p.len() implies #[trigger] p[j].last_read_at <= reopened_at by {
        if j != i {
            assert(p[j] == s[j]);
        }
    }
    if !(s.len() <= MAX_RECENTS + i) {
        assert forall|j: int| 0 <= j < p.len() && j != i implies #[trigger] p[j].last_read_at
            < reopened_at by {
            assert(p[j] == s[j]);
        }
    }
    law_open_is_remembered(p, key, path, m, reopened_at);
}

} // verus!
