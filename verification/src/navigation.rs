//! Page navigation through a book whose chapters are paginated in the
//! background.
//!
//! The reader knows, for each chapter, whether pagination has been asked
//! for, is under way, failed, or produced some number of pages. Turning
//! pages walks over chapters that turned out empty or failed; landing on a
//! chapter whose page count is not known yet asks for it. Every operation
//! returns the chapters whose pagination the caller has to request, each
//! at most once over the reader's life.

use vstd::prelude::*;

verus! {

/// What is known of one chapter's pagination.
#[derive(Debug, Clone, Copy)]
pub enum ChapterStatus {
    /// Not asked for yet.
    NotRequested,
    /// Asked for; no answer yet.
    Pending,
    /// Paginated into this many pages.
    Loaded(usize),
    /// Pagination failed.
    Failed,
}

/// A navigation request.
#[derive(Debug, Clone, Copy)]
pub enum NavCommand {
    /// The next page, rolling into the next non-empty chapter.
    NextPage,
    /// The previous page, rolling back into the previous non-empty chapter.
    PrevPage,
    /// The first page of the chapter.
    FirstPage,
    /// The last page of the chapter.
    LastPage,
    /// The start of the next chapter.
    NextChapter,
    /// The start of the previous chapter.
    PrevChapter,
}

/// The keys the reader responds to.
#[derive(Debug, Clone, Copy)]
pub enum NamedKey {
    /// Right arrow.
    ArrowRight,
    /// Left arrow.
    ArrowLeft,
    /// Space bar.
    Space,
    /// Page Down.
    PageDown,
    /// Page Up.
    PageUp,
    /// Home.
    Home,
    /// End.
    End,
    /// Any other key.
    Other,
}

/// The navigation a key press asks for: arrows turn pages, or chapters
/// with Control held; Space and Page Down go forward, Page Up back; Home
/// and End jump within the chapter. Other keys ask for nothing.
pub open spec fn key_command(key: NamedKey, control: bool) -> Option<NavCommand> {
    match key {
        NamedKey::ArrowRight => Some(
            if control {
                NavCommand::NextChapter
            } else {
                NavCommand::NextPage
            },
        ),
        NamedKey::ArrowLeft => Some(
            if control {
                NavCommand::PrevChapter
            } else {
                NavCommand::PrevPage
            },
        ),
        NamedKey::Space => Some(NavCommand::NextPage),
        NamedKey::PageDown => Some(NavCommand::NextPage),
        NamedKey::PageUp => Some(NavCommand::PrevPage),
        NamedKey::Home => Some(NavCommand::FirstPage),
        NamedKey::End => Some(NavCommand::LastPage),
        NamedKey::Other => None,
    }
}

/// The navigation a key press asks for.
pub fn map_key(key: NamedKey, control: bool) -> (r: Option<NavCommand>)
    ensures
        r == key_command(key, control),
{
    match key {
        NamedKey::ArrowRight => {
            if control {
                Some(NavCommand::NextChapter)
            } else {
                Some(NavCommand::NextPage)
            }
        },
        NamedKey::ArrowLeft => {
            if control {
                Some(NavCommand::PrevChapter)
            } else {
                Some(NavCommand::PrevPage)
            }
        },
        NamedKey::Space => Some(NavCommand::NextPage),
        NamedKey::PageDown => Some(NavCommand::NextPage),
        NamedKey::PageUp => Some(NavCommand::PrevPage),
        NamedKey::Home => Some(NavCommand::FirstPage),
        NamedKey::End => Some(NavCommand::LastPage),
        NamedKey::Other => None,
    }
}

/// The reader's state: what is known of each chapter and where it is.
pub ghost struct Cursor {
    pub chapters: Seq<ChapterStatus>,
    pub chapter: usize,
    pub page: usize,
}

/// The pages a chapter is known to have (none unless loaded).
pub open spec fn pages_of(s: ChapterStatus) -> usize {
    match s {
        ChapterStatus::Loaded(n) => n,
        _ => 0,
    }
}

/// Chapters page turns walk over: failed ones and ones without pages.
pub open spec fn skippable(s: ChapterStatus) -> bool {
    match s {
        ChapterStatus::Failed => true,
        ChapterStatus::Loaded(n) => n == 0,
        _ => false,
    }
}

/// A cursor on one of at least one chapters.
pub open spec fn cursor_wf(st: Cursor) -> bool {
    0 <= st.chapter < st.chapters.len() <= usize::MAX
}

/// The first chapter at or after `i` that a forward page turn stops at.
pub open spec fn next_stop(chs: Seq<ChapterStatus>, i: int) -> Option<int>
    decreases chs.len() - i,
{
    if i < 0 || i >= chs.len() {
        None
    } else if skippable(chs[i]) {
        next_stop(chs, i + 1)
    } else {
        Some(i)
    }
}

/// The last chapter before `i` known to have pages.
pub open spec fn prev_stop(chs: Seq<ChapterStatus>, i: int) -> Option<int>
    decreases i,
{
    if i <= 0 || i > chs.len() {
        None
    } else if pages_of(chs[i - 1]) > 0 {
        Some(i - 1)
    } else {
        prev_stop(chs, i - 1)
    }
}

/// Ask for chapter `idx` unless it was asked for before (or does not
/// exist): it becomes pending and is the one request to send.
pub open spec fn requested(st: Cursor, idx: int) -> (Cursor, Seq<usize>) {
    if 0 <= idx < st.chapters.len() && st.chapters[idx] is NotRequested {
        (
            Cursor { chapters: st.chapters.update(idx, ChapterStatus::Pending), ..st },
            seq![idx as usize],
        )
    } else {
        (st, Seq::empty())
    }
}

/// A forward page turn: the next page of the chapter, else the first page
/// of the next chapter that is not known to be empty or failed (asking for
/// the one after it, or for it when its pages are not known yet); at the
/// end of the book nothing changes.
pub open spec fn next_page_spec(st: Cursor) -> (Cursor, Seq<usize>) {
    let n = pages_of(st.chapters[st.chapter as int]);
    if n > 0 && st.page + 1 < n {
        (Cursor { page: (st.page + 1) as usize, ..st }, Seq::empty())
    } else {
        match next_stop(st.chapters, st.chapter + 1) {
            None => (st, Seq::empty()),
            Some(i) => {
                let moved = Cursor { chapter: i as usize, page: 0, ..st };
                if pages_of(st.chapters[i]) > 0 {
                    requested(moved, i + 1)
                } else {
                    requested(moved, i)
                }
            },
        }
    }
}

/// A backward page turn: the previous page of the chapter, else the last
/// page of the closest earlier chapter known to have pages; at the start
/// of the book, or with no such chapter, nothing changes.
pub open spec fn prev_page_spec(st: Cursor) -> Cursor {
    if st.page > 0 {
        Cursor { page: (st.page - 1) as usize, ..st }
    } else if st.chapter == 0 {
        st
    } else {
        match prev_stop(st.chapters, st.chapter as int) {
            Some(i) => Cursor {
                chapter: i as usize,
                page: (pages_of(st.chapters[i]) - 1) as usize,
                ..st
            },
            None => st,
        }
    }
}

/// The effect of a navigation command.
pub open spec fn nav_spec(st: Cursor, cmd: NavCommand) -> (Cursor, Seq<usize>) {
    match cmd {
        NavCommand::NextPage => next_page_spec(st),
        NavCommand::PrevPage => (prev_page_spec(st), Seq::empty()),
        NavCommand::FirstPage => (Cursor { page: 0, ..st }, Seq::empty()),
        NavCommand::LastPage => {
            let n = pages_of(st.chapters[st.chapter as int]);
            if n > 0 {
                (Cursor { page: (n - 1) as usize, ..st }, Seq::empty())
            } else {
                (st, Seq::empty())
            }
        },
        NavCommand::NextChapter => {
            if st.chapter + 1 < st.chapters.len() {
                requested(
                    Cursor { chapter: (st.chapter + 1) as usize, page: 0, ..st },
                    st.chapter + 1,
                )
            } else {
                (st, Seq::empty())
            }
        },
        NavCommand::PrevChapter => {
            if st.chapter > 0 {
                (Cursor { chapter: (st.chapter - 1) as usize, page: 0, ..st }, Seq::empty())
            } else {
                (st, Seq::empty())
            }
        },
    }
}

/// The chapter reached from `i` by stepping off chapters that paginated to
/// nothing, as long as a next chapter exists.
pub open spec fn advance_to(chs: Seq<ChapterStatus>, i: int) -> int
    decreases chs.len() - i,
{
    if 0 <= i && i + 1 < chs.len() && chs[i] == ChapterStatus::Loaded(0) {
        advance_to(chs, i + 1)
    } else {
        i
    }
}

/// Step off chapters that paginated to nothing, onto the first page of the
/// chapter reached.
pub open spec fn advance_spec(st: Cursor) -> Cursor {
    let i = advance_to(st.chapters, st.chapter as int);
    if i == st.chapter {
        st
    } else {
        Cursor { chapter: i as usize, page: 0, ..st }
    }
}

/// Record one pagination answer: pages for a chapter, or its failure.
pub open spec fn apply_answer(st: Cursor, answer: (usize, Option<usize>)) -> Cursor {
    if answer.0 < st.chapters.len() {
        Cursor {
            chapters: st.chapters.update(
                answer.0 as int,
                match answer.1 {
                    Some(n) => ChapterStatus::Loaded(n),
                    None => ChapterStatus::Failed,
                },
            ),
            ..st
        }
    } else {
        st
    }
}

/// Record a run of answers in order.
pub open spec fn apply_answers(st: Cursor, answers: Seq<(usize, Option<usize>)>) -> Cursor
    decreases answers.len(),
{
    if answers.len() == 0 {
        st
    } else {
        apply_answer(apply_answers(st, answers.drop_last()), answers.last())
    }
}

/// Taking in pagination answers: record them, step off empty chapters,
/// ask for the current chapter if it never was, and prefetch the next one.
/// No answers, no change.
pub open spec fn drain_spec(st: Cursor, answers: Seq<(usize, Option<usize>)>) -> (
    Cursor,
    Seq<usize>,
) {
    if answers.len() == 0 {
        (st, Seq::empty())
    } else {
        let b = advance_spec(apply_answers(st, answers));
        let (c1, r1) = requested(b, b.chapter as int);
        let (c2, r2) = requested(c1, c1.chapter + 1);
        (c2, r1 + r2)
    }
}

/// Total pages of the chapters before `k`.
pub open spec fn pages_before(chs: Seq<ChapterStatus>, k: int) -> int
    decreases k,
{
    if k <= 0 || k > chs.len() {
        0
    } else {
        pages_before(chs, k - 1) + pages_of(chs[k - 1])
    }
}

/// Whether every chapter has been paginated.
pub open spec fn all_loaded(chs: Seq<ChapterStatus>) -> bool {
    forall|j: int| 0 <= j < chs.len() ==> #[trigger] chs[j] is Loaded
}

/// The reader: per-chapter pagination status and the current position.
#[derive(Debug)]
pub struct Reader {
    chapters: Vec<ChapterStatus>,
    current_chapter: usize,
    current_page_in_chapter: usize,
}

impl View for Reader {
    type V = Cursor;

    closed spec fn view(&self) -> Cursor {
        Cursor {
            chapters: self.chapters@,
            chapter: self.current_chapter,
            page: self.current_page_in_chapter,
        }
    }
}

/// The reader as opened on a book of `spine_len` chapters, resuming at
/// `saved` when that names one of them and at the start otherwise; the
/// first chapter is asked for, and the resumed one too.
pub open spec fn open_spec(spine_len: nat, saved: Option<(usize, usize)>) -> (Cursor, Seq<usize>) {
    let (c, p) = match saved {
        Some(cp) => if cp.0 < spine_len {
            cp
        } else {
            (0usize, 0usize)
        },
        None => (0usize, 0usize),
    };
    let st0 = Cursor {
        chapters: Seq::new(spine_len, |i: int| ChapterStatus::NotRequested),
        chapter: c,
        page: p,
    };
    let (s1, r1) = requested(st0, 0);
    if c != 0 {
        let (s2, r2) = requested(s1, c as int);
        (s2, r1 + r2)
    } else {
        (s1, r1)
    }
}

/// The page offset across the book, and the book's total pages, once
/// every chapter is paginated.
pub open spec fn progress_spec(st: Cursor) -> (Option<usize>, Option<usize>) {
    if all_loaded(st.chapters) {
        (
            Some((pages_before(st.chapters, st.chapter as int) + st.page) as usize),
            Some(pages_before(st.chapters, st.chapters.len() as int) as usize),
        )
    } else {
        (None, None)
    }
}

/// Page counts of earlier chapters never exceed those of later ones.
pub proof fn lemma_pages_before_mono(chs: Seq<ChapterStatus>, a: int, b: int)
    requires
        0 <= a <= b <= chs.len(),
    ensures
        pages_before(chs, a) <= pages_before(chs, b),
    decreases b - a,
{
    if a < b {
        lemma_pages_before_mono(chs, a, b - 1);
    }
}

impl Reader {
    /// Open a reader on a book of `spine_len` chapters, resuming at `saved`
    /// when it names one of them; with the chapters to ask for. A book
    /// without chapters cannot be read.
    pub fn open(spine_len: usize, saved: Option<(usize, usize)>) -> (r: Option<(Reader, Vec<usize>)>)
        ensures
            spine_len == 0 <==> r is None,
            r matches Some(o) ==> {
                &&& cursor_wf(o.0@)
                &&& (o.0@, o.1@) == open_spec(spine_len as nat, saved)
            },
    {
        if spine_len == 0 {
            return None;
        }
        let (c, p) = match saved {
            Some(cp) => if cp.0 < spine_len {
                cp
            } else {
                (0usize, 0usize)
            },
            None => (0usize, 0usize),
        };
        let mut chapters: Vec<ChapterStatus> = Vec::new();
        let mut i: usize = 0;
        while i < spine_len
            invariant
                i <= spine_len,
                chapters@ =~= Seq::new(i as nat, |k: int| ChapterStatus::NotRequested),
            decreases spine_len - i,
        {
            chapters.push(ChapterStatus::NotRequested);
            i = i + 1;
        }
        let mut reader = Reader { chapters, current_chapter: c, current_page_in_chapter: p };
        let mut reqs: Vec<usize> = Vec::new();
        assert(reqs@ + requested(reader@, 0).1 =~= requested(reader@, 0).1);
        reader.request(0, &mut reqs);
        if c != 0 {
            reader.request(c, &mut reqs);
        }
        Some((reader, reqs))
    }

    /// The chapter being read.
    pub fn current_chapter(&self) -> (r: usize)
        ensures
            r == self@.chapter,
    {
        self.current_chapter
    }

    /// The page being read within its chapter.
    pub fn current_page_in_chapter(&self) -> (r: usize)
        ensures
            r == self@.page,
    {
        self.current_page_in_chapter
    }

    /// Number of chapters.
    pub fn chapter_count(&self) -> (r: usize)
        ensures
            r == self@.chapters.len(),
    {
        self.chapters.len()
    }

    /// What is known of chapter `idx`.
    pub fn status(&self, idx: usize) -> (r: Option<ChapterStatus>)
        ensures
            idx < self@.chapters.len() ==> r == Some(self@.chapters[idx as int]),
            idx >= self@.chapters.len() ==> r is None,
    {
        if idx < self.chapters.len() {
            Some(self.chapters[idx])
        } else {
            None
        }
    }

    fn request(&mut self, idx: usize, reqs: &mut Vec<usize>)
        ensures
            final(self)@ == requested(old(self)@, idx as int).0,
            final(reqs)@ == old(reqs)@ + requested(old(self)@, idx as int).1,
    {
        if idx < self.chapters.len() {
            match self.chapters[idx] {
                ChapterStatus::NotRequested => {
                    self.chapters.set(idx, ChapterStatus::Pending);
                    reqs.push(idx);
                    assert(reqs@ =~= old(reqs)@ + seq![idx]);
                },
                _ => {
                    assert(reqs@ =~= old(reqs)@ + Seq::<usize>::empty());
                },
            }
        } else {
            assert(reqs@ =~= old(reqs)@ + Seq::<usize>::empty());
        }
    }

    /// Record that asking for chapter `idx` failed.
    pub fn mark_failed(&mut self, idx: usize)
        requires
            cursor_wf(old(self)@),
        ensures
            cursor_wf(final(self)@),
            final(self)@ == apply_answer(old(self)@, (idx, None)),
    {
        if idx < self.chapters.len() {
            self.chapters.set(idx, ChapterStatus::Failed);
        }
    }

    fn pages_here(&self) -> (r: usize)
        requires
            cursor_wf(self@),
        ensures
            r == pages_of(self@.chapters[self@.chapter as int]),
    {
        match self.chapters[self.current_chapter] {
            ChapterStatus::Loaded(n) => n,
            _ => 0,
        }
    }

    /// Turn to the next page; the chapters to ask for.
    pub fn next_page(&mut self) -> (reqs: Vec<usize>)
        requires
            cursor_wf(old(self)@),
        ensures
            cursor_wf(final(self)@),
            (final(self)@, reqs@) == next_page_spec(old(self)@),
    {
        let mut reqs: Vec<usize> = Vec::new();
        let n = self.pages_here();
        if n > 0 && self.current_page_in_chapter < n - 1 {
            self.current_page_in_chapter = self.current_page_in_chapter + 1;
            return reqs;
        }
        let ghost st = self@;
        let total = self.chapters.len();
        let mut idx = self.current_chapter + 1;
        while idx < total
            invariant
                self@ == st,
                st == old(self)@,
                total == st.chapters.len(),
                cursor_wf(st),
                st.chapter + 1 <= idx <= total,
                reqs@.len() == 0,
                !(pages_of(st.chapters[st.chapter as int]) > 0 && st.page + 1 < pages_of(
                    st.chapters[st.chapter as int],
                )),
                next_stop(st.chapters, st.chapter + 1) == next_stop(st.chapters, idx as int),
            decreases total - idx,
        {
            match self.chapters[idx] {
                ChapterStatus::Loaded(k) => {
                    if k > 0 {
                        assert(next_stop(st.chapters, idx as int) == Some(idx as int));
                        self.current_chapter = idx;
                        self.current_page_in_chapter = 0;
                        assert(self@ == Cursor { chapter: idx, page: 0, ..st });
                        assert(reqs@ + requested(self@, idx + 1).1 =~= requested(self@, idx + 1).1);
                        self.request(idx + 1, &mut reqs);
                        return reqs;
                    }
                    idx = idx + 1;
                },
                ChapterStatus::NotRequested | ChapterStatus::Pending => {
                    assert(next_stop(st.chapters, idx as int) == Some(idx as int));
                    self.current_chapter = idx;
                    self.current_page_in_chapter = 0;
                    assert(self@ == Cursor { chapter: idx, page: 0, ..st });
                    assert(reqs@ + requested(self@, idx as int).1 =~= requested(self@, idx as int).1);
                    self.request(idx, &mut reqs);
                    return reqs;
                },
                ChapterStatus::Failed => {
                    idx = idx + 1;
                },
            }
        }
        reqs
    }

    /// Turn to the previous page.
    pub fn prev_page(&mut self)
        requires
            cursor_wf(old(self)@),
        ensures
            cursor_wf(final(self)@),
            final(self)@ == prev_page_spec(old(self)@),
    {
        if self.current_page_in_chapter > 0 {
            self.current_page_in_chapter = self.current_page_in_chapter - 1;
            return;
        }
        if self.current_chapter == 0 {
            return;
        }
        let ghost st = self@;
        let mut idx = self.current_chapter;
        while idx > 0
            invariant
                self@ == st,
                st == old(self)@,
                cursor_wf(st),
                st.page == 0,
                st.chapter > 0,
                idx <= st.chapter,
                prev_stop(st.chapters, st.chapter as int) == prev_stop(st.chapters, idx as int),
            decreases idx,
        {
            idx = idx - 1;
            match self.chapters[idx] {
                ChapterStatus::Loaded(k) => {
                    if k > 0 {
                        assert(prev_stop(st.chapters, idx + 1) == Some(idx as int));
                        self.current_chapter = idx;
                        self.current_page_in_chapter = k - 1;
                        assert(self@ == Cursor { chapter: idx, page: (k - 1) as usize, ..st });
                        return;
                    }
                },
                _ => {},
            }
        }
    }

    /// Carry out a navigation command: the chapters to ask for, and whether
    /// the position changed (and so is worth saving).
    pub fn handle_nav(&mut self, cmd: NavCommand) -> (r: (Vec<usize>, bool))
        requires
            cursor_wf(old(self)@),
        ensures
            cursor_wf(final(self)@),
            (final(self)@, r.0@) == nav_spec(old(self)@, cmd),
            r.1 == (final(self)@.chapter != old(self)@.chapter || final(self)@.page
                != old(self)@.page),
    {
        let before = (self.current_chapter, self.current_page_in_chapter);
        let mut reqs: Vec<usize> = Vec::new();
        match cmd {
            NavCommand::NextPage => {
                reqs = self.next_page();
            },
            NavCommand::PrevPage => {
                self.prev_page();
            },
            NavCommand::FirstPage => {
                self.current_page_in_chapter = 0;
            },
            NavCommand::LastPage => {
                let n = self.pages_here();
                if n > 0 {
                    self.current_page_in_chapter = n - 1;
                }
            },
            NavCommand::NextChapter => {
                let len = self.chapters.len();
                if self.current_chapter < len - 1 {
                    let n = self.current_chapter + 1;
                    self.current_chapter = n;
                    self.current_page_in_chapter = 0;
                    assert(reqs@ + requested(self@, n as int).1 =~= requested(self@, n as int).1);
                    self.request(n, &mut reqs);
                }
            },
            NavCommand::PrevChapter => {
                if self.current_chapter > 0 {
                    self.current_chapter = self.current_chapter - 1;
                    self.current_page_in_chapter = 0;
                }
            },
        }
        let moved = self.current_chapter != before.0 || self.current_page_in_chapter != before.1;
        (reqs, moved)
    }

    /// Step off chapters that paginated to nothing.
    fn advance_past_empty(&mut self)
        requires
            cursor_wf(old(self)@),
        ensures
            cursor_wf(final(self)@),
            final(self)@ == advance_spec(old(self)@),
    {
        let ghost st = self@;
        let ghost mut moved = false;
        while self.current_chapter < self.chapters.len()
            invariant
                self@.chapters == st.chapters,
                cursor_wf(st),
                st.chapter <= self.current_chapter < self.chapters.len(),
                advance_to(st.chapters, st.chapter as int) == advance_to(
                    st.chapters,
                    self.current_chapter as int,
                ),
                moved == (self.current_chapter != st.chapter),
                !moved ==> self@ == st,
                moved ==> self.current_page_in_chapter == 0,
            ensures
                advance_to(st.chapters, st.chapter as int) == self.current_chapter,
                self@.chapters == st.chapters,
                moved == (self.current_chapter != st.chapter),
                !moved ==> self@ == st,
                moved ==> self.current_page_in_chapter == 0,
                self.current_chapter < self.chapters.len(),
            decreases self.chapters.len() - self.current_chapter,
        {
            match self.chapters[self.current_chapter] {
                ChapterStatus::Loaded(n) => {
                    if n != 0 {
                        break;
                    }
                    let next = self.current_chapter + 1;
                    if next >= self.chapters.len() {
                        break;
                    }
                    self.current_chapter = next;
                    self.current_page_in_chapter = 0;
                    proof {
                        moved = true;
                    }
                },
                _ => {
                    break;
                },
            }
        }
    }

    /// The chapter after the current one, when it was never asked for.
    pub fn next_chapter_to_prefetch(&self) -> (r: Option<usize>)
        requires
            cursor_wf(self@),
        ensures
            r == (if self@.chapter + 1 < self@.chapters.len() && self@.chapters[self@.chapter
                + 1] is NotRequested {
                Some((self@.chapter + 1) as usize)
            } else {
                None
            }),
    {
        let len = self.chapters.len();
        if self.current_chapter >= len - 1 {
            return None;
        }
        let next = self.current_chapter + 1;
        match self.chapters[next] {
            ChapterStatus::NotRequested => Some(next),
            _ => None,
        }
    }

    /// Take in pagination answers (`(chapter, Some(pages))`, or
    /// `(chapter, None)` for a failure); the chapters to ask for next.
    pub fn drain(&mut self, answers: &[(usize, Option<usize>)]) -> (reqs: Vec<usize>)
        requires
            cursor_wf(old(self)@),
        ensures
            cursor_wf(final(self)@),
            (final(self)@, reqs@) == drain_spec(old(self)@, answers@),
    {
        let mut reqs: Vec<usize> = Vec::new();
        if answers.len() == 0 {
            return reqs;
        }
        let ghost st = self@;
        let mut i: usize = 0;
        while i < answers.len()
            invariant
                i <= answers.len(),
                cursor_wf(self@),
                self@.chapters.len() == st.chapters.len(),
                self@ == apply_answers(st, answers@.take(i as int)),
            decreases answers.len() - i,
        {
            let (idx, pages) = answers[i];
            if idx < self.chapters.len() {
                match pages {
                    Some(n) => self.chapters.set(idx, ChapterStatus::Loaded(n)),
                    None => self.chapters.set(idx, ChapterStatus::Failed),
                }
            }
            assert(answers@.take(i + 1).drop_last() =~= answers@.take(i as int));
            i = i + 1;
        }
        assert(answers@.take(answers.len() as int) =~= answers@);
        self.advance_past_empty();
        let cur = self.current_chapter;
        assert(reqs@ + requested(self@, cur as int).1 =~= requested(self@, cur as int).1);
        self.request(cur, &mut reqs);
        let ghost mid = reqs@;
        let ghost c1 = self@;
        let ghost b = advance_spec(apply_answers(st, answers@));
        assert(b.chapter == c1.chapter);
        assert(c1 == requested(b, b.chapter as int).0);
        match self.next_chapter_to_prefetch() {
            Some(next) => {
                let len = self.chapters.len();
                assert(next as int == c1.chapter + 1);
                self.request(next, &mut reqs);
                assert(self@ == requested(c1, c1.chapter + 1).0);
            },
            None => {
                assert(requested(c1, c1.chapter + 1).0 == c1);
                assert(reqs@ =~= mid + requested(self@, self@.chapter + 1).1);
            },
        }
        assert(st == old(self)@);
        assert(self@ == drain_spec(st, answers@).0);
        assert(reqs@ =~= drain_spec(st, answers@).1);
        reqs
    }

    /// Whether the page offset across the book fits in a `usize`.
    pub fn progress_fits(&self) -> (r: bool)
        ensures
            r == (pages_before(self@.chapters, self@.chapters.len() as int) + self@.page
                <= usize::MAX),
    {
        let mut total: usize = 0;
        let mut i: usize = 0;
        while i < self.chapters.len()
            invariant
                i <= self.chapters.len(),
                total == pages_before(self@.chapters, i as int),
            decreases self.chapters.len() - i,
        {
            let n = match self.chapters[i] {
                ChapterStatus::Loaded(n) => n,
                _ => 0,
            };
            match total.checked_add(n) {
                Some(t) => {
                    total = t;
                },
                None => {
                    proof {
                        lemma_pages_before_mono(self@.chapters, i + 1, self@.chapters.len() as int);
                    }
                    return false;
                },
            }
            i = i + 1;
        }
        total.checked_add(self.current_page_in_chapter).is_some()
    }

    /// The page offset across the book and its total pages, once every
    /// chapter is paginated; `(None, None)` before.
    pub fn global_page_progress(&self) -> (r: (Option<usize>, Option<usize>))
        requires
            cursor_wf(self@),
            pages_before(self@.chapters, self@.chapters.len() as int) + self@.page <= usize::MAX,
        ensures
            r == progress_spec(self@),
    {
        let ghost chs = self@.chapters;
        let mut total: usize = 0;
        let mut i: usize = 0;
        while i < self.chapters.len()
            invariant
                i <= self.chapters.len(),
                chs == self@.chapters,
                pages_before(chs, chs.len() as int) + self@.page <= usize::MAX,
                total == pages_before(chs, i as int),
                forall|j: int| 0 <= j < i ==> #[trigger] chs[j] is Loaded,
            decreases self.chapters.len() - i,
        {
            proof {
                lemma_pages_before_mono(chs, i + 1, chs.len() as int);
            }
            match self.chapters[i] {
                ChapterStatus::Loaded(n) => {
                    total = total + n;
                },
                _ => {
                    return (None, None);
                },
            }
            i = i + 1;
        }
        let mut global: usize = 0;
        let mut j: usize = 0;
        proof {
            lemma_pages_before_mono(chs, self@.chapter as int, chs.len() as int);
        }
        while j < self.current_chapter
            invariant
                j <= self@.chapter < chs.len(),
                chs == self@.chapters,
                pages_before(chs, self@.chapter as int) <= pages_before(chs, chs.len() as int),
                pages_before(chs, chs.len() as int) + self@.page <= usize::MAX,
                global == pages_before(chs, j as int),
            decreases self.current_chapter - j,
        {
            proof {
                lemma_pages_before_mono(chs, j + 1, self@.chapter as int);
            }
            if let ChapterStatus::Loaded(n) = self.chapters[j] {
                global = global + n;
            }
            j = j + 1;
        }
        global = global + self.current_page_in_chapter;
        (Some(global), Some(total))
    }
}

/// What `next_stop` finds: the first chapter at or after `k` that is not
/// walked over, or that there is none.
pub proof fn lemma_next_stop(chs: Seq<ChapterStatus>, k: int)
    requires
        0 <= k,
    ensures
        match next_stop(chs, k) {
            Some(i) => k <= i < chs.len() && !skippable(chs[i]) && forall|j: int|
                k <= j < i ==> skippable(#[trigger] chs[j]),
            None => forall|j: int| k <= j < chs.len() ==> skippable(#[trigger] chs[j]),
        },
    decreases chs.len() - k,
{
    if k < chs.len() {
        lemma_next_stop(chs, k + 1);
    }
}

/// Scanning back from `i`, the first chapter with pages is `c` when every
/// chapter strictly between has none.
proof fn lemma_prev_stop_finds(chs: Seq<ChapterStatus>, i: int, c: int)
    requires
        0 <= c < i <= chs.len(),
        pages_of(chs[c]) > 0,
        forall|j: int| c < j < i ==> pages_of(#[trigger] chs[j]) == 0,
    ensures
        prev_stop(chs, i) == Some(c),
    decreases i,
{
    if i - 1 > c {
        lemma_prev_stop_finds(chs, i - 1, c);
    }
}

/// Law: a backward page turn undoes a forward one. From any page of a
/// paginated chapter, when the forward turn moves at all, turning back
/// returns to the same chapter and page.
pub proof fn law_prev_undoes_next(st: Cursor)
    requires
        cursor_wf(st),
        st.page < pages_of(st.chapters[st.chapter as int]),
        next_page_spec(st).0.chapter != st.chapter || next_page_spec(st).0.page != st.page,
    ensures
        prev_page_spec(next_page_spec(st).0).chapter == st.chapter,
        prev_page_spec(next_page_spec(st).0).page == st.page,
{
    let n = pages_of(st.chapters[st.chapter as int]);
    if !(n > 0 && st.page + 1 < n) {
        let chs = st.chapters;
        let c = st.chapter as int;
        lemma_next_stop(chs, c + 1);
        let i = next_stop(chs, c + 1)->0;
        let t = next_page_spec(st).0;
        assert(t.chapter == i);
        assert(t.page == 0);
        assert(t.chapters.len() == chs.len());
        assert forall|j: int| 0 <= j < chs.len() && !(chs[j] is NotRequested) implies #[trigger] t.chapters[j]
            == chs[j] by {}
        assert forall|j: int| c < j < i implies pages_of(#[trigger] t.chapters[j]) == 0 by {
            assert(skippable(chs[j]));
        }
        assert(t.chapters[c] == chs[c]);
        lemma_prev_stop_finds(t.chapters, i, c);
    }
}

/// Law: page offsets stay inside the book. On a paginated book, the offset
/// of any page of the current chapter is below the total.
pub proof fn law_progress_within_total(st: Cursor)
    requires
        cursor_wf(st),
        all_loaded(st.chapters),
        st.page < pages_of(st.chapters[st.chapter as int]),
    ensures
        progress_spec(st).0 is Some,
        pages_before(st.chapters, st.chapter as int) + st.page < pages_before(
            st.chapters,
            st.chapters.len() as int,
        ),
{
    lemma_pages_before_mono(st.chapters, st.chapter + 1, st.chapters.len() as int);
}

/// The chapters in `reqs` were never asked for in `before` and are pending
/// in `after`, each appears once, and no chapter asked for in `before` is
/// marked as not asked for in `after`.
pub open spec fn asks_only_unasked(before: Seq<ChapterStatus>, after: Seq<ChapterStatus>, reqs: Seq<usize>) -> bool {
    &&& after.len() == before.len()
    &&& forall|k: int|
        0 <= k < reqs.len() ==> {
            &&& #[trigger] reqs[k] < before.len()
            &&& before[reqs[k] as int] is NotRequested
            &&& after[reqs[k] as int] is Pending
        }
    &&& forall|a: int, b: int| 0 <= a < b < reqs.len() ==> #[trigger] reqs[a] != #[trigger] reqs[b]
    &&& forall|j: int|
        0 <= j < before.len() && !(before[j] is NotRequested) ==> !(#[trigger] after[j] is NotRequested)
}

/// As [`asks_only_unasked`], and every chapter not asked for is unchanged.
pub open spec fn asks_fresh(before: Seq<ChapterStatus>, after: Seq<ChapterStatus>, reqs: Seq<usize>) -> bool {
    &&& asks_only_unasked(before, after, reqs)
    &&& forall|j: int|
        0 <= j < before.len() && !reqs.contains(j as usize) ==> #[trigger] after[j] == before[j]
}

proof fn lemma_requested_fresh(st: Cursor, i: int)
    requires
        st.chapters.len() <= usize::MAX,
    ensures
        asks_fresh(st.chapters, requested(st, i).0.chapters, requested(st, i).1),
        requested(st, i).0.chapter == st.chapter,
        requested(st, i).0.page == st.page,
{
    let r = requested(st, i).1;
    if r.len() == 1 {
        assert forall|j: int| 0 <= j < st.chapters.len() && !r.contains(j as usize) implies #[trigger] requested(st, i).0.chapters[j] == st.chapters[j] by {
            if j == i {
                assert(r[0] == j as usize);
            }
        }
    }
}

proof fn lemma_fresh_compose(
    a: Seq<ChapterStatus>,
    b: Seq<ChapterStatus>,
    c: Seq<ChapterStatus>,
    r1: Seq<usize>,
    r2: Seq<usize>,
)
    requires
        asks_fresh(a, b, r1),
        asks_fresh(b, c, r2),
    ensures
        asks_fresh(a, c, r1 + r2),
{
    let r = r1 + r2;
    assert forall|k: int| 0 <= k < r1.len() implies #[trigger] c[r1[k] as int] == b[r1[k] as int] by {
        let x = r1[k];
        if r2.contains(x) {
            let m = choose|m: int| 0 <= m < r2.len() && r2[m] == x;
            assert(b[r2[m] as int] is NotRequested);
        }
    }
    assert forall|k: int| 0 <= k < r.len() implies {
        &&& #[trigger] r[k] < a.len()
        &&& a[r[k] as int] is NotRequested
        &&& c[r[k] as int] is Pending
    } by {
        if k < r1.len() {
            assert(r[k] == r1[k]);
            assert(c[r1[k] as int] == b[r1[k] as int]);
        } else {
            assert(r[k] == r2[k - r1.len()]);
            let x = r2[k - r1.len()] as int;
            assert(b[x] is NotRequested);
            if !r1.contains(x as usize) {
                assert(b[x] == a[x]);
            } else {
                let m = choose|m: int| 0 <= m < r1.len() && r1[m] == x as usize;
                assert(b[r1[m] as int] is Pending);
            }
        }
    }
    assert forall|p: int, q: int| 0 <= p < q < r.len() implies #[trigger] r[p] != #[trigger] r[q] by {
        if q >= r1.len() && p < r1.len() {
            assert(r[p] == r1[p]);
            assert(r[q] == r2[q - r1.len()]);
            assert(b[r1[p] as int] is Pending);
            assert(b[r2[q - r1.len()] as int] is NotRequested);
        } else if p >= r1.len() {
            assert(r[p] == r2[p - r1.len()]);
            assert(r[q] == r2[q - r1.len()]);
        } else {
            assert(r[p] == r1[p]);
            assert(r[q] == r1[q]);
        }
    }
    assert forall|j: int| 0 <= j < a.len() && !(a[j] is NotRequested) implies !(#[trigger] c[j] is NotRequested) by {
        assert(!(b[j] is NotRequested));
    }
    assert forall|j: int| 0 <= j < a.len() && !r.contains(j as usize) implies #[trigger] c[j] == a[j] by {
        if r1.contains(j as usize) {
            let m = choose|m: int| 0 <= m < r1.len() && r1[m] == j as usize;
            assert(r[m] == j as usize);
        }
        if r2.contains(j as usize) {
            let m = choose|m: int| 0 <= m < r2.len() && r2[m] == j as usize;
            assert(r[m + r1.len()] == j as usize);
        }
    }
}

proof fn lemma_unchanged_fresh(a: Seq<ChapterStatus>)
    ensures
        asks_fresh(a, a, Seq::empty()),
{
}

/// Chapters once asked for never go back to not asked for; answers only
/// ever say pages or failure.
proof fn lemma_answers_settle(st: Cursor, answers: Seq<(usize, Option<usize>)>)
    ensures
        apply_answers(st, answers).chapters.len() == st.chapters.len(),
        apply_answers(st, answers).chapter == st.chapter,
        apply_answers(st, answers).page == st.page,
        forall|j: int|
            0 <= j < st.chapters.len() ==> ((#[trigger] apply_answers(st, answers).chapters[j]) is NotRequested
                ==> st.chapters[j] is NotRequested),
    decreases answers.len(),
{
    if answers.len() > 0 {
        lemma_answers_settle(st, answers.drop_last());
    }
}

/// Where stepping off empty chapters ends: a chapter that did not
/// paginate to nothing, or the last one.
proof fn lemma_advance_to(chs: Seq<ChapterStatus>, i: int)
    requires
        0 <= i < chs.len(),
    ensures
        i <= advance_to(chs, i) < chs.len(),
        chs[advance_to(chs, i)] != ChapterStatus::Loaded(0) || advance_to(chs, i) + 1 == chs.len(),
    decreases chs.len() - i,
{
    if i + 1 < chs.len() && chs[i] == ChapterStatus::Loaded(0) {
        lemma_advance_to(chs, i + 1);
    }
}

/// Law: no chapter is asked for twice. Navigation asks only for chapters
/// never asked for before, each once, and a chapter asked for is never
/// again marked as not asked for.
pub proof fn law_nav_asks_fresh(st: Cursor, cmd: NavCommand)
    requires
        cursor_wf(st),
    ensures
        asks_fresh(st.chapters, nav_spec(st, cmd).0.chapters, nav_spec(st, cmd).1),
{
    lemma_unchanged_fresh(st.chapters);
    match cmd {
        NavCommand::NextPage => {
            let n = pages_of(st.chapters[st.chapter as int]);
            if !(n > 0 && st.page + 1 < n) {
                match next_stop(st.chapters, st.chapter + 1) {
                    Some(i) => {
                        let moved = Cursor { chapter: i as usize, page: 0, ..st };
                        lemma_requested_fresh(moved, i + 1);
                        lemma_requested_fresh(moved, i);
                    },
                    None => {},
                }
            }
        },
        NavCommand::NextChapter => {
            if st.chapter + 1 < st.chapters.len() {
                lemma_requested_fresh(
                    Cursor { chapter: (st.chapter + 1) as usize, page: 0, ..st },
                    st.chapter + 1,
                );
            }
        },
        _ => {},
    }
}

/// Law: taking in answers asks only for chapters never asked for before,
/// each once, and never marks a chapter as not asked for again.
pub proof fn law_drain_asks_fresh(st: Cursor, answers: Seq<(usize, Option<usize>)>)
    requires
        cursor_wf(st),
    ensures
        asks_only_unasked(st.chapters, drain_spec(st, answers).0.chapters, drain_spec(st, answers).1),
{
    if answers.len() > 0 {
        lemma_answers_settle(st, answers);
        let a = apply_answers(st, answers);
        let b = advance_spec(a);
        let (c1, r1) = requested(b, b.chapter as int);
        let (c2, r2) = requested(c1, c1.chapter + 1);
        lemma_requested_fresh(b, b.chapter as int);
        lemma_requested_fresh(c1, c1.chapter + 1);
        lemma_fresh_compose(b.chapters, c1.chapters, c2.chapters, r1, r2);
        assert(b.chapters == a.chapters);
        assert forall|j: int| 0 <= j < st.chapters.len() && !(st.chapters[j] is NotRequested) implies !(#[trigger] c2.chapters[j] is NotRequested) by {
            assert(!(a.chapters[j] is NotRequested));
        }
        assert forall|k: int| 0 <= k < (r1 + r2).len() implies {
            &&& #[trigger] (r1 + r2)[k] < st.chapters.len()
            &&& st.chapters[(r1 + r2)[k] as int] is NotRequested
            &&& c2.chapters[(r1 + r2)[k] as int] is Pending
        } by {
            let x = (r1 + r2)[k] as int;
            assert(a.chapters[x] is NotRequested);
        }
    }
}

/// Law: after answers come in, the reader does not sit on a chapter that
/// paginated to nothing, unless it is the last chapter.
pub proof fn law_drain_skips_empty(st: Cursor, answers: Seq<(usize, Option<usize>)>)
    requires
        cursor_wf(st),
        answers.len() > 0,
    ensures
        cursor_wf(drain_spec(st, answers).0),
        drain_spec(st, answers).0.chapters[drain_spec(st, answers).0.chapter as int]
            != ChapterStatus::Loaded(0) || drain_spec(st, answers).0.chapter + 1
            == drain_spec(st, answers).0.chapters.len(),
{
    lemma_answers_settle(st, answers);
    let a = apply_answers(st, answers);
    lemma_advance_to(a.chapters, a.chapter as int);
    let b = advance_spec(a);
    let (c1, r1) = requested(b, b.chapter as int);
    let (c2, r2) = requested(c1, c1.chapter + 1);
    lemma_requested_fresh(b, b.chapter as int);
    lemma_requested_fresh(c1, c1.chapter + 1);
    lemma_fresh_compose(b.chapters, c1.chapters, c2.chapters, r1, r2);
    let x = b.chapter as int;
    if b.chapters[x] == ChapterStatus::Loaded(0) {
        if (r1 + r2).contains(x as usize) {
            let m = choose|m: int| 0 <= m < (r1 + r2).len() && (r1 + r2)[m] == x as usize;
            assert(b.chapters[(r1 + r2)[m] as int] is NotRequested);
        }
        assert(c2.chapters[x] == b.chapters[x]);
    }
}

/// Law: chapter jumps land on the first page. From any page of a valid
/// cursor, the previous-chapter command goes to page 0 of the chapter
/// before (staying put on the first chapter), and the next-chapter command
/// goes to page 0 of the chapter after (staying put on the last one),
/// asking for that chapter exactly when it was never asked for; what is
/// known of the chapters is otherwise unchanged. The first-page and
/// last-page commands stay in the chapter.
pub proof fn law_chapter_jumps_start_at_page_zero(st: Cursor)
    requires
        cursor_wf(st),
    ensures
        ({
            let (p, reqs) = nav_spec(st, NavCommand::PrevChapter);
            &&& st.chapter > 0 ==> p.chapter == st.chapter - 1 && p.page == 0
            &&& st.chapter == 0 ==> p.chapter == st.chapter && p.page == st.page
            &&& p.chapters == st.chapters
            &&& reqs.len() == 0
        }),
        ({
            let (n, reqs) = nav_spec(st, NavCommand::NextChapter);
            &&& st.chapter + 1 < st.chapters.len() ==> {
                &&& n.chapter == st.chapter + 1
                &&& n.page == 0
                &&& (st.chapters[st.chapter + 1] is NotRequested ==> reqs == seq![
                    (st.chapter + 1) as usize,
                ] && n.chapters == st.chapters.update(st.chapter + 1, ChapterStatus::Pending))
                &&& (!(st.chapters[st.chapter + 1] is NotRequested) ==> reqs.len() == 0
                    && n.chapters == st.chapters)
            }
            &&& st.chapter + 1 >= st.chapters.len() ==> n.chapter == st.chapter && n.page
                == st.page && n.chapters == st.chapters && reqs.len() == 0
        }),
        nav_spec(st, NavCommand::FirstPage).0.chapter == st.chapter,
        nav_spec(st, NavCommand::FirstPage).0.page == 0,
        nav_spec(st, NavCommand::LastPage).0.chapter == st.chapter,
        pages_of(st.chapters[st.chapter as int]) > 0 ==> nav_spec(st, NavCommand::LastPage).0.page
            + 1 == pages_of(st.chapters[st.chapter as int]),
{
}

} // verus!
