# reader-rs

A desktop EPUB reader whose decision-making core is verified with Verus.

- `src/` is the verified library:
  - `format` — the book model (`BookSource`, metadata, spine) and the EPUB
    package logic: metadata extraction, table-of-contents titles, spine
    building, chapter lookup and decoding.
  - `layout` — chapter XHTML to a block tree (`parse`), the CSS subset
    (`style`), and image/path resolution (`paginate`).
  - `navigation` — the reading cursor: page turns, chapter requests to the
    pagination worker, skipping empty chapters, progress across the book.
  - `persistence` — the recents list: keys, the 20-entry cap with
    least-recently-read eviction, reading positions, cover file names.
  - `recents` — "how long ago" labels.
  - `render` — compositing into an RGBA8 page: fills, image blits,
    placeholder frames and glyph masks.
- `app/` is the program around it: the `iced` window, the pagination
  thread, file I/O, EPUB unzipping, and the floating-point text shaping,
  packing and pixel geometry.
- `tests/` exercises the library on concrete inputs.

Verify with `verus` on `src/lib.rs`; the contracts and laws (`law_*` proof
functions) state what each part guarantees.
