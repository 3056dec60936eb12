//! XHTML chapter tree to block boxes.
//!
//! Only the EPUB-relevant subset of HTML is understood. Paragraph-like
//! elements become paragraphs of inline runs; `<ul>`/`<ol>` items become
//! paragraphs with a bullet or number, indented per nesting level; `<img>`
//! becomes an image block; `<div>` is transparent; anything else has its
//! text harvested inline. A block's style is recorded as the chain of
//! elements it inherits from (tag and inline `style` attribute), which the
//! cascade turns into measurements; a run records whether it sits inside
//! emphasis (`em`, `i`) or strong (`strong`, `b`) elements.

use vstd::prelude::*;

use crate::layout::style::{rules_of, RuleView, Stylesheet};
use crate::recents::{decimal, decimal_string};
use crate::text::{
    chars_eq, clone_opt, concat_chars, from_chars, lower_chars, lower_seq, opt_view, to_chars, trim,
    trim_chars,
};

verus! {

/// A node of a parsed XHTML document.
#[derive(Debug)]
pub enum XmlNode {
    /// An element: its local name as written, its `src` and `style`
    /// attributes, and its children in document order.
    Element { tag: String, src: Option<String>, style: Option<String>, children: Vec<XmlNode> },
    /// A text node.
    Text(String),
    /// A comment or processing instruction.
    Other,
}

/// One element a block inherits its style from.
#[derive(Debug, Clone)]
pub struct StyleStep {
    /// The element's tag, lower-cased.
    pub tag: String,
    /// Its inline `style` attribute, if any.
    pub inline_style: Option<String>,
}

/// One span of text with uniform style.
#[derive(Debug, Clone)]
pub struct InlineRun {
    /// The text; `"\n"` for a forced line break.
    pub text: String,
    /// Inside an `em` or `i` element.
    pub italic: bool,
    /// Inside a `strong` or `b` element.
    pub bold: bool,
}

/// One block-level box.
#[derive(Debug, Clone)]
pub enum Block {
    /// Shaped text: a paragraph, heading or list item.
    Paragraph {
        /// The elements the block's style inherits from, outermost first.
        style: Vec<StyleStep>,
        /// The block's runs in reading order.
        runs: Vec<InlineRun>,
        /// List nesting depth, which indents the block.
        indent_level: usize,
    },
    /// An `<img>`, with its `src` attribute as written (empty if absent).
    Image {
        /// The `src` attribute.
        src: String,
    },
}

/// A chapter as blocks, with the rules of its `<style>` elements.
#[derive(Debug)]
pub struct ParsedChapter {
    /// The blocks in reading order.
    pub blocks: Vec<Block>,
    /// The chapter's own stylesheet.
    pub stylesheet: Stylesheet,
}

/// A run as character data and flags.
pub ghost struct RunView {
    pub text: Seq<char>,
    pub italic: bool,
    pub bold: bool,
}

/// A style step as character data.
pub ghost struct StepView {
    pub tag: Seq<char>,
    pub inline_style: Option<Seq<char>>,
}

/// A block as character data.
pub ghost enum BlockView {
    Paragraph { style: Seq<StepView>, runs: Seq<RunView>, indent_level: usize },
    Image { src: Seq<char> },
}

pub open spec fn run_view(r: InlineRun) -> RunView {
    RunView { text: r.text@, italic: r.italic, bold: r.bold }
}

pub open spec fn runs_view(v: Seq<InlineRun>) -> Seq<RunView> {
    v.map_values(|r: InlineRun| run_view(r))
}

pub open spec fn step_view(s: StyleStep) -> StepView {
    StepView { tag: s.tag@, inline_style: opt_view(s.inline_style) }
}

pub open spec fn steps_view(v: Seq<StyleStep>) -> Seq<StepView> {
    v.map_values(|s: StyleStep| step_view(s))
}

pub open spec fn block_view(b: Block) -> BlockView {
    match b {
        Block::Paragraph { style, runs, indent_level } => BlockView::Paragraph {
            style: steps_view(style@),
            runs: runs_view(runs@),
            indent_level,
        },
        Block::Image { src } => BlockView::Image { src: src@ },
    }
}

pub open spec fn blocks_view(v: Seq<Block>) -> Seq<BlockView> {
    v.map_values(|b: Block| block_view(b))
}

/// Elements whose content is never shown.
pub open spec fn is_skip_tag(t: Seq<char>) -> bool {
    ||| t == seq!['h', 'e', 'a', 'd']
    ||| t == seq!['t', 'i', 't', 'l', 'e']
    ||| t == seq!['s', 't', 'y', 'l', 'e']
    ||| t == seq!['s', 'c', 'r', 'i', 'p', 't']
}

/// `ul` or `ol`.
pub open spec fn is_list_tag(t: Seq<char>) -> bool {
    t == seq!['u', 'l'] || t == seq!['o', 'l']
}

/// Paragraph-like elements.
pub open spec fn is_block_tag_spec(t: Seq<char>) -> bool {
    ||| t == seq!['p']
    ||| t == seq!['h', '1']
    ||| t == seq!['h', '2']
    ||| t == seq!['h', '3']
    ||| t == seq!['h', '4']
    ||| t == seq!['h', '5']
    ||| t == seq!['h', '6']
    ||| t == seq!['b', 'l', 'o', 'c', 'k', 'q', 'u', 'o', 't', 'e']
    ||| t == seq!['b', 'o', 'd', 'y']
}

/// Inline elements.
pub open spec fn is_inline_tag_spec(t: Seq<char>) -> bool {
    ||| t == seq!['e', 'm']
    ||| t == seq!['i']
    ||| t == seq!['s', 't', 'r', 'o', 'n', 'g']
    ||| t == seq!['b']
    ||| t == seq!['s', 'p', 'a', 'n']
    ||| t == seq!['b', 'r']
}

/// The run flags inside the element `t`: emphasis and strong elements
/// switch their flag on, others change nothing.
pub open spec fn flags_in(t: Seq<char>, f: (bool, bool)) -> (bool, bool) {
    (
        f.0 || t == seq!['e', 'm'] || t == seq!['i'],
        f.1 || t == seq!['s', 't', 'r', 'o', 'n', 'g'] || t == seq!['b'],
    )
}

/// The run of a text node, if it has any text.
pub open spec fn text_runs(s: Seq<char>, f: (bool, bool)) -> Seq<RunView> {
    if s.len() == 0 {
        Seq::empty()
    } else {
        seq![RunView { text: s, italic: f.0, bold: f.1 }]
    }
}

/// A forced line break.
pub open spec fn break_run(f: (bool, bool)) -> RunView {
    RunView { text: seq!['\n'], italic: f.0, bold: f.1 }
}

/// The inline runs of the nodes `cs` harvested with flags `f`: text in
/// order, `<br>` as a line break, hidden elements dropped, and every other
/// element's content harvested with the flags it switches on.
pub open spec fn runs_of(cs: Seq<XmlNode>, f: (bool, bool)) -> Seq<RunView>
    decreases cs,
{
    if cs.len() == 0 {
        Seq::empty()
    } else {
        let c = cs.last();
        let rest = runs_of(cs.drop_last(), f);
        match c {
            XmlNode::Element { tag, children, .. } => {
                let t = lower_seq(tag@);
                if is_skip_tag(t) {
                    rest
                } else if t == seq!['b', 'r'] {
                    rest.push(break_run(f))
                } else {
                    proof {
                        assert(decreases_to!(cs => cs[cs.len() - 1]));
                        assert(decreases_to!(cs[cs.len() - 1] => children));
                        assert(decreases_to!(children => children@));
                    }
                    rest + runs_of(children@, flags_in(t, f))
                }
            },
            XmlNode::Text(s) => rest + text_runs(s@, f),
            XmlNode::Other => rest,
        }
    }
}

/// Whether some run has visible (non-white-space) text.
pub open spec fn has_text(runs: Seq<RunView>) -> bool {
    exists|i: int| 0 <= i < runs.len() && trim(#[trigger] runs[i].text).len() > 0
}

/// Emit the pending runs as a paragraph, when they show any text.
pub open spec fn flushed(
    bs: Seq<BlockView>,
    pending: Seq<RunView>,
    style: Seq<StepView>,
    level: usize,
) -> Seq<BlockView> {
    if has_text(pending) {
        bs.push(BlockView::Paragraph { style, runs: pending, indent_level: level })
    } else {
        bs
    }
}

/// The `src` of an image, empty when absent.
pub open spec fn src_of(src: Option<String>) -> Seq<char> {
    match src {
        Some(s) => s@,
        None => Seq::empty(),
    }
}

/// The level below `d` (saturating).
pub open spec fn deeper(d: usize) -> usize {
    if d < usize::MAX {
        (d + 1) as usize
    } else {
        d
    }
}

/// The marker of list item `n`: `"n. "` in ordered lists, a bullet
/// otherwise.
pub open spec fn marker(ordered: bool, n: usize) -> Seq<char> {
    if ordered {
        decimal(n as nat) + seq!['.', ' ']
    } else {
        seq!['\u{2022}', ' ']
    }
}

/// Whether some child is a paragraph-like element.
pub open spec fn has_block_child(cs: Seq<XmlNode>) -> bool {
    exists|i: int|
        0 <= i < cs.len() && (#[trigger] cs[i] matches XmlNode::Element { tag, .. }
            && is_block_tag_spec(lower_seq(tag@)))
}

/// A list item's child that is laid out after the item's own text: a
/// nested list, an image, a paragraph-like element or a `div`.
pub open spec fn is_nested_kind(c: XmlNode) -> bool {
    match c {
        XmlNode::Element { tag, .. } => {
            let t = lower_seq(tag@);
            is_list_tag(t) || t == seq!['i', 'm', 'g'] || is_block_tag_spec(t) || t == seq![
                'd',
                'i',
                'v',
            ]
        },
        _ => false,
    }
}

/// The runs of a list item's own text: its children other than nested
/// blocks, harvested with no flags.
pub open spec fn item_runs(cs: Seq<XmlNode>) -> Seq<RunView>
    decreases cs.len(),
{
    if cs.len() == 0 {
        Seq::empty()
    } else {
        let rest = item_runs(cs.drop_last());
        if is_nested_kind(cs.last()) {
            rest
        } else {
            rest + runs_of(seq![cs.last()], (false, false))
        }
    }
}

/// Whether a list item has a child laid out after its text.
pub open spec fn has_nested(cs: Seq<XmlNode>) -> bool {
    exists|i: int| 0 <= i < cs.len() && is_nested_kind(#[trigger] cs[i])
}

/// The blocks of the children `cs` of a block container with style
/// `style` at list depth `level`, and the runs still pending at the end:
/// lists, list items, images, paragraph-like elements and `div`s end the
/// pending anonymous paragraph; other content joins it.
pub open spec fn walk_fold(cs: Seq<XmlNode>, style: Seq<StepView>, level: usize) -> (
    Seq<BlockView>,
    Seq<RunView>,
)
    decreases cs, 0int,
{
    if cs.len() == 0 {
        (Seq::empty(), Seq::empty())
    } else {
        let prev = walk_fold(cs.drop_last(), style, level);
        let bs = prev.0;
        let pend = prev.1;
        let c = cs.last();
        proof {
            assert(decreases_to!(cs => cs[cs.len() - 1]));
        }
        match c {
            XmlNode::Element { tag, src, children, .. } => {
                proof {
                    assert(decreases_to!(cs[cs.len() - 1] => children));
                    assert(decreases_to!(children => children@));
                }
                let t = lower_seq(tag@);
                if is_skip_tag(t) {
                    (bs, pend)
                } else if is_list_tag(t) {
                    (
                        flushed(bs, pend, style, level) + list_fold(
                            children@,
                            style,
                            deeper(level),
                            t == seq!['o', 'l'],
                        ).0,
                        Seq::empty(),
                    )
                } else if t == seq!['l', 'i'] || is_block_tag_spec(t) {
                    (flushed(bs, pend, style, level) + block_of(c, style, level), Seq::empty())
                } else if t == seq!['i', 'm', 'g'] {
                    (
                        flushed(bs, pend, style, level).push(BlockView::Image { src: src_of(src) }),
                        Seq::empty(),
                    )
                } else if t == seq!['d', 'i', 'v'] {
                    (flushed(bs, pend, style, level) + walk_block(children@, style, level), Seq::empty())
                } else {
                    (bs, pend + runs_of(seq![c], (false, false)))
                }
            },
            XmlNode::Text(s) => (bs, pend + text_runs(s@, (false, false))),
            XmlNode::Other => (bs, pend),
        }
    }
}

/// The blocks of the children `cs` of a block container
/// (`walk_block_children`).
pub open spec fn walk_block(cs: Seq<XmlNode>, style: Seq<StepView>, level: usize) -> Seq<BlockView>
    decreases cs, 1int,
{
    let r = walk_fold(cs, style, level);
    flushed(r.0, r.1, style, level)
}

/// The blocks of one paragraph-like element (`handle_block`): a paragraph
/// of its inline content, or when that shows no text but the element holds
/// paragraph-like children, those children laid out with the parent's
/// style.
pub open spec fn block_of(c: XmlNode, parent: Seq<StepView>, level: usize) -> Seq<BlockView>
    decreases c, 0int,
{
    match c {
        XmlNode::Element { tag, style: inline, children, .. } => {
            proof {
                assert(decreases_to!(c => children));
                assert(decreases_to!(children => children@));
            }
            let st = parent.push(StepView { tag: lower_seq(tag@), inline_style: opt_view(inline) });
            let runs = runs_of(children@, (false, false));
            if has_text(runs) {
                seq![BlockView::Paragraph { style: st, runs, indent_level: level }]
            } else if has_block_child(children@) {
                walk_block(children@, parent, 0)
            } else {
                Seq::empty()
            }
        },
        _ => Seq::empty(),
    }
}

/// The blocks of the children `cs` of a list (`walk_list`) at list depth
/// `level`, and the number the next item would get.
pub open spec fn list_fold(cs: Seq<XmlNode>, style: Seq<StepView>, level: usize, ordered: bool) -> (
    Seq<BlockView>,
    usize,
)
    decreases cs, 0int,
{
    if cs.len() == 0 {
        (Seq::empty(), 1usize)
    } else {
        let prev = list_fold(cs.drop_last(), style, level, ordered);
        let c = cs.last();
        proof {
            assert(decreases_to!(cs => cs[cs.len() - 1]));
        }
        match c {
            XmlNode::Element { tag, children, .. } => {
                proof {
                    assert(decreases_to!(cs[cs.len() - 1] => children));
                    assert(decreases_to!(children => children@));
                }
                let t = lower_seq(tag@);
                if is_skip_tag(t) {
                    prev
                } else if t == seq!['l', 'i'] {
                    (
                        prev.0 + item_blocks(c, style, level, marker(ordered, prev.1)),
                        deeper(prev.1),
                    )
                } else if is_list_tag(t) {
                    (
                        prev.0 + list_fold(children@, style, deeper(level), t == seq!['o', 'l']).0,
                        prev.1,
                    )
                } else {
                    (prev.0 + block_of(c, style, level), prev.1)
                }
            },
            _ => prev,
        }
    }
}

/// The blocks of one list item (`emit_list_item`): a paragraph of the
/// marker and the item's own text (the marker alone when the item holds
/// nothing at all), then its nested lists, images and blocks.
pub open spec fn item_blocks(c: XmlNode, parent: Seq<StepView>, level: usize, mark: Seq<char>) -> Seq<
    BlockView,
>
    decreases c, 0int,
{
    match c {
        XmlNode::Element { style: inline, children, .. } => {
            proof {
                assert(decreases_to!(c => children));
                assert(decreases_to!(children => children@));
            }
            let st = parent.push(StepView { tag: seq!['l', 'i'], inline_style: opt_view(inline) });
            let runs = item_runs(children@);
            let mark_run = RunView { text: mark, italic: false, bold: false };
            let head = if has_text(runs) {
                seq![BlockView::Paragraph { style: st, runs: seq![mark_run] + runs, indent_level: level }]
            } else if !has_nested(children@) {
                seq![BlockView::Paragraph { style: st, runs: seq![mark_run], indent_level: level }]
            } else {
                Seq::empty()
            };
            head + nested_blocks(children@, st, level)
        },
        _ => Seq::empty(),
    }
}

/// The nested blocks of a list item's children, with the item's style.
pub open spec fn nested_blocks(cs: Seq<XmlNode>, style: Seq<StepView>, level: usize) -> Seq<BlockView>
    decreases cs, 0int,
{
    if cs.len() == 0 {
        Seq::empty()
    } else {
        let rest = nested_blocks(cs.drop_last(), style, level);
        let c = cs.last();
        proof {
            assert(decreases_to!(cs => cs[cs.len() - 1]));
        }
        match c {
            XmlNode::Element { tag, src, children, .. } => {
                proof {
                    assert(decreases_to!(cs[cs.len() - 1] => children));
                    assert(decreases_to!(children => children@));
                }
                let t = lower_seq(tag@);
                if is_list_tag(t) {
                    rest + list_fold(children@, style, deeper(level), t == seq!['o', 'l']).0
                } else if t == seq!['i', 'm', 'g'] {
                    rest.push(BlockView::Image { src: src_of(src) })
                } else if is_block_tag_spec(t) {
                    rest + block_of(c, style, level)
                } else if t == seq!['d', 'i', 'v'] {
                    rest + walk_block(children@, style, level)
                } else {
                    rest
                }
            },
            _ => rest,
        }
    }
}

fn lower_tag(tag: &String) -> (r: Vec<char>)
    ensures
        r@ == lower_seq(tag@),
{
    let v = to_chars(tag.as_str());
    lower_chars(v.as_slice())
}

fn is_one(t: &[char], c: char) -> (r: bool)
    ensures
        r == (t@ == seq![c]),
{
    if t.len() == 1 && t[0] == c {
        assert(t@ =~= seq![c]);
        true
    } else {
        false
    }
}

fn skip_tag(t: &[char]) -> (r: bool)
    ensures
        r == is_skip_tag(t@),
{
    let w0 = chars_eq(t, &['h', 'e', 'a', 'd']);
    assert(w0 == (t@ == seq!['h', 'e', 'a', 'd']));
    let w1 = chars_eq(t, &['t', 'i', 't', 'l', 'e']);
    assert(w1 == (t@ == seq!['t', 'i', 't', 'l', 'e']));
    let w2 = chars_eq(t, &['s', 't', 'y', 'l', 'e']);
    assert(w2 == (t@ == seq!['s', 't', 'y', 'l', 'e']));
    let w3 = chars_eq(t, &['s', 'c', 'r', 'i', 'p', 't']);
    assert(w3 == (t@ == seq!['s', 'c', 'r', 'i', 'p', 't']));
    w0 || w1 || w2 || w3
}

fn list_tag(t: &[char]) -> (r: bool)
    ensures
        r == is_list_tag(t@),
{
    let w0 = chars_eq(t, &['u', 'l']);
    assert(w0 == (t@ == seq!['u', 'l']));
    let w1 = chars_eq(t, &['o', 'l']);
    assert(w1 == (t@ == seq!['o', 'l']));
    w0 || w1
}

fn block_tag(t: &[char]) -> (r: bool)
    ensures
        r == is_block_tag_spec(t@),
{
    let w0 = is_one(t, 'p');
    assert(w0 == (t@ == seq!['p']));
    let w1 = chars_eq(t, &['h', '1']);
    assert(w1 == (t@ == seq!['h', '1']));
    let w2 = chars_eq(t, &['h', '2']);
    assert(w2 == (t@ == seq!['h', '2']));
    let w3 = chars_eq(t, &['h', '3']);
    assert(w3 == (t@ == seq!['h', '3']));
    let w4 = chars_eq(t, &['h', '4']);
    assert(w4 == (t@ == seq!['h', '4']));
    let w5 = chars_eq(t, &['h', '5']);
    assert(w5 == (t@ == seq!['h', '5']));
    let w6 = chars_eq(t, &['h', '6']);
    assert(w6 == (t@ == seq!['h', '6']));
    let w7 = chars_eq(t, &['b', 'l', 'o', 'c', 'k', 'q', 'u', 'o', 't', 'e']);
    assert(w7 == (t@ == seq!['b', 'l', 'o', 'c', 'k', 'q', 'u', 'o', 't', 'e']));
    let w8 = chars_eq(t, &['b', 'o', 'd', 'y']);
    assert(w8 == (t@ == seq!['b', 'o', 'd', 'y']));
    w0 || w1 || w2 || w3 || w4 || w5 || w6 || w7 || w8
}

fn inline_tag(t: &[char]) -> (r: bool)
    ensures
        r == is_inline_tag_spec(t@),
{
    let w0 = chars_eq(t, &['e', 'm']);
    assert(w0 == (t@ == seq!['e', 'm']));
    let w1 = is_one(t, 'i');
    assert(w1 == (t@ == seq!['i']));
    let w2 = chars_eq(t, &['s', 't', 'r', 'o', 'n', 'g']);
    assert(w2 == (t@ == seq!['s', 't', 'r', 'o', 'n', 'g']));
    let w3 = is_one(t, 'b');
    assert(w3 == (t@ == seq!['b']));
    let w4 = chars_eq(t, &['s', 'p', 'a', 'n']);
    assert(w4 == (t@ == seq!['s', 'p', 'a', 'n']));
    let w5 = chars_eq(t, &['b', 'r']);
    assert(w5 == (t@ == seq!['b', 'r']));
    w0 || w1 || w2 || w3 || w4 || w5
}

/// Whether `tag` (lower-cased) is a paragraph-like element.
pub fn is_block_tag(tag: &str) -> (r: bool)
    ensures
        r == is_block_tag_spec(tag@),
{
    let t = to_chars(tag);
    block_tag(t.as_slice())
}

/// Whether `tag` (lower-cased) is an inline element.
pub fn is_inline_tag(tag: &str) -> (r: bool)
    ensures
        r == is_inline_tag_spec(tag@),
{
    let t = to_chars(tag);
    inline_tag(t.as_slice())
}

/// The run flags inside the element `tag` (lower-cased).
pub fn inline_style_for(tag: &[char], f: (bool, bool)) -> (r: (bool, bool))
    ensures
        r == flags_in(tag@, f),
{
    let em = chars_eq(tag, &['e', 'm']);
    assert(em == (tag@ == seq!['e', 'm']));
    let i = is_one(tag, 'i');
    assert(i == (tag@ == seq!['i']));
    let strong = chars_eq(tag, &['s', 't', 'r', 'o', 'n', 'g']);
    assert(strong == (tag@ == seq!['s', 't', 'r', 'o', 'n', 'g']));
    let b = is_one(tag, 'b');
    assert(b == (tag@ == seq!['b']));
    (f.0 || em || i, f.1 || strong || b)
}

/// Append the run of a text node, unless the text is empty.
fn push_text(runs: &mut Vec<InlineRun>, text: &String, f: (bool, bool))
    ensures
        runs_view(final(runs)@) == runs_view(old(runs)@) + text_runs(text@, f),
{
    if text.as_str().is_empty() {
        assert(runs_view(runs@) =~= runs_view(runs@) + Seq::<RunView>::empty());
        return;
    }
    runs.push(InlineRun { text: text.clone(), italic: f.0, bold: f.1 });
    assert(runs_view(runs@) =~= runs_view(old(runs)@) + text_runs(text@, f));
}

fn push_break(runs: &mut Vec<InlineRun>, f: (bool, bool))
    ensures
        runs_view(final(runs)@) == runs_view(old(runs)@).push(break_run(f)),
{
    let nl = from_chars(&['\n']);
    assert(nl@ == seq!['\n']);
    runs.push(InlineRun { text: nl, italic: f.0, bold: f.1 });
    assert(runs_view(runs@) =~= runs_view(old(runs)@).push(break_run(f)));
}

/// Harvest the inline content of the nodes `cs` with flags `f`.
fn collect_inline_children(cs: &[XmlNode], f: (bool, bool), runs: &mut Vec<InlineRun>)
    ensures
        runs_view(final(runs)@) == runs_view(old(runs)@) + runs_of(cs@, f),
    decreases cs@,
{
    let ghost start = runs_view(runs@);
    let mut i: usize = 0;
    while i < cs.len()
        invariant
            i <= cs.len(),
            runs_view(runs@) == start + runs_of(cs@.take(i as int), f),
        decreases cs.len() - i,
    {
        let ghost t = cs@.take(i + 1);
        assert(t.drop_last() =~= cs@.take(i as int));
        assert(t.last() == cs@[i as int]);
        match &cs[i] {
            XmlNode::Element { tag, children, .. } => {
                let lt = lower_tag(tag);
                if skip_tag(lt.as_slice()) {
                } else if chars_eq(lt.as_slice(), &['b', 'r']) {
                    assert(lt@ == seq!['b', 'r']);
                    push_break(runs, f);
                } else {
                    proof {
                        assert(decreases_to!(cs@ => cs@[i as int]));
                        assert(decreases_to!(cs@[i as int] => children));
                        assert(decreases_to!(children => children@));
                    }
                    let g = inline_style_for(lt.as_slice(), f);
                    collect_inline_children(children.as_slice(), g, runs);
                }
            },
            XmlNode::Text(text) => {
                push_text(runs, text, f);
            },
            XmlNode::Other => {},
        }
        assert(runs_view(runs@) =~= start + runs_of(t, f));
        i = i + 1;
    }
    assert(cs@.take(cs.len() as int) =~= cs@);
}

/// Harvest the inline content of the node `node` itself with flags `f`.
fn collect_inline(node: &XmlNode, f: (bool, bool), runs: &mut Vec<InlineRun>)
    ensures
        runs_view(final(runs)@) == runs_view(old(runs)@) + runs_of(seq![*node], f),
{
    let ghost one = seq![*node];
    assert(one.drop_last() =~= Seq::<XmlNode>::empty());
    assert(one.last() == *node);
    assert(runs_of(Seq::<XmlNode>::empty(), f) == Seq::<RunView>::empty());
    match node {
        XmlNode::Element { tag, children, .. } => {
            let lt = lower_tag(tag);
            if skip_tag(lt.as_slice()) {
                assert(runs_view(runs@) =~= runs_view(runs@) + runs_of(one, f));
            } else if chars_eq(lt.as_slice(), &['b', 'r']) {
                assert(lt@ == seq!['b', 'r']);
                push_break(runs, f);
                assert(runs_view(runs@) =~= runs_view(old(runs)@) + runs_of(one, f));
            } else {
                let g = inline_style_for(lt.as_slice(), f);
                collect_inline_children(children.as_slice(), g, runs);
                assert(runs_view(runs@) =~= runs_view(old(runs)@) + runs_of(one, f));
            }
        },
        XmlNode::Text(text) => {
            push_text(runs, text, f);
            assert(runs_view(runs@) =~= runs_view(old(runs)@) + runs_of(one, f));
        },
        XmlNode::Other => {
            assert(runs_view(runs@) =~= runs_view(runs@) + runs_of(one, f));
        },
    }
}

/// Whether some run shows any text.
fn any_text(runs: &[InlineRun]) -> (r: bool)
    ensures
        r == has_text(runs_view(runs@)),
{
    let mut i: usize = 0;
    while i < runs.len()
        invariant
            i <= runs.len(),
            forall|j: int| 0 <= j < i ==> trim(#[trigger] runs_view(runs@)[j].text).len() == 0,
        decreases runs.len() - i,
    {
        let chars = to_chars(runs[i].text.as_str());
        let t = trim_chars(chars.as_slice());
        if t.len() > 0 {
            assert(trim(runs_view(runs@)[i as int].text).len() > 0);
            return true;
        }
        i = i + 1;
    }
    false
}

fn clone_steps(v: &[StyleStep]) -> (r: Vec<StyleStep>)
    ensures
        steps_view(r@) == steps_view(v@),
{
    let mut r: Vec<StyleStep> = Vec::new();
    let mut i: usize = 0;
    while i < v.len()
        invariant
            i <= v.len(),
            steps_view(r@) == steps_view(v@.take(i as int)),
        decreases v.len() - i,
    {
        let ghost prev = r@;
        let step = StyleStep { tag: v[i].tag.clone(), inline_style: clone_opt(&v[i].inline_style) };
        assert(step_view(step) == step_view(v@[i as int]));
        r.push(step);
        assert(v@.take(i + 1) =~= v@.take(i as int).push(v@[i as int]));
        assert(steps_view(r@) =~= steps_view(prev).push(step_view(step)));
        assert(steps_view(v@.take(i + 1)) =~= steps_view(v@.take(i as int)).push(step_view(v@[i as int])));
        i = i + 1;
    }
    assert(v@.take(v.len() as int) =~= v@);
    r
}

fn with_step(parent: &[StyleStep], tag: &[char], inline: &Option<String>) -> (r: Vec<StyleStep>)
    ensures
        steps_view(r@) == steps_view(parent@).push(
            StepView { tag: tag@, inline_style: opt_view(*inline) },
        ),
{
    let mut r = clone_steps(parent);
    r.push(StyleStep { tag: from_chars(tag), inline_style: clone_opt(inline) });
    assert(steps_view(r@) =~= steps_view(parent@).push(
        StepView { tag: tag@, inline_style: opt_view(*inline) },
    ));
    r
}

proof fn lemma_assoc(a: Seq<BlockView>, b: Seq<BlockView>, c: Seq<BlockView>)
    ensures
        (a + b) + c == a + (b + c),
{
    assert((a + b) + c =~= a + (b + c));
}

proof fn lemma_flushed_append(
    a: Seq<BlockView>,
    b: Seq<BlockView>,
    p: Seq<RunView>,
    st: Seq<StepView>,
    l: usize,
)
    ensures
        flushed(a + b, p, st, l) == a + flushed(b, p, st, l),
{
    if has_text(p) {
        assert((a + b).push(BlockView::Paragraph { style: st, runs: p, indent_level: l }) =~= a + b.push(
            BlockView::Paragraph { style: st, runs: p, indent_level: l },
        ));
    }
}

/// End the pending anonymous paragraph: emit it when it shows any text,
/// drop it otherwise.
fn flush_anon(runs: &mut Vec<InlineRun>, style: &[StyleStep], level: usize, out: &mut Vec<Block>)
    ensures
        final(runs)@.len() == 0,
        blocks_view(final(out)@) == flushed(
            blocks_view(old(out)@),
            runs_view(old(runs)@),
            steps_view(style@),
            level,
        ),
{
    if !any_text(runs.as_slice()) {
        runs.clear();
        return;
    }
    let mut taken: Vec<InlineRun> = Vec::new();
    std::mem::swap(&mut taken, runs);
    out.push(Block::Paragraph { style: clone_steps(style), runs: taken, indent_level: level });
    assert(blocks_view(out@) =~= blocks_view(old(out)@).push(
        BlockView::Paragraph {
            style: steps_view(style@),
            runs: runs_view(old(runs)@),
            indent_level: level,
        },
    ));
}

fn deeper_level(d: usize) -> (r: usize)
    ensures
        r == deeper(d),
{
    if d < usize::MAX {
        d + 1
    } else {
        d
    }
}

fn src_string(src: &Option<String>) -> (r: String)
    ensures
        r@ == src_of(*src),
{
    match src {
        Some(s) => s.clone(),
        None => String::new(),
    }
}

fn marker_chars(ordered: bool, n: usize) -> (r: Vec<char>)
    ensures
        r@ == marker(ordered, n),
{
    if ordered {
        let d = decimal_string(n as u64);
        let v = to_chars(d.as_str());
        let r = concat_chars(v.as_slice(), &['.', ' ']);
        assert(r@ =~= marker(ordered, n));
        r
    } else {
        let r = vec!['\u{2022}', ' '];
        assert(r@ =~= marker(ordered, n));
        r
    }
}

/// Whether some child is a paragraph-like element.
fn has_block_descendants(cs: &[XmlNode]) -> (r: bool)
    ensures
        r == has_block_child(cs@),
{
    let mut i: usize = 0;
    while i < cs.len()
        invariant
            i <= cs.len(),
            forall|j: int|
                0 <= j < i ==> !(#[trigger] cs@[j] matches XmlNode::Element { tag, .. }
                    && is_block_tag_spec(lower_seq(tag@))),
        decreases cs.len() - i,
    {
        match &cs[i] {
            XmlNode::Element { tag, .. } => {
                let lt = lower_tag(tag);
                if block_tag(lt.as_slice()) {
                    return true;
                }
            },
            _ => {},
        }
        i = i + 1;
    }
    false
}

fn nested_kind(c: &XmlNode) -> (r: bool)
    ensures
        r == is_nested_kind(*c),
{
    match c {
        XmlNode::Element { tag, .. } => {
            let lt = lower_tag(tag);
            let img = chars_eq(lt.as_slice(), &['i', 'm', 'g']);
            assert(img == (lt@ == seq!['i', 'm', 'g']));
            let div = chars_eq(lt.as_slice(), &['d', 'i', 'v']);
            assert(div == (lt@ == seq!['d', 'i', 'v']));
            list_tag(lt.as_slice()) || img || block_tag(lt.as_slice()) || div
        },
        _ => false,
    }
}

fn has_nested_children(cs: &[XmlNode]) -> (r: bool)
    ensures
        r == has_nested(cs@),
{
    let mut i: usize = 0;
    while i < cs.len()
        invariant
            i <= cs.len(),
            forall|j: int| 0 <= j < i ==> !is_nested_kind(#[trigger] cs@[j]),
        decreases cs.len() - i,
    {
        if nested_kind(&cs[i]) {
            return true;
        }
        i = i + 1;
    }
    false
}

/// The blocks of the children `cs` of a block container with style
/// `style` at list depth `level`.
fn walk_block_children(cs: &[XmlNode], style: &[StyleStep], level: usize, out: &mut Vec<Block>)
    ensures
        blocks_view(final(out)@) == blocks_view(old(out)@) + walk_block(cs@, steps_view(style@), level),
    decreases cs@, 1int,
{
    let ghost st = steps_view(style@);
    let ghost start = blocks_view(out@);
    let mut anon: Vec<InlineRun> = Vec::new();
    let mut i: usize = 0;
    assert(start + Seq::<BlockView>::empty() =~= start);
    while i < cs.len()
        invariant
            i <= cs.len(),
            st == steps_view(style@),
            blocks_view(out@) == start + walk_fold(cs@.take(i as int), st, level).0,
            runs_view(anon@) == walk_fold(cs@.take(i as int), st, level).1,
        decreases cs.len() - i,
    {
        let ghost t = cs@.take(i + 1);
        assert(t.drop_last() =~= cs@.take(i as int));
        assert(t.last() == cs@[i as int]);
        let ghost prev = walk_fold(cs@.take(i as int), st, level);
        proof {
            assert(decreases_to!(cs@ => cs@[i as int]));
        }
        match &cs[i] {
            XmlNode::Element { tag, src, children, .. } => {
                proof {
                    assert(decreases_to!(cs@[i as int] => children));
                    assert(decreases_to!(children => children@));
                    lemma_flushed_append(start, prev.0, prev.1, st, level);
                }
                let lt = lower_tag(tag);
                let li = chars_eq(lt.as_slice(), &['l', 'i']);
                assert(li == (lt@ == seq!['l', 'i']));
                let img = chars_eq(lt.as_slice(), &['i', 'm', 'g']);
                assert(img == (lt@ == seq!['i', 'm', 'g']));
                let div = chars_eq(lt.as_slice(), &['d', 'i', 'v']);
                assert(div == (lt@ == seq!['d', 'i', 'v']));
                if skip_tag(lt.as_slice()) {
                } else if list_tag(lt.as_slice()) {
                    flush_anon(&mut anon, style, level, out);
                    let ordered = chars_eq(lt.as_slice(), &['o', 'l']);
                    assert(ordered == (lt@ == seq!['o', 'l']));
                    let ghost f0 = blocks_view(out@);
                    assert(f0 == start + flushed(prev.0, prev.1, st, level));
                    let d = deeper_level(level);
                    walk_list(children.as_slice(), style, d, ordered, out);
                    let ghost lf = list_fold(children@, st, deeper(level), lt@ == seq!['o', 'l']).0;
                    assert(blocks_view(out@) == f0 + lf);
                    assert(walk_fold(t, st, level).0 == flushed(prev.0, prev.1, st, level) + lf);
                    proof {
                        lemma_assoc(start, flushed(prev.0, prev.1, st, level), lf);
                    }
                } else if li || block_tag(lt.as_slice()) {
                    flush_anon(&mut anon, style, level, out);
                    handle_block(&cs[i], style, level, out);
                    assert(blocks_view(out@) =~= start + walk_fold(t, st, level).0);
                } else if img {
                    flush_anon(&mut anon, style, level, out);
                    let ghost f = flushed(prev.0, prev.1, st, level);
                    let ghost x = BlockView::Image { src: src_of(*src) };
                    let ghost f0 = blocks_view(out@);
                    out.push(Block::Image { src: src_string(src) });
                    assert(blocks_view(out@) =~= f0.push(x));
                    assert((start + f).push(x) =~= start + f.push(x));
                    assert(blocks_view(out@) =~= start + walk_fold(t, st, level).0);
                } else if div {
                    flush_anon(&mut anon, style, level, out);
                    walk_block_children(children.as_slice(), style, level, out);
                    assert(blocks_view(out@) =~= start + walk_fold(t, st, level).0);
                } else {
                    collect_inline(&cs[i], (false, false), &mut anon);
                }
            },
            XmlNode::Text(text) => {
                push_text(&mut anon, text, (false, false));
            },
            XmlNode::Other => {},
        }
        i = i + 1;
    }
    assert(cs@.take(cs.len() as int) =~= cs@);
    proof {
        let r = walk_fold(cs@, st, level);
        lemma_flushed_append(start, r.0, r.1, st, level);
    }
    flush_anon(&mut anon, style, level, out);
}

/// The blocks of one paragraph-like element.
fn handle_block(node: &XmlNode, parent: &[StyleStep], level: usize, out: &mut Vec<Block>)
    ensures
        blocks_view(final(out)@) == blocks_view(old(out)@) + block_of(
            *node,
            steps_view(parent@),
            level,
        ),
    decreases *node, 0int,
{
    match node {
        XmlNode::Element { tag, style: inline, children, .. } => {
            proof {
                assert(decreases_to!(*node => children));
                assert(decreases_to!(children => children@));
            }
            let lt = lower_tag(tag);
            let st = with_step(parent, lt.as_slice(), inline);
            let mut runs: Vec<InlineRun> = Vec::new();
            collect_inline_children(children.as_slice(), (false, false), &mut runs);
            assert(runs_view(runs@) =~= runs_of(children@, (false, false)));
            if any_text(runs.as_slice()) {
                out.push(Block::Paragraph { style: st, runs, indent_level: level });
                assert(blocks_view(out@) =~= blocks_view(old(out)@) + block_of(
                    *node,
                    steps_view(parent@),
                    level,
                ));
            } else if has_block_descendants(children.as_slice()) {
                walk_block_children(children.as_slice(), parent, 0, out);
            } else {
                assert(blocks_view(out@) =~= blocks_view(old(out)@) + Seq::<BlockView>::empty());
            }
        },
        _ => {
            assert(blocks_view(out@) =~= blocks_view(old(out)@) + Seq::<BlockView>::empty());
        },
    }
}

/// The blocks of the children `cs` of a list at list depth `level`.
fn walk_list(cs: &[XmlNode], style: &[StyleStep], level: usize, ordered: bool, out: &mut Vec<Block>)
    ensures
        blocks_view(final(out)@) == blocks_view(old(out)@) + list_fold(
            cs@,
            steps_view(style@),
            level,
            ordered,
        ).0,
    decreases cs@, 0int,
{
    let ghost st = steps_view(style@);
    let ghost start = blocks_view(out@);
    let mut counter: usize = 1;
    let mut i: usize = 0;
    assert(start + Seq::<BlockView>::empty() =~= start);
    while i < cs.len()
        invariant
            i <= cs.len(),
            st == steps_view(style@),
            blocks_view(out@) == start + list_fold(cs@.take(i as int), st, level, ordered).0,
            counter == list_fold(cs@.take(i as int), st, level, ordered).1,
        decreases cs.len() - i,
    {
        let ghost t = cs@.take(i + 1);
        assert(t.drop_last() =~= cs@.take(i as int));
        assert(t.last() == cs@[i as int]);
        let ghost prev = list_fold(cs@.take(i as int), st, level, ordered);
        proof {
            assert(decreases_to!(cs@ => cs@[i as int]));
        }
        match &cs[i] {
            XmlNode::Element { tag, children, .. } => {
                proof {
                    assert(decreases_to!(cs@[i as int] => children));
                    assert(decreases_to!(children => children@));
                }
                let lt = lower_tag(tag);
                let li = chars_eq(lt.as_slice(), &['l', 'i']);
                assert(li == (lt@ == seq!['l', 'i']));
                if skip_tag(lt.as_slice()) {
                } else if li {
                    let mark = marker_chars(ordered, counter);
                    counter = deeper_level(counter);
                    emit_list_item(&cs[i], style, level, &mark, out);
                    assert(blocks_view(out@) =~= start + list_fold(t, st, level, ordered).0);
                } else if list_tag(lt.as_slice()) {
                    let inner = chars_eq(lt.as_slice(), &['o', 'l']);
                    assert(inner == (lt@ == seq!['o', 'l']));
                    walk_list(children.as_slice(), style, deeper_level(level), inner, out);
                    assert(blocks_view(out@) =~= start + list_fold(t, st, level, ordered).0);
                } else {
                    handle_block(&cs[i], style, level, out);
                    assert(blocks_view(out@) =~= start + list_fold(t, st, level, ordered).0);
                }
            },
            _ => {},
        }
        i = i + 1;
    }
    assert(cs@.take(cs.len() as int) =~= cs@);
}

/// The blocks of one list item with marker `mark` at list depth `level`.
fn emit_list_item(li: &XmlNode, parent: &[StyleStep], level: usize, mark: &Vec<char>, out: &mut Vec<Block>)
    ensures
        blocks_view(final(out)@) == blocks_view(old(out)@) + item_blocks(
            *li,
            steps_view(parent@),
            level,
            mark@,
        ),
    decreases *li, 0int,
{
    match li {
        XmlNode::Element { style: inline, children, .. } => {
            proof {
                assert(decreases_to!(*li => children));
                assert(decreases_to!(children => children@));
            }
            let st = with_step(parent, &['l', 'i'], inline);
            assert(steps_view(st@) == steps_view(parent@).push(
                StepView { tag: seq!['l', 'i'], inline_style: opt_view(*inline) },
            ));
            let ghost stv = steps_view(st@);
            let mut runs: Vec<InlineRun> = Vec::new();
            let mut i: usize = 0;
            while i < children.len()
                invariant
                    i <= children.len(),
                    runs_view(runs@) == item_runs(children@.take(i as int)),
                decreases children.len() - i,
            {
                let ghost t = children@.take(i + 1);
                assert(t.drop_last() =~= children@.take(i as int));
                assert(t.last() == children@[i as int]);
                if !nested_kind(&children[i]) {
                    collect_inline(&children[i], (false, false), &mut runs);
                } else {
                    assert(runs_view(runs@) =~= item_runs(t));
                }
                i = i + 1;
            }
            assert(children@.take(children.len() as int) =~= children@);
            let ghost start = blocks_view(out@);
            let ghost mark_run = RunView { text: mark@, italic: false, bold: false };
            if any_text(runs.as_slice()) {
                let mut all: Vec<InlineRun> = Vec::new();
                all.push(InlineRun { text: from_chars(mark.as_slice()), italic: false, bold: false });
                all.append(&mut runs);
                assert(runs_view(all@) =~= seq![mark_run] + item_runs(children@));
                out.push(Block::Paragraph { style: clone_steps(st.as_slice()), runs: all, indent_level: level });
            } else if !has_nested_children(children.as_slice()) {
                let mut only: Vec<InlineRun> = Vec::new();
                only.push(InlineRun { text: from_chars(mark.as_slice()), italic: false, bold: false });
                assert(runs_view(only@) =~= seq![mark_run]);
                out.push(Block::Paragraph { style: clone_steps(st.as_slice()), runs: only, indent_level: level });
            }
            let ghost head = if has_text(item_runs(children@)) {
                seq![BlockView::Paragraph { style: stv, runs: seq![mark_run] + item_runs(children@), indent_level: level }]
            } else if !has_nested(children@) {
                seq![BlockView::Paragraph { style: stv, runs: seq![mark_run], indent_level: level }]
            } else {
                Seq::<BlockView>::empty()
            };
            assert(blocks_view(out@) =~= start + head);
            let ghost base = blocks_view(out@);
            let mut j: usize = 0;
            assert(base + Seq::<BlockView>::empty() =~= base);
            proof {
                assert(decreases_to!(*li => children));
                assert(decreases_to!(children => children@));
            }
            while j < children.len()
                invariant
                    j <= children.len(),
                    stv == steps_view(st@),
                    blocks_view(out@) == base + nested_blocks(children@.take(j as int), stv, level),
                    decreases_to!(*li => children@),
                decreases children.len() - j,
            {
                let ghost t = children@.take(j + 1);
                let ghost before = nested_blocks(children@.take(j as int), stv, level);
                assert(t.drop_last() =~= children@.take(j as int));
                assert(t.last() == children@[j as int]);
                proof {
                    assert(decreases_to!(children@ => children@[j as int]));
                }
                match &children[j] {
                    XmlNode::Element { tag, src, children: grand, .. } => {
                        proof {
                            assert(decreases_to!(children@[j as int] => grand));
                            assert(decreases_to!(grand => grand@));
                        }
                        let lt = lower_tag(tag);
                        let img = chars_eq(lt.as_slice(), &['i', 'm', 'g']);
                        assert(img == (lt@ == seq!['i', 'm', 'g']));
                        let div = chars_eq(lt.as_slice(), &['d', 'i', 'v']);
                        assert(div == (lt@ == seq!['d', 'i', 'v']));
                        let ghost f0 = blocks_view(out@);
                        if list_tag(lt.as_slice()) {
                            let inner = chars_eq(lt.as_slice(), &['o', 'l']);
                            assert(inner == (lt@ == seq!['o', 'l']));
                            let d = deeper_level(level);
                            walk_list(grand.as_slice(), st.as_slice(), d, inner, out);
                            let ghost add = list_fold(grand@, stv, deeper(level), lt@ == seq!['o', 'l']).0;
                            assert(blocks_view(out@) == f0 + add);
                            assert(nested_blocks(t, stv, level) == before + add);
                            proof {
                                lemma_assoc(base, before, add);
                            }
                        } else if img {
                            out.push(Block::Image { src: src_string(src) });
                            let ghost add = seq![BlockView::Image { src: src_of(*src) }];
                            assert(blocks_view(out@) =~= f0 + add);
                            assert(nested_blocks(t, stv, level) =~= before + add);
                            proof {
                                lemma_assoc(base, before, add);
                            }
                        } else if block_tag(lt.as_slice()) {
                            handle_block(&children[j], st.as_slice(), level, out);
                            let ghost add = block_of(children@[j as int], stv, level);
                            assert(nested_blocks(t, stv, level) == before + add);
                            proof {
                                lemma_assoc(base, before, add);
                            }
                        } else if div {
                            walk_block_children(grand.as_slice(), st.as_slice(), level, out);
                            let ghost add = walk_block(grand@, stv, level);
                            assert(nested_blocks(t, stv, level) == before + add);
                            proof {
                                lemma_assoc(base, before, add);
                            }
                        } else {
                            assert(nested_blocks(t, stv, level) == before);
                        }
                    },
                    _ => {
                        assert(nested_blocks(t, stv, level) == before);
                    },
                }
                j = j + 1;
            }
            assert(children@.take(children.len() as int) =~= children@);
            assert(blocks_view(out@) =~= blocks_view(old(out)@) + item_blocks(
                *li,
                steps_view(parent@),
                level,
                mark@,
            ));
        },
        _ => {
            assert(blocks_view(out@) =~= blocks_view(old(out)@) + Seq::<BlockView>::empty());
        },
    }
}

/// A node of a `roxmltree` document, carried through as an opaque value.
#[verifier::external_type_specification]
#[verifier::external_body]
pub struct ExRoxNode<'a, 'input: 'a>(roxmltree::Node<'a, 'input>);

/// What `roxmltree` makes of an XHTML text, DTDs allowed: the root element
/// with its subtree, or nothing when the text is not well-formed XML. It
/// depends on the text alone.
pub uninterp spec fn xml_document(text: Seq<char>) -> Option<XmlNode>;

/// Trusted: converts a `roxmltree` node and its subtree one for one: an
/// element's local name, `src` and `style` attributes and children; a text
/// node's text; anything else as [`XmlNode::Other`].
#[verifier::external_body]
fn xml_node(node: roxmltree::Node) -> XmlNode {
    if node.is_element() {
        let mut children = Vec::new();
        for child in node.children() {
            children.push(xml_node(child));
        }
        let tag = node.tag_name().name().to_owned();
        let src = node.attribute("src").map(str::to_owned);
        let style = node.attribute("style").map(str::to_owned);
        XmlNode::Element { tag, src, style, children }
    } else if node.is_text() {
        XmlNode::Text(node.text().unwrap_or("").to_owned())
    } else {
        XmlNode::Other
    }
}

/// Trusted: `roxmltree::Document::parse_with_options` with DTDs allowed;
/// the root element on success, the parser's message on failure. The
/// message's wording is not stated.
#[verifier::external_body]
fn parse_xml(xhtml: &str) -> (r: Result<XmlNode, String>)
    ensures
        match r {
            Ok(root) => xml_document(xhtml@) == Some(root),
            Err(_) => xml_document(xhtml@) is None,
        },
{
    let opts = roxmltree::ParsingOptions { allow_dtd: true, ..roxmltree::ParsingOptions::default() };
    match roxmltree::Document::parse_with_options(xhtml, opts) {
        Ok(doc) => Ok(xml_node(doc.root_element())),
        Err(err) => Err(err.to_string()),
    }
}

/// The text of a `<style>` element (`Node::text`): its first child, when
/// that is a text node.
pub open spec fn style_text(c: XmlNode) -> Option<Seq<char>> {
    match c {
        XmlNode::Element { tag, children, .. } => if lower_seq(tag@) == seq!['s', 't', 'y', 'l', 'e']
            && children@.len() > 0 {
            match children@[0] {
                XmlNode::Text(t) => Some(t@),
                _ => None,
            }
        } else {
            None
        },
        _ => None,
    }
}

/// The stylesheet rules of the `<style>` elements among the nodes `cs` and
/// their descendants, in document order.
pub open spec fn forest_rules(cs: Seq<XmlNode>) -> Seq<RuleView>
    decreases cs,
{
    if cs.len() == 0 {
        Seq::empty()
    } else {
        let c = cs[0];
        let own = match style_text(c) {
            Some(t) => rules_of(t),
            None => Seq::empty(),
        };
        let below = match c {
            XmlNode::Element { children, .. } => {
                proof {
                    assert(decreases_to!(cs => cs[0]));
                    assert(decreases_to!(cs[0] => children));
                    assert(decreases_to!(children => children@));
                }
                forest_rules(children@)
            },
            _ => Seq::empty(),
        };
        own + below + forest_rules(cs.drop_first())
    }
}

/// The first `<body>` element among the nodes `cs` and their descendants,
/// in document order.
pub open spec fn first_body(cs: Seq<XmlNode>) -> Option<XmlNode>
    decreases cs,
{
    if cs.len() == 0 {
        None
    } else {
        let c = cs[0];
        match c {
            XmlNode::Element { tag, children, .. } => {
                if lower_seq(tag@) == seq!['b', 'o', 'd', 'y'] {
                    Some(c)
                } else {
                    proof {
                        assert(decreases_to!(cs => cs[0]));
                        assert(decreases_to!(cs[0] => children));
                        assert(decreases_to!(children => children@));
                    }
                    match first_body(children@) {
                        Some(b) => Some(b),
                        None => first_body(cs.drop_first()),
                    }
                }
            },
            _ => first_body(cs.drop_first()),
        }
    }
}

/// The blocks of a chapter whose root element is `root`: the children of
/// its first `<body>`, or of the root when there is none, laid out from
/// the root style.
pub open spec fn chapter_blocks(root: XmlNode) -> Seq<BlockView> {
    match first_body(seq![root]) {
        Some(body) => match body {
            XmlNode::Element { children, .. } => walk_block(children@, Seq::empty(), 0),
            _ => Seq::empty(),
        },
        None => match root {
            XmlNode::Element { children, .. } => walk_block(children@, Seq::empty(), 0),
            _ => Seq::empty(),
        },
    }
}

proof fn lemma_rules_assoc(a: Seq<RuleView>, b: Seq<RuleView>, c: Seq<RuleView>)
    ensures
        (a + b) + c == a + (b + c),
{
    assert((a + b) + c =~= a + (b + c));
}

/// Add the rules of the `<style>` elements among `cs` and their
/// descendants, in document order.
fn collect_styles(cs: &[XmlNode], sheet: &mut Stylesheet)
    ensures
        final(sheet)@ == old(sheet)@ + forest_rules(cs@),
    decreases cs@,
{
    let ghost start = sheet@;
    let mut i: usize = 0;
    assert(cs@.skip(0) =~= cs@);
    assert(start + forest_rules(cs@) =~= start + forest_rules(cs@));
    while i < cs.len()
        invariant
            i <= cs.len(),
            start + forest_rules(cs@) == sheet@ + forest_rules(cs@.skip(i as int)),
        decreases cs.len() - i,
    {
        let ghost rest = cs@.skip(i as int);
        assert(rest[0] == cs@[i as int]);
        assert(rest.drop_first() =~= cs@.skip(i + 1));
        let ghost before = sheet@;
        proof {
            assert(decreases_to!(cs@ => cs@[i as int]));
        }
        match &cs[i] {
            XmlNode::Element { tag, children, .. } => {
                proof {
                    assert(decreases_to!(cs@[i as int] => children));
                    assert(decreases_to!(children => children@));
                }
                let lt = lower_tag(tag);
                let is_style = chars_eq(lt.as_slice(), &['s', 't', 'y', 'l', 'e']);
                assert(is_style == (lt@ == seq!['s', 't', 'y', 'l', 'e']));
                if is_style && children.len() > 0 {
                    match &children[0] {
                        XmlNode::Text(t) => {
                            sheet.add_source(t.as_str());
                        },
                        _ => {
                            assert(sheet@ =~= before + Seq::<RuleView>::empty());
                        },
                    }
                } else {
                    assert(sheet@ =~= before + Seq::<RuleView>::empty());
                }
                let ghost own = sheet@;
                collect_styles(children.as_slice(), sheet);
                proof {
                    lemma_rules_assoc(before, own.skip(before.len() as int), forest_rules(children@));
                    assert(own =~= before + own.skip(before.len() as int));
                    let step = own.skip(before.len() as int) + forest_rules(children@);
                    lemma_rules_assoc(before, step, forest_rules(cs@.skip(i + 1)));
                    lemma_rules_assoc(own.skip(before.len() as int), forest_rules(children@), forest_rules(cs@.skip(i + 1)));
                }
            },
            _ => {
                assert(rest.drop_first() =~= cs@.skip(i + 1));
            },
        }
        i = i + 1;
    }
}

/// The first `<body>` element among `cs` and their descendants.
fn find_body(cs: &[XmlNode]) -> (r: Option<&XmlNode>)
    ensures
        match first_body(cs@) {
            Some(b) => r matches Some(n) && *n == b,
            None => r is None,
        },
    decreases cs@,
{
    let mut i: usize = 0;
    assert(cs@.skip(0) =~= cs@);
    while i < cs.len()
        invariant
            i <= cs.len(),
            first_body(cs@) == first_body(cs@.skip(i as int)),
        decreases cs.len() - i,
    {
        let ghost rest = cs@.skip(i as int);
        assert(rest[0] == cs@[i as int]);
        assert(rest.drop_first() =~= cs@.skip(i + 1));
        proof {
            assert(decreases_to!(cs@ => cs@[i as int]));
        }
        match &cs[i] {
            XmlNode::Element { tag, children, .. } => {
                proof {
                    assert(decreases_to!(cs@[i as int] => children));
                    assert(decreases_to!(children => children@));
                }
                let lt = lower_tag(tag);
                let is_body = chars_eq(lt.as_slice(), &['b', 'o', 'd', 'y']);
                assert(is_body == (lt@ == seq!['b', 'o', 'd', 'y']));
                if is_body {
                    return Some(&cs[i]);
                }
                match find_body(children.as_slice()) {
                    Some(b) => {
                        return Some(b);
                    },
                    None => {},
                }
            },
            _ => {},
        }
        i = i + 1;
    }
    None
}

/// Lay out a parsed chapter: its stylesheet from its `<style>` elements in
/// document order, and its blocks from its `<body>` (or root).
pub fn parse_tree(root: &XmlNode) -> (r: ParsedChapter)
    ensures
        blocks_view(r.blocks@) == chapter_blocks(*root),
        r.stylesheet@ == forest_rules(seq![*root]),
{
    let mut sheet = Stylesheet::new();
    proof {
        assert(Seq::<RuleView>::empty() + forest_rules(seq![*root]) =~= forest_rules(seq![*root]));
    }
    let mut blocks: Vec<Block> = Vec::new();
    assert(blocks_view(blocks@) =~= Seq::<BlockView>::empty());
    collect_root_styles(root, &mut sheet);
    let top: Vec<StyleStep> = Vec::new();
    assert(steps_view(top@) =~= Seq::<StepView>::empty());
    match find_body_in(root) {
        Some(body) => match body {
            XmlNode::Element { children, .. } => {
                walk_block_children(children.as_slice(), top.as_slice(), 0, &mut blocks);
                assert(blocks_view(blocks@) =~= walk_block(children@, Seq::empty(), 0));
            },
            _ => {},
        },
        None => match root {
            XmlNode::Element { children, .. } => {
                walk_block_children(children.as_slice(), top.as_slice(), 0, &mut blocks);
                assert(blocks_view(blocks@) =~= walk_block(children@, Seq::empty(), 0));
            },
            _ => {},
        },
    }
    assert(blocks_view(blocks@) =~= chapter_blocks(*root));
    ParsedChapter { blocks, stylesheet: sheet }
}

/// The stylesheet rules of `root`'s subtree.
fn collect_root_styles(root: &XmlNode, sheet: &mut Stylesheet)
    ensures
        final(sheet)@ == old(sheet)@ + forest_rules(seq![*root]),
{
    let ghost one = seq![*root];
    assert(one.drop_first() =~= Seq::<XmlNode>::empty());
    assert(forest_rules(Seq::<XmlNode>::empty()) == Seq::<RuleView>::empty());
    let ghost before = sheet@;
    match root {
        XmlNode::Element { tag, children, .. } => {
            let lt = lower_tag(tag);
            let is_style = chars_eq(lt.as_slice(), &['s', 't', 'y', 'l', 'e']);
            assert(is_style == (lt@ == seq!['s', 't', 'y', 'l', 'e']));
            if is_style && children.len() > 0 {
                match &children[0] {
                    XmlNode::Text(t) => {
                        sheet.add_source(t.as_str());
                    },
                    _ => {
                        assert(sheet@ =~= before + Seq::<RuleView>::empty());
                    },
                }
            } else {
                assert(sheet@ =~= before + Seq::<RuleView>::empty());
            }
            let ghost own = sheet@;
            collect_styles(children.as_slice(), sheet);
            assert(sheet@ =~= before + forest_rules(one));
        },
        _ => {
            assert(sheet@ =~= before + forest_rules(one));
        },
    }
}

/// The first `<body>` element in `root`'s subtree.
fn find_body_in(root: &XmlNode) -> (r: Option<&XmlNode>)
    ensures
        match first_body(seq![*root]) {
            Some(b) => r matches Some(n) && *n == b,
            None => r is None,
        },
{
    let ghost one = seq![*root];
    assert(one.drop_first() =~= Seq::<XmlNode>::empty());
    assert(first_body(Seq::<XmlNode>::empty()) is None);
    match root {
        XmlNode::Element { tag, children, .. } => {
            let lt = lower_tag(tag);
            let is_body = chars_eq(lt.as_slice(), &['b', 'o', 'd', 'y']);
            assert(is_body == (lt@ == seq!['b', 'o', 'd', 'y']));
            if is_body {
                return Some(root);
            }
            find_body(children.as_slice())
        },
        _ => None,
    }
}

/// Parse a chapter's XHTML and lay it out; the parser's message when the
/// text is not well-formed XML.
pub fn parse_chapter(xhtml: &str) -> (r: Result<ParsedChapter, String>)
    ensures
        match r {
            Ok(c) => xml_document(xhtml@) matches Some(root) && blocks_view(c.blocks@)
                == chapter_blocks(root) && c.stylesheet@ == forest_rules(seq![root]),
            Err(_) => xml_document(xhtml@) is None,
        },
{
    match parse_xml(xhtml) {
        Ok(root) => Ok(parse_tree(&root)),
        Err(message) => Err(message),
    }
}

/// Law: `strong` and `b` make text bold, `em` and `i` make it italic, and
/// no element turns either off: inside `strong` or `b` the bold flag is
/// set whatever it was, inside `em` or `i` the italic flag is, and any
/// other element leaves both flags as they were.
pub proof fn law_inline_flags(f: (bool, bool), t: Seq<char>)
    ensures
        flags_in(seq!['s', 't', 'r', 'o', 'n', 'g'], f).1,
        flags_in(seq!['b'], f).1,
        flags_in(seq!['e', 'm'], f).0,
        flags_in(seq!['i'], f).0,
        flags_in(seq!['s', 't', 'r', 'o', 'n', 'g'], f).0 == f.0,
        flags_in(seq!['b'], f).0 == f.0,
        flags_in(seq!['e', 'm'], f).1 == f.1,
        flags_in(seq!['i'], f).1 == f.1,
        f.0 ==> flags_in(t, f).0,
        f.1 ==> flags_in(t, f).1,
        t != seq!['s', 't', 'r', 'o', 'n', 'g'] && t != seq!['b'] && t != seq!['e', 'm'] && t
            != seq!['i'] ==> flags_in(t, f) == f,
{
    assert(seq!['s', 't', 'r', 'o', 'n', 'g'] != seq!['b']);
    assert(seq!['s', 't', 'r', 'o', 'n', 'g'] != seq!['e', 'm']);
    assert(seq!['s', 't', 'r', 'o', 'n', 'g'] != seq!['i']);
    assert(seq!['b'] != seq!['e', 'm']);
    assert(seq!['b'] != seq!['i']);
    assert(seq!['e', 'm'] != seq!['i']);
}

} // verus!
