//! Regrouping of the text fragments drawn during one frame into visual blocks.
use vstd::prelude::*;

use crate::strs::{
    char_is_alphabetic, char_is_lowercase, is_whitespace, is_ws, push_str, to_chars, trim_end,
    trim_end_index, unicode_alphabetic, unicode_lowercase,
};
use crate::types::{black, Color, ColorPair, Coordinate};

verus! {

/// Bound on coordinates and text lengths that keeps rectangle arithmetic in `i32`.
pub const COORD_BOUND: i32 = 100_000_000;

/// A rectangle of tiles.
#[derive(Debug, Clone, Copy, PartialEq, Eq, Structural)]
pub struct Rect {
    pub x: i32,
    pub y: i32,
    pub width: i32,
    pub height: i32,
}

/// A piece of text drawn at one position with one color pair.
#[derive(Debug, Clone)]
pub struct Fragment {
    pub coordinate: Coordinate,
    pub text: String,
    pub color_pair: ColorPair,
}

/// A fragment's coordinate, text and colors.
pub struct FragmentView {
    pub coordinate: Coordinate,
    pub text: Seq<char>,
    pub color_pair: ColorPair,
}

impl View for Fragment {
    type V = FragmentView;

    open spec fn view(&self) -> FragmentView {
        FragmentView { coordinate: self.coordinate, text: self.text@, color_pair: self.color_pair }
    }
}

/// A fragment whose coordinate and length stay within the bounds the arithmetic needs.
pub open spec fn fragment_wf(f: FragmentView) -> bool {
    &&& -COORD_BOUND <= f.coordinate.column <= COORD_BOUND
    &&& -COORD_BOUND <= f.coordinate.row <= COORD_BOUND
    &&& f.text.len() <= COORD_BOUND
}

/// A rectangle within the bounds the arithmetic needs.
pub open spec fn rect_wf(r: Rect) -> bool {
    &&& -COORD_BOUND <= r.x <= COORD_BOUND
    &&& -COORD_BOUND <= r.y <= COORD_BOUND
    &&& 0 <= r.width
    &&& 0 <= r.height
    &&& r.x + r.width <= 2 * COORD_BOUND
    &&& r.y + r.height <= 2 * COORD_BOUND
}

/// The one-row rectangle a fragment covers: one column per character.
pub open spec fn fragment_rect(f: FragmentView) -> Rect {
    Rect {
        x: f.coordinate.column,
        y: f.coordinate.row,
        width: f.text.len() as i32,
        height: 1,
    }
}

/// The larger of two integers.
pub open spec fn max_int(a: int, b: int) -> int {
    if a >= b {
        a
    } else {
        b
    }
}

/// The smaller of two integers.
pub open spec fn min_int(a: int, b: int) -> int {
    if a <= b {
        a
    } else {
        b
    }
}

/// The smallest rectangle containing both `a` and `b`.
pub open spec fn union_rect(a: Rect, b: Rect) -> Rect {
    let x = min_int(a.x as int, b.x as int);
    let y = min_int(a.y as int, b.y as int);
    Rect {
        x: x as i32,
        y: y as i32,
        width: (max_int(a.x + a.width, b.x + b.width) - x) as i32,
        height: (max_int(a.y + a.height, b.y + b.height) - y) as i32,
    }
}

/// Whether `inner` lies within `outer`.
pub open spec fn rect_contains(outer: Rect, inner: Rect) -> bool {
    &&& outer.x <= inner.x
    &&& outer.y <= inner.y
    &&& inner.x + inner.width <= outer.x + outer.width
    &&& inner.y + inner.height <= outer.y + outer.height
}

impl Fragment {
    /// The number of characters of the fragment.
    pub fn columns(&self) -> (c: i32)
        requires
            fragment_wf(self@),
        ensures
            c == self@.text.len(),
    {
        let v = to_chars(self.text.as_str());
        v.len() as i32
    }

    /// The rectangle the fragment covers.
    pub fn rect(&self) -> (r: Rect)
        requires
            fragment_wf(self@),
        ensures
            r == fragment_rect(self@),
            rect_wf(r),
    {
        Rect { x: self.coordinate.column, y: self.coordinate.row, width: self.columns(), height: 1 }
    }
}

/// A block of text reassembled from fragments, with the rectangle it covers.
#[derive(Debug, Clone)]
pub struct VisualTextBlock {
    pub original: String,
    pub source_rect: Rect,
    pub fragments: Vec<Fragment>,
}

/// A block's original text, the rectangle it covers, and its fragments.
pub struct BlockView {
    pub original: Seq<char>,
    pub source_rect: Rect,
    pub fragments: Seq<FragmentView>,
}

/// The views of a list of fragments.
pub open spec fn fragment_views(v: Seq<Fragment>) -> Seq<FragmentView> {
    v.map_values(|f: Fragment| f@)
}

impl View for VisualTextBlock {
    type V = BlockView;

    open spec fn view(&self) -> BlockView {
        BlockView {
            original: self.original@,
            source_rect: self.source_rect,
            fragments: fragment_views(self.fragments@),
        }
    }
}

/// A block with at least one fragment, all within bounds.
pub open spec fn block_wf(b: BlockView) -> bool {
    &&& b.fragments.len() > 0
    &&& rect_wf(b.source_rect)
    &&& forall|i: int| 0 <= i < b.fragments.len() ==> fragment_wf(#[trigger] b.fragments[i])
}

/// A block made of one fragment.
pub open spec fn new_block(f: FragmentView) -> BlockView {
    BlockView { original: f.text, source_rect: fragment_rect(f), fragments: seq![f] }
}

/// Whether a character sequence ends in white space.
pub open spec fn ends_with_ws(s: Seq<char>) -> bool {
    s.len() > 0 && is_ws(s.last())
}

/// Whether a character sequence starts with white space.
pub open spec fn starts_with_ws(s: Seq<char>) -> bool {
    s.len() > 0 && is_ws(s[0])
}

/// `b` with `f` appended: a space joins the texts when asked for and neither
/// side already has white space at the joint; the rectangle grows to cover `f`.
pub open spec fn append_block(b: BlockView, f: FragmentView, insert_space: bool) -> BlockView {
    let sep = if insert_space && !ends_with_ws(b.original) && !starts_with_ws(f.text) {
        seq![' ']
    } else {
        Seq::<char>::empty()
    };
    BlockView {
        original: b.original + sep + f.text,
        source_rect: union_rect(b.source_rect, fragment_rect(f)),
        fragments: b.fragments.push(f),
    }
}

proof fn lemma_union_wf(a: Rect, b: Rect)
    requires
        rect_wf(a),
        rect_wf(b),
    ensures
        rect_wf(union_rect(a, b)),
        rect_contains(union_rect(a, b), a),
        rect_contains(union_rect(a, b), b),
{
}

/// The per-row rectangles to clear for `frs`: a fragment on the same row as the
/// previous rectangle, starting no more than one column after its end, widens it.
pub open spec fn clear_rects_of(frs: Seq<FragmentView>) -> Seq<Rect>
    decreases frs.len(),
{
    if frs.len() == 0 {
        Seq::empty()
    } else {
        let prev = clear_rects_of(frs.drop_last());
        let rect = fragment_rect(frs.last());
        if prev.len() > 0 && prev.last().y == rect.y && rect.x <= prev.last().x + prev.last().width
            + 1 {
            let last = prev.last();
            prev.update(
                prev.len() - 1,
                Rect {
                    width: (max_int(last.x + last.width, rect.x + rect.width) - last.x) as i32,
                    ..last
                },
            )
        } else {
            prev.push(rect)
        }
    }
}

impl VisualTextBlock {
    fn new(fragment: Fragment) -> (b: VisualTextBlock)
        requires
            fragment_wf(fragment@),
        ensures
            b@ == new_block(fragment@),
            block_wf(b@),
    {
        let rect = fragment.rect();
        let original = fragment.text.clone();
        let fragments = vec![fragment];
        assert(fragment_views(fragments@) =~= seq![fragment@]);
        VisualTextBlock { original, source_rect: rect, fragments }
    }

    fn last(&self) -> (f: &Fragment)
        requires
            self.fragments.len() > 0,
        ensures
            f@ == self@.fragments.last(),
    {
        &self.fragments[self.fragments.len() - 1]
    }

    fn append(&mut self, fragment: Fragment, insert_space: bool)
        requires
            block_wf(old(self)@),
            fragment_wf(fragment@),
        ensures
            final(self)@ == append_block(old(self)@, fragment@, insert_space),
            block_wf(final(self)@),
    {
        let ghost f = fragment@;
        let ghost before = self@;
        if insert_space && !ends_with_whitespace(&self.original) && !starts_with_whitespace(
            &fragment.text,
        ) {
            self.original.push(' ');
        }
        push_str(&mut self.original, fragment.text.as_str());
        let rect = fragment.rect();
        self.extend_rect(rect);
        self.fragments.push(fragment);
        assert(fragment_views(self.fragments@) =~= before.fragments.push(f));
        assert(self@.original =~= append_block(before, f, insert_space).original);
    }

    fn extend_rect(&mut self, rect: Rect)
        requires
            rect_wf(old(self).source_rect),
            rect_wf(rect),
        ensures
            final(self).source_rect == union_rect(old(self).source_rect, rect),
            final(self).original == old(self).original,
            final(self).fragments == old(self).fragments,
            rect_wf(final(self).source_rect),
    {
        proof {
            lemma_union_wf(self.source_rect, rect);
        }
        let right = max_i32(self.source_rect.x + self.source_rect.width, rect.x + rect.width);
        let bottom = max_i32(self.source_rect.y + self.source_rect.height, rect.y + rect.height);
        self.source_rect.x = min_i32(self.source_rect.x, rect.x);
        self.source_rect.y = min_i32(self.source_rect.y, rect.y);
        self.source_rect.width = right - self.source_rect.x;
        self.source_rect.height = bottom - self.source_rect.y;
    }

    /// The top-left tile of the block.
    pub fn origin(&self) -> (c: Coordinate)
        ensures
            c == (Coordinate { column: self.source_rect.x, row: self.source_rect.y }),
    {
        Coordinate { column: self.source_rect.x, row: self.source_rect.y }
    }

    /// The width of the block in columns, at least one.
    pub fn columns(&self) -> (c: usize)
        ensures
            c == max_int(self.source_rect.width as int, 1),
    {
        if self.source_rect.width >= 1 {
            self.source_rect.width as usize
        } else {
            1
        }
    }

    /// The color pair of the first fragment, or black on black without one.
    pub fn color_pair(&self) -> (p: ColorPair)
        ensures
            self.fragments.len() > 0 ==> p == self.fragments@[0].color_pair,
            self.fragments.len() == 0 ==> p == (ColorPair { foreground: black(), background: black() }),
    {
        if self.fragments.len() > 0 {
            self.fragments[0].color_pair
        } else {
            ColorPair { foreground: Color::black(), background: Color::black() }
        }
    }

    /// The rectangles covering the block's fragments row by row.
    pub fn clear_rects(&self) -> (rects: Vec<Rect>)
        requires
            block_wf(self@),
        ensures
            rects@ == clear_rects_of(self@.fragments),
    {
        let mut rects: Vec<Rect> = Vec::new();
        let ghost frs = self@.fragments;
        let mut i: usize = 0;
        while i < self.fragments.len()
            invariant
                i <= self.fragments.len(),
                frs == self@.fragments,
                block_wf(self@),
                rects@ == clear_rects_of(frs.take(i as int)),
                forall|j: int| 0 <= j < rects.len() ==> rect_wf(#[trigger] rects@[j]),
            decreases self.fragments.len() - i,
        {
            assert(frs.take(i + 1).drop_last() =~= frs.take(i as int));
            assert(fragment_wf(frs[i as int]));
            let rect = self.fragments[i].rect();
            let n = rects.len();
            if n > 0 && rects[n - 1].y == rect.y && rect.x <= rects[n - 1].x + rects[n - 1].width
                + 1 {
                let last = rects[n - 1];
                assert(rect_wf(last));
                let width = max_i32(last.x + last.width, rect.x + rect.width) - last.x;
                rects.set(n - 1, Rect { width, ..last });
            } else {
                rects.push(rect);
            }
            i += 1;
        }
        assert(frs.take(frs.len() as int) =~= frs);
        rects
    }
}

fn max_i32(a: i32, b: i32) -> (r: i32)
    ensures
        r == max_int(a as int, b as int),
{
    if a >= b {
        a
    } else {
        b
    }
}

fn min_i32(a: i32, b: i32) -> (r: i32)
    ensures
        r == min_int(a as int, b as int),
{
    if a <= b {
        a
    } else {
        b
    }
}

fn ends_with_whitespace(s: &String) -> (b: bool)
    ensures
        b == ends_with_ws(s@),
{
    let v = to_chars(s.as_str());
    v.len() > 0 && is_whitespace(v[v.len() - 1])
}

fn starts_with_whitespace(s: &String) -> (b: bool)
    ensures
        b == starts_with_ws(s@),
{
    let v = to_chars(s.as_str());
    v.len() > 0 && is_whitespace(v[0])
}

/// Whether the text, once trailing white space is dropped, ends with one of
/// `.`, `!`, `?`, `:`.
pub open spec fn ends_sentence_or_label(s: Seq<char>) -> bool {
    let t = trim_end(s);
    t.len() > 0 && (t.last() == '.' || t.last() == '!' || t.last() == '?' || t.last() == ':')
}

/// Whether the first alphabetic character of the text is lowercase.
pub open spec fn begins_lowercase(s: Seq<char>) -> bool
    decreases s.len(),
{
    if s.len() == 0 {
        false
    } else if unicode_alphabetic(s[0]) {
        unicode_lowercase(s[0])
    } else {
        begins_lowercase(s.drop_first())
    }
}

fn ends_complete_sentence_or_label(text: &str) -> (b: bool)
    ensures
        b == ends_sentence_or_label(text@),
{
    let v = to_chars(text);
    let e = trim_end_index(&v, 0, v.len());
    assert(v@.subrange(0, v@.len() as int) =~= v@);
    if e == 0 {
        return false;
    }
    let c = v[e - 1];
    c == '.' || c == '!' || c == '?' || c == ':'
}

fn begins_with_lowercase_text(text: &str) -> (b: bool)
    ensures
        b == begins_lowercase(text@),
{
    let v = to_chars(text);
    let mut i: usize = 0;
    assert(v@.skip(0) =~= v@);
    while i < v.len()
        invariant
            i <= v.len(),
            v@ == text@,
            begins_lowercase(v@.skip(i as int)) == begins_lowercase(v@),
        decreases v.len() - i,
    {
        assert(v@.skip(i as int)[0] == v@[i as int]);
        assert(v@.skip(i as int).len() > 0);
        let c = v[i];
        if char_is_alphabetic(c) {
            let r = char_is_lowercase(c);
            assert(begins_lowercase(v@.skip(i as int)) == r);
            return r;
        }
        assert(v@.skip(i as int).drop_first() =~= v@.skip(i + 1));
        i += 1;
    }
    assert(v@.skip(i as int).len() == 0);
    false
}

/// The blocks after `f` joins `blocks`: a fragment of the same colors joins the
/// last block when it continues the last fragment's row with a gap of at most
/// one column, or when it starts the next row as a wrapped continuation;
/// otherwise it starts a new block.
pub open spec fn collect_step(blocks: Seq<BlockView>, f: FragmentView) -> Seq<BlockView> {
    if blocks.len() == 0 {
        seq![new_block(f)]
    } else {
        let block = blocks.last();
        let last = block.fragments.last();
        let same_color = f.color_pair == last.color_pair;
        let gap = f.coordinate.column - (last.coordinate.column + last.text.len());
        let horizontal = same_color && f.coordinate.row == last.coordinate.row && (gap == 0 || gap
            == 1);
        let wrapped = same_color && f.coordinate.row == last.coordinate.row + 1 && (
        f.coordinate.column < last.coordinate.column || (f.coordinate.column
            == last.coordinate.column && (ends_with_ws(block.original) || (!ends_sentence_or_label(
            last.text,
        ) && begins_lowercase(f.text)))));
        if horizontal {
            blocks.update(blocks.len() - 1, append_block(block, f, gap == 1))
        } else if wrapped {
            blocks.update(blocks.len() - 1, append_block(block, f, true))
        } else {
            blocks.push(new_block(f))
        }
    }
}

/// A fragment of the same colors that starts the next row at the column of the last
/// fragment joins the last block, right after its text, whenever that text ends in
/// white space, whatever the fragment's first letter.
pub proof fn lemma_wrap_after_white_space(frs: Seq<FragmentView>, f: FragmentView)
    requires
        frs.len() > 0,
        ({
            let block = collect_blocks(frs).last();
            let last = block.fragments.last();
            &&& f.color_pair == last.color_pair
            &&& f.coordinate.row == last.coordinate.row + 1
            &&& f.coordinate.column == last.coordinate.column
            &&& block.original.len() > 0
            &&& is_ws(block.original.last())
        }),
    ensures
        collect_blocks(frs.push(f)).len() == collect_blocks(frs).len(),
        collect_blocks(frs.push(f)).last().original == collect_blocks(frs).last().original + f.text,
        collect_blocks(frs.push(f)).last().fragments == collect_blocks(frs).last().fragments.push(f),
        forall|i: int| 0 <= i < collect_blocks(frs).len() - 1 ==> collect_blocks(frs.push(f))[i] == collect_blocks(frs)[i],
{
    assert(frs.push(f).drop_last() =~= frs);
    assert(collect_blocks(frs).len() > 0);
}

/// A fragment of the same colors that continues the row of the last fragment right
/// after it joins the last block with its text appended as it is; one column further
/// on, a space separates the two unless one of them has white space at the joint.
pub proof fn lemma_join_on_same_row(frs: Seq<FragmentView>, f: FragmentView)
    requires
        frs.len() > 0,
        ({
            let last = collect_blocks(frs).last().fragments.last();
            &&& f.color_pair == last.color_pair
            &&& f.coordinate.row == last.coordinate.row
            &&& (f.coordinate.column == last.coordinate.column + last.text.len() || f.coordinate.column
                == last.coordinate.column + last.text.len() + 1)
        }),
    ensures
        ({
            let before = collect_blocks(frs);
            let after = collect_blocks(frs.push(f));
            let last = before.last().fragments.last();
            let spaced = f.coordinate.column == last.coordinate.column + last.text.len() + 1
                && !(before.last().original.len() > 0 && is_ws(before.last().original.last()))
                && !(f.text.len() > 0 && is_ws(f.text[0]));
            &&& after.len() == before.len()
            &&& after.last().fragments == before.last().fragments.push(f)
            &&& after.last().original == before.last().original + (if spaced {
                seq![' ']
            } else {
                Seq::<char>::empty()
            }) + f.text
        }),
{
    assert(frs.push(f).drop_last() =~= frs);
    assert(collect_blocks(frs).len() > 0);
}

/// A fragment whose colors differ from those of the last fragment starts a new block
/// of its own.
pub proof fn lemma_new_color_new_block(frs: Seq<FragmentView>, f: FragmentView)
    requires
        frs.len() > 0,
        f.color_pair != collect_blocks(frs).last().fragments.last().color_pair,
    ensures
        collect_blocks(frs.push(f)).len() == collect_blocks(frs).len() + 1,
        collect_blocks(frs.push(f)).last().original == f.text,
        collect_blocks(frs.push(f)).last().fragments == seq![f],
{
    assert(frs.push(f).drop_last() =~= frs);
    assert(collect_blocks(frs).len() > 0);
}

/// The blocks that the fragments `frs`, in drawing order, form.
pub open spec fn collect_blocks(frs: Seq<FragmentView>) -> Seq<BlockView>
    decreases frs.len(),
{
    if frs.len() == 0 {
        Seq::empty()
    } else {
        collect_step(collect_blocks(frs.drop_last()), frs.last())
    }
}

/// The fragments of `blocks`, block after block.
pub open spec fn flatten_fragments(blocks: Seq<BlockView>) -> Seq<FragmentView>
    decreases blocks.len(),
{
    if blocks.len() == 0 {
        Seq::empty()
    } else {
        flatten_fragments(blocks.drop_last()) + blocks.last().fragments
    }
}

/// The fragments collected during one frame.
#[derive(Debug, Default)]
pub struct Collector {
    fragments: Vec<Fragment>,
}

impl Collector {
    /// An empty collector.
    pub fn new() -> (c: Collector)
        ensures
            c.pending().len() == 0,
    {
        Collector { fragments: Vec::new() }
    }

    /// The fragments recorded so far, in order.
    pub closed spec fn pending(&self) -> Seq<FragmentView> {
        fragment_views(self.fragments@)
    }

    /// Records a fragment.
    pub fn push(&mut self, fragment: Fragment)
        ensures
            final(self).pending() == old(self).pending().push(fragment@),
    {
        let ghost f = fragment@;
        self.fragments.push(fragment);
        assert(fragment_views(self.fragments@) =~= old(self).pending().push(f));
    }

    /// Groups the recorded fragments into visual blocks.
    pub fn finish(self) -> (blocks: Vec<VisualTextBlock>)
        requires
            forall|i: int| 0 <= i < self.pending().len() ==> fragment_wf(#[trigger] self.pending()[i]),
        ensures
            blocks@.map_values(|b: VisualTextBlock| b@) == collect_blocks(self.pending()),
            forall|i: int| 0 <= i < blocks.len() ==> block_wf(#[trigger] blocks@[i]@),
    {
        let ghost frs = self.pending();
        let mut blocks: Vec<VisualTextBlock> = Vec::new();
        let n = self.fragments.len();
        let mut i: usize = 0;
        while i < n
            invariant
                n == frs.len(),
                frs == fragment_views(self.fragments@),
                i <= n,
                forall|j: int| 0 <= j < n ==> fragment_wf(#[trigger] frs[j]),
                blocks@.map_values(|b: VisualTextBlock| b@) == collect_blocks(frs.take(i as int)),
                forall|j: int| 0 <= j < blocks.len() ==> block_wf(#[trigger] blocks@[j]@),
            decreases n - i,
        {
            assert(frs.take(i + 1).drop_last() =~= frs.take(i as int));
            assert(frs.take(i + 1).last() == frs[i as int]);
            let ghost before = blocks@.map_values(|b: VisualTextBlock| b@);
            let fragment = self.fragments[i].duplicate();
            assert(fragment_wf(fragment@));
            let nb = blocks.len();
            if nb == 0 {
                blocks.push(VisualTextBlock::new(fragment));
                assert(blocks@.map_values(|b: VisualTextBlock| b@) =~= collect_step(
                    before,
                    fragment@,
                ));
            } else {
                let mut block = blocks.pop().unwrap();
                assert(before.last() == block@);
                assert(block_wf(block@));
                let last = block.last();
                assert(fragment_wf(last@));
                let same_color = fragment.color_pair == last.color_pair;
                let gap = fragment.coordinate.column - (last.coordinate.column + last.columns());
                let horizontal = same_color && fragment.coordinate.row == last.coordinate.row && (
                gap == 0 || gap == 1);
                let wrapped = !horizontal && same_color && last.coordinate.row < COORD_BOUND
                    && fragment.coordinate.row == last.coordinate.row + 1 && (
                fragment.coordinate.column < last.coordinate.column || (fragment.coordinate.column
                    == last.coordinate.column && (ends_with_whitespace(&block.original) || (
                !ends_complete_sentence_or_label(last.text.as_str())
                    && begins_with_lowercase_text(fragment.text.as_str())))));
                if horizontal {
                    block.append(fragment, gap == 1);
                    blocks.push(block);
                } else if wrapped {
                    block.append(fragment, true);
                    blocks.push(block);
                } else {
                    blocks.push(block);
                    blocks.push(VisualTextBlock::new(fragment));
                }
                assert(blocks@.map_values(|b: VisualTextBlock| b@) =~= collect_step(
                    before,
                    fragment@,
                ));
            }
            i += 1;
        }
        assert(frs.take(n as int) =~= frs);
        blocks
    }
}

impl Fragment {
    /// A copy of the fragment.
    pub fn duplicate(&self) -> (f: Fragment)
        ensures
            f@ == self@,
    {
        Fragment { coordinate: self.coordinate, text: self.text.clone(), color_pair: self.color_pair }
    }
}

/// Every fragment of a frame lands in exactly one block, in drawing order, and
/// no block is empty.
pub proof fn lemma_blocks_partition_fragments(frs: Seq<FragmentView>)
    ensures
        flatten_fragments(collect_blocks(frs)) == frs,
        forall|i: int|
            0 <= i < collect_blocks(frs).len() ==> (#[trigger] collect_blocks(frs)[i]).fragments.len()
                > 0,
    decreases frs.len(),
{
    if frs.len() > 0 {
        let f = frs.last();
        let rest = frs.drop_last();
        lemma_blocks_partition_fragments(rest);
        let prev = collect_blocks(rest);
        let next = collect_blocks(frs);
        assert(next == collect_step(prev, f));
        if prev.len() == 0 {
            assert(next =~= seq![new_block(f)]);
            assert(next.drop_last() =~= Seq::<BlockView>::empty());
            assert(flatten_fragments(next) =~= frs);
        } else {
            let n = prev.len();
            if next.len() == n {
                assert(next.drop_last() =~= prev.drop_last());
                assert(next.last().fragments =~= prev.last().fragments.push(f));
                assert(flatten_fragments(prev) == flatten_fragments(prev.drop_last())
                    + prev.last().fragments);
                assert(flatten_fragments(next) == flatten_fragments(next.drop_last())
                    + next.last().fragments);
                assert(flatten_fragments(prev.drop_last()) + prev.last().fragments.push(f)
                    =~= (flatten_fragments(prev.drop_last()) + prev.last().fragments).push(f));
                assert(rest.push(f) =~= frs);
                assert(flatten_fragments(next) =~= frs);
            } else {
                assert(next.drop_last() =~= prev);
                assert(next.last() == new_block(f));
                assert(flatten_fragments(next) == flatten_fragments(prev) + seq![f]);
                assert(flatten_fragments(next) =~= frs);
            }
            assert forall|i: int| 0 <= i < next.len() implies (#[trigger] next[i]).fragments.len()
                > 0 by {
                if i < n {
                    assert(prev[i].fragments.len() > 0);
                }
            }
        }
    }
}

/// Each block's rectangle covers the rectangle of every fragment in it.
pub proof fn lemma_block_covers_fragments(frs: Seq<FragmentView>)
    requires
        forall|i: int| 0 <= i < frs.len() ==> fragment_wf(#[trigger] frs[i]),
    ensures
        forall|i: int, j: int|
            0 <= i < collect_blocks(frs).len() && 0 <= j < collect_blocks(frs)[i].fragments.len()
                ==> rect_contains(
                collect_blocks(frs)[i].source_rect,
                fragment_rect(#[trigger] collect_blocks(frs)[i].fragments[j]),
            ),
        forall|i: int| 0 <= i < collect_blocks(frs).len() ==> rect_wf(#[trigger] collect_blocks(frs)[i].source_rect),
    decreases frs.len(),
{
    if frs.len() > 0 {
        let f = frs.last();
        let rest = frs.drop_last();
        assert forall|i: int| 0 <= i < rest.len() implies fragment_wf(#[trigger] rest[i]) by {
            assert(rest[i] == frs[i]);
        }
        assert(fragment_wf(f));
        lemma_blocks_partition_fragments(rest);
        lemma_block_covers_fragments(rest);
        let prev = collect_blocks(rest);
        let next = collect_blocks(frs);
        if prev.len() > 0 && next.len() == prev.len() {
            let b = prev.last();
            assert(rect_wf(b.source_rect));
            lemma_union_wf(b.source_rect, fragment_rect(f));
        }
    }
}

/// A frame begun and then fed the fragments `frs` one by one, each recorded, has
/// collected exactly `frs`, in order: `states[0]` is the state after `begin_frame` and
/// `states[i + 1]` the state after the push of `frs[i]`. `finish_frame` then returns
/// `collect_blocks(frs)`, which is what a fresh `Collector` given the same fragments
/// returns from `finish`.
pub proof fn lemma_frame_collects(states: Seq<FrameCollector>, frs: Seq<FragmentView>)
    requires
        states.len() == frs.len() + 1,
        states[0].is_active(),
        states[0].collected() == Seq::<FragmentView>::empty(),
        forall|i: int|
            0 <= i < frs.len() ==> (#[trigger] states[i + 1]).is_active() && states[i + 1].collected()
                == states[i].collected().push(frs[i]),
    ensures
        states.last().is_active(),
        states.last().collected() == frs,
    decreases frs.len(),
{
    if frs.len() > 0 {
        let n = frs.len() - 1;
        lemma_frame_collects(states.take(n + 1), frs.take(n));
        assert(states.take(n + 1).last() == states[n]);
        assert(states[n + 1].collected() == states[n].collected().push(frs[n]));
        assert(frs.take(n).push(frs[n]) =~= frs);
    }
}

/// A collector fed the fragments `frs` one by one, from empty, holds exactly `frs`:
/// `cs[0]` is a new collector and `cs[i + 1]` the one after the push of `frs[i]`.
pub proof fn lemma_collector_pending(cs: Seq<Collector>, frs: Seq<FragmentView>)
    requires
        cs.len() == frs.len() + 1,
        cs[0].pending() == Seq::<FragmentView>::empty(),
        forall|i: int| 0 <= i < frs.len() ==> (#[trigger] cs[i + 1]).pending() == cs[i].pending().push(frs[i]),
    ensures
        cs.last().pending() == frs,
    decreases frs.len(),
{
    if frs.len() > 0 {
        let n = frs.len() - 1;
        lemma_collector_pending(cs.take(n + 1), frs.take(n));
        assert(cs.take(n + 1).last() == cs[n]);
        assert(frs.take(n).push(frs[n]) =~= frs);
    }
}

/// The collection state of the current frame: collecting or idle.
#[derive(Debug, Default)]
pub struct FrameCollector {
    active: Option<Collector>,
}

impl FrameCollector {
    /// An idle frame state.
    pub fn new() -> (s: FrameCollector)
        ensures
            !s.is_active(),
            s.collected() == Seq::<FragmentView>::empty(),
    {
        FrameCollector { active: None }
    }

    /// Whether a frame is being collected.
    pub closed spec fn is_active(&self) -> bool {
        self.active is Some
    }

    /// The fragments of the frame being collected, or none.
    pub closed spec fn collected(&self) -> Seq<FragmentView> {
        match self.active {
            Some(c) => c.pending(),
            None => Seq::empty(),
        }
    }

    /// Starts collecting a new frame, dropping whatever was collected.
    pub fn begin_frame(&mut self)
        ensures
            final(self).is_active(),
            final(self).collected() == Seq::<FragmentView>::empty(),
    {
        self.active = Some(Collector::new());
    }

    /// Whether a frame is being collected.
    pub fn is_collecting(&self) -> (b: bool)
        ensures
            b == self.is_active(),
    {
        self.active.is_some()
    }

    /// Records a fragment when collecting; returns whether it was recorded.
    pub fn push(&mut self, fragment: Fragment) -> (recorded: bool)
        ensures
            recorded == old(self).is_active(),
            final(self).is_active() == old(self).is_active(),
            recorded ==> final(self).collected() == old(self).collected().push(fragment@),
            !recorded ==> final(self).collected() == old(self).collected(),
    {
        match self.active.take() {
            Some(mut collector) => {
                collector.push(fragment);
                self.active = Some(collector);
                true
            },
            None => false,
        }
    }

    /// Ends the frame and returns its blocks; without a frame, no blocks.
    pub fn finish_frame(&mut self) -> (blocks: Vec<VisualTextBlock>)
        requires
            forall|i: int|
                0 <= i < old(self).collected().len() ==> fragment_wf(
                    #[trigger] old(self).collected()[i],
                ),
        ensures
            !final(self).is_active(),
            final(self).collected() == Seq::<FragmentView>::empty(),
            blocks@.map_values(|b: VisualTextBlock| b@) == collect_blocks(old(self).collected()),
            !old(self).is_active() ==> blocks@.len() == 0,
    {
        let ghost before = old(self).collected();
        match self.active.take() {
            Some(collector) => {
                assert(collector.pending() == before);
                collector.finish()
            },
            None => {
                let v: Vec<VisualTextBlock> = Vec::new();
                assert(v@.map_values(|b: VisualTextBlock| b@) =~= collect_blocks(
                    Seq::<FragmentView>::empty(),
                ));
                assert(v@.len() == 0);
                v
            },
        }
    }

    /// Drops the current frame, if any.
    pub fn cancel_frame(&mut self)
        ensures
            !final(self).is_active(),
            final(self).collected() == Seq::<FragmentView>::empty(),
    {
        self.active = None;
    }

    /// Returns to the idle state.
    pub fn reset(&mut self)
        ensures
            !final(self).is_active(),
            final(self).collected() == Seq::<FragmentView>::empty(),
    {
        self.cancel_frame();
    }
}

} // verus!
