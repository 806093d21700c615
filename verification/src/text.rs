//! Blocks of colored text as they are laid out on the game screen.
use vstd::prelude::*;

use crate::strs::to_chars;
use crate::translation::{
    context_color_pair, context_flag, context_is_markup, context_original, TextAlignment,
    TranslationRequest, TranslationResponse, TOP_OF_TEXT,
};
use crate::screen::{Layer, PlacedView, Screens};
use crate::types::{black, Color, ColorPair, Coordinate};
use vstd::hash_map::StringHashMap;
use vstd::string::StringSliceAdditionalSpecFns;

verus! {

/// Whether `f` is a glyph width function the layout can use: defined on every
/// character, a function of the character alone, and never negative.
pub open spec fn glyph_fn_ok<F: Fn(char) -> i32>(f: &F) -> bool {
    &&& forall|c: char| call_requires(*f, (c,))
    &&& forall|c: char, w: i32| #[trigger] call_ensures(*f, (c,), w) ==> 0 <= w
    &&& forall|c: char, w1: i32, w2: i32|
        #[trigger] call_ensures(*f, (c,), w1) && #[trigger] call_ensures(*f, (c,), w2) ==> w1 == w2
}

/// The width `f` gives the character `c`.
pub open spec fn glyph_width_of<F: Fn(char) -> i32>(f: &F, c: char) -> int {
    (choose|w: i32| call_ensures(*f, (c,), w)) as int
}

/// The unzoomed width of a text: the sum of its glyph widths.
pub open spec fn text_width<F: Fn(char) -> i32>(f: &F, s: Seq<char>) -> int
    decreases s.len(),
{
    if s.len() == 0 {
        0
    } else {
        text_width(f, s.drop_last()) + glyph_width_of(f, s.last())
    }
}

/// The running sum of the glyph widths of the text stays within `i32`: every prefix is
/// at most `i32::MAX` wide.
pub open spec fn widths_fit<F: Fn(char) -> i32>(f: &F, s: Seq<char>) -> bool {
    forall|k: int| 0 <= k <= s.len() ==> #[trigger] text_width(f, s.take(k)) <= i32::MAX
}

/// A piece of text in one color pair.
#[derive(Debug, Default, Clone)]
pub struct TextFragment {
    content: String,
    color_pair: ColorPair,
}

/// A fragment's text and colors.
pub struct TextFragmentView {
    pub content: Seq<char>,
    pub color_pair: ColorPair,
}

impl View for TextFragment {
    type V = TextFragmentView;

    closed spec fn view(&self) -> TextFragmentView {
        TextFragmentView { content: self.content@, color_pair: self.color_pair }
    }
}

/// Black on black.
pub open spec fn black_pair() -> ColorPair {
    ColorPair { foreground: black(), background: black() }
}

impl TextFragment {
    /// A fragment of the given text and colors.
    pub fn new(content: String, color_pair: ColorPair) -> (f: TextFragment)
        ensures
            f@ == (TextFragmentView { content: content@, color_pair }),
    {
        TextFragment { content, color_pair }
    }

    /// A fragment of `count` spaces on black.
    pub fn spaces(count: usize) -> (f: TextFragment)
        ensures
            f@.content == Seq::new(count as nat, |i: int| ' '),
            f@.color_pair == black_pair(),
    {
        let mut s = String::new();
        let mut i: usize = 0;
        while i < count
            invariant
                i <= count,
                s@ == Seq::new(i as nat, |j: int| ' '),
            decreases count - i,
        {
            s.push(' ');
            i += 1;
            assert(s@ =~= Seq::new(i as nat, |j: int| ' '));
        }
        Self::new(s, ColorPair { foreground: Color::black(), background: Color::black() })
    }

    /// The unzoomed width of the fragment, by `glyph_width`.
    pub fn orig_width<F: Fn(char) -> i32>(&self, glyph_width: &F) -> (w: i32)
        requires
            glyph_fn_ok(glyph_width),
            widths_fit(glyph_width, self@.content),
        ensures
            w == text_width(glyph_width, self@.content),
            0 <= w,
    {
        let v = to_chars(self.content.as_str());
        let mut total: i32 = 0;
        let mut i: usize = 0;
        while i < v.len()
            invariant
                glyph_fn_ok(glyph_width),
                widths_fit(glyph_width, v@),
                i <= v.len(),
                total == text_width(glyph_width, v@.take(i as int)),
                0 <= total,
            decreases v.len() - i,
        {
            let w = glyph_width(v[i]);
            assert(v@.take(i + 1).drop_last() =~= v@.take(i as int));
            assert(glyph_width_of(glyph_width, v@[i as int]) == w);
            assert(text_width(glyph_width, v@.take(i + 1)) <= i32::MAX);
            total = total + w;
            i += 1;
        }
        assert(v@.take(v.len() as int) =~= v@);
        total
    }

    /// The text of the fragment.
    pub fn content(&self) -> (s: &str)
        ensures
            s@ == self@.content,
    {
        self.content.as_str()
    }

    /// A copy of the fragment.
    pub fn duplicate(&self) -> (f: TextFragment)
        ensures
            f@ == self@,
    {
        TextFragment { content: self.content.clone(), color_pair: self.color_pair }
    }
}

/// A row of fragments with the color pair new text gets.
#[derive(Debug, Default, Clone)]
pub struct TextRow {
    default_color_pair: ColorPair,
    fragments: Vec<TextFragment>,
}

/// A row's default colors and fragments.
pub struct TextRowView {
    pub default_color_pair: ColorPair,
    pub fragments: Seq<TextFragmentView>,
}

impl View for TextRow {
    type V = TextRowView;

    closed spec fn view(&self) -> TextRowView {
        TextRowView {
            default_color_pair: self.default_color_pair,
            fragments: self.fragments@.map_values(|f: TextFragment| f@),
        }
    }
}

/// The texts of a row's fragments, concatenated.
pub open spec fn row_text(fs: Seq<TextFragmentView>) -> Seq<char>
    decreases fs.len(),
{
    if fs.len() == 0 {
        Seq::empty()
    } else {
        row_text(fs.drop_last()) + fs.last().content
    }
}

/// The smallest number of columns of `col_width` pixels that holds `width` pixels.
pub open spec fn columns_for(width: int, col_width: int) -> int {
    if width <= 0 {
        0
    } else {
        (width + col_width - 1) / col_width
    }
}

proof fn lemma_text_width_concat<F: Fn(char) -> i32>(f: &F, a: Seq<char>, b: Seq<char>)
    ensures
        text_width(f, a + b) == text_width(f, a) + text_width(f, b),
    decreases b.len(),
{
    if b.len() > 0 {
        lemma_text_width_concat(f, a, b.drop_last());
        assert((a + b).drop_last() =~= a + b.drop_last());
    } else {
        assert(a + b =~= a);
    }
}

impl TextRow {
    /// An empty row whose text gets `default_color_pair`.
    pub fn new(default_color_pair: ColorPair) -> (r: TextRow)
        ensures
            r@.default_color_pair == default_color_pair,
            r@.fragments.len() == 0,
    {
        let r = TextRow { default_color_pair, fragments: Vec::new() };
        assert(r@.fragments =~= Seq::<TextFragmentView>::empty());
        r
    }

    /// Appends a fragment of `content` in the row's default colors.
    pub fn push_text(&mut self, content: String)
        ensures
            final(self)@.default_color_pair == old(self)@.default_color_pair,
            final(self)@.fragments == old(self)@.fragments.push(
                TextFragmentView { content: content@, color_pair: old(self)@.default_color_pair },
            ),
    {
        let f = TextFragment::new(content, self.default_color_pair);
        let ghost fv = f@;
        self.fragments.push(f);
        assert(self@.fragments =~= old(self)@.fragments.push(fv));
    }

    /// The fragments of the row.
    pub fn fragments(&self) -> (f: &Vec<TextFragment>)
        ensures
            f@.map_values(|x: TextFragment| x@) == self@.fragments,
    {
        &self.fragments
    }

    /// The unzoomed width of the row's text, by `glyph_width`.
    pub fn orig_width<F: Fn(char) -> i32>(&self, glyph_width: &F) -> (w: i32)
        requires
            glyph_fn_ok(glyph_width),
            widths_fit(glyph_width, row_text(self@.fragments)),
        ensures
            w == text_width(glyph_width, row_text(self@.fragments)),
            0 <= w,
    {
        let ghost fs = self@.fragments;
        let ghost all = row_text(fs);
        let mut total: i32 = 0;
        let mut i: usize = 0;
        proof {
            lemma_row_text_prefix_len(fs, fs.len() as int);
        }
        while i < self.fragments.len()
            invariant
                glyph_fn_ok(glyph_width),
                fs == self@.fragments,
                all == row_text(fs),
                i <= fs.len(),
                widths_fit(glyph_width, all),
                fs.take(fs.len() as int) == fs,
                total == text_width(glyph_width, row_text(fs.take(i as int))),
                0 <= total,
            decreases fs.len() - i,
        {
            assert(fs.take(i + 1).drop_last() =~= fs.take(i as int));
            assert(fs[i as int] == self.fragments@[i as int]@);
            let ghost p = row_text(fs.take(i as int));
            let ghost content = fs[i as int].content;
            proof {
                lemma_row_text_is_prefix(fs, i + 1, fs.len() as int);
                assert(row_text(fs.take(i + 1)) == p + content);
                assert forall|k: int| 0 <= k <= content.len() implies #[trigger] text_width(glyph_width, content.take(k))
                    <= i32::MAX by {
                    assert(all.take(p.len() + k) =~= p + content.take(k));
                    lemma_text_width_concat(glyph_width, p, content.take(k));
                }
                assert(content.take(content.len() as int) =~= content);
                assert(all.take((p.len() + content.len()) as int) =~= p + content);
            }
            let w = self.fragments[i].orig_width(glyph_width);
            proof {
                lemma_text_width_concat(glyph_width, row_text(fs.take(i as int)), fs[i as int].content);
            }
            total = total + w;
            i += 1;
        }
        assert(fs.take(fs.len() as int) =~= fs);
        total
    }

    /// The number of screen columns the row spans with columns of
    /// `col_width` unzoomed pixels.
    pub fn columns<F: Fn(char) -> i32>(&self, glyph_width: &F, col_width: i32) -> (c: usize)
        requires
            glyph_fn_ok(glyph_width),
            widths_fit(glyph_width, row_text(self@.fragments)),
            col_width > 0,
        ensures
            c == columns_for(text_width(glyph_width, row_text(self@.fragments)), col_width as int),
            0 <= text_width(glyph_width, row_text(self@.fragments)) <= i32::MAX,
    {
        let w = self.orig_width(glyph_width);
        ceil_columns(w, col_width)
    }

    /// A copy of the row.
    pub fn duplicate(&self) -> (r: TextRow)
        ensures
            r@ == self@,
    {
        let mut fragments: Vec<TextFragment> = Vec::new();
        let mut i: usize = 0;
        while i < self.fragments.len()
            invariant
                i <= self.fragments.len(),
                fragments.len() == i,
                forall|j: int| 0 <= j < i ==> #[trigger] fragments@[j]@ == self.fragments@[j]@,
            decreases self.fragments.len() - i,
        {
            fragments.push(self.fragments[i].duplicate());
            i += 1;
        }
        let r = TextRow { default_color_pair: self.default_color_pair, fragments };
        assert(r@.fragments =~= self@.fragments);
        r
    }
}

/// The text of the first `m` fragments begins the text of the first `n`.
proof fn lemma_row_text_is_prefix(fs: Seq<TextFragmentView>, m: int, n: int)
    requires
        0 <= m <= n <= fs.len(),
    ensures
        row_text(fs.take(m)).len() <= row_text(fs.take(n)).len(),
        row_text(fs.take(n)).take(row_text(fs.take(m)).len() as int) == row_text(fs.take(m)),
    decreases n - m,
{
    if m < n {
        lemma_row_text_is_prefix(fs, m, n - 1);
        assert(fs.take(n).drop_last() =~= fs.take(n - 1));
        let a = row_text(fs.take(n - 1));
        let l = row_text(fs.take(m)).len() as int;
        assert((a + fs[n - 1].content).take(l) =~= a.take(l));
    } else {
        let a = row_text(fs.take(n));
        assert(a.take(a.len() as int) =~= a);
    }
}

proof fn lemma_row_text_prefix_len(fs: Seq<TextFragmentView>, k: int)
    requires
        0 <= k <= fs.len(),
    ensures
        forall|j: int| 0 <= j <= k ==> #[trigger] row_text(fs.take(j)).len() <= row_text(fs.take(k)).len(),
        fs.take(fs.len() as int) == fs,
    decreases k,
{
    assert(fs.take(fs.len() as int) =~= fs);
    if k > 0 {
        lemma_row_text_prefix_len(fs, k - 1);
        assert(fs.take(k).drop_last() =~= fs.take(k - 1));
    }
}

/// The smallest number of columns of `col_width` that holds `width`.
pub fn ceil_columns(width: i32, col_width: i32) -> (c: usize)
    requires
        col_width > 0,
    ensures
        c == columns_for(width as int, col_width as int),
{
    if width <= 0 {
        0
    } else {
        let w = width as i64;
        let cw = col_width as i64;
        ((w + cw - 1) / cw) as usize
    }
}

/// How a block of text is laid out: its width in screen columns, its
/// alignment and whether it spans two rows' height.
#[derive(Debug, Default, Clone, Copy, PartialEq, Eq, Structural)]
pub struct TextLayout {
    columns: usize,
    alignment: TextAlignment,
    double_line_height: bool,
}

impl TextLayout {
    /// The width of the block in columns.
    pub closed spec fn spec_columns(&self) -> usize {
        self.columns
    }

    /// How the block's rows are aligned.
    pub closed spec fn spec_alignment(&self) -> TextAlignment {
        self.alignment
    }

    /// Whether the block's lines are drawn twice as high.
    pub closed spec fn spec_double_line_height(&self) -> bool {
        self.double_line_height
    }

    fn new(columns: usize) -> (l: TextLayout)
        ensures
            l.spec_columns() == columns,
            l.spec_alignment() == TextAlignment::Left,
            !l.spec_double_line_height(),
    {
        TextLayout { columns, alignment: TextAlignment::Left, double_line_height: false }
    }

    /// Sets the alignment.
    pub fn set_alignment(&mut self, alignment: TextAlignment)
        ensures
            final(self).spec_alignment() == alignment,
            final(self).spec_columns() == old(self).spec_columns(),
            final(self).spec_double_line_height() == old(self).spec_double_line_height(),
    {
        self.alignment = alignment;
    }

    /// Makes the block span two rows' height.
    pub fn set_double_line_height(&mut self)
        ensures
            final(self).spec_double_line_height(),
            final(self).spec_columns() == old(self).spec_columns(),
            final(self).spec_alignment() == old(self).spec_alignment(),
    {
        self.double_line_height = true;
    }
}

/// Rows of colored text with their layout.
#[derive(Debug, Default, Clone)]
pub struct TextBlock {
    rows: Vec<TextRow>,
    layout: TextLayout,
}

/// A block's rows, width, alignment, and whether its lines are drawn twice as high.
pub struct TextBlockView {
    pub rows: Seq<TextRowView>,
    pub columns: usize,
    pub alignment: TextAlignment,
    pub double_line_height: bool,
}

impl View for TextBlock {
    type V = TextBlockView;

    closed spec fn view(&self) -> TextBlockView {
        TextBlockView {
            rows: self.rows@.map_values(|r: TextRow| r@),
            columns: self.layout.spec_columns(),
            alignment: self.layout.spec_alignment(),
            double_line_height: self.layout.spec_double_line_height(),
        }
    }
}

/// One row holding `text` in `color_pair`.
pub open spec fn single_row(text: Seq<char>, color_pair: ColorPair) -> TextRowView {
    TextRowView {
        default_color_pair: color_pair,
        fragments: seq![TextFragmentView { content: text, color_pair }],
    }
}

/// The untranslated block of a text: one row, as many columns as the text
/// has UTF-8 bytes, left aligned.
pub open spec fn original_block(original: Seq<char>, color_pair: ColorPair, double: bool) -> TextBlockView {
    TextBlockView {
        rows: seq![single_row(original, color_pair)],
        columns: vstd::utf8::encode_utf8(original).len() as usize,
        alignment: TextAlignment::Left,
        double_line_height: double,
    }
}

/// The block of a request with its translation (if any): a left-aligned
/// translation is as wide as its glyphs need, another alignment keeps the
/// width of the original text.
pub open spec fn request_block<F: Fn(char) -> i32>(
    original: Seq<char>,
    color_pair: ColorPair,
    double: bool,
    response: Option<(Seq<char>, TextAlignment)>,
    glyph_width: &F,
    col_width: int,
) -> TextBlockView {
    match response {
        None => original_block(original, color_pair, double),
        Some((translated, alignment)) => TextBlockView {
            rows: seq![single_row(translated, color_pair)],
            columns: if alignment == TextAlignment::Left {
                columns_for(text_width(glyph_width, translated), col_width) as usize
            } else {
                vstd::utf8::encode_utf8(original).len() as usize
            },
            alignment,
            double_line_height: double,
        },
    }
}

/// The translated text and alignment of a response, if there is one.
pub open spec fn response_view(r: Option<TranslationResponse>) -> Option<(Seq<char>, TextAlignment)> {
    match r {
        Some(r) => Some((r.translated@, r.alignment)),
        None => None,
    }
}

/// The color pair a request's text is drawn in: its own, or black on black.
pub open spec fn request_colors(request: &TranslationRequest) -> ColorPair {
    match context_color_pair(&request.spec_context()) {
        Some(c) => c,
        None => black_pair(),
    }
}

/// Whether a request's text is the top half of a double-height text.
pub open spec fn request_double(request: &TranslationRequest) -> bool {
    context_flag(&request.spec_context()) is Some && context_flag(&request.spec_context())->0
        & TOP_OF_TEXT != 0
}

impl TextBlock {
    /// An empty block `columns` wide.
    pub fn from_columns(columns: usize) -> (b: TextBlock)
        ensures
            b@.rows.len() == 0,
            b@.columns == columns,
            b@.alignment == TextAlignment::Left,
            !b@.double_line_height,
    {
        let b = TextBlock { rows: Vec::new(), layout: TextLayout::new(columns) };
        assert(b@.rows =~= Seq::<TextRowView>::empty());
        b
    }

    fn from_row(row: TextRow, layout: TextLayout) -> (b: TextBlock)
        ensures
            b@.rows == seq![row@],
            b@.columns == layout.spec_columns(),
            b@.alignment == layout.spec_alignment(),
            b@.double_line_height == layout.spec_double_line_height(),
    {
        let ghost rv = row@;
        let b = TextBlock { rows: vec![row], layout };
        assert(b@.rows =~= seq![rv]);
        b
    }

    /// The untranslated block of `original`.
    pub fn from_original(original: &str, color_pair: ColorPair) -> (b: TextBlock)
        ensures
            b@ == original_block(original@, color_pair, false),
    {
        let mut row = TextRow::new(color_pair);
        row.push_text(original.to_owned());
        assert(row@.fragments =~= seq![TextFragmentView { content: original@, color_pair }]);
        let layout = TextLayout::new(original.len());
        Self::from_row(row, layout)
    }

    /// The block of a request given its translation, if any.
    pub fn from_request<F: Fn(char) -> i32>(
        request: &TranslationRequest,
        response: Option<TranslationResponse>,
        glyph_width: &F,
        col_width: i32,
    ) -> (b: TextBlock)
        requires
            glyph_fn_ok(glyph_width),
            col_width > 0,
            response matches Some(r) ==> (r.alignment == TextAlignment::Left ==> widths_fit(
                glyph_width,
                r.translated@,
            )),
        ensures
            b@ == request_block(
                context_original(&request.spec_context()),
                request_colors(request),
                request_double(request),
                response_view(response),
                glyph_width,
                col_width as int,
            ),
    {
        let color_pair = match request.color_pair() {
            Some(c) => c,
            None => ColorPair { foreground: Color::black(), background: Color::black() },
        };
        let original = request.original();
        let mut original_text_block = Self::from_original(original, color_pair);
        if request.context().has_double_line_height() {
            original_text_block.layout.set_double_line_height();
        }
        match response {
            Some(response) => {
                let mut row = TextRow::new(color_pair);
                let ghost translated = response.translated@;
                row.push_text(response.translated);
                assert(row@.fragments =~= seq![TextFragmentView { content: translated, color_pair }]);
                assert(row_text(row@.fragments) =~= translated) by {
                    reveal_with_fuel(row_text, 2);
                    assert(row@.fragments.drop_last() =~= Seq::<TextFragmentView>::empty());
                }
                let layout = if response.alignment == TextAlignment::Left {
                    let columns = row.columns(glyph_width, col_width);
                    let mut layout = TextLayout::new(columns);
                    if original_text_block.layout.double_line_height {
                        layout.set_double_line_height();
                    }
                    layout
                } else {
                    let mut layout = original_text_block.layout;
                    layout.set_alignment(response.alignment);
                    layout
                };
                Self::from_row(row, layout)
            },
            None => original_text_block,
        }
    }

    /// The block to draw for a plain-text request: the untranslated text
    /// when it is to be skipped or has no translation; else the cached block
    /// of its key, or a new block, which is cached.
    pub fn get<F: Fn(char) -> i32>(
        cache: &mut TextCache,
        request: &TranslationRequest,
        skip: bool,
        response: Option<TranslationResponse>,
        glyph_width: &F,
        col_width: i32,
    ) -> (b: TextBlock)
        requires
            !context_is_markup(&request.spec_context()),
            glyph_fn_ok(glyph_width),
            col_width > 0,
            !skip && !old(cache)@.contains_key(request.spec_key()) ==> (response matches Some(r) ==> (
            r.alignment == TextAlignment::Left ==> widths_fit(glyph_width, r.translated@))),
        ensures
            (skip || response is None) ==> b@ == original_block(
                context_original(&request.spec_context()),
                request_colors(request),
                request_double(request),
            ) && final(cache)@ == old(cache)@,
            !(skip || response is None) && old(cache)@.contains_key(request.spec_key()) ==> b@
                == old(cache)@[request.spec_key()] && final(cache)@ == old(cache)@,
            !(skip || response is None) && !old(cache)@.contains_key(request.spec_key()) ==> b@
                == request_block(
                context_original(&request.spec_context()),
                request_colors(request),
                request_double(request),
                response_view(response),
                glyph_width,
                col_width as int,
            ) && final(cache)@ == old(cache)@.insert(request.spec_key(), b@),
    {
        if skip || response.is_none() {
            let color_pair = match request.color_pair() {
                Some(c) => c,
                None => ColorPair { foreground: Color::black(), background: Color::black() },
            };
            let mut untranslated = Self::from_original(request.original(), color_pair);
            if request.context().has_double_line_height() {
                untranslated.layout.set_double_line_height();
            }
            return untranslated;
        }
        let key = request.key();
        if let Some(cached) = cache.texts.get(key) {
            return cached.duplicate();
        }
        let text_block = Self::from_request(request, response, glyph_width, col_width);
        cache.texts.insert(key.to_owned(), text_block.duplicate());
        text_block
    }

    /// The rows of the block.
    pub fn rows(&self) -> (r: &Vec<TextRow>)
        ensures
            r@.map_values(|x: TextRow| x@) == self@.rows,
    {
        &self.rows
    }

    /// The number of rows.
    pub fn len(&self) -> (n: usize)
        ensures
            n == self@.rows.len(),
    {
        self.rows.len()
    }

    /// The width of the block in screen columns.
    pub fn columns(&self) -> (c: usize)
        ensures
            c == self@.columns,
    {
        self.layout.columns
    }

    /// The alignment of the block.
    pub fn alignment(&self) -> (a: &TextAlignment)
        ensures
            *a == self@.alignment,
    {
        &self.layout.alignment
    }

    /// Whether the block spans two rows' height.
    pub fn double_line_height(&self) -> (d: bool)
        ensures
            d == self@.double_line_height,
    {
        self.layout.double_line_height
    }

    /// Places a copy of the block on a layer of the screens and returns the id it got.
    pub fn add_to_screen(&self, screens: &mut Screens, layer: Layer, coordinate: Coordinate) -> (id: u16)
        ensures
            id == old(screens).next_id(layer),
            final(screens).blocks(layer) == old(screens).blocks(layer).push(
                PlacedView { id, coordinate, block: self@ },
            ),
            final(screens).next_id(layer) == (if id == u16::MAX { 0 } else { (id + 1) as u16 }),
            forall|other: Layer| other != layer ==> final(screens).blocks(other) == old(screens).blocks(other)
                && final(screens).next_id(other) == old(screens).next_id(other),
    {
        screens.add_text_block_to_screens(layer, coordinate, self.duplicate())
    }

    /// A copy of the block.
    pub fn duplicate(&self) -> (b: TextBlock)
        ensures
            b@ == self@,
    {
        let mut rows: Vec<TextRow> = Vec::new();
        let mut i: usize = 0;
        while i < self.rows.len()
            invariant
                i <= self.rows.len(),
                rows.len() == i,
                forall|j: int| 0 <= j < i ==> #[trigger] rows@[j]@ == self.rows@[j]@,
            decreases self.rows.len() - i,
        {
            rows.push(self.rows[i].duplicate());
            i += 1;
        }
        let b = TextBlock { rows, layout: self.layout };
        assert(b@.rows =~= self@.rows);
        b
    }
}

/// The blocks built for translated requests, by request key.
pub struct TextCache {
    texts: StringHashMap<TextBlock>,
}

impl View for TextCache {
    type V = Map<Seq<char>, TextBlockView>;

    closed spec fn view(&self) -> Map<Seq<char>, TextBlockView> {
        self.texts@.map_values(|b: TextBlock| b@)
    }
}

impl TextCache {
    /// An empty cache.
    pub fn new() -> (c: TextCache)
        ensures
            c@ == Map::<Seq<char>, TextBlockView>::empty(),
    {
        let c = TextCache { texts: StringHashMap::new() };
        assert(c@ =~= Map::<Seq<char>, TextBlockView>::empty());
        c
    }

    /// Empties the cache.
    pub fn reset(&mut self)
        ensures
            final(self)@ == Map::<Seq<char>, TextBlockView>::empty(),
    {
        self.texts.clear();
        assert(self@ =~= Map::<Seq<char>, TextBlockView>::empty());
    }
}

} // verus!
