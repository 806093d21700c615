//! The decisions the game hooks make around their calls into the game: the markup
//! built from a colored string, where DFHack text goes, where the logos are drawn, and
//! how the translation of a sentence split in parts is put together.
use vstd::prelude::*;
use crate::preference::{
    PreferenceBlock, block_text, compose_preference_block, preference_block_of, semantic_sentences, split_preference_block,
    split_semantic_sentences, strings_view, translator_ok,
};
use crate::strs::to_chars;
use crate::translation::{TextAlignment, TranslationResponse};
use crate::types::{Color, ColorPair, Coordinate, Dimensions, SCREENTEXPOS_BOTTOM_OF_TEXT_SFLAG, palette_index};
use crate::visual_block::Rect;

verus! {

/// The foreground, background and brightness of a color byte of the old scheme: bits
/// 0-2, bits 3-5 and bit 6.
pub open spec fn color_triple(c: u8) -> (u8, u8, u8) {
    ((c % 8) as u8, ((c / 8) % 8) as u8, ((c / 64) % 2) as u8)
}

/// The ASCII digit of `d`.
pub open spec fn digit_byte(d: u8) -> u8 {
    (48 + d) as u8
}

/// The markup `[C:f:b:br]` that switches to a color.
pub open spec fn color_tag(t: (u8, u8, u8)) -> Seq<u8> {
    seq![91u8, 67u8, 58u8, digit_byte(t.0), 58u8, digit_byte(t.1), 58u8, digit_byte(t.2), 93u8]
}

/// The markup of the first `n` characters of a colored string, and the color last
/// switched to: a color tag goes before each character whose color differs from the
/// previous one.
pub open spec fn markup_prefix(s: Seq<u8>, c: Seq<u8>, n: int) -> (Seq<u8>, Option<(u8, u8, u8)>)
    decreases n,
{
    if n <= 0 {
        (seq![], None)
    } else {
        let p = markup_prefix(s, c, n - 1);
        let cur = color_triple(c[n - 1]);
        let out = if p.1 != Some(cur) {
            p.0 + color_tag(cur)
        } else {
            p.0
        };
        (out.push(s[n - 1]), Some(cur))
    }
}

/// The markup text of a string drawn with a color per character, as far as both go.
pub open spec fn colored_markup_of(s: Seq<u8>, c: Seq<u8>) -> Seq<u8> {
    markup_prefix(s, c, if s.len() < c.len() { s.len() as int } else { c.len() as int }).0
}

/// Builds the markup of a string of game characters with one color byte per character.
pub fn colored_markup(string: &[u8], colors: &[u8]) -> (r: Vec<u8>)
    ensures
        r@ == colored_markup_of(string@, colors@),
{
    let n = if string.len() < colors.len() {
        string.len()
    } else {
        colors.len()
    };
    let mut out: Vec<u8> = Vec::new();
    let mut prev: Option<(u8, u8, u8)> = None;
    let mut i: usize = 0;
    while i < n
        invariant
            i <= n,
            n <= string@.len(),
            n <= colors@.len(),
            (out@, prev) == markup_prefix(string@, colors@, i as int),
        decreases n - i,
    {
        let c = colors[i];
        let cur: (u8, u8, u8) = (c % 8, (c / 8) % 8, (c / 64) % 2);
        let differs = match prev {
            Some(p) => p.0 != cur.0 || p.1 != cur.1 || p.2 != cur.2,
            None => true,
        };
        if differs {
            out.push(91u8);
            out.push(67u8);
            out.push(58u8);
            out.push(48u8 + cur.0);
            out.push(58u8);
            out.push(48u8 + cur.1);
            out.push(58u8);
            out.push(48u8 + cur.2);
            out.push(93u8);
        }
        out.push(string[i]);
        prev = Some(cur);
        i += 1;
        proof {
            let p = markup_prefix(string@, colors@, i - 1);
            assert(color_triple(colors@[i - 1]) == cur);
            if differs {
                assert(p.1 != Some(cur));
            } else {
                assert(p.1 == Some(cur));
            }
        }
    }
    out
}

/// Whether an `addst_flag` call draws the bottom half of a double-height text, which is
/// not drawn while translation is on.
pub fn is_bottom_half(sflag: u32) -> (r: bool)
    ensures
        r == (sflag & SCREENTEXPOS_BOTTOM_OF_TEXT_SFLAG != 0),
{
    sflag & SCREENTEXPOS_BOTTOM_OF_TEXT_SFLAG != 0
}

/// `x` within `lo..=hi`.
pub open spec fn clamp(x: int, lo: int, hi: int) -> int {
    if x < lo {
        lo
    } else if x > hi {
        hi
    } else {
        x
    }
}

/// Where and how DFHack text is drawn.
#[derive(Debug, Clone, Copy, PartialEq, Eq, Structural)]
pub struct DFHackText {
    pub coordinate: Coordinate,
    pub color_pair: ColorPair,
    pub flag: u32,
    /// The row below, marked as occupied too.
    pub bottom: Coordinate,
}

/// The placement of DFHack text from the raw call parameters: the position clamped to
/// the screen, the colors clamped to the 16-color palette, and the flag to `u32`.
pub open spec fn dfhack_text_of(
    x: isize,
    y: isize,
    fg: isize,
    bg: isize,
    bold: bool,
    flag: isize,
    dims: Dimensions,
    palette: Seq<Color>,
) -> DFHackText {
    let column = clamp(x as int, 0, dims.width - 1);
    let row = clamp(y as int, 0, dims.height - 1);
    let fgc = clamp(fg as int, 0, 15);
    DFHackText {
        coordinate: Coordinate { column: column as i32, row: row as i32 },
        color_pair: ColorPair {
            foreground: palette[palette_index(fgc + if bold { 8int } else { 0int })],
            background: palette[palette_index(clamp(bg as int, 0, 15))],
        },
        flag: clamp(flag as int, 0, u32::MAX as int) as u32,
        bottom: Coordinate { column: column as i32, row: clamp(row + 1, 0, dims.height - 1) as i32 },
    }
}

fn clamp_isize(x: isize, lo: isize, hi: isize) -> (r: isize)
    requires
        lo <= hi,
    ensures
        r == clamp(x as int, lo as int, hi as int),
{
    if x < lo {
        lo
    } else if x > hi {
        hi
    } else {
        x
    }
}

/// Places DFHack text drawn with `dfhack.screen.paintString`-style parameters.
pub fn dfhack_text(
    x: isize,
    y: isize,
    fg: isize,
    bg: isize,
    bold: bool,
    flag: isize,
    dims: Dimensions,
    palette: &[Color; 16],
) -> (r: DFHackText)
    requires
        dims.width >= 1,
        dims.height >= 1,
    ensures
        r == dfhack_text_of(x, y, fg, bg, bold, flag, dims, palette@),
{
    let column = clamp_isize(x, 0, dims.width as isize - 1) as i32;
    let row = clamp_isize(y, 0, dims.height as isize - 1) as i32;
    let flag: u32 = if flag < 0 {
        0
    } else if flag as i128 > u32::MAX as i128 {
        u32::MAX
    } else {
        flag as u32
    };
    let fg = clamp_isize(fg, 0, 15) as i8;
    let bg = clamp_isize(bg, 0, 15) as i8;
    let color_pair = ColorPair::from_old_16_colors(fg, bg, bold, palette);
    let below: i32 = if row + 1 > dims.height - 1 {
        dims.height - 1
    } else {
        row + 1
    };
    DFHackText {
        coordinate: Coordinate { column, row },
        color_pair,
        flag,
        bottom: Coordinate { column, row: below },
    }
}

/// Integer division rounding toward zero, as `i32` division does.
pub open spec fn div_toward_zero(a: int, b: int) -> int {
    if a >= 0 {
        a / b
    } else {
        -((-a) / b)
    }
}

/// Where the title logo goes on a canvas: centered across, and a third of the height
/// above 800 pixels down.
pub open spec fn title_rect_of(origin: Coordinate, canvas: Dimensions, w: i32, h: i32) -> (int, int, int, int) {
    (
        origin.column + div_toward_zero(canvas.width as int, 2) - div_toward_zero(w as int, 2),
        if canvas.height >= 800 {
            origin.row + (canvas.height - 800) / 3
        } else {
            origin.row as int
        },
        w as int,
        h as int,
    )
}

/// The rectangle of the title logo of `w` by `h` pixels.
pub fn title_rect(origin: Coordinate, canvas: Dimensions, w: i32, h: i32) -> (r: Rect)
    requires
        i32::MIN <= origin.column + div_toward_zero(canvas.width as int, 2) - div_toward_zero(w as int, 2)
            <= i32::MAX,
        canvas.height >= 800 ==> origin.row + (canvas.height - 800) / 3 <= i32::MAX,
    ensures
        (r.x as int, r.y as int, r.width as int, r.height as int) == title_rect_of(origin, canvas, w, h),
{
    let x = origin.column + (canvas.width / 2 - w / 2);
    let y = if canvas.height >= 800 {
        origin.row + (canvas.height - 800) / 3
    } else {
        origin.row
    };
    Rect { x, y, width: w, height: h }
}

/// Whether a texture is one of the three sizes of the developer's logo.
pub fn is_developer_logo(tex_id: usize) -> (r: bool)
    ensures
        r == (7 <= tex_id <= 9),
{
    7 <= tex_id && tex_id <= 9
}

/// Where the mod's logo goes beside the developer's logo drawn at tile (`x`, `y`): one
/// tile right of it, as a square of the logo's height.
pub open spec fn logo_rect_of(x: int, y: int, zoom: Dimensions, origin: Coordinate, logo_w: int, logo_h: int) -> (
    int,
    int,
    int,
    int,
) {
    (x * zoom.width + origin.column + logo_w + zoom.width, y * zoom.height + origin.row, logo_h, logo_h)
}

/// The rectangle of the mod's logo beside the developer's logo.
pub fn logo_rect(x: i32, y: i32, zoom: Dimensions, origin: Coordinate, logo_w: i32, logo_h: i32) -> (r: Rect)
    requires
        i32::MIN <= x * zoom.width <= i32::MAX,
        i32::MIN <= x * zoom.width + origin.column <= i32::MAX,
        i32::MIN <= x * zoom.width + origin.column + logo_w <= i32::MAX,
        i32::MIN <= x * zoom.width + origin.column + logo_w + zoom.width <= i32::MAX,
        i32::MIN <= y * zoom.height <= i32::MAX,
        i32::MIN <= y * zoom.height + origin.row <= i32::MAX,
    ensures
        (r.x as int, r.y as int, r.width as int, r.height as int) == logo_rect_of(
            x as int,
            y as int,
            zoom,
            origin,
            logo_w as int,
            logo_h as int,
        ),
{
    let rx = x * zoom.width + origin.column + logo_w + zoom.width;
    let ry = y * zoom.height + origin.row;
    Rect { x: rx, y: ry, width: logo_h, height: logo_h }
}

/// Whether the tile (`x`, `y`) is the last one of the screen, after which the lower
/// layer's translated text is drawn.
pub fn is_last_tile(x: i32, y: i32, dims: Dimensions) -> (r: bool)
    ensures
        r == (x == dims.width - 1 && y == dims.height - 1),
{
    x as i64 == dims.width as i64 - 1 && y as i64 == dims.height as i64 - 1
}

/// What the translator says of a text.
#[derive(Debug, Clone)]
pub enum TranslationStatus {
    /// It is translated.
    Translated(TranslationResponse),
    /// A translation may come later.
    Pending,
    /// No translation is known.
    Missing,
}

/// What the translator says of a text, as text.
pub enum StatusView {
    Translated(Seq<char>, TextAlignment),
    Pending,
    Missing,
}

/// The view of a translation status: the translated text and alignment, pending, or missing.
pub open spec fn status_view(s: TranslationStatus) -> StatusView {
    match s {
        TranslationStatus::Translated(r) => StatusView::Translated(r.translated@, r.alignment),
        TranslationStatus::Pending => StatusView::Pending,
        TranslationStatus::Missing => StatusView::Missing,
    }
}

/// The views of a list of translation statuses.
pub open spec fn statuses_view(v: Seq<TranslationStatus>) -> Seq<StatusView> {
    v.map_values(|s: TranslationStatus| status_view(s))
}

/// The translations of the parts, joined, where every part is translated.
pub open spec fn joined(parts: Seq<StatusView>, n: int) -> Seq<char>
    decreases n,
{
    if n <= 0 {
        seq![]
    } else {
        joined(parts, n - 1) + match parts[n - 1] {
            StatusView::Translated(t, _) => t,
            _ => seq![],
        }
    }
}

/// The result of combining the parts of a split sentence: where every part is
/// translated, the first part's alignment with the translations joined in order;
/// otherwise nothing, and whether the local data is exhausted (some part is missing
/// rather than pending).
pub open spec fn combined_of(parts: Seq<StatusView>) -> (Option<(Seq<char>, TextAlignment)>, bool) {
    if forall|i: int| 0 <= i < parts.len() ==> (#[trigger] parts[i]) is Translated {
        (
            Some(
                (
                    joined(parts, parts.len() as int),
                    match parts[0] {
                        StatusView::Translated(_, a) => a,
                        _ => TextAlignment::Left,
                    },
                ),
            ),
            false,
        )
    } else {
        (None, exists|i: int| 0 <= i < parts.len() && (#[trigger] parts[i]) is Missing)
    }
}

/// Combines the translations of the parts of a sentence split in two or more.
pub fn combine_split_parts(parts: &Vec<TranslationStatus>) -> (r: (Option<TranslationResponse>, bool))
    requires
        parts@.len() >= 1,
    ensures
        r.1 == combined_of(statuses_view(parts@)).1,
        match combined_of(statuses_view(parts@)).0 {
            Some((t, a)) => r.0 matches Some(x) && x.translated@ == t && x.alignment == a,
            None => r.0 is None,
        },
{
    let ghost pv = statuses_view(parts@);
    let mut all_translated = true;
    let mut any_missing = false;
    let mut text = String::new();
    let mut alignment = TextAlignment::Left;
    let mut i: usize = 0;
    while i < parts.len()
        invariant
            i <= parts.len(),
            parts@.len() >= 1,
            pv == statuses_view(parts@),
            all_translated == forall|j: int| 0 <= j < i ==> (#[trigger] pv[j]) is Translated,
            any_missing == exists|j: int| 0 <= j < i && (#[trigger] pv[j]) is Missing,
            all_translated ==> text@ == joined(pv, i as int),
            all_translated && i > 0 ==> alignment == match pv[0] {
                StatusView::Translated(_, a) => a,
                _ => TextAlignment::Left,
            },
        decreases parts.len() - i,
    {
        assert(pv[i as int] == status_view(parts@[i as int]));
        match &parts[i] {
            TranslationStatus::Translated(r) => {
                if i == 0 {
                    alignment = r.alignment;
                }
                crate::strs::push_str(&mut text, r.translated.as_str());
            },
            TranslationStatus::Pending => {
                all_translated = false;
            },
            TranslationStatus::Missing => {
                all_translated = false;
                any_missing = true;
            },
        }
        i += 1;
        proof {
            if !all_translated {
                assert(!(pv[i - 1] is Translated) || exists|j: int| 0 <= j < i - 1 && !(#[trigger] pv[j] is Translated));
            }
        }
    }
    if all_translated {
        (Some(TranslationResponse { translated: text, alignment }), false)
    } else {
        (None, any_missing)
    }
}

/// The status callback answers for every text, and the same for the same text.
pub open spec fn status_ok<S: Fn(&str) -> TranslationStatus>(s: S) -> bool {
    &&& forall|t: &str| call_requires(s, (t,))
    &&& forall|t1: &str, t2: &str, r1: TranslationStatus, r2: TranslationStatus|
        t1@ == t2@ && #[trigger] call_ensures(s, (t1,), r1) && #[trigger] call_ensures(s, (t2,), r2)
            ==> status_view(r1) == status_view(r2)
}

/// What the status callback says of a text.
pub open spec fn status_at<S: Fn(&str) -> TranslationStatus>(s: S, t: Seq<char>) -> StatusView {
    let (x, o) = choose|x: &str, o: TranslationStatus| x@ == t && #[trigger] call_ensures(s, (x,), o);
    status_view(o)
}

/// An answer that the callback gave is what it says of that text.
pub proof fn lemma_status_at<S: Fn(&str) -> TranslationStatus>(s: S, x: &str, o: TranslationStatus)
    requires
        status_ok(s),
        call_ensures(s, (x,), o),
    ensures
        status_at(s, x@) == status_view(o),
{
    assert(exists|x2: &str, o2: TranslationStatus| x2@ == x@ && #[trigger] call_ensures(s, (x2,), o2));
    let (x2, o2) = choose|x2: &str, o2: TranslationStatus| x2@ == x@ && #[trigger] call_ensures(s, (x2,), o2);
    assert(status_view(o2) == status_view(o));
}

/// The text a preference part gets, given what the translator says of it: only a
/// translated part has one.
pub fn translate_preference_component(status: TranslationStatus) -> (r: Option<String>)
    ensures
        match status_view(status) {
            StatusView::Translated(t, _) => r matches Some(x) && x@ == t,
            _ => r is None,
        },
{
    match status {
        TranslationStatus::Translated(response) => Some(response.translated),
        TranslationStatus::Pending | TranslationStatus::Missing => None,
    }
}

/// The translation of a whole preference paragraph, put together from its parts and
/// aligned left.
pub fn translate_preference_block<F: Fn(&str) -> Option<String>>(block: &PreferenceBlock, component: F) -> (r:
    TranslationResponse)
    requires
        translator_ok(component),
    ensures
        r.translated@ == block_text(component, block@, block@.len() as int),
        r.alignment == TextAlignment::Left,
{
    TranslationResponse { translated: compose_preference_block(block, component), alignment: TextAlignment::Left }
}

/// How a complete sentence of a visual block is translated locally: a preference
/// paragraph part by part (with `component`); otherwise the whole sentence; where the
/// whole is missing, its semantic sentences, all of which must be translated. The flag
/// says whether the local data is exhausted, so that the cloud may be asked.
pub open spec fn sentence_result<S: Fn(&str) -> TranslationStatus, F: Fn(&str) -> Option<String>>(
    s: S,
    component: F,
    text: Seq<char>,
) -> (Option<(Seq<char>, TextAlignment)>, bool) {
    match preference_block_of(text) {
        Some(b) => (Some((block_text(component, b, b.len() as int), TextAlignment::Left)), false),
        None => match status_at(s, text) {
            StatusView::Translated(t, a) => (Some((t, a)), false),
            StatusView::Pending => (None, false),
            StatusView::Missing => {
                let parts = semantic_sentences(text);
                if parts.len() < 2 {
                    (None, true)
                } else {
                    combined_of(parts.map_values(|p: Seq<char>| status_at(s, p)))
                }
            },
        },
    }
}

/// Translates a complete sentence of a visual block with the local data.
pub fn sentence_translation<S: Fn(&str) -> TranslationStatus, F: Fn(&str) -> Option<String>>(
    text: &str,
    status: &S,
    component: F,
) -> (r: (Option<TranslationResponse>, bool))
    requires
        status_ok(*status),
        translator_ok(component),
    ensures
        r.1 == sentence_result(*status, component, text@).1,
        match sentence_result(*status, component, text@).0 {
            Some((t, a)) => r.0 matches Some(x) && x.translated@ == t && x.alignment == a,
            None => r.0 is None,
        },
{
    if let Some(block) = split_preference_block(text) {
        return (Some(translate_preference_block(&block, component)), false);
    }
    let whole = status(text);
    proof {
        lemma_status_at(*status, text, whole);
    }
    match whole {
        TranslationStatus::Translated(r) => (Some(r), false),
        TranslationStatus::Pending => (None, false),
        TranslationStatus::Missing => {
            let parts = split_semantic_sentences(text);
            if parts.len() < 2 {
                return (None, true);
            }
            let ghost pv = strings_view(parts@);
            let mut statuses: Vec<TranslationStatus> = Vec::new();
            let mut i: usize = 0;
            while i < parts.len()
                invariant
                    i <= parts.len(),
                    status_ok(*status),
                    pv == strings_view(parts@),
                    statuses@.len() == i,
                    forall|j: int| 0 <= j < i ==> status_view(#[trigger] statuses@[j]) == status_at(*status, pv[j]),
                decreases parts.len() - i,
            {
                let t = parts[i].as_str();
                let st = status(t);
                proof {
                    lemma_status_at(*status, t, st);
                    assert(pv[i as int] == parts@[i as int]@);
                }
                statuses.push(st);
                i += 1;
            }
            assert(statuses_view(statuses@) =~= pv.map_values(|p: Seq<char>| status_at(*status, p)));
            combine_split_parts(&statuses)
        },
    }
}

/// Whether a sentence goes to the cloud service: no local translation came and the
/// local data is exhausted.
pub fn wants_cloud(has_response: bool, local_exhausted: bool) -> (r: bool)
    ensures
        r == (!has_response && local_exhausted),
{
    !has_response && local_exhausted
}

/// Whether a text begins with a color tag `[C:`.
pub open spec fn starts_with_color(t: Seq<char>) -> bool {
    t.len() >= 3 && t[0] == '[' && t[1] == 'C' && t[2] == ':'
}

/// The translation of a sentence that began with a color tag keeps a color tag at its
/// front: its own where it has one, the sentence's otherwise.
pub fn with_leading_color(translated: String, color_markup: &str) -> (r: String)
    ensures
        r@ == if starts_with_color(translated@) {
            translated@
        } else {
            color_markup@ + translated@
        },
{
    let v = to_chars(translated.as_str());
    if v.len() >= 3 && v[0] == '[' && v[1] == 'C' && v[2] == ':' {
        translated
    } else {
        let mut out = color_markup.to_owned();
        crate::strs::push_str(&mut out, translated.as_str());
        out
    }
}

/// The columns a fragment takes when translated on its own: its characters, at least
/// one.
pub fn fragment_columns(text: &str) -> (r: usize)
    ensures
        r == if text@.len() == 0 { 1 } else { text@.len() },
{
    let n = to_chars(text).len();
    if n == 0 {
        1
    } else {
        n
    }
}

} // verus!
