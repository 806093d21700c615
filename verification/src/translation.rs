//! Translation inputs, contexts, requests and responses.
use vstd::prelude::*;

use crate::strs::push_str;
use vstd::string::StringSliceAdditionalSpecFns;
use crate::types::{Color, ColorPair, Coordinate};

use sha2::Digest;

verus! {

/// What the game was drawing when a text was captured: the view screen, the
/// cursor, the colors of the graphics state and the colors of the cell under
/// the cursor, for the lower and the upper layer.
pub struct DrawState {
    pub view_screen: String,
    pub coordinate: Coordinate,
    pub gps_color_pair: ColorPair,
    pub gps_top_color_pair: ColorPair,
    pub color_pair: ColorPair,
    pub top_color_pair: ColorPair,
}

/// A captured text together with the hook that drew it.
#[derive(Debug)]
#[allow(non_camel_case_types)]
pub enum TranslationInput {
    addst { content: String },
    addst_flag { content: String, flag: u32 },
    addcoloredst { markup: String },
    visual_addcoloredst { markup: String, coordinate: Coordinate },
    top_addst { top_content: String },
    markup_text_box { address: usize, markup: String },
    visual_text_block { content: String, coordinate: Coordinate, color_pair: ColorPair },
    dfhack { content: String, coordinate: Coordinate, color_pair: ColorPair, flag: u32 },
}

/// The text an input carries.
pub open spec fn input_original(i: &TranslationInput) -> Seq<char> {
    match i {
        TranslationInput::addst { content } => content@,
        TranslationInput::addst_flag { content, .. } => content@,
        TranslationInput::addcoloredst { markup } => markup@,
        TranslationInput::visual_addcoloredst { markup, .. } => markup@,
        TranslationInput::top_addst { top_content } => top_content@,
        TranslationInput::markup_text_box { markup, .. } => markup@,
        TranslationInput::visual_text_block { content, .. } => content@,
        TranslationInput::dfhack { content, .. } => content@,
    }
}

/// The color pair an input is keyed with.
pub open spec fn input_color_pair(i: &TranslationInput, state: &DrawState) -> Option<ColorPair> {
    match i {
        TranslationInput::addst { .. } => Some(state.gps_color_pair),
        TranslationInput::addst_flag { .. } => Some(state.gps_color_pair),
        TranslationInput::top_addst { .. } => Some(state.gps_top_color_pair),
        TranslationInput::addcoloredst { .. } => None,
        TranslationInput::visual_addcoloredst { .. } => None,
        TranslationInput::markup_text_box { .. } => None,
        TranslationInput::visual_text_block { color_pair, .. } => Some(*color_pair),
        TranslationInput::dfhack { color_pair, .. } => Some(*color_pair),
    }
}

/// The flag an input is keyed with.
pub open spec fn input_flag(i: &TranslationInput) -> Option<u32> {
    match i {
        TranslationInput::addst_flag { flag, .. } => Some(*flag),
        TranslationInput::dfhack { flag, .. } => Some(*flag),
        _ => None,
    }
}

/// A color as `{:?}` writes it: `Color { r: .., g: .., b: .. }`.
pub open spec fn color_debug(c: Color) -> Seq<char> {
    "Color { r: "@ + crate::realtime::decimal(c.r as nat) + ", g: "@ + crate::realtime::decimal(
        c.g as nat,
    ) + ", b: "@ + crate::realtime::decimal(c.b as nat) + " }"@
}

/// An optional color pair as `{:?}` writes it.
pub open spec fn color_pair_debug(p: Option<ColorPair>) -> Seq<char> {
    match p {
        Some(p) => "Some(ColorPair { foreground: "@ + color_debug(p.foreground) + ", background: "@
            + color_debug(p.background) + " })"@,
        None => "None"@,
    }
}

/// An optional flag as `{:?}` writes it.
pub open spec fn flag_debug(f: Option<u32>) -> Seq<char> {
    match f {
        Some(n) => "Some("@ + crate::realtime::decimal(n as nat) + ")"@,
        None => "None"@,
    }
}

/// The text hashed into a key: `{original:?}/{viewscreen:?}/{color_pair:?}/{flag:?}`.
pub open spec fn hash_input_text(
    original: Seq<char>,
    viewscreen: Seq<char>,
    color_pair: Option<ColorPair>,
    flag: Option<u32>,
) -> Seq<char> {
    debug_text(original) + "/"@ + debug_text(viewscreen) + "/"@ + color_pair_debug(color_pair) + "/"@
        + flag_debug(flag)
}

/// The name of the result of `{:?}` formatting of a string.
pub uninterp spec fn debug_text(s: Seq<char>) -> Seq<char>;

/// The name of the SHA-256 digest of a byte sequence.
pub uninterp spec fn sha256_of(data: Seq<u8>) -> Seq<u8>;

/// The lower-case hexadecimal digit of `d` (0 to 15).
pub open spec fn hex_digit(d: int) -> char {
    if d < 10 {
        (('0' as int) + d) as char
    } else {
        (('a' as int) + d - 10) as char
    }
}

/// Lowercase hexadecimal digits of the bytes, two per byte.
pub open spec fn hex_lower(b: Seq<u8>) -> Seq<char>
    decreases b.len(),
{
    if b.len() == 0 {
        Seq::empty()
    } else {
        hex_lower(b.drop_last()) + seq![hex_digit(b.last() as int / 16), hex_digit(b.last() as int % 16)]
    }
}

/// Appends a color as `{:?}` writes it.
fn push_color_debug(out: &mut String, c: Color)
    ensures
        final(out)@ == old(out)@ + color_debug(c),
{
    push_str(out, "Color { r: ");
    crate::realtime::push_decimal(out, c.r as usize);
    push_str(out, ", g: ");
    crate::realtime::push_decimal(out, c.g as usize);
    push_str(out, ", b: ");
    crate::realtime::push_decimal(out, c.b as usize);
    push_str(out, " }");
    assert(final(out)@ =~= old(out)@ + color_debug(c));
}

/// The text hashed into a key: `{original:?}/{viewscreen:?}/{color_pair:?}/{flag:?}`.
pub fn hash_input(original: &str, viewscreen: &str, color_pair: Option<ColorPair>, flag: Option<u32>) -> (r:
    String)
    ensures
        r@ == hash_input_text(original@, viewscreen@, color_pair, flag),
{
    let mut out = format_debug(original);
    push_str(&mut out, "/");
    let v = format_debug(viewscreen);
    push_str(&mut out, v.as_str());
    push_str(&mut out, "/");
    let ghost before_pair = out@;
    match color_pair {
        Some(p) => {
            push_str(&mut out, "Some(ColorPair { foreground: ");
            push_color_debug(&mut out, p.foreground);
            push_str(&mut out, ", background: ");
            push_color_debug(&mut out, p.background);
            push_str(&mut out, " })");
        },
        None => push_str(&mut out, "None"),
    }
    assert(out@ =~= before_pair + color_pair_debug(color_pair));
    push_str(&mut out, "/");
    let ghost before_flag = out@;
    match flag {
        Some(n) => {
            push_str(&mut out, "Some(");
            crate::realtime::push_decimal(&mut out, n as usize);
            push_str(&mut out, ")");
        },
        None => push_str(&mut out, "None"),
    }
    assert(out@ =~= before_flag + flag_debug(flag));
    assert(out@ =~= hash_input_text(original@, viewscreen@, color_pair, flag));
    out
}

/// Formats `{s:?}`, the quoted and escaped form of a string.
#[verifier::external_body]
pub(crate) fn format_debug(s: &str) -> (r: String)
    ensures
        r@ == debug_text(s@),
{
    format!("{s:?}")
}

/// `sha2::Sha256::digest`: the 32-byte SHA-256 digest.
#[verifier::external_body]
fn sha256_digest(data: &[u8]) -> (r: Vec<u8>)
    ensures
        r@ == sha256_of(data@),
        r@.len() == 32,
{
    sha2::Sha256::digest(data).to_vec()
}

/// `base16ct::HexDisplay` formatted with `{:064x}`: two lowercase hex digits per
/// byte, high digit first (the width is not applied by `HexDisplay`; 32 bytes give 64
/// digits).
#[verifier::external_body]
fn hex_display_064(bytes: &[u8]) -> (r: String)
    requires
        bytes@.len() == 32,
    ensures
        r@ == hex_lower(bytes@),
{
    format!("{:064x}", base16ct::HexDisplay(bytes))
}

/// The cache key of an input: its hook, its quoted text, and the SHA-256 of
/// its text, view screen, color pair and flag.
pub open spec fn input_key(i: &TranslationInput, state: &DrawState) -> Seq<char> {
    let h = hash_input_text(input_original(i), state.view_screen@, input_color_pair(i, state), input_flag(i));
    input_function(i)@ + seq![':'] + debug_text(input_original(i)) + seq![':'] + hex_lower(
        sha256_of(encode_utf8_chars(h)),
    )
}

/// The UTF-8 encoding of `s`.
pub open spec fn encode_utf8_chars(s: Seq<char>) -> Seq<u8> {
    vstd::utf8::encode_utf8(s)
}

/// The name of the game function a translation input comes from.
pub open spec fn input_function(i: &TranslationInput) -> &'static str {
    match i {
        TranslationInput::addst { .. } => "addst",
        TranslationInput::addst_flag { .. } => "addst_flag",
        TranslationInput::addcoloredst { .. } => "addcoloredst",
        TranslationInput::visual_addcoloredst { .. } => "addcoloredst",
        TranslationInput::top_addst { .. } => "top_addst",
        TranslationInput::markup_text_box { .. } => "markup_text_box",
        TranslationInput::visual_text_block { .. } => "visual_text_block",
        TranslationInput::dfhack { .. } => "dfhack",
    }
}

impl TranslationInput {
    /// The name of the hook the input came from.
    pub fn function(&self) -> (r: &'static str)
        ensures
            r == input_function(self),
    {
        match self {
            TranslationInput::addst { .. } => "addst",
            TranslationInput::addst_flag { .. } => "addst_flag",
            TranslationInput::addcoloredst { .. } => "addcoloredst",
            TranslationInput::visual_addcoloredst { .. } => "addcoloredst",
            TranslationInput::top_addst { .. } => "top_addst",
            TranslationInput::markup_text_box { .. } => "markup_text_box",
            TranslationInput::visual_text_block { .. } => "visual_text_block",
            TranslationInput::dfhack { .. } => "dfhack",
        }
    }

    /// The captured text.
    pub fn original(&self) -> (r: &str)
        ensures
            r@ == input_original(self),
    {
        match self {
            TranslationInput::addst { content } => content.as_str(),
            TranslationInput::addst_flag { content, .. } => content.as_str(),
            TranslationInput::addcoloredst { markup } => markup.as_str(),
            TranslationInput::visual_addcoloredst { markup, .. } => markup.as_str(),
            TranslationInput::top_addst { top_content } => top_content.as_str(),
            TranslationInput::markup_text_box { markup, .. } => markup.as_str(),
            TranslationInput::visual_text_block { content, .. } => content.as_str(),
            TranslationInput::dfhack { content, .. } => content.as_str(),
        }
    }

    /// The current view screen.
    pub fn view_screen(&self, state: &DrawState) -> (r: String)
        ensures
            r == state.view_screen,
    {
        state.view_screen.clone()
    }

    /// The color pair of the input: the graphics state's for the plain hooks,
    /// the input's own for visual blocks and DFHack, none for markup.
    pub fn color_pair(&self, state: &DrawState) -> (r: Option<ColorPair>)
        ensures
            r == input_color_pair(self, state),
    {
        match self {
            TranslationInput::addst { .. } => Some(state.gps_color_pair),
            TranslationInput::addst_flag { .. } => Some(state.gps_color_pair),
            TranslationInput::top_addst { .. } => Some(state.gps_top_color_pair),
            TranslationInput::addcoloredst { .. } => None,
            TranslationInput::visual_addcoloredst { .. } => None,
            TranslationInput::markup_text_box { .. } => None,
            TranslationInput::visual_text_block { color_pair, .. } => Some(*color_pair),
            TranslationInput::dfhack { color_pair, .. } => Some(*color_pair),
        }
    }

    /// The flag of the input, for `addst_flag` and DFHack.
    pub fn flag(&self) -> (r: Option<u32>)
        ensures
            r == input_flag(self),
    {
        match self {
            TranslationInput::addst_flag { flag, .. } => Some(*flag),
            TranslationInput::dfhack { flag, .. } => Some(*flag),
            _ => None,
        }
    }

    /// The key identifying the input's text and where it is drawn.
    pub fn key(&self, state: &DrawState) -> (r: String)
        ensures
            r@ == input_key(self, state),
    {
        let function = self.function();
        let original = self.original();
        let viewscreen = self.view_screen(state);
        let color_pair = self.color_pair(state);
        let flag = self.flag();
        let hash_input = hash_input(original, viewscreen.as_str(), color_pair, flag);
        let digest = sha256_digest(hash_input.as_str().as_bytes());
        let hex = hex_display_064(digest.as_slice());
        let mut key = String::new();
        push_str(&mut key, function);
        key.push(':');
        let quoted = format_debug(original);
        push_str(&mut key, quoted.as_str());
        key.push(':');
        push_str(&mut key, hex.as_str());
        assert(key@ =~= input_key(self, state));
        key
    }
}

/// A captured text with the state in which it was drawn.
#[derive(Debug, Clone, PartialEq, Eq, Hash)]
#[allow(non_camel_case_types)]
pub enum TranslationContext {
    addst { content: String, viewscreen: String, coordinate: Coordinate, color_pair: ColorPair },
    addst_flag {
        content: String,
        viewscreen: String,
        coordinate: Coordinate,
        color_pair: ColorPair,
        flag: u32,
    },
    addcoloredst { markup: String, viewscreen: String, coordinate: Coordinate },
    top_addst {
        top_content: String,
        viewscreen: String,
        coordinate: Coordinate,
        color_pair: ColorPair,
    },
    markup_text_box { address: usize, markup: String, viewscreen: String, coordinate: Coordinate },
    visual_text_block {
        content: String,
        viewscreen: String,
        coordinate: Coordinate,
        color_pair: ColorPair,
    },
    dfhack {
        content: String,
        viewscreen: String,
        coordinate: Coordinate,
        color_pair: ColorPair,
        flag: u32,
    },
}

/// The original text a translation context holds.
pub open spec fn context_original(c: &TranslationContext) -> Seq<char> {
    match c {
        TranslationContext::addst { content, .. } => content@,
        TranslationContext::addst_flag { content, .. } => content@,
        TranslationContext::dfhack { content, .. } => content@,
        TranslationContext::addcoloredst { markup, .. } => markup@,
        TranslationContext::markup_text_box { markup, .. } => markup@,
        TranslationContext::visual_text_block { content, .. } => content@,
        TranslationContext::top_addst { top_content, .. } => top_content@,
    }
}

/// The flag a translation context holds, if any.
pub open spec fn context_flag(c: &TranslationContext) -> Option<u32> {
    match c {
        TranslationContext::addst_flag { flag, .. } => Some(*flag),
        TranslationContext::dfhack { flag, .. } => Some(*flag),
        _ => None,
    }
}

/// The view screen a translation context was drawn on.
pub open spec fn context_view_screen(c: &TranslationContext) -> String {
    match c {
        TranslationContext::addst { viewscreen, .. } => *viewscreen,
        TranslationContext::addst_flag { viewscreen, .. } => *viewscreen,
        TranslationContext::addcoloredst { viewscreen, .. } => *viewscreen,
        TranslationContext::top_addst { viewscreen, .. } => *viewscreen,
        TranslationContext::markup_text_box { viewscreen, .. } => *viewscreen,
        TranslationContext::visual_text_block { viewscreen, .. } => *viewscreen,
        TranslationContext::dfhack { viewscreen, .. } => *viewscreen,
    }
}

/// The coordinate a translation context was drawn at.
pub open spec fn context_coordinate(c: &TranslationContext) -> Coordinate {
    match c {
        TranslationContext::addst { coordinate, .. } => *coordinate,
        TranslationContext::addst_flag { coordinate, .. } => *coordinate,
        TranslationContext::addcoloredst { coordinate, .. } => *coordinate,
        TranslationContext::top_addst { coordinate, .. } => *coordinate,
        TranslationContext::markup_text_box { coordinate, .. } => *coordinate,
        TranslationContext::visual_text_block { coordinate, .. } => *coordinate,
        TranslationContext::dfhack { coordinate, .. } => *coordinate,
    }
}

/// The colors a translation context holds, if any.
pub open spec fn context_color_pair(c: &TranslationContext) -> Option<ColorPair> {
    match c {
        TranslationContext::addst { color_pair, .. } => Some(*color_pair),
        TranslationContext::addst_flag { color_pair, .. } => Some(*color_pair),
        TranslationContext::top_addst { color_pair, .. } => Some(*color_pair),
        TranslationContext::visual_text_block { color_pair, .. } => Some(*color_pair),
        TranslationContext::dfhack { color_pair, .. } => Some(*color_pair),
        TranslationContext::addcoloredst { .. } => None,
        TranslationContext::markup_text_box { .. } => None,
    }
}

/// Whether a translation context holds markup.
pub open spec fn context_is_markup(c: &TranslationContext) -> bool {
    c is addcoloredst || c is markup_text_box
}

/// The top-of-text bit of an `addst_flag` flag.
pub const TOP_OF_TEXT: u32 = 8;

impl TranslationContext {
    /// The captured text.
    pub fn original(&self) -> (r: &str)
        ensures
            r@ == context_original(self),
    {
        match self {
            TranslationContext::addst { content, .. } => content.as_str(),
            TranslationContext::addst_flag { content, .. } => content.as_str(),
            TranslationContext::dfhack { content, .. } => content.as_str(),
            TranslationContext::addcoloredst { markup, .. } => markup.as_str(),
            TranslationContext::markup_text_box { markup, .. } => markup.as_str(),
            TranslationContext::visual_text_block { content, .. } => content.as_str(),
            TranslationContext::top_addst { top_content, .. } => top_content.as_str(),
        }
    }

    /// The flag, for `addst_flag` and DFHack contexts.
    pub fn flag(&self) -> (r: Option<u32>)
        ensures
            r == context_flag(self),
    {
        match self {
            TranslationContext::addst_flag { flag, .. } => Some(*flag),
            TranslationContext::dfhack { flag, .. } => Some(*flag),
            _ => None,
        }
    }

    /// Whether the flag marks the top half of a double-height text.
    pub fn has_double_line_height(&self) -> (r: bool)
        ensures
            r == (context_flag(self) is Some && context_flag(self)->0 & TOP_OF_TEXT != 0),
    {
        if let Some(flag) = self.flag() {
            if flag & TOP_OF_TEXT != 0 {
                return true;
            }
        }
        false
    }
}

/// Whether a texture position and its flag leave the cell's colors as they are.
pub const SCREENTEXPOS_FLAG_GRAYSCALE: u32 = 1;

pub const SCREENTEXPOS_FLAG_ADDCOLOR: u32 = 2;

/// The colors of a cell as the game shows them: a textured cell that is
/// neither grayscale nor color-added is drawn white on black.
pub open spec fn cell_color_pair(base: ColorPair, texpos: i64, flag: u32) -> ColorPair {
    if texpos != 0 && flag & SCREENTEXPOS_FLAG_GRAYSCALE == 0 && flag & SCREENTEXPOS_FLAG_ADDCOLOR
        == 0 {
        ColorPair {
            foreground: Color { r: 255, g: 255, b: 255 },
            background: Color { r: 0, g: 0, b: 0 },
        }
    } else {
        base
    }
}

/// The colors of the cell under the cursor, from the graphics state's colors
/// and the cell's texture position and flag.
pub fn current_color_pair(base: ColorPair, texpos: i64, flag: u32) -> (p: ColorPair)
    ensures
        p == cell_color_pair(base, texpos, flag),
{
    let mut color_pair = base;
    if texpos != 0 {
        if flag & SCREENTEXPOS_FLAG_GRAYSCALE != 0 {
        } else if flag & SCREENTEXPOS_FLAG_ADDCOLOR != 0 {
        } else {
            color_pair.foreground = Color { r: 255, g: 255, b: 255 };
            color_pair.background = Color { r: 0, g: 0, b: 0 };
        }
    }
    color_pair
}

/// The context an input is recorded with in a request.
pub open spec fn context_of(i: TranslationInput, state: &DrawState) -> TranslationContext {
    match i {
        TranslationInput::addst { content } => TranslationContext::addst {
            content,
            viewscreen: state.view_screen,
            coordinate: state.coordinate,
            color_pair: state.color_pair,
        },
        TranslationInput::addst_flag { content, flag } => TranslationContext::addst_flag {
            content,
            viewscreen: state.view_screen,
            coordinate: state.coordinate,
            color_pair: state.color_pair,
            flag,
        },
        TranslationInput::addcoloredst { markup } => TranslationContext::addcoloredst {
            markup,
            viewscreen: state.view_screen,
            coordinate: state.coordinate,
        },
        TranslationInput::visual_addcoloredst { markup, coordinate } =>
            TranslationContext::addcoloredst { markup, viewscreen: state.view_screen, coordinate },
        TranslationInput::top_addst { top_content } => TranslationContext::top_addst {
            top_content,
            viewscreen: state.view_screen,
            coordinate: state.coordinate,
            color_pair: state.top_color_pair,
        },
        TranslationInput::markup_text_box { address, markup } =>
            TranslationContext::markup_text_box {
            address,
            markup,
            viewscreen: state.view_screen,
            coordinate: state.coordinate,
        },
        TranslationInput::visual_text_block { content, coordinate, color_pair } =>
            TranslationContext::visual_text_block {
            content,
            viewscreen: state.view_screen,
            coordinate,
            color_pair,
        },
        TranslationInput::dfhack { content, coordinate, color_pair, flag } =>
            TranslationContext::dfhack {
            content,
            viewscreen: state.view_screen,
            coordinate,
            color_pair,
            flag,
        },
    }
}

/// A text to translate: its key and its context.
#[derive(Debug, Clone, PartialEq, Eq, Hash)]
pub struct TranslationRequest {
    key: String,
    context: TranslationContext,
}

impl TranslationRequest {
    /// The key of the request.
    pub closed spec fn spec_key(&self) -> Seq<char> {
        self.key@
    }

    /// The context of the request.
    pub closed spec fn spec_context(&self) -> TranslationContext {
        self.context
    }

    /// The request for an input drawn in `state`.
    pub fn new(input: TranslationInput, state: &DrawState) -> (r: TranslationRequest)
        ensures
            r.spec_key() == input_key(&input, state),
            r.spec_context() == context_of(input, state),
    {
        let key = input.key(state);
        let context = match input {
            TranslationInput::addst { content } => TranslationContext::addst {
                content,
                viewscreen: state.view_screen.clone(),
                coordinate: state.coordinate,
                color_pair: state.color_pair,
            },
            TranslationInput::addst_flag { content, flag } => TranslationContext::addst_flag {
                content,
                viewscreen: state.view_screen.clone(),
                coordinate: state.coordinate,
                color_pair: state.color_pair,
                flag,
            },
            TranslationInput::addcoloredst { markup } => TranslationContext::addcoloredst {
                markup,
                viewscreen: state.view_screen.clone(),
                coordinate: state.coordinate,
            },
            TranslationInput::visual_addcoloredst { markup, coordinate } =>
                TranslationContext::addcoloredst {
                markup,
                viewscreen: state.view_screen.clone(),
                coordinate,
            },
            TranslationInput::top_addst { top_content } => TranslationContext::top_addst {
                top_content,
                viewscreen: state.view_screen.clone(),
                coordinate: state.coordinate,
                color_pair: state.top_color_pair,
            },
            TranslationInput::markup_text_box { address, markup } =>
                TranslationContext::markup_text_box {
                address,
                markup,
                viewscreen: state.view_screen.clone(),
                coordinate: state.coordinate,
            },
            TranslationInput::visual_text_block { content, coordinate, color_pair } =>
                TranslationContext::visual_text_block {
                content,
                viewscreen: state.view_screen.clone(),
                coordinate,
                color_pair,
            },
            TranslationInput::dfhack { content, coordinate, color_pair, flag } =>
                TranslationContext::dfhack {
                content,
                viewscreen: state.view_screen.clone(),
                coordinate,
                color_pair,
                flag,
            },
        };
        TranslationRequest { key, context }
    }

    /// The key of the request.
    pub fn key(&self) -> (r: &str)
        ensures
            r@ == self.spec_key(),
    {
        self.key.as_str()
    }

    /// The context of the request.
    pub fn context(&self) -> (r: &TranslationContext)
        ensures
            *r == self.spec_context(),
    {
        &self.context
    }

    /// The view screen the text was drawn on.
    pub fn view_screen(&self) -> (r: String)
        ensures
            r == context_view_screen(&self.spec_context()),
    {
        match &self.context {
            TranslationContext::addst { viewscreen, .. } => viewscreen.clone(),
            TranslationContext::addst_flag { viewscreen, .. } => viewscreen.clone(),
            TranslationContext::addcoloredst { viewscreen, .. } => viewscreen.clone(),
            TranslationContext::top_addst { viewscreen, .. } => viewscreen.clone(),
            TranslationContext::markup_text_box { viewscreen, .. } => viewscreen.clone(),
            TranslationContext::visual_text_block { viewscreen, .. } => viewscreen.clone(),
            TranslationContext::dfhack { viewscreen, .. } => viewscreen.clone(),
        }
    }

    /// Where the text was drawn.
    pub fn coordinate(&self) -> (r: Coordinate)
        ensures
            r == context_coordinate(&self.spec_context()),
    {
        match &self.context {
            TranslationContext::addst { coordinate, .. } => *coordinate,
            TranslationContext::addst_flag { coordinate, .. } => *coordinate,
            TranslationContext::addcoloredst { coordinate, .. } => *coordinate,
            TranslationContext::top_addst { coordinate, .. } => *coordinate,
            TranslationContext::markup_text_box { coordinate, .. } => *coordinate,
            TranslationContext::visual_text_block { coordinate, .. } => *coordinate,
            TranslationContext::dfhack { coordinate, .. } => *coordinate,
        }
    }

    /// The colors of the text, except for markup.
    pub fn color_pair(&self) -> (r: Option<ColorPair>)
        ensures
            r == context_color_pair(&self.spec_context()),
    {
        match &self.context {
            TranslationContext::addst { color_pair, .. } => Some(*color_pair),
            TranslationContext::addst_flag { color_pair, .. } => Some(*color_pair),
            TranslationContext::top_addst { color_pair, .. } => Some(*color_pair),
            TranslationContext::visual_text_block { color_pair, .. } => Some(*color_pair),
            TranslationContext::dfhack { color_pair, .. } => Some(*color_pair),
            TranslationContext::addcoloredst { .. } => None,
            TranslationContext::markup_text_box { .. } => None,
        }
    }

    /// Whether the text is color markup rather than plain text.
    pub fn is_markup(&self) -> (r: bool)
        ensures
            r == context_is_markup(&self.spec_context()),
    {
        match &self.context {
            TranslationContext::addcoloredst { .. } => true,
            TranslationContext::markup_text_box { .. } => true,
            _ => false,
        }
    }

    /// The captured text.
    pub fn original(&self) -> (r: &str)
        ensures
            r@ == context_original(&self.spec_context()),
    {
        self.context.original()
    }
}

/// How a text is aligned in its block.
#[derive(Debug, Clone, Copy, PartialEq, Eq, Structural)]
pub enum TextAlignment {
    Left,
    Center,
    Right,
}

impl Default for TextAlignment {
    fn default() -> (a: TextAlignment)
        ensures
            a == TextAlignment::Left,
    {
        TextAlignment::Left
    }
}

/// A translated text and its alignment.
#[derive(Debug, Clone)]
pub struct TranslationResponse {
    pub translated: String,
    pub alignment: TextAlignment,
}

/// A visual text block is keyed by its complete text, colors and view screen alone: where
/// it stands and what the cursor state was do not change its key, so the same sentence
/// finds its translation wherever its fragments were drawn.
pub proof fn lemma_visual_key_ignores_position(
    content: String,
    c1: Coordinate,
    c2: Coordinate,
    color_pair: ColorPair,
    s1: &DrawState,
    s2: &DrawState,
)
    requires
        s1.view_screen@ == s2.view_screen@,
    ensures
        input_key(&TranslationInput::visual_text_block { content, coordinate: c1, color_pair }, s1) == input_key(
            &TranslationInput::visual_text_block { content, coordinate: c2, color_pair },
            s2,
        ),
{
}

} // verus!
