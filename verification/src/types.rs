//! Plain screen and color types of the game interface.
use vstd::prelude::*;

verus! {

/// A tile position on the game screen.
#[derive(Debug, Default, Clone, Copy, PartialEq, Eq, Structural, Hash, PartialOrd, Ord)]
pub struct Coordinate {
    pub column: i32,
    pub row: i32,
}

/// `addst_flag` flag value of a text's top half.
pub const SCREENTEXPOS_TOP_OF_TEXT_SFLAG: u32 = 8;

/// `addst_flag` flag value of a text's bottom half.
pub const SCREENTEXPOS_BOTTOM_OF_TEXT_SFLAG: u32 = 16;

/// A width and a height, in tiles or pixels.
#[derive(Debug, Default, Clone, Copy, PartialEq, Eq, Structural)]
pub struct Dimensions {
    pub width: i32,
    pub height: i32,
}

impl Coordinate {
    /// The byte offset of this tile's cell in a column-major screen buffer of
    /// `dims`, eight bytes per cell: the column times the height, plus the row, each
    /// taken as a `usize`, times eight (a negative value wraps as `as usize` does).
    pub fn offset(&self, dims: Dimensions) -> (r: usize)
        requires
            ((self.column as usize) * (dims.height as usize) + (self.row as usize)) * 8 <= usize::MAX,
        ensures
            r == ((self.column as usize) * (dims.height as usize) + (self.row as usize)) * 8,
    {
        let c = self.column as usize;
        let h = dims.height as usize;
        let w = self.row as usize;
        assert(0 <= c * h) by (nonlinear_arith)
            requires
                c >= 0,
                h >= 0,
        ;
        (c * h + w) * 8
    }
}

/// An RGB color.
#[derive(Debug, Default, Clone, Copy, PartialEq, Eq, Structural, Hash)]
pub struct Color {
    pub r: u8,
    pub g: u8,
    pub b: u8,
}

/// A foreground and a background color.
#[derive(Debug, Default, Clone, Copy, PartialEq, Eq, Structural, Hash)]
pub struct ColorPair {
    pub foreground: Color,
    pub background: Color,
}

/// Black, the color the game treats as no background.
pub open spec fn black() -> Color {
    Color { r: 0, g: 0, b: 0 }
}

/// Index into the 16-color palette for a foreground `fg`, brightened by 8 when `bright`,
/// clamped to the palette.
pub open spec fn palette_index(c: int) -> int {
    if c < 0 {
        0
    } else if c > 15 {
        15
    } else {
        c
    }
}

impl Color {
    /// Black.
    pub fn black() -> (c: Color)
        ensures
            c == black(),
    {
        Color { r: 0, g: 0, b: 0 }
    }
}

impl ColorPair {
    /// A pair with the given foreground on a black background.
    pub fn new_foreground(foreground: Color) -> (p: ColorPair)
        ensures
            p.foreground == foreground,
            p.background == black(),
    {
        ColorPair { foreground, background: Color::black() }
    }

    /// The pair for a color of the old 16-color scheme: the foreground index
    /// is raised by 8 when `bright`, and both indices are clamped to `0..=15`
    /// of `palette`.
    pub fn from_old_16_colors(fg: i8, bg: i8, bright: bool, palette: &[Color; 16]) -> (p: ColorPair)
        requires
            !bright || fg <= 119,
        ensures
            p.foreground == palette@[palette_index(fg + if bright { 8int } else { 0int })],
            p.background == palette@[palette_index(bg as int)],
    {
        let fg = fg + if bright {
            8
        } else {
            0
        };
        let fg: usize = if fg < 0 {
            0
        } else if fg > 15 {
            15
        } else {
            fg as usize
        };
        let bg: usize = if bg < 0 {
            0
        } else if bg > 15 {
            15
        } else {
            bg as usize
        };
        ColorPair { foreground: palette[fg], background: palette[bg] }
    }

    /// The pair a DFHack pen draws with: negative indices count as 0 and the
    /// foreground is raised by 8 when the pen is bold.
    pub fn from_pen(pen: &DFHackPen, palette: &[Color; 16]) -> (p: ColorPair)
        requires
            (if pen.fg < 0 { 0int } else { pen.fg as int }) + (if pen.bold { 8int } else { 0int })
                < 16,
            pen.bg < 16,
        ensures
            p.foreground == palette@[(if pen.fg < 0 { 0int } else { pen.fg as int }) + (if pen.bold {
                8int
            } else {
                0int
            })],
            p.background == palette@[if pen.bg < 0 { 0int } else { pen.bg as int }],
    {
        let fg: i8 = if pen.fg < 0 {
            0
        } else {
            pen.fg
        };
        let bg: i8 = if pen.bg < 0 {
            0
        } else {
            pen.bg
        };
        let fg = (fg + if pen.bold {
            8
        } else {
            0
        }) as usize;
        ColorPair { foreground: palette[fg], background: palette[bg as usize] }
    }

    /// The pair the game's current drawing state denotes: the old 16-color
    /// scheme when the state asks for it, else the explicit RGB colors.
    pub fn from_screen_colors(info: &ScreenColors) -> (p: ColorPair)
        requires
            !info.use_old_16_colors || !info.screenbright || info.screenf <= 119,
        ensures
            info.use_old_16_colors ==> p.foreground == info.uccolor@[palette_index(
                info.screenf + if info.screenbright { 8int } else { 0int },
            )] && p.background == info.uccolor@[palette_index(info.screenb as int)],
            !info.use_old_16_colors ==> p == (ColorPair {
                foreground: Color {
                    r: info.screen_color_r,
                    g: info.screen_color_g,
                    b: info.screen_color_b,
                },
                background: Color {
                    r: info.screen_color_br,
                    g: info.screen_color_bg,
                    b: info.screen_color_bb,
                },
            }),
    {
        if info.use_old_16_colors {
            ColorPair::from_old_16_colors(info.screenf, info.screenb, info.screenbright, &info.uccolor)
        } else {
            ColorPair {
                foreground: Color {
                    r: info.screen_color_r,
                    g: info.screen_color_g,
                    b: info.screen_color_b,
                },
                background: Color {
                    r: info.screen_color_br,
                    g: info.screen_color_bg,
                    b: info.screen_color_bb,
                },
            }
        }
    }
}

/// The integer part of the game's color state (its float curses palette stays
/// with the host).
pub struct ScreenColors {
    pub screenf: i8,
    pub screenb: i8,
    pub screenbright: bool,
    pub use_old_16_colors: bool,
    pub screen_color_r: u8,
    pub screen_color_g: u8,
    pub screen_color_b: u8,
    pub screen_color_br: u8,
    pub screen_color_bg: u8,
    pub screen_color_bb: u8,
    pub uccolor: [Color; 16],
}

/// Glyph sizes and offsets of the game renderer, in pixels.
#[derive(Debug, Clone, Copy)]
pub struct RendererInfo {
    pub dispx: i32,
    pub dispy: i32,
    pub dimx: i32,
    pub dimy: i32,
    pub dispx_z: i32,
    pub dispy_z: i32,
    pub origin_x: i32,
    pub origin_y: i32,
    pub cur_w: i32,
    pub cur_h: i32,
}

impl RendererInfo {
    /// The unzoomed glyph size.
    pub fn orig_size(&self) -> (d: Dimensions)
        ensures
            d == (Dimensions { width: self.dispx, height: self.dispy }),
    {
        Dimensions { width: self.dispx, height: self.dispy }
    }

    /// The zoomed glyph size.
    pub fn zoom_size(&self) -> (d: Dimensions)
        ensures
            d == (Dimensions { width: self.dispx_z, height: self.dispy_z }),
    {
        Dimensions { width: self.dispx_z, height: self.dispy_z }
    }

    /// The canvas size.
    pub fn canvas_size(&self) -> (d: Dimensions)
        ensures
            d == (Dimensions { width: self.cur_w, height: self.cur_h }),
    {
        Dimensions { width: self.cur_w, height: self.cur_h }
    }

    /// The pixel offset of the drawing origin.
    pub fn origin_offset(&self) -> (c: Coordinate)
        ensures
            c == (Coordinate { column: self.origin_x, row: self.origin_y }),
    {
        Coordinate { column: self.origin_x, row: self.origin_y }
    }
}

/// Addresses of one screen layer's buffers.
#[derive(Debug, Clone, Copy, PartialEq, Eq, Structural)]
pub struct Screen {
    pub screen: usize,
    pub texpos: usize,
    pub texpos_lower: usize,
    pub texpos_anchored: usize,
    pub texpos_anchored_x: usize,
    pub texpos_anchored_y: usize,
    pub texpos_flag: usize,
}

/// Addresses of the lower and upper screen layers' buffers.
#[derive(Debug, Clone, Copy)]
pub struct ScreenInfo {
    pub screen: usize,
    pub screentexpos: usize,
    pub screentexpos_lower: usize,
    pub screentexpos_anchored: usize,
    pub screentexpos_anchored_x: usize,
    pub screentexpos_anchored_y: usize,
    pub screentexpos_flag: usize,
    pub screen_top: usize,
    pub screentexpos_top: usize,
    pub screentexpos_top_lower: usize,
    pub screentexpos_top_anchored: usize,
    pub screentexpos_top_anchored_x: usize,
    pub screentexpos_top_anchored_y: usize,
    pub screentexpos_top_flag: usize,
}

impl ScreenInfo {
    /// The lower layer's buffers.
    pub fn screen(&self) -> (s: Screen)
        ensures
            s == (Screen {
                screen: self.screen,
                texpos: self.screentexpos,
                texpos_lower: self.screentexpos_lower,
                texpos_anchored: self.screentexpos_anchored,
                texpos_anchored_x: self.screentexpos_anchored_x,
                texpos_anchored_y: self.screentexpos_anchored_y,
                texpos_flag: self.screentexpos_flag,
            }),
    {
        Screen {
            screen: self.screen,
            texpos: self.screentexpos,
            texpos_lower: self.screentexpos_lower,
            texpos_anchored: self.screentexpos_anchored,
            texpos_anchored_x: self.screentexpos_anchored_x,
            texpos_anchored_y: self.screentexpos_anchored_y,
            texpos_flag: self.screentexpos_flag,
        }
    }

    /// The upper layer's buffers.
    pub fn screen_top(&self) -> (s: Screen)
        ensures
            s == (Screen {
                screen: self.screen_top,
                texpos: self.screentexpos_top,
                texpos_lower: self.screentexpos_top_lower,
                texpos_anchored: self.screentexpos_top_anchored,
                texpos_anchored_x: self.screentexpos_top_anchored_x,
                texpos_anchored_y: self.screentexpos_top_anchored_y,
                texpos_flag: self.screentexpos_top_flag,
            }),
    {
        Screen {
            screen: self.screen_top,
            texpos: self.screentexpos_top,
            texpos_lower: self.screentexpos_top_lower,
            texpos_anchored: self.screentexpos_top_anchored,
            texpos_anchored_x: self.screentexpos_top_anchored_x,
            texpos_anchored_y: self.screentexpos_top_anchored_y,
            texpos_flag: self.screentexpos_top_flag,
        }
    }
}

/// A DFHack pen: a character and its colors.
#[derive(Debug, Clone, Copy)]
pub struct DFHackPen {
    pub ch: u8,
    pub fg: i8,
    pub bg: i8,
    pub bold: bool,
}

} // verus!
