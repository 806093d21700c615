//! Text blocks placed on the two screen layers, and the occupation marks that
//! tell translated text where it may draw.
use vstd::prelude::*;

use crate::text::{columns_for, glyph_fn_ok, row_text, text_width, widths_fit, TextBlock, TextBlockView};
use crate::translation::TextAlignment;
use crate::types::{Coordinate, Dimensions};

verus! {

/// The two screen layers.
#[derive(Debug, Clone, Copy, PartialEq, Eq, Structural)]
pub enum Layer {
    Upper,
    Lower,
}

/// The text blocks placed on each layer, with the id each got, and the next
/// id of each layer.
pub struct Screens {
    lower: Vec<(u16, Coordinate, TextBlock)>,
    upper: Vec<(u16, Coordinate, TextBlock)>,
    lower_id: u16,
    upper_id: u16,
}

/// A text block placed on a layer: its id, where it stands, and its view.
pub struct PlacedView {
    pub id: u16,
    pub coordinate: Coordinate,
    pub block: TextBlockView,
}

/// The views of the blocks placed on a layer.
pub open spec fn placed_views(v: Seq<(u16, Coordinate, TextBlock)>) -> Seq<PlacedView> {
    v.map_values(|e: (u16, Coordinate, TextBlock)| PlacedView { id: e.0, coordinate: e.1, block: e.2@ })
}

impl Screens {
    /// The blocks placed on a layer, in the order they were added.
    pub closed spec fn blocks(&self, layer: Layer) -> Seq<PlacedView> {
        match layer {
            Layer::Lower => placed_views(self.lower@),
            Layer::Upper => placed_views(self.upper@),
        }
    }

    /// The id the next block added to a layer will get.
    pub closed spec fn next_id(&self, layer: Layer) -> u16 {
        match layer {
            Layer::Lower => self.lower_id,
            Layer::Upper => self.upper_id,
        }
    }

    /// Empty layers whose ids start at 0.
    pub fn new() -> (s: Screens)
        ensures
            s.blocks(Layer::Lower).len() == 0,
            s.blocks(Layer::Upper).len() == 0,
            s.next_id(Layer::Lower) == 0,
            s.next_id(Layer::Upper) == 0,
    {
        Screens { lower: Vec::new(), upper: Vec::new(), lower_id: 0, upper_id: 0 }
    }

    /// Removes every block and restarts the ids at 0, then forgets the occupied tiles
    /// recorded on both layers.
    pub fn clear_screens(&mut self, occupation: &mut Occupation)
        ensures
            final(self).blocks(Layer::Lower).len() == 0,
            final(self).blocks(Layer::Upper).len() == 0,
            final(self).next_id(Layer::Lower) == 0,
            final(self).next_id(Layer::Upper) == 0,
            final(occupation).lower@.len() == 0,
            final(occupation).upper@.len() == 0,
    {
        self.lower_id = 0;
        self.upper_id = 0;
        self.lower.clear();
        self.upper.clear();
        occupation.lower.clear();
        occupation.upper.clear();
    }

    /// Places a block on a layer and returns the id it gets; ids count up and
    /// wrap around after `u16::MAX`.
    pub fn add_text_block_to_screens(
        &mut self,
        layer: Layer,
        coordinate: Coordinate,
        text_block: TextBlock,
    ) -> (id: u16)
        ensures
            id == old(self).next_id(layer),
            final(self).blocks(layer) == old(self).blocks(layer).push(
                PlacedView { id, coordinate, block: text_block@ },
            ),
            final(self).next_id(layer) == (if id == u16::MAX { 0 } else { (id + 1) as u16 }),
            forall|other: Layer| other != layer ==> final(self).blocks(other) == old(self).blocks(other)
                && final(self).next_id(other) == old(self).next_id(other),
    {
        let ghost bv = text_block@;
        match layer {
            Layer::Lower => {
                let id = self.lower_id;
                self.lower_id = if id == u16::MAX { 0 } else { id + 1 };
                self.lower.push((id, coordinate, text_block));
                assert(placed_views(self.lower@) =~= placed_views(old(self).lower@).push(
                    PlacedView { id, coordinate, block: bv },
                ));
                id
            },
            Layer::Upper => {
                let id = self.upper_id;
                self.upper_id = if id == u16::MAX { 0 } else { id + 1 };
                self.upper.push((id, coordinate, text_block));
                assert(placed_views(self.upper@) =~= placed_views(old(self).upper@).push(
                    PlacedView { id, coordinate, block: bv },
                ));
                id
            },
        }
    }

    /// Copies of the blocks placed on a layer, in placement order.
    pub fn get_text_blocks(&self, layer: Layer) -> (r: Vec<(u16, Coordinate, TextBlock)>)
        ensures
            placed_views(r@) == self.blocks(layer),
    {
        let src = match layer {
            Layer::Lower => &self.lower,
            Layer::Upper => &self.upper,
        };
        let mut out: Vec<(u16, Coordinate, TextBlock)> = Vec::new();
        let mut i: usize = 0;
        while i < src.len()
            invariant
                i <= src.len(),
                placed_views(src@) == self.blocks(layer),
                out.len() == i,
                forall|j: int|
                    0 <= j < i ==> (#[trigger] out@[j]).0 == src@[j].0 && out@[j].1 == src@[j].1
                        && out@[j].2@ == src@[j].2@,
            decreases src.len() - i,
        {
            let e = &src[i];
            out.push((e.0, e.1, e.2.duplicate()));
            i += 1;
        }
        assert(placed_views(out@) =~= placed_views(src@));
        out
    }
}

/// The ASCII85 alphabet starts at `!` and runs 85 consecutive characters.
pub const ASCII85_FIRST: u8 = 33;

/// The pair of cell tokens that marks a cell as occupied by the block with
/// `id`: an ASCII85 digit of `id % 85`, then `id / 85 + 1` truncated to a byte;
/// no id gives `(0, 0)`.
pub open spec fn screen_tokens(id: Option<u16>) -> (u8, u8) {
    match id {
        Some(id) => ((33 + id % 85) as u8, ((id / 85 + 1) % 256) as u8),
        None => (0, 0),
    }
}

/// The occupation tokens of an id.
pub fn id_to_screen_tokens(id: Option<u16>) -> (t: (u8, u8))
    ensures
        t == screen_tokens(id),
{
    match id {
        Some(id) => {
            let hi = ((id / 85 + 1) % 256) as u8;
            let lo = (id % 85) as u8 + ASCII85_FIRST;
            (lo, hi)
        },
        None => (0, 0),
    }
}

/// The cells of one screen layer: the first and last byte of each cell, which
/// hold occupation tokens, and each cell's texture position; cells are laid
/// out column after column.
pub struct CellLayer {
    pub tokens: Vec<(u8, u8)>,
    pub texpos: Vec<i64>,
}

/// The cells of both screen layers, for a screen of `dims` tiles.
pub struct ScreenCells {
    pub dims: Dimensions,
    pub lower: CellLayer,
    pub upper: CellLayer,
}

/// The index of a tile in a column-major layer of `height` rows.
pub open spec fn cell_index(column: int, row: int, height: int) -> int {
    column * height + row
}

/// The screen's dimensions are small enough, and each layer has one token and one texture position per tile.
pub open spec fn cells_wf(c: &ScreenCells) -> bool {
    &&& 0 <= c.dims.width
    &&& 0 <= c.dims.height
    &&& c.dims.width * c.dims.height <= 0x4000_0000
    &&& c.lower.tokens.len() == c.dims.width * c.dims.height
    &&& c.upper.tokens.len() == c.dims.width * c.dims.height
    &&& c.lower.texpos.len() == c.dims.width * c.dims.height
    &&& c.upper.texpos.len() == c.dims.width * c.dims.height
}

/// The tokens of a layer, one per tile, row by row.
pub open spec fn layer_tokens(c: &ScreenCells, layer: Layer) -> Seq<(u8, u8)> {
    match layer {
        Layer::Lower => c.lower.tokens@,
        Layer::Upper => c.upper.tokens@,
    }
}

proof fn lemma_cell_index_bounds(column: int, row: int, width: int, height: int)
    requires
        0 <= column < width,
        0 <= row < height,
    ensures
        0 <= cell_index(column, row, height) < width * height,
{
    assert(0 <= column * height) by (nonlinear_arith)
        requires
            0 <= column,
            0 <= height,
    ;
    assert(column * height + height <= width * height) by (nonlinear_arith)
        requires
            column + 1 <= width,
            0 <= height,
    ;
}

fn set_token(cells: &mut ScreenCells, layer: Layer, column: i32, row: i32, tokens: (u8, u8))
    requires
        cells_wf(old(cells)),
        0 <= column < old(cells).dims.width,
        0 <= row < old(cells).dims.height,
    ensures
        cells_wf(final(cells)),
        final(cells).dims == old(cells).dims,
        layer_tokens(final(cells), layer) == layer_tokens(old(cells), layer).update(
            cell_index(column as int, row as int, old(cells).dims.height as int),
            tokens,
        ),
        forall|other: Layer| other != layer ==> layer_tokens(final(cells), other) == layer_tokens(old(cells), other),
        final(cells).lower.texpos == old(cells).lower.texpos,
        final(cells).upper.texpos == old(cells).upper.texpos,
{
    proof {
        lemma_cell_index_bounds(column as int, row as int, cells.dims.width as int, cells.dims.height as int);
    }
    let idx = (column as i64 * cells.dims.height as i64 + row as i64) as usize;
    match layer {
        Layer::Lower => cells.lower.tokens.set(idx, tokens),
        Layer::Upper => cells.upper.tokens.set(idx, tokens),
    }
}

/// The tiles a pixel position falls in: the tile at its floor and the tile at
/// its ceiling, for tiles of `zoom` pixels drawn from `origin`.
pub open spec fn tile_corners(x: int, y: int, zoom: Dimensions, origin: Coordinate) -> (Coordinate, Coordinate) {
    let cx = x - origin.column;
    let cy = y - origin.row;
    (
        Coordinate { column: (cx / zoom.width as int) as i32, row: (cy / zoom.height as int) as i32 },
        Coordinate {
            column: ((cx + zoom.width - 1) / zoom.width as int) as i32,
            row: ((cy + zoom.height - 1) / zoom.height as int) as i32,
        },
    )
}

/// Pixel coordinates the tile arithmetic admits.
pub const PIXEL_BOUND: i32 = 0x0100_0000;

/// The tiles a pixel position falls in, rounding down and rounding up.
pub fn get_tile_coordinate(x: i32, y: i32, zoom: Dimensions, origin: Coordinate) -> (r: (
    Coordinate,
    Coordinate,
))
    requires
        zoom.width > 0,
        zoom.height > 0,
        -PIXEL_BOUND <= x <= PIXEL_BOUND,
        -PIXEL_BOUND <= y <= PIXEL_BOUND,
        -PIXEL_BOUND <= origin.column <= PIXEL_BOUND,
        -PIXEL_BOUND <= origin.row <= PIXEL_BOUND,
    ensures
        r == tile_corners(x as int, y as int, zoom, origin),
{
    let cx = x as i64 - origin.column as i64;
    let cy = y as i64 - origin.row as i64;
    let zw = zoom.width as i64;
    let zh = zoom.height as i64;
    let fx = floor_div(cx, zw);
    let fy = floor_div(cy, zh);
    let gx = floor_div(cx + zw - 1, zw);
    let gy = floor_div(cy + zh - 1, zh);
    (Coordinate { column: fx as i32, row: fy as i32 }, Coordinate { column: gx as i32, row: gy as i32 })
}

/// Division rounding toward negative infinity.
fn floor_div(a: i64, b: i64) -> (q: i64)
    requires
        0 < b <= 0x1_0000_0000,
        -0x1_0000_0000 <= a <= 0x1_0000_0000,
    ensures
        q == a / b,
{
    if a >= 0 {
        let q = ((a as u64) / (b as u64)) as i64;
        proof {
            vstd::arithmetic::div_mod::lemma_div_basics_5(a as int, b as int);
        }
        q
    } else {
        let n = (0 - a) as u64;
        let bu = b as u64;
        let qp = (n + bu - 1) / bu;
        proof {
            let m = (n + bu - 1) as int;
            let r = m % (bu as int);
            vstd::arithmetic::div_mod::lemma_fundamental_div_mod(m, bu as int);
            assert(0 <= r < bu);
            assert((-(qp as int)) * (b as int) == -((bu as int) * (qp as int))) by (nonlinear_arith)
                requires
                    bu as int == b as int,
            ;
            vstd::arithmetic::div_mod::lemma_fundamental_div_mod_converse(
                a as int,
                b as int,
                -(qp as int),
                (b - 1 - r) as int,
            );
            vstd::arithmetic::div_mod::lemma_div_basics_5(m, bu as int);
        }
        0 - (qp as i64)
    }
}

proof fn lemma_cell_index_injective(c1: int, r1: int, c2: int, r2: int, height: int)
    requires
        0 <= c1,
        0 <= c2,
        0 <= r1 < height,
        0 <= r2 < height,
        cell_index(c1, r1, height) == cell_index(c2, r2, height),
    ensures
        c1 == c2,
        r1 == r2,
{
    if c1 < c2 {
        assert(c1 * height + height <= c2 * height) by (nonlinear_arith)
            requires
                c1 + 1 <= c2,
                0 <= height,
        ;
    } else if c2 < c1 {
        assert(c2 * height + height <= c1 * height) by (nonlinear_arith)
            requires
                c2 + 1 <= c1,
                0 <= height,
        ;
    }
}

/// The occupation marks copied out of both layers before text is drawn.
pub struct Occupation {
    pub lower: Vec<(u8, u8)>,
    pub upper: Vec<(u8, u8)>,
}

impl Occupation {
    /// No marks recorded.
    pub fn new() -> (r: Self)
        ensures
            r.lower@.len() == 0,
            r.upper@.len() == 0,
    {
        Occupation { lower: Vec::new(), upper: Vec::new() }
    }

    /// The marks of the lower and the upper layer, to be changed in place.
    pub fn get_occupied_mut(&mut self) -> (r: (&mut Vec<(u8, u8)>, &mut Vec<(u8, u8)>))
        ensures
            *r.0 == old(self).lower,
            *r.1 == old(self).upper,
            *final(self) == (Occupation { lower: *final(r.0), upper: *final(r.1) }),
    {
        (&mut self.lower, &mut self.upper)
    }
}

/// Whether the tile at (`column`, `row`) is held by something other than the
/// block with `tokens`: a recorded mark that is neither markup's `z` nor the
/// block's own tokens.
pub open spec fn tile_taken(occ: Seq<(u8, u8)>, height: int, column: int, row: int, tokens: (u8, u8)) -> bool {
    let off = cell_index(column, row, height);
    0 <= off < occ.len() && !(occ[off].0 == 122 || occ[off] == tokens)
}

/// Whether a glyph drawn over the pixels `x1..x2` by `y1..y2` would cover a
/// tile held by something else.
pub open spec fn covers_taken_tile(
    occ: Seq<(u8, u8)>,
    height: int,
    tl: Coordinate,
    br: Coordinate,
    tokens: (u8, u8),
) -> bool {
    exists|column: int, row: int|
        tl.row <= row < br.row && tl.column <= column < br.column && #[trigger] tile_taken(
            occ,
            height,
            column,
            row,
            tokens,
        )
}

/// Whether any tile under the pixel rectangle `x1..x2` by `y1..y2` is held by
/// something other than the block `id` on `layer`.
pub fn is_occupied_tile(
    occupation: &Occupation,
    dims: Dimensions,
    zoom: Dimensions,
    origin: Coordinate,
    x1: i32,
    x2: i32,
    y1: i32,
    y2: i32,
    layer: &Layer,
    id: u16,
) -> (r: bool)
    requires
        zoom.width > 0,
        zoom.height > 0,
        0 <= dims.height,
        -PIXEL_BOUND <= x1 <= PIXEL_BOUND,
        -PIXEL_BOUND <= x2 <= PIXEL_BOUND,
        -PIXEL_BOUND <= y1 <= PIXEL_BOUND,
        -PIXEL_BOUND <= y2 <= PIXEL_BOUND,
        -PIXEL_BOUND <= origin.column <= PIXEL_BOUND,
        -PIXEL_BOUND <= origin.row <= PIXEL_BOUND,
        tile_corners(x1 as int, y1 as int, zoom, origin).0.column >= 0,
        tile_corners(x1 as int, y1 as int, zoom, origin).0.row >= 0,
    ensures
        r == covers_taken_tile(
            match *layer {
                Layer::Lower => occupation.lower@,
                Layer::Upper => occupation.upper@,
            },
            dims.height as int,
            tile_corners(x1 as int, y1 as int, zoom, origin).0,
            tile_corners(x2 as int, y2 as int, zoom, origin).1,
            screen_tokens(Some(id)),
        ),
{
    let occupied = match *layer {
        Layer::Lower => &occupation.lower,
        Layer::Upper => &occupation.upper,
    };
    let own_tokens = id_to_screen_tokens(Some(id));
    let ctl = get_tile_coordinate(x1, y1, zoom, origin).0;
    let cbr = get_tile_coordinate(x2, y2, zoom, origin).1;
    let h = dims.height as i64;
    let mut row = ctl.row;
    assert(occupied@ == match *layer {
        Layer::Lower => occupation.lower@,
        Layer::Upper => occupation.upper@,
    });
    while row < cbr.row
        invariant
            h == dims.height,
            occupied@ == match *layer {
                Layer::Lower => occupation.lower@,
                Layer::Upper => occupation.upper@,
            },
            ctl == tile_corners(x1 as int, y1 as int, zoom, origin).0,
            cbr == tile_corners(x2 as int, y2 as int, zoom, origin).1,
            own_tokens == screen_tokens(Some(id)),
            ctl.row <= row,
            ctl.row >= 0,
            ctl.column >= 0,
            0 <= h,
            forall|c: int, r: int|
                ctl.row <= r < row && ctl.column <= c < cbr.column ==> !tile_taken(
                    occupied@,
                    h as int,
                    c,
                    r,
                    own_tokens,
                ),
        decreases cbr.row - row,
    {
        let mut column = ctl.column;
        while column < cbr.column
            invariant
                h == dims.height,
                occupied@ == match *layer {
                    Layer::Lower => occupation.lower@,
                    Layer::Upper => occupation.upper@,
                },
                ctl == tile_corners(x1 as int, y1 as int, zoom, origin).0,
                cbr == tile_corners(x2 as int, y2 as int, zoom, origin).1,
                own_tokens == screen_tokens(Some(id)),
                ctl.row <= row < cbr.row,
                ctl.row >= 0,
                ctl.column <= column,
                ctl.column >= 0,
                0 <= h,
                forall|c: int, r: int|
                    ((ctl.row <= r < row && ctl.column <= c < cbr.column) || (r == row && ctl.column
                        <= c < column)) ==> !tile_taken(occupied@, h as int, c, r, own_tokens),
            decreases cbr.column - column,
        {
            assert(0 <= (column as int) * (h as int) <= 0x7fff_ffff * 0x7fff_ffff) by (nonlinear_arith)
                requires
                    0 <= column <= 0x7fff_ffff,
                    0 <= h <= 0x7fff_ffff,
            ;
            let offset = column as i64 * h + row as i64;
            if (offset as u64) < (occupied.len() as u64) {
                let tokens = occupied[offset as usize];
                if !(tokens.0 == 122 || (tokens.0 == own_tokens.0 && tokens.1 == own_tokens.1)) {
                    assert(tile_taken(occupied@, h as int, column as int, row as int, own_tokens));
                    assert(ctl.row <= row < cbr.row && ctl.column <= column < cbr.column);
                    assert(covers_taken_tile(occupied@, dims.height as int, ctl, cbr, own_tokens));
                    return true;
                }
            }
            column += 1;
        }
        row += 1;
    }
    false
}

/// Where on row `i` of a block the block's marks start (relative to the
/// block's column) and how many columns they span: a centered or
/// right-aligned row that is narrower or wider than the block is shifted and
/// takes one extra column.
pub open spec fn row_mark_span<F: Fn(char) -> i32>(
    block: TextBlockView,
    glyph_width: &F,
    col_width: int,
    i: int,
) -> (int, int) {
    let rc = columns_for(text_width(glyph_width, row_text(block.rows[i].fragments)), col_width);
    let diff = block.columns - rc;
    match block.alignment {
        TextAlignment::Left => (0, rc),
        TextAlignment::Center => (diff / 2, rc + if diff != 0 { 1int } else { 0int }),
        TextAlignment::Right => (diff, rc + if diff != 0 { 1int } else { 0int }),
    }
}

/// Whether a block at `coord` marks the tile (`column`, `row`) of a screen
/// of `dims`.
pub open spec fn block_marks<F: Fn(char) -> i32>(
    block: TextBlockView,
    coord: Coordinate,
    glyph_width: &F,
    col_width: int,
    dims: Dimensions,
    column: int,
    row: int,
) -> bool {
    let i = row - coord.row;
    let span = row_mark_span(block, glyph_width, col_width, i);
    &&& 0 <= row < dims.height
    &&& 0 <= column < dims.width
    &&& 0 <= i < block.rows.len()
    &&& coord.column + span.0 <= column < coord.column + span.0 + span.1
}

/// Coordinates and block sizes the marking arithmetic admits.
pub const MARK_BOUND: i32 = 0x0100_0000;

/// A block small enough to be marked on a layer: at most `MARK_BOUND` rows and
/// columns, each row's glyph widths summing within `i32`.
pub open spec fn block_rows_ok<F: Fn(char) -> i32>(block: TextBlockView, f: &F) -> bool {
    &&& block.rows.len() <= MARK_BOUND
    &&& block.columns <= MARK_BOUND
    &&& forall|i: int| 0 <= i < block.rows.len() ==> widths_fit(f, row_text(#[trigger] block.rows[i].fragments))
}

/// Marks the tiles a block covers on a layer with the block's tokens.
pub fn mark_occupied<F: Fn(char) -> i32>(
    cells: &mut ScreenCells,
    layer: Layer,
    coord: Coordinate,
    text_block: &TextBlock,
    id: Option<u16>,
    glyph_width: &F,
    col_width: i32,
)
    requires
        cells_wf(old(cells)),
        glyph_fn_ok(glyph_width),
        col_width > 0,
        block_rows_ok(text_block@, glyph_width),
        -MARK_BOUND <= coord.column <= MARK_BOUND,
        -MARK_BOUND <= coord.row <= MARK_BOUND,
    ensures
        cells_wf(final(cells)),
        final(cells).dims == old(cells).dims,
        forall|column: int, row: int|
            0 <= column < old(cells).dims.width && 0 <= row < old(cells).dims.height ==> #[trigger] layer_tokens(
                final(cells),
                layer,
            )[cell_index(column, row, old(cells).dims.height as int)] == if block_marks(
                text_block@,
                coord,
                glyph_width,
                col_width as int,
                old(cells).dims,
                column,
                row,
            ) {
                screen_tokens(id)
            } else {
                layer_tokens(old(cells), layer)[cell_index(column, row, old(cells).dims.height as int)]
            },
        forall|other: Layer| other != layer ==> layer_tokens(final(cells), other) == layer_tokens(old(cells), other),
        final(cells).lower.texpos == old(cells).lower.texpos,
        final(cells).upper.texpos == old(cells).upper.texpos,
{
    let tokens = id_to_screen_tokens(id);
    let dims = cells.dims;
    let ghost old_tokens = layer_tokens(cells, layer);
    let ghost bv = text_block@;
    let rows = text_block.rows();
    let mut i: usize = 0;
    while i < rows.len()
        invariant
            cells_wf(cells),
            cells.dims == dims,
            glyph_fn_ok(glyph_width),
            col_width > 0,
            bv == text_block@,
            rows@.map_values(|x: crate::text::TextRow| x@) == bv.rows,
            block_rows_ok(bv, glyph_width),
            -MARK_BOUND <= coord.column <= MARK_BOUND,
            -MARK_BOUND <= coord.row <= MARK_BOUND,
            i <= rows.len(),
            forall|other: Layer| other != layer ==> layer_tokens(cells, other) == layer_tokens(old(cells), other),
            cells.lower.texpos == old(cells).lower.texpos,
            cells.upper.texpos == old(cells).upper.texpos,
            old_tokens == layer_tokens(old(cells), layer),
            tokens == screen_tokens(id),
            dims == old(cells).dims,
            forall|column: int, row: int|
                0 <= column < dims.width && 0 <= row < dims.height ==> #[trigger] layer_tokens(cells, layer)[cell_index(
                    column,
                    row,
                    dims.height as int,
                )] == if block_marks(bv, coord, glyph_width, col_width as int, dims, column, row)
                    && row - coord.row < i {
                    screen_tokens(id)
                } else {
                    old_tokens[cell_index(column, row, dims.height as int)]
                },
        decreases rows.len() - i,
    {
        let row = coord.row as i64 + i as i64;
        if row >= 0 && row < dims.height as i64 {
            let text_row = &rows[i];
            assert(text_row@ == bv.rows[i as int]);
            let rc = text_row.columns(glyph_width, col_width);
            proof {
                lemma_columns_for_le(text_width(glyph_width, row_text(bv.rows[i as int].fragments)), col_width as int);
            }
            let diff = text_block.columns() as i64 - rc as i64;
            let (off, extra): (i64, i64) = match *text_block.alignment() {
                TextAlignment::Left => (0, 0),
                TextAlignment::Center => (floor_div(diff, 2), if diff != 0 { 1 } else { 0 }),
                TextAlignment::Right => (diff, if diff != 0 { 1 } else { 0 }),
            };
            let count = rc as i64 + extra;
            let mut j: i64 = 0;
            while j < count
                invariant
                    cells_wf(cells),
                    cells.dims == dims,
                    dims == old(cells).dims,
                    0 <= row < dims.height,
                    row == coord.row + i,
                    0 <= j,
                    off as int == row_mark_span(bv, glyph_width, col_width as int, i as int).0,
                    count as int == row_mark_span(bv, glyph_width, col_width as int, i as int).1,
                    -MARK_BOUND <= coord.column <= MARK_BOUND,
                    -0x1_0000_0000 <= off <= 0x1_0000_0000,
                    count <= 0x1_0000_0000,
                    j <= count,
                    forall|other: Layer| other != layer ==> layer_tokens(cells, other) == layer_tokens(old(cells), other),
                    cells.lower.texpos == old(cells).lower.texpos,
                    cells.upper.texpos == old(cells).upper.texpos,
                    old_tokens == layer_tokens(old(cells), layer),
                    tokens == screen_tokens(id),
                    forall|column: int, r: int|
                        0 <= column < dims.width && 0 <= r < dims.height ==> #[trigger] layer_tokens(cells, layer)[cell_index(
                            column,
                            r,
                            dims.height as int,
                        )] == if (block_marks(bv, coord, glyph_width, col_width as int, dims, column, r)
                            && r - coord.row < i) || (r == row && coord.column + off <= column
                            < coord.column + off + j) {
                            screen_tokens(id)
                        } else {
                            old_tokens[cell_index(column, r, dims.height as int)]
                        },
                decreases count - j,
            {
                let column = coord.column as i64 + off + j;
                if column >= 0 && column < dims.width as i64 {
                    let ghost before = layer_tokens(cells, layer);
                    assert(forall|c: int, r: int|
                        0 <= c < dims.width && 0 <= r < dims.height ==> before[cell_index(
                            c,
                            r,
                            dims.height as int,
                        )] == if (block_marks(bv, coord, glyph_width, col_width as int, dims, c, r)
                            && r - coord.row < i) || (r == row && coord.column + off <= c
                            < coord.column + off + j) {
                            screen_tokens(id)
                        } else {
                            old_tokens[cell_index(c, r, dims.height as int)]
                        });
                    let col32 = column as i32;
                    let row32 = row as i32;
                    assert(col32 as int == column as int && row32 as int == row as int);
                    set_token(cells, layer, col32, row32, tokens);
                    assert(layer_tokens(cells, layer) == before.update(cell_index(col32 as int, row32 as int, dims.height as int), tokens));
                    assert forall|c: int, r: int|
                        0 <= c < dims.width && 0 <= r < dims.height implies #[trigger] layer_tokens(cells, layer)[cell_index(
                            c,
                            r,
                            dims.height as int,
                        )] == if (block_marks(bv, coord, glyph_width, col_width as int, dims, c, r)
                            && r - coord.row < i) || (r == row && coord.column + off <= c
                            < coord.column + off + j + 1) {
                            screen_tokens(id)
                        } else {
                            old_tokens[cell_index(c, r, dims.height as int)]
                        } by {
                        lemma_cell_index_bounds(c, r, dims.width as int, dims.height as int);
                        match layer {
                            Layer::Lower => {},
                            Layer::Upper => {},
                        }
                        if cell_index(c, r, dims.height as int) == cell_index(column as int, row as int, dims.height as int) {
                            lemma_cell_index_injective(c, r, column as int, row as int, dims.height as int);
                        } else {
                            assert(0 <= cell_index(c, r, dims.height as int) < before.len());
                            lemma_cell_index_bounds(col32 as int, row32 as int, dims.width as int, dims.height as int);
                            assert(cell_index(c, r, dims.height as int) != cell_index(col32 as int, row32 as int, dims.height as int));
                            assert(before.update(cell_index(col32 as int, row32 as int, dims.height as int), tokens)[cell_index(c, r, dims.height as int)] == before[cell_index(c, r, dims.height as int)]);
                        }
                    }
                }
                j += 1;
            }
        }
        assert forall|c: int, r: int|
            0 <= c < dims.width && 0 <= r < dims.height implies #[trigger] layer_tokens(cells, layer)[cell_index(
                c,
                r,
                dims.height as int,
            )] == if block_marks(bv, coord, glyph_width, col_width as int, dims, c, r)
                && r - coord.row < i + 1 {
                screen_tokens(id)
            } else {
                old_tokens[cell_index(c, r, dims.height as int)]
            } by {
        }
        i += 1;
    }
}

proof fn lemma_columns_for_le(w: int, cw: int)
    requires
        0 <= w,
        cw >= 1,
    ensures
        0 <= columns_for(w, cw) <= w,
{
    if w > 0 {
        let m = w + cw - 1;
        vstd::arithmetic::div_mod::lemma_fundamental_div_mod(m, cw);
        let q = m / cw;
        let r = m % cw;
        assert(0 <= q) by {
            vstd::arithmetic::div_mod::lemma_div_pos_is_pos(m, cw);
        }
        assert(q <= w) by (nonlinear_arith)
            requires
                m == cw * q + r,
                0 <= r,
                m == w + cw - 1,
                cw >= 1,
                w >= 1,
                q >= 0,
        ;
    }
}

/// `a + b` clamped to the range of `i32`.
pub open spec fn saturating_add_i32(a: int, b: int) -> int {
    if a + b > i32::MAX {
        i32::MAX as int
    } else if a + b < i32::MIN {
        i32::MIN as int
    } else {
        a + b
    }
}

/// Whether the source rectangle of `width` by `height` tiles at `coord`
/// covers the tile (`column`, `row`) of a screen of `dims`.
pub open spec fn region_marks(
    coord: Coordinate,
    width: i32,
    height: i32,
    dims: Dimensions,
    column: int,
    row: int,
) -> bool {
    &&& 0 <= row < dims.height
    &&& 0 <= column < dims.width
    &&& coord.row <= row < saturating_add_i32(coord.row as int, height as int)
    &&& coord.column <= column < saturating_add_i32(coord.column as int, width as int)
}

fn saturating_add(a: i32, b: i32) -> (r: i32)
    ensures
        r == saturating_add_i32(a as int, b as int),
{
    let s = a as i64 + b as i64;
    if s > i32::MAX as i64 {
        i32::MAX
    } else if s < i32::MIN as i64 {
        i32::MIN
    } else {
        s as i32
    }
}

/// Marks the tiles of a source rectangle on a layer with the tokens of `id`.
pub fn mark_source_region(
    cells: &mut ScreenCells,
    layer: Layer,
    coord: Coordinate,
    width: i32,
    height: i32,
    id: u16,
)
    requires
        cells_wf(old(cells)),
    ensures
        cells_wf(final(cells)),
        final(cells).dims == old(cells).dims,
        forall|column: int, row: int|
            0 <= column < old(cells).dims.width && 0 <= row < old(cells).dims.height ==> #[trigger] layer_tokens(
                final(cells),
                layer,
            )[cell_index(column, row, old(cells).dims.height as int)] == if region_marks(
                coord,
                width,
                height,
                old(cells).dims,
                column,
                row,
            ) {
                screen_tokens(Some(id))
            } else {
                layer_tokens(old(cells), layer)[cell_index(column, row, old(cells).dims.height as int)]
            },
        forall|other: Layer| other != layer ==> layer_tokens(final(cells), other) == layer_tokens(old(cells), other),
        final(cells).lower.texpos == old(cells).lower.texpos,
        final(cells).upper.texpos == old(cells).upper.texpos,
{
    let tokens = id_to_screen_tokens(Some(id));
    let dims = cells.dims;
    let ghost old_tokens = layer_tokens(cells, layer);
    let row_end = saturating_add(coord.row, height);
    let col_end = saturating_add(coord.column, width);
    let mut row = coord.row;
    while row < row_end
        invariant
            cells_wf(cells),
            cells.dims == dims,
            dims == old(cells).dims,
            coord.row <= row,
            row_end == saturating_add_i32(coord.row as int, height as int),
            col_end == saturating_add_i32(coord.column as int, width as int),
            tokens == screen_tokens(Some(id)),
            old_tokens == layer_tokens(old(cells), layer),
            forall|other: Layer| other != layer ==> layer_tokens(cells, other) == layer_tokens(old(cells), other),
            cells.lower.texpos == old(cells).lower.texpos,
            cells.upper.texpos == old(cells).upper.texpos,
            forall|c: int, r: int|
                0 <= c < dims.width && 0 <= r < dims.height ==> #[trigger] layer_tokens(cells, layer)[cell_index(
                    c,
                    r,
                    dims.height as int,
                )] == if region_marks(coord, width, height, dims, c, r) && r < row {
                    screen_tokens(Some(id))
                } else {
                    old_tokens[cell_index(c, r, dims.height as int)]
                },
        decreases row_end - row,
    {
        if row >= 0 && row < dims.height {
            let mut column = coord.column;
            while column < col_end
                invariant
                    cells_wf(cells),
                    cells.dims == dims,
                    dims == old(cells).dims,
                    coord.row <= row < row_end,
                    0 <= row < dims.height,
                    coord.column <= column,
                    row_end == saturating_add_i32(coord.row as int, height as int),
                    col_end == saturating_add_i32(coord.column as int, width as int),
                    tokens == screen_tokens(Some(id)),
                    old_tokens == layer_tokens(old(cells), layer),
                    forall|other: Layer| other != layer ==> layer_tokens(cells, other) == layer_tokens(old(cells), other),
                    cells.lower.texpos == old(cells).lower.texpos,
                    cells.upper.texpos == old(cells).upper.texpos,
                    forall|c: int, r: int|
                        0 <= c < dims.width && 0 <= r < dims.height ==> #[trigger] layer_tokens(cells, layer)[cell_index(
                            c,
                            r,
                            dims.height as int,
                        )] == if region_marks(coord, width, height, dims, c, r) && (r < row || (r == row
                            && c < column)) {
                            screen_tokens(Some(id))
                        } else {
                            old_tokens[cell_index(c, r, dims.height as int)]
                        },
                decreases col_end - column,
            {
                if column >= 0 && column < dims.width {
                    let ghost before = layer_tokens(cells, layer);
                    set_token(cells, layer, column, row, tokens);
                    assert forall|c: int, r: int|
                        0 <= c < dims.width && 0 <= r < dims.height implies #[trigger] layer_tokens(cells, layer)[cell_index(
                            c,
                            r,
                            dims.height as int,
                        )] == if region_marks(coord, width, height, dims, c, r) && (r < row || (r == row
                            && c < column + 1)) {
                            screen_tokens(Some(id))
                        } else {
                            old_tokens[cell_index(c, r, dims.height as int)]
                        } by {
                        lemma_cell_index_bounds(c, r, dims.width as int, dims.height as int);
                        lemma_cell_index_bounds(column as int, row as int, dims.width as int, dims.height as int);
                        match layer {
                            Layer::Lower => {},
                            Layer::Upper => {},
                        }
                        if cell_index(c, r, dims.height as int) == cell_index(column as int, row as int, dims.height as int) {
                            lemma_cell_index_injective(c, r, column as int, row as int, dims.height as int);
                        } else {
                            assert(before.update(cell_index(column as int, row as int, dims.height as int), tokens)[cell_index(c, r, dims.height as int)] == before[cell_index(c, r, dims.height as int)]);
                        }
                    }
                }
                column += 1;
            }
        }
        row += 1;
    }
}

/// Records the occupation marks of both layers and clears the cells' marks:
/// a textured cell records no mark, and a cell with a mark is reset to a blank.
pub fn move_occupied(occupation: &mut Occupation, cells: &mut ScreenCells)
    requires
        cells_wf(old(cells)),
    ensures
        cells_wf(final(cells)),
        final(cells).dims == old(cells).dims,
        final(cells).lower.texpos == old(cells).lower.texpos,
        final(cells).upper.texpos == old(cells).upper.texpos,
        final(occupation).lower@.len() == old(cells).lower.tokens.len(),
        final(occupation).upper@.len() == old(cells).upper.tokens.len(),
        forall|i: int| 0 <= i < old(cells).lower.tokens.len() ==> #[trigger] final(occupation).lower@[i] == if old(cells).lower.texpos@[i] != 0 {
            (0u8, 0u8)
        } else {
            old(cells).lower.tokens@[i]
        },
        forall|i: int| 0 <= i < old(cells).upper.tokens.len() ==> #[trigger] final(occupation).upper@[i] == if old(cells).upper.texpos@[i] != 0 {
            (0u8, 0u8)
        } else {
            old(cells).upper.tokens@[i]
        },
        forall|i: int| 0 <= i < old(cells).lower.tokens.len() ==> #[trigger] final(cells).lower.tokens@[i] == if old(cells).lower.tokens@[i].1 != 0 {
            (32u8, 0u8)
        } else {
            old(cells).lower.tokens@[i]
        },
        forall|i: int| 0 <= i < old(cells).upper.tokens.len() ==> #[trigger] final(cells).upper.tokens@[i] == if old(cells).upper.tokens@[i].1 != 0 {
            (32u8, 0u8)
        } else {
            old(cells).upper.tokens@[i]
        },
{
    occupation.lower = record_marks(&mut cells.lower);
    occupation.upper = record_marks(&mut cells.upper);
}

fn record_marks(layer: &mut CellLayer) -> (occ: Vec<(u8, u8)>)
    requires
        old(layer).texpos.len() == old(layer).tokens.len(),
    ensures
        final(layer).texpos == old(layer).texpos,
        final(layer).tokens.len() == old(layer).tokens.len(),
        occ@.len() == old(layer).tokens.len(),
        forall|i: int| 0 <= i < old(layer).tokens.len() ==> #[trigger] occ@[i] == if old(layer).texpos@[i] != 0 {
            (0u8, 0u8)
        } else {
            old(layer).tokens@[i]
        },
        forall|i: int| 0 <= i < old(layer).tokens.len() ==> #[trigger] final(layer).tokens@[i] == if old(layer).tokens@[i].1 != 0 {
            (32u8, 0u8)
        } else {
            old(layer).tokens@[i]
        },
{
    let n = layer.tokens.len();
    let mut occ: Vec<(u8, u8)> = Vec::new();
    let mut i: usize = 0;
    while i < n
        invariant
            n == old(layer).tokens.len(),
            layer.tokens.len() == n,
            layer.texpos == old(layer).texpos,
            old(layer).texpos.len() == n,
            i <= n,
            occ@.len() == i,
            forall|j: int| 0 <= j < i ==> #[trigger] occ@[j] == if old(layer).texpos@[j] != 0 {
                (0u8, 0u8)
            } else {
                old(layer).tokens@[j]
            },
            forall|j: int| 0 <= j < i ==> #[trigger] layer.tokens@[j] == if old(layer).tokens@[j].1 != 0 {
                (32u8, 0u8)
            } else {
                old(layer).tokens@[j]
            },
            forall|j: int| i <= j < n ==> #[trigger] layer.tokens@[j] == old(layer).tokens@[j],
        decreases n - i,
    {
        let cell = layer.tokens[i];
        if layer.texpos[i] != 0 {
            occ.push((0, 0));
        } else {
            occ.push(cell);
        }
        if cell.1 != 0 {
            layer.tokens.set(i, (32, 0));
        }
        i += 1;
    }
    occ
}

/// Copies the marks of the row above onto `length` tiles of a row from
/// `coord`, so the bottom half of a double-height text belongs to its block.
pub fn mark_bottom_occupied(cells: &mut ScreenCells, layer: Layer, coord: Coordinate, length: i32)
    requires
        cells_wf(old(cells)),
        coord.column >= 0,
        coord.row < old(cells).dims.height,
        coord.row >= 0,
    ensures
        cells_wf(final(cells)),
        final(cells).dims == old(cells).dims,
        forall|column: int, row: int|
            0 <= column < old(cells).dims.width && 0 <= row < old(cells).dims.height ==> #[trigger] layer_tokens(
                final(cells),
                layer,
            )[cell_index(column, row, old(cells).dims.height as int)] == if coord.row > 0 && row
                == coord.row && coord.column <= column < coord.column + length {
                layer_tokens(old(cells), layer)[cell_index(column, row - 1, old(cells).dims.height as int)]
            } else {
                layer_tokens(old(cells), layer)[cell_index(column, row, old(cells).dims.height as int)]
            },
        forall|other: Layer| other != layer ==> layer_tokens(final(cells), other) == layer_tokens(old(cells), other),
        final(cells).lower.texpos == old(cells).lower.texpos,
        final(cells).upper.texpos == old(cells).upper.texpos,
{
    if coord.row == 0 {
        return;
    }
    let dims = cells.dims;
    let ghost old_tokens = layer_tokens(cells, layer);
    let mut i: i32 = 0;
    while i < length
        invariant
            cells_wf(cells),
            cells.dims == dims,
            dims == old(cells).dims,
            0 <= i,
            i <= if length > 0 { length } else { 0 },
            0 < coord.row < dims.height,
            coord.column >= 0,
            old_tokens == layer_tokens(old(cells), layer),
            forall|other: Layer| other != layer ==> layer_tokens(cells, other) == layer_tokens(old(cells), other),
            cells.lower.texpos == old(cells).lower.texpos,
            cells.upper.texpos == old(cells).upper.texpos,
            forall|c: int, r: int|
                0 <= c < dims.width && 0 <= r < dims.height ==> #[trigger] layer_tokens(cells, layer)[cell_index(
                    c,
                    r,
                    dims.height as int,
                )] == if r == coord.row && coord.column <= c < coord.column + i {
                    old_tokens[cell_index(c, r - 1, dims.height as int)]
                } else {
                    old_tokens[cell_index(c, r, dims.height as int)]
                },
        decreases length - i,
    {
        let column = coord.column as i64 + i as i64;
        if column < dims.width as i64 {
            let ghost before = layer_tokens(cells, layer);
            let col32 = column as i32;
            proof {
                lemma_cell_index_bounds(col32 as int, coord.row - 1, dims.width as int, dims.height as int);
                match layer {
                    Layer::Lower => {},
                    Layer::Upper => {},
                }
            }
            let idx_above = (column * dims.height as i64 + coord.row as i64 - 1) as usize;
            let above = match layer {
                Layer::Lower => cells.lower.tokens[idx_above],
                Layer::Upper => cells.upper.tokens[idx_above],
            };
            assert(above == old_tokens[cell_index(col32 as int, coord.row - 1, dims.height as int)]);
            set_token(cells, layer, col32, coord.row, above);
            assert forall|c: int, r: int|
                0 <= c < dims.width && 0 <= r < dims.height implies #[trigger] layer_tokens(cells, layer)[cell_index(
                    c,
                    r,
                    dims.height as int,
                )] == if r == coord.row && coord.column <= c < coord.column + i + 1 {
                    old_tokens[cell_index(c, r - 1, dims.height as int)]
                } else {
                    old_tokens[cell_index(c, r, dims.height as int)]
                } by {
                lemma_cell_index_bounds(c, r, dims.width as int, dims.height as int);
                lemma_cell_index_bounds(col32 as int, coord.row as int, dims.width as int, dims.height as int);
                match layer {
                    Layer::Lower => {},
                    Layer::Upper => {},
                }
                if cell_index(c, r, dims.height as int) == cell_index(col32 as int, coord.row as int, dims.height as int) {
                    lemma_cell_index_injective(c, r, col32 as int, coord.row as int, dims.height as int);
                } else {
                    assert(before.update(cell_index(col32 as int, coord.row as int, dims.height as int), above)[cell_index(c, r, dims.height as int)] == before[cell_index(c, r, dims.height as int)]);
                }
            }
        }
        i += 1;
    }
}

} // verus!
