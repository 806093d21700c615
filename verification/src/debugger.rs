//! The debugger window beside the game window: where it goes, when it is resized, and
//! what it draws.
use vstd::prelude::*;
use crate::screen::{Layer, PlacedView, Screens, placed_views};
use crate::text::TextBlock;
use crate::types::Coordinate;

verus! {

/// The gap in pixels between the game window and the debugger window.
pub const WINDOW_GAP: i32 = 10;

/// Where the debugger window goes and its size, for a game window at (`x`, `y`) of
/// `width` by `height`: just right of it, with the same size.
pub open spec fn window_place(x: int, y: int, width: int, height: int) -> (int, int, int, int) {
    (x + width + WINDOW_GAP, y, width, height)
}

/// The debugger window's position and size for the game window's.
pub fn window_configs(x: i32, y: i32, width: i32, height: i32) -> (r: (i32, i32, i32, i32))
    requires
        i32::MIN <= x + width,
        x + width + WINDOW_GAP <= i32::MAX,
    ensures
        (r.0 as int, r.1 as int, r.2 as int, r.3 as int) == window_place(x as int, y as int, width as int, height as int),
{
    (x + width + WINDOW_GAP, y, width, height)
}

/// What resizing the debugger window does.
#[derive(Debug, Clone, Copy)]
pub struct ResizeAction {
    /// The new size of the window and of the renderer's logical area, where it changes.
    pub size: Option<(i32, i32)>,
    /// The new position of the window, where it moves.
    pub position: Option<(i32, i32)>,
}

/// Follows the game window: where the sizes already agree nothing happens; otherwise
/// the debugger window takes the game window's size and moves beside it unless it is
/// there already.
pub open spec fn resize_action(
    game: (i32, i32, i32, i32),
    debug_position: (i32, i32),
    debug_size: (i32, i32),
) -> ResizeAction {
    let p = window_place(game.0 as int, game.1 as int, game.2 as int, game.3 as int);
    if p.2 == debug_size.0 && p.3 == debug_size.1 {
        ResizeAction { size: None, position: None }
    } else {
        ResizeAction {
            size: Some((game.2, game.3)),
            position: if p.0 != debug_position.0 || p.1 != debug_position.1 {
                Some(((p.0) as i32, game.1))
            } else {
                None
            },
        }
    }
}

/// Decides how the debugger window follows the game window (`x`, `y`, width, height).
pub fn resize(game: (i32, i32, i32, i32), debug_position: (i32, i32), debug_size: (i32, i32)) -> (r:
    ResizeAction)
    requires
        i32::MIN <= game.0 + game.2,
        game.0 + game.2 + WINDOW_GAP <= i32::MAX,
    ensures
        r == resize_action(game, debug_position, debug_size),
{
    let (x, y, width, height) = window_configs(game.0, game.1, game.2, game.3);
    if width == debug_size.0 && height == debug_size.1 {
        return ResizeAction { size: None, position: None };
    }
    let position = if x != debug_position.0 || y != debug_position.1 {
        Some((x, y))
    } else {
        None
    };
    ResizeAction { size: Some((width, height)), position }
}

/// A placed block tagged with its layer.
pub open spec fn tagged(layer: Layer, v: Seq<PlacedView>) -> Seq<(Layer, PlacedView)> {
    v.map_values(|p: PlacedView| (layer, p))
}

/// The blocks to draw, each with its layer.
pub open spec fn drawn(v: Seq<(Layer, u16, Coordinate, TextBlock)>) -> Seq<(Layer, PlacedView)> {
    v.map_values(
        |e: (Layer, u16, Coordinate, TextBlock)| (e.0, PlacedView { id: e.1, coordinate: e.2, block: e.3@ }),
    )
}

/// What the debugger window draws, in order: every block of the lower layer, then
/// every block of the upper layer, each with its layer, id and position.
pub fn update(screens: &Screens) -> (r: Vec<(Layer, u16, Coordinate, TextBlock)>)
    ensures
        drawn(r@) == tagged(Layer::Lower, screens.blocks(Layer::Lower)) + tagged(
            Layer::Upper,
            screens.blocks(Layer::Upper),
        ),
{
    let mut out: Vec<(Layer, u16, Coordinate, TextBlock)> = Vec::new();
    let lower = screens.get_text_blocks(Layer::Lower);
    let upper = screens.get_text_blocks(Layer::Upper);
    let ghost lv = tagged(Layer::Lower, placed_views(lower@));
    let mut blocks = lower;
    let mut i: usize = 0;
    while i < blocks.len()
        invariant
            i <= blocks.len(),
            lv == tagged(Layer::Lower, placed_views(blocks@)),
            out@.len() == i,
            drawn(out@) == lv.take(i as int),
        decreases blocks.len() - i,
    {
        let e = &blocks[i];
        let d = e.2.duplicate();
        assert(lv[i as int] == (Layer::Lower, PlacedView { id: e.0, coordinate: e.1, block: d@ }));
        let ghost before = out@;
        out.push((Layer::Lower, e.0, e.1, d));
        assert(drawn(out@).len() == i + 1);
        assert forall|k: int| 0 <= k < i + 1 implies drawn(out@)[k] == lv.take(i + 1)[k] by {
            if k < i {
                assert(out@[k] == before[k]);
                assert(drawn(before)[k] == lv.take(i as int)[k]);
            }
        }
        assert(drawn(out@) =~= lv.take(i + 1));
        i += 1;
    }
    assert(lv.take(blocks@.len() as int) =~= lv);
    let ghost uv = tagged(Layer::Upper, placed_views(upper@));
    blocks = upper;
    let mut j: usize = 0;
    while j < blocks.len()
        invariant
            j <= blocks.len(),
            uv == tagged(Layer::Upper, placed_views(blocks@)),
            out@.len() == lv.len() + j,
            drawn(out@) == lv + uv.take(j as int),
        decreases blocks.len() - j,
    {
        let e = &blocks[j];
        let d = e.2.duplicate();
        assert(uv[j as int] == (Layer::Upper, PlacedView { id: e.0, coordinate: e.1, block: d@ }));
        let ghost before = out@;
        out.push((Layer::Upper, e.0, e.1, d));
        assert forall|k: int| 0 <= k < lv.len() + j + 1 implies drawn(out@)[k] == (lv + uv.take(j + 1))[k] by {
            if k < lv.len() + j {
                assert(out@[k] == before[k]);
                assert(drawn(before)[k] == (lv + uv.take(j as int))[k]);
            }
        }
        assert(drawn(out@) =~= lv + uv.take(j + 1));
        j += 1;
    }
    assert(uv.take(blocks@.len() as int) =~= uv);
    out
}

} // verus!
