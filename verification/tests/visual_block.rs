use dfi18n::types::{ColorPair, Coordinate};
use dfi18n::visual_block::{Collector, Fragment, Rect};

fn fragment(x: i32, y: i32, text: &str) -> Fragment {
    Fragment {
        coordinate: Coordinate { column: x, row: y },
        text: text.to_owned(),
        color_pair: ColorPair::default(),
    }
}

#[test]
fn uses_the_complete_bounding_rectangle_for_layout() {
    let mut collector = Collector::default();
    collector.push(fragment(20, 10, "First line"));
    collector.push(fragment(10, 11, "second line"));

    let blocks = collector.finish();
    assert_eq!(blocks.len(), 1);
    assert_eq!(blocks[0].origin(), Coordinate { column: 10, row: 10 });
    assert_eq!(blocks[0].columns(), 20);
    assert_eq!(blocks[0].source_rect, Rect { x: 10, y: 10, width: 20, height: 2 });
}

#[test]
fn keeps_precise_per_row_clear_rectangles() {
    let mut collector = Collector::default();
    collector.push(fragment(20, 10, "First line"));
    collector.push(fragment(10, 11, "second line"));

    let blocks = collector.finish();
    assert_eq!(
        blocks[0].clear_rects(),
        vec![
            Rect { x: 20, y: 10, width: 10, height: 1 },
            Rect { x: 10, y: 11, width: 11, height: 1 },
        ]
    );
}

#[test]
fn lines_starting_in_lower_case_continue_the_block_above() {
    let mut collector = Collector::default();
    collector.push(fragment(5, 3, "He is generally"));
    collector.push(fragment(5, 4, "\u{e9}motive and calm."));
    collector.push(fragment(5, 5, "Other text"));
    collector.push(fragment(5, 6, "More"));
    let blocks = collector.finish();
    assert_eq!(blocks.len(), 3);
    assert_eq!(blocks[0].original, "He is generally \u{e9}motive and calm.");
    assert_eq!(blocks[1].original, "Other text");
    assert_eq!(blocks[2].original, "More");
}

#[test]
fn adjacent_fragments_on_a_row_join_with_at_most_one_space() {
    let mut collector = Collector::default();
    collector.push(fragment(0, 0, "Health"));
    collector.push(fragment(7, 0, "Skills"));
    collector.push(fragment(13, 0, "!"));
    collector.push(fragment(20, 0, "Rooms"));
    let blocks = collector.finish();
    assert_eq!(blocks.len(), 2);
    assert_eq!(blocks[0].original, "Health Skills!");
    assert_eq!(blocks[1].original, "Rooms");
}
