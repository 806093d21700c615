use dfi18n::hooks::{
    colored_markup, combine_split_parts, dfhack_text, fragment_columns, is_bottom_half, is_developer_logo,
    is_last_tile, logo_rect, sentence_translation, title_rect, translate_preference_component, wants_cloud,
    with_leading_color, TranslationStatus,
};
use dfi18n::translation::{TextAlignment, TranslationResponse};
use dfi18n::types::{Color, Coordinate, Dimensions};
use dfi18n::visual_block::Rect;

fn palette() -> [Color; 16] {
    let mut p = [Color::default(); 16];
    for (i, c) in p.iter_mut().enumerate() {
        c.r = i as u8;
    }
    p
}

fn translated(t: &str, alignment: TextAlignment) -> TranslationStatus {
    TranslationStatus::Translated(TranslationResponse { translated: t.to_owned(), alignment })
}

#[test]
fn colored_strings_become_markup_with_a_tag_per_color_change() {
    let markup = colored_markup(b"abc", &[7, 7, 7 | (1 << 3) | 64]);
    assert_eq!(markup, b"[C:7:0:0]ab[C:7:1:1]c".to_vec());
    assert_eq!(colored_markup(b"ab", &[2]), b"[C:2:0:0]a".to_vec());
    assert!(colored_markup(b"", &[]).is_empty());
}

#[test]
fn bottom_halves_are_flagged_by_bit_four() {
    assert!(is_bottom_half(16));
    assert!(is_bottom_half(16 | 8));
    assert!(!is_bottom_half(8));
}

#[test]
fn dfhack_text_is_clamped_to_the_screen_and_palette() {
    let dims = Dimensions { width: 80, height: 25 };
    let p = palette();
    let t = dfhack_text(-5, 30, 20, -1, true, -7, dims, &p);
    assert_eq!(t.coordinate, Coordinate { column: 0, row: 24 });
    assert_eq!(t.bottom, Coordinate { column: 0, row: 24 });
    assert_eq!(t.flag, 0);
    assert_eq!(t.color_pair.foreground.r, 15);
    assert_eq!(t.color_pair.background.r, 0);
    let t = dfhack_text(3, 4, 2, 5, true, 1 << 40, dims, &p);
    assert_eq!(t.coordinate, Coordinate { column: 3, row: 4 });
    assert_eq!(t.bottom, Coordinate { column: 3, row: 5 });
    assert_eq!(t.flag, u32::MAX);
    assert_eq!(t.color_pair.foreground.r, 10);
    assert_eq!(t.color_pair.background.r, 5);
}

#[test]
fn logos_are_placed_beside_and_above() {
    let origin = Coordinate { column: 10, row: 20 };
    assert_eq!(
        title_rect(origin, Dimensions { width: 1000, height: 1100 }, 300, 50),
        Rect { x: 360, y: 120, width: 300, height: 50 }
    );
    assert_eq!(
        title_rect(origin, Dimensions { width: 1000, height: 600 }, 300, 50),
        Rect { x: 360, y: 20, width: 300, height: 50 }
    );
    assert_eq!(
        logo_rect(2, 3, Dimensions { width: 8, height: 12 }, origin, 64, 32),
        Rect { x: 98, y: 56, width: 32, height: 32 }
    );
    assert!(is_developer_logo(7) && is_developer_logo(9));
    assert!(!is_developer_logo(6) && !is_developer_logo(10));
    assert!(is_last_tile(79, 24, Dimensions { width: 80, height: 25 }));
    assert!(!is_last_tile(78, 24, Dimensions { width: 80, height: 25 }));
}

#[test]
fn split_parts_combine_only_when_all_are_translated() {
    let parts = vec![translated("他很好。", TextAlignment::Center), translated("她也是。", TextAlignment::Left)];
    let (response, exhausted) = combine_split_parts(&parts);
    let response = response.unwrap();
    assert_eq!(response.translated, "他很好。她也是。");
    assert_eq!(response.alignment, TextAlignment::Center);
    assert!(!exhausted);
    let (response, exhausted) = combine_split_parts(&vec![translated("a", TextAlignment::Left), TranslationStatus::Pending]);
    assert!(response.is_none() && !exhausted);
    let (response, exhausted) = combine_split_parts(&vec![TranslationStatus::Pending, TranslationStatus::Missing]);
    assert!(response.is_none() && exhausted);
    assert!(wants_cloud(false, true));
    assert!(!wants_cloud(true, true));
    assert!(!wants_cloud(false, false));
}

#[test]
fn leading_colors_are_kept_and_fragments_take_a_column() {
    assert_eq!(with_leading_color("[C:1:0:0]甲".to_owned(), "[C:7:0:0]"), "[C:1:0:0]甲");
    assert_eq!(with_leading_color("甲".to_owned(), "[C:7:0:0]"), "[C:7:0:0]甲");
    assert_eq!(fragment_columns(""), 1);
    assert_eq!(fragment_columns("äbc"), 3);
}

#[test]
fn sentences_fall_back_to_their_parts_and_then_to_the_cloud() {
    let status = |t: &str| match t {
        "He is calm." => translated("他很平静。", TextAlignment::Left),
        "She is calm." => translated("她很平静。", TextAlignment::Left),
        "It waits." => TranslationStatus::Pending,
        "Whole sentence." => translated("整句。", TextAlignment::Right),
        _ => TranslationStatus::Missing,
    };
    let none = |_: &str| None;
    let (r, exhausted) = sentence_translation("Whole sentence.", &status, none);
    assert_eq!(r.unwrap().translated, "整句。");
    assert!(!exhausted);
    let (r, exhausted) = sentence_translation("He is calm. She is calm.", &status, none);
    assert_eq!(r.unwrap().translated, "他很平静。她很平静。");
    assert!(!exhausted);
    let (r, exhausted) = sentence_translation("He is calm. It waits.", &status, none);
    assert!(r.is_none() && !exhausted);
    let (r, exhausted) = sentence_translation("He is calm. Unknown here.", &status, none);
    assert!(r.is_none() && exhausted);
    let (r, exhausted) = sentence_translation("Unknown single.", &status, none);
    assert!(r.is_none() && exhausted);
    assert_eq!(translate_preference_component(translated("甲", TextAlignment::Left)), Some("甲".to_owned()));
    assert_eq!(translate_preference_component(TranslationStatus::Pending), None);
}
