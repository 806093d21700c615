use dfi18n::control::ControlState;
use dfi18n::debugger::{resize, update, window_configs};
use dfi18n::logging::{context_hook_name, flag_binary, TextLog};
use dfi18n::screen::{Layer, Screens};
use dfi18n::text::{TextBlock, TextCache};
use dfi18n::translator::rulesets::RulesetTranslators;
use dfi18n::translator::simple::SimpleDictionaries;
use dfi18n::types::{ColorPair, Coordinate};
use dfi18n::visual_block::FrameCollector;

#[test]
fn requests_apply_at_the_end_of_the_frame() {
    let mut control = ControlState::new();
    control.toggle();
    assert!(!control.is_enabled());
    control.toggle_enabled();
    assert!(control.is_enabled());
    control.toggle();
    control.toggle_enabled();
    assert!(!control.is_enabled());
    control.enable();
    control.disable();
    control.toggle_enabled();
    assert!(control.is_enabled());
    assert!(!control.enabling && !control.disabling);
}

#[test]
fn a_reset_drops_the_loaded_state_once() {
    let mut control = ControlState::new();
    let mut dicts = SimpleDictionaries::new();
    dicts.insert_translation("zh-Hans", "a", "甲");
    let mut rulesets = RulesetTranslators::new();
    let mut texts = TextCache::new();
    let mut blocks = FrameCollector::new();
    blocks.begin_frame();
    assert!(!control.do_reset_if_requested(&mut dicts, &mut rulesets, &mut texts, &mut blocks));
    assert!(dicts.contains("zh-Hans", "a"));
    control.reset();
    assert!(control.do_reset_if_requested(&mut dicts, &mut rulesets, &mut texts, &mut blocks));
    assert!(!dicts.contains("zh-Hans", "a"));
    assert!(!blocks.is_collecting());
    assert!(!control.resetting);
}

#[test]
fn the_debugger_window_follows_the_game_window() {
    assert_eq!(window_configs(100, 50, 800, 600), (910, 50, 800, 600));
    let same = resize((100, 50, 800, 600), (0, 0), (800, 600));
    assert_eq!(same.size, None);
    assert_eq!(same.position, None);
    let moved = resize((100, 50, 800, 600), (0, 0), (640, 480));
    assert_eq!(moved.size, Some((800, 600)));
    assert_eq!(moved.position, Some((910, 50)));
    let placed = resize((100, 50, 800, 600), (910, 50), (640, 480));
    assert_eq!(placed.position, None);
}

#[test]
fn the_debugger_draws_the_lower_layer_first() {
    let mut screens = Screens::new();
    let block = TextBlock::from_original("up", ColorPair::default());
    let id_up = block.add_to_screen(&mut screens, Layer::Upper, Coordinate { column: 1, row: 1 });
    let low = TextBlock::from_original("low", ColorPair::default());
    let id_low = low.add_to_screen(&mut screens, Layer::Lower, Coordinate { column: 2, row: 3 });
    assert_eq!((id_up, id_low), (0, 0));
    let second = low.add_to_screen(&mut screens, Layer::Lower, Coordinate { column: 0, row: 0 });
    assert_eq!(second, 1);
    let drawn = update(&screens);
    let order: Vec<(Layer, u16)> = drawn.iter().map(|e| (e.0, e.1)).collect();
    assert_eq!(order, vec![(Layer::Lower, 0), (Layer::Lower, 1), (Layer::Upper, 0)]);
}

#[test]
fn each_request_key_is_logged_once() {
    let mut log = TextLog::new();
    assert!(log.first_visit("k"));
    assert!(!log.first_visit("k"));
    assert!(log.first_visit("other"));
    assert_eq!(flag_binary(8), "0b00001000");
    assert_eq!(flag_binary(0), "0b00000000");
    assert_eq!(flag_binary(300), "0b100101100");
    let context = dfi18n::translation::TranslationContext::markup_text_box {
        address: 0,
        markup: String::new(),
        viewscreen: String::new(),
        coordinate: Coordinate::default(),
    };
    assert_eq!(context_hook_name(&context), "mtb_process_string_to_lines");
}
