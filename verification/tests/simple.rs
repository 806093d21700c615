use dfi18n::translation::{DrawState, TextAlignment, TranslationContext, TranslationInput, TranslationRequest};
use dfi18n::translator::simple::{parse_tags, single_color_prefix, SimpleDictionaries};
use dfi18n::types::{ColorPair, Coordinate};

fn context(text: &str) -> TranslationContext {
    TranslationContext::visual_text_block {
        content: text.to_owned(),
        viewscreen: String::new(),
        coordinate: Coordinate::default(),
        color_pair: ColorPair::default(),
    }
}

fn state() -> DrawState {
    DrawState {
        view_screen: "viewscreen_dwarfmodest".to_owned(),
        coordinate: Coordinate { column: 3, row: 4 },
        gps_color_pair: ColorPair::default(),
        gps_top_color_pair: ColorPair::default(),
        color_pair: ColorPair::default(),
        top_color_pair: ColorPair::default(),
    }
}

#[test]
fn entries_answer_with_their_alignment_and_restore_a_color_tag() {
    let mut dicts = SimpleDictionaries::new();
    dicts.load_entry("zh-Hans", "Hello", "你好", "[ALIGNMENT:CENTER][X:Y]");
    let r = dicts.translate("zh-Hans", &context("Hello")).unwrap();
    assert_eq!(r.translated, "你好");
    assert_eq!(r.alignment, TextAlignment::Center);
    let r = dicts.translate("zh-Hans", &context("[C:7:0:1]Hello")).unwrap();
    assert_eq!(r.translated, "[C:7:0:1]你好");
    assert!(dicts.translate("zh-Hans", &context("[C:7:0:1]He[C:1:0:0]llo")).is_none());
    assert!(dicts.translate("en", &context("Hello")).is_none());
    dicts.insert_translation("zh-Hans", "Hello", "您好");
    let r = dicts.translate("zh-Hans", &context("Hello")).unwrap();
    assert_eq!(r.translated, "您好");
    assert_eq!(r.alignment, TextAlignment::Left);
    dicts.reset();
    assert!(!dicts.contains("zh-Hans", "Hello"));
}

#[test]
fn tags_are_read_one_after_another() {
    let tags = parse_tags("junk[A:1][bad][B:two]x[A:3][:no][C:]");
    assert_eq!(tags.len(), 2);
    assert_eq!(tags.get("A").map(|s| s.as_str()), Some("3"));
    assert_eq!(tags.get("B").map(|s| s.as_str()), Some("two"));
    assert_eq!(single_color_prefix("[C:1:2:3]body"), Some(("[C:1:2:3]".to_owned(), "body".to_owned())));
    assert_eq!(single_color_prefix("plain"), None);
}

#[test]
fn request_keys_name_the_hook_the_text_and_a_digest() {
    let a = TranslationRequest::new(TranslationInput::addst { content: "Hello".to_owned() }, &state());
    let b = TranslationRequest::new(TranslationInput::addst { content: "Hellp".to_owned() }, &state());
    let prefix = "addst:\"Hello\":";
    assert!(a.key().starts_with(prefix));
    let digest = &a.key()[prefix.len()..];
    assert_eq!(digest.len(), 64);
    assert!(digest.chars().all(|c| c.is_ascii_hexdigit() && !c.is_ascii_uppercase()));
    assert_ne!(digest, &b.key()["addst:\"Hellp\":".len()..]);
    let c = TranslationRequest::new(TranslationInput::addst { content: "say \"hi\"".to_owned() }, &state());
    assert!(c.key().starts_with("addst:\"say \\\"hi\\\"\":"));
}

#[test]
fn a_visual_sentence_has_one_key_wherever_it_is_drawn() {
    let mut other = state();
    other.coordinate = Coordinate { column: 40, row: 2 };
    let a = TranslationRequest::new(
        TranslationInput::visual_text_block {
            content: "He is calm.".to_owned(),
            coordinate: Coordinate { column: 1, row: 1 },
            color_pair: ColorPair::default(),
        },
        &state(),
    );
    let b = TranslationRequest::new(
        TranslationInput::visual_text_block {
            content: "He is calm.".to_owned(),
            coordinate: Coordinate { column: 9, row: 7 },
            color_pair: ColorPair::default(),
        },
        &other,
    );
    assert_eq!(a.key(), b.key());
}
