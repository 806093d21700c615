use dfi18n::engine::{LoadedFile, Translator};
use dfi18n::replacer::register_default_replacers;
use dfi18n::ruleset::{RuleError, RuleSetEntry, RuleSetFile};
use dfi18n::hooks::TranslationStatus;
use dfi18n::translation::TranslationContext;
use dfi18n::translator::rulesets::{local_status, RulesetTranslators};
use dfi18n::translator::simple::SimpleDictionaries;
use dfi18n::screen::{Layer, Occupation, Screens};
use dfi18n::translation::hash_input;
use dfi18n::types::{Color, ColorPair, Coordinate, Dimensions};
use dfi18n::visual_block::FrameCollector;

fn root_file(rules: &[(&str, &str)]) -> LoadedFile {
    LoadedFile {
        file_name: "index.toml".to_owned(),
        relative_path: "index.toml".to_owned(),
        file: RuleSetFile {
            base: None,
            rulesets: vec![RuleSetEntry {
                name: None,
                optional: false,
                rules: rules.iter().map(|(a, b)| (a.to_string(), b.to_string())).collect(),
            }],
        },
    }
}

#[test]
fn a_literal_rule_matches_the_start_of_a_longer_text() {
    let mut translator = Translator::default();
    register_default_replacers(&mut translator.replacers);
    translator.load_files(&vec![root_file(&[("beer", "啤酒")])], '/').unwrap();
    let partial = translator.get_all_translations("Beer Barrel", true);
    assert_eq!(partial.len(), 1);
    assert_eq!(partial[0].identifier, "::");
    assert_eq!(partial[0].matched, "Beer");
    assert_eq!(partial[0].remaining, " Barrel");
    assert_eq!(partial[0].translated, "啤酒");
    assert!(partial[0].children.is_empty());
    assert!(translator.get_all_translations("Beer Barrel", false).is_empty());
    assert_eq!(translator.translate("Beer Barrel"), None);
    assert_eq!(translator.translate("BEER"), Some("啤酒".to_owned()));
}

#[test]
fn the_hash_input_is_written_as_debug_formatting_writes_it() {
    let pair = ColorPair {
        foreground: Color { r: 1, g: 20, b: 255 },
        background: Color { r: 0, g: 0, b: 7 },
    };
    assert_eq!(
        hash_input("Urist \"McBeard\"", "dwarfmode", Some(pair), Some(42)),
        format!("{:?}/{:?}/{:?}/{:?}", "Urist \"McBeard\"", "dwarfmode", Some(pair), Some(42u32))
    );
    assert_eq!(
        hash_input("x", "y", None, None),
        format!("{:?}/{:?}/{:?}/{:?}", "x", "y", None::<ColorPair>, None::<u32>)
    );
}

#[test]
fn clearing_the_screens_forgets_occupied_tiles() {
    let mut screens = Screens::new();
    let mut occupation = Occupation::new();
    occupation.lower.push((1, 2));
    occupation.upper.push((3, 4));
    screens.clear_screens(&mut occupation);
    assert!(occupation.lower.is_empty());
    assert!(occupation.upper.is_empty());
    assert!(screens.get_text_blocks(Layer::Lower).is_empty());
    assert!(screens.get_text_blocks(Layer::Upper).is_empty());
}

#[test]
fn an_idle_frame_gives_no_blocks() {
    let mut frames = FrameCollector::new();
    assert!(frames.finish_frame().is_empty());
    frames.begin_frame();
    frames.cancel_frame();
    assert!(frames.finish_frame().is_empty());
    assert!(!frames.is_collecting());
}

#[test]
fn a_tile_offset_counts_columns_of_the_screen_height() {
    let dims = Dimensions { width: 80, height: 25 };
    assert_eq!(Coordinate { column: 3, row: 4 }.offset(dims), (3 * 25 + 4) * 8);
    assert_eq!(Coordinate { column: 0, row: 4 }.offset(Dimensions { width: 80, height: -1 }), 32);
}

#[test]
fn loading_errors_are_worded_with_quoted_names() {
    let duplicate = RuleError::DuplicateReferences { ruleset: "::".to_owned(), entry: "{::a}{::a}".to_owned() };
    assert_eq!(duplicate.message(), "Original entry \"{::a}{::a}\" has duplicate references in ruleset \"::\"");
    let roots = RuleError::MultipleRootBases { first: "a.toml".to_owned(), second: "b.toml".to_owned() };
    assert_eq!(roots.message(), "Multiple root bases found: \"a.toml\" and \"b.toml\"");
    let replacer = RuleError::UnregisteredReplacer {
        ruleset: "::".to_owned(),
        name: "nope".to_owned(),
        reference: "%nope:x".to_owned(),
    };
    assert_eq!(
        replacer.message(),
        "In ruleset \"::\", replacer \"nope\" is not registered for reference \"%nope:x\""
    );
}

#[test]
fn a_reference_rule_matches_through_the_referenced_ruleset() {
    let mut translator = Translator::default();
    register_default_replacers(&mut translator.replacers);
    let metals = LoadedFile {
        file_name: "metal.toml".to_owned(),
        relative_path: "metal.toml".to_owned(),
        file: RuleSetFile {
            base: Some("metal".to_owned()),
            rulesets: vec![RuleSetEntry {
                name: None,
                optional: false,
                rules: vec![("iron".to_owned(), "铁".to_owned()), ("iron Bar".to_owned(), "铁条".to_owned())],
            }],
        },
    };
    let files = vec![root_file(&[("{::metal} Barrel", "{::metal}桶")]), metals];
    translator.load_files(&files, '/').unwrap();
    let complete = translator.get_all_translations("iron Barrel", false);
    assert_eq!(complete.len(), 1);
    assert_eq!(complete[0].translated, "铁桶");
    assert_eq!(translator.get_all_translations("iron Barrel", true).len(), 1);
    assert_eq!(translator.translate("iron Barrel"), Some("铁桶".to_owned()));
    assert_eq!(translator.translate("gold Barrel"), None);
}

fn rules_for(lang: &str, rules: &[(&str, &str)]) -> RulesetTranslators {
    let mut translators = RulesetTranslators::new();
    translators.load(lang, &vec![root_file(rules)], '/').unwrap();
    translators
}

fn drawn(text: &str) -> TranslationContext {
    TranslationContext::visual_text_block {
        content: text.to_owned(),
        viewscreen: String::new(),
        coordinate: Coordinate::default(),
        color_pair: ColorPair::default(),
    }
}

#[test]
fn the_whole_text_is_tried_before_the_body_behind_its_color_tag() {
    let translators = rules_for("zh", &[("[C:7:0:1]Barrel", "整桶"), ("Barrel", "桶")]);
    assert_eq!(translators.translate("zh", &drawn("[C:7:0:1]Barrel")).unwrap().translated, "整桶");
    assert_eq!(translators.translate("zh", &drawn("[C:2:0:1]Barrel")).unwrap().translated, "[C:2:0:1]桶");
    assert!(translators.translate("zh", &drawn("Cask")).is_none());
}

#[test]
fn local_data_asks_the_dictionary_before_the_rules() {
    let translators = rules_for("zh", &[("beer", "啤酒"), ("wine", "葡萄酒")]);
    let mut dicts = SimpleDictionaries::new();
    dicts.insert_translation("zh", "beer", "麦酒");
    match local_status(&dicts, &translators, "zh", &drawn("beer")) {
        TranslationStatus::Translated(r) => assert_eq!(r.translated, "麦酒"),
        _ => panic!("the dictionary entry should win"),
    }
    match local_status(&dicts, &translators, "zh", &drawn("wine")) {
        TranslationStatus::Translated(r) => assert_eq!(r.translated, "葡萄酒"),
        _ => panic!("the rules should translate it"),
    }
    assert!(matches!(local_status(&dicts, &translators, "zh", &drawn("water")), TranslationStatus::Missing));
}
