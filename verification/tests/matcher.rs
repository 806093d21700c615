use dfi18n::engine::{LoadedFile, Translator};
use dfi18n::matcher::{lookup, match_text, SimpleTranslations};
use dfi18n::replacer::register_default_replacers;
use dfi18n::ruleset::{RuleSetEntry, RuleSetFile};
use dfi18n::translation::TranslationContext;
use dfi18n::translator::rulesets::RulesetTranslators;
use dfi18n::types::{ColorPair, Coordinate};

fn translator_with(rules: &[(&str, &str)]) -> Translator {
    let mut translator = Translator::default();
    register_default_replacers(&mut translator.replacers);
    let files = vec![LoadedFile {
        file_name: "index.toml".to_owned(),
        relative_path: "index.toml".to_owned(),
        file: RuleSetFile {
            base: None,
            rulesets: vec![RuleSetEntry {
                name: None,
                optional: false,
                rules: rules.iter().map(|(a, b)| (a.to_string(), b.to_string())).collect(),
            }],
        },
    }];
    translator.load_files(&files, '/').unwrap();
    translator
}

#[test]
fn an_exact_rule_always_gives_a_translation() {
    let translator = translator_with(&[("Barrel", "桶"), ("{%word:item} Barrel", "{%word:item}桶")]);
    assert_eq!(translator.translate("Barrel"), Some("桶".to_owned()));
    assert_eq!(translator.translate("barrel"), Some("桶".to_owned()));
    assert_eq!(translator.translate("Bucket"), None);
}

#[test]
fn the_matcher_prefers_the_dictionary_then_the_rules() {
    let translator = translator_with(&[("Barrel", "桶"), ("lizards", "蜥蜴")]);
    let mut simple = SimpleTranslations::new();
    simple.insert("Barrel".to_owned(), "大桶".to_owned());
    assert_eq!(lookup(&simple, Some(&translator), "Barrel"), Some("大桶".to_owned()));
    assert_eq!(lookup(&simple, Some(&translator), "lizards"), Some("蜥蜴".to_owned()));
    assert_eq!(lookup(&simple, None, "lizards"), None);
    let translate = |t: &str| lookup(&simple, Some(&translator), t);
    assert_eq!(match_text("Barrel", translate), Some("大桶".to_owned()));
    assert_eq!(match_text("Nothing here", translate), None);
    let mut words = SimpleTranslations::new();
    for (a, b) in [
        ("Urist likes", "Urist喜欢"),
        ("iron", "铁"),
        ("steel", "钢"),
        ("wood", "木材"),
        ("bone", "骨头"),
        ("cloth", "布"),
        ("When possible", "条件允许时"),
        ("he prefers to consume", "他更喜欢食用"),
        ("beer", "啤酒"),
        ("He absolutely detests", "他极其厌恶"),
    ] {
        words.insert(a.to_owned(), b.to_owned());
    }
    let translate = |t: &str| lookup(&words, Some(&translator), t);
    let text = "Urist likes iron, steel, wood, bone, cloth and beer. When possible, he prefers to consume beer. He absolutely detests lizards.";
    assert_eq!(
        match_text(text, translate),
        Some("Urist喜欢铁，钢，木材，骨头，布和啤酒。条件允许时，他更喜欢食用啤酒。他极其厌恶蜥蜴。".to_owned())
    );
}

#[test]
fn ruleset_translators_restore_a_single_leading_color() {
    let mut translators = RulesetTranslators::new();
    let files = vec![LoadedFile {
        file_name: "index.toml".to_owned(),
        relative_path: "index.toml".to_owned(),
        file: RuleSetFile {
            base: None,
            rulesets: vec![RuleSetEntry {
                name: None,
                optional: false,
                rules: vec![("Barrel".to_owned(), "桶".to_owned())],
            }],
        },
    }];
    translators.load("zh-Hans", &files, '/').unwrap();
    let context = |text: &str| TranslationContext::visual_text_block {
        content: text.to_owned(),
        viewscreen: String::new(),
        coordinate: Coordinate::default(),
        color_pair: ColorPair::default(),
    };
    assert_eq!(translators.translate("zh-Hans", &context("Barrel")).unwrap().translated, "桶");
    assert_eq!(translators.translate("zh-Hans", &context("[C:7:0:1]Barrel")).unwrap().translated, "[C:7:0:1]桶");
    assert!(translators.translate("zh-Hans", &context("[C:7:0:1]Bar[C:1:0:0]rel")).is_none());
    assert!(translators.translate("fr", &context("Barrel")).is_none());
}
