use dfi18n::designation::match_item_designation;
use dfi18n::engine::{LoadedFile, Translator};
use dfi18n::replacer::{
    register_default_replacers, AnyReplacer, NumberReplacer, ReplacerKind, ReplacerMatchHint, Replacers, WordReplacer,
};
use dfi18n::ruleset::{RuleSetEntry, RuleSetFile};

fn sorted(mut v: Vec<(String, String)>) -> Vec<(String, String)> {
    v.sort();
    v
}

fn pair(a: &str, b: &str) -> (String, String) {
    (a.to_owned(), b.to_owned())
}

#[test]
fn designations_are_peeled_from_the_outside_in() {
    assert_eq!(sorted(match_item_designation("ab")), vec![pair("", "")]);
    assert_eq!(
        sorted(match_item_designation("$*iron bar*$")),
        vec![pair("", ""), pair("$*", "*$")]
    );
    assert_eq!(
        sorted(match_item_designation("(plank) x")),
        vec![pair("", ""), pair("(", ")")]
    );
    assert_eq!(sorted(match_item_designation("plain")), vec![pair("", "")]);
}

#[test]
fn numbers_match_every_digit_prefix() {
    let results = NumberReplacer::default().replace("%number", "120 dwarves");
    let matched: Vec<&str> = results.iter().map(|r| r.matched.as_str()).collect();
    assert_eq!(matched, vec!["1", "12", "120"]);
    assert_eq!(results[2].remaining, " dwarves");
    assert!(NumberReplacer::default().replace("%number", "x1").is_empty());
}

#[test]
fn words_and_any_stop_at_their_boundaries() {
    let word = WordReplacer::default().replace(
        "%word:item",
        "iron Barrel",
        ReplacerMatchHint { next_literal: Some(" Barrel"), terminal: false },
    );
    assert!(word.iter().any(|r| r.matched == "iron" && r.remaining == " Barrel"));
    assert!(word.iter().all(|r| !r.matched.contains(' ')));
    let any = AnyReplacer::default().replace(
        "%any:plant",
        "plump helmet seeds bag",
        ReplacerMatchHint { next_literal: Some(" seeds bag"), terminal: false },
    );
    assert!(any.iter().any(|r| r.matched == "plump helmet" && r.remaining == " seeds bag"));
    let terminal = AnyReplacer::default().replace(
        "%any:rest",
        "all of it\nnext",
        ReplacerMatchHint { next_literal: None, terminal: true },
    );
    assert!(terminal.iter().all(|r| !r.matched.contains('\n')));
    assert!(terminal.iter().any(|r| r.matched == "all of it"));
}

#[test]
fn the_default_replacers_are_registered_once_each() {
    let mut replacers = Replacers::new();
    register_default_replacers(&mut replacers);
    register_default_replacers(&mut replacers);
    assert_eq!(replacers.entries.len(), 4);
    assert!(matches!(replacers.get("item_designation"), Some(ReplacerKind::ItemDesignation)));
    assert!(matches!(replacers.get("word"), Some(ReplacerKind::Word)));
    assert!(replacers.get("missing").is_none());
}

#[test]
fn designated_items_keep_their_marks_around_the_translation() {
    let mut translator = Translator::default();
    register_default_replacers(&mut translator.replacers);
    let files = vec![
        LoadedFile {
            file_name: "index.toml".to_owned(),
            relative_path: "index.toml".to_owned(),
            file: RuleSetFile {
                base: None,
                rulesets: vec![RuleSetEntry {
                    name: None,
                    optional: false,
                    rules: vec![("{%item_designation:items}".to_owned(), "{%item_designation:items}".to_owned())],
                }],
            },
        },
        LoadedFile {
            file_name: "items.toml".to_owned(),
            relative_path: "items.toml".to_owned(),
            file: RuleSetFile {
                base: Some("items".to_owned()),
                rulesets: vec![RuleSetEntry {
                    name: None,
                    optional: false,
                    rules: vec![("iron bar".to_owned(), "铁锭".to_owned())],
                }],
            },
        },
    ];
    translator.load_files(&files, '/').unwrap();
    assert_eq!(translator.translate("iron bar"), Some("铁锭".to_owned()));
    assert_eq!(translator.translate("$*iron bar*$"), Some("$*铁锭*$".to_owned()));
}

#[test]
fn captures_stop_at_the_byte_limit() {
    let long = "a".repeat(5000);
    let results = AnyReplacer::default().replace(
        "%any:rest",
        &long,
        ReplacerMatchHint { next_literal: None, terminal: true },
    );
    assert_eq!(results.len(), 1);
    assert_eq!(results[0].matched.len(), 4096);
    let many = format!("{} end", "x end ".repeat(100));
    let cut = AnyReplacer::default().replace(
        "%any:part",
        &many,
        ReplacerMatchHint { next_literal: Some(" end"), terminal: false },
    );
    assert_eq!(cut.len(), 64);
    assert!(cut.iter().all(|r| r.remaining.starts_with(" end")));
}
