use dfi18n::engine::{LoadedFile, Translator};
use dfi18n::replacer::register_default_replacers;
use dfi18n::rules::{
    is_wildcard_reference, parse_tokens, replacer_name, to_canonical_identifier, validate_identifier_format,
    IdentifierError, Token,
};
use dfi18n::ruleset::{expected_base_namespace, RuleError, RuleSetEntry, RuleSetFile};

fn file(path: &str, base: Option<&str>, rules: &[(&str, &str)]) -> LoadedFile {
    LoadedFile {
        file_name: path.to_owned(),
        relative_path: path.to_owned(),
        file: RuleSetFile {
            base: base.map(|b| b.to_owned()),
            rulesets: vec![RuleSetEntry {
                name: None,
                optional: false,
                rules: rules.iter().map(|(a, b)| (a.to_string(), b.to_string())).collect(),
            }],
        },
    }
}

fn load(files: Vec<LoadedFile>) -> Result<Translator, RuleError> {
    let mut translator = Translator::default();
    register_default_replacers(&mut translator.replacers);
    translator.load_files(&files, '/')?;
    Ok(translator)
}

#[test]
fn identifiers_are_made_canonical_against_the_base() {
    assert_eq!(to_canonical_identifier("::a::b", "x"), "::a::b");
    assert_eq!(to_canonical_identifier("%word:item", "x"), "%word:x:item");
    assert_eq!(to_canonical_identifier("%number", "x"), "%number:x");
    assert_eq!(to_canonical_identifier("thing", ""), "::thing");
    assert_eq!(to_canonical_identifier("thing", "x"), "::x::thing");
    assert_eq!(replacer_name("%word:x:item"), Some("word".to_owned()));
    assert_eq!(replacer_name("::word"), None);
    assert!(is_wildcard_reference("%any:x:rest"));
    assert!(!is_wildcard_reference("%number:x"));
}

#[test]
fn malformed_identifiers_are_named() {
    assert_eq!(validate_identifier_format("::a::b"), Ok(()));
    assert_eq!(validate_identifier_format("%word"), Err(IdentifierError::ReplacerWithoutColon));
    assert_eq!(validate_identifier_format("::a::"), Err(IdentifierError::TrailingColons));
    assert!(matches!(validate_identifier_format("::a:::b"), Err(IdentifierError::InvalidColons(_))));
}

#[test]
fn rules_are_split_into_literals_and_references() {
    let tokens = parse_tokens("", "{%number} dwarves of {::race}").unwrap();
    assert_eq!(
        tokens,
        vec![
            Token::Reference("%number:".to_owned()),
            Token::Literal(" dwarves of ".to_owned()),
            Token::Reference("::race".to_owned()),
        ]
    );
    assert!(parse_tokens("", "{oops").is_err());
}

#[test]
fn loading_reports_the_first_problem() {
    assert!(matches!(
        load(vec![file("index.toml", None, &[]), file("other.toml", None, &[])]),
        Err(RuleError::MultipleRootBases { .. })
    ));
    assert!(matches!(
        load(vec![file("a/b.toml", Some("a::c"), &[])]),
        Err(RuleError::BaseNamespaceMismatch { .. })
    ));
    assert!(matches!(
        load(vec![file("index.toml", None, &[("{missing}", "x")])]),
        Err(RuleError::UnknownReference { .. })
    ));
    assert!(matches!(
        load(vec![file("index.toml", None, &[("{%nothing:x}", "x")])]),
        Err(RuleError::UnregisteredReplacer { .. })
    ));
    assert!(matches!(
        load(vec![file("index.toml", None, &[("a", "{b}")])]),
        Err(RuleError::UnknownTranslatedReference { .. })
    ));
    assert_eq!(expected_base_namespace("a/b/index.toml", '/'), "a::b");
    assert_eq!(expected_base_namespace("a/c.toml", '/'), "a::c");
}

#[test]
fn nested_rulesets_translate_through_references() {
    let translator = load(vec![
        file("index.toml", None, &[("{race} child", "{race}孩子"), ("{%number} {race}", "{%number}个{race}")]),
        file("race.toml", Some("race"), &[("dwarf", "矮人"), ("elf", "精灵")]),
    ])
    .unwrap();
    assert_eq!(translator.translate("dwarf child"), Some("矮人孩子".to_owned()));
    assert_eq!(translator.translate("3 elf"), Some("3个精灵".to_owned()));
    assert_eq!(translator.translate("orc child"), None);
}
