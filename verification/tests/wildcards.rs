use dfi18n::engine::{LoadedFile, Translator};
use dfi18n::replacer::register_default_replacers;
use dfi18n::ruleset::{RuleError, RuleSetEntry, RuleSetFile};
use dfi18n::rules::LayoutError;

fn entry(name: Option<&str>, rules: &[(&str, &str)]) -> RuleSetEntry {
    RuleSetEntry {
        name: name.map(|n| n.to_owned()),
        optional: false,
        rules: rules.iter().map(|(a, b)| (a.to_string(), b.to_string())).collect(),
    }
}

fn load(entries: Vec<RuleSetEntry>) -> Result<Translator, RuleError> {
    let mut translator = Translator::default();
    register_default_replacers(&mut translator.replacers);
    let files = vec![LoadedFile {
        file_name: "index.toml".to_owned(),
        relative_path: "index.toml".to_owned(),
        file: RuleSetFile { base: None, rulesets: entries },
    }];
    translator.load_files(&files, '/')?;
    Ok(translator)
}

fn translator_with(rules: &[(&str, &str)]) -> Translator {
    load(vec![entry(None, rules)]).unwrap()
}

#[test]
fn translates_word_and_any_captures_after_the_outer_rule_matches() {
    let translator = translator_with(&[
        ("beer", "啤酒"),
        ("iron", "铁"),
        ("plump helmet", "膨大头盔菇"),
        ("wood", "木材"),
        ("beer Barrel", "特制啤酒桶"),
        ("{%word:item} Barrel", "{%word:item}桶"),
        ("{%word:item}.", "{%word:item}。"),
        ("{%word:name} likes", "{%word:name}喜欢"),
        ("{%word:material} beer", "{%word:material}啤酒"),
        ("{%any:item} Barrel", "{%any:item}桶"),
        ("{%any:plant} seeds bag", "{%any:plant}种子袋"),
        ("Description: {%any:text}", "描述：{%any:text}"),
        ("{%any:left} made of {%any:right}", "{%any:left}制成，材料为{%any:right}"),
        ("prefix {%any:value}a", "前缀{%any:value}甲"),
    ]);

    assert_eq!(translator.translate("beer Barrel").as_deref(), Some("特制啤酒桶"));
    assert_eq!(translator.translate("iron Barrel").as_deref(), Some("铁桶"));
    assert_eq!(translator.translate("mystery Barrel").as_deref(), Some("mystery桶"));
    assert_eq!(translator.translate("beer.").as_deref(), Some("啤酒。"));
    assert_eq!(translator.translate("Dák-en's likes").as_deref(), Some("Dák-en's喜欢"));
    assert_eq!(
        translator.translate("plump helmet seeds bag").as_deref(),
        Some("膨大头盔菇种子袋")
    );
    assert_eq!(translator.translate("Description: beer").as_deref(), Some("描述：啤酒"));
    assert_eq!(
        translator.translate("beer made of wood").as_deref(),
        Some("啤酒制成，材料为木材")
    );
    assert_eq!(translator.translate("iron beer Barrel").as_deref(), Some("铁啤酒桶"));
    assert_eq!(translator.translate("Description: "), None);
    assert_eq!(translator.translate("Description: beer\nignored"), None);
    let repeated_anchor = format!("prefix {}", "a".repeat(100));
    let expected = format!("前缀{}甲", "a".repeat(99));
    assert_eq!(translator.translate(&repeated_anchor).as_deref(), Some(expected.as_str()));
}

#[test]
fn a_terminal_any_cycle_falls_back_to_the_original_text() {
    let translator = translator_with(&[("{%any:value}", "{%any:value}")]);
    assert_eq!(translator.translate("unknown text").as_deref(), Some("unknown text"));
}

#[test]
fn rejects_adjacent_or_unbounded_any_placeholders() {
    for rule in [
        ("{%any:left}{%any:right}", "{%any:left}{%any:right}"),
        ("{%any:left}{::thing}", "{%any:left}{::thing}"),
    ] {
        let result = load(vec![entry(None, &[rule]), entry(Some("thing"), &[("x", "x")])]);
        if let Err(e) = &result {
            let message = e.message();
            assert!(message.contains("unsafe wildcard layout"), "unexpected error: {message}");
        }
        match result {
            Err(RuleError::UnsafeWildcardLayout { error, .. }) => {
                assert!(matches!(
                    error,
                    LayoutError::AdjacentWildcards { .. } | LayoutError::UnboundedAny
                ));
            }
            other => panic!("unexpected result: {:?}", other.map(|_| ())),
        }
    }
}
