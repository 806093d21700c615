use dfi18n::preference::{
    compose_preference_block, preference_section_source, split_preference_block,
    split_semantic_sentences,
};

const SAMPLE: &str = "Unib Olonasàs likes native gold, steel, banded agate, glumprong wood, giant gray squirrel bone, buckets and sloth bear men for their large floppy ears. When possible, he prefers to consume giant mongoose, bat ray, goat cheese, pearl millet beer and bitter melons. He absolutely detests lizards.";

#[test]
fn splits_all_three_preference_sections() {
    let block = split_preference_block(SAMPLE).unwrap();
    assert_eq!(block.sections[0].prefixes, ["Unib Olonasàs likes"]);
    assert_eq!(block.sections[0].items[0], "native gold");
    assert_eq!(
        &block.sections[0].items[block.sections[0].items.len() - 2..],
        ["buckets", "sloth bear men for their large floppy ears"]
    );
    assert!(block.sections[0].join_last_with_and);
    assert_eq!(block.sections[1].prefixes, ["When possible", "he prefers to consume"]);
    assert_eq!(
        block.sections[1].items,
        ["giant mongoose", "bat ray", "goat cheese", "pearl millet beer", "bitter melons"]
    );
    assert!(block.sections[1].join_last_with_and);
    assert_eq!(block.sections[2].prefixes, ["He absolutely detests"]);
    assert_eq!(block.sections[2].items, ["lizards"]);
}

#[test]
fn composes_partial_translations_without_losing_original_parts() {
    let block = split_preference_block(SAMPLE).unwrap();
    let translated = compose_preference_block(&block, |part| match part {
        "Unib Olonasàs likes" => Some("Unib Olonasàs喜欢".to_owned()),
        "native gold" => Some("自然金".to_owned()),
        "He absolutely detests" => Some("他极其厌恶".to_owned()),
        "lizards" => Some("蜥蜴".to_owned()),
        _ => None,
    });
    assert!(translated.starts_with("Unib Olonasàs喜欢自然金，steel"));
    assert!(translated.contains("buckets和sloth bear men for their large floppy ears"));
    assert!(translated.contains("When possible，he prefers to consume giant mongoose"));
    assert!(translated.contains("pearl millet beer和bitter melons"));
    assert!(translated.ends_with("他极其厌恶蜥蜴。"));
}

#[test]
fn translates_the_likes_suffix_without_translating_the_subject() {
    let block = split_preference_block(SAMPLE).unwrap();
    let translated = compose_preference_block(&block, |part| match part {
        "likes" => Some("喜欢".to_owned()),
        "When possible" => Some("条件允许时".to_owned()),
        "he prefers to consume" => Some("他更喜欢食用".to_owned()),
        "He absolutely detests" => Some("他极其厌恶".to_owned()),
        _ => None,
    });

    assert!(translated.starts_with("Unib Olonasàs喜欢native gold"));
    assert!(translated.contains("条件允许时，他更喜欢食用giant mongoose"));
    assert!(translated.ends_with("他极其厌恶lizards。"));
}

#[test]
fn preference_composition_keeps_untranslated_parts_in_the_complete_block() {
    let text = "Unib Olonasàs likes native gold, steel, banded agate, glumprong wood, giant gray squirrel bone, buckets and sloth bear men for their large floppy ears. When possible, he prefers to consume giant mongoose, bat ray, goat cheese, pearl millet beer and bitter melons. He absolutely detests lizards.";
    let block = split_preference_block(text).unwrap();
    let translated = compose_preference_block(&block, |part| match part {
        "Unib Olonasàs likes" => Some("Unib Olonasàs喜欢".to_owned()),
        "native gold" => Some("自然金".to_owned()),
        "steel" => Some("钢".to_owned()),
        "When possible" => Some("条件允许时".to_owned()),
        "he prefers to consume" => Some("他更喜欢食用".to_owned()),
        "giant mongoose" => Some("巨獴".to_owned()),
        "He absolutely detests" => Some("他极其厌恶".to_owned()),
        "lizards" => Some("蜥蜴".to_owned()),
        _ => None,
    });

    assert_eq!(
        translated,
        "Unib Olonasàs喜欢自然金，钢，banded agate，glumprong wood，giant gray squirrel bone，buckets和sloth bear men for their large floppy ears。条件允许时，他更喜欢食用巨獴，bat ray，goat cheese，pearl millet beer和bitter melons。他极其厌恶蜥蜴。"
    );
}

#[test]
fn sentences_end_at_terminals_followed_by_space_and_keep_ellipses() {
    let sentences = split_semantic_sentences("He said \"Stop!\" She left... Then? ok");
    assert_eq!(sentences, ["He said \"Stop!\"", "She left... Then?", "ok"]);
}

#[test]
fn sections_are_written_back_as_their_sentences() {
    let block = split_preference_block(SAMPLE).unwrap();
    assert_eq!(
        preference_section_source(&block.sections[1]),
        "When possible, he prefers to consume giant mongoose, bat ray, goat cheese, pearl millet beer and bitter melons."
    );
    assert_eq!(preference_section_source(&block.sections[2]), "He absolutely detests lizards.");
}

#[test]
fn rejects_paragraphs_that_are_not_preferences() {
    assert!(split_preference_block("He likes a, b, c, d, e, f. When possible, he prefers to eat x. He absolutely detests y.").is_none());
    assert!(split_preference_block("Just one sentence.").is_none());
}
