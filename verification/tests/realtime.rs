use dfi18n::realtime::{
    apply_translations, batch_prompt, csv_line, escape_csv_field, extract_translations, push_decimal, setup,
    RealtimeQueue, PROMPT_COUNT_END, PROMPT_HEAD, QUEUE_LIMIT,
};
use dfi18n::translator::simple::SimpleDictionaries;

#[test]
fn the_queue_skips_requested_texts_and_stops_at_its_limit() {
    let mut queue = RealtimeQueue::new();
    queue.push("a".to_owned());
    queue.push("b".to_owned());
    assert_eq!(queue.queue, vec!["a".to_owned(), "b".to_owned()]);
    let dicts = SimpleDictionaries::new();
    let batch = queue.drain_batch(&dicts, "zh-Hans", 40);
    assert_eq!(batch, vec!["a".to_owned(), "b".to_owned()]);
    assert!(queue.queue.is_empty());
    queue.push("a".to_owned());
    assert!(queue.queue.is_empty());
    for i in 0..QUEUE_LIMIT + 5 {
        queue.push(format!("t{i}"));
    }
    assert_eq!(queue.queue.len(), QUEUE_LIMIT);
}

#[test]
fn a_drain_takes_a_batch_drops_known_texts_and_keeps_the_rest_in_order() {
    let mut queue = RealtimeQueue::new();
    let mut dicts = SimpleDictionaries::new();
    dicts.insert_translation("zh-Hans", "known", "已知");
    for t in ["x", "known", "y", "x", "z", "w"] {
        queue.push(t.to_owned());
    }
    let batch = queue.drain_batch(&dicts, "zh-Hans", 2);
    assert_eq!(batch, vec!["x".to_owned(), "y".to_owned()]);
    assert_eq!(queue.queue, vec!["z".to_owned(), "w".to_owned()]);
    let batch = queue.drain_batch(&dicts, "zh-Hans", 2);
    assert_eq!(batch, vec!["z".to_owned(), "w".to_owned()]);
    assert!(queue.drain_batch(&dicts, "zh-Hans", 2).is_empty());
}

#[test]
fn answers_are_read_from_the_array_inside_the_content() {
    let batch = vec!["Cat".to_owned(), "Dog".to_owned(), "Same".to_owned()];
    let content = "Sure! {\"translations\": [\"猫\", \"\", \"Same\"]} done";
    let pairs = extract_translations(&batch, content);
    assert_eq!(pairs, vec![("Cat".to_owned(), "猫".to_owned())]);
    assert!(extract_translations(&batch, "[\"猫\"]").is_empty());
    assert!(extract_translations(&batch, "no array").is_empty());
    assert!(extract_translations(&batch, "] [").is_empty());
    assert!(extract_translations(&batch, "[not json]").is_empty());
}

#[test]
fn dictionary_rows_quote_fields_that_need_it() {
    assert_eq!(escape_csv_field("plain"), "plain");
    assert_eq!(escape_csv_field("a,b"), "\"a,b\"");
    assert_eq!(escape_csv_field("say \"hi\""), "\"say \"\"hi\"\"\"");
    assert_eq!(csv_line("Cat, big", "大猫"), Some("\"Cat, big\",大猫,\n".to_owned()));
    assert_eq!(csv_line("Same", "Same"), None);
    assert_eq!(csv_line("Cat", ""), None);
}

#[test]
fn the_prompt_counts_the_texts_and_lists_them_as_json() {
    let batch = vec!["a\"b".to_owned(), "c".to_owned()];
    let prompt = batch_prompt(&batch);
    assert!(prompt.starts_with(PROMPT_HEAD));
    assert!(prompt.ends_with(&format!("2{PROMPT_COUNT_END}[\"a\\\"b\",\"c\"]")));
    let mut s = String::new();
    push_decimal(&mut s, 1207);
    assert_eq!(s, "1207");
}

#[test]
fn applied_translations_are_found_by_later_drains() {
    let mut dicts = SimpleDictionaries::new();
    apply_translations(&mut dicts, "zh-Hans", &vec![("Cat".to_owned(), "猫".to_owned())]);
    assert!(dicts.contains("zh-Hans", "Cat"));
    assert!(!dicts.contains("en", "Cat"));
    let mut queue = RealtimeQueue::new();
    queue.push("Cat".to_owned());
    assert!(queue.drain_batch(&dicts, "zh-Hans", 5).is_empty());
}

#[test]
fn the_key_comes_from_the_environment_first() {
    assert_eq!(setup(Some("  env-key "), Some("file-key")), Some("env-key".to_owned()));
    assert_eq!(setup(Some("   "), Some(" file-key\n")), Some("file-key".to_owned()));
    assert_eq!(setup(None, Some("")), None);
    assert_eq!(setup(None, None), None);
}
