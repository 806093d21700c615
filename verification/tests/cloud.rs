use dfi18n::cloud::{
    accept_translation, decide_request, eligible, enable_action, has_terminal_punctuation, is_quoted,
    normalize, normalize_endpoint, rewrite_enabled, rewrite_endpoint, word_count, Begin, CacheEntry,
    CloudCache, CloudState, CloudStep, Config, EnableAction, EndpointError, Lookup, SetEndpointError,
};

fn ready_config() -> Config {
    Config {
        enabled: true,
        endpoint: "https://example.com/v1/translate".to_owned(),
        ..Config::default()
    }
}

#[test]
fn only_accepts_complete_long_sentences() {
    let config = ready_config();
    assert!(eligible(&config, "He is generally confident in his abilities.", true));
    assert!(!eligible(&config, "He is generally confident in his abilities", false));
    assert!(!eligible(&config, "No job.", true));
}

#[test]
fn accepts_quoted_text_when_enabled() {
    let config = ready_config();
    assert!(eligible(&config, "\"A sufficiently long quoted piece of game text\"", false));
}

#[test]
fn normalizes_whitespace_for_cache_keys() {
    assert_eq!(normalize("  He is\n very   calm. "), "He is very calm.");
}

#[test]
fn accepts_http_endpoint_when_explicitly_configured() {
    let mut config = ready_config();
    config.endpoint = "http://127.0.0.1/v1/translate".to_owned();
    assert!(config.is_ready());
}

#[test]
fn normalizes_cloud_hosts_and_preserves_explicit_paths() {
    assert_eq!(
        normalize_endpoint("translate.example.com").unwrap(),
        "https://translate.example.com/v1/translate"
    );
    assert_eq!(normalize_endpoint("http://127.0.0.1:8080").unwrap(), "http://127.0.0.1:8080/v1/translate");
    assert_eq!(
        normalize_endpoint("https://translate.example.com/custom").unwrap(),
        "https://translate.example.com/custom"
    );
}

#[test]
fn persists_an_endpoint_without_rewriting_the_rest_of_the_config() {
    let contents = rewrite_endpoint(
        "enabled = false\nendpoint = \"\"\nmin_words = 3\n",
        "https://translate.example.com/v1/translate",
    );
    let parsed: toml::Value = toml::from_str(&contents).unwrap();
    assert_eq!(
        parsed.get("endpoint").and_then(toml::Value::as_str),
        Some("https://translate.example.com/v1/translate")
    );
    assert_eq!(parsed.get("min_words").and_then(toml::Value::as_integer), Some(3));
}

#[test]
fn persists_enabled_state_without_rewriting_the_rest_of_the_config() {
    let contents = rewrite_enabled(
        "enabled = false\nendpoint = \"https://example.com/v1/translate\"\nmin_words = 3\n",
        true,
    );
    let parsed: toml::Value = toml::from_str(&contents).unwrap();
    assert_eq!(parsed.get("enabled").and_then(toml::Value::as_bool), Some(true));
    assert_eq!(
        parsed.get("endpoint").and_then(toml::Value::as_str),
        Some("https://example.com/v1/translate")
    );
    assert_eq!(parsed.get("min_words").and_then(toml::Value::as_integer), Some(3));
}

#[test]
fn rewriting_keeps_crlf_line_endings_and_adds_missing_settings() {
    assert_eq!(rewrite_enabled("min_words = 3\r\n", false), "enabled = false\r\nmin_words = 3\r\n");
    assert_eq!(
        rewrite_endpoint("min_words = 3\n", "http://a.example"),
        "min_words = 3\nendpoint = \"http://a.example\"\n"
    );
    assert_eq!(rewrite_enabled("  enabled   = false\nx = 1\n", true), "enabled = true\nx = 1\n");
}

#[test]
fn endpoint_errors_name_the_cause() {
    assert_eq!(normalize_endpoint("   "), Err(EndpointError::EmptyHost));
    assert_eq!(normalize_endpoint("ftp://files.example.com"), Err(EndpointError::UnsupportedScheme));
    assert_eq!(normalize_endpoint("https://"), Err(EndpointError::InvalidHost));
    assert_eq!(
        normalize_endpoint("  https://a.example/x#frag  ").unwrap(),
        "https://a.example/x"
    );
}

#[test]
fn counts_words_with_letters_and_checks_sentence_ends() {
    assert_eq!(word_count("He has 3 cats - and a dog."), 6);
    assert!(has_terminal_punctuation("He is calm.\")  "));
    assert!(!has_terminal_punctuation("He is calm..."));
    assert!(!has_terminal_punctuation("He is calm"));
    assert!(is_quoted("  \u{201c}Quoted\u{201d} "));
    assert!(is_quoted("'x'"));
    assert!(!is_quoted("\""));
}

#[test]
fn validation_brings_settings_into_range() {
    let config = Config {
        endpoint: "  http://x  ".to_owned(),
        min_words: 0,
        max_characters: 50_000,
        max_concurrent_requests: 0,
        request_timeout_seconds: 500,
        failure_retry_seconds: 0,
        ..Config::default()
    }
    .validate();
    assert_eq!(config.endpoint, "http://x");
    assert_eq!(config.min_words, 1);
    assert_eq!(config.max_characters, 20_000);
    assert_eq!(config.max_concurrent_requests, 1);
    assert_eq!(config.request_timeout_seconds, 120);
    assert_eq!(config.failure_retry_seconds, 1);
}

#[test]
fn translations_are_trimmed_and_empty_ones_refused() {
    assert_eq!(accept_translation("  你好 \n"), Some("你好".to_owned()));
    assert_eq!(accept_translation(" \t "), None);
}

#[test]
fn the_cache_answers_and_drops_stale_completions() {
    let mut cache = CloudCache::new();
    assert!(matches!(cache.lookup("a", 0), Lookup::Submit));
    cache.put("a".to_owned(), CacheEntry::Pending);
    assert!(matches!(cache.lookup("a", 0), Lookup::Wait));
    let generation = cache.generation;
    assert!(cache.complete("a".to_owned(), generation, None, 1_000, 2));
    assert!(matches!(cache.lookup("a", 2_999), Lookup::Wait));
    assert!(matches!(cache.lookup("a", 3_000), Lookup::Submit));
    assert!(cache.complete("a".to_owned(), generation, Some("甲".to_owned()), 0, 1));
    assert!(matches!(cache.lookup("a", 0), Lookup::Translated(t) if t == "甲"));
    cache.clear();
    assert!(!cache.complete("a".to_owned(), generation, Some("乙".to_owned()), 0, 1));
    assert!(matches!(cache.lookup("a", 0), Lookup::Submit));
}

#[test]
fn requests_follow_the_cache_for_eligible_text_only() {
    let config = ready_config();
    let mut cache = CloudCache::new();
    assert!(matches!(decide_request(&config, &cache, "No job.", true, 0), CloudStep::Skip));
    let text = "He is   generally confident in his abilities.";
    match decide_request(&config, &cache, text, true, 0) {
        CloudStep::Submit(key) => assert_eq!(key, "He is generally confident in his abilities."),
        other => panic!("unexpected step {other:?}"),
    }
    cache.put("He is generally confident in his abilities.".to_owned(), CacheEntry::Success("他自信。".to_owned()));
    assert!(matches!(decide_request(&config, &cache, text, true, 0), CloudStep::Translated(t) if t == "他自信。"));
}

#[test]
fn turning_on_needs_an_endpoint_and_a_loaded_file() {
    assert_eq!(enable_action(true, false, false, true), EnableAction::RefuseWithoutEndpoint);
    assert_eq!(enable_action(false, false, false, true), EnableAction::Unchanged);
    assert_eq!(enable_action(true, false, true, false), EnableAction::NotLoaded);
    assert_eq!(enable_action(true, false, true, true), EnableAction::Persist);
}

#[test]
fn the_state_starts_requests_once_and_reloads_from_its_path() {
    let mut state = CloudState::new();
    assert_eq!(state.reload(), None);
    assert_eq!(
        state.endpoint_request("example.com"),
        Err(SetEndpointError::NotLoaded)
    );
    state.load("cloud.toml".to_owned(), ready_config());
    assert_eq!(state.reload(), Some("cloud.toml".to_owned()));
    assert_eq!(
        state.endpoint_request("example.com"),
        Ok("https://example.com/v1/translate".to_owned())
    );
    let generation = state.cache.generation;
    assert_eq!(state.begin_request("k".to_owned(), 0), Begin::Started(generation));
    assert_eq!(state.begin_request("k".to_owned(), 0), Begin::Wait);
    assert!(state.finish_request("k".to_owned(), generation, Some("译".to_owned()), 0));
    assert_eq!(state.begin_request("k".to_owned(), 0), Begin::Translated("译".to_owned()));
    state.apply_enabled(false);
    assert!(!state.config.enabled);
    assert!(!state.finish_request("k".to_owned(), generation, None, 0));
    state.apply_endpoint("http://other.example/t".to_owned());
    assert_eq!(state.config.endpoint, "http://other.example/t");
    assert_eq!(state.enable_request(true), EnableAction::Persist);
}
