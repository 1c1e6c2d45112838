use acm::config::{
    apply_env_override, apply_env_overrides, check_written, display, is_config_key, load, set_value, settings_text, validate,
    Config,
    ConfigError, ConfigValue, EnvVars,
};

fn no_env() -> EnvVars {
    EnvVars {
        provider: None,
        model: None,
        api_url: None,
        api_key: None,
        diff_mode: None,
        language: None,
        max_input_tokens: None,
        emoji: None,
        one_line: None,
    }
}

#[test]
fn test_default_config_ollama_first() {
    let cfg = Config::default();
    assert_eq!(cfg.provider, "ollama");
    assert_eq!(cfg.model, "llama3");
    assert!(cfg.api_url.is_none());
    assert!(cfg.api_key.is_none());
    assert_eq!(cfg.max_input_tokens, 4096);
    assert!(!cfg.emoji);
    assert!(!cfg.one_line);
    assert_eq!(cfg.language, "en");
    assert_eq!(cfg.diff_mode, "auto");
}

#[test]
fn test_env_var_overrides() {
    let mut cfg = Config::default();
    apply_env_override(&mut cfg, "provider", Some("openai"));
    apply_env_override(&mut cfg, "model", Some("gpt-4o-mini"));
    apply_env_override(&mut cfg, "api_key", Some("sk-test-123"));
    apply_env_override(&mut cfg, "max_input_tokens", Some("16384"));
    apply_env_override(&mut cfg, "emoji", Some("true"));
    apply_env_override(&mut cfg, "one_line", Some("true"));
    apply_env_override(&mut cfg, "language", Some("ro"));
    apply_env_override(&mut cfg, "diff_mode", Some("staged"));

    assert_eq!(cfg.provider, "openai");
    assert_eq!(cfg.model, "gpt-4o-mini");
    assert_eq!(cfg.api_key.as_deref(), Some("sk-test-123"));
    assert_eq!(cfg.max_input_tokens, 16384);
    assert!(cfg.emoji);
    assert!(cfg.one_line);
    assert_eq!(cfg.language, "ro");
    assert_eq!(cfg.diff_mode, "staged");
}

#[test]
fn test_env_override_none_is_noop() {
    let mut cfg = Config::default();
    apply_env_override(&mut cfg, "provider", None);
    assert_eq!(cfg.provider, "ollama"); // unchanged
}

#[test]
fn env_overrides_ignore_unparsable_values_and_unknown_keys() {
    let mut cfg = Config::default();
    apply_env_override(&mut cfg, "max_input_tokens", Some("lots"));
    apply_env_override(&mut cfg, "max_input_tokens", Some("-5"));
    apply_env_override(&mut cfg, "emoji", Some("yes"));
    apply_env_override(&mut cfg, "colour", Some("blue"));
    assert_eq!(cfg.max_input_tokens, 4096);
    assert!(!cfg.emoji);
    apply_env_override(&mut cfg, "max_input_tokens", Some("+77"));
    assert_eq!(cfg.max_input_tokens, 77);
}

#[test]
fn test_display_masks_api_key() {
    let cfg = Config { api_key: Some("super-secret-key".to_string()), ..Config::default() };
    let out = display(&cfg);
    assert!(!out.contains("super-secret-key"), "api_key must not appear in display output");
    assert!(out.contains("(set)"), "Should show '(set)' for api_key");
}

#[test]
fn test_display_shows_not_set_when_no_api_key() {
    let cfg = Config::default();
    let out = display(&cfg);
    assert!(out.contains("(not set)"), "Should show '(not set)' when api_key is None");
}

#[test]
fn display_exact_layout() {
    let out = display(&Config::default());
    assert_eq!(
        out,
        "provider         = ollama\nmodel            = llama3\napi_url          = (not set)\napi_key          = (not set)\n\
         max_input_tokens = 4096\nemoji            = false\none_line         = false\nlanguage         = en\ndiff_mode        = auto"
    );
}

#[test]
fn test_load_rejects_unknown_provider() {
    let file = Config { provider: "anthropic".to_string(), ..Config::default() };
    let err = load(file, &no_env()).unwrap_err();
    assert!(err.message().contains("unknown provider"), "Expected provider validation error, got: {}", err.message());
}

#[test]
fn load_applies_environment_then_validates() {
    let env = EnvVars { provider: Some("openai".into()), max_input_tokens: Some("8192".into()), ..no_env() };
    let cfg = load(Config::default(), &env).unwrap();
    assert_eq!(cfg.provider, "openai");
    assert_eq!(cfg.max_input_tokens, 8192);
    let bad = EnvVars { diff_mode: Some("staged".into()), ..no_env() };
    assert_eq!(load(Config::default(), &bad).unwrap_err(), ConfigError::UnknownDiffMode("staged".into()));
    let zero = EnvVars { max_input_tokens: Some("0".into()), ..no_env() };
    assert_eq!(load(Config::default(), &zero).unwrap_err(), ConfigError::ZeroMaxInputTokens);
}

#[test]
fn env_overrides_all_at_once() {
    let env = EnvVars {
        api_url: Some("http://x".into()),
        language: Some("de".into()),
        one_line: Some("false".into()),
        ..no_env()
    };
    let mut cfg = Config::default();
    apply_env_overrides(&mut cfg, &env);
    assert_eq!(cfg.api_url.as_deref(), Some("http://x"));
    assert_eq!(cfg.language, "de");
    assert!(!cfg.one_line);
}

#[test]
fn test_budgeted_diff_mode_accepted() {
    let cfg = validate(Config { diff_mode: "budgeted".to_string(), ..Config::default() }).unwrap();
    assert_eq!(cfg.diff_mode, "budgeted");
}

#[test]
fn test_set_value_rejects_invalid_diff_mode() {
    let read_back = Config { diff_mode: "staged".to_string(), ..Config::default() };
    let err = check_written("diff_mode", Some(read_back)).unwrap_err();
    assert!(err.message().contains("unknown diff_mode"), "Expected diff_mode validation error, got: {}", err.message());
}

#[test]
fn test_set_value_rejects_unknown_key() {
    let err = set_value("modle", "gpt-4o").unwrap_err();
    assert!(err.message().contains("unknown config key"), "Expected unknown key validation error, got: {}", err.message());
}

/// The file text after a run of `acm config set` calls on a missing file.
fn written(pairs: &[(&str, &str)]) -> String {
    let mut text = String::new();
    for (k, v) in pairs {
        text = settings_text(&text, "/home/u/.config/acm/config.toml", k, v).unwrap();
    }
    text
}

#[test]
fn test_set_value_preserves_types() {
    assert_eq!(set_value("emoji", "true"), Ok(ConfigValue::Bool(true)));
    assert_eq!(set_value("max_input_tokens", "4096"), Ok(ConfigValue::Integer(4096)));
    assert_eq!(set_value("provider", "ollama"), Ok(ConfigValue::Str("ollama".to_string())));

    let content = written(&[("emoji", "true"), ("max_input_tokens", "4096"), ("provider", "ollama")]);
    // bool should not be quoted
    assert!(content.contains("emoji = true"), "Expected bool: {content}");
    // integer should not be quoted
    assert!(content.contains("max_input_tokens = 4096"), "Expected integer: {content}");
    // string should be quoted
    assert!(content.contains("provider = \"ollama\""), "Expected quoted string: {content}");
}

#[test]
fn test_set_value_writes_to_toml() {
    let content = written(&[("provider", "openai"), ("model", "gpt-4o"), ("emoji", "true"), ("max_input_tokens", "8192")]);
    assert_eq!(content, "emoji = true\nmax_input_tokens = 8192\nmodel = \"gpt-4o\"\nprovider = \"openai\"\n");
}

#[test]
fn settings_text_on_an_empty_file() {
    assert_eq!(settings_text("", "cfg.toml", "emoji", "true"), Ok("emoji = true\n".to_string()));
    assert_eq!(settings_text("", "cfg.toml", "max_input_tokens", "-3"), Ok("max_input_tokens = -3\n".to_string()));
}

#[test]
fn settings_text_replaces_a_value_and_keeps_the_others() {
    let before = "language = \"fr\"\nmodel = \"x\"\n";
    assert_eq!(
        settings_text(before, "cfg.toml", "model", "gpt-4o"),
        Ok("language = \"fr\"\nmodel = \"gpt-4o\"\n".to_string())
    );
}

#[test]
fn settings_text_refuses_unknown_key_then_bad_toml() {
    assert_eq!(settings_text("][", "cfg.toml", "modle", "x"), Err(ConfigError::UnknownKey("modle".into())));
    let err = settings_text("this is not = valid toml ][[[", "/tmp/acm/config.toml", "model", "x").unwrap_err();
    assert_eq!(err, ConfigError::InvalidToml("/tmp/acm/config.toml".into()));
    assert_eq!(err.message(), "Invalid TOML in config file: /tmp/acm/config.toml");
    assert_eq!(ConfigError::SerializeFailed.message(), "Failed to serialize config to TOML");
}

#[test]
fn set_value_types_edge_cases() {
    assert_eq!(set_value("model", "-12"), Ok(ConfigValue::Integer(-12)));
    assert_eq!(set_value("model", "9223372036854775807"), Ok(ConfigValue::Integer(i64::MAX)));
    assert_eq!(set_value("model", "-9223372036854775808"), Ok(ConfigValue::Integer(i64::MIN)));
    assert_eq!(set_value("model", "9223372036854775808"), Ok(ConfigValue::Str("9223372036854775808".into())));
    assert_eq!(set_value("model", "True"), Ok(ConfigValue::Str("True".into())));
    assert_eq!(set_value("model", "-"), Ok(ConfigValue::Str("-".into())));
}

#[test]
fn written_value_of_wrong_type_is_refused() {
    assert_eq!(check_written("emoji", None).unwrap_err(), ConfigError::InvalidValue("emoji".into()));
    assert_eq!(ConfigError::InvalidValue("emoji".into()).message(), "Invalid config value for key: emoji");
}

#[test]
fn config_keys_are_known() {
    for k in ["provider", "model", "api_url", "api_key", "max_input_tokens", "emoji", "one_line", "language", "diff_mode"] {
        assert!(is_config_key(k), "{k}");
    }
    assert!(!is_config_key("modle"));
}

#[test]
fn validation_messages() {
    assert_eq!(
        ConfigError::UnknownProvider("x".into()).message(),
        "unknown provider: x. Use \"ollama\" or \"openai\"."
    );
    assert_eq!(ConfigError::ZeroMaxInputTokens.message(), "max_input_tokens must be greater than 0");
    let zero = Config { max_input_tokens: 0, ..Config::default() };
    assert_eq!(validate(zero).unwrap_err(), ConfigError::ZeroMaxInputTokens);
}

#[test]
fn display_is_the_same_whatever_the_key() {
    let a = Config { api_key: Some("first-secret".to_string()), ..Config::default() };
    let b = Config { api_key: Some("other".to_string()), ..Config::default() };
    assert_eq!(display(&a), display(&b));
}

#[test]
fn split_setting_trims_key_and_value() {
    assert_eq!(acm::config::split_setting(" model = llama3 "), Some(("model".to_string(), "llama3".to_string())));
    assert_eq!(acm::config::split_setting("a=b=c"), Some(("a".to_string(), "b=c".to_string())));
    assert_eq!(acm::config::split_setting("model"), None);
}
