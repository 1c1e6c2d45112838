//! Settings: their defaults, validation, environment overrides, the masked
//! display, and the typing of values written by `acm config set`.
use vstd::prelude::*;
use crate::text::{
    chars_of, string_of, push_str, push_decimal, range_eq, dec, parse_usize, parse_usize_range,
    parse_i64, parse_i64_range,
};

verus! {

/// The settings of the tool.
#[derive(Debug, Clone)]
pub struct Config {
    pub provider: String,
    pub model: String,
    pub api_url: Option<String>,
    pub api_key: Option<String>,
    pub max_input_tokens: usize,
    pub emoji: bool,
    pub one_line: bool,
    pub language: String,
    pub diff_mode: String,
}

/// The settings as plain values.
pub struct ConfigView {
    pub provider: Seq<char>,
    pub model: Seq<char>,
    pub api_url: Option<Seq<char>>,
    pub api_key: Option<Seq<char>>,
    pub max_input_tokens: nat,
    pub emoji: bool,
    pub one_line: bool,
    pub language: Seq<char>,
    pub diff_mode: Seq<char>,
}

/// The text of an optional string.
pub open spec fn opt_view(o: Option<String>) -> Option<Seq<char>> {
    match o {
        Some(s) => Some(s@),
        None => None,
    }
}

impl View for Config {
    type V = ConfigView;

    open spec fn view(&self) -> ConfigView {
        ConfigView {
            provider: self.provider@,
            model: self.model@,
            api_url: opt_view(self.api_url),
            api_key: opt_view(self.api_key),
            max_input_tokens: self.max_input_tokens as nat,
            emoji: self.emoji,
            one_line: self.one_line,
            language: self.language@,
            diff_mode: self.diff_mode@,
        }
    }
}

/// The defaults: Ollama with `llama3`, no URL or key, 4096 input tokens, no
/// emoji, multi-line messages in English, automatic diff mode.
pub open spec fn default_config() -> ConfigView {
    ConfigView {
        provider: "ollama"@,
        model: "llama3"@,
        api_url: None,
        api_key: None,
        max_input_tokens: 4096,
        emoji: false,
        one_line: false,
        language: "en"@,
        diff_mode: "auto"@,
    }
}

impl Default for Config {
    fn default() -> (c: Config)
        ensures
            c@ == default_config(),
    {
        Config {
            provider: string_of(&chars_of("ollama")),
            model: string_of(&chars_of("llama3")),
            api_url: None,
            api_key: None,
            max_input_tokens: 4096,
            emoji: false,
            one_line: false,
            language: string_of(&chars_of("en")),
            diff_mode: string_of(&chars_of("auto")),
        }
    }
}

/// Why settings were refused.
#[derive(Debug, PartialEq, Eq)]
pub enum ConfigError {
    /// A provider other than `ollama` or `openai`.
    UnknownProvider(String),
    /// A diff mode other than `auto`, `full`, `compact`, `budgeted`, `stat`.
    UnknownDiffMode(String),
    /// `max_input_tokens` is 0.
    ZeroMaxInputTokens,
    /// `acm config set` with a key that is not a setting.
    UnknownKey(String),
    /// `acm config set` with a value the setting cannot hold.
    InvalidValue(String),
    /// The settings file at this path is not TOML.
    InvalidToml(String),
    /// The updated settings could not be written out as TOML.
    SerializeFailed,
}

impl ConfigError {
    /// The message shown to the user.
    pub fn message(&self) -> (s: String)
        ensures
            s@ == error_message(*self),
    {
        let mut out: Vec<char> = Vec::new();
        match self {
            ConfigError::UnknownProvider(p) => {
                push_str(&mut out, "unknown provider: ");
                push_str(&mut out, p.as_str());
                push_str(&mut out, ". Use \"ollama\" or \"openai\".");
            },
            ConfigError::UnknownDiffMode(m) => {
                push_str(&mut out, "unknown diff_mode: ");
                push_str(&mut out, m.as_str());
                push_str(&mut out, ". Use \"auto\", \"full\", \"compact\", \"budgeted\", or \"stat\".");
            },
            ConfigError::ZeroMaxInputTokens => {
                push_str(&mut out, "max_input_tokens must be greater than 0");
            },
            ConfigError::UnknownKey(k) => {
                push_str(&mut out, "unknown config key: ");
                push_str(&mut out, k.as_str());
            },
            ConfigError::InvalidValue(k) => {
                push_str(&mut out, "Invalid config value for key: ");
                push_str(&mut out, k.as_str());
            },
            ConfigError::InvalidToml(p) => {
                push_str(&mut out, "Invalid TOML in config file: ");
                push_str(&mut out, p.as_str());
            },
            ConfigError::SerializeFailed => {
                push_str(&mut out, "Failed to serialize config to TOML");
            },
        }
        string_of(&out)
    }
}

/// The message of each error.
pub open spec fn error_message(e: ConfigError) -> Seq<char> {
    match e {
        ConfigError::UnknownProvider(p) => "unknown provider: "@ + p@ + ". Use \"ollama\" or \"openai\"."@,
        ConfigError::UnknownDiffMode(m) => "unknown diff_mode: "@ + m@
            + ". Use \"auto\", \"full\", \"compact\", \"budgeted\", or \"stat\"."@,
        ConfigError::ZeroMaxInputTokens => "max_input_tokens must be greater than 0"@,
        ConfigError::UnknownKey(k) => "unknown config key: "@ + k@,
        ConfigError::InvalidValue(k) => "Invalid config value for key: "@ + k@,
        ConfigError::InvalidToml(p) => "Invalid TOML in config file: "@ + p@,
        ConfigError::SerializeFailed => "Failed to serialize config to TOML"@,
    }
}

/// A provider the tool can talk to.
pub open spec fn provider_ok(p: Seq<char>) -> bool {
    p == "ollama"@ || p == "openai"@
}

/// A diff mode the tool knows.
pub open spec fn diff_mode_ok(m: Seq<char>) -> bool {
    m == "auto"@ || m == "full"@ || m == "compact"@ || m == "budgeted"@ || m == "stat"@
}

/// Settings that pass validation.
pub open spec fn valid(c: ConfigView) -> bool {
    provider_ok(c.provider) && diff_mode_ok(c.diff_mode) && c.max_input_tokens > 0
}

/// Validation accepts `auto` and the name of every diff mode (`full`,
/// `compact`, `budgeted`, `stat`): settings with the `ollama` or `openai`
/// provider, one of these modes and a positive token limit are valid.
pub proof fn lemma_every_diff_mode_valid(c: ConfigView, m: crate::diff::DiffMode)
    requires
        c.provider == "ollama"@ || c.provider == "openai"@,
        c.diff_mode == crate::diff::mode_name(m) || c.diff_mode == "auto"@,
        c.max_input_tokens > 0,
    ensures
        valid(c),
        diff_mode_ok(crate::diff::mode_name(m)),
        diff_mode_ok("auto"@) && diff_mode_ok("full"@) && diff_mode_ok("compact"@),
        diff_mode_ok("budgeted"@) && diff_mode_ok("stat"@),
{
}

/// Validation accepts nothing else: valid settings name the `ollama` or
/// `openai` provider, `auto` or the name of a diff mode, and a positive
/// token limit.
pub proof fn lemma_valid_only_known_values(c: ConfigView)
    requires
        valid(c),
    ensures
        c.provider == "ollama"@ || c.provider == "openai"@,
        c.diff_mode == "auto"@ || exists|m: crate::diff::DiffMode| crate::diff::mode_name(m) == c.diff_mode,
        c.max_input_tokens > 0,
{
    if c.diff_mode == "full"@ {
        assert(crate::diff::mode_name(crate::diff::DiffMode::Full) == c.diff_mode);
    } else if c.diff_mode == "compact"@ {
        assert(crate::diff::mode_name(crate::diff::DiffMode::Compact) == c.diff_mode);
    } else if c.diff_mode == "budgeted"@ {
        assert(crate::diff::mode_name(crate::diff::DiffMode::Budgeted) == c.diff_mode);
    } else if c.diff_mode == "stat"@ {
        assert(crate::diff::mode_name(crate::diff::DiffMode::Stat) == c.diff_mode);
    }
}

/// `e` is the error that validation reports for `c`: the provider first,
/// then the diff mode, then the token limit.
pub open spec fn validation_error(e: ConfigError, c: ConfigView) -> bool {
    if !provider_ok(c.provider) {
        e matches ConfigError::UnknownProvider(p) && p@ == c.provider
    } else if !diff_mode_ok(c.diff_mode) {
        e matches ConfigError::UnknownDiffMode(m) && m@ == c.diff_mode
    } else {
        e is ZeroMaxInputTokens
    }
}

/// Is `s` one of the literals? (exact comparison)
fn is_lit(s: &str, lit: &str) -> (b: bool)
    ensures
        b == (s@ == lit@),
{
    let v = chars_of(s);
    let n = v.len();
    assert(v@.subrange(0, n as int) =~= v@);
    range_eq(&v, 0, n, &chars_of(lit))
}

/// Check the settings: a known provider, a known diff mode, and a token
/// limit above zero.
pub fn validate(cfg: Config) -> (r: Result<Config, ConfigError>)
    ensures
        r is Ok <==> valid(cfg@),
        r matches Ok(c) ==> c@ == cfg@,
        r matches Err(e) ==> validation_error(e, cfg@),
{
    if !(is_lit(cfg.provider.as_str(), "ollama") || is_lit(cfg.provider.as_str(), "openai")) {
        return Err(ConfigError::UnknownProvider(cfg.provider));
    }
    let m = cfg.diff_mode.as_str();
    if !(is_lit(m, "auto") || is_lit(m, "full") || is_lit(m, "compact") || is_lit(m, "budgeted")
        || is_lit(m, "stat")) {
        return Err(ConfigError::UnknownDiffMode(cfg.diff_mode));
    }
    if cfg.max_input_tokens == 0 {
        return Err(ConfigError::ZeroMaxInputTokens);
    }
    Ok(cfg)
}

/// `<bool as FromStr>::from_str`: exactly `true` or `false`.
pub open spec fn parse_bool(s: Seq<char>) -> Option<bool> {
    if s == "true"@ {
        Some(true)
    } else if s == "false"@ {
        Some(false)
    } else {
        None
    }
}

/// The settings after one override of `key` with `value`: strings are
/// taken as they are, `api_url` and `api_key` become set, numbers and
/// booleans only when they parse; an unknown key or no value changes nothing.
pub open spec fn overridden(c: ConfigView, key: Seq<char>, value: Option<Seq<char>>) -> ConfigView {
    match value {
        None => c,
        Some(v) => if key == "provider"@ {
            ConfigView { provider: v, ..c }
        } else if key == "model"@ {
            ConfigView { model: v, ..c }
        } else if key == "api_url"@ {
            ConfigView { api_url: Some(v), ..c }
        } else if key == "api_key"@ {
            ConfigView { api_key: Some(v), ..c }
        } else if key == "diff_mode"@ {
            ConfigView { diff_mode: v, ..c }
        } else if key == "language"@ {
            ConfigView { language: v, ..c }
        } else if key == "max_input_tokens"@ {
            match parse_usize(v) {
                Some(n) => ConfigView { max_input_tokens: n, ..c },
                None => c,
            }
        } else if key == "emoji"@ {
            match parse_bool(v) {
                Some(b) => ConfigView { emoji: b, ..c },
                None => c,
            }
        } else if key == "one_line"@ {
            match parse_bool(v) {
                Some(b) => ConfigView { one_line: b, ..c },
                None => c,
            }
        } else {
            c
        },
    }
}

fn bool_of(s: &str) -> (r: Option<bool>)
    ensures
        r == parse_bool(s@),
{
    if is_lit(s, "true") {
        Some(true)
    } else if is_lit(s, "false") {
        Some(false)
    } else {
        None
    }
}

/// Apply one environment override of `key` to the settings (see
/// `overridden`).
pub fn apply_env_override(cfg: &mut Config, key: &str, value: Option<&str>)
    ensures
        final(cfg)@ == overridden(old(cfg)@, key@, match value { Some(v) => Some(v@), None => None }),
{
    let v = match value {
        None => { return; },
        Some(v) => v,
    };
    if is_lit(key, "provider") {
        cfg.provider = v.to_owned();
    } else if is_lit(key, "model") {
        cfg.model = v.to_owned();
    } else if is_lit(key, "api_url") {
        cfg.api_url = Some(v.to_owned());
    } else if is_lit(key, "api_key") {
        cfg.api_key = Some(v.to_owned());
    } else if is_lit(key, "diff_mode") {
        cfg.diff_mode = v.to_owned();
    } else if is_lit(key, "language") {
        cfg.language = v.to_owned();
    } else if is_lit(key, "max_input_tokens") {
        let chars = chars_of(v);
        assert(chars@.subrange(0, chars@.len() as int) =~= chars@);
        match parse_usize_range(&chars, 0, chars.len()) {
            Some(n) => { cfg.max_input_tokens = n; },
            None => {},
        }
    } else if is_lit(key, "emoji") {
        match bool_of(v) {
            Some(b) => { cfg.emoji = b; },
            None => {},
        }
    } else if is_lit(key, "one_line") {
        match bool_of(v) {
            Some(b) => { cfg.one_line = b; },
            None => {},
        }
    }
}

/// The `ACM_*` environment variables, one per setting (`None` when unset).
pub struct EnvVars {
    pub provider: Option<String>,
    pub model: Option<String>,
    pub api_url: Option<String>,
    pub api_key: Option<String>,
    pub diff_mode: Option<String>,
    pub language: Option<String>,
    pub max_input_tokens: Option<String>,
    pub emoji: Option<String>,
    pub one_line: Option<String>,
}

/// The settings after every environment override, in the order provider,
/// model, api_url, api_key, diff_mode, language, max_input_tokens, emoji,
/// one_line.
pub open spec fn env_applied(c: ConfigView, env: EnvVars) -> ConfigView {
    let c1 = overridden(c, "provider"@, opt_view(env.provider));
    let c2 = overridden(c1, "model"@, opt_view(env.model));
    let c3 = overridden(c2, "api_url"@, opt_view(env.api_url));
    let c4 = overridden(c3, "api_key"@, opt_view(env.api_key));
    let c5 = overridden(c4, "diff_mode"@, opt_view(env.diff_mode));
    let c6 = overridden(c5, "language"@, opt_view(env.language));
    let c7 = overridden(c6, "max_input_tokens"@, opt_view(env.max_input_tokens));
    let c8 = overridden(c7, "emoji"@, opt_view(env.emoji));
    overridden(c8, "one_line"@, opt_view(env.one_line))
}

fn opt_str(o: &Option<String>) -> (r: Option<&str>)
    ensures
        match r { Some(v) => Some(v@), None => None::<Seq<char>> } == opt_view(*o),
{
    match o {
        Some(s) => Some(s.as_str()),
        None => None,
    }
}

/// Apply all `ACM_*` environment overrides to the settings.
pub fn apply_env_overrides(cfg: &mut Config, env: &EnvVars)
    ensures
        final(cfg)@ == env_applied(old(cfg)@, *env),
{
    apply_env_override(cfg, "provider", opt_str(&env.provider));
    apply_env_override(cfg, "model", opt_str(&env.model));
    apply_env_override(cfg, "api_url", opt_str(&env.api_url));
    apply_env_override(cfg, "api_key", opt_str(&env.api_key));
    apply_env_override(cfg, "diff_mode", opt_str(&env.diff_mode));
    apply_env_override(cfg, "language", opt_str(&env.language));
    apply_env_override(cfg, "max_input_tokens", opt_str(&env.max_input_tokens));
    apply_env_override(cfg, "emoji", opt_str(&env.emoji));
    apply_env_override(cfg, "one_line", opt_str(&env.one_line));
}

/// The settings in effect: those of the file (the defaults when there is
/// none), validated, then the environment overrides, validated again.
pub fn load(file: Config, env: &EnvVars) -> (r: Result<Config, ConfigError>)
    ensures
        r is Ok <==> valid(file@) && valid(env_applied(file@, *env)),
        r matches Ok(c) ==> c@ == env_applied(file@, *env),
        r matches Err(e) ==> if valid(file@) {
            validation_error(e, env_applied(file@, *env))
        } else {
            validation_error(e, file@)
        },
{
    let mut cfg = match validate(file) {
        Ok(c) => c,
        Err(e) => { return Err(e); },
    };
    apply_env_overrides(&mut cfg, env);
    validate(cfg)
}

/// Text of an optional value, `(not set)` when absent.
pub open spec fn or_not_set(o: Option<Seq<char>>) -> Seq<char> {
    match o {
        Some(s) => s,
        None => "(not set)"@,
    }
}

/// `true` or `false`.
pub open spec fn bool_text(b: bool) -> Seq<char> {
    if b { "true"@ } else { "false"@ }
}

/// The settings as shown by `acm config show`; the API key is only said to
/// be set or not.
pub open spec fn shown(c: ConfigView) -> Seq<char> {
    "provider         = "@ + c.provider
        + "\nmodel            = "@ + c.model
        + "\napi_url          = "@ + or_not_set(c.api_url)
        + "\napi_key          = "@ + (if c.api_key is Some { "(set)"@ } else { "(not set)"@ })
        + "\nmax_input_tokens = "@ + dec(c.max_input_tokens)
        + "\nemoji            = "@ + bool_text(c.emoji)
        + "\none_line         = "@ + bool_text(c.one_line)
        + "\nlanguage         = "@ + c.language
        + "\ndiff_mode        = "@ + c.diff_mode
}

fn push_bool(out: &mut Vec<char>, b: bool)
    ensures
        final(out)@ == old(out)@ + bool_text(b),
{
    if b {
        push_str(out, "true");
    } else {
        push_str(out, "false");
    }
}

/// A human-readable listing of the settings, with the API key masked.
pub fn display(cfg: &Config) -> (s: String)
    ensures
        s@ == shown(cfg@),
{
    let mut out: Vec<char> = Vec::new();
    push_str(&mut out, "provider         = ");
    push_str(&mut out, cfg.provider.as_str());
    push_str(&mut out, "\nmodel            = ");
    push_str(&mut out, cfg.model.as_str());
    push_str(&mut out, "\napi_url          = ");
    match &cfg.api_url {
        Some(u) => push_str(&mut out, u.as_str()),
        None => push_str(&mut out, "(not set)"),
    }
    push_str(&mut out, "\napi_key          = ");
    match &cfg.api_key {
        Some(_) => push_str(&mut out, "(set)"),
        None => push_str(&mut out, "(not set)"),
    }
    push_str(&mut out, "\nmax_input_tokens = ");
    push_decimal(&mut out, cfg.max_input_tokens);
    push_str(&mut out, "\nemoji            = ");
    push_bool(&mut out, cfg.emoji);
    push_str(&mut out, "\none_line         = ");
    push_bool(&mut out, cfg.one_line);
    push_str(&mut out, "\nlanguage         = ");
    push_str(&mut out, cfg.language.as_str());
    push_str(&mut out, "\ndiff_mode        = ");
    push_str(&mut out, cfg.diff_mode.as_str());
    string_of(&out)
}

/// The listing never reveals the API key: settings that differ only in the
/// key's value are shown alike.
pub proof fn lemma_display_hides_key(c: ConfigView, k1: Seq<char>, k2: Seq<char>)
    ensures
        shown(ConfigView { api_key: Some(k1), ..c }) == shown(ConfigView { api_key: Some(k2), ..c }),
{
}

// ---------------------------------------------------------------------------
// `acm config set`
// ---------------------------------------------------------------------------

/// The names of the settings.
pub open spec fn config_key(k: Seq<char>) -> bool {
    ||| k == "provider"@
    ||| k == "model"@
    ||| k == "api_url"@
    ||| k == "api_key"@
    ||| k == "max_input_tokens"@
    ||| k == "emoji"@
    ||| k == "one_line"@
    ||| k == "language"@
    ||| k == "diff_mode"@
}

/// Is `key` the name of a setting?
pub fn is_config_key(key: &str) -> (b: bool)
    ensures
        b == config_key(key@),
{
    is_lit(key, "provider") || is_lit(key, "model") || is_lit(key, "api_url") || is_lit(key, "api_key")
        || is_lit(key, "max_input_tokens") || is_lit(key, "emoji") || is_lit(key, "one_line")
        || is_lit(key, "language") || is_lit(key, "diff_mode")
}

/// A value as it is written to the settings file.
#[derive(Debug, PartialEq, Eq)]
pub enum ConfigValue {
    Bool(bool),
    Integer(i64),
    Str(String),
}

/// The type a written value gets: `true` and `false` are booleans, what
/// parses as an `i64` is an integer, anything else a string.
pub open spec fn value_kind(v: Seq<char>, r: ConfigValue) -> bool {
    if v == "true"@ {
        r == ConfigValue::Bool(true)
    } else if v == "false"@ {
        r == ConfigValue::Bool(false)
    } else if parse_i64(v) is Some {
        r matches ConfigValue::Integer(n) && parse_i64(v) == Some(n as int)
    } else {
        r matches ConfigValue::Str(s) && s@ == v
    }
}

/// Check a `key=value` setting and type its value (see `value_kind`); an
/// unknown key is refused.
pub fn set_value(key: &str, value: &str) -> (r: Result<ConfigValue, ConfigError>)
    ensures
        r is Err <==> !config_key(key@),
        r matches Err(e) ==> e matches ConfigError::UnknownKey(k) && k@ == key@,
        r matches Ok(v) ==> value_kind(value@, v),
{
    if !is_config_key(key) {
        return Err(ConfigError::UnknownKey(key.to_owned()));
    }
    if is_lit(value, "true") {
        return Ok(ConfigValue::Bool(true));
    }
    if is_lit(value, "false") {
        return Ok(ConfigValue::Bool(false));
    }
    let chars = chars_of(value);
    assert(chars@.subrange(0, chars@.len() as int) =~= chars@);
    match parse_i64_range(&chars, 0, chars.len()) {
        Some(n) => Ok(ConfigValue::Integer(n)),
        None => Ok(ConfigValue::Str(value.to_owned())),
    }
}

/// The settings file after a write, as read back: refused when it could not
/// be read as settings (a value of the wrong type), otherwise validated.
pub fn check_written(key: &str, read_back: Option<Config>) -> (r: Result<Config, ConfigError>)
    ensures
        read_back is None ==> (r matches Err(e) && e matches ConfigError::InvalidValue(k) && k@ == key@),
        read_back matches Some(c) ==> (r is Ok <==> valid(c@)),
        read_back matches Some(c) ==> (r matches Ok(x) ==> x@ == c@),
        read_back matches Some(c) ==> (r matches Err(e) ==> validation_error(e, c@)),
{
    match read_back {
        None => Err(ConfigError::InvalidValue(key.to_owned())),
        Some(c) => validate(c),
    }
}


// ---------------------------------------------------------------------------
// The settings file as a TOML table.

#[verifier::external_type_specification]
#[verifier::external_body]
#[verifier::reject_recursive_types(K)]
#[verifier::reject_recursive_types(V)]
pub struct ExTomlMap<K, V>(toml::map::Map<K, V>);

#[verifier::external_type_specification]
#[verifier::external_body]
pub struct ExTomlValue(toml::Value);

/// What a TOML table holds: each key with the TOML text of its value (the
/// text `toml::Value`'s `Display` gives, which tells the values apart).
pub uninterp spec fn table_entries(t: toml::map::Map<String, toml::Value>) -> Map<Seq<char>, Seq<char>>;

/// The entries of the table that `toml::from_str` reads from `text`, or
/// `None` when the text is not a TOML document.
pub uninterp spec fn parsed_table(text: Seq<char>) -> Option<Map<Seq<char>, Seq<char>>>;

/// The document `toml::to_string_pretty` writes for a table with these
/// entries, or `None` when it fails.
pub uninterp spec fn table_text(entries: Map<Seq<char>, Seq<char>>) -> Option<Seq<char>>;

/// The TOML text of the string value `s` (quoted and escaped as
/// `toml::Value::String` renders it).
pub uninterp spec fn toml_string_text(s: Seq<char>) -> Seq<char>;

/// The decimal text of an integer, with `-` before a negative one.
pub open spec fn int_text(n: int) -> Seq<char> {
    if n < 0 { "-"@ + dec((-n) as nat) } else { dec(n as nat) }
}

/// The TOML text a typed value is written as.
pub open spec fn value_text(v: ConfigValue) -> Seq<char> {
    match v {
        ConfigValue::Bool(b) => bool_text(b),
        ConfigValue::Integer(n) => int_text(n as int),
        ConfigValue::Str(s) => toml_string_text(s@),
    }
}

/// The TOML text the value given on the command line is written as (see
/// `value_kind`).
pub open spec fn typed_text(v: Seq<char>) -> Seq<char> {
    if v == "true"@ {
        "true"@
    } else if v == "false"@ {
        "false"@
    } else {
        match parse_i64(v) {
            Some(n) => int_text(n),
            None => toml_string_text(v),
        }
    }
}

proof fn lemma_value_text(v: Seq<char>, r: ConfigValue)
    requires
        value_kind(v, r),
    ensures
        value_text(r) == typed_text(v),
{
}

/// The entries of an empty table.
pub open spec fn no_entries() -> Map<Seq<char>, Seq<char>> {
    Map::empty()
}

/// `toml::Table::new()`: a table with no entries.
#[verifier::external_body]
fn new_table() -> (r: toml::map::Map<String, toml::Value>)
    ensures
        table_entries(r) == no_entries(),
{
    toml::map::Map::new()
}

/// `toml::from_str` into a table: the table read from `text`, `None` when
/// the text is not TOML. Trusted to agree with `parsed_table`, which names
/// the result (the TOML grammar is not written out).
#[verifier::external_body]
fn parse_table(text: &str) -> (r: Option<toml::map::Map<String, toml::Value>>)
    ensures
        match r {
            Some(t) => parsed_table(text@) == Some(table_entries(t)),
            None => parsed_table(text@) is None,
        },
{
    toml::from_str(text).ok()
}

/// `Map::insert` of the typed value, converted to a `toml::Value` of the
/// same kind: the key now holds that value, the other entries stay. The
/// text of a boolean is `true`/`false` and that of an integer its decimal
/// form; the quoting of a string is left to `toml_string_text`.
#[verifier::external_body]
fn table_insert(t: &mut toml::map::Map<String, toml::Value>, key: &str, value: ConfigValue)
    ensures
        table_entries(*final(t)) == table_entries(*old(t)).insert(
            key@,
            match value {
                ConfigValue::Bool(b) => bool_text(b),
                ConfigValue::Integer(n) => int_text(n as int),
                ConfigValue::Str(s) => toml_string_text(s@),
            },
        ),
{
    let v = match value {
        ConfigValue::Bool(b) => toml::Value::Boolean(b),
        ConfigValue::Integer(n) => toml::Value::Integer(n),
        ConfigValue::Str(s) => toml::Value::String(s),
    };
    t.insert(key.to_owned(), v);
}

/// `toml::to_string_pretty` of the table: trusted to depend on the entries
/// alone, as `table_text` names it (the TOML writer is not written out).
#[verifier::external_body]
fn table_to_string(t: &toml::map::Map<String, toml::Value>) -> (r: Option<String>)
    ensures
        opt_view(r) == table_text(table_entries(*t)),
{
    toml::to_string_pretty(t).ok()
}

/// The entries a settings file starts from: none for an empty file,
/// otherwise those its text reads as (`None` when it is not TOML).
pub open spec fn base_entries(existing: Seq<char>) -> Option<Map<Seq<char>, Seq<char>>> {
    if existing.len() == 0 {
        Some(no_entries())
    } else {
        parsed_table(existing)
    }
}

/// The new text of the settings file at `path`, whose text is `existing`,
/// after `acm config set key=value`: the unknown key is refused first, then
/// a file that is not TOML; otherwise the file's table with `key` set to
/// the typed value (see `typed_text`), written out again.
pub fn settings_text(existing: &str, path: &str, key: &str, value: &str) -> (r: Result<String, ConfigError>)
    ensures
        !config_key(key@) ==> (r matches Err(e) && e matches ConfigError::UnknownKey(k) && k@ == key@),
        config_key(key@) && base_entries(existing@) is None ==> (r matches Err(e) && e matches ConfigError::InvalidToml(p) && p@ == path@),
        config_key(key@) ==> (base_entries(existing@) matches Some(m) ==> match table_text(m.insert(key@, typed_text(value@))) {
            Some(t) => r matches Ok(s) && s@ == t,
            None => r matches Err(e) && e is SerializeFailed,
        }),
{
    let typed = match set_value(key, value) {
        Ok(v) => v,
        Err(e) => return Err(e),
    };
    proof {
        lemma_value_text(value@, typed);
    }
    let mut table = if chars_of(existing).len() == 0 {
        new_table()
    } else {
        match parse_table(existing) {
            Some(t) => t,
            None => return Err(ConfigError::InvalidToml(path.to_owned())),
        }
    };
    table_insert(&mut table, key, typed);
    match table_to_string(&table) {
        Some(s) => Ok(s),
        None => Err(ConfigError::SerializeFailed),
    }
}

/// The key and value of a `key=value` argument, split at the first `=`
/// and trimmed; `None` without an `=`.
pub open spec fn setting_parts(pair: Seq<char>) -> Option<(Seq<char>, Seq<char>)> {
    let i = crate::text::find_char(pair, '=');
    if i >= pair.len() {
        None
    } else {
        Some((crate::text::trim(pair.take(i as int)), crate::text::trim(pair.skip((i + 1) as int))))
    }
}

/// Split a `key=value` argument (see `setting_parts`).
pub fn split_setting(pair: &str) -> (r: Option<(String, String)>)
    ensures
        match r {
            Some((k, v)) => setting_parts(pair@) == Some((k@, v@)),
            None => setting_parts(pair@) is None,
        },
{
    let v = chars_of(pair);
    let n = v.len();
    let i = crate::text::find_in_range(&v, 0, n, '=');
    assert(v@.subrange(0, n as int) =~= v@);
    if i >= n {
        return None;
    }
    let (a, b) = crate::text::trim_range(&v, 0, i);
    let (c, d) = crate::text::trim_range(&v, i + 1, n);
    let mut key: Vec<char> = Vec::new();
    crate::text::push_range(&mut key, &v, a, b);
    let mut value: Vec<char> = Vec::new();
    crate::text::push_range(&mut value, &v, c, d);
    proof {
        assert(v@.subrange(0, i as int) =~= v@.take(i as int));
        assert(v@.subrange(i + 1, n as int) =~= v@.skip(i + 1));
        assert(key@ =~= v@.subrange(a as int, b as int));
        assert(value@ =~= v@.subrange(c as int, d as int));
    }
    Some((string_of(&key), string_of(&value)))
}
} // verus!
