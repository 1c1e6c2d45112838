//! The guided setup: defaults offered for each provider, how answers are
//! read, how the connection is tested and which settings are saved.
use vstd::prelude::*;
use crate::text::{chars_of, string_of, push_str, push_range, trim, trim_range, range_eq};

verus! {

/// An answer line as typed, trimmed.
pub fn read_line(raw: &str) -> (r: String)
    ensures
        r@ == trim(raw@),
{
    let v = chars_of(raw);
    let (a, e) = trim_range(&v, 0, v.len());
    assert(v@.subrange(0, v@.len() as int) =~= v@);
    let mut t: Vec<char> = Vec::new();
    push_range(&mut t, &v, a, e);
    assert(t@ =~= trim(raw@));
    string_of(&t)
}

/// An answer line, trimmed; the default when nothing was typed.
pub fn read_line_or_default(raw: &str, default: &str) -> (r: String)
    ensures
        r@ == (if trim(raw@).len() == 0 { default@ } else { trim(raw@) }),
{
    let line = read_line(raw);
    if chars_of(line.as_str()).len() == 0 {
        default.to_owned()
    } else {
        line
    }
}

fn is_ollama(provider: &str) -> (b: bool)
    ensures
        b == (provider@ == "ollama"@),
{
    let v = chars_of(provider);
    assert(v@.subrange(0, v@.len() as int) =~= v@);
    range_eq(&v, 0, v.len(), &chars_of("ollama"))
}

/// The model offered by default: `llama3` for Ollama, `gpt-4o` otherwise.
pub fn default_model(provider: &str) -> (r: String)
    ensures
        r@ == (if provider@ == "ollama"@ { "llama3"@ } else { "gpt-4o"@ }),
{
    if is_ollama(provider) {
        string_of(&chars_of("llama3"))
    } else {
        string_of(&chars_of("gpt-4o"))
    }
}

/// The API URL offered by default: the local Ollama server, or OpenAI's.
pub fn default_api_url(provider: &str) -> (r: String)
    ensures
        r@ == (if provider@ == "ollama"@ { "http://localhost:11434"@ } else { "https://api.openai.com"@ }),
{
    if is_ollama(provider) {
        string_of(&chars_of("http://localhost:11434"))
    } else {
        string_of(&chars_of("https://api.openai.com"))
    }
}

/// Is an API key asked for? (For every provider but Ollama.)
pub fn asks_for_api_key(provider: &str) -> (b: bool)
    ensures
        b == (provider@ != "ollama"@),
{
    !is_ollama(provider)
}

/// The key typed at the prompt (already trimmed); none when empty, in
/// which case a warning is shown.
pub fn api_key_from_input(key: String) -> (r: Option<String>)
    ensures
        key@.len() == 0 ==> r is None,
        key@.len() > 0 ==> (r matches Some(k) && k@ == key@),
{
    if chars_of(key.as_str()).len() == 0 {
        None
    } else {
        Some(key)
    }
}

/// The request that tests the connection: its URL, and the authorization
/// header value when a key is sent.
pub struct ConnectionTest {
    pub url: String,
    pub authorization: Option<String>,
}

/// Ollama's model list for Ollama; otherwise the API's model list, with the
/// key as a bearer token when there is one.
pub fn connection_test(provider: &str, api_url: &str, api_key: Option<&str>) -> (t: ConnectionTest)
    ensures
        provider@ == "ollama"@ ==> t.url@ == api_url@ + "/api/tags"@ && t.authorization is None,
        provider@ != "ollama"@ ==> t.url@ == api_url@ + "/v1/models"@,
        provider@ != "ollama"@ ==> match api_key {
            Some(k) => t.authorization matches Some(a) && a@ == "Bearer "@ + k@,
            None => t.authorization is None,
        },
{
    let mut url = chars_of(api_url);
    if is_ollama(provider) {
        push_str(&mut url, "/api/tags");
        return ConnectionTest { url: string_of(&url), authorization: None };
    }
    push_str(&mut url, "/v1/models");
    let authorization = match api_key {
        Some(k) => {
            let mut a = chars_of("Bearer ");
            push_str(&mut a, k);
            Some(string_of(&a))
        },
        None => None,
    };
    ConnectionTest { url: string_of(&url), authorization }
}

/// The connection works when a reply came with a 2xx status.
pub fn connection_ok(status: Option<u16>) -> (b: bool)
    ensures
        b == (status matches Some(c) && 200 <= c < 300),
{
    match status {
        Some(c) => 200 <= c && c < 300,
        None => false,
    }
}

/// The settings saved at the end, in order: provider, model, API URL, and
/// the key when one was given.
pub fn settings_to_save(provider: &str, model: &str, api_url: &str, api_key: Option<&str>) -> (r: Vec<(String, String)>)
    ensures
        r@.len() == (if api_key is Some { 4int } else { 3int }),
        r@[0].0@ == "provider"@ && r@[0].1@ == provider@,
        r@[1].0@ == "model"@ && r@[1].1@ == model@,
        r@[2].0@ == "api_url"@ && r@[2].1@ == api_url@,
        api_key matches Some(k) ==> r@[3].0@ == "api_key"@ && r@[3].1@ == k@,
{
    let mut r: Vec<(String, String)> = Vec::new();
    r.push((string_of(&chars_of("provider")), provider.to_owned()));
    r.push((string_of(&chars_of("model")), model.to_owned()));
    r.push((string_of(&chars_of("api_url")), api_url.to_owned()));
    match api_key {
        Some(k) => r.push((string_of(&chars_of("api_key")), k.to_owned())),
        None => {},
    }
    r
}

} // verus!
