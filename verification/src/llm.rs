//! The model providers (Ollama, and OpenAI-compatible APIs): which one the
//! settings choose, what is sent, and how each reply and each streamed
//! record is judged. The HTTP exchange itself happens outside the library;
//! it hands the statuses, bodies and records back here.
use vstd::prelude::*;
use crate::text::{
    chars_of, string_of, push_str, push_decimal, dec, trim, trim_range, starts_with, range_starts_with,
    range_eq, lowercase, lower_range, push_range,
};
use crate::config::Config;

verus! {

/// Who wrote a chat message.
#[derive(Debug, Clone, Copy, PartialEq, Eq, Structural)]
pub enum Role {
    System,
    User,
    Assistant,
}

/// The name of a role as the providers expect it.
pub open spec fn role_name(r: Role) -> Seq<char> {
    match r {
        Role::System => "system"@,
        Role::User => "user"@,
        Role::Assistant => "assistant"@,
    }
}

impl Role {
    /// The role's name in lower case (`system`, `user`, `assistant`).
    pub fn name(&self) -> (s: String)
        ensures
            s@ == role_name(*self),
    {
        match self {
            Role::System => string_of(&chars_of("system")),
            Role::User => string_of(&chars_of("user")),
            Role::Assistant => string_of(&chars_of("assistant")),
        }
    }
}

/// One chat message.
#[derive(Debug, Clone)]
pub struct Message {
    pub role: Role,
    pub content: String,
}

/// Why talking to a provider failed.
#[derive(Debug, PartialEq, Eq)]
pub enum LlmError {
    /// The settings name neither `ollama` nor `openai`.
    UnknownProvider(String),
    /// An OpenAI-compatible provider without an API key.
    MissingApiKey,
    /// The first request to Ollama could not be sent (the server's URL).
    OllamaUnreachable(String),
    /// The retry to Ollama could not be sent (the server's URL).
    OllamaRetryUnreachable(String),
    /// Ollama does not have the model.
    ModelNotFound(String),
    /// Ollama answered with an error (the formatted status and body).
    OllamaStatus(String),
    /// The retry without `think` failed too (its formatted error, and the
    /// first attempt's status).
    RetryFailed(String, String),
    /// A streamed record that is not JSON (the line).
    InvalidStreamJson(String),
    /// Ollama reported an error inside the stream.
    StreamError(String),
    /// The output hit the token cap.
    OutputTruncated,
    /// The model called a tool instead of writing a message.
    ToolCall,
    /// Reading the stream failed.
    StreamRead(String),
    /// An OpenAI-compatible API could not be reached (its URL).
    ApiUnreachable(String),
    /// An OpenAI-compatible API answered with an error (status, body).
    ApiStatus(String, String),
}

/// Tokens the model may produce for one message.
pub const NUM_PREDICT: u32 = 512;

/// The message of each error.
pub open spec fn llm_error_message(e: LlmError) -> Seq<char> {
    match e {
        LlmError::UnknownProvider(p) => "unknown provider: "@ + p@ + ". Use \"ollama\" or \"openai\"."@,
        LlmError::MissingApiKey => "ACM_API_KEY not set. Run \"acm config set api_key=<key>\""@,
        LlmError::OllamaUnreachable(u) => "cannot connect to Ollama at "@ + u@ + ". Is it running?"@,
        LlmError::OllamaRetryUnreachable(u) => "cannot connect to Ollama at "@ + u@,
        LlmError::ModelNotFound(m) => "model "@ + m@ + " not found. Run ollama pull "@ + m@
            + " or acm config set model=<name>"@,
        LlmError::OllamaStatus(t) => t@,
        LlmError::RetryFailed(t, first) => t@ + " (retry without \"think\" also failed; first attempt was "@
            + first@ + ")"@,
        LlmError::InvalidStreamJson(l) => "invalid Ollama stream JSON: "@ + l@,
        LlmError::StreamError(m) => "Ollama stream error: "@ + m@,
        LlmError::OutputTruncated => "model output hit the "@ + dec(NUM_PREDICT as nat)
            + "-token cap and is truncated. Re-run, or use a model that follows the format more closely."@,
        LlmError::ToolCall => "model returned a tool call instead of a commit message. This model is not usable with acm \u{2014} try another (e.g. a coder model)."@,
        LlmError::StreamRead(m) => "stream read error: "@ + m@,
        LlmError::ApiUnreachable(u) => "cannot connect to API at "@ + u@,
        LlmError::ApiStatus(st, body) => "API returned "@ + st@ + ": "@ + body@,
    }
}

impl LlmError {
    /// The message shown to the user.
    pub fn message(&self) -> (s: String)
        ensures
            s@ == llm_error_message(*self),
    {
        let mut out: Vec<char> = Vec::new();
        match self {
            LlmError::UnknownProvider(p) => {
                push_str(&mut out, "unknown provider: ");
                push_str(&mut out, p.as_str());
                push_str(&mut out, ". Use \"ollama\" or \"openai\".");
            },
            LlmError::MissingApiKey => {
                push_str(&mut out, "ACM_API_KEY not set. Run \"acm config set api_key=<key>\"");
            },
            LlmError::OllamaUnreachable(u) => {
                push_str(&mut out, "cannot connect to Ollama at ");
                push_str(&mut out, u.as_str());
                push_str(&mut out, ". Is it running?");
            },
            LlmError::OllamaRetryUnreachable(u) => {
                push_str(&mut out, "cannot connect to Ollama at ");
                push_str(&mut out, u.as_str());
            },
            LlmError::ModelNotFound(m) => {
                push_str(&mut out, "model ");
                push_str(&mut out, m.as_str());
                push_str(&mut out, " not found. Run ollama pull ");
                push_str(&mut out, m.as_str());
                push_str(&mut out, " or acm config set model=<name>");
            },
            LlmError::OllamaStatus(t) => {
                push_str(&mut out, t.as_str());
            },
            LlmError::RetryFailed(t, first) => {
                push_str(&mut out, t.as_str());
                push_str(&mut out, " (retry without \"think\" also failed; first attempt was ");
                push_str(&mut out, first.as_str());
                push_str(&mut out, ")");
            },
            LlmError::InvalidStreamJson(l) => {
                push_str(&mut out, "invalid Ollama stream JSON: ");
                push_str(&mut out, l.as_str());
            },
            LlmError::StreamError(m) => {
                push_str(&mut out, "Ollama stream error: ");
                push_str(&mut out, m.as_str());
            },
            LlmError::OutputTruncated => {
                push_str(&mut out, "model output hit the ");
                push_decimal(&mut out, NUM_PREDICT as usize);
                push_str(&mut out, "-token cap and is truncated. Re-run, or use a model that follows the format more closely.");
            },
            LlmError::ToolCall => {
                push_str(&mut out, "model returned a tool call instead of a commit message. This model is not usable with acm \u{2014} try another (e.g. a coder model).");
            },
            LlmError::StreamRead(m) => {
                push_str(&mut out, "stream read error: ");
                push_str(&mut out, m.as_str());
            },
            LlmError::ApiUnreachable(u) => {
                push_str(&mut out, "cannot connect to API at ");
                push_str(&mut out, u.as_str());
            },
            LlmError::ApiStatus(st, body) => {
                push_str(&mut out, "API returned ");
                push_str(&mut out, st.as_str());
                push_str(&mut out, ": ");
                push_str(&mut out, body.as_str());
            },
        }
        string_of(&out)
    }
}

// ---------------------------------------------------------------------------
// Providers
// ---------------------------------------------------------------------------

/// A local or remote Ollama server.
pub struct OllamaProvider {
    pub api_url: String,
    pub model: String,
}

/// An OpenAI-compatible API.
pub struct OpenAiProvider {
    pub api_url: String,
    pub model: String,
    pub api_key: String,
}

/// The provider chosen by the settings.
pub enum Provider {
    Ollama(OllamaProvider),
    OpenAi(OpenAiProvider),
}

/// The configured URL, or `default` when none is set.
pub open spec fn url_or(u: Option<Seq<char>>, default: Seq<char>) -> Seq<char> {
    match u {
        Some(x) => x,
        None => default,
    }
}

fn owned_or(o: &Option<String>, default: &str) -> (r: String)
    ensures
        r@ == url_or(crate::config::opt_view(*o), default@),
{
    match o {
        Some(s) => s.as_str().to_owned(),
        None => default.to_owned(),
    }
}

impl OllamaProvider {
    /// The settings' Ollama server (`http://localhost:11434` by default)
    /// and model.
    pub fn new(config: &Config) -> (p: OllamaProvider)
        ensures
            p.api_url@ == url_or(config@.api_url, "http://localhost:11434"@),
            p.model@ == config@.model,
    {
        OllamaProvider {
            api_url: owned_or(&config.api_url, "http://localhost:11434"),
            model: config.model.as_str().to_owned(),
        }
    }

    /// The chat endpoint.
    pub fn chat_url(&self) -> (u: String)
        ensures
            u@ == self.api_url@ + "/api/chat"@,
    {
        let mut out = chars_of(self.api_url.as_str());
        push_str(&mut out, "/api/chat");
        string_of(&out)
    }
}

impl OpenAiProvider {
    /// The settings' API (`https://api.openai.com` by default), model and
    /// key; a missing key is an error.
    pub fn new(config: &Config) -> (r: Result<OpenAiProvider, LlmError>)
        ensures
            r is Err <==> config@.api_key is None,
            r matches Err(e) ==> e is MissingApiKey,
            r matches Ok(p) ==> p.api_url@ == url_or(config@.api_url, "https://api.openai.com"@)
                && p.model@ == config@.model && Some(p.api_key@) == config@.api_key,
    {
        let api_key = match &config.api_key {
            Some(k) => k.as_str().to_owned(),
            None => { return Err(LlmError::MissingApiKey); },
        };
        Ok(OpenAiProvider {
            api_url: owned_or(&config.api_url, "https://api.openai.com"),
            model: config.model.as_str().to_owned(),
            api_key,
        })
    }

    /// The chat completions endpoint.
    pub fn chat_url(&self) -> (u: String)
        ensures
            u@ == self.api_url@ + "/v1/chat/completions"@,
    {
        let mut out = chars_of(self.api_url.as_str());
        push_str(&mut out, "/v1/chat/completions");
        string_of(&out)
    }
}

fn is_lit(s: &str, lit: &str) -> (b: bool)
    ensures
        b == (s@ == lit@),
{
    let v = chars_of(s);
    let n = v.len();
    assert(v@.subrange(0, n as int) =~= v@);
    range_eq(&v, 0, n, &chars_of(lit))
}

impl Provider {
    /// The provider the settings name: Ollama for `ollama`, an
    /// OpenAI-compatible API for `openai` (which needs a key); any other name
    /// is an error.
    pub fn from_config(config: &Config) -> (r: Result<Provider, LlmError>)
        ensures
            config@.provider == "ollama"@ ==> (r matches Ok(Provider::Ollama(p))
                && p.api_url@ == url_or(config@.api_url, "http://localhost:11434"@) && p.model@ == config@.model),
            config@.provider == "openai"@ ==> match r {
                Ok(Provider::OpenAi(p)) => config@.api_key == Some(p.api_key@)
                    && p.api_url@ == url_or(config@.api_url, "https://api.openai.com"@) && p.model@ == config@.model,
                Err(e) => e is MissingApiKey && config@.api_key is None,
                _ => false,
            },
            config@.provider != "ollama"@ && config@.provider != "openai"@ ==>
                (r matches Err(LlmError::UnknownProvider(p)) && p@ == config@.provider),
    {
        proof {
            reveal_strlit("ollama");
            reveal_strlit("openai");
            assert("ollama"@[1] != "openai"@[1]);
        }
        if is_lit(config.provider.as_str(), "ollama") {
            Ok(Provider::Ollama(OllamaProvider::new(config)))
        } else if is_lit(config.provider.as_str(), "openai") {
            match OpenAiProvider::new(config) {
                Ok(p) => Ok(Provider::OpenAi(p)),
                Err(e) => Err(e),
            }
        } else {
            Err(LlmError::UnknownProvider(config.provider.as_str().to_owned()))
        }
    }
}

// ---------------------------------------------------------------------------
// Requests and replies
// ---------------------------------------------------------------------------

/// What is sent to Ollama: the model, the messages, streaming on, at most
/// `NUM_PREDICT` tokens, and `think: false` unless it is left out for the
/// compatibility retry.
pub struct OllamaRequest {
    pub model: String,
    pub messages: Vec<Message>,
    pub stream: bool,
    pub num_predict: u32,
    pub think: Option<bool>,
}

impl OllamaProvider {
    /// The request body; `with_think` false leaves the `think` field out
    /// (older servers reject it for models without thinking support).
    pub fn request_body(&self, messages: Vec<Message>, with_think: bool) -> (b: OllamaRequest)
        ensures
            b.model@ == self.model@,
            b.messages@ == messages@,
            b.stream,
            b.num_predict == NUM_PREDICT,
            b.think == (if with_think { Some(false) } else { None::<bool> }),
    {
        OllamaRequest {
            model: self.model.as_str().to_owned(),
            messages,
            stream: true,
            num_predict: NUM_PREDICT,
            think: if with_think { Some(false) } else { None },
        }
    }
}

/// An HTTP status: its code and canonical reason phrase, if it has one.
pub struct HttpStatus {
    pub code: u16,
    pub reason: Option<String>,
}

/// How a status is printed: the code, a space, and the reason
/// (`<unknown status code>` without one).
pub open spec fn status_text(s: HttpStatus) -> Seq<char> {
    dec(s.code as nat) + " "@ + match s.reason {
        Some(r) => r@,
        None => "<unknown status code>"@,
    }
}

impl HttpStatus {
    /// The status as printed, e.g. `404 Not Found`.
    pub fn text(&self) -> (s: String)
        ensures
            s@ == status_text(*self),
    {
        let mut out: Vec<char> = Vec::new();
        push_decimal(&mut out, self.code as usize);
        push_str(&mut out, " ");
        match &self.reason {
            Some(r) => push_str(&mut out, r.as_str()),
            None => push_str(&mut out, "<unknown status code>"),
        }
        string_of(&out)
    }

    /// A 2xx status.
    pub fn is_success(&self) -> (b: bool)
        ensures
            b == (200 <= self.code < 300),
    {
        200 <= self.code && self.code < 300
    }
}

/// A response body, or the stand-in used when it could not be read.
pub fn body_or_unreadable(body: Option<String>) -> (s: String)
    ensures
        s@ == match body { Some(b) => b@, None => "<unreadable body>"@ },
{
    match body {
        Some(b) => b,
        None => string_of(&chars_of("<unreadable body>")),
    }
}

/// The statuses that may mean the server rejected the `think` field: 400
/// and 422.
pub fn is_request_validation_status(code: u16) -> (b: bool)
    ensures
        b == (code == 400 || code == 422),
{
    code == 400 || code == 422
}

/// The text of an Ollama error reply: the status alone when the trimmed
/// body is empty, else the status and the trimmed body.
pub open spec fn ollama_error_text(status: HttpStatus, body: Seq<char>) -> Seq<char> {
    if trim(body).len() == 0 {
        "Ollama returned error status: "@ + status_text(status)
    } else {
        "Ollama returned "@ + status_text(status) + ": "@ + trim(body)
    }
}

/// Format an Ollama error reply (see `ollama_error_text`).
pub fn format_ollama_error(status: &HttpStatus, body: &str) -> (s: String)
    ensures
        s@ == ollama_error_text(*status, body@),
{
    let v = chars_of(body);
    let (a, b) = trim_range(&v, 0, v.len());
    assert(v@.subrange(0, v@.len() as int) =~= v@);
    let st = status.text();
    let mut out: Vec<char> = Vec::new();
    if a == b {
        push_str(&mut out, "Ollama returned error status: ");
        push_str(&mut out, st.as_str());
    } else {
        push_str(&mut out, "Ollama returned ");
        push_str(&mut out, st.as_str());
        push_str(&mut out, ": ");
        push_range(&mut out, &v, a, b);
    }
    string_of(&out)
}

/// What to do after Ollama answered the first request.
#[derive(Debug, PartialEq, Eq)]
pub enum FirstReply {
    /// Read the stream.
    Stream,
    /// Send the request again without the `think` field.
    RetryWithoutThink,
    /// Give up with this error.
    Fail(LlmError),
}

/// Does `s` contain `w`?
pub open spec fn contains(s: Seq<char>, w: Seq<char>) -> bool {
    exists|i: int| 0 <= i && i + w.len() <= s.len() && #[trigger] s.subrange(i, i + w.len()) == w
}

fn contains_exec(v: &Vec<char>, w: &Vec<char>) -> (b: bool)
    ensures
        b == contains(v@, w@),
{
    let n = v.len();
    let m = w.len();
    if m > n {
        return false;
    }
    let last = n - m;
    let mut i: usize = 0;
    loop
        invariant
            m == w@.len(),
            n == v@.len(),
            m <= n,
            last == n - m,
            i <= last,
            forall|j: int| 0 <= j < i ==> #[trigger] v@.subrange(j, j + m) != w@,
        decreases last - i,
    {
        assert(v@.subrange(i as int, n as int).subrange(0, m as int) =~= v@.subrange(i as int, i + m));
        if range_starts_with(v, i, n, w) {
            return true;
        }
        if i == last {
            assert forall|j: int| 0 <= j && j + w@.len() <= v@.len() implies #[trigger] v@.subrange(j, j + w@.len()) != w@ by {
                assert(j <= i);
            }
            return false;
        }
        i = i + 1;
    }
}

impl OllamaProvider {
    /// Does the first reply's status call for its body to be read? (Every
    /// non-2xx status but 404.)
    pub fn needs_body(status: &HttpStatus) -> (b: bool)
        ensures
            b == (status.code != 404 && !(200 <= status.code < 300)),
    {
        status.code != 404 && !status.is_success()
    }

    /// Judge the first reply (`body` is read only when `needs_body` says so;
    /// otherwise it is not looked at).
    pub fn after_first_reply(&self, status: &HttpStatus, body: &str) -> (r: FirstReply)
        ensures
            status.code == 404 ==> (r matches FirstReply::Fail(LlmError::ModelNotFound(m)) && m@ == self.model@),
            status.code != 404 && 200 <= status.code < 300 ==> r is Stream,
            (status.code == 400 || status.code == 422) && contains(lowercase(body@), "think"@) ==> r is RetryWithoutThink,
            (status.code == 400 || status.code == 422) && !contains(lowercase(body@), "think"@) ==>
                (r matches FirstReply::Fail(LlmError::OllamaStatus(t)) && t@ == ollama_error_text(*status, body@)),
            status.code != 404 && status.code != 400 && status.code != 422 && !(200 <= status.code < 300) ==>
                (r matches FirstReply::Fail(LlmError::OllamaStatus(t)) && t@ == ollama_error_text(*status, body@)),
    {
        if status.code == 404 {
            return FirstReply::Fail(LlmError::ModelNotFound(self.model.as_str().to_owned()));
        }
        if is_request_validation_status(status.code) {
            let v = chars_of(body);
            let lower = lower_range(&v, 0, v.len());
            assert(v@.subrange(0, v@.len() as int) =~= v@);
            if contains_exec(&lower, &chars_of("think")) {
                return FirstReply::RetryWithoutThink;
            }
            return FirstReply::Fail(LlmError::OllamaStatus(format_ollama_error(status, body)));
        }
        if status.is_success() {
            return FirstReply::Stream;
        }
        FirstReply::Fail(LlmError::OllamaStatus(format_ollama_error(status, body)))
    }

    /// Judge the reply to the retry without `think`: a 2xx streams, anything
    /// else fails with its own error and the first attempt's status.
    pub fn after_retry_reply(&self, first: &HttpStatus, status: &HttpStatus, body: &str) -> (r: Result<(), LlmError>)
        ensures
            200 <= status.code < 300 ==> r is Ok,
            !(200 <= status.code < 300) ==> (r matches Err(LlmError::RetryFailed(t, f))
                && t@ == ollama_error_text(*status, body@) && f@ == status_text(*first)),
    {
        if status.is_success() {
            Ok(())
        } else {
            Err(LlmError::RetryFailed(format_ollama_error(status, body), first.text()))
        }
    }

    /// The error when a request could not be sent: the first one asks
    /// whether the server runs, the retry just names it.
    pub fn unreachable(&self, retry: bool) -> (e: LlmError)
        ensures
            retry ==> (e matches LlmError::OllamaRetryUnreachable(u) && u@ == self.api_url@),
            !retry ==> (e matches LlmError::OllamaUnreachable(u) && u@ == self.api_url@),
    {
        if retry {
            LlmError::OllamaRetryUnreachable(self.api_url.as_str().to_owned())
        } else {
            LlmError::OllamaUnreachable(self.api_url.as_str().to_owned())
        }
    }
}

impl OpenAiProvider {
    /// Judge the reply of an OpenAI-compatible API: a 2xx streams, anything
    /// else fails with the status and the body as it is.
    pub fn after_reply(&self, status: &HttpStatus, body: &str) -> (r: Result<(), LlmError>)
        ensures
            200 <= status.code < 300 ==> r is Ok,
            !(200 <= status.code < 300) ==> (r matches Err(LlmError::ApiStatus(s, b))
                && s@ == status_text(*status) && b@ == body@),
    {
        if status.is_success() {
            Ok(())
        } else {
            Err(LlmError::ApiStatus(status.text(), body.to_owned()))
        }
    }

    /// The error when the API could not be reached.
    pub fn unreachable(&self) -> (e: LlmError)
        ensures
            e matches LlmError::ApiUnreachable(u) && u@ == self.api_url@,
    {
        LlmError::ApiUnreachable(self.api_url.as_str().to_owned())
    }
}


// ---------------------------------------------------------------------------
// Streamed records
// ---------------------------------------------------------------------------

/// One record of Ollama's NDJSON stream, as plain values: the error it
/// reports (as text), the message content, `done` when it is a boolean,
/// `done_reason` when it is a string, and the number of tool calls when
/// `message.tool_calls` is an array.
pub struct OllamaRecord {
    pub error: Option<String>,
    pub content: Option<String>,
    pub done: Option<bool>,
    pub done_reason: Option<String>,
    pub tool_calls: Option<usize>,
}

/// One parsed record. A record can carry content and terminal metadata at
/// once, so every field is reported and the caller decides.
#[derive(Debug, PartialEq, Eq)]
pub struct Chunk {
    pub content: Option<String>,
    pub done: bool,
    pub done_reason: Option<String>,
    pub tool_call: bool,
}

/// A record's fields as plain values: error, content, `done`,
/// `done_reason`, number of tool calls.
pub type OllamaFields = (Option<Seq<char>>, Option<Seq<char>>, Option<bool>, Option<Seq<char>>, Option<usize>);

/// The fields of a record.
pub open spec fn record_fields(rec: OllamaRecord) -> OllamaFields {
    (
        crate::config::opt_view(rec.error),
        crate::config::opt_view(rec.content),
        rec.done,
        crate::config::opt_view(rec.done_reason),
        rec.tool_calls,
    )
}

/// `r` is what a record with fields `f` stands for: an error record fails
/// with its error; otherwise a chunk whose content is the non-empty
/// content, `done` defaults to false, and tool calls count when there is at
/// least one.
pub open spec fn chunk_of_fields(r: Result<Chunk, LlmError>, f: OllamaFields) -> bool {
    match f.0 {
        Some(m) => r matches Err(LlmError::StreamError(x)) && x@ == m,
        None => r matches Ok(c) && {
            &&& crate::config::opt_view(c.content) == (match f.1 {
                Some(t) => if t.len() > 0 { Some(t) } else { None },
                None => None,
            })
            &&& c.done == (match f.2 { Some(d) => d, None => false })
            &&& crate::config::opt_view(c.done_reason) == f.3
            &&& c.tool_call == (match f.4 { Some(n) => n > 0, None => false })
        },
    }
}

/// The chunk a record stands for (see `chunk_of_fields`).
pub fn parse_ollama_record(rec: OllamaRecord) -> (r: Result<Chunk, LlmError>)
    ensures
        chunk_of_fields(r, record_fields(rec)),
{
    match rec.error {
        Some(m) => Err(LlmError::StreamError(m)),
        None => {
            let content = match rec.content {
                Some(t) => if chars_of(t.as_str()).len() > 0 { Some(t) } else { None },
                None => None,
            };
            let done = match rec.done { Some(d) => d, None => false };
            let tool_call = match rec.tool_calls { Some(n) => n > 0, None => false };
            Ok(Chunk { content, done, done_reason: rec.done_reason, tool_call })
        },
    }
}

/// What a poll of the stream yields.
#[derive(Debug, PartialEq, Eq)]
pub enum StreamStep {
    /// A piece of the message.
    Token(String),
    /// The stream fails with this error, then ends.
    Failed(LlmError),
    /// The stream is over.
    End,
    /// Nothing to yield yet: read the next line.
    ReadLine,
}

/// The state of an Ollama stream: whether real content and tool calls were
/// seen, an error to raise on the next poll, and whether it is over.
pub struct OllamaStream {
    pub content_seen: bool,
    pub tool_call_seen: bool,
    pub pending_error: Option<LlmError>,
    pub finished: bool,
}

/// `done_reason` is `length`.
pub open spec fn hit_length(c: Chunk) -> bool {
    crate::config::opt_view(c.done_reason) == Some("length"@)
}

impl OllamaStream {
    /// A stream before its first record.
    pub fn new() -> (s: OllamaStream)
        ensures
            !s.content_seen,
            !s.tool_call_seen,
            s.pending_error is None,
            !s.finished,
    {
        OllamaStream { content_seen: false, tool_call_seen: false, pending_error: None, finished: false }
    }

    /// The error when the provider is done without real content but with a
    /// tool call.
    pub fn no_content_error(&self) -> (e: Option<LlmError>)
        ensures
            e is Some <==> self.tool_call_seen && !self.content_seen,
            e matches Some(x) ==> x is ToolCall,
    {
        if self.tool_call_seen && !self.content_seen { Some(LlmError::ToolCall) } else { None }
    }

    /// The error to raise once the provider says it is done, if any: a
    /// `length` stop means truncated output; otherwise the tool-call check.
    pub fn terminal_error(&self, chunk: &Chunk) -> (e: Option<LlmError>)
        ensures
            hit_length(*chunk) ==> (e matches Some(x) && x is OutputTruncated),
            !hit_length(*chunk) ==> (e is Some <==> self.tool_call_seen && !self.content_seen),
            !hit_length(*chunk) ==> (e matches Some(x) ==> x is ToolCall),
    {
        let is_length = match &chunk.done_reason {
            Some(r) => is_lit(r.as_str(), "length"),
            None => false,
        };
        if is_length {
            return Some(LlmError::OutputTruncated);
        }
        self.no_content_error()
    }

    /// Start a poll: a queued error is raised (and ends the stream); a
    /// finished stream ends; otherwise the next line is read.
    pub fn poll(&mut self) -> (r: StreamStep)
        ensures
            old(self).pending_error matches Some(e) ==> r == StreamStep::Failed(e) && final(self).finished
                && final(self).pending_error is None,
            old(self).pending_error is None && old(self).finished ==> r is End && *final(self) == *old(self),
            old(self).pending_error is None && !old(self).finished ==> r is ReadLine && *final(self) == *old(self),
            final(self).content_seen == old(self).content_seen,
            final(self).tool_call_seen == old(self).tool_call_seen,
    {
        let mut pending: Option<LlmError> = None;
        std::mem::swap(&mut pending, &mut self.pending_error);
        match pending {
            Some(e) => {
                self.finished = true;
                StreamStep::Failed(e)
            },
            None => {
                if self.finished { StreamStep::End } else { StreamStep::ReadLine }
            },
        }
    }

    /// A record was read (or failed to parse). Tool calls and real
    /// (non-blank) content are noted; content is yielded, and a terminal
    /// error of a `done` record is queued behind it, or raised at once when
    /// there is no content; a `done` record without either ends the stream;
    /// anything else asks for the next line. Nothing is queued unless the
    /// record carried content.
    pub fn on_record(&mut self, rec: Result<Chunk, LlmError>) -> (r: StreamStep)
        requires
            old(self).pending_error is None,
            !old(self).finished,
        ensures
            rec matches Err(e) ==> r == StreamStep::Failed(e) && final(self).finished
                && final(self).pending_error is None,
            rec matches Ok(c) ==> ({
                let tool = old(self).tool_call_seen || c.tool_call;
                let substantive = old(self).content_seen || (c.content matches Some(t) && crate::text::trim(t@).len() > 0);
                let terminal_some = c.done && (hit_length(c) || (tool && !substantive));
                &&& final(self).tool_call_seen == tool
                &&& final(self).content_seen == substantive
                &&& (c.content matches Some(t) ==> (r matches StreamStep::Token(x) && x@ == t@)
                    && (terminal_some <==> final(self).pending_error is Some)
                    && !final(self).finished)
                &&& (c.content is None && terminal_some ==> (r matches StreamStep::Failed(e)
                    && (if hit_length(c) { e is OutputTruncated } else { e is ToolCall }))
                    && final(self).finished)
                &&& (c.content is None ==> final(self).pending_error is None)
                &&& (c.content is None && !terminal_some && c.done ==> r is End && final(self).finished)
                &&& (c.content is None && !terminal_some && !c.done ==> r is ReadLine && !final(self).finished)
                &&& (final(self).pending_error matches Some(e) ==> (if hit_length(c) { e is OutputTruncated } else { e is ToolCall }))
            }),
    {
        let chunk = match rec {
            Err(e) => {
                self.finished = true;
                return StreamStep::Failed(e);
            },
            Ok(c) => c,
        };
        if chunk.tool_call {
            self.tool_call_seen = true;
        }
        let substantive = match &chunk.content {
            Some(t) => {
                let v = chars_of(t.as_str());
                let (a, b) = trim_range(&v, 0, v.len());
                assert(v@.subrange(0, v@.len() as int) =~= v@);
                a < b
            },
            None => false,
        };
        if substantive {
            self.content_seen = true;
        }
        let terminal = if chunk.done { self.terminal_error(&chunk) } else { None };
        match chunk.content {
            Some(c) => {
                self.pending_error = terminal;
                StreamStep::Token(c)
            },
            None => match terminal {
                Some(e) => {
                    self.finished = true;
                    StreamStep::Failed(e)
                },
                None => if chunk.done {
                    self.finished = true;
                    StreamStep::End
                } else {
                    StreamStep::ReadLine
                },
            },
        }
    }

    /// The stream ran out without a `done` record: it is over, and the
    /// tool-call check applies.
    pub fn on_eof(&mut self) -> (r: StreamStep)
        ensures
            final(self).finished,
            old(self).tool_call_seen && !old(self).content_seen ==> r == StreamStep::Failed(LlmError::ToolCall),
            !(old(self).tool_call_seen && !old(self).content_seen) ==> r is End,
    {
        self.finished = true;
        match self.no_content_error() {
            Some(e) => StreamStep::Failed(e),
            None => StreamStep::End,
        }
    }

    /// Reading the stream failed: the stream is over with this error.
    pub fn on_read_error(&mut self, message: String) -> (r: StreamStep)
        ensures
            final(self).finished,
            r matches StreamStep::Failed(LlmError::StreamRead(m)) && m@ == message@,
    {
        self.finished = true;
        StreamStep::Failed(LlmError::StreamRead(message))
    }
}

/// The JSON text of a server-sent event line (after `data: `), unless it is
/// the `[DONE]` marker; `None` for other lines.
pub open spec fn sse_data(line: Seq<char>) -> Option<Seq<char>> {
    if starts_with(line, "data: "@) && line.skip(6) != "[DONE]"@ {
        Some(line.skip(6))
    } else {
        None
    }
}

/// The JSON payload of an OpenAI stream line (see `sse_data`).
pub fn sse_payload(line: &str) -> (r: Option<String>)
    ensures
        match r { Some(p) => Some(p@), None => None::<Seq<char>> } == sse_data(line@),
{
    let v = chars_of(line);
    let n = v.len();
    assert(v@.subrange(0, n as int) =~= v@);
    proof {
        reveal_strlit("data: ");
    }
    if !range_starts_with(&v, 0, n, &chars_of("data: ")) {
        return None;
    }
    assert(v@.subrange(6, n as int) =~= v@.skip(6));
    if range_eq(&v, 6, n, &chars_of("[DONE]")) {
        return None;
    }
    let mut out: Vec<char> = Vec::new();
    push_range(&mut out, &v, 6, n);
    Some(string_of(&out))
}

/// The token of a stream delta: its content when that is a non-empty
/// string.
pub fn token_from_delta(content: Option<String>) -> (r: Option<String>)
    ensures
        crate::config::opt_view(r) == (match content {
            Some(t) => if t@.len() > 0 { Some(t@) } else { None },
            None => None,
        }),
{
    match content {
        Some(t) => {
            let n = chars_of(t.as_str()).len();
            if n > 0 { Some(t) } else { None }
        },
        None => None,
    }
}

/// The fields of the Ollama stream record in `line`, as
/// `serde_json::from_str` reads it: `None` when the line is not JSON;
/// otherwise the `error` field (its text when it is a string, else its JSON
/// rendering), `message.content` when it is a string, `done` when it is a
/// boolean, `done_reason` when it is a string, and the length of
/// `message.tool_calls` when it is an array.
pub uninterp spec fn ollama_fields(line: Seq<char>) -> Option<OllamaFields>;

/// Calls `serde_json::from_str` on the line and reads the record's fields
/// out of the JSON value. Trusted to give the fields that `ollama_fields`
/// names (the JSON grammar is not written out).
#[verifier::external_body]
fn read_ollama_json(line: &str) -> (r: Option<OllamaRecord>)
    ensures
        ollama_fields(line@) == match r { Some(rec) => Some(record_fields(rec)), None => None::<OllamaFields> },
{
    let v: serde_json::Value = serde_json::from_str(line).ok()?;
    let m = v.get("message");
    Some(OllamaRecord {
        error: v.get("error").map(|e| e.as_str().map(str::to_owned).unwrap_or_else(|| e.to_string())),
        content: m.and_then(|m| m.get("content")?.as_str().map(str::to_owned)),
        done: v.get("done").and_then(|d| d.as_bool()),
        done_reason: v.get("done_reason").and_then(|d| d.as_str().map(str::to_owned)),
        tool_calls: m.and_then(|m| m.get("tool_calls")?.as_array().map(|a| a.len())),
    })
}

/// Parse one NDJSON line of Ollama's stream: a line that is not JSON is an
/// error; otherwise the chunk its fields stand for (see `chunk_of_fields`).
pub fn parse_ollama_line(line: &str) -> (r: Result<Chunk, LlmError>)
    ensures
        ollama_fields(line@) is None ==> (r matches Err(LlmError::InvalidStreamJson(l)) && l@ == line@),
        ollama_fields(line@) matches Some(f) ==> chunk_of_fields(r, f),
{
    match read_ollama_json(line) {
        None => Err(LlmError::InvalidStreamJson(line.to_owned())),
        Some(rec) => parse_ollama_record(rec),
    }
}

/// `choices[0].delta.content` of the JSON text `payload`, when the text is
/// JSON and that field is a string (as `serde_json::from_str` reads it).
pub uninterp spec fn openai_delta_content(payload: Seq<char>) -> Option<Seq<char>>;

/// Calls `serde_json::from_str` on the payload and reads
/// `choices[0].delta.content`. Trusted to give what `openai_delta_content`
/// names (the JSON grammar is not written out).
#[verifier::external_body]
fn read_delta_content(payload: &str) -> (r: Option<String>)
    ensures
        crate::config::opt_view(r) == openai_delta_content(payload@),
{
    let v: serde_json::Value = serde_json::from_str(payload).ok()?;
    v.get("choices")?.get(0)?.get("delta")?.get("content")?.as_str().map(str::to_owned)
}

/// The token of one line of an OpenAI stream: the non-empty delta content
/// of a `data: ` line other than `[DONE]`; `None` otherwise.
pub fn parse_openai_line(line: &str) -> (r: Option<String>)
    ensures
        crate::config::opt_view(r) == match sse_data(line@) {
            None => None,
            Some(p) => match openai_delta_content(p) {
                Some(t) => if t.len() > 0 { Some(t) } else { None },
                None => None,
            },
        },
{
    match sse_payload(line) {
        None => None,
        Some(p) => token_from_delta(read_delta_content(p.as_str())),
    }
}
} // verus!
