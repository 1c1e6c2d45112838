use acm::config::Config;
use acm::llm::{
    format_ollama_error, is_request_validation_status, parse_ollama_line, parse_openai_line,
    sse_payload, Chunk, FirstReply, HttpStatus, LlmError, Message, OllamaProvider, OllamaStream, OpenAiProvider, Provider,
    Role, StreamStep, NUM_PREDICT,
};

fn status(code: u16, reason: &str) -> HttpStatus {
    HttpStatus { code, reason: Some(reason.to_string()) }
}

#[test]
fn error_message_includes_response_body() {
    let err = format_ollama_error(&status(400, "Bad Request"), "context length exceeded");
    assert!(err.contains("context length exceeded"), "error should include response body, got: {err}");
    assert_eq!(err, "Ollama returned 400 Bad Request: context length exceeded");
    assert_eq!(format_ollama_error(&status(500, "Internal Server Error"), "  \n"), "Ollama returned error status: 500 Internal Server Error");
    assert_eq!(HttpStatus { code: 599, reason: None }.text(), "599 <unknown status code>");
}

#[test]
fn only_request_validation_statuses_trigger_the_think_retry() {
    assert!(is_request_validation_status(400));
    assert!(is_request_validation_status(422));
    assert!(!is_request_validation_status(404));
    assert!(!is_request_validation_status(500));
}

#[test]
fn request_body_carries_options_and_think() {
    let cfg = Config { model: "qwen3-coder:30b".into(), ..Config::default() };
    let p = OllamaProvider::new(&cfg);
    let msgs = vec![Message { role: Role::User, content: "hi".into() }];
    let with = p.request_body(msgs.clone(), true);
    assert_eq!(with.think, Some(false));
    assert_eq!(with.num_predict, NUM_PREDICT);
    assert_eq!(with.num_predict, 512);
    assert!(with.stream);
    assert_eq!(with.model, "qwen3-coder:30b");
    let without = p.request_body(msgs, false);
    assert!(without.think.is_none(), "retry body must omit think entirely");
    assert_eq!(without.num_predict, NUM_PREDICT);
}

#[test]
fn ollama_parse_content_token() {
    let line = r#"{"model":"llama3","message":{"role":"assistant","content":"Hello"},"done":false}"#;
    let chunk = parse_ollama_line(line).unwrap();
    assert_eq!(chunk.content.as_deref(), Some("Hello"));
    assert!(!chunk.done);
    assert!(!chunk.tool_call);
}

#[test]
fn ollama_parse_empty_content_returns_none() {
    let line = r#"{"model":"llama3","message":{"role":"assistant","content":""},"done":true}"#;
    let chunk = parse_ollama_line(line).unwrap();
    assert_eq!(chunk.content, None);
    assert!(chunk.done);
}

#[test]
fn parse_reports_tool_calls() {
    let line = r#"{"message":{"role":"assistant","content":"","tool_calls":[{"function":{"name":"open_file"}}]},"done":true,"done_reason":"stop"}"#;
    let chunk = parse_ollama_line(line).unwrap();
    assert!(chunk.tool_call, "tool_calls must be reported");
    assert_eq!(chunk.content, None);
    assert!(chunk.done);
}

#[test]
fn parse_reports_content_and_terminal_metadata_together() {
    let line = r#"{"message":{"role":"assistant","content":"tail"},"done":true,"done_reason":"length"}"#;
    let chunk = parse_ollama_line(line).unwrap();
    assert_eq!(chunk.content.as_deref(), Some("tail"));
    assert!(chunk.done);
    assert_eq!(chunk.done_reason.as_deref(), Some("length"));
}

#[test]
fn parse_empty_tool_calls_array_is_not_a_tool_call() {
    let line = r#"{"message":{"role":"assistant","content":"x","tool_calls":[]},"done":false}"#;
    assert!(!parse_ollama_line(line).unwrap().tool_call);
}

#[test]
fn parse_invalid_json_returns_error() {
    let err = parse_ollama_line("not json").unwrap_err();
    assert!(err.message().contains("invalid Ollama stream JSON"), "got: {}", err.message());
}

#[test]
fn parse_missing_message_returns_none() {
    let line = r#"{"model":"llama3","done":true}"#;
    assert_eq!(parse_ollama_line(line).unwrap().content, None);
}

#[test]
fn parse_error_payload_returns_error() {
    let line = r#"{"error":"context length exceeded"}"#;
    let err = parse_ollama_line(line).unwrap_err();
    assert!(err.message().contains("context length exceeded"), "got: {}", err.message());
    assert_eq!(err.message(), "Ollama stream error: context length exceeded");
}

#[test]
fn openai_parse_content_token() {
    let line = r#"data: {"id":"x","object":"chat.completion.chunk","choices":[{"delta":{"content":"Hello"},"index":0}]}"#;
    assert_eq!(parse_openai_line(line), Some("Hello".to_string()));
}

#[test]
fn parse_done_returns_none() {
    assert_eq!(parse_openai_line("data: [DONE]"), None);
    assert_eq!(sse_payload("data: [DONE]"), None);
}

#[test]
fn parse_empty_line_returns_none() {
    assert_eq!(parse_openai_line(""), None);
}

#[test]
fn parse_no_data_prefix_returns_none() {
    assert_eq!(parse_openai_line("event: message"), None);
}

#[test]
fn parse_delta_without_content_returns_none() {
    let line = r#"data: {"id":"x","choices":[{"delta":{"role":"assistant"},"index":0}]}"#;
    assert_eq!(parse_openai_line(line), None);
}

#[test]
fn openai_parse_empty_content_returns_none() {
    let line = r#"data: {"id":"x","choices":[{"delta":{"content":""},"index":0}]}"#;
    assert_eq!(parse_openai_line(line), None);
}

#[test]
fn providers_from_config() {
    match Provider::from_config(&Config::default()).unwrap() {
        Provider::Ollama(p) => {
            assert_eq!(p.api_url, "http://localhost:11434");
            assert_eq!(p.chat_url(), "http://localhost:11434/api/chat");
        }
        Provider::OpenAi(_) => panic!("expected ollama"),
    }
    let openai = Config { provider: "openai".into(), ..Config::default() };
    assert!(matches!(Provider::from_config(&openai), Err(LlmError::MissingApiKey)));
    let keyed = Config { api_key: Some("k".into()), ..openai };
    match Provider::from_config(&keyed).unwrap() {
        Provider::OpenAi(p) => assert_eq!(p.chat_url(), "https://api.openai.com/v1/chat/completions"),
        Provider::Ollama(_) => panic!("expected openai"),
    }
    let other = Config { provider: "anthropic".into(), ..Config::default() };
    let err = Provider::from_config(&other).err().unwrap();
    assert_eq!(err.message(), "unknown provider: anthropic. Use \"ollama\" or \"openai\".");
    let _ = OpenAiProvider::new(&Config::default()).err().unwrap();
}

#[test]
fn first_reply_decisions() {
    let p = OllamaProvider::new(&Config::default());
    assert_eq!(p.after_first_reply(&status(200, "OK"), ""), FirstReply::Stream);
    assert_eq!(
        p.after_first_reply(&status(404, "Not Found"), ""),
        FirstReply::Fail(LlmError::ModelNotFound("llama3".into()))
    );
    assert_eq!(
        p.after_first_reply(&status(400, "Bad Request"), "unknown field THINK"),
        FirstReply::RetryWithoutThink
    );
    assert_eq!(
        p.after_first_reply(&status(422, "Unprocessable Entity"), "bad"),
        FirstReply::Fail(LlmError::OllamaStatus("Ollama returned 422 Unprocessable Entity: bad".into()))
    );
    let retry = p.after_retry_reply(&status(400, "Bad Request"), &status(500, "Internal Server Error"), "x");
    assert_eq!(
        retry.unwrap_err().message(),
        "Ollama returned 500 Internal Server Error: x (retry without \"think\" also failed; first attempt was 400 Bad Request)"
    );
    assert_eq!(
        LlmError::ModelNotFound("m".into()).message(),
        "model m not found. Run ollama pull m or acm config set model=<name>"
    );
}

fn chunk(content: Option<&str>, done: bool, reason: Option<&str>, tool: bool) -> Result<Chunk, LlmError> {
    Ok(Chunk { content: content.map(|s| s.to_string()), done, done_reason: reason.map(|s| s.to_string()), tool_call: tool })
}

#[test]
fn stream_queues_terminal_error_behind_content() {
    let mut st = OllamaStream::new();
    assert_eq!(st.poll(), StreamStep::ReadLine);
    assert_eq!(st.on_record(chunk(Some("tail"), true, Some("length"), false)), StreamStep::Token("tail".into()));
    assert_eq!(st.poll(), StreamStep::Failed(LlmError::OutputTruncated));
    assert_eq!(st.poll(), StreamStep::End);
    assert!(LlmError::OutputTruncated.message().starts_with("model output hit the 512-token cap"));
}

#[test]
fn stream_reports_tool_call_without_content() {
    let mut st = OllamaStream::new();
    assert_eq!(st.on_record(chunk(Some(" \n"), false, None, true)), StreamStep::Token(" \n".into()));
    assert_eq!(st.poll(), StreamStep::ReadLine);
    assert_eq!(st.on_record(chunk(None, true, Some("stop"), false)), StreamStep::Failed(LlmError::ToolCall));
    let mut eof = OllamaStream::new();
    assert_eq!(eof.on_record(chunk(None, false, None, true)), StreamStep::ReadLine);
    assert_eq!(eof.on_eof(), StreamStep::Failed(LlmError::ToolCall));
    let mut fine = OllamaStream::new();
    assert_eq!(fine.on_record(chunk(None, true, Some("stop"), false)), StreamStep::End);
}

#[test]
fn records_without_content_queue_nothing() {
    let mut s = OllamaStream::new();
    let tool = Ok(Chunk { content: None, done: false, done_reason: None, tool_call: true });
    assert_eq!(s.on_record(tool), StreamStep::ReadLine);
    assert!(s.pending_error.is_none());
    assert!(!s.finished);
    let done = Ok(Chunk { content: Some("ok".into()), done: false, done_reason: None, tool_call: false });
    assert_eq!(s.on_record(done), StreamStep::Token("ok".into()));
    let end = Ok(Chunk { content: None, done: true, done_reason: Some("stop".into()), tool_call: false });
    assert_eq!(s.on_record(end), StreamStep::End);
    assert!(s.finished);
    assert!(s.pending_error.is_none());
    assert_eq!(s.poll(), StreamStep::End);
}
