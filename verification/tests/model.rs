use semcast::clock::{nanos_of, wall_nanos};
use semcast::error::SemcastError;
use semcast::model::anthropic::{
    completion_of, AnthropicProvider, ContentBlock, MessagesResponse, DEFAULT_ANTHROPIC_URL,
};
use semcast::model::mock::MockModel;
use semcast::model::ollama::{
    embed_body, embeddings_of, OllamaProvider, DEFAULT_CHAT_MODEL, DEFAULT_OLLAMA_URL,
};
use semcast::model::retry::{
    backoff, backoff_at, is_retryable, jitter, jitter_at, next_step, parse_retry_after,
    status_error, transport_error, Delay, Next, Reply, BASE_BACKOFF_MS, MAX_BACKOFF_MS,
    MAX_RETRIES,
};
use semcast::model::voyage::{
    embeddings_in_order, EmbedData, VoyageProvider, DEFAULT_VOYAGE_MODEL, DEFAULT_VOYAGE_URL,
};
use semcast::model::{
    dedicated_embedder, CompletionProvider, CompletionRequest, EmbedProvider, ModelId,
};
use serde_json::Value;

fn json(text: &str) -> Value {
    serde_json::from_str(text).unwrap()
}

fn request(system: &str, input: &str, schema: Option<Value>) -> CompletionRequest {
    CompletionRequest {
        system: system.to_owned(),
        input: input.to_owned(),
        max_tokens: 8,
        schema,
    }
}

#[test]
fn retryable_covers_rate_limits_and_server_errors() {
    for code in [408, 425, 429, 500, 502, 503, 504, 529] {
        assert!(is_retryable(code), "{code} should be retryable");
    }
    for code in [400, 401, 403, 404, 422] {
        assert!(!is_retryable(code), "{code} should be fatal");
    }
}

#[test]
fn parse_retry_after_reads_integer_seconds_only() {
    assert_eq!(parse_retry_after(Some("2")), Some(Delay::from_secs(2)));
    assert_eq!(parse_retry_after(Some("  5 ")), Some(Delay::from_secs(5)));
    assert_eq!(parse_retry_after(Some("0")), Some(Delay::from_secs(0)));
    assert_eq!(
        parse_retry_after(Some("Wed, 21 Oct 2026 07:28:00 GMT")),
        None
    );
    assert_eq!(parse_retry_after(Some("")), None);
    assert_eq!(parse_retry_after(None), None);
}

#[test]
fn retry_after_reads_what_an_integer_parse_reads() {
    assert_eq!(parse_retry_after(Some("+7")), Some(Delay::from_secs(7)));
    assert_eq!(parse_retry_after(Some("-1")), None);
    assert_eq!(
        parse_retry_after(Some("18446744073709551615")),
        Some(Delay::from_secs(u64::MAX))
    );
    assert_eq!(parse_retry_after(Some("18446744073709551616")), None);
}

#[test]
fn every_server_error_is_retryable() {
    for code in [500, 501, 505, 507, 599] {
        assert!(is_retryable(code), "{code} should be retryable");
    }
    for code in [499, 600] {
        assert!(!is_retryable(code), "{code} should be fatal");
    }
}

#[test]
fn backoff_grows_but_stays_capped() {
    for attempt in 0..8 {
        let delay = backoff(attempt);
        assert!(
            delay <= Delay::from_millis(MAX_BACKOFF_MS),
            "attempt {attempt}: {delay:?} over cap"
        );
    }
    assert!(backoff(0) >= Delay::from_millis(BASE_BACKOFF_MS / 2));
    assert!(backoff(10) >= Delay::from_millis(MAX_BACKOFF_MS / 2));
}

#[test]
fn backoff_is_half_fixed_and_half_jitter() {
    assert_eq!(backoff_at(0, 0), Delay::from_millis(125));
    assert_eq!(
        backoff_at(0, 500_000_000),
        Delay {
            secs: 0,
            nanos: 187_500_000
        }
    );
    assert_eq!(backoff_at(3, 0), Delay::from_millis(1000));
    assert_eq!(backoff_at(7, 0), Delay::from_secs(15));
    assert_eq!(backoff_at(usize::MAX, 0), Delay::from_secs(15));
}

#[test]
fn jitter_stays_within_its_span() {
    let span = Delay::from_millis(400);
    assert_eq!(jitter_at(span, 0), Delay::from_secs(0));
    assert_eq!(jitter_at(span, 250_000_000), Delay::from_millis(100));
    for _ in 0..50 {
        assert!(jitter(span) <= span);
    }
}

#[test]
fn the_clock_seeds_the_jitter() {
    assert!(wall_nanos() < 1_000_000_000);
    assert_eq!(nanos_of(Some(Delay { secs: 3, nanos: 7 })), 7);
    assert_eq!(nanos_of(None), 0);
    assert_eq!(Delay { secs: 2, nanos: 3_999_999 }.millis(), 2003);
}

#[test]
fn a_request_is_sent_again_a_bounded_number_of_times() {
    let guess = Delay::from_millis(300);
    let busy = Reply::Answered {
        status: 429,
        retry_after: None,
    };
    assert_eq!(next_step(0, &busy, guess), Next::Retry(guess));
    assert_eq!(next_step(MAX_RETRIES, &busy, guess), Next::GiveUp);
    assert_eq!(next_step(0, &Reply::Failed, guess), Next::Retry(guess));
    assert_eq!(next_step(MAX_RETRIES, &Reply::Failed, guess), Next::GiveUp);
    let told = Reply::Answered {
        status: 503,
        retry_after: Some("9"),
    };
    assert_eq!(next_step(1, &told, guess), Next::Retry(Delay::from_secs(9)));
    let fatal = Reply::Answered {
        status: 401,
        retry_after: Some("9"),
    };
    assert_eq!(next_step(0, &fatal, guess), Next::GiveUp);
    let fine = Reply::Answered {
        status: 200,
        retry_after: None,
    };
    assert_eq!(next_step(0, &fine, guess), Next::Accept);
}

#[test]
fn failures_name_the_provider() {
    assert_eq!(
        status_error("ollama", "404 Not Found", "no such model").text(),
        "model error: ollama returned 404 Not Found: no such model"
    );
    assert_eq!(
        transport_error("voyage", "timed out").text(),
        "model error: voyage request failed: timed out"
    );
}

// The message that an answer of the API holds.
fn message(text: &str) -> MessagesResponse {
    let value = json(text);
    let content = value["content"]
        .as_array()
        .unwrap()
        .iter()
        .map(|block| match block["type"].as_str() {
            Some("text") => ContentBlock::Text {
                text: block["text"].as_str().unwrap().to_owned(),
            },
            _ => ContentBlock::Other,
        })
        .collect();
    MessagesResponse {
        content,
        stop_reason: value["stop_reason"].as_str().map(str::to_owned),
        input_tokens: value["usage"]["input_tokens"].as_u64().unwrap() as usize,
        output_tokens: value["usage"]["output_tokens"].as_u64().unwrap() as usize,
    }
}

#[test]
fn parses_messages_response() {
    let parsed = message(
        r#"{
            "id": "msg_01",
            "type": "message",
            "role": "assistant",
            "content": [{"type": "text", "text": "yes"}],
            "stop_reason": "end_turn",
            "usage": {"input_tokens": 212, "output_tokens": 1}
        }"#,
    );
    assert!(matches!(&parsed.content[0], ContentBlock::Text { text } if text == "yes"));
    assert_eq!(parsed.input_tokens, 212);
    assert_eq!(parsed.stop_reason.as_deref(), Some("end_turn"));
    let completion = completion_of(&parsed).unwrap();
    assert_eq!(completion.text, "yes");
    assert_eq!(completion.input_tokens, 212);
    assert_eq!(completion.output_tokens, 1);
}

#[test]
fn skips_non_text_blocks() {
    let parsed = message(
        r#"{
            "content": [
                {"type": "thinking", "thinking": "", "signature": "abc"},
                {"type": "text", "text": "no"}
            ],
            "stop_reason": "end_turn",
            "usage": {"input_tokens": 10, "output_tokens": 1}
        }"#,
    );
    assert_eq!(completion_of(&parsed).unwrap().text, "no");
}

#[test]
fn a_refusal_is_a_model_error() {
    let mut parsed = message(
        r#"{"content": [{"type": "text", "text": "x"}], "stop_reason": "refusal",
            "usage": {"input_tokens": 1, "output_tokens": 1}}"#,
    );
    assert_eq!(
        completion_of(&parsed).unwrap_err(),
        SemcastError::Model("anthropic refused the request".to_owned())
    );
    parsed.stop_reason = None;
    parsed.content = vec![ContentBlock::Other];
    assert_eq!(
        completion_of(&parsed).unwrap_err().text(),
        "model error: anthropic response contained no text block"
    );
}

#[test]
fn anthropic_debug_redacts_api_key() {
    let provider = AnthropicProvider::new("sk-ant-secret", "small");
    let debug = provider.describe();
    assert!(!debug.contains("secret"), "{debug}");
    assert_eq!(
        debug,
        format!("AnthropicProvider {{ base_url: {DEFAULT_ANTHROPIC_URL:?}, model: \"small\", api_key: \"[redacted]\" }}")
    );
}

#[test]
fn a_message_carries_the_prompt() {
    let provider = AnthropicProvider::new("key", "small").with_base_url("http://localhost:1//");
    assert_eq!(provider.id(), ModelId("anthropic/small".to_owned()));
    assert_eq!(provider.messages_url(), "http://localhost:1/v1/messages");
    assert_eq!(
        provider.messages_body(&request("sys", "in", None)),
        json(
            r#"{"model": "small", "max_tokens": 8, "system": "sys",
                "messages": [{"role": "user", "content": "in"}]}"#
        )
    );
}

#[test]
fn parses_chat_response() {
    let parsed = json(
        r#"{
            "model": "gemma4:e4b",
            "created_at": "2026-07-06T10:00:00Z",
            "message": {"role": "assistant", "content": "yes"},
            "done": true,
            "prompt_eval_count": 214,
            "eval_count": 1
        }"#,
    );
    assert_eq!(parsed["message"]["content"], "yes");
    assert_eq!(parsed["prompt_eval_count"], 214);
    assert_eq!(parsed["eval_count"], 1);
}

fn bits(values: &[f32]) -> Vec<u32> {
    values.iter().map(|v| v.to_bits()).collect()
}

fn floats(value: &Value) -> Vec<u32> {
    value
        .as_array()
        .unwrap()
        .iter()
        .map(|v| (v.as_f64().unwrap() as f32).to_bits())
        .collect()
}

#[test]
fn parses_embed_response() {
    let parsed = json(r#"{"model": "nomic-embed-text", "embeddings": [[0.1, -0.2], [0.3, 0.4]]}"#);
    let embeddings: Vec<Vec<u32>> = parsed["embeddings"]
        .as_array()
        .unwrap()
        .iter()
        .map(floats)
        .collect();
    let embeddings = embeddings_of(embeddings, 2).unwrap();
    assert_eq!(embeddings.len(), 2);
    assert_eq!(embeddings[0], bits(&[0.1, -0.2]));
}

#[test]
fn a_missing_embedding_is_a_model_error() {
    assert_eq!(
        embeddings_of(vec![bits(&[0.1])], 2).unwrap_err().text(),
        "model error: ollama returned 1 embeddings for 2 inputs"
    );
}

fn chat_request(format: Option<Value>) -> Value {
    OllamaProvider::new("gemma4:e4b").chat_body(&request("", "", format))
}

#[test]
fn chat_request_omits_format_when_absent() {
    let body = chat_request(None);
    assert!(body.get("format").is_none(), "no format key when free-form");
}

#[test]
fn chat_request_serializes_schema_as_format() {
    let schema = json(r#"{"type": "object"}"#);
    let body = chat_request(Some(schema.clone()));
    assert_eq!(body["format"], schema);
}

#[test]
fn a_chat_carries_the_prompt() {
    let provider = OllamaProvider::new(DEFAULT_CHAT_MODEL);
    assert_eq!(provider.id().text(), "ollama/gemma4:e4b");
    assert_eq!(provider.chat_url(), format!("{DEFAULT_OLLAMA_URL}/api/chat"));
    assert_eq!(
        provider.chat_body(&request("sys", "in", None)),
        json(
            r#"{"model": "gemma4:e4b", "stream": false, "think": false,
                "messages": [{"role": "system", "content": "sys"},
                             {"role": "user", "content": "in"}],
                "options": {"num_predict": 8}}"#
        )
    );
    let provider = provider
        .with_base_url("http://box/")
        .with_embed_model("embedder");
    assert_eq!(provider.embed_url(), "http://box/api/embed");
    assert_eq!(
        embed_body(&provider.embed_model, &vec!["a".to_owned(), "b".to_owned()]),
        json(r#"{"model": "embedder", "input": ["a", "b"]}"#)
    );
}

#[test]
fn parses_embed_response_in_index_order() {
    let body = json(
        r#"{
            "object": "list",
            "data": [
                {"object": "embedding", "embedding": [0.3, 0.4], "index": 1},
                {"object": "embedding", "embedding": [0.1, -0.2], "index": 0}
            ],
            "model": "voyage-3",
            "usage": {"total_tokens": 8}
        }"#,
    );
    let data: Vec<EmbedData> = body["data"]
        .as_array()
        .unwrap()
        .iter()
        .map(|d| EmbedData {
            embedding: floats(&d["embedding"]),
            index: d["index"].as_u64().unwrap() as usize,
        })
        .collect();
    let embeddings = embeddings_in_order(&data, 2).unwrap();
    assert_eq!(embeddings, vec![bits(&[0.1, -0.2]), bits(&[0.3, 0.4])]);
    assert_eq!(
        embeddings_in_order(&data, 3).unwrap_err().text(),
        "model error: voyage returned 2 embeddings for 3 inputs"
    );
}

#[test]
fn complete_reports_no_completion_support() {
    let provider = VoyageProvider::new("voyage-secret", DEFAULT_VOYAGE_MODEL);
    let results = provider.no_completions(1);
    assert_eq!(results.len(), 1);
    let err = results.into_iter().next().unwrap();
    assert!(
        err.text().contains("no completion models"),
        "got: {}",
        err.text()
    );
}

#[test]
fn id_and_embed_model_id_name_the_embedding_model() {
    let provider = VoyageProvider::new("voyage-secret", "voyage-3");
    assert_eq!(provider.id().0, "voyage/voyage-3");
    assert_eq!(provider.embed_model_id().0, "voyage/voyage-3");
}

#[test]
fn voyage_debug_redacts_api_key() {
    let provider = VoyageProvider::new("voyage-secret", DEFAULT_VOYAGE_MODEL);
    let debug = provider.describe();
    assert!(!debug.contains("secret"), "{debug}");
    assert_eq!(
        debug,
        format!("VoyageProvider {{ base_url: {DEFAULT_VOYAGE_URL:?}, model: \"voyage-3\", api_key: \"[redacted]\" }}")
    );
    assert_eq!(provider.authorization(), "Bearer voyage-secret");
    assert_eq!(
        provider.with_base_url("http://v/").embed_url(),
        "http://v/v1/embeddings"
    );
}

#[test]
fn the_mock_answers_yes_to_its_needles() {
    let mut mock = MockModel::answering_yes_to(vec!["offline sync".to_owned()]);
    assert_eq!(mock.id().0, "mock");
    let yes = mock.complete_one(&request("s", "we ship offline sync", None), &None);
    assert_eq!(yes.text, "yes");
    assert_eq!(yes.input_tokens, 5);
    let no = mock.complete_one(&request("s", "nothing notable", None), &None);
    assert_eq!(no.text, "no");
    assert_eq!(mock.completion_calls(), 2);
    assert_eq!(
        mock.completion_inputs(),
        vec!["we ship offline sync", "nothing notable"]
    );
    assert_eq!(mock.completion_schemas(), vec![None, None]);
}

#[test]
fn the_mock_answers_a_schema_with_its_object() {
    let mut mock = MockModel::answering_yes_to(vec![]);
    let schema = json(r#"{"type": "object"}"#);
    let object = Some(json(r#"{"score": 1}"#));
    let answer = mock.complete_one(&request("s", "x", Some(schema.clone())), &object);
    assert_eq!(answer.text, r#"{"score":1}"#);
    assert_eq!(mock.completion_schemas(), vec![Some(schema.clone())]);
    let answer = mock.complete_one(&request("s", "x", Some(schema)), &None);
    assert_eq!(answer.text, "no");
}

#[test]
fn json_responder_serves_schema_requests_and_records_schemas() {
    let mut mock = MockModel::answering_yes_to(vec![]);
    let echo = |req: &CompletionRequest| {
        let mut object = serde_json::Map::new();
        object.insert("echo".to_owned(), Value::from(req.input.clone()));
        Some(Value::Object(object))
    };
    let schema = json(r#"{"type": "object"}"#);
    let first = request("sys", "has schema", Some(schema.clone()));
    let second = request("sys", "no schema", None);
    let out = [
        mock.complete_one(&first, &echo(&first)),
        mock.complete_one(&second, &echo(&second)),
    ];
    assert_eq!(out[0].text, r#"{"echo":"has schema"}"#);
    assert_eq!(out[1].text, "no");
    assert_eq!(
        mock.completion_schemas(),
        vec![Some(schema), None],
        "schemas recorded in order for pushdown assertions",
    );
    let mut both = mock.also_answering_yes_to(vec!["sync".to_owned()]);
    assert_eq!(
        both.complete_one(&request("s", "offline sync", None), &None).text,
        "yes"
    );
}

#[test]
fn a_model_that_cannot_embed_gets_an_embedder() {
    use_embedder(CompletionProvider::Anthropic, EmbedProvider::Ollama, true);
    use_embedder(CompletionProvider::Anthropic, EmbedProvider::Voyage, true);
    use_embedder(CompletionProvider::Ollama, EmbedProvider::Voyage, true);
    use_embedder(CompletionProvider::Ollama, EmbedProvider::Ollama, false);
}

fn use_embedder(provider: CompletionProvider, embed: EmbedProvider, dedicated: bool) {
    let expected = if dedicated { Some(embed) } else { None };
    assert_eq!(dedicated_embedder(provider, embed), expected);
}
