//! The Messages API: what is sent to it, and what its answer comes to.
//!
//! It has no embedding models, so the semantic index needs another provider.

use serde_json::Value;
use vstd::prelude::*;

use crate::error::SemcastError;
use crate::json::{
    array_value, json_of, jsons, natural_value, object_value, set_member, text_value, Json, Number,
};
use crate::model::{Completion, CompletionRequest, ModelId, RequestView};
use crate::text::{concat3, drop_trailing, quoted, quoted_of, same, trim_end_of, Class};

verus! {

pub const DEFAULT_ANTHROPIC_URL: &'static str = "https://api.anthropic.com";

pub const ANTHROPIC_VERSION: &'static str = "2023-06-01";

pub const NO_EMBEDDINGS: &'static str =
    "the Anthropic API has no embedding models; use OllamaProvider for the semantic index";

pub const NO_ANTHROPIC_KEY: &'static str =
    "ANTHROPIC_API_KEY is not set; export it or use OllamaProvider";

/// Where the API is, which key opens it, and which model answers. It has no
/// `Debug`: the key is never printed.
pub struct AnthropicProvider {
    pub base_url: String,
    pub api_key: String,
    pub model: String,
}

/// One block of an answer.
#[derive(Debug)]
pub enum ContentBlock {
    Text { text: String },
    Other,
}

/// The answer to a message.
#[derive(Debug)]
pub struct MessagesResponse {
    pub content: Vec<ContentBlock>,
    pub stop_reason: Option<String>,
    pub input_tokens: usize,
    pub output_tokens: usize,
}

/// The text of the first block of text.
pub open spec fn first_text(content: Seq<ContentBlock>) -> Option<Seq<char>>
    decreases content.len(),
{
    if content.len() == 0 {
        None
    } else {
        match content[0] {
            ContentBlock::Text { text } => Some(text@),
            ContentBlock::Other => first_text(content.drop_first()),
        }
    }
}

/// A message from the user.
pub open spec fn user_message(input: Seq<char>) -> Json {
    Json::Object(
        Map::<Seq<char>, Json>::empty().insert("role"@, Json::Text("user"@)).insert(
            "content"@,
            Json::Text(input),
        ),
    )
}

/// The body of a request.
pub open spec fn messages_json(model: Seq<char>, request: RequestView) -> Json {
    Json::Object(
        Map::<Seq<char>, Json>::empty().insert("model"@, Json::Text(model)).insert(
            "max_tokens"@,
            Json::Number(Number::Natural(request.max_tokens as u64)),
        ).insert("system"@, Json::Text(request.system)).insert(
            "messages"@,
            Json::Array(seq![user_message(request.input)]),
        ),
    )
}

impl AnthropicProvider {
    pub fn new(api_key: &str, model: &str) -> (r: Self)
        ensures
            r.base_url@ == DEFAULT_ANTHROPIC_URL@,
            r.api_key@ == api_key@,
            r.model@ == model@,
    {
        AnthropicProvider {
            base_url: DEFAULT_ANTHROPIC_URL.to_owned(),
            api_key: api_key.to_owned(),
            model: model.to_owned(),
        }
    }

    /// Talks to another server; slashes at the end of its address are dropped.
    pub fn with_base_url(self, base_url: &str) -> (r: Self)
        ensures
            r.base_url@ == drop_trailing(base_url@, Class::Slash),
            r.api_key == self.api_key,
            r.model == self.model,
    {
        AnthropicProvider { base_url: trim_end_of(base_url, Class::Slash), ..self }
    }

    /// The identifier of the model.
    pub fn id(&self) -> (r: ModelId)
        ensures
            r@ == "anthropic/"@ + self.model@,
    {
        ModelId("anthropic/".to_owned().concat(self.model.as_str()))
    }

    /// Where messages are sent.
    pub fn messages_url(&self) -> (r: String)
        ensures
            r@ == self.base_url@ + "/v1/messages"@,
    {
        self.base_url.clone().concat("/v1/messages")
    }

    /// The body of a request.
    pub fn messages_body(&self, request: &CompletionRequest) -> (r: Value)
        ensures
            json_of(r) == messages_json(self.model@, request@),
    {
        let mut message = object_value();
        set_member(&mut message, "role", text_value("user".to_owned()));
        set_member(&mut message, "content", text_value(request.input.clone()));
        let mut messages: Vec<Value> = Vec::new();
        messages.push(message);
        assert(jsons(messages@) =~= seq![user_message(request.input@)]);
        let mut body = object_value();
        set_member(&mut body, "model", text_value(self.model.clone()));
        set_member(&mut body, "max_tokens", natural_value(request.max_tokens as u64));
        set_member(&mut body, "system", text_value(request.system.clone()));
        set_member(&mut body, "messages", array_value(messages));
        body
    }

    /// The provider as it is logged: without its key.
    pub fn describe(&self) -> (r: String)
        ensures
            r@ == "AnthropicProvider { base_url: "@ + quoted(self.base_url@) + ", model: "@ + quoted(
                self.model@,
            ) + ", api_key: \"[redacted]\" }"@,
    {
        let base_url = quoted_of(self.base_url.as_str());
        let model = quoted_of(self.model.as_str());
        let mut line: String = concat3(
            "AnthropicProvider { base_url: ",
            base_url.as_str(),
            ", model: ",
        );
        line.append(model.as_str());
        line.append(", api_key: \"[redacted]\" }");
        line
    }
}

fn find_text(content: &Vec<ContentBlock>) -> (r: Option<String>)
    ensures
        crate::text::opt_view(r) == first_text(content@),
{
    let ghost all = content@;
    let mut i: usize = 0;
    assert(all.skip(0) =~= all);
    while i < content.len()
        invariant
            i <= content.len(),
            all == content@,
            first_text(all) == first_text(all.skip(i as int)),
        decreases content.len() - i,
    {
        assert(all.skip(i as int)[0] == all[i as int]);
        assert(all.skip(i as int).drop_first() =~= all.skip(i + 1));
        match &content[i] {
            ContentBlock::Text { text } => {
                return Some(text.clone());
            },
            ContentBlock::Other => {},
        }
        i += 1;
    }
    None
}

/// Whether the model refused to answer.
pub open spec fn refused(message: MessagesResponse) -> bool {
    message.stop_reason matches Some(reason) && reason@ == "refusal"@
}

/// What an answer comes to: the text of its first block of text. A refusal is a
/// failure of the row, never a "no".
pub fn completion_of(message: &MessagesResponse) -> (r: Result<Completion, SemcastError>)
    ensures
        match r {
            Ok(c) => !refused(*message) && first_text(message.content@) == Some(c.text@)
                && c.input_tokens == message.input_tokens && c.output_tokens
                == message.output_tokens,
            Err(e) => if refused(*message) {
                e.is_model("anthropic refused the request"@)
            } else {
                first_text(message.content@) is None && e.is_model(
                    "anthropic response contained no text block"@,
                )
            },
        },
{
    if let Some(reason) = &message.stop_reason {
        if same(reason.as_str(), "refusal") {
            return Err(SemcastError::Model("anthropic refused the request".to_owned()));
        }
    }
    match find_text(&message.content) {
        Some(text) => Ok(
            Completion {
                text,
                input_tokens: message.input_tokens,
                output_tokens: message.output_tokens,
            },
        ),
        None => Err(
            SemcastError::Model("anthropic response contained no text block".to_owned()),
        ),
    }
}

/// A message carries the whole request: the model, the instruction, the number of
/// tokens, and the text under scrutiny as the one message, from the user.
pub proof fn a_message_carries_the_whole_request(model: Seq<char>, request: RequestView)
    ensures
        ({
            let body = messages_json(model, request);
            let messages = body.member("messages"@)->0.as_array()->0;
            &&& body.member("model"@) == Some(Json::Text(model))
            &&& body.member("system"@) == Some(Json::Text(request.system))
            &&& body.member("max_tokens"@) == Some(
                Json::Number(Number::Natural(request.max_tokens as u64)),
            )
            &&& body.member("messages"@) is Some && body.member("messages"@)->0 is Array
            &&& messages.len() == 1
            &&& messages[0].member("role"@) == Some(Json::Text("user"@))
            &&& messages[0].member("content"@) == Some(Json::Text(request.input))
        }),
{
    reveal_strlit("model");
    reveal_strlit("system");
    reveal_strlit("max_tokens");
    reveal_strlit("messages");
    reveal_strlit("role");
    reveal_strlit("content");
    assert("model"@.len() == 5 && "system"@.len() == 6 && "max_tokens"@.len() == 10
        && "messages"@.len() == 8);
    assert("role"@.len() == 4 && "content"@.len() == 7);
}

/// Two requests that differ, in the instruction, the text or the model, are never
/// sent as the same message.
pub proof fn messages_tell_requests_apart(
    model_a: Seq<char>,
    model_b: Seq<char>,
    a: RequestView,
    b: RequestView,
)
    requires
        model_a != model_b || a.system != b.system || a.input != b.input,
    ensures
        messages_json(model_a, a) != messages_json(model_b, b),
{
    a_message_carries_the_whole_request(model_a, a);
    a_message_carries_the_whole_request(model_b, b);
}

/// An answer is its first block of text: what comes before holds no text.
pub proof fn an_answer_is_its_first_text(content: Seq<ContentBlock>, i: int)
    requires
        0 <= i < content.len(),
        content[i] is Text,
        forall|h: int| 0 <= h < i ==> (#[trigger] content[h]) is Other,
    ensures
        first_text(content) == Some(content[i]->text@),
    decreases content.len(),
{
    if i > 0 {
        let rest = content.drop_first();
        assert(content[0] is Other);
        assert forall|h: int| 0 <= h < i - 1 implies (#[trigger] rest[h]) is Other by {
            assert(rest[h] == content[h + 1]);
        }
        an_answer_is_its_first_text(rest, i - 1);
    }
}

/// An answer without a block of text has none.
pub proof fn an_answer_without_text_has_none(content: Seq<ContentBlock>)
    requires
        forall|h: int| 0 <= h < content.len() ==> (#[trigger] content[h]) is Other,
    ensures
        first_text(content) is None,
    decreases content.len(),
{
    if content.len() > 0 {
        let rest = content.drop_first();
        assert(content[0] is Other);
        assert forall|h: int| 0 <= h < rest.len() implies (#[trigger] rest[h]) is Other by {
            assert(rest[h] == content[h + 1]);
        }
        an_answer_without_text_has_none(rest);
    }
}

}
