//! Local models: completions through `/api/chat`, embeddings through
//! `/api/embed`.

use serde_json::Value;
use vstd::prelude::*;

use crate::error::SemcastError;
use crate::index::store::Vector;
use crate::json::{
    array_value, bool_value, json_of, jsons, natural_value, object_value, set_member, text_jsons,
    text_value, texts_value, value_copy, Json, Number,
};
use crate::model::{CompletionRequest, ModelId, RequestView};
use crate::text::{decimal, decimal_of, drop_trailing, occurs_in, trim_end_of, views, Class};

verus! {

pub const DEFAULT_OLLAMA_URL: &'static str = "http://localhost:11434";

pub const DEFAULT_CHAT_MODEL: &'static str = "gemma4:e4b";

pub const DEFAULT_EMBED_MODEL: &'static str = "nomic-embed-text";

/// Where the server is, which model answers, and which one embeds.
#[derive(Debug, Clone)]
pub struct OllamaProvider {
    pub base_url: String,
    pub model: String,
    pub embed_model: String,
}

/// A message of a chat.
pub open spec fn chat_message(role: Seq<char>, content: Seq<char>) -> Json {
    Json::Object(
        Map::<Seq<char>, Json>::empty().insert("role"@, Json::Text(role)).insert(
            "content"@,
            Json::Text(content),
        ),
    )
}

/// The members of a chat request that every one has. Thinking is off: a verdict
/// is one word, and a reasoning trace would use up the tokens.
pub open spec fn chat_members(model: Seq<char>, request: RequestView) -> Map<Seq<char>, Json> {
    Map::<Seq<char>, Json>::empty().insert("model"@, Json::Text(model)).insert(
        "messages"@,
        Json::Array(
            seq![
                chat_message("system"@, request.system),
                chat_message("user"@, request.input),
            ],
        ),
    ).insert("stream"@, Json::Bool(false)).insert("think"@, Json::Bool(false)).insert(
        "options"@,
        Json::Object(
            Map::<Seq<char>, Json>::empty().insert(
                "num_predict"@,
                Json::Number(Number::Natural(request.max_tokens as u64)),
            ),
        ),
    )
}

/// The body of a chat request: where a schema is asked for, it is the format.
pub open spec fn chat_json(model: Seq<char>, request: RequestView) -> Json {
    Json::Object(
        match request.schema {
            Some(schema) => chat_members(model, request).insert("format"@, schema),
            None => chat_members(model, request),
        },
    )
}

/// The body of an embedding request.
pub open spec fn embed_json(model: Seq<char>, texts: Seq<Seq<char>>) -> Json {
    Json::Object(
        Map::<Seq<char>, Json>::empty().insert("model"@, Json::Text(model)).insert(
            "input"@,
            Json::Array(text_jsons(texts)),
        ),
    )
}

/// The body of an embedding request.
pub fn embed_body(model: &str, texts: &Vec<String>) -> (r: Value)
    ensures
        json_of(r) == embed_json(model@, views(texts@)),
{
    let mut body = object_value();
    set_member(&mut body, "model", text_value(model.to_owned()));
    set_member(&mut body, "input", texts_value(texts));
    body
}

fn message_value(role: &str, content: &str) -> (r: Value)
    ensures
        json_of(r) == chat_message(role@, content@),
{
    let mut message = object_value();
    set_member(&mut message, "role", text_value(role.to_owned()));
    set_member(&mut message, "content", text_value(content.to_owned()));
    message
}

impl OllamaProvider {
    /// A provider that talks to the server on this machine.
    pub fn new(model: &str) -> (r: Self)
        ensures
            r.base_url@ == DEFAULT_OLLAMA_URL@,
            r.model@ == model@,
            r.embed_model@ == DEFAULT_EMBED_MODEL@,
    {
        OllamaProvider {
            base_url: DEFAULT_OLLAMA_URL.to_owned(),
            model: model.to_owned(),
            embed_model: DEFAULT_EMBED_MODEL.to_owned(),
        }
    }

    /// Talks to another server; slashes at the end of its address are dropped.
    pub fn with_base_url(self, base_url: &str) -> (r: Self)
        ensures
            r.base_url@ == drop_trailing(base_url@, Class::Slash),
            r.model == self.model,
            r.embed_model == self.embed_model,
    {
        OllamaProvider { base_url: trim_end_of(base_url, Class::Slash), ..self }
    }

    /// Embeds with another model.
    pub fn with_embed_model(self, embed_model: &str) -> (r: Self)
        ensures
            r.base_url == self.base_url,
            r.model == self.model,
            r.embed_model@ == embed_model@,
    {
        OllamaProvider { embed_model: embed_model.to_owned(), ..self }
    }

    /// The identifier of the model.
    pub fn id(&self) -> (r: ModelId)
        ensures
            r@ == "ollama/"@ + self.model@,
    {
        ModelId("ollama/".to_owned().concat(self.model.as_str()))
    }

    /// Where chats are sent.
    pub fn chat_url(&self) -> (r: String)
        ensures
            r@ == self.base_url@ + "/api/chat"@,
    {
        self.base_url.clone().concat("/api/chat")
    }

    /// Where texts to embed are sent.
    pub fn embed_url(&self) -> (r: String)
        ensures
            r@ == self.base_url@ + "/api/embed"@,
    {
        self.base_url.clone().concat("/api/embed")
    }

    /// The body of a chat request.
    pub fn chat_body(&self, request: &CompletionRequest) -> (r: Value)
        ensures
            json_of(r) == chat_json(self.model@, request@),
    {
        let mut messages: Vec<Value> = Vec::new();
        messages.push(message_value("system", request.system.as_str()));
        messages.push(message_value("user", request.input.as_str()));
        assert(jsons(messages@) =~= seq![
            chat_message("system"@, request.system@),
            chat_message("user"@, request.input@),
        ]);
        let mut options = object_value();
        set_member(&mut options, "num_predict", natural_value(request.max_tokens as u64));
        let mut body = object_value();
        set_member(&mut body, "model", text_value(self.model.clone()));
        set_member(&mut body, "messages", array_value(messages));
        set_member(&mut body, "stream", bool_value(false));
        set_member(&mut body, "think", bool_value(false));
        set_member(&mut body, "options", options);
        if let Some(schema) = &request.schema {
            set_member(&mut body, "format", value_copy(schema));
        }
        body
    }
}

/// The message of a provider that returned a wrong number of embeddings.
pub open spec fn wrong_count(label: Seq<char>, got: nat, want: nat) -> Seq<char> {
    label + " returned "@ + decimal(got) + " embeddings for "@ + decimal(want) + " inputs"@
}

/// The error of a provider that returned a wrong number of embeddings.
pub fn count_error(label: &str, got: usize, want: usize) -> (r: SemcastError)
    ensures
        r.is_model(wrong_count(label@, got as nat, want as nat)),
{
    let mut message: String = label.to_owned();
    message.append(" returned ");
    let n = decimal_of(got as u64);
    message.append(n.as_str());
    message.append(" embeddings for ");
    let n = decimal_of(want as u64);
    message.append(n.as_str());
    message.append(" inputs");
    SemcastError::Model(message)
}

/// The embeddings of an answer, where there is one for each input.
pub fn embeddings_of(embeddings: Vec<Vector>, inputs: usize) -> (r: Result<
    Vec<Vector>,
    SemcastError,
>)
    ensures
        if embeddings@.len() == inputs {
            r == Ok::<Vec<Vector>, SemcastError>(embeddings)
        } else {
            r is Err && r->Err_0.is_model(
                wrong_count("ollama"@, embeddings@.len(), inputs as nat),
            )
        },
{
    if embeddings.len() != inputs {
        return Err(count_error("ollama", embeddings.len(), inputs));
    }
    Ok(embeddings)
}

/// A chat carries the whole request: the model, the instruction as the message of
/// the system, the text under scrutiny as that of the user, the number of tokens,
/// and the schema, where there is one, as the format.
pub proof fn a_chat_carries_the_whole_request(model: Seq<char>, request: RequestView)
    ensures
        ({
            let body = chat_json(model, request);
            let messages = body.member("messages"@)->0.as_array()->0;
            &&& body.member("model"@) == Some(Json::Text(model))
            &&& body.member("messages"@) is Some && body.member("messages"@)->0 is Array
            &&& messages.len() == 2
            &&& messages[0].member("role"@) == Some(Json::Text("system"@))
            &&& messages[0].member("content"@) == Some(Json::Text(request.system))
            &&& messages[1].member("role"@) == Some(Json::Text("user"@))
            &&& messages[1].member("content"@) == Some(Json::Text(request.input))
            &&& body.member("stream"@) == Some(Json::Bool(false))
            &&& body.member("think"@) == Some(Json::Bool(false))
            &&& body.member("options"@) is Some && body.member("options"@)->0.member(
                "num_predict"@,
            ) == Some(Json::Number(Number::Natural(request.max_tokens as u64)))
            &&& body.member("format"@) == request.schema
        }),
{
    reveal_strlit("model");
    reveal_strlit("messages");
    reveal_strlit("stream");
    reveal_strlit("think");
    reveal_strlit("options");
    reveal_strlit("format");
    reveal_strlit("role");
    reveal_strlit("content");
    assert("messages"@.len() == 8 && "options"@.len() == 7);
    assert("model"@.len() == 5 && "model"@[0] == 'm' && "think"@.len() == 5 && "think"@[0] == 't');
    assert("stream"@.len() == 6 && "stream"@[0] == 's' && "format"@.len() == 6 && "format"@[0]
        == 'f');
    assert("role"@.len() == 4 && "content"@.len() == 7);
}

/// Two requests that differ, in the instruction, the text, the model or the schema,
/// are never sent as the same chat.
pub proof fn chats_tell_requests_apart(
    model_a: Seq<char>,
    model_b: Seq<char>,
    a: RequestView,
    b: RequestView,
)
    requires
        model_a != model_b || a.system != b.system || a.input != b.input || a.schema != b.schema,
    ensures
        chat_json(model_a, a) != chat_json(model_b, b),
{
    a_chat_carries_the_whole_request(model_a, a);
    a_chat_carries_the_whole_request(model_b, b);
}

/// A request for embeddings carries the model and every text, in order.
pub proof fn every_text_is_sent_to_be_embedded(model: Seq<char>, texts: Seq<Seq<char>>, i: int)
    requires
        0 <= i < texts.len(),
    ensures
        ({
            let body = embed_json(model, texts);
            let inputs = body.member("input"@)->0.as_array()->0;
            &&& body.member("model"@) == Some(Json::Text(model))
            &&& body.member("input"@) is Some && body.member("input"@)->0 is Array
            &&& inputs.len() == texts.len()
            &&& inputs[i] == Json::Text(texts[i])
        }),
{
    reveal_strlit("model");
    reveal_strlit("input");
    assert("model"@[0] == 'm' && "input"@[0] == 'i');
}

/// A wrong number of embeddings is reported by what came and what was sent.
pub proof fn a_wrong_count_says_both_numbers(label: Seq<char>, got: nat, want: nat)
    ensures
        label.is_prefix_of(wrong_count(label, got, want)),
        occurs_in(
            decimal(got) + " embeddings for "@ + decimal(want) + " inputs"@,
            wrong_count(label, got, want),
        ),
{
    let whole = wrong_count(label, got, want);
    let said = decimal(got) + " embeddings for "@ + decimal(want) + " inputs"@;
    let head = label + " returned "@;
    assert(whole =~= head + said);
    let at = head.len() as int;
    assert((head + said).subrange(at, at + said.len()) =~= said);
    assert(whole.subrange(0, label.len() as int) =~= label);
}

}
