//! Models: what is asked of them and what they answer.

pub mod anthropic;
pub mod mock;
pub mod ollama;
pub mod retry;
pub mod voyage;

use serde_json::Value;
use vstd::prelude::*;

use crate::error::SemcastError;
use crate::json::{opt_json, Json};

verus! {

/// Identifies a model for cache provenance and cost estimation.
#[derive(Debug, Clone, PartialEq, Eq, Hash)]
pub struct ModelId(pub String);

impl View for ModelId {
    type V = Seq<char>;

    open spec fn view(&self) -> Seq<char> {
        self.0@
    }
}

impl ModelId {
    /// A copy of the identifier.
    pub fn copy(&self) -> (r: ModelId)
        ensures
            r == *self,
    {
        ModelId(self.0.clone())
    }

    /// The identifier as it is shown.
    pub fn text(&self) -> (r: String)
        ensures
            r@ == self@,
    {
        self.0.clone()
    }
}

/// One completion request. Prompts are synthesized (from a semantic type or a
/// `MEANS` condition), never written by users.
#[derive(Debug, Clone)]
pub struct CompletionRequest {
    /// Synthesized instruction (the condition to check, the fields to extract).
    pub system: String,
    /// The text under scrutiny: a transcript, or its top-scoring chunks.
    pub input: String,
    pub max_tokens: usize,
    /// JSON Schema for a single JSON object the model must return, the
    /// constrained-decoding contract for typed extraction. `None` asks for a
    /// free-form answer (a `MEANS` yes/no verdict).
    pub schema: Option<Value>,
}

/// What a [`CompletionRequest`] asks.
pub struct RequestView {
    pub system: Seq<char>,
    pub input: Seq<char>,
    pub max_tokens: nat,
    pub schema: Option<Json>,
}

impl View for CompletionRequest {
    type V = RequestView;

    open spec fn view(&self) -> RequestView {
        RequestView {
            system: self.system@,
            input: self.input@,
            max_tokens: self.max_tokens as nat,
            schema: opt_json(self.schema),
        }
    }
}

/// The requests, by what they ask.
pub open spec fn asked(requests: Seq<CompletionRequest>) -> Seq<RequestView> {
    requests.map_values(|r: CompletionRequest| r@)
}

#[derive(Debug, Clone)]
pub struct Completion {
    pub text: String,
    /// Token counts feed `EXPLAIN` cost estimates and the `BUDGET` cap.
    pub input_tokens: usize,
    pub output_tokens: usize,
}

/// What a model answered to one request, or why it did not.
pub type Answer = Result<Completion, SemcastError>;

/// The text of an answer; `None` where the call failed.
pub open spec fn answer_text(a: Answer) -> Option<Seq<char>> {
    match a {
        Ok(c) => Some(c.text@),
        Err(_) => None,
    }
}

/// The texts of some answers.
pub open spec fn answer_texts(answers: Seq<Answer>) -> Seq<Option<Seq<char>>> {
    answers.map_values(|a: Answer| answer_text(a))
}

/// Who answers completion requests.
#[derive(Debug, Clone, Copy, PartialEq, Eq, Structural)]
pub enum CompletionProvider {
    Anthropic,
    Ollama,
}

/// Who embeds texts.
#[derive(Debug, Clone, Copy, PartialEq, Eq, Structural)]
pub enum EmbedProvider {
    Ollama,
    Voyage,
}

/// Whom a session embeds with instead of the model that answers: a model of
/// Ollama embeds by itself, and Anthropic has no embedding models.
pub fn dedicated_embedder(provider: CompletionProvider, embed: EmbedProvider) -> (r: Option<
    EmbedProvider,
>)
    ensures
        r is None <==> provider == CompletionProvider::Ollama && embed == EmbedProvider::Ollama,
        r is Some ==> r == Some(embed),
{
    match embed {
        EmbedProvider::Voyage => Some(EmbedProvider::Voyage),
        EmbedProvider::Ollama => match provider {
            CompletionProvider::Anthropic => Some(EmbedProvider::Ollama),
            CompletionProvider::Ollama => None,
        },
    }
}

}
