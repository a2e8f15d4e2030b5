//! The client of the embedding service: where it asks, and what it reports when
//! an answer is of no use.

use vstd::prelude::*;

use crate::code_index::rows::opt_str_view;
use crate::error::KbError;
use crate::text::{chars_of, owned, push_text, string_of};

verus! {

/// Where the service listens unless told otherwise.
pub const DEFAULT_BASE_URL: &'static str = "http://127.0.0.1:11434";

/// The model that embeds unless told otherwise.
pub const DEFAULT_MODEL: &'static str = "nomic-embed-text";

/// How long a request may take.
pub const REQUEST_TIMEOUT_SECS: u64 = 30;

/// A setting, or the default where it is not set.
pub open spec fn setting(value: Option<Seq<char>>, default: Seq<char>) -> Seq<char> {
    match value {
        Some(v) => v,
        None => default,
    }
}

/// A setting, or the default where it is not set.
pub fn setting_or(value: Option<&str>, default: &str) -> (r: String)
    ensures
        r@ == setting(opt_str_view(value), default@),
{
    match value {
        Some(v) => owned(v),
        None => owned(default),
    }
}

/// A client of the embedding service.
#[derive(Debug, Clone)]
pub struct OllamaEmbedder {
    pub base_url: String,
    pub model: String,
}

/// What is reported when the service cannot be reached.
pub open spec fn unreachable_text(base_url: Seq<char>, model: Seq<char>, cause: Seq<char>) -> Seq<char> {
    "cannot reach ollama at "@ + base_url + " with model '"@ + model
        + "' (is `ollama serve` running, and has `ollama pull "@ + model + "` been run? \u{2014} "@ + cause + ")"@
}

impl OllamaEmbedder {
    /// The client for the settings, each of which has a default.
    pub fn new(base_url: Option<&str>, model: Option<&str>) -> (r: Self)
        ensures
            r.base_url@ == setting(opt_str_view(base_url), DEFAULT_BASE_URL@),
            r.model@ == setting(opt_str_view(model), DEFAULT_MODEL@),
    {
        OllamaEmbedder {
            base_url: setting_or(base_url, DEFAULT_BASE_URL),
            model: setting_or(model, DEFAULT_MODEL),
        }
    }

    /// Where requests go.
    pub fn endpoint(&self) -> (r: String)
        ensures
            r@ == self.base_url@ + "/api/embed"@,
    {
        let mut s = chars_of(self.base_url.as_str());
        push_text(&mut s, "/api/embed");
        string_of(s.as_slice())
    }

    /// The error for a request that failed.
    pub fn unreachable(&self, cause: &str) -> (r: KbError)
        ensures
            r is Embed,
            r@ == unreachable_text(self.base_url@, self.model@, cause@),
    {
        let mut s = chars_of("cannot reach ollama at ");
        push_text(&mut s, self.base_url.as_str());
        push_text(&mut s, " with model '");
        push_text(&mut s, self.model.as_str());
        push_text(&mut s, "' (is `ollama serve` running, and has `ollama pull ");
        push_text(&mut s, self.model.as_str());
        push_text(&mut s, "` been run? \u{2014} ");
        push_text(&mut s, cause);
        push_text(&mut s, ")");
        KbError::Embed(string_of(s.as_slice()))
    }
}

/// The error for an answer that cannot be read.
pub fn unexpected_response(cause: &str) -> (r: KbError)
    ensures
        r is Embed,
        r@ == "unexpected response from ollama: "@ + cause@,
{
    let mut s = chars_of("unexpected response from ollama: ");
    push_text(&mut s, cause);
    KbError::Embed(string_of(s.as_slice()))
}

/// The first of the vectors that the service answered with.
pub fn first_vector<T>(embeddings: Vec<T>) -> (r: Result<T, KbError>)
    ensures
        r is Ok <==> embeddings@.len() > 0,
        r is Ok ==> r->Ok_0 == embeddings@[0],
        r is Err ==> r->Err_0 is Embed && r->Err_0@ == "ollama returned no embedding vector"@,
{
    let mut all = embeddings;
    if all.len() == 0 {
        return Err(KbError::Embed(owned("ollama returned no embedding vector")));
    }
    Ok(all.remove(0))
}

} // verus!
