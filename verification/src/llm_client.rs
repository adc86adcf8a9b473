//! Where and how requests to the chat-completions API go.

use vstd::prelude::*;
use vstd::string::{StrSliceExecFns, StringExecFns};
use crate::text::{substring, trim_end_slashes, trim_end_slashes_spec};

verus! {

/// The API endpoint (without trailing `/`), model and key of a client.
pub struct LlmEndpoint {
    pub api_endpoint: String,
    pub model: String,
    pub api_key: String,
}

/// At most the first `n` characters of `s`.
pub open spec fn first_chars(s: Seq<char>, n: nat) -> Seq<char> {
    if s.len() <= n {
        s
    } else {
        s.take(n as int)
    }
}

impl LlmEndpoint {
    /// An endpoint; the `/` characters at the end of the address are dropped.
    pub fn new(api_endpoint: &str, model: &str, api_key: String) -> (r: Self)
        ensures
            r.api_endpoint@ == trim_end_slashes_spec(api_endpoint@),
            r.model@ == model@,
            r.api_key == api_key,
    {
        LlmEndpoint { api_endpoint: trim_end_slashes(api_endpoint).to_owned(), model: model.to_owned(), api_key }
    }

    /// The chat-completions URL.
    pub fn chat_url(&self) -> (r: String)
        ensures
            r@ == self.api_endpoint@ + "/v1/chat/completions"@,
    {
        let mut r = self.api_endpoint.clone();
        r.append("/v1/chat/completions");
        r
    }

    /// The `Authorization` header's value.
    pub fn authorization(&self) -> (r: String)
        ensures
            r@ == "Bearer "@ + self.api_key@,
    {
        let mut r = "Bearer ".to_owned();
        r.append(self.api_key.as_str());
        r
    }

    /// The `tool_choice` of a request: `"auto"` exactly when tools are sent.
    pub fn tool_choice(tools_sent: bool) -> (r: Option<String>)
        ensures
            tools_sent ==> (r matches Some(c) && c@ == "auto"@),
            !tools_sent ==> r is None,
    {
        if tools_sent {
            Some("auto".to_owned())
        } else {
            None
        }
    }

    /// The error reported for an unsuccessful reply with status text
    /// `status`: it quotes at most the first 500 characters of the body.
    pub fn error_message(status: &str, body: &str) -> (r: String)
        ensures
            r@ == "LLM API error ("@ + status@ + "): "@ + first_chars(body@, 500),
    {
        let n = body.unicode_len();
        let end = if n <= 500 { n } else { 500 };
        let mut r = "LLM API error (".to_owned();
        r.append(status);
        r.append("): ");
        r.append(substring(body, 0, end).as_str());
        proof {
            if n <= 500 {
                assert(body@.subrange(0, n as int) == body@);
            }
        }
        r
    }
}

} // verus!
