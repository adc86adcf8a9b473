//! The decisions of the MCP client: where to post requests after the SSE
//! handshake, how a reply arrived, and which reply answers a request.

use vstd::prelude::*;
use vstd::string::{StrSliceExecFns, StringExecFns};
use crate::llm_client::first_chars;
use crate::text::{substring, contains, decimal, decimal_spec, has_prefix, occurs_in, starts_with, str_eq, trim, trim_spec};
use crate::types::JsonRpcError;

verus! {

/// The POST endpoint an MCP server announces: the announced text without
/// surrounding white space, as is when it starts with `http`, else after
/// the server's base URL.
pub open spec fn post_endpoint_spec(base_url: Seq<char>, data: Seq<char>) -> Seq<char> {
    let d = trim_spec(data);
    if has_prefix(d, "http"@) {
        d
    } else {
        base_url + d
    }
}

/// An announced endpoint that (once trimmed) starts with `http`, such as
/// an absolute `http://` or `https://` URL, is used exactly as announced;
/// any other is appended to the base URL. Either way the endpoint ends
/// with the trimmed announcement.
pub proof fn law_absolute_endpoint_used_as_is(base_url: Seq<char>, data: Seq<char>)
    ensures
        ({
            let d = trim_spec(data);
            let starts_http = d.len() >= 4 && d[0] == 'h' && d[1] == 't' && d[2] == 't' && d[3] == 'p';
            &&& starts_http ==> post_endpoint_spec(base_url, data) == d
            &&& !starts_http ==> post_endpoint_spec(base_url, data) == base_url + d
            &&& post_endpoint_spec(base_url, data).len() >= d.len()
            &&& post_endpoint_spec(base_url, data).skip(post_endpoint_spec(base_url, data).len() - d.len()) == d
        }),
{
    reveal_strlit("http");
    let d = trim_spec(data);
    let starts_http = d.len() >= 4 && d[0] == 'h' && d[1] == 't' && d[2] == 't' && d[3] == 'p';
    if starts_http {
        assert(d.take(4) =~= "http"@);
        assert(post_endpoint_spec(base_url, data) == d);
        assert(d.skip(0) =~= d);
    } else {
        if has_prefix(d, "http"@) {
            assert("http"@.len() == 4);
            assert(d[0] == d.take(4)[0] && d[1] == d.take(4)[1] && d[2] == d.take(4)[2] && d[3] == d.take(4)[3]);
            assert("http"@[0] == 'h' && "http"@[1] == 't' && "http"@[2] == 't' && "http"@[3] == 'p');
            assert(false);
        }
        assert(post_endpoint_spec(base_url, data) == base_url + d);
        assert((base_url + d).skip(base_url.len() as int) =~= d);
    }
}

/// The POST endpoint announced by the data of an `endpoint` event.
pub fn post_endpoint(base_url: &str, data: &str) -> (r: String)
    ensures
        r@ == post_endpoint_spec(base_url@, data@),
{
    let d = trim(data);
    if starts_with(d, "http") {
        d.to_owned()
    } else {
        let mut r = base_url.to_owned();
        r.append(d);
        r
    }
}

/// What an SSE event of the handshake announces: the POST endpoint when
/// the event is called `endpoint`, else nothing.
pub fn endpoint_from_event(base_url: &str, event: &str, data: &str) -> (r: Option<String>)
    ensures
        event@ == "endpoint"@ ==> (r matches Some(e) && e@ == post_endpoint_spec(base_url@, data@)),
        event@ != "endpoint"@ ==> r is None,
{
    if str_eq(event, "endpoint") {
        Some(post_endpoint(base_url, data))
    } else {
        None
    }
}

/// Whether a reply with this content type is a JSON document (rather than
/// an SSE stream).
pub fn is_json_content(content_type: &str) -> (r: bool)
    ensures
        r == occurs_in(content_type@, "application/json"@),
{
    contains(content_type, "application/json")
}

/// How a JSON-RPC reply relates to a request.
#[derive(Debug, PartialEq, Eq)]
pub enum RpcReply {
    /// It answers another request.
    Unrelated,
    /// It answers the request with this error text.
    Failed(String),
    /// It answers the request.
    Answer,
}

/// The text a JSON-RPC error is reported with.
pub open spec fn rpc_error_text(server_name: Seq<char>, e: JsonRpcError) -> Seq<char> {
    "MCP server '"@ + server_name + "' error: ["@ + decimal_spec(e.code as int) + "] "@ + e.message@
}

/// Whether a reply with id `reply_id` and error `error` answers request
/// `request_id` of server `server_name`, and how.
pub fn match_rpc_reply(server_name: &str, request_id: u64, reply_id: Option<u64>, error: &Option<JsonRpcError>) -> (r: RpcReply)
    ensures
        reply_id != Some(request_id) ==> r is Unrelated,
        reply_id == Some(request_id) ==> match error {
            Some(e) => r matches RpcReply::Failed(t) && t@ == rpc_error_text(server_name@, *e),
            None => r is Answer,
        },
{
    match reply_id {
        Some(id) if id == request_id => match error {
            Some(e) => {
                let mut t = "MCP server '".to_owned();
                t.append(server_name);
                t.append("' error: [");
                t.append(decimal(e.code).as_str());
                t.append("] ");
                t.append(e.message.as_str());
                RpcReply::Failed(t)
            },
            None => RpcReply::Answer,
        },
        _ => RpcReply::Unrelated,
    }
}

/// The error reported when a server answers a request with an
/// unsuccessful status: it quotes at most the first 300 characters of the
/// body.
pub fn http_error_message(server_name: &str, status: &str, body: &str) -> (r: String)
    ensures
        r@ == "MCP server '"@ + server_name@ + "' error ("@ + status@ + "): "@ + first_chars(body@, 300),
{
    let n = body.unicode_len();
    let end = if n <= 300 { n } else { 300 };
    let mut r = "MCP server '".to_owned();
    r.append(server_name);
    r.append("' error (");
    r.append(status);
    r.append("): ");
    r.append(substring(body, 0, end).as_str());
    proof {
        if n <= 300 {
            assert(body@.subrange(0, n as int) == body@);
        }
    }
    r
}

} // verus!
