//! Daemon client: endpoint configuration, liveness interpretation, and the
//! decoding of the uniform `{success, data, error}` response envelope for
//! the daemon's `index` and `query` operations.
//!
//! The HTTP exchange itself happens in the embedding host; this module owns
//! everything the wire carries.

use vstd::prelude::*;
use vstd::string::StringExecFns;

use crate::json::{
    dec_seq, get_field, lookup, pretty_json, ser_json, to_json_text, to_pretty_text, wf_json,
    write_dec, JsonValue, SpecJson,
};
use crate::parse::parse_json;
use crate::text::{chars_of, string_of};

verus! {

/// How a daemon operation fails: the exchange itself broke down
/// (connection, timeout, undecodable body), or a well-formed envelope
/// reported failure.
pub enum DaemonError {
    Transport(String),
    Remote(String),
}

/// The daemon endpoint configuration, fixed at construction.
pub struct AITExtension {
    pub daemon_port: u16,
}

/// Base address of a daemon on the local host.
pub open spec fn daemon_url_text(port: int) -> Seq<char> {
    "http://localhost:"@ + dec_seq(port)
}

impl AITExtension {
    /// A client for the default daemon port.
    pub fn new() -> (r: Self)
        ensures
            r.daemon_port == 3001,
    {
        AITExtension { daemon_port: 3001 }
    }

    /// The daemon's base URL.
    pub fn get_daemon_url(&self) -> (r: String)
        ensures
            r@ == daemon_url_text(self.daemon_port as int),
    {
        let mut cs = chars_of("http://localhost:");
        write_dec(self.daemon_port as u64, &mut cs);
        string_of(cs)
    }

    /// The liveness endpoint.
    pub fn status_url(&self) -> (r: String)
        ensures
            r@ == daemon_url_text(self.daemon_port as int) + "/status"@,
    {
        self.get_daemon_url().concat("/status")
    }

    /// The indexing endpoint.
    pub fn index_url(&self) -> (r: String)
        ensures
            r@ == daemon_url_text(self.daemon_port as int) + "/index"@,
    {
        self.get_daemon_url().concat("/index")
    }

    /// The query endpoint.
    pub fn query_url(&self) -> (r: String)
        ensures
            r@ == daemon_url_text(self.daemon_port as int) + "/query"@,
    {
        self.get_daemon_url().concat("/query")
    }
}

/// Reads the liveness probe's result: alive exactly on a 2xx status; a
/// failed exchange (`None`) counts as down, never as an error.
pub fn daemon_alive(status: Option<u16>) -> (r: bool)
    ensures
        r == (status matches Some(code) && 200 <= code < 300),
{
    match status {
        Some(code) => 200 <= code && code < 300,
        None => false,
    }
}

/// The envelope shape every daemon reply must decode to: `success` a
/// boolean; `error`, when present and not null, an object carrying string
/// `code` and `message`; `data` unconstrained.
pub open spec fn envelope_ok(env: SpecJson) -> bool {
    &&& env is Obj
    &&& (lookup(env, "success"@) matches Some(b) && b is Bool)
    &&& (match lookup(env, "error"@) {
        Some(e) => e is Null || (e is Obj && (lookup(e, "code"@) matches Some(c) && c is Str) && (
        lookup(e, "message"@) matches Some(m) && m is Str)),
        None => true,
    })
}

/// Whether a well-shaped envelope reports success.
pub open spec fn env_success(env: SpecJson) -> bool {
    lookup(env, "success"@) == Some(SpecJson::Bool(true))
}

/// The failure message of an envelope: the daemon's own `error.message`,
/// or a fixed fallback when the daemon omitted it.
pub open spec fn env_error_message(env: SpecJson) -> Seq<char> {
    match lookup(env, "error"@) {
        Some(e) => match lookup(e, "message"@) {
            Some(m) => if m is Str {
                m->Str_0
            } else {
                "Unknown error"@
            },
            None => "Unknown error"@,
        },
        None => "Unknown error"@,
    }
}

/// The display text of a successful `index` reply: the reported count when
/// `data.files_indexed` is present, a generic confirmation otherwise.
pub open spec fn spec_index_message(env: SpecJson) -> Seq<char> {
    match lookup(env, "data"@) {
        Some(d) => if d is Null {
            "Project indexed successfully"@
        } else {
            match lookup(d, "files_indexed"@) {
                Some(x) => "Indexed "@ + ser_json(x) + " files successfully"@,
                None => "Project indexed successfully"@,
            }
        },
        None => "Project indexed successfully"@,
    }
}

/// The display text of a successful `query` reply: `data.result.data`
/// pretty-printed when present, a generic confirmation otherwise.
pub open spec fn spec_query_message(env: SpecJson) -> Seq<char> {
    match lookup(env, "data"@) {
        Some(d) => if d is Null {
            "Query completed"@
        } else {
            match lookup(d, "result"@) {
                Some(rr) => match lookup(rr, "data"@) {
                    Some(x) => pretty_json(x, 0),
                    None => "Query completed"@,
                },
                None => "Query completed"@,
            }
        },
        None => "Query completed"@,
    }
}

/// Checks the envelope shape and extracts the `success` flag.
fn envelope_success_of(v: &JsonValue) -> (r: Option<bool>)
    ensures
        (r is Some) == envelope_ok(v@),
        (r matches Some(b) ==> b == env_success(v@)),
{
    match v {
        JsonValue::Obj(_) => {}
        _ => {
            return None;
        }
    }
    let suc: bool;
    match get_field(v, "success") {
        Some(b) => {
            match b {
                JsonValue::Bool(x) => {
                    suc = *x;
                }
                _ => {
                    return None;
                }
            }
        }
        None => {
            return None;
        }
    }
    match get_field(v, "error") {
        None => {}
        Some(e) => {
            match e {
                JsonValue::Null => {}
                JsonValue::Obj(_) => {
                    match get_field(e, "code") {
                        Some(c) => {
                            match c {
                                JsonValue::Str(_) => {}
                                _ => {
                                    return None;
                                }
                            }
                        }
                        None => {
                            return None;
                        }
                    }
                    match get_field(e, "message") {
                        Some(m) => {
                            match m {
                                JsonValue::Str(_) => {}
                                _ => {
                                    return None;
                                }
                            }
                        }
                        None => {
                            return None;
                        }
                    }
                }
                _ => {
                    return None;
                }
            }
        }
    }
    Some(suc)
}

/// The daemon's failure message, with the fallback applied.
fn remote_message(v: &JsonValue) -> (r: String)
    ensures
        r@ == env_error_message(v@),
{
    match get_field(v, "error") {
        Some(e) => match get_field(e, "message") {
            Some(m) => match m {
                JsonValue::Str(s) => s.clone(),
                _ => "Unknown error".to_owned(),
            },
            None => "Unknown error".to_owned(),
        },
        None => "Unknown error".to_owned(),
    }
}

/// The display text for a successful `index` reply.
fn index_message(v: &JsonValue) -> (r: String)
    ensures
        r@ == spec_index_message(v@),
{
    match get_field(v, "data") {
        Some(d) => {
            match d {
                JsonValue::Null => "Project indexed successfully".to_owned(),
                _ => {
                    match get_field(d, "files_indexed") {
                        Some(x) => {
                            let xt = to_json_text(x);
                            let mut t = "Indexed ".to_owned();
                            t.append(xt.as_str());
                            t.append(" files successfully");
                            t
                        }
                        None => "Project indexed successfully".to_owned(),
                    }
                }
            }
        }
        None => "Project indexed successfully".to_owned(),
    }
}

/// The display text for a successful `query` reply.
fn query_message(v: &JsonValue) -> (r: String)
    ensures
        r@ == spec_query_message(v@),
{
    match get_field(v, "data") {
        Some(d) => {
            match d {
                JsonValue::Null => "Query completed".to_owned(),
                _ => {
                    match get_field(d, "result") {
                        Some(rr) => {
                            match get_field(rr, "data") {
                                Some(x) => to_pretty_text(x),
                                None => "Query completed".to_owned(),
                            }
                        }
                        None => "Query completed".to_owned(),
                    }
                }
            }
        }
        None => "Query completed".to_owned(),
    }
}

/// Interprets a decoded `index` reply: the success message on a successful
/// envelope; the daemon's error on a failed one; a transport error when the
/// value is not a well-shaped envelope.
pub fn index_outcome(v: &JsonValue) -> (r: Result<String, DaemonError>)
    ensures
        envelope_ok(v@) && env_success(v@) ==> (r matches Ok(m) && m@ == spec_index_message(v@)),
        envelope_ok(v@) && !env_success(v@) ==> (r matches Err(e) && (e matches
            DaemonError::Remote(m) && m@ == env_error_message(v@))),
        !envelope_ok(v@) ==> (r matches Err(e) && (e matches DaemonError::Transport(m) && m@
            == "Failed to parse response"@)),
{
    match envelope_success_of(v) {
        None => Err(DaemonError::Transport("Failed to parse response".to_owned())),
        Some(true) => Ok(index_message(v)),
        Some(false) => Err(DaemonError::Remote(remote_message(v))),
    }
}

/// Interprets a decoded `query` reply, as `index_outcome` does.
pub fn query_outcome(v: &JsonValue) -> (r: Result<String, DaemonError>)
    ensures
        envelope_ok(v@) && env_success(v@) ==> (r matches Ok(m) && m@ == spec_query_message(v@)),
        envelope_ok(v@) && !env_success(v@) ==> (r matches Err(e) && (e matches
            DaemonError::Remote(m) && m@ == env_error_message(v@))),
        !envelope_ok(v@) ==> (r matches Err(e) && (e matches DaemonError::Transport(m) && m@
            == "Failed to parse response"@)),
{
    match envelope_success_of(v) {
        None => Err(DaemonError::Transport("Failed to parse response".to_owned())),
        Some(true) => Ok(query_message(v)),
        Some(false) => Err(DaemonError::Remote(remote_message(v))),
    }
}

/// Decodes a response body into a JSON document. Exact on every body this
/// library's serializer could have produced.
pub fn decode_body(body: &str) -> (r: Option<JsonValue>)
    ensures
        forall|jv: SpecJson|
            wf_json(jv) && body@ == ser_json(jv) ==> (r matches Some(w) && w@ == jv),
{
    let cs = chars_of(body);
    parse_json(&cs)
}

/// Interprets a whole `index` response body, decoding included. An
/// undecodable body is a transport failure, exactly as a broken exchange is.
pub fn index_response_text(body: &str) -> (r: Result<String, DaemonError>)
    ensures
        forall|jv: SpecJson|
            wf_json(jv) && body@ == ser_json(jv) && envelope_ok(jv) && env_success(jv) ==> (
            r matches Ok(m) && m@ == spec_index_message(jv)),
        forall|jv: SpecJson|
            wf_json(jv) && body@ == ser_json(jv) && envelope_ok(jv) && !env_success(jv) ==> (
            r matches Err(e) && (e matches DaemonError::Remote(m) && m@ == env_error_message(jv))),
        r matches Err(DaemonError::Transport(m)) ==> m@ == "Failed to parse response"@,
{
    match decode_body(body) {
        None => Err(DaemonError::Transport("Failed to parse response".to_owned())),
        Some(v) => index_outcome(&v),
    }
}

/// Interprets a whole `query` response body, decoding included.
pub fn query_response_text(body: &str) -> (r: Result<String, DaemonError>)
    ensures
        forall|jv: SpecJson|
            wf_json(jv) && body@ == ser_json(jv) && envelope_ok(jv) && env_success(jv) ==> (
            r matches Ok(m) && m@ == spec_query_message(jv)),
        forall|jv: SpecJson|
            wf_json(jv) && body@ == ser_json(jv) && envelope_ok(jv) && !env_success(jv) ==> (
            r matches Err(e) && (e matches DaemonError::Remote(m) && m@ == env_error_message(jv))),
        r matches Err(DaemonError::Transport(m)) ==> m@ == "Failed to parse response"@,
{
    match decode_body(body) {
        None => Err(DaemonError::Transport("Failed to parse response".to_owned())),
        Some(v) => query_outcome(&v),
    }
}

} // verus!
