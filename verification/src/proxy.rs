//! The decisions of the `POST /prompt` handler, from plain values to plain
//! values: accept or reject the inbound body, build the one outbound request,
//! and relay the upstream answer.
//!
//! The caller (the HTTP layer) reads the inbound body, passes it here
//! together with the API key it found in the environment, performs the one
//! outbound call described by [`UpstreamRequest`], and hands the outcome back
//! to [`relay_response`].

use crate::json::opt_bytes_view;
use crate::json::parse_prompt;
use crate::json::parse_prompt_spec;
use crate::upstream::upstream_body;
use crate::upstream::upstream_body_spec;
use crate::upstream::upstream_url;
use crate::upstream::upstream_url_spec;
use vstd::prelude::*;
use vstd::utf8::decode_utf8;
use vstd::utf8::encode_utf8;
use vstd::utf8::valid_utf8;

verus! {

/// Why a proxied request is not answered with the upstream body.
#[derive(Clone, Copy, Debug, PartialEq, Eq, Structural)]
pub enum ProxyError {
    /// The inbound body is not one JSON object carrying exactly one string
    /// member `prompt`: answered as a client error (4xx).
    BadRequest,
    /// No API key is configured: a server error (5xx).
    MissingKey,
    /// The outbound call itself failed: a server error (5xx).
    UpstreamFailed,
    /// The upstream answer is not UTF-8: a server error (5xx).
    BadUtf8,
}

/// Everything the HTTP layer needs to issue the one outbound call: the URL
/// carrying the API key, and the JSON body carrying the prompt.
pub struct UpstreamRequest {
    pub url: String,
    pub body: Vec<u8>,
}

/// Decides an inbound `POST /prompt` body: on success, the one outbound
/// request to issue.  The body is rejected exactly when it does not parse to
/// the accepted shape; the key is missing exactly when none was handed in.
pub fn prompt_request(body: &[u8], key: Option<&str>) -> (r: Result<UpstreamRequest, ProxyError>)
    ensures
        match r {
            Ok(u) => {
                &&& parse_prompt_spec(body@) is Some
                &&& key is Some
                &&& u.url@ == upstream_url_spec((key->0)@)
                &&& u.body@ == upstream_body_spec(parse_prompt_spec(body@)->0)
            },
            Err(e) => match e {
                ProxyError::BadRequest => parse_prompt_spec(body@) is None,
                ProxyError::MissingKey => parse_prompt_spec(body@) is Some && key is None,
                _ => false,
            },
        },
{
    let Some(p) = parse_prompt(body) else {
        return Err(ProxyError::BadRequest)
    };
    let Some(k) = key else {
        return Err(ProxyError::MissingKey)
    };
    Ok(UpstreamRequest { url: upstream_url(k), body: upstream_body(p.as_slice()) })
}

/// Relies on `String::from_utf8`: it returns `Ok` exactly when the bytes are
/// valid UTF-8, and the returned string holds those very bytes.
#[verifier::external_body]
fn vec_to_string(v: Vec<u8>) -> (r: Option<String>)
    ensures
        r is Some <==> valid_utf8(v@),
        r is Some ==> (r->0)@ == decode_utf8(v@),
{
    match String::from_utf8(v) {
        Ok(s) => Some(s),
        Err(_) => None,
    }
}

/// Decides what the caller is answered once the outbound call has completed:
/// `upstream` is `Some` with the full response bytes (whatever the upstream
/// status was), or `None` when the transport failed.  On success the answer
/// is the upstream body, byte for byte.
pub fn relay_response(upstream: Option<Vec<u8>>) -> (r: Result<String, ProxyError>)
    ensures
        match r {
            Ok(s) => {
                &&& upstream is Some
                &&& valid_utf8((upstream->0)@)
                &&& encode_utf8(s@) == (upstream->0)@
            },
            Err(e) => match e {
                ProxyError::UpstreamFailed => upstream is None,
                ProxyError::BadUtf8 => upstream is Some && !valid_utf8((upstream->0)@),
                _ => false,
            },
        },
{
    let Some(b) = upstream else {
        return Err(ProxyError::UpstreamFailed)
    };
    let ghost bv = b@;
    match vec_to_string(b) {
        Some(s) => {
            proof {
                vstd::utf8::decode_utf8_encode_utf8(bv);
            }
            Ok(s)
        },
        None => Err(ProxyError::BadUtf8),
    }
}

} // verus!
