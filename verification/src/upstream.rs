//! Construction of the outbound request: the upstream URL and the JSON body.
//!
//! The URL pins API version `v1beta2` and model `text-bison-001`; both are
//! retired upstream, which is kept as-is rather than silently upgraded.

use crate::json::esc;
use crate::json::esc_byte;
use crate::json::lemma_esc_concat;
use vstd::prelude::*;
use vstd::string::StringExecFns;
use vstd::utf8::encode_scalar;
use vstd::utf8::encode_utf8;

verus! {

/// The fixed upstream endpoint.
pub open spec fn base_url() -> Seq<char> {
    "https://generativelanguage.googleapis.com/v1beta2/models/text-bison-001:generateText"@
}

/// The full upstream URL for a given API key: the fixed base, then `?key=`
/// and the key itself, verbatim.
pub open spec fn upstream_url_spec(key: Seq<char>) -> Seq<char> {
    base_url() + "?key="@ + key
}

/// Builds the upstream URL around the given API key.
pub fn upstream_url(key: &str) -> (r: String)
    ensures
        r@ == upstream_url_spec(key@),
{
    let mut u = String::new();
    u.append(
        "https://generativelanguage.googleapis.com/v1beta2/models/text-bison-001:generateText",
    );
    u.append("?key=");
    u.append(key);
    proof {
        assert(u@ =~= upstream_url_spec(key@));
    }
    u
}

/// The bytes before the prompt text in the outbound body.
pub open spec fn body_prefix() -> Seq<u8> {
    encode_utf8("{\"prompt\":{\"text\":\""@)
}

/// The bytes after the prompt text: the closing quote and brace, then the
/// fixed generation parameters.
pub open spec fn body_suffix() -> Seq<u8> {
    encode_utf8("\"},\"temperature\":1.0,\"candidateCount\":1}"@)
}

/// The outbound request body: the prompt text stands escaped at
/// `prompt.text`, `temperature` is fixed at 1.0 and `candidateCount` at 1.
pub open spec fn upstream_body_spec(p: Seq<u8>) -> Seq<u8> {
    body_prefix() + esc(p) + body_suffix()
}

/// Appends the JSON escaping of `s`.
fn escape_into(out: &mut Vec<u8>, s: &[u8])
    ensures
        final(out)@ == old(out)@ + esc(s@),
{
    let ghost base = out@;
    let mut i: usize = 0;
    while i < s.len()
        invariant
            i <= s.len(),
            out@ == base + esc(s@.take(i as int)),
        decreases s.len() - i,
    {
        let ghost pre = s@.take(i as int);
        let ghost out0 = out@;
        let b = s[i];
        if b == 0x22 {
            out.push(0x5c);
            out.push(0x22);
        } else if b == 0x5c {
            out.push(0x5c);
            out.push(0x5c);
        } else if b == 0x08 {
            out.push(0x5c);
            out.push(0x62);
        } else if b == 0x0c {
            out.push(0x5c);
            out.push(0x66);
        } else if b == 0x0a {
            out.push(0x5c);
            out.push(0x6e);
        } else if b == 0x0d {
            out.push(0x5c);
            out.push(0x72);
        } else if b == 0x09 {
            out.push(0x5c);
            out.push(0x74);
        } else if b < 0x20 {
            let hi = b / 16;
            let lo = b % 16;
            out.push(0x5c);
            out.push(0x75);
            out.push(0x30);
            out.push(0x30);
            out.push(if hi < 10 {
                0x30 + hi
            } else {
                0x57 + hi
            });
            out.push(if lo < 10 {
                0x30 + lo
            } else {
                0x57 + lo
            });
        } else {
            out.push(b);
        }
        proof {
            assert(out@ =~= out0 + esc_byte(b));
            assert(s@.take(i as int + 1) =~= pre + seq![b]);
            lemma_esc_concat(pre, seq![b]);
            assert(seq![b].drop_first() =~= Seq::<u8>::empty());
            assert(esc(Seq::<u8>::empty()) =~= Seq::<u8>::empty());
            assert(esc(seq![b]) =~= esc_byte(b));
            assert(out@ =~= base + esc(s@.take(i as int + 1)));
        }
        i = i + 1;
    }
    proof {
        assert(s@.take(s@.len() as int) =~= s@);
    }
}

/// Builds the outbound request body around the given prompt bytes.
pub fn upstream_body(prompt: &[u8]) -> (r: Vec<u8>)
    ensures
        r@ == upstream_body_spec(prompt@),
{
    let mut out: Vec<u8> = Vec::new();
    out.extend_from_slice("{\"prompt\":{\"text\":\"".as_bytes());
    escape_into(&mut out, prompt);
    out.extend_from_slice("\"},\"temperature\":1.0,\"candidateCount\":1}".as_bytes());
    proof {
        assert(out@ =~= upstream_body_spec(prompt@));
    }
    out
}

/// The prompt stands verbatim at `prompt.text` of the outbound body: reading
/// the built body as a JSON string from just after the opening quote of the
/// `text` value recovers exactly the prompt bytes, ending at its closing
/// quote.
pub proof fn lemma_body_carries_prompt(p: Seq<u8>)
    ensures
        crate::json::str_rest(upstream_body_spec(p), body_prefix().len() as int) == Some(
            (p, (esc(p).len() + 1) as nat),
        ),
{
    let body = upstream_body_spec(p);
    let i = body_prefix().len() as int;
    let sfx = "\"},\"temperature\":1.0,\"candidateCount\":1}";
    reveal_strlit("\"},\"temperature\":1.0,\"candidateCount\":1}");
    assert(body_suffix()[0] == 0x22u8) by {
        assert(sfx@[0] == '"');
        assert(encode_utf8(sfx@) == encode_scalar('"' as u32) + encode_utf8(sfx@.drop_first()));
        assert(('"' as u32) == 0x22);
        assert(0x22u32 & 0x7F == 0x22) by (bit_vector);
    }
    assert forall|k: int| 0 <= k < esc(p).len() + 1 implies body.subrange(
        i,
        i + esc(p).len() + 1,
    )[k] == (esc(p) + seq![0x22u8])[k] by {
        assert(body[i + k] == (esc(p) + body_suffix())[k]);
    }
    assert(body.subrange(i, i + esc(p).len() + 1) =~= esc(p) + seq![0x22u8]);
    crate::json::lemma_esc_str_rest(p, body, i);
}

} // verus!
