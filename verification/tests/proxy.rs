use prompt_proxy::index;
use prompt_proxy::json::parse_prompt;
use prompt_proxy::proxy::prompt_request;
use prompt_proxy::proxy::relay_response;
use prompt_proxy::proxy::ProxyError;
use prompt_proxy::upstream::upstream_body;
use prompt_proxy::upstream::upstream_url;

#[test]
fn liveness_string() {
    assert_eq!(index(), "Ahhh so you're a nerd I see!!!!");
}

#[test]
fn simple_prompt_builds_request_and_relays_upstream_body() {
    let r = prompt_request(b"{\"prompt\":\"hello\"}", Some("k123")).unwrap();
    assert_eq!(
        r.url,
        "https://generativelanguage.googleapis.com/v1beta2/models/text-bison-001:generateText?key=k123"
    );
    assert_eq!(
        r.body,
        b"{\"prompt\":{\"text\":\"hello\"},\"temperature\":1.0,\"candidateCount\":1}".to_vec()
    );
    let upstream = b"{\"candidates\":[{\"output\":\"hi\"}]}".to_vec();
    let answer = relay_response(Some(upstream)).unwrap();
    assert_eq!(answer, "{\"candidates\":[{\"output\":\"hi\"}]}");
}

#[test]
fn empty_object_is_rejected_before_any_outbound_request_exists() {
    let r = prompt_request(b"{}", Some("k123"));
    assert!(matches!(r, Err(ProxyError::BadRequest)));
}

#[test]
fn missing_key_is_a_server_error() {
    let r = prompt_request(b"{\"prompt\":\"x\"}", None);
    assert!(matches!(r, Err(ProxyError::MissingKey)));
}

#[test]
fn upstream_error_body_is_relayed_verbatim() {
    // a non-2xx upstream status is not inspected: its body comes back as-is
    let answer = relay_response(Some(b"err".to_vec())).unwrap();
    assert_eq!(answer, "err");
}

#[test]
fn non_ascii_prompt_passes_through_as_utf8() {
    let body = "{\"prompt\":\"\u{65e5}\u{672c}\u{8a9e}\"}".as_bytes();
    let r = prompt_request(body, Some("k")).unwrap();
    let expected = "{\"prompt\":{\"text\":\"\u{65e5}\u{672c}\u{8a9e}\"},\"temperature\":1.0,\"candidateCount\":1}";
    assert_eq!(r.body, expected.as_bytes().to_vec());
}

#[test]
fn transport_failure_is_a_server_error() {
    assert!(matches!(relay_response(None), Err(ProxyError::UpstreamFailed)));
}

#[test]
fn non_utf8_upstream_bytes_are_a_server_error() {
    assert!(matches!(
        relay_response(Some(vec![0x68, 0xff, 0x69])),
        Err(ProxyError::BadUtf8)
    ));
}

#[test]
fn url_embeds_the_key_verbatim() {
    let u = upstream_url("abc def");
    assert_eq!(
        u,
        "https://generativelanguage.googleapis.com/v1beta2/models/text-bison-001:generateText?key=abc def"
    );
}

#[test]
fn body_escapes_quotes_backslashes_and_controls() {
    let b = upstream_body(b"a\"b\\c\nd\x01e");
    let expected =
        "{\"prompt\":{\"text\":\"a\\\"b\\\\c\\nd\\u0001e\"},\"temperature\":1.0,\"candidateCount\":1}";
    assert_eq!(b, expected.as_bytes().to_vec());
}

#[test]
fn parse_decodes_escapes_and_surrogate_pairs() {
    let p = parse_prompt(b"{\"prompt\":\"a\\nb\\u0041\\ud83d\\ude00\"}").unwrap();
    assert_eq!(p, "a\nbA\u{1f600}".as_bytes().to_vec());
}

#[test]
fn parse_ignores_other_members() {
    let p =
        parse_prompt(b" { \"x\" : [ 1 , -2.5e+3 , { \"y\" : null } ] , \"prompt\" : \"p\" , \"z\" : true } ")
            .unwrap();
    assert_eq!(p, b"p".to_vec());
}

#[test]
fn parse_rejects_non_string_prompt() {
    assert!(parse_prompt(b"{\"prompt\":5}").is_none());
    assert!(parse_prompt(b"{\"prompt\":null}").is_none());
    assert!(parse_prompt(b"{\"prompt\":[\"x\"]}").is_none());
}

#[test]
fn parse_rejects_missing_prompt_and_malformed_json() {
    assert!(parse_prompt(b"{\"other\":\"x\"}").is_none());
    assert!(parse_prompt(b"").is_none());
    assert!(parse_prompt(b"\"prompt\"").is_none());
    assert!(parse_prompt(b"{\"prompt\":\"x\"").is_none());
    assert!(parse_prompt(b"{\"prompt\":\"x\"}garbage").is_none());
    assert!(parse_prompt(b"{\"prompt\":\"x\",}").is_none());
    assert!(parse_prompt(b"{\"a\":01,\"prompt\":\"x\"}").is_none());
}

#[test]
fn parse_rejects_duplicate_prompt() {
    assert!(parse_prompt(b"{\"prompt\":\"a\",\"prompt\":\"b\"}").is_none());
}

#[test]
fn parse_rejects_bad_escapes_and_raw_controls() {
    assert!(parse_prompt(b"{\"prompt\":\"\\q\"}").is_none());
    assert!(parse_prompt(b"{\"prompt\":\"\\ud83d\"}").is_none());
    assert!(parse_prompt(b"{\"prompt\":\"a\nb\"}").is_none());
}

#[test]
fn parse_rejects_overdeep_nesting() {
    let mut body: Vec<u8> = Vec::new();
    body.extend_from_slice(b"{\"a\":");
    for _ in 0..200 {
        body.push(b'[');
    }
    for _ in 0..200 {
        body.push(b']');
    }
    body.extend_from_slice(b",\"prompt\":\"x\"}");
    assert!(parse_prompt(&body).is_none());
}

#[test]
fn empty_prompt_is_accepted() {
    let p = parse_prompt(b"{\"prompt\":\"\"}").unwrap();
    assert_eq!(p, Vec::<u8>::new());
    let r = prompt_request(b"{\"prompt\":\"\"}", Some("k")).unwrap();
    assert_eq!(
        r.body,
        b"{\"prompt\":{\"text\":\"\"},\"temperature\":1.0,\"candidateCount\":1}".to_vec()
    );
}
