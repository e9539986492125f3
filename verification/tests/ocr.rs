use paperdown::json::Json;
use paperdown::ocr::{
    build_payload, check_object, check_reply, check_status, read_reply, validate_layout_response,
    OcrError, API_URL,
};

#[test]
fn call_layout_parsing_429_returns_actionable_error() {
    let body = r#"{"error":{"code":"1302","message":"Rate limit reached for requests"}}"#;
    let err = match check_status(429, body.to_string()) {
        Ok(_) => panic!("expected 429 error"),
        Err(e) => e.message(),
    };
    assert!(err.contains("Z.AI OCR rate limit (HTTP 429)"));
    assert!(err.contains("--ocr-workers"));
}

#[test]
fn other_refusals_give_status_and_text() {
    for status in [100, 199, 300, 404, 500] {
        match check_status(status, "why".to_string()) {
            Ok(_) => panic!("expected an error"),
            Err(e) => assert_eq!(
                e.message(),
                format!("Z.AI OCR request failed with HTTP {status}: why")
            ),
        }
    }
    for status in [200, 204, 299] {
        assert_eq!(check_status(status, "text".to_string()).ok().as_deref(), Some("text"));
    }
    assert_eq!(OcrError::Unreachable.message(), "Could not reach Z.AI OCR API");
    assert_eq!(OcrError::InvalidJson.message(), "Z.AI OCR API returned invalid JSON");
    assert_eq!(API_URL, "https://api.z.ai/api/paas/v4/layout_parsing");
}

#[test]
fn a_reply_is_checked_step_by_step() {
    let told = |status: u16, parsed: Option<Json>| match check_reply(status, "t".to_string(), parsed)
    {
        Ok(reply) => Ok(reply),
        Err(e) => Err(e.message()),
    };
    let object = || Json::object(Vec::new());
    assert_eq!(told(200, Some(object())), Ok(object()));
    assert_eq!(told(200, None), Err(OcrError::InvalidJson.message()));
    assert_eq!(told(200, Some(Json::Null)), Err(OcrError::UnexpectedType.message()));
    assert_eq!(told(429, Some(object())), Err(OcrError::RateLimited.message()));
    assert_eq!(told(500, None), Err("Z.AI OCR request failed with HTTP 500: t".to_string()));
}

#[test]
fn a_reply_is_read_from_its_text() {
    let told = |status: u16, text: &str| match read_reply(status, text.to_string()) {
        Ok(reply) => Ok(reply),
        Err(e) => Err(e.message()),
    };
    assert_eq!(
        told(200, r#" {"md_results": "a\u00e9", "n": [1, -2.50, null, true], "a": {}} "#),
        Ok(Json::object(vec![
            ("a".to_string(), Json::object(Vec::new())),
            ("md_results".to_string(), Json::of_text("a\u{e9}")),
            (
                "n".to_string(),
                Json::array(vec![
                    Json::Number("1".to_string()),
                    Json::Number("-2.5".to_string()),
                    Json::Null,
                    Json::Bool(true),
                ])
            ),
        ]))
    );
    assert_eq!(told(204, "{}"), Ok(Json::object(Vec::new())));
    for text in ["", "{", "{} {}", "{'a': 1}", "plain"] {
        assert_eq!(told(200, text), Err(OcrError::InvalidJson.message()), "{text}");
    }
    for text in ["[]", "null", "7", "\"{}\""] {
        assert_eq!(told(200, text), Err(OcrError::UnexpectedType.message()), "{text}");
    }
    assert_eq!(told(429, "{}"), Err(OcrError::RateLimited.message()));
    assert_eq!(told(302, "{}"), Err("Z.AI OCR request failed with HTTP 302: {}".to_string()));
    assert_eq!(told(500, "["), Err("Z.AI OCR request failed with HTTP 500: [".to_string()));
}

#[test]
fn a_reply_that_was_read_gives_markdown_layout_and_usage() {
    let text = r##"{"md_results": "# T", "layout_details": [[]], "usage": {"total_tokens": 5}}"##;
    let reply = read_reply(200, text.to_string()).ok().expect("an object");
    let (markdown, layout, usage) = validate_layout_response(&reply).ok().expect("valid");
    assert_eq!(markdown, "# T");
    assert_eq!(layout, vec![Json::array(Vec::new())]);
    assert_eq!(
        usage.and_then(|v| v.compact()).as_deref(),
        Some("{\"total_tokens\":5}")
    );
}

#[test]
fn a_pdf_is_sent_in_base64() {
    for (bytes, encoded) in [
        (&b""[..], ""),
        (&b"\x00"[..], "AA=="),
        (&b"f"[..], "Zg=="),
        (&b"fo"[..], "Zm8="),
        (&b"foo"[..], "Zm9v"),
        (&b"%PDF-1.7\n"[..], "JVBERi0xLjcK"),
        (&b"\xfb\xff\xfe"[..], "+//+"),
    ] {
        let payload = build_payload(bytes);
        assert_eq!(
            payload,
            Json::object(vec![
                (
                    "file".to_string(),
                    Json::Text(format!("data:application/pdf;base64,{encoded}"))
                ),
                ("model".to_string(), Json::Text("glm-ocr".to_string())),
                ("return_crop_images".to_string(), Json::Bool(true)),
            ])
        );
    }
}

fn reply(fields: Vec<(&str, Json)>) -> Json {
    Json::object(fields.into_iter().map(|(n, v)| (n.to_string(), v)).collect())
}

#[test]
fn a_reply_has_markdown_and_a_layout() {
    let good = reply(vec![
        ("md_results", Json::of_text("# T")),
        ("layout_details", Json::Array(vec![Json::Null])),
        ("usage", reply(vec![("total_tokens", Json::of_number(5))])),
    ]);
    let (markdown, layout, usage) = validate_layout_response(&good).ok().expect("valid");
    assert_eq!(markdown, "# T");
    assert_eq!(layout, vec![Json::Null]);
    assert_eq!(usage, Some(reply(vec![("total_tokens", Json::Number("5".to_string()))])));
    let no_usage = reply(vec![
        ("md_results", Json::of_text("")),
        ("layout_details", Json::Array(Vec::new())),
        ("usage", Json::of_number(5)),
    ]);
    assert_eq!(validate_layout_response(&no_usage).ok().expect("valid").2, None);
}

#[test]
fn a_reply_without_them_is_refused() {
    let message = |v: &Json| match validate_layout_response(v) {
        Ok(_) => panic!("expected an error"),
        Err(e) => e.message(),
    };
    let bad = reply(vec![("md_results", Json::Null), ("layout_details", Json::Null)]);
    assert_eq!(message(&bad), "Z.AI OCR response is missing string field 'md_results'");
    let bad = reply(vec![("md_results", Json::of_text("x")), ("layout_details", Json::Null)]);
    assert_eq!(message(&bad), "Z.AI OCR response is missing list field 'layout_details'");
    match check_object(Json::Array(Vec::new())) {
        Ok(_) => panic!("expected an error"),
        Err(e) => {
            assert_eq!(e.message(), "Z.AI OCR API returned an unexpected response type")
        }
    }
    assert!(check_object(bad).is_ok());
}
