use jina_api::scan::{
    collect_vectors, fallback_error, find_bytes, scan_embedding_arrays, split_pieces, ExtractError,
    Span,
};

fn parse_arrays(json: &[u8], spans: &[Span]) -> Vec<Vec<f32>> {
    spans
        .iter()
        .map(|&span| {
            split_pieces(json, span)
                .iter()
                .filter_map(|p| {
                    std::str::from_utf8(&json[p.start..p.end])
                        .ok()
                        .and_then(|s| s.trim().parse::<f32>().ok())
                })
                .collect()
        })
        .collect()
}

fn extract(json: &str) -> Result<Vec<Vec<f32>>, ExtractError> {
    let bytes = json.as_bytes();
    let spans = scan_embedding_arrays(bytes)?;
    collect_vectors(bytes, &parse_arrays(bytes, &spans))
}

fn values(n: usize) -> Vec<f32> {
    (0..n).map(|i| i as f32 * 0.001).collect()
}

fn array_text(v: &[f32]) -> String {
    v.iter().map(|x| format!("{}", x)).collect::<Vec<_>>().join(",")
}

#[test]
fn full_array_is_extracted() {
    let v = values(1024);
    let json = format!("{{\"data\":[{{\"embedding\":[{}]}}]}}", array_text(&v));
    assert_eq!(extract(&json), Ok(vec![v]));
}

#[test]
fn long_array_is_truncated() {
    let v = values(2000);
    let json = format!("{{\"data\":[{{\"embedding\":[{}]}}]}}", array_text(&v));
    assert_eq!(extract(&json), Ok(vec![v[..1024].to_vec()]));
}

#[test]
fn short_array_is_dropped() {
    let v = values(500);
    let json = format!("{{\"data\":[{{\"embedding\":[{}]}}]}}", array_text(&v));
    let expected = json.as_bytes()[..200].to_vec();
    assert_eq!(extract(&json), Err(ExtractError::ParseFailure(expected)));
}

#[test]
fn short_array_falls_back_to_error_message() {
    let json = "{\"data\":[{\"embedding\":[0.1,0.2]}],\"error\":{\"message\":\"too short\"}}";
    assert_eq!(extract(json), Err(ExtractError::ApiError(b"too short".to_vec())));
}

#[test]
fn error_message_is_extracted() {
    let json = "{\"error\":{\"message\":\"rate limited\"}}";
    assert_eq!(extract(json), Err(ExtractError::ApiError(b"rate limited".to_vec())));
}

#[test]
fn error_without_message_uses_fallback_bounds() {
    // No "message": the colon after "error" opens, the next quote pair bounds.
    let json = "{\"error\": \"quota\"}";
    assert_eq!(extract(json), Err(ExtractError::ApiError(b"quota".to_vec())));
}

#[test]
fn unclosed_message_runs_to_end() {
    let json = "{\"error\":{\"message\":\"cut off";
    assert_eq!(extract(json), Err(ExtractError::ApiError(b"cut off".to_vec())));
}

#[test]
fn unclosed_message_stops_after_fallback_length() {
    let tail = "x".repeat(150);
    let json = format!("{{\"error\":{{\"message\":\"{}", tail);
    assert_eq!(extract(&json), Err(ExtractError::ApiError(vec![b'x'; 100])));
}

#[test]
fn unstructured_text_is_parse_failure() {
    let json = "service unavailable";
    assert_eq!(extract(json), Err(ExtractError::ParseFailure(json.as_bytes().to_vec())));
}

#[test]
fn parse_failure_snippet_is_bounded() {
    let json = "z".repeat(500);
    match extract(&json) {
        Err(ExtractError::ParseFailure(p)) => {
            assert_eq!(p.len(), 200);
            assert_eq!(&p[..], &json.as_bytes()[..200]);
        }
        other => panic!("unexpected {:?}", other),
    }
}

#[test]
fn arrays_keep_source_order() {
    let a = values(1024);
    let b: Vec<f32> = values(1024).iter().map(|x| x + 1.0).collect();
    let json = format!(
        "{{\"data\":[{{\"embedding\":[{}]}},{{\"embedding\":[{}]}}]}}",
        array_text(&a),
        array_text(&b)
    );
    assert_eq!(extract(&json), Ok(vec![a, b]));
}

#[test]
fn bad_tokens_are_skipped() {
    let mut v = values(1030);
    let mut text = array_text(&v);
    text.push_str(",oops, ,null");
    let json = format!("{{\"data\":[{{\"embedding\":[{}]}}]}}", text);
    v.truncate(1024);
    assert_eq!(extract(&json), Ok(vec![v]));
}

#[test]
fn data_without_bracket_is_no_data_array() {
    assert_eq!(extract("{\"data\": null}"), Err(ExtractError::NoDataArray));
}

#[test]
fn embedding_without_bracket_is_no_embedding_array() {
    assert_eq!(
        extract("{\"data\":[{\"embedding\": null}"),
        Err(ExtractError::NoEmbeddingArray)
    );
}

#[test]
fn embedding_without_end_is_no_embedding_end() {
    assert_eq!(
        extract("{\"data\":[{\"embedding\":[0.1,0.2"),
        Err(ExtractError::NoEmbeddingEnd)
    );
}

#[test]
fn missing_data_scans_to_nothing() {
    assert_eq!(scan_embedding_arrays(b"{\"error\":{}}"), Ok(vec![]));
}

#[test]
fn scan_reports_array_contents() {
    let json = b"{\"data\":[{\"embedding\":[1,2]},{\"embedding\":[]}]}";
    assert_eq!(
        scan_embedding_arrays(json),
        Ok(vec![Span { start: 23, end: 26 }, Span { start: 43, end: 43 }])
    );
}

#[test]
fn pieces_split_at_commas() {
    let json = b"[1, 2,,3]";
    assert_eq!(
        split_pieces(json, Span { start: 1, end: 8 }),
        vec![
            Span { start: 1, end: 2 },
            Span { start: 3, end: 5 },
            Span { start: 6, end: 6 },
            Span { start: 7, end: 8 },
        ]
    );
    assert_eq!(split_pieces(json, Span { start: 4, end: 4 }), vec![Span { start: 4, end: 4 }]);
}

#[test]
fn find_bytes_first_occurrence() {
    assert_eq!(find_bytes(b"abcabc", b"bc", 0), Some(1));
    assert_eq!(find_bytes(b"abcabc", b"bc", 2), Some(4));
    assert_eq!(find_bytes(b"abcabc", b"bc", 5), None);
    assert_eq!(find_bytes(b"ab", b"abc", 0), None);
}

#[test]
fn fallback_error_directly() {
    assert_eq!(
        fallback_error(b"{\"error\":{\"message\":\"bad key\"}}"),
        ExtractError::ApiError(b"bad key".to_vec())
    );
    assert_eq!(fallback_error(b""), ExtractError::ParseFailure(vec![]));
}
