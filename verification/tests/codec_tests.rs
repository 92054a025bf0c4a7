use si::codec::{encode_model_index, parse_model_index};
use si::models::{ModelFile, ModelIndexData, ModelInfo};

fn mf(size: u64, path: &str) -> ModelFile {
    ModelFile {
        size,
        path: path.to_string(),
    }
}

#[test]
fn test_encode_exact_text() {
    let doc = ModelIndexData {
        models: vec![ModelInfo::new(
            "acme/model-a".to_string(),
            vec![mf(5, "/p/a.bin")],
        )],
    };
    let text = encode_model_index(&doc);
    assert_eq!(
        text,
        "{\"models\":[{\"model_id\":\"acme/model-a\",\"files\":[{\"size\":5,\"path\":\"/p/a.bin\"}]}]}"
    );
}

#[test]
fn test_encode_empty_document() {
    let doc = ModelIndexData { models: vec![] };
    assert_eq!(encode_model_index(&doc), "{\"models\":[]}");
}

#[test]
fn test_round_trip_two_records() {
    let doc = ModelIndexData {
        models: vec![
            ModelInfo::new("model1".to_string(), vec![]),
            ModelInfo::new(
                "model2".to_string(),
                vec![mf(512, "/path/to/model2.bin"), mf(7, "b")],
            ),
        ],
    };
    let text = encode_model_index(&doc);
    let parsed = parse_model_index(&text).expect("encoded document must parse");
    assert_eq!(parsed.models.len(), 2);
    assert_eq!(parsed.models[0].model_id, "model1");
    assert_eq!(parsed.models[0].files.len(), 0);
    assert_eq!(parsed.models[1].model_id, "model2");
    assert_eq!(parsed.models[1].files.len(), 2);
    assert_eq!(parsed.models[1].files[0].size, 512);
    assert_eq!(parsed.models[1].files[0].path, "/path/to/model2.bin");
    assert_eq!(parsed.models[1].files[1].size, 7);
    assert_eq!(parsed.models[1].files[1].path, "b");
}

#[test]
fn test_round_trip_escaped_characters() {
    let doc = ModelIndexData {
        models: vec![ModelInfo::new(
            "with\"quote".to_string(),
            vec![mf(1, "back\\slash and \"quote\"")],
        )],
    };
    let text = encode_model_index(&doc);
    let parsed = parse_model_index(&text).expect("escaped document must parse");
    assert_eq!(parsed.models[0].model_id, "with\"quote");
    assert_eq!(parsed.models[0].files[0].path, "back\\slash and \"quote\"");
}

#[test]
fn test_model_file_edge_cases() {
    let doc = ModelIndexData {
        models: vec![ModelInfo::new(
            "edge".to_string(),
            vec![mf(0, ""), mf(u64::MAX, "/very/long/path/to/a/model/file.bin")],
        )],
    };
    let text = encode_model_index(&doc);
    let parsed = parse_model_index(&text).expect("edge-case document must parse");
    assert_eq!(parsed.models[0].files[0].size, 0);
    assert_eq!(parsed.models[0].files[0].path, "");
    assert_eq!(parsed.models[0].files[1].size, u64::MAX);
    assert_eq!(
        parsed.models[0].files[1].path,
        "/very/long/path/to/a/model/file.bin"
    );
}

#[test]
fn test_model_info_with_special_characters() {
    let doc = ModelIndexData {
        models: vec![ModelInfo::new(
            "model-with-special-chars-!@#$%^&*()".to_string(),
            vec![mf(1024, "/path/with spaces/and-special-chars!.bin")],
        )],
    };
    let text = encode_model_index(&doc);
    let parsed = parse_model_index(&text).expect("special characters must round-trip");
    assert_eq!(parsed.models[0].model_id, "model-with-special-chars-!@#$%^&*()");
    assert_eq!(
        parsed.models[0].files[0].path,
        "/path/with spaces/and-special-chars!.bin"
    );
}

#[test]
fn test_parse_accepts_whitespace() {
    let text = "{\n  \"models\": [\n    {\n      \"model_id\": \"m\",\n      \"files\": [ { \"size\": 42, \"path\": \"p\" } ]\n    }\n  ]\n}\n";
    let parsed = parse_model_index(text).expect("whitespace between tokens is accepted");
    assert_eq!(parsed.models.len(), 1);
    assert_eq!(parsed.models[0].model_id, "m");
    assert_eq!(parsed.models[0].files[0].size, 42);
}

#[test]
fn test_parse_rejects_malformed_text() {
    assert!(parse_model_index("invalid json").is_err());
    assert!(parse_model_index("").is_err());
    assert!(parse_model_index("{").is_err());
    assert!(parse_model_index("{\"models\":}").is_err());
    assert!(parse_model_index("{\"models\":[}").is_err());
    assert!(parse_model_index("{\"models\":[]").is_err());
    assert!(parse_model_index("{\"models\":[]}{").is_err());
    assert!(parse_model_index("{\"wrong\":[]}").is_err());
}

#[test]
fn test_parse_number_bounds() {
    let ok = "{\"models\":[{\"model_id\":\"m\",\"files\":[{\"size\":18446744073709551615,\"path\":\"p\"}]}]}";
    let parsed = parse_model_index(ok).expect("u64::MAX fits");
    assert_eq!(parsed.models[0].files[0].size, u64::MAX);

    let over = "{\"models\":[{\"model_id\":\"m\",\"files\":[{\"size\":18446744073709551616,\"path\":\"p\"}]}]}";
    assert!(parse_model_index(over).is_err());
}

#[test]
fn test_parse_accepts_json_escapes() {
    let text = "{\"models\":[{\"model_id\":\"a\\nb\\t\\/\\u0041\\u001b\",\"files\":[]}]}";
    let parsed = parse_model_index(text).expect("the JSON escape set is accepted");
    assert_eq!(parsed.models[0].model_id, "a\nb\t/A\u{1b}");
}

#[test]
fn test_parse_rejects_bad_escape() {
    // An unknown escape, a truncated or malformed \u escape, and a
    // surrogate code point are all rejected.
    assert!(parse_model_index("{\"models\":[{\"model_id\":\"a\\xb\",\"files\":[]}]}").is_err());
    assert!(parse_model_index("{\"models\":[{\"model_id\":\"a\\u00\",\"files\":[]}]}").is_err());
    assert!(parse_model_index("{\"models\":[{\"model_id\":\"a\\u00zq\",\"files\":[]}]}").is_err());
    assert!(parse_model_index("{\"models\":[{\"model_id\":\"a\\ud800b\",\"files\":[]}]}").is_err());
}

#[test]
fn test_control_characters_round_trip_as_strict_escapes() {
    let doc = ModelIndexData {
        models: vec![ModelInfo::new(
            "ctl".to_string(),
            vec![mf(1, "a\nb\tc\rd\u{8}e\u{c}f\u{1b}g\u{1}h")],
        )],
    };
    let text = encode_model_index(&doc);
    // Control characters never appear raw in the encoding.
    assert!(!text.contains(|c: char| (c as u32) < 32));
    assert!(text.contains("\\n"));
    assert!(text.contains("\\u001b"));
    assert!(text.contains("\\u0001"));
    let parsed = parse_model_index(&text).expect("escaped controls parse back");
    assert_eq!(parsed.models[0].files[0].path, "a\nb\tc\rd\u{8}e\u{c}f\u{1b}g\u{1}h");
}
