use response_cache::json::{json_to_string, scrub_thought_signatures, semantic_request, Json};
use response_cache::key::{canonical_request, hex_string};
use response_cache::scrub_nondeterministic_content;
use response_cache::CachingAiProvider;
use serde_json::Value;
use sha2::Digest;

fn json(value: &Value) -> Json {
    match value {
        Value::Null => Json::Null,
        Value::Bool(b) => Json::Bool(*b),
        Value::Number(n) => Json::Number(n.to_string()),
        Value::String(s) => Json::Text(s.clone()),
        Value::Array(items) => Json::List(items.iter().map(json).collect()),
        Value::Object(members) => {
            Json::Object(members.iter().map(|(k, v)| (k.clone(), json(v))).collect())
        }
    }
}

fn parsed(text: &str) -> Json {
    json(&serde_json::from_str(text).unwrap())
}

fn key(text: &str) -> String {
    CachingAiProvider::compute_cache_key(&parsed(text))
}

fn sha256_hex(text: &str) -> String {
    sha2::Sha256::digest(text.as_bytes())
        .iter()
        .map(|b| format!("{:02x}", b))
        .collect()
}

#[test]
fn known_digests_are_reached() {
    assert_eq!(
        CachingAiProvider::compute_cache_key(&Json::Object(vec![])),
        "44136fa355b3678a1146ad16f7e8649e94fb4fc21fe77e8310c060f61caaff8a"
    );
    assert_eq!(
        CachingAiProvider::compute_cache_key(&Json::Null),
        "74234e98afe7498fb5daf1f36ac2d78acc339464f950703b8c019892f982b90b"
    );
    assert_eq!(hex_string(&[0x00, 0x0f, 0xa5, 0xff]), "000fa5ff");
    assert_eq!(hex_string(&[]), "");
}

#[test]
fn the_key_is_the_digest_of_the_canonical_text() {
    let text = r#"{"context_tag":"[ps:1]","messages":[{"role":"user","content":"commit 0123456789012345678901234567890123456789"}],"temperature":0.5}"#;
    let canonical = r#"{"messages":[{"content":"commit <HASH>","role":"user"}],"temperature":0.5}"#;
    assert_eq!(canonical_request(&parsed(text)), canonical);
    assert_eq!(key(text), sha256_hex(canonical));
    assert_eq!(key(text).len(), 64);
}

#[test]
fn every_byte_is_written_with_its_own_two_digits() {
    let mut seen: Vec<String> = Vec::new();
    for b in 0..=255u8 {
        let text = hex_string(&[b]);
        assert_eq!(text, format!("{:02x}", b));
        assert!(!seen.contains(&text));
        seen.push(text);
    }
}

#[test]
fn texts_are_those_of_serde_json() {
    let texts = [
        "null",
        "true",
        "false",
        "0",
        "-12",
        "18446744073709551615",
        "1.5",
        "1e300",
        r#""""#,
        r#""quote \" and backslash \\ and slash \/""#,
        "\"\\n\\r\\t\\b\\f\\u0000\\u001f\\u007f\\u0080\\u2028\"",
        "\"h\u{e9}llo \u{1f600}\"",
        "[]",
        "[1,[2,[]],{}]",
        "{}",
        r#"{"a":null,"b":{"c":[true,false]},"d\n":"e"}"#,
    ];
    for text in texts {
        let value: Value = serde_json::from_str(text).unwrap();
        assert_eq!(json_to_string(&json(&value)), serde_json::to_string(&value).unwrap());
    }
    for c in 0..0x300u32 {
        if let Some(c) = char::from_u32(c) {
            let value = Value::String(format!("a{}b", c));
            assert_eq!(json_to_string(&json(&value)), serde_json::to_string(&value).unwrap());
        }
    }
}

#[test]
fn members_keep_their_order() {
    let value = Json::Object(vec![
        ("b".to_string(), Json::Number("1".to_string())),
        ("a".to_string(), Json::Number("2".to_string())),
    ]);
    assert_eq!(json_to_string(&value), r#"{"b":1,"a":2}"#);
}

#[test]
fn the_label_of_the_log_has_no_part_in_the_key() {
    let without = r#"{"system":"x","messages":[]}"#;
    let with = r#"{"system":"x","messages":[],"context_tag":"[ps:123 p:1 s:4]"}"#;
    let other = r#"{"system":"x","messages":[],"context_tag":null}"#;
    assert_eq!(key(with), key(without));
    assert_eq!(key(other), key(without));
    // Further in, a member of that name is part of the request.
    assert_ne!(
        key(r#"{"messages":[{"context_tag":"a"}]}"#),
        key(r#"{"messages":[{"context_tag":"b"}]}"#)
    );
}

#[test]
fn opaque_tokens_are_taken_out_at_any_depth() {
    let a = r#"{"messages":[{"thought_signature":"x","parts":[{"thoughtSignature":[1,2]}],"text":"t"}]}"#;
    let b = r#"{"messages":[{"thought_signature":null,"parts":[{"thoughtSignature":{}}],"text":"t"}]}"#;
    let none = r#"{"messages":[{"parts":[{}],"text":"t"}]}"#;
    assert_eq!(key(a), key(b));
    assert_eq!(key(a), key(none));
    assert_eq!(json_to_string(&scrub_thought_signatures(&parsed(a))), r#"{"messages":[{"parts":[{}],"text":"t"}]}"#);
    // A value of that text is no token.
    assert_ne!(key(r#"["thought_signature"]"#), key("[]"));
}

#[test]
fn the_semantic_request_drops_both() {
    let request = parsed(r#"{"context_tag":"t","a":[{"thought_signature":1,"context_tag":2}]}"#);
    assert_eq!(
        json_to_string(&semantic_request(&request)),
        r#"{"a":[{"context_tag":2}]}"#
    );
}

#[test]
fn days_commits_and_commit_dates_have_no_part_in_the_key() {
    let request = |day: &str, hash: &str, date: &str| {
        let prompt = format!(
            "the current date is {}\ncommit {}\nAuthor: Joe\nDate:   {}\n\n    the \"patch\"",
            day, hash, date
        );
        CachingAiProvider::compute_cache_key(&Json::Object(vec![
            ("system".to_string(), Json::Text(prompt)),
            ("messages".to_string(), Json::List(vec![])),
        ]))
    };
    let first = request(
        "Monday, June 01, 2026",
        "aaaaaaaaaaaaaaaaaaaaaaaaaaaaaaaaaaaaaaaa",
        "Mon Jun 1 10:00:00 2026 -0300",
    );
    let second = request(
        "Tuesday, June 02, 2026",
        "bbbbbbbbbbbbbbbbbbbbbbbbbbbbbbbbbbbbbbbb",
        "Tue Jun 2 11:00:00 2026 -0300",
    );
    assert_eq!(first, second);
}

#[test]
fn what_is_asked_decides_the_key() {
    let base = r#"{"system":"diff","messages":["a"],"temperature":0.5}"#;
    for other in [
        r#"{"system":"diff2","messages":["a"],"temperature":0.5}"#,
        r#"{"system":"diff","messages":["b"],"temperature":0.5}"#,
        r#"{"system":"diff","messages":["a"],"temperature":1.0}"#,
        r#"{"system":"diff","messages":["a"],"temperature":0.5,"tools":[]}"#,
        r#"{"system":"diff","messages":[["a"]],"temperature":0.5}"#,
    ] {
        assert_ne!(key(base), key(other));
    }
}

#[test]
fn scrubbing_again_changes_nothing() {
    for text in [
        "the current date is Monday, June 01, 2026 commit aaaaaaaaaaaaaaaaaaaaaaaaaaaaaaaaaaaaaaaa",
        "Date:   Mon\\ncommit bbbbbbbbbbbbbbbbbbbbbbbbbbbbbbbbbbbbbbbb\nDate: \nDate: x",
        "commit the current date is Monday, June 01, 2026 Date:  ",
    ] {
        let once = scrub_nondeterministic_content(text);
        assert_eq!(scrub_nondeterministic_content(&once), once);
    }
}

#[test]
fn different_values_have_different_texts() {
    let texts = [
        "null", "\"null\"", "[null]", "[]", "[[]]", "{}", "[{}]", "1", "\"1\"", "[1,2]", "[12]",
        "[\"a,b\"]", "[\"a\",\"b\"]", "\"a\\\"b\"", "\"a\\\\\"", "\"\\u0001\"", "\"\\\\u0001\"",
        "{\"a\":1,\"b\":2}", "{\"a\":{\"b\":2}}", "{\"a:1\":2}", "\"\\n\"", "\"n\"",
    ];
    let written: Vec<String> = texts.iter().map(|t| json_to_string(&parsed(t))).collect();
    for i in 0..written.len() {
        for j in 0..i {
            assert_ne!(written[i], written[j]);
            assert_ne!(key(texts[i]), key(texts[j]));
        }
    }
}

#[test]
fn a_commit_date_may_end_its_text() {
    let request = |date: &str| {
        CachingAiProvider::compute_cache_key(&Json::Object(vec![
            ("a".to_string(), Json::Text(format!("Date:   {}", date))),
            ("b".to_string(), Json::Text("same".to_string())),
        ]))
    };
    assert_eq!(request("Mon Jun 1"), request("Tue Jun 2"));
    // What is escaped ends the line, and the rest of it counts.
    assert_ne!(request("Mon\t1"), request("Mon\t2"));
}

#[test]
fn a_date_line_leaves_the_rest_of_the_request_in_the_key() {
    let request = |temperature: &str, tail: &str| {
        CachingAiProvider::compute_cache_key(&Json::Object(vec![
            (
                "messages".to_string(),
                Json::List(vec![Json::Object(vec![
                    ("role".to_string(), Json::Text("user".to_string())),
                    ("text".to_string(), Json::Text("Date: x".to_string())),
                ])]),
            ),
            ("temperature".to_string(), Json::Number(temperature.to_string())),
            ("response_format".to_string(), Json::Text(tail.to_string())),
        ]))
    };
    assert_ne!(request("0.1", "json"), request("0.9", "json"));
    assert_ne!(request("0.1", "json"), request("0.1", "text"));
    assert_eq!(request("0.1", "json"), request("0.1", "json"));
}

#[test]
fn canonical_texts_scrub_each_string_for_itself() {
    let request = Json::Object(vec![
        ("Date: name".to_string(), Json::Number("0.1".to_string())),
        (
            "a".to_string(),
            Json::List(vec![
                Json::Text("Date: x".to_string()),
                Json::Bool(true),
                Json::Text("say \"Date: x\" twice".to_string()),
                Json::Text("commit aaaaaaaaaaaaaaaaaaaaaaaaaaaaaaaaaaaaaaaa".to_string()),
                Json::Null,
            ]),
        ),
    ]);
    assert_eq!(
        canonical_request(&request),
        r#"{"Date: <DATE>":0.1,"a":["Date: <DATE>",true,"say \"Date: <DATE>\" twice","commit <HASH>",null]}"#
    );
}

#[test]
fn strings_that_differ_beside_noise_have_different_keys() {
    let prompt = |patch: &str, day: &str, hash: &str, date: &str| {
        CachingAiProvider::compute_cache_key(&Json::Text(format!(
            "the current date is {}\ncommit {}\nDate:   {}\n\n{}",
            day, hash, date, patch
        )))
    };
    let a = "aaaaaaaaaaaaaaaaaaaaaaaaaaaaaaaaaaaaaaaa";
    let b = "bbbbbbbbbbbbbbbbbbbbbbbbbbbbbbbbbbbbbbbb";
    assert_ne!(
        prompt("-old\n+new", "Monday, June 01, 2026", a, "Mon"),
        prompt("-old\n+newer", "Monday, June 01, 2026", a, "Mon")
    );
    assert_eq!(
        prompt("-old\n+new", "Monday, June 01, 2026", a, "Mon"),
        prompt("-old\n+new", "Tuesday, June 02, 2026", b, "Tue")
    );
}

#[test]
fn a_request_has_the_key_that_it_has_without_opaque_tokens() {
    let request = parsed(
        r#"{"context_tag":"t","thoughtSignature":1,"messages":[{"thought_signature":"x","parts":[[{"thoughtSignature":{"thought_signature":2},"text":"t"}]]}]}"#,
    );
    let bare = scrub_thought_signatures(&request);
    assert_eq!(
        json_to_string(&bare),
        r#"{"context_tag":"t","messages":[{"parts":[[{"text":"t"}]]}]}"#
    );
    assert_eq!(
        CachingAiProvider::compute_cache_key(&request),
        CachingAiProvider::compute_cache_key(&bare)
    );
    assert_eq!(json_to_string(&scrub_thought_signatures(&bare)), json_to_string(&bare));
}
