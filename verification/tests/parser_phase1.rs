use reemember::parser::{parse_csv, parse_json_canonical};

#[test]
fn parse_json_canonical_success() {
    let input = r#"
[
  {
    "word": "Consistency",
    "definitions": [
      { "meaning": "being consistent" }
    ],
    "metadata": {
      "review_count": 0
    }
  }
]
"#;

    let records = parse_json_canonical(input).expect("json should parse");
    assert_eq!(records.len(), 1);
    assert_eq!(records[0].word_key(), "consistency");
}

#[test]
fn parse_json_fails_when_word_is_missing() {
    let input = r#"
[
  {
    "word": "   ",
    "definitions": [
      { "meaning": "test" }
    ]
  }
]
"#;

    let err = parse_json_canonical(input).expect_err("json should fail validation");
    assert!(err.to_string().contains("missing required field: word"));
}

#[test]
fn parse_json_fails_when_meaning_is_missing() {
    let input = r#"
[
  {
    "word": "consistency",
    "definitions": [
      { "meaning": "   " }
    ]
  }
]
"#;

    let err = parse_json_canonical(input).expect_err("json should fail validation");
    assert!(
        err.to_string()
            .contains("missing required field: definitions[].meaning")
    );
}

#[test]
fn parse_csv_minimal_success_and_skip_blank_lines() {
    let input = "word,meaning_vi\nconsistency,being consistent\n\nresilient,strong\n";

    let report = parse_csv(input).expect("csv should parse");
    assert_eq!(report.errors.len(), 0);
    assert_eq!(report.records.len(), 2);
    assert_eq!(report.records[0].word, "consistency");
    assert_eq!(report.records[1].definitions[0].meaning, "strong");
}

#[test]
fn parse_csv_reports_missing_required_fields_per_row() {
    let input = "word,meaning_vi\n,meaning only\nword_only,\nvalid,ok\n";

    let report = parse_csv(input).expect("csv should parse with row errors");
    assert_eq!(report.records.len(), 1);
    assert_eq!(report.errors.len(), 2);
    assert!(report.errors[0].message.contains("missing required field: word"));
    assert!(
        report.errors[1]
            .message
            .contains("missing required field: meaning_vi")
    );
}

#[test]
fn parse_csv_extended_success_with_split_fields() {
    let input = "word,meaning_vi,phonetic,pos,examples,tags,created_at,review_count\n\
                 consistency,meaning one; meaning two,/k/,noun,ex1 | ex2,tag1 | tag2,2026-04-20T10:00:00Z,2\n";

    let report = parse_csv(input).expect("csv should parse");
    assert_eq!(report.errors.len(), 0);
    assert_eq!(report.records.len(), 1);

    let record = &report.records[0];
    assert_eq!(record.definitions.len(), 2);
    assert_eq!(record.examples.len(), 2);
    assert_eq!(record.metadata.tags.len(), 2);
    assert_eq!(record.metadata.review_count, 2);
}

#[test]
fn parse_csv_reports_invalid_review_count() {
    let input = "word,meaning_vi,review_count\nconsistency,valid,not_number\n";

    let report = parse_csv(input).expect("csv should parse with row errors");
    assert_eq!(report.records.len(), 0);
    assert_eq!(report.errors.len(), 1);
    assert!(report.errors[0].message.contains("invalid review_count"));
}


#[test]
fn parse_json_rejects_text_that_is_not_json() {
    let err = parse_json_canonical("{ not valid json").expect_err("json should fail");
    assert!(err.to_string().starts_with("json parse error: "));
}

#[test]
fn parse_json_reads_every_optional_field() {
    let input = r#"[{"word":"Ephemeral","phonetic":"/e/","definitions":[{"pos":"adjective","meaning":"short"}],
        "examples":["Fame is ephemeral."],"synonyms":["transient"],"antonyms":["permanent"],
        "family_words":["ephemerality"],"metadata":{"tags":["ielts"],"created_at":"2024-01-15T10:00:00Z","review_count":3}}]"#;
    let records = parse_json_canonical(input).expect("json should parse");
    let r = &records[0];
    assert_eq!(r.phonetic.as_deref(), Some("/e/"));
    assert_eq!(r.definitions[0].pos.as_deref(), Some("adjective"));
    assert_eq!(r.synonyms, vec!["transient".to_string()]);
    assert_eq!(r.antonyms, vec!["permanent".to_string()]);
    assert_eq!(r.family_words, vec!["ephemerality".to_string()]);
    assert_eq!(r.metadata.tags, vec!["ielts".to_string()]);
    assert_eq!(r.metadata.created_at.as_deref(), Some("2024-01-15T10:00:00Z"));
    assert_eq!(r.metadata.review_count, 3);
}

#[test]
fn parse_csv_requires_word_and_meaning_columns() {
    let err = parse_csv("word,phonetic\nx,/x/\n").expect_err("header without meaning_vi");
    assert!(err.to_string().contains("meaning_vi"));
}

#[test]
fn csv_extended_format_reads_relation_columns() {
    let input = "word,phonetic,meaning_vi,pos,examples,synonyms,antonyms,family_words,tags,review_count\nephemeral,/ɪˈfem.ər.əl/,phù du,adjective,Fame is ephemeral.,transient|fleeting,permanent,ephemerality,advanced|ielts,3\n";
    let report = parse_csv(input).unwrap();
    let w = &report.records[0];
    assert_eq!(w.word, "ephemeral");
    assert_eq!(w.definitions[0].meaning, "phù du");
    assert_eq!(w.examples, vec!["Fame is ephemeral.".to_string()]);
    assert_eq!(w.synonyms, vec!["transient".to_string(), "fleeting".to_string()]);
    assert_eq!(w.antonyms, vec!["permanent".to_string()]);
    assert_eq!(w.family_words, vec!["ephemerality".to_string()]);
    assert_eq!(w.metadata.tags, vec!["advanced".to_string(), "ielts".to_string()]);
    assert_eq!(w.metadata.review_count, 3);
}
