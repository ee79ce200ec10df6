use reemember::db::init_memory_db;
use reemember::json::{parse_json_text, write_json_pretty, JsonMember, JsonNumber, JsonValue};
use reemember::model::{Definition, Metadata, WordRecord};
use reemember::parser::{parse_csv, parse_json_canonical};
use reemember::repository::WordRepository;
use reemember::service::VocabularyService;

fn record(word: &str, defs: Vec<(Option<&str>, &str)>) -> WordRecord {
    WordRecord {
        word: word.to_string(),
        phonetic: Some("/p, q/".to_string()),
        definitions: defs
            .into_iter()
            .map(|(p, m)| Definition { pos: p.map(|x| x.to_string()), meaning: m.to_string() })
            .collect(),
        examples: vec!["One, two.".to_string(), "Three".to_string()],
        synonyms: vec!["syn".to_string()],
        antonyms: vec![],
        family_words: vec![],
        metadata: Metadata {
            tags: vec!["b".to_string(), "a".to_string()],
            created_at: Some("2026-04-20T10:00:00Z".to_string()),
            review_count: 3,
        },
    }
}

#[test]
fn export_csv_writes_one_row_per_definition() {
    let mut repo = WordRepository::new(init_memory_db().unwrap());
    repo.upsert(&record("Focus", vec![(Some("noun"), "tiêu điểm"), (None, "tập \"trung\"")])).unwrap();
    let text = VocabularyService::export_csv(&repo).unwrap();
    assert_eq!(
        text,
        "word,meaning_vi,phonetic,pos,examples,synonyms,antonyms,family_words,tags,created_at,review_count\n\
         Focus,tiêu điểm,\"/p, q/\",noun,\"One, two.|Three\",syn,,,a|b,2026-04-20T10:00:00Z,3\n\
         Focus,\"tập \"\"trung\"\"\",\"/p, q/\",,\"One, two.|Three\",syn,,,a|b,2026-04-20T10:00:00Z,3\n"
    );
}

#[test]
fn exported_csv_reads_back_as_the_same_definitions() {
    let mut repo = WordRepository::new(init_memory_db().unwrap());
    repo.upsert(&record("Focus", vec![(Some("noun"), "tiêu điểm"), (Some("verb"), "tập trung")])).unwrap();
    let text = VocabularyService::export_csv(&repo).unwrap();
    let report = parse_csv(&text).unwrap();
    assert!(report.errors.is_empty());
    assert_eq!(report.records.len(), 2);
    assert_eq!(report.records[0].definitions[0].meaning, "tiêu điểm");
    assert_eq!(report.records[1].definitions[0].pos.as_deref(), Some("verb"));
    assert_eq!(report.records[0].examples, vec!["One, two.".to_string(), "Three".to_string()]);
    assert_eq!(report.records[0].synonyms, vec!["syn".to_string()]);
    assert_eq!(report.records[0].metadata.review_count, 3);
}

#[test]
fn export_of_empty_library_is_header_only_csv_and_empty_json_array() {
    let repo = WordRepository::new(init_memory_db().unwrap());
    assert_eq!(
        VocabularyService::export_csv(&repo).unwrap(),
        "word,meaning_vi,phonetic,pos,examples,synonyms,antonyms,family_words,tags,created_at,review_count\n"
    );
    assert_eq!(VocabularyService::export_json(&repo).unwrap(), "[]");
}

#[test]
fn exported_json_reads_back_as_the_same_records() {
    let mut repo = WordRepository::new(init_memory_db().unwrap());
    let r = record("Focus", vec![(Some("noun"), "tiêu điểm")]);
    repo.upsert(&r).unwrap();
    let text = VocabularyService::export_json(&repo).unwrap();
    let back = parse_json_canonical(&text).unwrap();
    assert_eq!(back.len(), 1);
    let stored = repo.get_by_word_key("focus").unwrap().unwrap();
    assert_eq!(back[0], stored);
}

#[test]
fn json_text_round_trips_through_serde_json() {
    let doc = JsonValue::Object(vec![
        JsonMember { key: "b".to_string(), value: JsonValue::Number(JsonNumber::NegInt(-7)) },
        JsonMember {
            key: "a".to_string(),
            value: JsonValue::Array(vec![
                JsonValue::Str("x\"y".to_string()),
                JsonValue::Null,
                JsonValue::Bool(true),
                JsonValue::Number(JsonNumber::PosInt(u64::MAX)),
            ]),
        },
    ]);
    let text = write_json_pretty(&doc);
    assert_eq!(parse_json_text(&text), Ok(doc));
}

#[test]
fn parse_json_text_reports_errors() {
    assert!(parse_json_text("[1,").is_err());
    assert_eq!(parse_json_text("  12 "), Ok(JsonValue::Number(JsonNumber::PosInt(12))));
}
