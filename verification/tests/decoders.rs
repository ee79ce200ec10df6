use reemember::bilingual::decode_bilingual;
use reemember::grammar::{decode_grammar_docs, exercises_from};
use reemember::json::{parse_json_text, JsonMember, JsonNumber, JsonValue};
use reemember::parser::json::decode_bundle;
use reemember::parser::{parse_csv_table, CsvTable, ParseError};

fn s(x: &str) -> JsonValue {
    JsonValue::Str(x.to_string())
}

fn obj(ms: Vec<(&str, JsonValue)>) -> JsonValue {
    JsonValue::Object(ms.into_iter().map(|(k, v)| JsonMember { key: k.to_string(), value: v }).collect())
}

fn cells(v: &[&str]) -> Vec<String> {
    v.iter().map(|c| c.to_string()).collect()
}

#[test]
fn csv_table_rows_become_records_and_errors() {
    let table = CsvTable {
        header: cells(&["Word", "meaning_vi", "synonyms", "review_count"]),
        rows: vec![
            Ok(cells(&["focus", "tập trung; chú ý", "attention|heed", "2"])),
            Err("found record with 3 fields".to_string()),
            Ok(cells(&["", "", "", ""])),
            Ok(cells(&["zeal", "nhiệt huyết", "", "x"])),
        ],
    };
    let report = parse_csv_table(&table).unwrap();
    assert_eq!(report.records.len(), 1);
    let w = &report.records[0];
    assert_eq!(w.word, "focus");
    assert_eq!(w.definitions.len(), 2);
    assert_eq!(w.definitions[1].meaning, "chú ý");
    assert_eq!(w.synonyms, vec!["attention".to_string(), "heed".to_string()]);
    assert_eq!(w.metadata.review_count, 2);
    assert_eq!(report.errors.len(), 2);
    assert_eq!(report.errors[0].row, 3);
    assert_eq!(report.errors[0].message, "found record with 3 fields");
    assert_eq!(report.errors[1].row, 5);
    assert_eq!(report.errors[1].message, "invalid review_count at row 5: expected unsigned integer, got 'x'");
    let no_word = CsvTable { header: cells(&["meaning_vi"]), rows: vec![] };
    assert_eq!(
        parse_csv_table(&no_word).unwrap_err(),
        ParseError::InvalidData("missing required CSV header: word".to_string())
    );
}

#[test]
fn decode_bundle_reads_arrays_and_bundle_objects() {
    let word = || {
        obj(vec![
            ("word", s("Focus")),
            ("definitions", JsonValue::Array(vec![obj(vec![("meaning", s("tập trung"))])])),
        ])
    };
    let flat = decode_bundle(&JsonValue::Array(vec![word()])).unwrap();
    assert_eq!(flat.collection, None);
    assert_eq!(flat.words.len(), 1);
    assert_eq!(flat.words[0].word, "Focus");
    let bundle = decode_bundle(&obj(vec![
        ("collection", s("IELTS")),
        ("topic", JsonValue::Null),
        ("words", JsonValue::Array(vec![word()])),
    ]))
    .unwrap();
    assert_eq!(bundle.collection.as_deref(), Some("IELTS"));
    assert_eq!(bundle.topic, None);
    assert_eq!(bundle.words.len(), 1);
    let blank = obj(vec![
        ("word", s("  ")),
        ("definitions", JsonValue::Array(vec![obj(vec![("meaning", s("x"))])])),
    ]);
    assert_eq!(
        decode_bundle(&JsonValue::Array(vec![blank])).unwrap_err(),
        ParseError::InvalidData("record 1: missing required field: word".to_string())
    );
    assert!(matches!(decode_bundle(&JsonValue::Number(JsonNumber::PosInt(3))), Err(ParseError::Json(_))));
}

#[test]
fn decode_grammar_and_exercises_from_documents() {
    let docs = decode_grammar_docs(&JsonValue::Array(vec![obj(vec![
        ("title", s("Past")),
        ("content", s("c")),
    ])]))
    .unwrap();
    assert_eq!(docs.len(), 1);
    assert_eq!(docs[0].title, "Past");
    assert_eq!(
        decode_grammar_docs(&obj(vec![])).unwrap_err(),
        ParseError::Json("invalid type: expected a sequence".to_string())
    );
    let ex = exercises_from(JsonValue::Array(vec![obj(vec![("type", s("fill_blank"))]), JsonValue::Null])).unwrap();
    assert_eq!(ex.len(), 2);
    assert_eq!(ex[1], JsonValue::Null);
    assert_eq!(
        exercises_from(s("x")).unwrap_err(),
        ParseError::Json("invalid type: expected a sequence".to_string())
    );
}

#[test]
fn decode_bilingual_matches_parsing_the_text() {
    let text = r#"[{"title":" T ","book":" B ","paragraphs":[[{"en":"Hi","vi":"Chào"}]]}]"#;
    let doc = parse_json_text(text).unwrap();
    let a = decode_bilingual(&doc).unwrap();
    assert_eq!(a.len(), 1);
    assert_eq!(a[0].title, "T");
    assert_eq!(a[0].book, "B");
    assert_eq!(a[0].paragraphs[0][0].vi, "Chào");
    assert_eq!(
        decode_bilingual(&JsonValue::Array(vec![])).unwrap_err(),
        ParseError::InvalidData("bilingual import must contain at least one article".to_string())
    );
}
