use reemember::import::ImportReport;
use reemember::model::{Definition, Metadata, WordRecord};
use reemember::parser::CsvRowError;
use reemember::repository::{QueryOptions, SortBy};
use reemember::testing::{
    mask_word_in_example, meaning_candidates, normalize_answer_text, QuestionDirection, TestingEngine,
};

fn sample_record() -> WordRecord {
    WordRecord {
        word: "Consistency".to_string(),
        phonetic: Some("/kənˈsɪstənsi/".to_string()),
        definitions: vec![Definition {
            pos: Some("noun".to_string()),
            meaning: "Tính nhất quán; sự kiên định".to_string(),
        }],
        examples: vec!["Consistency is the key to success.".to_string()],
        synonyms: vec!["steadiness".to_string()],
        antonyms: vec!["inconsistency".to_string()],
        family_words: vec!["consistent".to_string(), "consistently".to_string()],
        metadata: Metadata::default(),
    }
}

#[test]
fn test_import_report_total_processed() {
    let mut report = ImportReport::default();
    report.inserted_count = 5;
    report.updated_count = 3;
    report.skipped_count = 2;

    assert_eq!(report.total_processed(), 10);
}

#[test]
fn test_import_report_total_errors() {
    let mut report = ImportReport::default();
    report.skipped_count = 2;
    report.csv_errors = vec![CsvRowError { row: 3, message: "test".to_string() }];

    assert_eq!(report.total_errors(), 3);
}

#[test]
fn test_sort_by_to_sql() {
    assert_eq!(SortBy::Word.to_sql(), "words.word ASC");
    assert_eq!(SortBy::CreatedAt.to_sql(), "words.created_at DESC");
    assert_eq!(SortBy::ReviewCount.to_sql(), "words.review_count DESC");
}

#[test]
fn test_query_options_builder() {
    let opts = QueryOptions::new().sort(SortBy::Word).limit(10).with_tag("mindset".to_string());

    assert_eq!(opts.sort, Some(SortBy::Word));
    assert_eq!(opts.limit, Some(10));
    assert_eq!(opts.tag_filter, Some("mindset".to_string()));
}

#[test]
fn query_options_new_asks_for_nothing() {
    let opts = QueryOptions::new();
    assert_eq!(opts, QueryOptions::default());
    assert_eq!(opts.sort, None);
    assert_eq!(opts.collection_id, None);
}

#[test]
fn normalize_answer_text_collapses_spaces_and_lowercases() {
    let actual = normalize_answer_text("  Tinh   NHAT   Quan ");
    assert_eq!(actual, "tinh nhat quan");
}

#[test]
fn normalize_answer_text_of_blank_is_empty() {
    assert_eq!(normalize_answer_text(" \t \n"), "");
}

#[test]
fn meaning_candidates_split_semicolon_values() {
    let values = meaning_candidates(&sample_record());
    assert_eq!(values.len(), 2);
    assert_eq!(values[0], "Tính nhất quán");
    assert_eq!(values[1], "sự kiên định");
}

#[test]
fn build_en_vi_question_masks_word_in_examples() {
    let question = TestingEngine::build_question(QuestionDirection::EnVi, sample_record());
    assert_eq!(question.direction, QuestionDirection::EnVi);
    assert!(question.examples[0].contains("____"));
}

#[test]
fn build_vi_en_question_has_word_answer() {
    let question = TestingEngine::build_question(QuestionDirection::ViEn, sample_record());
    assert_eq!(question.direction, QuestionDirection::ViEn);
    assert_eq!(question.expected_answers, vec!["Consistency".to_string()]);
}

#[test]
fn mask_word_in_example_masks_every_spelling_and_keeps_punctuation() {
    assert_eq!(
        mask_word_in_example("Consistency is key; consistency, always.", "Consistency"),
        "____ is key; ____, always."
    );
    assert_eq!(mask_word_in_example("No match here.", "word"), "No match here.");
}

#[test]
fn build_en_vi_question_prompts_with_the_word() {
    let question = TestingEngine::build_question(QuestionDirection::EnVi, sample_record());
    assert_eq!(question.word_key, "consistency");
    assert_eq!(question.word.as_deref(), Some("Consistency"));
    assert_eq!(question.expected_answers, vec!["Tính nhất quán".to_string(), "sự kiên định".to_string()]);
}
