use reemember::db::{init_memory_db, DbError};
use reemember::model::{Definition, Metadata, WordRecord};
use reemember::repository::{QueryOptions, SortBy, WordRepository};
use reemember::service::{TestMode, VocabularyService};

fn word(w: &str) -> WordRecord {
    WordRecord {
        word: w.to_string(),
        phonetic: None,
        definitions: vec![Definition { pos: None, meaning: format!("{} meaning", w) }],
        examples: vec![],
        synonyms: vec![],
        antonyms: vec![],
        family_words: vec![],
        metadata: Metadata { tags: vec![], created_at: None, review_count: 0 },
    }
}

fn repo_with(words: &[&str]) -> WordRepository {
    let mut repo = WordRepository::new(init_memory_db().unwrap());
    for w in words {
        repo.upsert_at(&word(w), "2026-01-01T00:00:00+00:00").unwrap();
    }
    repo
}

#[test]
fn new_words_are_due_when_stored() {
    let repo = repo_with(&["alpha"]);
    assert_eq!(repo.get_due_at_by_word_key("alpha").unwrap().as_deref(), Some("2026-01-01T00:00:00+00:00"));
    assert_eq!(repo.get_due_at_by_word_key("missing").unwrap(), None);
}

#[test]
fn pick_due_word_takes_the_earliest_due() {
    let mut repo = repo_with(&["alpha", "beta", "gamma"]);
    repo.set_due_at_by_word_key("alpha", "2026-03-01T00:00:00+00:00").unwrap();
    repo.set_due_at_by_word_key("beta", "2026-02-01T00:00:00+00:00").unwrap();
    repo.set_due_at_by_word_key("gamma", "2026-09-01T00:00:00+00:00").unwrap();
    let picked = repo.pick_due_word("2026-06-01T00:00:00+00:00").unwrap().unwrap();
    assert_eq!(picked.word, "beta");
    assert!(repo.pick_due_word("2026-01-15T00:00:00+00:00").unwrap().is_none());
    let next = repo.pick_next_word(true, "2026-06-01T00:00:00+00:00").unwrap().unwrap();
    assert_eq!(next.word, "beta");
}

#[test]
fn due_time_of_a_missing_word_is_refused() {
    let mut repo = repo_with(&[]);
    assert_eq!(
        repo.set_due_at_by_word_key("ghost", "2026-01-01").unwrap_err(),
        DbError::Storage("FOREIGN KEY constraint failed".to_string())
    );
    assert_eq!(
        repo.record_review_event("ghost", true, "2026-01-01").unwrap_err(),
        DbError::Storage("NOT NULL constraint failed: review_history.word_id".to_string())
    );
}

#[test]
fn seeded_and_random_picks_stay_in_the_library() {
    let repo = repo_with(&["a", "b", "c"]);
    assert_eq!(repo.pick_word_seeded(None, 4).unwrap().unwrap().word, "b");
    assert_eq!(repo.pick_word_seeded(None, 0).unwrap().unwrap().word, "a");
    let any = repo.pick_random_word().unwrap().unwrap();
    assert!(["a", "b", "c"].contains(&any.word.as_str()));
    assert!(repo_with(&[]).pick_random_word().unwrap().is_none());
    let next = repo.pick_next_word(false, "2026-06-01").unwrap().unwrap();
    assert!(["a", "b", "c"].contains(&next.word.as_str()));
}

#[test]
fn review_events_and_counts_are_recorded() {
    let mut repo = repo_with(&["a"]);
    repo.record_review_event("a", false, "2026-01-02").unwrap();
    repo.record_review_event("a", true, "2026-01-03").unwrap();
    assert!(repo.record_review_event("A", true, "2026-01-04").is_err());
    assert_eq!(repo.review_history_count_by_word_key("a").unwrap(), 2);
    repo.increment_review_count_by_word_key("a").unwrap();
    repo.increment_review_count_by_word_key("nothing").unwrap();
    assert_eq!(repo.get_by_word_key("a").unwrap().unwrap().metadata.review_count, 1);
}

#[test]
fn delete_then_get_finds_nothing_for_the_exact_key() {
    let mut repo = repo_with(&["a", "b"]);
    repo.delete_by_word_key("A").unwrap();
    assert!(repo.get_by_word_key("a").unwrap().is_some());
    repo.delete_by_word_key("a").unwrap();
    assert!(repo.get_by_word_key("a").unwrap().is_none());
    assert_eq!(repo.query(&QueryOptions::new()).unwrap().len(), 1);
    repo.delete_by_word_key("zzz").unwrap();
}

#[test]
fn find_or_create_collection_finds_by_name() {
    let mut repo = repo_with(&[]);
    let c = repo.find_or_create_collection("IELTS").unwrap();
    assert_eq!(repo.find_or_create_collection("IELTS").unwrap().id, c.id);
    assert_eq!(repo.list_collections().unwrap().len(), 1);
    assert_eq!(
        repo.create_collection("IELTS", None).unwrap_err(),
        DbError::Storage("UNIQUE constraint failed: collections.name".to_string())
    );
}

#[test]
fn query_sorts_by_creation_time_newest_first() {
    let mut repo = WordRepository::new(init_memory_db().unwrap());
    let mut old = word("old");
    old.metadata.created_at = Some("2026-01-01".to_string());
    let mut new = word("new");
    new.metadata.created_at = Some("2026-05-01".to_string());
    let undated = word("undated");
    repo.upsert_at(&old, "t").unwrap();
    repo.upsert_at(&undated, "t").unwrap();
    repo.upsert_at(&new, "t").unwrap();
    let listed = repo.query(&QueryOptions::new().sort(SortBy::CreatedAt)).unwrap();
    let words: Vec<&str> = listed.iter().map(|w| w.word.as_str()).collect();
    assert_eq!(words, vec!["new", "old", "undated"]);
}

#[test]
fn invalid_record_is_refused_by_upsert() {
    let mut repo = repo_with(&[]);
    let mut blank = word("x");
    blank.word = "   ".to_string();
    assert_eq!(
        repo.upsert(&blank).unwrap_err(),
        DbError::Validation("missing required field: word".to_string())
    );
}

#[test]
fn csv_import_and_scoped_questions() {
    let mut repo = repo_with(&[]);
    let report = VocabularyService::import_csv(&mut repo, "word,meaning_vi\nfocus,tập trung\n,none\n").unwrap();
    assert_eq!(report.inserted_count, 1);
    assert_eq!(report.csv_errors.len(), 1);
    assert_eq!(report.total_errors(), 1);
    let c = repo.create_collection("C", None).unwrap();
    let t = repo.create_topic(c.id, "T", None).unwrap();
    assert!(VocabularyService::next_question_scoped(&repo, TestMode::EnVi, false, Some(t.id)).unwrap().is_none());
    repo.assign_word_to_topic("focus", t.id).unwrap();
    let q = VocabularyService::next_question_scoped(&repo, TestMode::EnVi, false, Some(t.id)).unwrap().unwrap();
    assert_eq!(q.word_key, "focus");
    assert_eq!(repo.get_word_topics("focus").unwrap()[0].name, "T");
}

#[test]
fn upserting_the_same_record_again_changes_nothing() {
    let mut repo = repo_with(&["beta"]);
    let mut r = word("Alpha");
    r.synonyms = vec!["a".to_string(), "a".to_string(), "b".to_string()];
    r.metadata.tags = vec!["z".to_string(), "y".to_string()];
    r.metadata.review_count = 4;
    assert!(repo.upsert_at(&r, "2026-01-01T00:00:00+00:00").unwrap().inserted);
    let first = repo.get_by_word_key("alpha").unwrap().unwrap();
    let other = repo.get_by_word_key("beta").unwrap().unwrap();
    let again = repo.upsert_at(&r, "2026-02-02T00:00:00+00:00").unwrap();
    assert!(!again.inserted);
    assert_eq!(repo.get_by_word_key("alpha").unwrap().unwrap(), first);
    assert_eq!(repo.get_by_word_key("beta").unwrap().unwrap(), other);
    assert_eq!(first.synonyms, vec!["a".to_string(), "b".to_string()]);
    assert_eq!(first.metadata.tags, vec!["y".to_string(), "z".to_string()]);
    assert_eq!(repo.get_due_at_by_word_key("alpha").unwrap().as_deref(), Some("2026-01-01T00:00:00+00:00"));
}

#[test]
fn exported_json_reimports_every_word_into_an_empty_store() {
    let repo = repo_with(&["beta", "alpha"]);
    let text = VocabularyService::export_json(&repo).unwrap();
    let mut fresh = WordRepository::new(init_memory_db().unwrap());
    let rep = VocabularyService::import_json(&mut fresh, &text).unwrap();
    assert_eq!((rep.inserted_count, rep.updated_count, rep.skipped_count), (2, 0, 0));
    for k in ["alpha", "beta"] {
        assert_eq!(fresh.get_by_word_key(k).unwrap(), repo.get_by_word_key(k).unwrap());
    }
}

#[test]
fn upserting_again_folds_definitions_equal_once_trimmed() {
    let mut repo = WordRepository::new(init_memory_db().unwrap());
    let mut r = word("Alpha");
    r.definitions = vec![
        Definition { pos: Some("noun".to_string()), meaning: "test".to_string() },
        Definition { pos: Some(" noun ".to_string()), meaning: " test ".to_string() },
    ];
    repo.upsert_at(&r, "2026-01-01T00:00:00+00:00").unwrap();
    assert_eq!(repo.get_by_word_key("alpha").unwrap().unwrap().definitions.len(), 2);
    assert!(!repo.upsert_at(&r, "2026-01-02T00:00:00+00:00").unwrap().inserted);
    assert_eq!(repo.get_by_word_key("alpha").unwrap().unwrap().definitions, vec![r.definitions[0].clone()]);
}
