use reemember::db::init_memory_db;
use reemember::model::{Definition, Metadata, WordRecord};
use reemember::repository::WordRepository;
fn create_test_record(word: &str, meaning: &str) -> WordRecord {
    WordRecord {
        word: word.to_string(),
        phonetic: None,
        definitions: vec![Definition { pos: None, meaning: meaning.to_string() }],
        examples: vec![],
        synonyms: vec![],
        antonyms: vec![],
        family_words: vec![],
        metadata: Metadata {
            tags: vec![],
            created_at: Some("2026-04-20T10:00:00Z".to_string()),
            review_count: 0,
        },
    }
}

#[test]
fn mod_test_upsert_new_record() {
    let db = init_memory_db().unwrap();
    let mut repo = WordRepository::new(db);
    let record = create_test_record("test", "a trial");
    let result = repo.upsert(&record).unwrap();
    assert!(result.inserted);
    assert_eq!(result.definitions_count, 1);
}

#[test]
fn test_upsert_merge_phonetic() {
    let db = init_memory_db().unwrap();
    let mut repo = WordRepository::new(db);
    let mut r1 = create_test_record("test", "a trial");
    r1.phonetic = Some("/test/".to_string());
    repo.upsert(&r1).unwrap();
    let mut r2 = create_test_record("test", "an exam");
    r2.phonetic = Some("/updated/".to_string());
    let result = repo.upsert(&r2).unwrap();
    assert!(!result.inserted);
    let loaded = repo.get_by_word_key("test").unwrap().unwrap();
    assert_eq!(loaded.phonetic, Some("/updated/".to_string()));
}

#[test]
fn test_upsert_merges_synonyms() {
    let db = init_memory_db().unwrap();
    let mut repo = WordRepository::new(db);
    let mut r1 = create_test_record("test", "a trial");
    r1.synonyms = vec!["exam".to_string()];
    repo.upsert(&r1).unwrap();
    let mut r2 = create_test_record("test", "a trial");
    r2.synonyms = vec!["quiz".to_string()];
    repo.upsert(&r2).unwrap();
    let loaded = repo.get_by_word_key("test").unwrap().unwrap();
    assert_eq!(loaded.synonyms.len(), 2);
    assert!(loaded.synonyms.contains(&"exam".to_string()));
    assert!(loaded.synonyms.contains(&"quiz".to_string()));
}

#[test]
fn test_get_by_word_key() {
    let db = init_memory_db().unwrap();
    let mut repo = WordRepository::new(db);
    let record = create_test_record("test", "a trial");
    repo.upsert(&record).unwrap();
    let loaded = repo.get_by_word_key("test").unwrap();
    assert!(loaded.is_some());
    assert_eq!(loaded.unwrap().word, "test");
}

#[test]
fn test_collection_crud() {
    let db = init_memory_db().unwrap();
    let mut repo = WordRepository::new(db);
    let col = repo.create_collection("Test Collection", Some("A test")).unwrap();
    assert_eq!(col.name, "Test Collection");
    let cols = repo.list_collections().unwrap();
    assert_eq!(cols.len(), 1);
    repo.delete_collection(col.id).unwrap();
    assert!(repo.list_collections().unwrap().is_empty());
}

#[test]
fn test_topic_crud() {
    let db = init_memory_db().unwrap();
    let mut repo = WordRepository::new(db);
    let col = repo.create_collection("My Collection", None).unwrap();
    let topic = repo.create_topic(col.id, "Food", None).unwrap();
    assert_eq!(topic.name, "Food");
    let topics = repo.list_topics(col.id).unwrap();
    assert_eq!(topics.len(), 1);
}

#[test]
fn test_word_topic_assignment() {
    let db = init_memory_db().unwrap();
    let mut repo = WordRepository::new(db);
    let record = create_test_record("apple", "quả táo");
    repo.upsert(&record).unwrap();
    let col = repo.create_collection("Food", None).unwrap();
    let topic = repo.create_topic(col.id, "Fruits", None).unwrap();
    repo.assign_word_to_topic("apple", topic.id).unwrap();
    let word_topics = repo.get_word_topics("apple").unwrap();
    assert_eq!(word_topics.len(), 1);
    assert_eq!(word_topics[0].name, "Fruits");
}
