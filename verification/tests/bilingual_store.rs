use reemember::bilingual::{
    normalize_optional, normalize_required, BilingualArticleInput, BilingualRepository, BilingualSegment,
    BilingualStructure,
};
use reemember::db::{init_memory_db, DbError};

fn article(book: &str, title: &str, level: Option<&str>) -> BilingualArticleInput {
    BilingualArticleInput {
        title: title.to_string(),
        book: book.to_string(),
        level: level.map(|l| l.to_string()),
        paragraphs: vec![vec![BilingualSegment { en: "Hello.".to_string(), vi: "Xin chào.".to_string() }]],
        structures: vec![BilingualStructure {
            pattern: "p".to_string(),
            example: "e".to_string(),
            note: None,
        }],
    }
}

#[test]
fn articles_are_listed_by_book_then_title() {
    let mut repo = BilingualRepository::new(init_memory_db().unwrap());
    repo.upsert_article(&article("B", "a", None)).unwrap();
    repo.upsert_article(&article("A", "z", None)).unwrap();
    repo.upsert_article(&article("A", "m", Some("A1"))).unwrap();
    let list = repo.list_articles().unwrap();
    let keys: Vec<(String, String)> = list.iter().map(|s| (s.book.clone(), s.title.clone())).collect();
    assert_eq!(
        keys,
        vec![
            ("A".to_string(), "m".to_string()),
            ("A".to_string(), "z".to_string()),
            ("B".to_string(), "a".to_string())
        ]
    );
    assert_eq!(list[0].paragraph_count, 1);
    assert_eq!(list[0].structure_count, 1);
    assert_eq!(list[0].level.as_deref(), Some("A1"));
}

#[test]
fn upsert_trims_the_key_and_reads_back() {
    let mut repo = BilingualRepository::new(init_memory_db().unwrap());
    let first = repo.upsert_article(&article("  Book ", " Title ", Some("   "))).unwrap();
    assert!(first.inserted);
    assert_eq!(first.id, 1);
    let stored = repo.get_article(first.id).unwrap().unwrap();
    assert_eq!(stored.title, "Title");
    assert_eq!(stored.book, "Book");
    assert_eq!(stored.level, None);
    assert_eq!(stored.paragraphs[0][0].vi, "Xin chào.");
    let again = repo.upsert_article(&article("Book", "Title", Some(" B2 "))).unwrap();
    assert_eq!(again.id, first.id);
    assert!(!again.inserted);
    assert_eq!(repo.get_article(first.id).unwrap().unwrap().level.as_deref(), Some("B2"));
    assert!(repo.get_article(99).unwrap().is_none());
}

#[test]
fn upsert_refuses_blank_title_then_blank_book() {
    let mut repo = BilingualRepository::new(init_memory_db().unwrap());
    assert_eq!(
        repo.upsert_article(&article(" ", " ", None)).unwrap_err(),
        DbError::Validation("title is required".to_string())
    );
    assert_eq!(
        repo.upsert_article(&article(" ", "T", None)).unwrap_err(),
        DbError::Validation("book is required".to_string())
    );
    assert!(repo.list_articles().unwrap().is_empty());
}

#[test]
fn normalizers_trim_and_drop_blanks() {
    assert_eq!(normalize_optional(&Some("  x ".to_string())), Some("x".to_string()));
    assert_eq!(normalize_optional(&Some("   ".to_string())), None);
    assert_eq!(normalize_optional(&None), None);
    assert_eq!(normalize_required(" y ", "field").unwrap(), "y");
    assert_eq!(normalize_required("  ", "field").unwrap_err(), DbError::Validation("field is required".to_string()));
}
