use reemember::db::merge::{
    merge_created_at, merge_definitions, merge_examples, merge_phonetic, merge_records, merge_review_count,
    merge_string_vec, merge_tags,
};
use reemember::model::{Definition, Metadata, WordRecord};

#[test]
fn test_merge_phonetic_prefer_new() {
    assert_eq!(
        merge_phonetic(Some("old".to_string()), Some("new".to_string())),
        Some("new".to_string())
    );
}

#[test]
fn test_merge_phonetic_keep_old_when_new_empty() {
    assert_eq!(
        merge_phonetic(Some("old".to_string()), Some("".to_string())),
        Some("old".to_string())
    );
}

#[test]
fn test_merge_phonetic_use_new_when_old_none() {
    assert_eq!(merge_phonetic(None, Some("new".to_string())), Some("new".to_string()));
}

#[test]
fn test_merge_definitions_combine_and_deduplicate() {
    let old = vec![Definition { pos: Some("noun".to_string()), meaning: "test".to_string() }];
    let new = vec![
        Definition { pos: Some("noun".to_string()), meaning: "test".to_string() },
        Definition { pos: Some("verb".to_string()), meaning: "check".to_string() },
    ];

    let merged = merge_definitions(old, new);
    assert_eq!(merged.len(), 2);
    assert!(merged.iter().any(|d| d.pos.as_deref() == Some("noun")));
    assert!(merged.iter().any(|d| d.pos.as_deref() == Some("verb")));
}

#[test]
fn test_merge_examples_deduplicate() {
    let old = vec!["Example 1".to_string(), "Example 2".to_string()];
    let new = vec!["Example 2".to_string(), "Example 3".to_string()];

    let merged = merge_examples(old, new);
    assert_eq!(merged.len(), 3);
    assert!(merged.contains(&"Example 1".to_string()));
    assert!(merged.contains(&"Example 3".to_string()));
}

#[test]
fn test_merge_tags_sort_and_deduplicate() {
    let old = vec!["zzz".to_string(), "aaa".to_string()];
    let new = vec!["bbb".to_string(), "aaa".to_string()];

    let merged = merge_tags(old, new);
    assert_eq!(merged.len(), 3);
    assert_eq!(merged[0], "aaa");
    assert_eq!(merged[1], "bbb");
    assert_eq!(merged[2], "zzz");
}

#[test]
fn test_merge_created_at_keeps_earliest() {
    let old = Some("2026-04-20T10:00:00Z".to_string());
    let new = Some("2026-04-21T10:00:00Z".to_string());

    assert_eq!(merge_created_at(old, new), Some("2026-04-20T10:00:00Z".to_string()));
}

#[test]
fn test_merge_review_count_keeps_max() {
    assert_eq!(merge_review_count(5, 3), 5);
    assert_eq!(merge_review_count(2, 7), 7);
}

#[test]
fn merge_phonetic_blank_new_keeps_old_and_none_keeps_none() {
    assert_eq!(merge_phonetic(Some("old".to_string()), Some("   ".to_string())), Some("old".to_string()));
    assert_eq!(merge_phonetic(None, None), None);
    assert_eq!(merge_phonetic(Some("old".to_string()), None), Some("old".to_string()));
}

#[test]
fn merge_created_at_takes_the_present_one() {
    assert_eq!(merge_created_at(None, Some("2026-01-01".to_string())), Some("2026-01-01".to_string()));
    assert_eq!(merge_created_at(Some("2026-01-01".to_string()), None), Some("2026-01-01".to_string()));
    assert_eq!(merge_created_at(None, None), None);
}

#[test]
fn merge_definitions_keeps_first_seen_order() {
    let old = vec![
        Definition { pos: None, meaning: "b".to_string() },
        Definition { pos: None, meaning: "b".to_string() },
    ];
    let new = vec![Definition { pos: None, meaning: "a".to_string() }];
    let merged = merge_definitions(old, new);
    assert_eq!(merged.len(), 2);
    assert_eq!(merged[0].meaning, "b");
    assert_eq!(merged[1].meaning, "a");
}

#[test]
fn merge_string_vec_keeps_order_and_drops_repeats() {
    let merged = merge_string_vec(
        vec!["x".to_string(), "y".to_string()],
        vec!["y".to_string(), "z".to_string(), "x".to_string()],
    );
    assert_eq!(merged, vec!["x".to_string(), "y".to_string(), "z".to_string()]);
}

#[test]
fn merge_records_applies_every_field_rule() {
    let old = WordRecord {
        word: "Consistency".to_string(),
        phonetic: Some("/old/".to_string()),
        definitions: vec![Definition { pos: Some("noun".to_string()), meaning: "m1".to_string() }],
        examples: vec!["e1".to_string()],
        synonyms: vec!["s1".to_string()],
        antonyms: vec![],
        family_words: vec![],
        metadata: Metadata {
            tags: vec!["t2".to_string()],
            created_at: Some("2026-04-25T10:00:00Z".to_string()),
            review_count: 4,
        },
    };
    let new = WordRecord {
        word: "consistency".to_string(),
        phonetic: Some("/new/".to_string()),
        definitions: vec![Definition { pos: Some("verb".to_string()), meaning: "m2".to_string() }],
        examples: vec!["e1".to_string(), "e2".to_string()],
        synonyms: vec!["s1".to_string(), "s2".to_string()],
        antonyms: vec!["a1".to_string()],
        family_words: vec!["f1".to_string()],
        metadata: Metadata {
            tags: vec!["t1".to_string(), "t2".to_string()],
            created_at: Some("2026-04-20T10:00:00Z".to_string()),
            review_count: 2,
        },
    };
    let merged = merge_records(&old, &new);
    assert_eq!(merged.phonetic.as_deref(), Some("/new/"));
    assert_eq!(merged.definitions.len(), 2);
    assert_eq!(merged.examples, vec!["e1".to_string(), "e2".to_string()]);
    assert_eq!(merged.synonyms, vec!["s1".to_string(), "s2".to_string()]);
    assert_eq!(merged.antonyms, vec!["a1".to_string()]);
    assert_eq!(merged.family_words, vec!["f1".to_string()]);
    assert_eq!(merged.metadata.tags, vec!["t1".to_string(), "t2".to_string()]);
    assert_eq!(merged.metadata.created_at.as_deref(), Some("2026-04-20T10:00:00Z"));
    assert_eq!(merged.metadata.review_count, 4);
}

#[test]
fn merge_definitions_compares_trimmed_text() {
    let old = vec![Definition { pos: Some("noun".to_string()), meaning: "test".to_string() }];
    let new = vec![Definition { pos: Some(" noun ".to_string()), meaning: " test ".to_string() }];
    let merged = merge_definitions(old.clone(), new);
    assert_eq!(merged, old);
    let case = vec![Definition { pos: Some("Noun".to_string()), meaning: "test".to_string() }];
    assert_eq!(merge_definitions(old, case).len(), 2);
}

#[test]
fn merge_created_at_compares_instants_across_offsets() {
    assert_eq!(
        merge_created_at(
            Some("2026-04-20T10:00:00+05:00".to_string()),
            Some("2026-04-20T06:00:00Z".to_string())
        ),
        Some("2026-04-20T10:00:00+05:00".to_string())
    );
    assert_eq!(
        merge_created_at(
            Some("2026-04-20T06:00:00Z".to_string()),
            Some("2026-04-20T10:00:00+05:00".to_string())
        ),
        Some("2026-04-20T10:00:00+05:00".to_string())
    );
    assert_eq!(
        merge_created_at(Some("2026-04-20T05:00:00Z".to_string()), Some("2026-04-20T10:00:00+05:00".to_string())),
        Some("2026-04-20T05:00:00Z".to_string())
    );
    assert_eq!(
        merge_created_at(Some("not a time".to_string()), Some("another".to_string())),
        Some("another".to_string())
    );
}

#[test]
fn merge_tags_gives_the_same_tags_either_way_round() {
    let a = vec!["b".to_string(), "a".to_string()];
    let b = vec!["c".to_string(), "a".to_string()];
    assert_eq!(merge_tags(a.clone(), b.clone()), merge_tags(b, a));
}
