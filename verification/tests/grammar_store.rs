use reemember::commands::{import_grammar, import_grammar_at, resolve_group_for_category};
use reemember::db::{init_memory_db, DbError};
use reemember::grammar::{parse_grammar_json, parse_grammar_md, GrammarDocInput, GrammarRepository};
use reemember::json::{JsonMember, JsonValue};
use reemember::parser::ParseError;

fn exercise(kind: &str) -> JsonValue {
    JsonValue::Object(vec![
        JsonMember { key: "type".to_string(), value: JsonValue::Str(kind.to_string()) },
        JsonMember { key: "answer".to_string(), value: JsonValue::Str("x".to_string()) },
    ])
}

fn doc(title: &str, content: &str, exercises: Vec<JsonValue>) -> GrammarDocInput {
    GrammarDocInput {
        title: title.to_string(),
        category: Some("tenses".to_string()),
        level: Some("B1".to_string()),
        content: content.to_string(),
        examples: vec!["e1".to_string()],
        exercises,
    }
}

fn repo() -> GrammarRepository {
    GrammarRepository::new(init_memory_db().unwrap())
}

#[test]
fn insert_doc_numbers_its_exercises_in_order() {
    let mut repo = repo();
    let id = repo.insert_doc(&doc("Present Perfect", "body", vec![exercise("fill_blank"), exercise("true_false")]), None).unwrap();
    assert_eq!(id, 1);
    let detail = repo.get_doc_with_exercises(id).unwrap().unwrap();
    assert_eq!(detail.doc.title, "Present Perfect");
    assert_eq!(detail.doc.examples, vec!["e1".to_string()]);
    assert_eq!(detail.exercises.len(), 2);
    assert_eq!(detail.exercises[0].order_index, 0);
    assert_eq!(detail.exercises[1].order_index, 1);
    assert_eq!(detail.exercises[0].exercise_type, "fill_blank");
    assert_eq!(detail.exercises[1].exercise_type, "true_false");
    assert_eq!(detail.exercises[1].doc_id, id);
}

#[test]
fn exercise_without_a_string_type_is_unknown() {
    let mut repo = repo();
    let no_type = JsonValue::Object(vec![JsonMember { key: "prompt".to_string(), value: JsonValue::Null }]);
    let number_type = JsonValue::Object(vec![JsonMember {
        key: "type".to_string(),
        value: JsonValue::Bool(true),
    }]);
    let id = repo.insert_doc(&doc("T", "c", vec![no_type, number_type, JsonValue::Null]), None).unwrap();
    let detail = repo.get_doc_with_exercises(id).unwrap().unwrap();
    assert!(detail.exercises.iter().all(|e| e.exercise_type == "unknown"));
}

#[test]
fn get_doc_of_unknown_id_is_none() {
    let repo = repo();
    assert!(repo.get_doc_with_exercises(42).unwrap().is_none());
}

#[test]
fn upsert_doc_replaces_exercises_of_same_title() {
    let mut repo = repo();
    let first = repo.upsert_doc(&doc("Passive", "v1", vec![exercise("a"), exercise("b")]), None).unwrap();
    assert!(first.inserted);
    let other = repo.upsert_doc(&doc("Other", "o", vec![exercise("c")]), None).unwrap();
    assert!(other.inserted);
    let second = repo.upsert_doc(&doc("Passive", "v2", vec![exercise("d")]), None).unwrap();
    assert!(!second.inserted);
    assert_eq!(second.id, first.id);
    let detail = repo.get_doc_with_exercises(first.id).unwrap().unwrap();
    assert_eq!(detail.doc.content, "v2");
    assert_eq!(detail.exercises.len(), 1);
    assert_eq!(detail.exercises[0].exercise_type, "d");
    assert_eq!(detail.exercises[0].id, 4);
    let other_detail = repo.get_doc_with_exercises(other.id).unwrap().unwrap();
    assert_eq!(other_detail.exercises.len(), 1);
    assert_eq!(repo.list_docs().unwrap().len(), 2);
}

#[test]
fn doc_in_unknown_group_is_refused() {
    let mut repo = repo();
    let err = repo.insert_doc(&doc("T", "c", vec![]), Some(9)).unwrap_err();
    assert_eq!(err, DbError::Storage("FOREIGN KEY constraint failed".to_string()));
    assert!(repo.list_docs().unwrap().is_empty());
}

#[test]
fn delete_doc_removes_its_exercises() {
    let mut repo = repo();
    let a = repo.insert_doc(&doc("A", "a", vec![exercise("x")]), None).unwrap();
    let b = repo.insert_doc(&doc("B", "b", vec![exercise("y")]), None).unwrap();
    repo.delete_doc(a).unwrap();
    assert!(repo.get_doc_with_exercises(a).unwrap().is_none());
    let docs = repo.list_docs().unwrap();
    assert_eq!(docs.len(), 1);
    assert_eq!(docs[0].id, b);
    assert_eq!(docs[0].exercise_count, 1);
    repo.delete_doc(77).unwrap();
    assert_eq!(repo.list_docs().unwrap().len(), 1);
}

#[test]
fn groups_are_created_found_listed_and_deleted() {
    let mut repo = repo();
    let g = repo.create_group("  Tenses ", Some("verb forms")).unwrap();
    assert_eq!(g.name, "Tenses");
    assert_eq!(g.description.as_deref(), Some("verb forms"));
    assert_eq!(g.sort_order, 0);
    assert_eq!(repo.find_or_create_group("Tenses").unwrap(), g.id);
    let modals = repo.find_or_create_group("Modals").unwrap();
    assert_ne!(modals, g.id);

    let d = repo.insert_doc(&doc("Present", "p", vec![]), Some(g.id)).unwrap();
    repo.insert_doc(&doc("Past", "p", vec![]), Some(g.id)).unwrap();
    let groups = repo.list_groups().unwrap();
    assert_eq!(groups.len(), 2);
    assert_eq!(groups[0].name, "Modals");
    assert_eq!(groups[0].doc_count, 0);
    assert_eq!(groups[1].name, "Tenses");
    assert_eq!(groups[1].doc_count, 2);

    repo.move_doc(d, Some(modals)).unwrap();
    assert_eq!(repo.list_groups().unwrap()[0].doc_count, 1);
    assert_eq!(
        repo.move_doc(d, Some(1000)).unwrap_err(),
        DbError::Storage("FOREIGN KEY constraint failed".to_string())
    );

    repo.delete_group(g.id).unwrap();
    let docs = repo.list_docs().unwrap();
    assert_eq!(docs.len(), 2);
    assert!(docs.iter().any(|x| x.group_id.is_none()));
    assert!(docs.iter().any(|x| x.group_id == Some(modals)));
    assert_eq!(repo.list_groups().unwrap().len(), 1);
}

#[test]
fn group_names_must_be_present_and_free() {
    let mut repo = repo();
    assert_eq!(
        repo.create_group("   ", None).unwrap_err(),
        DbError::Validation("group name is required".to_string())
    );
    assert_eq!(
        repo.find_or_create_group("").unwrap_err(),
        DbError::Validation("group name is required".to_string())
    );
    let a = repo.create_group("A", None).unwrap();
    repo.create_group("B", None).unwrap();
    assert_eq!(
        repo.create_group("A", None).unwrap_err(),
        DbError::Storage("UNIQUE constraint failed: grammar_groups.name".to_string())
    );
    assert_eq!(
        repo.update_group(a.id, Some("B"), None).unwrap_err(),
        DbError::Storage("UNIQUE constraint failed: grammar_groups.name".to_string())
    );
    assert_eq!(
        repo.update_group(a.id, Some(" "), None).unwrap_err(),
        DbError::Validation("group name is required".to_string())
    );
    repo.update_group(a.id, Some(" A2 "), Some(Some("second"))).unwrap();
    repo.update_group(99, Some("ignored"), None).unwrap();
    let groups = repo.list_groups().unwrap();
    assert_eq!(groups[0].name, "A2");
    assert_eq!(groups[0].description.as_deref(), Some("second"));
    repo.update_group(a.id, None, Some(None)).unwrap();
    assert_eq!(repo.list_groups().unwrap()[0].description, None);
}

#[test]
fn parse_grammar_md_reads_front_matter_and_exercises() {
    let input = "---\ntitle: \"Present Perfect\"\ncategory: tenses\nlevel: B1\n---\n# Rule\nUse have + V3.\n<!-- EXERCISES\n[{\"type\":\"fill_blank\",\"answer\":\"has lived\"}]\n-->\nMore notes.\n";
    let d = parse_grammar_md(input).unwrap();
    assert_eq!(d.title, "Present Perfect");
    assert_eq!(d.category.as_deref(), Some("tenses"));
    assert_eq!(d.level.as_deref(), Some("B1"));
    assert_eq!(d.content, "# Rule\nUse have + V3.\nMore notes.");
    assert_eq!(d.exercises.len(), 1);
    assert!(d.examples.is_empty());
}

#[test]
fn parse_grammar_md_without_exercises_keeps_trimmed_body_after_the_closing_line() {
    let d = parse_grammar_md("---\ntitle: T\n---\n\n  Body text  \n").unwrap();
    assert_eq!(d.title, "T");
    assert_eq!(d.category, None);
    assert_eq!(d.content, "Body text");
    assert!(d.exercises.is_empty());
}

#[test]
fn parse_grammar_md_errors() {
    assert_eq!(
        parse_grammar_md("---\ntitle: T\nno closing").unwrap_err(),
        ParseError::InvalidData("frontmatter closing '---' not found".to_string())
    );
    assert_eq!(
        parse_grammar_md("---\ncategory: c\n---\nbody").unwrap_err(),
        ParseError::InvalidData("missing 'title:' in frontmatter".to_string())
    );
    assert_eq!(
        parse_grammar_md("# Heading only").unwrap_err(),
        ParseError::InvalidData("missing 'title:' in frontmatter".to_string())
    );
    assert_eq!(
        parse_grammar_md("---\ntitle: T\n---\n<!-- EXERCISES [] ").unwrap_err(),
        ParseError::InvalidData("unclosed <!-- EXERCISES --> block".to_string())
    );
    assert!(matches!(
        parse_grammar_md("---\ntitle: T\n---\n<!-- EXERCISES {} -->").unwrap_err(),
        ParseError::Json(_)
    ));
}

#[test]
fn parse_grammar_json_reads_documents() {
    let docs = parse_grammar_json(
        r#"[{"title":"A","exercises":[{"type":"x"}]},{"title":"B","category":"c","examples":["e"]}]"#,
    )
    .unwrap();
    assert_eq!(docs.len(), 2);
    assert_eq!(docs[0].title, "A");
    assert_eq!(docs[0].content, "");
    assert_eq!(docs[0].exercises.len(), 1);
    assert_eq!(docs[1].category.as_deref(), Some("c"));
    assert_eq!(docs[1].examples, vec!["e".to_string()]);
    assert!(matches!(parse_grammar_json(r#"[{"category":"c"}]"#).unwrap_err(), ParseError::Json(_)));
    assert!(matches!(parse_grammar_json(r#"{"title":"A"}"#).unwrap_err(), ParseError::Json(_)));
}

#[test]
fn import_grammar_counts_documents_and_groups_them() {
    let mut repo = repo();
    let r = import_grammar(
        &mut repo,
        r#"[{"title":"A","category":" Tenses "},{"title":"B","category":"Tenses"},{"title":"C"}]"#,
    );
    assert_eq!(r.imported_count, 3);
    assert!(r.errors.is_empty());
    let groups = repo.list_groups().unwrap();
    assert_eq!(groups.len(), 1);
    assert_eq!(groups[0].name, "Tenses");
    assert_eq!(groups[0].doc_count, 2);

    let md = import_grammar(&mut repo, "  ---\ntitle: D\ncategory: Modals\n---\nbody");
    assert_eq!(md.imported_count, 1);
    assert_eq!(repo.list_docs().unwrap().len(), 4);

    let bad = import_grammar(&mut repo, "not json");
    assert_eq!(bad.imported_count, 0);
    assert_eq!(bad.errors.len(), 1);
    assert!(bad.errors[0].starts_with("json parse error: "));

    let bad_md = import_grammar(&mut repo, "# Title\nno front matter");
    assert_eq!(bad_md.imported_count, 0);
    assert_eq!(bad_md.errors, vec!["invalid data: missing 'title:' in frontmatter".to_string()]);
    assert_eq!(repo.list_docs().unwrap().len(), 4);
}

#[test]
fn resolve_group_for_blank_category_is_none() {
    let mut repo = repo();
    assert_eq!(resolve_group_for_category(&mut repo, &None), None);
    assert_eq!(resolve_group_for_category(&mut repo, &Some("  ".to_string())), None);
    let g = resolve_group_for_category(&mut repo, &Some(" Articles ".to_string())).unwrap();
    assert_eq!(resolve_group_for_category(&mut repo, &Some("Articles".to_string())), Some(g));
    assert_eq!(repo.list_groups().unwrap().len(), 1);
}

#[test]
fn parse_grammar_md_content_follows_the_front_matter() {
    let input = "---\ntitle: Present Simple\ncategory: tenses\nlevel: A1\n---\n\nBody text\n\n<!-- EXERCISES\n[{\"type\":\"fill_blank\"}]\n-->\n";
    let d = parse_grammar_md(input).unwrap();
    assert_eq!(d.title, "Present Simple");
    assert_eq!(d.category.as_deref(), Some("tenses"));
    assert_eq!(d.level.as_deref(), Some("A1"));
    assert_eq!(d.content, "Body text");
    assert_eq!(d.exercises.len(), 1);
    assert!(d.examples.is_empty());
}

#[test]
fn import_grammar_at_files_each_document_under_its_category_group() {
    let mut repo = repo();
    let json = r#"[{"title":"A","category":" Tenses ","content":"a"},{"title":"B","content":"b"},{"title":"C","category":"Tenses","content":"c"}]"#;
    let r = import_grammar_at(&mut repo, json, "2026-05-01T00:00:00+00:00");
    assert_eq!(r.imported_count, 3);
    assert!(r.errors.is_empty());
    let groups = repo.list_groups().unwrap();
    assert_eq!(groups.len(), 1);
    assert_eq!(groups[0].name, "Tenses");
    assert_eq!(groups[0].created_at, "2026-05-01T00:00:00+00:00");
    assert_eq!(groups[0].doc_count, 2);
    let docs = repo.list_docs().unwrap();
    let by_title = |t: &str| docs.iter().find(|d| d.title == t).unwrap().clone();
    assert_eq!(by_title("A").group_id, Some(groups[0].id));
    assert_eq!(by_title("B").group_id, None);
    assert_eq!(by_title("C").group_id, Some(groups[0].id));
    assert_eq!(by_title("B").created_at, "2026-05-01T00:00:00+00:00");
    let bad = import_grammar_at(&mut repo, "[1]", "2026-05-01T00:00:00+00:00");
    assert_eq!(bad.imported_count, 0);
    assert_eq!(bad.errors.len(), 1);
    assert_eq!(repo.list_docs().unwrap().len(), 3);
}
