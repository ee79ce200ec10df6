use reemember::commands::{
    assign_word_to_topic, create_collection, create_topic, delete_collection, delete_grammar_doc,
    delete_grammar_group, delete_topic, delete_word, list_collections, list_topics, move_grammar_doc, theme_for_mode,
    update_collection, update_topic, AppTheme, AssignWordToTopicRequest, CreateCollectionRequest, CreateTopicRequest,
    MoveGrammarDocRequest, UpdateCollectionRequest, UpdateTopicRequest,
    create_grammar_group, from_collection, from_question, from_topic, get_grammar_doc, grammar_detail_dto,
    import_report_dto, import_vocabulary, list_grammar_docs, list_grammar_groups, list_words, next_question,
    parse_mode, submit_answer, to_question, update_grammar_group, word_summary, CreateGrammarGroupRequest,
    ImportVocabularyRequest, ListWordsRequest, NextQuestionRequest, QuestionDto, SubmitAnswerRequest,
    UpdateGrammarGroupRequest,
};
use reemember::repository::WordRepository;
use reemember::db::init_memory_db;
use reemember::grammar::{GrammarDocInput, GrammarRepository};
use reemember::json::{JsonMember, JsonValue};
use reemember::model::{Collection, Definition, Metadata, Topic, WordRecord};
use reemember::service::ImportReport;
use reemember::testing::{Question, QuestionDirection, TestMode};

fn question(direction: QuestionDirection) -> Question {
    Question {
        word_key: "focus".to_string(),
        direction,
        prompt: "p".to_string(),
        word: Some("Focus".to_string()),
        phonetic: None,
        examples: vec!["ex".to_string()],
        expected_answers: vec!["tập trung".to_string()],
        synonyms: vec!["s".to_string()],
        antonyms: vec![],
        family_words: vec!["f".to_string()],
    }
}

#[test]
fn parse_mode_accepts_names_in_any_case() {
    assert_eq!(parse_mode(" EnVi "), Ok(TestMode::EnVi));
    assert_eq!(parse_mode("en-vi"), Ok(TestMode::EnVi));
    assert_eq!(parse_mode("VIEN"), Ok(TestMode::ViEn));
    assert_eq!(parse_mode("vi-en"), Ok(TestMode::ViEn));
    assert_eq!(parse_mode("Hybrid"), Ok(TestMode::Hybrid));
    assert_eq!(parse_mode(" Quiz "), Err("unsupported mode: quiz".to_string()));
}

#[test]
fn question_survives_the_interface() {
    for d in [QuestionDirection::EnVi, QuestionDirection::ViEn] {
        let q = question(d);
        let dto = from_question(q.clone());
        assert_eq!(dto.direction, if d == QuestionDirection::EnVi { "en-vi" } else { "vi-en" });
        assert_eq!(to_question(&dto), Ok(q));
    }
}

#[test]
fn question_with_unknown_direction_is_refused() {
    let mut dto: QuestionDto = from_question(question(QuestionDirection::EnVi));
    dto.direction = "sideways".to_string();
    assert_eq!(to_question(&dto), Err("invalid question direction".to_string()));
}

#[test]
fn word_summary_lists_definitions_with_their_part_of_speech() {
    let r = WordRecord {
        word: "Focus".to_string(),
        phonetic: Some("/f/".to_string()),
        definitions: vec![
            Definition { pos: Some("noun".to_string()), meaning: "tiêu điểm".to_string() },
            Definition { pos: None, meaning: "tập trung".to_string() },
        ],
        examples: vec!["a".to_string(), "b".to_string()],
        synonyms: vec![],
        antonyms: vec!["x".to_string()],
        family_words: vec![],
        metadata: Metadata { tags: vec!["t".to_string()], created_at: None, review_count: 4 },
    };
    let s = word_summary(r);
    assert_eq!(s.word_key, "focus");
    assert_eq!(s.meanings, vec!["[noun] tiêu điểm".to_string(), "tập trung".to_string()]);
    assert_eq!(s.examples_count, 2);
    assert_eq!(s.review_count, 4);
    assert_eq!(s.tags, vec!["t".to_string()]);
    assert_eq!(s.antonyms, vec!["x".to_string()]);
}

#[test]
fn collection_topic_and_report_conversions_copy_fields() {
    let c = from_collection(Collection {
        id: 3,
        name: "IELTS".to_string(),
        description: None,
        created_at: "now".to_string(),
    });
    assert_eq!((c.id, c.name.as_str(), c.description, c.created_at.as_str()), (3, "IELTS", None, "now"));
    let t = from_topic(Topic { id: 5, collection_id: 3, name: "Env".to_string(), description: Some("d".to_string()) });
    assert_eq!((t.id, t.collection_id, t.name.as_str(), t.description.as_deref()), (5, 3, "Env", Some("d")));
    let mut rep = ImportReport::default();
    rep.inserted_count = 2;
    rep.updated_count = 1;
    rep.skipped_count = 4;
    let dto = import_report_dto(&rep);
    assert_eq!((dto.inserted_count, dto.updated_count, dto.skipped_count, dto.error_count), (2, 1, 4, 0));
    assert!(dto.errors.is_empty());
}

#[test]
fn grammar_detail_keeps_exercises_in_order() {
    let mut repo = GrammarRepository::new(init_memory_db().unwrap());
    let ex = |t: &str| {
        JsonValue::Object(vec![JsonMember { key: "type".to_string(), value: JsonValue::Str(t.to_string()) }])
    };
    let id = repo
        .insert_doc(
            &GrammarDocInput {
                title: "T".to_string(),
                category: None,
                level: None,
                content: "c".to_string(),
                examples: vec![],
                exercises: vec![ex("a"), ex("b")],
            },
            None,
        )
        .unwrap();
    let dto = grammar_detail_dto(repo.get_doc_with_exercises(id).unwrap().unwrap());
    assert_eq!(dto.id, id);
    assert_eq!(dto.title, "T");
    assert_eq!(dto.exercises.len(), 2);
    assert_eq!(dto.exercises[0].exercise_type, "a");
    assert_eq!(dto.exercises[1].exercise_type, "b");
    assert_eq!(dto.exercises[1].data, ex("b"));
}

const LIBRARY: &str = r#"[
  {"word": "Zeal", "definitions": [{"pos": "noun", "meaning": "nhiệt huyết"}]},
  {"word": "apple", "definitions": [{"meaning": "quả táo"}], "examples": ["An apple a day."]}
]"#;

fn library() -> WordRepository {
    let mut repo = WordRepository::new(init_memory_db().unwrap());
    let report = import_vocabulary(
        &mut repo,
        &ImportVocabularyRequest { content: LIBRARY.to_string(), collection_name: None, topic_name: None },
    )
    .unwrap();
    assert_eq!((report.inserted_count, report.updated_count, report.skipped_count), (2, 0, 0));
    repo
}

#[test]
fn list_words_orders_by_word_and_formats_meanings() {
    let repo = library();
    let words = list_words(&repo, None).unwrap();
    assert_eq!(words.len(), 2);
    assert_eq!(words[0].word, "Zeal");
    assert_eq!(words[0].meanings, vec!["[noun] nhiệt huyết".to_string()]);
    assert_eq!(words[1].word_key, "apple");
    assert_eq!(words[1].examples_count, 1);
    let none = list_words(&repo, Some(ListWordsRequest { collection_id: None, topic_id: Some(99) })).unwrap();
    assert!(none.is_empty());
}

#[test]
fn import_vocabulary_into_a_topic_and_list_it() {
    let mut repo = WordRepository::new(init_memory_db().unwrap());
    import_vocabulary(
        &mut repo,
        &ImportVocabularyRequest {
            content: LIBRARY.to_string(),
            collection_name: Some("Fruits".to_string()),
            topic_name: Some("Basics".to_string()),
        },
    )
    .unwrap();
    let cols = repo.list_collections().unwrap();
    assert_eq!(cols.len(), 1);
    let topics = repo.list_topics(cols[0].id).unwrap();
    let listed = list_words(&repo, Some(ListWordsRequest { collection_id: None, topic_id: Some(topics[0].id) })).unwrap();
    assert_eq!(listed.len(), 2);
    let bad = import_vocabulary(
        &mut repo,
        &ImportVocabularyRequest { content: "{".to_string(), collection_name: None, topic_name: None },
    );
    assert!(bad.unwrap_err().starts_with("validation error: JSON parse error: "));
}

#[test]
fn next_question_and_submit_answer_through_the_interface() {
    let mut repo = WordRepository::new(init_memory_db().unwrap());
    import_vocabulary(
        &mut repo,
        &ImportVocabularyRequest {
            content: r#"[{"word": "Zeal", "definitions": [{"meaning": "nhiệt huyết"}]}]"#.to_string(),
            collection_name: None,
            topic_name: None,
        },
    )
    .unwrap();
    assert_eq!(
        next_question(&repo, &NextQuestionRequest { mode: "sideways".to_string(), srs_enabled: false, topic_id: None })
            .unwrap_err(),
        "unsupported mode: sideways"
    );
    let q = next_question(&repo, &NextQuestionRequest { mode: "vi-en".to_string(), srs_enabled: true, topic_id: None })
        .unwrap()
        .unwrap();
    assert_eq!(q.direction, "vi-en");
    let graded = submit_answer(
        &mut repo,
        &SubmitAnswerRequest { answer: "  ZEAL ".to_string(), srs_enabled: true, question: q.clone() },
    )
    .unwrap();
    assert!(graded.correct);
    assert_eq!(graded.normalized_answer, "zeal");
    assert_eq!(repo.review_history_count_by_word_key("zeal").unwrap(), 1);
    let mut broken = q;
    broken.direction = "up".to_string();
    assert_eq!(
        submit_answer(&mut repo, &SubmitAnswerRequest { answer: "x".to_string(), srs_enabled: false, question: broken })
            .unwrap_err(),
        "invalid question direction"
    );
    let empty = WordRepository::new(init_memory_db().unwrap());
    assert!(next_question(&empty, &NextQuestionRequest { mode: "hybrid".to_string(), srs_enabled: false, topic_id: None })
        .unwrap()
        .is_none());
}

#[test]
fn grammar_commands_list_create_update_and_show() {
    let mut repo = GrammarRepository::new(init_memory_db().unwrap());
    let g = create_grammar_group(
        &mut repo,
        &CreateGrammarGroupRequest { name: " Tenses ".to_string(), description: None },
    )
    .unwrap();
    assert_eq!((g.name.as_str(), g.doc_count, g.sort_order), ("Tenses", 0, 0));
    assert_eq!(
        create_grammar_group(&mut repo, &CreateGrammarGroupRequest { name: "  ".to_string(), description: None })
            .unwrap_err(),
        "validation error: group name is required"
    );
    update_grammar_group(
        &mut repo,
        &UpdateGrammarGroupRequest { id: g.id, name: None, description: Some("verb forms".to_string()) },
    )
    .unwrap();
    let groups = list_grammar_groups(&repo).unwrap();
    assert_eq!(groups[0].description.as_deref(), Some("verb forms"));
    assert_eq!(groups[0].name, "Tenses");

    let id = repo
        .insert_doc(
            &GrammarDocInput {
                title: "Past".to_string(),
                category: None,
                level: Some("A2".to_string()),
                content: "c".to_string(),
                examples: vec!["e".to_string()],
                exercises: vec![],
            },
            Some(g.id),
        )
        .unwrap();
    let docs = list_grammar_docs(&repo).unwrap();
    assert_eq!(docs.len(), 1);
    assert_eq!((docs[0].id, docs[0].group_id, docs[0].exercise_count), (id, Some(g.id), 0));
    let shown = get_grammar_doc(&repo, id).unwrap().unwrap();
    assert_eq!(shown.level.as_deref(), Some("A2"));
    assert_eq!(shown.examples, vec!["e".to_string()]);
    assert!(get_grammar_doc(&repo, id + 1).unwrap().is_none());
    assert_eq!(list_grammar_groups(&repo).unwrap()[0].doc_count, 1);
}

#[test]
fn theme_modes_are_read_by_exact_name() {
    assert_eq!(theme_for_mode("light"), Ok(Some(AppTheme::Light)));
    assert_eq!(theme_for_mode("dark"), Ok(Some(AppTheme::Dark)));
    assert_eq!(theme_for_mode("system"), Ok(None));
    assert_eq!(theme_for_mode("Dark"), Err("unsupported theme mode: Dark".to_string()));
}

#[test]
fn delete_word_removes_only_that_word() {
    let mut repo = library();
    delete_word(&mut repo, "zeal".to_string()).unwrap();
    let words = list_words(&repo, None).unwrap();
    assert_eq!(words.len(), 1);
    assert_eq!(words[0].word_key, "apple");
    delete_word(&mut repo, "unknown".to_string()).unwrap();
    assert_eq!(list_words(&repo, None).unwrap().len(), 1);
}

#[test]
fn collection_commands_create_list_rename_and_remove() {
    let mut repo = library();
    let b = create_collection(&mut repo, &CreateCollectionRequest { name: "Beta".to_string(), description: None }).unwrap();
    let a = create_collection(
        &mut repo,
        &CreateCollectionRequest { name: "Alpha".to_string(), description: Some("first".to_string()) },
    )
    .unwrap();
    assert_eq!(a.description.as_deref(), Some("first"));
    let listed = list_collections(&repo).unwrap();
    assert_eq!(listed.iter().map(|c| c.name.as_str()).collect::<Vec<_>>(), vec!["Alpha", "Beta"]);
    assert_eq!(
        create_collection(&mut repo, &CreateCollectionRequest { name: "Beta".to_string(), description: None })
            .unwrap_err(),
        "database error: UNIQUE constraint failed: collections.name"
    );
    assert_eq!(
        update_collection(
            &mut repo,
            &UpdateCollectionRequest { id: b.id, name: "Alpha".to_string(), description: None }
        )
        .unwrap_err(),
        "database error: UNIQUE constraint failed: collections.name"
    );
    update_collection(&mut repo, &UpdateCollectionRequest { id: b.id, name: "Gamma".to_string(), description: None })
        .unwrap();
    update_collection(&mut repo, &UpdateCollectionRequest { id: 999, name: "X".to_string(), description: None }).unwrap();
    let listed = list_collections(&repo).unwrap();
    assert_eq!(listed.iter().map(|c| c.name.as_str()).collect::<Vec<_>>(), vec!["Alpha", "Gamma"]);
    delete_collection(&mut repo, a.id).unwrap();
    let listed = list_collections(&repo).unwrap();
    assert_eq!(listed.len(), 1);
    assert_eq!(listed[0].id, b.id);
}

#[test]
fn topic_commands_create_assign_rename_and_remove() {
    let mut repo = library();
    let c = create_collection(&mut repo, &CreateCollectionRequest { name: "C".to_string(), description: None }).unwrap();
    let t2 = create_topic(
        &mut repo,
        &CreateTopicRequest { collection_id: c.id, name: "Zoo".to_string(), description: None },
    )
    .unwrap();
    let t1 = create_topic(
        &mut repo,
        &CreateTopicRequest { collection_id: c.id, name: "Farm".to_string(), description: Some("d".to_string()) },
    )
    .unwrap();
    assert_eq!((t1.collection_id, t1.description.as_deref()), (c.id, Some("d")));
    assert_eq!(
        create_topic(&mut repo, &CreateTopicRequest { collection_id: c.id + 100, name: "N".to_string(), description: None })
            .unwrap_err(),
        "database error: FOREIGN KEY constraint failed"
    );
    let listed = list_topics(&repo, c.id).unwrap();
    assert_eq!(listed.iter().map(|t| t.name.as_str()).collect::<Vec<_>>(), vec!["Farm", "Zoo"]);
    assert!(list_topics(&repo, c.id + 100).unwrap().is_empty());

    assign_word_to_topic(&mut repo, &AssignWordToTopicRequest { word_key: "apple".to_string(), topic_id: t1.id }).unwrap();
    assert_eq!(
        assign_word_to_topic(&mut repo, &AssignWordToTopicRequest { word_key: "apple".to_string(), topic_id: 999 })
            .unwrap_err(),
        "database error: FOREIGN KEY constraint failed"
    );
    let in_farm = list_words(&repo, Some(ListWordsRequest { collection_id: None, topic_id: Some(t1.id) })).unwrap();
    assert_eq!(in_farm.len(), 1);
    assert_eq!(in_farm[0].word_key, "apple");

    assert_eq!(
        update_topic(&mut repo, &UpdateTopicRequest { id: t2.id, name: "Farm".to_string(), description: None })
            .unwrap_err(),
        "database error: UNIQUE constraint failed: topics.collection_id, topics.name"
    );
    update_topic(&mut repo, &UpdateTopicRequest { id: t2.id, name: "Aviary".to_string(), description: None }).unwrap();
    let listed = list_topics(&repo, c.id).unwrap();
    assert_eq!(listed.iter().map(|t| t.name.as_str()).collect::<Vec<_>>(), vec!["Aviary", "Farm"]);

    delete_topic(&mut repo, t1.id).unwrap();
    assert!(list_words(&repo, Some(ListWordsRequest { collection_id: None, topic_id: Some(t1.id) })).unwrap().is_empty());
    assert_eq!(list_topics(&repo, c.id).unwrap().len(), 1);
}

#[test]
fn grammar_commands_move_and_remove() {
    let mut repo = GrammarRepository::new(init_memory_db().unwrap());
    let g = create_grammar_group(&mut repo, &CreateGrammarGroupRequest { name: "G".to_string(), description: None })
        .unwrap();
    let input = GrammarDocInput {
        title: "Doc".to_string(),
        category: None,
        level: None,
        content: "c".to_string(),
        examples: vec![],
        exercises: vec![],
    };
    let id = repo.insert_doc(&input, None).unwrap();
    move_grammar_doc(&mut repo, &MoveGrammarDocRequest { doc_id: id, group_id: Some(g.id) }).unwrap();
    assert_eq!(list_grammar_docs(&repo).unwrap()[0].group_id, Some(g.id));
    assert_eq!(
        move_grammar_doc(&mut repo, &MoveGrammarDocRequest { doc_id: id, group_id: Some(g.id + 50) }).unwrap_err(),
        "database error: FOREIGN KEY constraint failed"
    );
    delete_grammar_group(&mut repo, g.id).unwrap();
    assert!(list_grammar_groups(&repo).unwrap().is_empty());
    assert_eq!(list_grammar_docs(&repo).unwrap()[0].group_id, None);
    delete_grammar_doc(&mut repo, id).unwrap();
    assert!(list_grammar_docs(&repo).unwrap().is_empty());
    delete_grammar_doc(&mut repo, id).unwrap();
}
