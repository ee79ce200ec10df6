//! The shapes that the user interface exchanges with the library, and the
//! conversions and decisions between them and the library's own types.
use vstd::prelude::*;
use crate::db::{db_error_message, DbError};
use crate::grammar::repository::{
    create_group_outcome, delete_doc_outcome, group_name_taken, delete_group_outcome, doc_at, move_doc_outcome, doc_summaries_view, doc_summary_of, exercises_of, exercises_view,
    find_or_create_group_outcome, group_names, group_summaries_view, group_summary_of, has_doc, listed_newest_first,
    insert_doc_outcome, update_group_outcome, DocSummaryView, GrammarRepository, GrammarStoreView, GroupSummaryView,
};
use crate::grammar::{
    copy_json, decode_grammar_items, grammar_json_result, grammar_md_result, inputs_view, parse_grammar_json,
    parse_grammar_md, GrammarDocDetail, GrammarDocInput, GrammarDocSummary, GrammarGroup, GrammarGroupSummary,
    GrammarInputView,
};
use crate::clock::{clock_range_message, Timestamp};

use crate::import::{json_import_outcome, json_readable, opt_chars, ImportReport};
use crate::parser::json::words_view;
use crate::repository::sorting::arranged_by_name;
use crate::repository::{
    assign_outcome, collection_name_taken_message, collection_names, collections_view, create_collection_outcome,
    clock_text, create_topic_outcome, now_text, positions_below, query_outcome, topic_exists, topic_ids_of, topic_name_taken_message,
    topic_names, topics_of_collection, topics_view, without_topics, word_index, QueryOptions, SortBy, StoreView,
    WordRepository,
};
use crate::service::VocabularyService;
use crate::testing::{generate_outcome, submit_outcome, AnswerResult, TestingEngine, TestingOptions};
use crate::json::{parsed_json, Json, JsonValue};
use crate::model::{
    copy_opt, copy_strings, key_of, opt_str, Collection, CollectionView, Definition, DefinitionView, Topic, TopicView,
    WordRecord, WordView,
};
use crate::parser::{parse_error_message, ParseError};
use crate::testing::{Question, QuestionDirection, QuestionView, TestMode};
use crate::text::{
    concat, lemma_trim_idempotent, lowercase, starts_with, starts_with_text, strs, to_lowercase, trim, trim_start,
    trim_start_str, trim_str,
};

verus! {

/// Asks for the next question: the mode by name, whether due words come
/// first, and an optional topic.
#[derive(Debug)]
pub struct NextQuestionRequest {
    pub mode: String,
    pub srs_enabled: bool,
    pub topic_id: Option<i64>,
}

/// Answers a question.
#[derive(Debug)]
pub struct SubmitAnswerRequest {
    pub answer: String,
    pub srs_enabled: bool,
    pub question: QuestionDto,
}

/// A question, with its direction by name (`en-vi` or `vi-en`).
#[derive(Debug, Clone)]
pub struct QuestionDto {
    pub word_key: String,
    pub direction: String,
    pub prompt: String,
    pub word: Option<String>,
    pub phonetic: Option<String>,
    pub examples: Vec<String>,
    pub expected_answers: Vec<String>,
    pub synonyms: Vec<String>,
    pub antonyms: Vec<String>,
    pub family_words: Vec<String>,
}

/// The grade of an answer.
#[derive(Debug)]
pub struct AnswerResultDto {
    pub correct: bool,
    pub normalized_answer: String,
    pub accepted_answers: Vec<String>,
}

/// A stored word in the library listing.
#[derive(Debug)]
pub struct WordSummaryDto {
    pub word_key: String,
    pub word: String,
    pub phonetic: Option<String>,
    pub meanings: Vec<String>,
    pub tags: Vec<String>,
    pub review_count: u32,
    pub examples_count: usize,
    pub synonyms: Vec<String>,
    pub antonyms: Vec<String>,
    pub family_words: Vec<String>,
}

/// A collection.
#[derive(Debug)]
pub struct CollectionDto {
    pub id: i64,
    pub name: String,
    pub description: Option<String>,
    pub created_at: String,
}

/// A topic.
#[derive(Debug)]
pub struct TopicDto {
    pub id: i64,
    pub collection_id: i64,
    pub name: String,
    pub description: Option<String>,
}

/// What an import did.
#[derive(Debug)]
pub struct ImportReportDto {
    pub inserted_count: usize,
    pub updated_count: usize,
    pub skipped_count: usize,
    pub error_count: usize,
    pub errors: Vec<String>,
}

/// Lists the words, optionally those of one collection or topic.
#[derive(Debug)]
pub struct ListWordsRequest {
    pub collection_id: Option<i64>,
    pub topic_id: Option<i64>,
}

/// Creates a collection.
#[derive(Debug)]
pub struct CreateCollectionRequest {
    pub name: String,
    pub description: Option<String>,
}

/// Renames and redescribes a collection.
#[derive(Debug)]
pub struct UpdateCollectionRequest {
    pub id: i64,
    pub name: String,
    pub description: Option<String>,
}

/// Creates a topic in a collection.
#[derive(Debug)]
pub struct CreateTopicRequest {
    pub collection_id: i64,
    pub name: String,
    pub description: Option<String>,
}

/// Renames and redescribes a topic.
#[derive(Debug)]
pub struct UpdateTopicRequest {
    pub id: i64,
    pub name: String,
    pub description: Option<String>,
}

/// Puts a word in a topic.
#[derive(Debug)]
pub struct AssignWordToTopicRequest {
    pub word_key: String,
    pub topic_id: i64,
}

/// Imports vocabulary JSON, optionally into a collection and topic by name.
#[derive(Debug)]
pub struct ImportVocabularyRequest {
    pub content: String,
    pub collection_name: Option<String>,
    pub topic_name: Option<String>,
}

/// A grammar document in a listing.
#[derive(Debug)]
pub struct GrammarDocDto {
    pub id: i64,
    pub title: String,
    pub category: Option<String>,
    pub level: Option<String>,
    pub exercise_count: usize,
    pub group_id: Option<i64>,
    pub created_at: String,
}

/// A grammar group in a listing.
#[derive(Debug)]
pub struct GrammarGroupDto {
    pub id: i64,
    pub name: String,
    pub description: Option<String>,
    pub sort_order: i64,
    pub doc_count: usize,
    pub created_at: String,
}

/// Creates a grammar group.
#[derive(Debug)]
pub struct CreateGrammarGroupRequest {
    pub name: String,
    pub description: Option<String>,
}

/// Renames and redescribes a grammar group; absent fields stay.
#[derive(Debug)]
pub struct UpdateGrammarGroupRequest {
    pub id: i64,
    pub name: Option<String>,
    pub description: Option<String>,
}

/// Moves a grammar document to a group, or to none.
#[derive(Debug)]
pub struct MoveGrammarDocRequest {
    pub doc_id: i64,
    pub group_id: Option<i64>,
}

/// An exercise of a grammar document.
#[derive(Debug)]
pub struct GrammarExerciseDto {
    pub id: i64,
    pub exercise_type: String,
    pub data: JsonValue,
}

/// A grammar document with its exercises.
#[derive(Debug)]
pub struct GrammarDocDetailDto {
    pub id: i64,
    pub title: String,
    pub category: Option<String>,
    pub level: Option<String>,
    pub content: String,
    pub examples: Vec<String>,
    pub exercises: Vec<GrammarExerciseDto>,
    pub group_id: Option<i64>,
    pub created_at: String,
}

/// What a grammar import did: how many documents were stored, and why the
/// others were not.
#[derive(Debug)]
pub struct GrammarImportResultDto {
    pub imported_count: usize,
    pub errors: Vec<String>,
}


impl View for GrammarDocDto {
    type V = DocSummaryView;

    open spec fn view(&self) -> DocSummaryView {
        DocSummaryView {
            id: self.id,
            title: self.title@,
            category: opt_str(self.category),
            level: opt_str(self.level),
            exercise_count: self.exercise_count as nat,
            group_id: self.group_id,
            created_at: self.created_at@,
        }
    }
}

impl View for GrammarGroupDto {
    type V = GroupSummaryView;

    open spec fn view(&self) -> GroupSummaryView {
        GroupSummaryView {
            id: self.id,
            name: self.name@,
            description: opt_str(self.description),
            sort_order: self.sort_order,
            doc_count: self.doc_count as nat,
            created_at: self.created_at@,
        }
    }
}

/// The mathematical content of a word in the library listing.
pub struct WordSummaryView {
    pub word_key: Seq<char>,
    pub word: Seq<char>,
    pub phonetic: Option<Seq<char>>,
    pub meanings: Seq<Seq<char>>,
    pub tags: Seq<Seq<char>>,
    pub review_count: u32,
    pub examples_count: nat,
    pub synonyms: Seq<Seq<char>>,
    pub antonyms: Seq<Seq<char>>,
    pub family_words: Seq<Seq<char>>,
}

impl View for CollectionDto {
    type V = CollectionView;

    open spec fn view(&self) -> CollectionView {
        CollectionView {
            id: self.id,
            name: self.name@,
            description: opt_str(self.description),
            created_at: self.created_at@,
        }
    }
}

impl View for TopicDto {
    type V = TopicView;

    open spec fn view(&self) -> TopicView {
        TopicView {
            id: self.id,
            collection_id: self.collection_id,
            name: self.name@,
            description: opt_str(self.description),
        }
    }
}

impl View for WordSummaryDto {
    type V = WordSummaryView;

    open spec fn view(&self) -> WordSummaryView {
        WordSummaryView {
            word_key: self.word_key@,
            word: self.word@,
            phonetic: opt_str(self.phonetic),
            meanings: strs(self.meanings@),
            tags: strs(self.tags@),
            review_count: self.review_count,
            examples_count: self.examples_count as nat,
            synonyms: strs(self.synonyms@),
            antonyms: strs(self.antonyms@),
            family_words: strs(self.family_words@),
        }
    }
}

/// A word as the library listing shows it: its key, its fields, each
/// definition as a line (see `meaning_line`) and the number of its
/// examples.
pub open spec fn word_summary_view(w: WordView) -> WordSummaryView {
    WordSummaryView {
        word_key: key_of(w.word),
        word: w.word,
        phonetic: w.phonetic,
        meanings: w.definitions.map_values(|d: DefinitionView| meaning_line(d)),
        tags: w.metadata.tags,
        review_count: w.metadata.review_count,
        examples_count: w.examples.len(),
        synonyms: w.synonyms,
        antonyms: w.antonyms,
        family_words: w.family_words,
    }
}

// ----- study -----

/// The mode named by `value`: trimmed and lowercased, `envi` or `en-vi`,
/// `vien` or `vi-en`, or `hybrid`.
pub open spec fn mode_named(value: Seq<char>) -> Result<TestMode, Seq<char>> {
    let l = lowercase(trim(value));
    if l == "envi"@ || l == "en-vi"@ {
        Ok(TestMode::EnVi)
    } else if l == "vien"@ || l == "vi-en"@ {
        Ok(TestMode::ViEn)
    } else if l == "hybrid"@ {
        Ok(TestMode::Hybrid)
    } else {
        Err("unsupported mode: "@ + l)
    }
}

fn same_text(s: &String, lit: &str) -> (r: bool)
    ensures
        r == (s@ == lit@),
{
    *s == lit.to_owned()
}

/// A window theme that the interface can ask for.
#[derive(Debug, Clone, Copy, PartialEq, Eq, Structural)]
pub enum AppTheme {
    Light,
    Dark,
}

/// The theme a mode names: `light` and `dark` fix one, `system` leaves the
/// choice to the system; any other mode is refused, by name.
pub open spec fn theme_named(mode: Seq<char>) -> Result<Option<AppTheme>, Seq<char>> {
    if mode == "light"@ {
        Ok(Some(AppTheme::Light))
    } else if mode == "dark"@ {
        Ok(Some(AppTheme::Dark))
    } else if mode == "system"@ {
        Ok(None)
    } else {
        Err("unsupported theme mode: "@ + mode)
    }
}

/// Reads the window theme that `mode` asks for (see `theme_named`).
pub fn theme_for_mode(mode: &str) -> (r: Result<Option<AppTheme>, String>)
    ensures
        match theme_named(mode@) {
            Ok(t) => r == Ok::<Option<AppTheme>, String>(t),
            Err(msg) => r matches Err(x) && x@ == msg,
        },
{
    let m = mode.to_owned();
    if same_text(&m, "light") {
        Ok(Some(AppTheme::Light))
    } else if same_text(&m, "dark") {
        Ok(Some(AppTheme::Dark))
    } else if same_text(&m, "system") {
        Ok(None)
    } else {
        Err(concat("unsupported theme mode: ", mode))
    }
}

/// Reads a study mode by name (see `mode_named`).
pub fn parse_mode(value: &str) -> (r: Result<TestMode, String>)
    ensures
        match mode_named(value@) {
            Ok(m) => r == Ok::<TestMode, String>(m),
            Err(msg) => r matches Err(x) && x@ == msg,
        },
{
    let t = trim_str(value);
    let l = to_lowercase(t.as_str());
    if same_text(&l, "envi") || same_text(&l, "en-vi") {
        Ok(TestMode::EnVi)
    } else if same_text(&l, "vien") || same_text(&l, "vi-en") {
        Ok(TestMode::ViEn)
    } else if same_text(&l, "hybrid") {
        Ok(TestMode::Hybrid)
    } else {
        Err(concat("unsupported mode: ", l.as_str()))
    }
}

/// The mathematical content of a `QuestionDto`.
pub struct QuestionDtoView {
    pub word_key: Seq<char>,
    pub direction: Seq<char>,
    pub prompt: Seq<char>,
    pub word: Option<Seq<char>>,
    pub phonetic: Option<Seq<char>>,
    pub examples: Seq<Seq<char>>,
    pub expected_answers: Seq<Seq<char>>,
    pub synonyms: Seq<Seq<char>>,
    pub antonyms: Seq<Seq<char>>,
    pub family_words: Seq<Seq<char>>,
}

impl View for QuestionDto {
    type V = QuestionDtoView;

    open spec fn view(&self) -> QuestionDtoView {
        QuestionDtoView {
            word_key: self.word_key@,
            direction: self.direction@,
            prompt: self.prompt@,
            word: opt_str(self.word),
            phonetic: opt_str(self.phonetic),
            examples: strs(self.examples@),
            expected_answers: strs(self.expected_answers@),
            synonyms: strs(self.synonyms@),
            antonyms: strs(self.antonyms@),
            family_words: strs(self.family_words@),
        }
    }
}

/// The name of a direction.
pub open spec fn direction_name(d: QuestionDirection) -> Seq<char> {
    match d {
        QuestionDirection::EnVi => "en-vi"@,
        QuestionDirection::ViEn => "vi-en"@,
    }
}

/// A question as the interface sees it: the same fields, the direction by
/// name.
pub open spec fn question_dto_of(q: QuestionView) -> QuestionDtoView {
    QuestionDtoView {
        word_key: q.word_key,
        direction: direction_name(q.direction),
        prompt: q.prompt,
        word: q.word,
        phonetic: q.phonetic,
        examples: q.examples,
        expected_answers: q.expected_answers,
        synonyms: q.synonyms,
        antonyms: q.antonyms,
        family_words: q.family_words,
    }
}

/// A question read back from the interface: the direction must be
/// `en-vi` or `vi-en`.
pub open spec fn question_of_dto(d: QuestionDtoView) -> Result<QuestionView, Seq<char>> {
    if d.direction == "en-vi"@ || d.direction == "vi-en"@ {
        Ok(
            QuestionView {
                word_key: d.word_key,
                direction: if d.direction == "en-vi"@ {
                    QuestionDirection::EnVi
                } else {
                    QuestionDirection::ViEn
                },
                prompt: d.prompt,
                word: d.word,
                phonetic: d.phonetic,
                examples: d.examples,
                expected_answers: d.expected_answers,
                synonyms: d.synonyms,
                antonyms: d.antonyms,
                family_words: d.family_words,
            },
        )
    } else {
        Err("invalid question direction"@)
    }
}

/// A question handed to the interface and read back is the same question.
pub proof fn law_question_round_trip(q: QuestionView)
    ensures
        question_of_dto(question_dto_of(q)) == Ok::<QuestionView, Seq<char>>(q),
{
    reveal_strlit("en-vi");
    reveal_strlit("vi-en");
    assert("en-vi"@ != "vi-en"@) by {
        assert("en-vi"@[0] != "vi-en"@[0]);
    }
}

/// A question as the interface sees it (see `question_dto_of`).
pub fn from_question(question: Question) -> (r: QuestionDto)
    ensures
        r@ == question_dto_of(question@),
{
    let direction = match question.direction {
        QuestionDirection::EnVi => "en-vi".to_owned(),
        QuestionDirection::ViEn => "vi-en".to_owned(),
    };
    QuestionDto {
        word_key: question.word_key,
        direction,
        prompt: question.prompt,
        word: question.word,
        phonetic: question.phonetic,
        examples: question.examples,
        expected_answers: question.expected_answers,
        synonyms: question.synonyms,
        antonyms: question.antonyms,
        family_words: question.family_words,
    }
}

/// A question read back from the interface (see `question_of_dto`).
pub fn to_question(dto: &QuestionDto) -> (r: Result<Question, String>)
    ensures
        match question_of_dto(dto@) {
            Ok(q) => r matches Ok(x) && x@ == q,
            Err(m) => r matches Err(x) && x@ == m,
        },
{
    let direction = if same_text(&dto.direction, "en-vi") {
        QuestionDirection::EnVi
    } else if same_text(&dto.direction, "vi-en") {
        QuestionDirection::ViEn
    } else {
        return Err("invalid question direction".to_owned());
    };
    Ok(
        Question {
            word_key: dto.word_key.clone(),
            direction,
            prompt: dto.prompt.clone(),
            word: copy_opt(&dto.word),
            phonetic: copy_opt(&dto.phonetic),
            examples: copy_strings(&dto.examples),
            expected_answers: copy_strings(&dto.expected_answers),
            synonyms: copy_strings(&dto.synonyms),
            antonyms: copy_strings(&dto.antonyms),
            family_words: copy_strings(&dto.family_words),
        },
    )
}

// ----- library -----

/// How a definition shows in the listing: `[pos] meaning`, or the meaning
/// alone without a part of speech.
pub open spec fn meaning_line(d: DefinitionView) -> Seq<char> {
    match d.pos {
        Some(p) => "["@ + p + "] "@ + d.meaning,
        None => d.meaning,
    }
}

fn meaning_text(d: &Definition) -> (r: String)
    ensures
        r@ == meaning_line(d@),
{
    match &d.pos {
        Some(p) => {
            let mut s = "[".to_owned();
            s.append(p.as_str());
            s.append("] ");
            s.append(d.meaning.as_str());
            assert(s@ =~= "["@ + p@ + "] "@ + d.meaning@);
            s
        },
        None => d.meaning.clone(),
    }
}

/// A stored word as the library listing shows it: its key, its fields,
/// each definition as a line (see `meaning_line`) and the number of its
/// examples.
pub fn word_summary(r: WordRecord) -> (s: WordSummaryDto)
    ensures
        s@ == word_summary_view(r@),
{
    let word_key = r.word_key();
    let mut meanings: Vec<String> = Vec::new();
    let mut i: usize = 0;
    while i < r.definitions.len()
        invariant
            i <= r.definitions.len(),
            meanings.len() == i,
            forall|j: int| 0 <= j < i ==> #[trigger] meanings@[j]@ == meaning_line(r.definitions@[j]@),
        decreases r.definitions.len() - i,
    {
        meanings.push(meaning_text(&r.definitions[i]));
        i += 1;
    }
    assert(strs(meanings@) =~= r@.definitions.map_values(|d: DefinitionView| meaning_line(d)));
    let examples_count = r.examples.len();
    WordSummaryDto {
        word_key,
        word: r.word,
        phonetic: r.phonetic,
        meanings,
        tags: r.metadata.tags,
        review_count: r.metadata.review_count,
        examples_count,
        synonyms: r.synonyms,
        antonyms: r.antonyms,
        family_words: r.family_words,
    }
}

/// A collection as the interface sees it: the same fields.
pub fn from_collection(c: Collection) -> (r: CollectionDto)
    ensures
        r@ == c@,
{
    CollectionDto { id: c.id, name: c.name, description: c.description, created_at: c.created_at }
}

/// A topic as the interface sees it: the same fields.
pub fn from_topic(t: Topic) -> (r: TopicDto)
    ensures
        r@ == t@,
{
    TopicDto { id: t.id, collection_id: t.collection_id, name: t.name, description: t.description }
}

/// What a vocabulary import reports to the interface: its three counts, and
/// no errors (a failed import is reported as an error of its own).
pub fn import_report_dto(report: &ImportReport) -> (r: ImportReportDto)
    ensures
        r.inserted_count == report.inserted_count,
        r.updated_count == report.updated_count,
        r.skipped_count == report.skipped_count,
        r.error_count == 0,
        r.errors@.len() == 0,
{
    ImportReportDto {
        inserted_count: report.inserted_count,
        updated_count: report.updated_count,
        skipped_count: report.skipped_count,
        error_count: 0,
        errors: Vec::new(),
    }
}

// ----- grammar -----

/// A grammar document in a listing, as the interface sees it.
pub fn grammar_doc_dto(d: GrammarDocSummary) -> (r: GrammarDocDto)
    ensures
        r@ == d@,
{
    GrammarDocDto {
        id: d.id,
        title: d.title,
        category: d.category,
        level: d.level,
        exercise_count: d.exercise_count,
        group_id: d.group_id,
        created_at: d.created_at,
    }
}

/// A grammar group in a listing, as the interface sees it.
pub fn grammar_group_dto(g: GrammarGroupSummary) -> (r: GrammarGroupDto)
    ensures
        r@ == g@,
{
    GrammarGroupDto {
        id: g.id,
        name: g.name,
        description: g.description,
        sort_order: g.sort_order,
        doc_count: g.doc_count,
        created_at: g.created_at,
    }
}

/// A grammar document with its exercises, as the interface sees it: each
/// exercise by its identifier, kind and data.
pub fn grammar_detail_dto(d: GrammarDocDetail) -> (r: GrammarDocDetailDto)
    ensures
        r.id == d.doc.id,
        r.title@ == d.doc.title@,
        opt_str(r.category) == opt_str(d.doc.category),
        opt_str(r.level) == opt_str(d.doc.level),
        r.content@ == d.doc.content@,
        strs(r.examples@) == strs(d.doc.examples@),
        r.group_id == d.doc.group_id,
        r.created_at@ == d.doc.created_at@,
        r.exercises.len() == d.exercises.len(),
        forall|i: int|
            #![trigger r.exercises@[i]]
            0 <= i < r.exercises.len() ==> r.exercises@[i].id == d.exercises@[i].id
                && r.exercises@[i].exercise_type@ == d.exercises@[i].exercise_type@ && r.exercises@[i].data@
                == d.exercises@[i].data@,
{
    let mut exercises: Vec<GrammarExerciseDto> = Vec::new();
    let mut i: usize = 0;
    while i < d.exercises.len()
        invariant
            i <= d.exercises.len(),
            exercises.len() == i,
            forall|j: int|
                #![trigger exercises@[j]]
                0 <= j < i ==> exercises@[j].id == d.exercises@[j].id && exercises@[j].exercise_type@
                    == d.exercises@[j].exercise_type@ && exercises@[j].data@ == d.exercises@[j].data@,
        decreases d.exercises.len() - i,
    {
        let e = &d.exercises[i];
        exercises.push(
            GrammarExerciseDto { id: e.id, exercise_type: e.exercise_type.clone(), data: copy_json(&e.data) },
        );
        i += 1;
    }
    GrammarDocDetailDto {
        id: d.doc.id,
        title: d.doc.title,
        category: d.doc.category,
        level: d.doc.level,
        content: d.doc.content,
        examples: d.doc.examples,
        exercises,
        group_id: d.doc.group_id,
        created_at: d.doc.created_at,
    }
}

/// The name of the group for a category: the trimmed category, when it is
/// not blank.
pub open spec fn category_group_name(category: Option<Seq<char>>) -> Option<Seq<char>> {
    match category {
        Some(c) => if trim(c).len() == 0 {
            None
        } else {
            Some(trim(c))
        },
        None => None,
    }
}

/// What finding or creating the group named `name` gave: the identifier
/// that `find_or_create_group_outcome` gives at some time (an existing
/// group's, or a new one's), or none where that outcome is an error; or,
/// only when no group has that name yet and the clock cannot be read,
/// none with nothing changed.
pub open spec fn group_resolution(s: GrammarStoreView, name: Seq<char>, s2: GrammarStoreView, r: Option<i64>) -> bool {
    ||| exists|now: Seq<char>, res: Result<i64, DbError>|
        (trim(name).len() != 0 && !group_name_taken(s.groups, trim(name), None) ==> clock_text(now))
            && #[trigger] find_or_create_group_outcome(s, name, now, s2, res) && r == match res {
            Ok(x) => Some(x),
            Err(_) => None::<i64>,
        }
    ||| trim(name).len() != 0 && !group_name_taken(s.groups, trim(name), None) && r is None && s2 == s
}

/// The group a document of category `category` goes to: none without a
/// category or with a blank one; otherwise the group of that trimmed name,
/// created when missing. Where the group can be neither found nor created,
/// the document goes to no group.
pub fn resolve_group_for_category(repo: &mut GrammarRepository, category: &Option<String>) -> (r: Option<i64>)
    requires
        old(repo).wf(),
    ensures
        final(repo).wf(),
        match category_group_name(opt_str(*category)) {
            None => r is None && final(repo)@ == old(repo)@,
            Some(n) => group_resolution(old(repo)@, n, final(repo)@, r),
        },
{
    let name = match category {
        Some(c) => trim_str(c.as_str()),
        None => return None,
    };
    if name.as_str().is_empty() {
        return None;
    }
    let res = repo.find_or_create_group(name.as_str());
    let r = match res {
        Ok(id) => Some(id),
        Err(_) => None,
    };
    proof {
        lemma_trim_idempotent(opt_str(*category).unwrap());
        let ghost cond = trim(name@).len() != 0 && !group_name_taken(old(repo)@.groups, trim(name@), None);
        if exists|now: Seq<char>| (cond ==> clock_text(now)) && #[trigger] find_or_create_group_outcome(old(repo)@, name@, now, repo@, res) {
            let now = choose|now: Seq<char>| (cond ==> clock_text(now)) && #[trigger] find_or_create_group_outcome(old(repo)@, name@, now, repo@, res);
            assert((cond ==> clock_text(now)) && find_or_create_group_outcome(old(repo)@, name@, now, repo@, res) && r == match res {
                Ok(x) => Some(x),
                Err(_) => None::<i64>,
            });
            assert(group_resolution(old(repo)@, name@, repo@, r));
        }
    }
    r
}

/// Whether an import text is Markdown: after leading whitespace it starts
/// with `---` (front matter) or `# ` (a heading). Anything else is read as
/// a JSON array of documents.
pub open spec fn is_markdown_import(content: Seq<char>) -> bool {
    starts_with(trim_start(content), "---"@) || starts_with(trim_start(content), "# "@)
}

/// The group a document of category `category` goes to, with store `s`
/// becoming `s2`: none without a category or with a blank one; otherwise the
/// group of the trimmed name that `find_or_create_group_outcome` gives at
/// `now`, or none where that is an error.
pub open spec fn category_step(
    s: GrammarStoreView,
    category: Option<Seq<char>>,
    now: Seq<char>,
    s2: GrammarStoreView,
    g: Option<i64>,
) -> bool {
    match category_group_name(category) {
        None => g is None && s2 == s,
        Some(n) => exists|res: Result<i64, DbError>|
            #[trigger] find_or_create_group_outcome(s, n, now, s2, res) && g == match res {
                Ok(x) => Some(x),
                Err(_) => None::<i64>,
            },
    }
}

/// What importing one document at `now` does: its group is resolved (see
/// `category_step`), then it is added to that group (see
/// `insert_doc_outcome`); the outcome is `Ok` when it was stored, else its
/// title and the reason.
pub open spec fn import_doc_step(
    s: GrammarStoreView,
    d: GrammarInputView,
    now: Seq<char>,
    s2: GrammarStoreView,
    out: Result<(), Seq<char>>,
) -> bool {
    exists|s1: GrammarStoreView, g: Option<i64>, ins: Result<i64, DbError>|
        #[trigger] category_step(s, d.category, now, s1, g) && #[trigger] insert_doc_outcome(s1, d, g, now, s2, ins) && out
            == match ins {
            Ok(_) => Ok::<(), Seq<char>>(()),
            Err(e) => Err(d.title + ": "@ + db_error_message(e)),
        }
}

/// How many outcomes are `Ok`.
pub open spec fn stored_count(outs: Seq<Result<(), Seq<char>>>) -> nat
    decreases outs.len(),
{
    if outs.len() == 0 {
        0
    } else {
        stored_count(outs.drop_last()) + if outs.last() is Ok {
            1nat
        } else {
            0nat
        }
    }
}

/// The messages of the outcomes that are errors, in order.
pub open spec fn failure_messages(outs: Seq<Result<(), Seq<char>>>) -> Seq<Seq<char>>
    decreases outs.len(),
{
    if outs.len() == 0 {
        Seq::<Seq<char>>::empty()
    } else {
        match outs.last() {
            Ok(()) => failure_messages(outs.drop_last()),
            Err(m) => failure_messages(outs.drop_last()).push(m),
        }
    }
}

/// What importing the documents `ds` one by one, in order, at `now` does:
/// the store passes through `states`, each document with its outcome; the
/// report counts the stored ones and lists the others' messages in order.
pub open spec fn docs_imported(
    s: GrammarStoreView,
    ds: Seq<GrammarInputView>,
    now: Seq<char>,
    s2: GrammarStoreView,
    r: GrammarImportResultDto,
) -> bool {
    exists|states: Seq<GrammarStoreView>, outs: Seq<Result<(), Seq<char>>>|
        #[trigger] docs_trace(s, ds, now, states, outs) && states.last() == s2 && r.imported_count == stored_count(
            outs,
        ) && strs(r.errors@) == failure_messages(outs)
}

/// The stores `states` and outcomes `outs` of importing `ds` one by one
/// from `s` at `now`.
pub open spec fn docs_trace(
    s: GrammarStoreView,
    ds: Seq<GrammarInputView>,
    now: Seq<char>,
    states: Seq<GrammarStoreView>,
    outs: Seq<Result<(), Seq<char>>>,
) -> bool {
    &&& states.len() == ds.len() + 1
    &&& outs.len() == ds.len()
    &&& states[0] == s
    &&& forall|k: int| 0 <= k < ds.len() ==> #[trigger] import_doc_step(states[k], ds[k], now, states[k + 1], outs[k])
}

/// What a grammar text that cannot be read reports: its one parse error,
/// with nothing stored.
pub open spec fn parse_refused(e: ParseError, s: GrammarStoreView, s2: GrammarStoreView, r: GrammarImportResultDto) -> bool {
    r.imported_count == 0 && strs(r.errors@) == seq![parse_error_message(e)] && s2 == s
}

/// What importing the grammar text `content` at `now` does: a Markdown file
/// (see `is_markdown_import`) is read as one document, anything else as a
/// JSON array of documents; a text that cannot be read reports its parse
/// error, and the documents read are imported in order (see
/// `docs_imported`).
pub open spec fn grammar_import_outcome(
    s: GrammarStoreView,
    content: Seq<char>,
    now: Seq<char>,
    s2: GrammarStoreView,
    r: GrammarImportResultDto,
) -> bool {
    if is_markdown_import(content) {
        exists|pr: Result<GrammarDocInput, ParseError>|
            #[trigger] grammar_md_result(content, pr) && match pr {
                Err(e) => parse_refused(e, s, s2, r),
                Ok(d) => docs_imported(s, seq![d@], now, s2, r),
            }
    } else {
        exists|pr: Result<Vec<GrammarDocInput>, ParseError>|
            #[trigger] grammar_json_result(content, pr) && match pr {
                Err(e) => parse_refused(e, s, s2, r),
                Ok(v) => docs_imported(s, inputs_view(v@), now, s2, r),
            }
    }
}

/// The documents that the grammar text `content` holds, when it can be read.
pub open spec fn grammar_docs_read(content: Seq<char>, ds: Seq<GrammarInputView>) -> bool {
    if is_markdown_import(content) {
        exists|pr: Result<GrammarDocInput, ParseError>|
            #[trigger] grammar_md_result(content, pr) && (pr matches Ok(d) && ds == seq![d@])
    } else {
        exists|pr: Result<Vec<GrammarDocInput>, ParseError>|
            #[trigger] grammar_json_result(content, pr) && (pr matches Ok(v) && ds == inputs_view(v@))
    }
}

/// Whether the grammar text `content` can be read: only then does an
/// import read the clock.
pub open spec fn grammar_readable(content: Seq<char>) -> bool {
    exists|ds: Seq<GrammarInputView>| #[trigger] grammar_docs_read(content, ds)
}

/// What an import of readable text reports when the clock cannot be read:
/// every document named with the clock's error, nothing stored.
pub open spec fn clock_refused(content: Seq<char>, s: GrammarStoreView, s2: GrammarStoreView, r: GrammarImportResultDto) -> bool {
    &&& s2 == s
    &&& r.imported_count == 0
    &&& exists|ds: Seq<GrammarInputView>|
        #[trigger] grammar_docs_read(content, ds) && strs(r.errors@) == ds.map_values(
            |d: GrammarInputView| d.title + ": "@ + ("database error: "@ + clock_range_message()),
        )
}

/// The group for a category as of `now` (see `category_step`).
fn group_for_category_at(repo: &mut GrammarRepository, category: &Option<String>, now: &str) -> (r: Option<i64>)
    requires
        old(repo).wf(),
    ensures
        final(repo).wf(),
        category_step(old(repo)@, opt_str(*category), now@, final(repo)@, r),
{
    let name = match category {
        Some(c) => trim_str(c.as_str()),
        None => return None,
    };
    if name.as_str().is_empty() {
        assert(category_group_name(opt_str(*category)) is None);
        return None;
    }
    assert(category_group_name(opt_str(*category)) == Some(name@));
    let res = repo.find_or_create_group_at(name.as_str(), now);
    let r = match res {
        Ok(id) => Some(id),
        Err(_) => None,
    };
    assert(find_or_create_group_outcome(old(repo)@, name@, now@, repo@, res) && r == match res {
        Ok(x) => Some(x),
        Err(_) => None::<i64>,
    });
    let ghost n = category_group_name(opt_str(*category))->0;
    assert(n == name@);
    assert(exists|res2: Result<i64, DbError>|
        #[trigger] find_or_create_group_outcome(old(repo)@, n, now@, repo@, res2) && r == match res2 {
            Ok(x) => Some(x),
            Err(_) => None::<i64>,
        });
    assert(category_step(old(repo)@, opt_str(*category), now@, repo@, r));
    r
}

/// Imports the documents `docs` in order at `now` (see `docs_imported`).
fn import_docs_at(repo: &mut GrammarRepository, docs: &Vec<GrammarDocInput>, now: &str) -> (r: GrammarImportResultDto)
    requires
        old(repo).wf(),
    ensures
        final(repo).wf(),
        docs_imported(old(repo)@, inputs_view(docs@), now@, final(repo)@, r),
{
    let ghost ds = inputs_view(docs@);
    let ghost mut states: Seq<GrammarStoreView> = seq![repo@];
    let ghost mut outs: Seq<Result<(), Seq<char>>> = Seq::empty();
    let mut imported_count: usize = 0;
    let mut errors: Vec<String> = Vec::new();
    let mut i: usize = 0;
    assert(strs(errors@) =~= failure_messages(outs));
    while i < docs.len()
        invariant
            i <= docs.len(),
            ds == inputs_view(docs@),
            repo.wf(),
            imported_count <= i,
            states.len() == i + 1,
            outs.len() == i,
            states[0] == old(repo)@,
            states.last() == repo@,
            forall|k: int| 0 <= k < i ==> #[trigger] import_doc_step(states[k], ds[k], now@, states[k + 1], outs[k]),
            imported_count == stored_count(outs),
            strs(errors@) == failure_messages(outs),
        decreases docs.len() - i,
    {
        let doc = &docs[i];
        assert(doc@ == ds[i as int]);
        let ghost s0 = repo@;
        let group_id = group_for_category_at(repo, &doc.category, now);
        let ghost s1 = repo@;
        let ins = repo.insert_doc_at(doc, group_id, now);
        let ghost gins = ins;
        let ghost out = match gins {
            Ok(_) => Ok::<(), Seq<char>>(()),
            Err(e) => Err(doc@.title + ": "@ + db_error_message(e)),
        };
        match ins {
            Ok(_) => {
                imported_count += 1;
            },
            Err(e) => {
                let m = import_error(doc.title.as_str(), &e);
                errors.push(m);
            },
        }
        proof {
            assert(import_doc_step(s0, ds[i as int], now@, repo@, out));
            let old_states = states;
            let old_outs = outs;
            states = states.push(repo@);
            outs = outs.push(out);
            assert(outs.drop_last() =~= old_outs);
            assert forall|k: int| 0 <= k < i + 1 implies #[trigger] import_doc_step(states[k], ds[k], now@, states[k + 1], outs[k]) by {
                if k < i {
                    assert(states[k] == old_states[k]);
                    assert(states[k + 1] == old_states[k + 1]);
                    assert(outs[k] == old_outs[k]);
                }
            }
            if out is Err {
                assert(strs(errors@) =~= failure_messages(old_outs).push(out->Err_0));
            }
        }
        i += 1;
    }
    let r = GrammarImportResultDto { imported_count, errors };
    assert(docs_trace(old(repo)@, ds, now@, states, outs));
    r
}

/// Imports grammar documents from a Markdown file or a JSON array as of
/// `now` (see `grammar_import_outcome`).
pub fn import_grammar_at(repo: &mut GrammarRepository, content: &str, now: &str) -> (r: GrammarImportResultDto)
    requires
        old(repo).wf(),
    ensures
        final(repo).wf(),
        grammar_import_outcome(old(repo)@, content@, now@, final(repo)@, r),
{
    match read_grammar(content) {
        Err(e) => {
            let mut errors: Vec<String> = Vec::new();
            errors.push(e.to_string());
            assert(strs(errors@) =~= seq![parse_error_message(e)]);
            GrammarImportResultDto { imported_count: 0, errors }
        },
        Ok(docs) => import_docs_at(repo, &docs, now),
    }
}

/// The documents of a grammar text: one from a Markdown file, or those of
/// a JSON array.
fn read_grammar(content: &str) -> (r: Result<Vec<GrammarDocInput>, ParseError>)
    ensures
        if is_markdown_import(content@) {
            exists|pr: Result<GrammarDocInput, ParseError>|
                #[trigger] grammar_md_result(content@, pr) && match pr {
                    Err(e) => r == Err::<Vec<GrammarDocInput>, ParseError>(e),
                    Ok(d) => r matches Ok(v) && inputs_view(v@) == seq![d@],
                }
        } else {
            exists|pr: Result<Vec<GrammarDocInput>, ParseError>|
                #[trigger] grammar_json_result(content@, pr) && match pr {
                    Err(e) => r == Err::<Vec<GrammarDocInput>, ParseError>(e),
                    Ok(v) => r matches Ok(w) && inputs_view(w@) == inputs_view(v@),
                }
        },
{
    let trimmed = trim_start_str(content);
    if starts_with_text(trimmed.as_str(), "---") || starts_with_text(trimmed.as_str(), "# ") {
        let parsed = parse_grammar_md(content);
        let ghost pr = parsed;
        let r = match parsed {
            Ok(doc) => {
                let ghost dv = doc@;
                let mut v: Vec<GrammarDocInput> = Vec::new();
                v.push(doc);
                assert(inputs_view(v@) =~= seq![dv]);
                Ok(v)
            },
            Err(e) => Err(e),
        };
        assert(grammar_md_result(content@, pr));
        r
    } else {
        let parsed = parse_grammar_json(content);
        let ghost pr = parsed;
        assert(grammar_json_result(content@, pr));
        parsed
    }
}

/// Imports grammar documents from a Markdown file or a JSON array as of
/// one reading of the clock: each document read goes to the group of its
/// category (created when missing) and is added to it, in order; every
/// document read is either stored and counted or named in an error with the
/// reason. A text that cannot be read gives its one parse error and stores
/// nothing, without reading the clock; where the clock cannot be read,
/// every document is named with that error and nothing is stored.
pub fn import_grammar(repo: &mut GrammarRepository, content: &str) -> (r: GrammarImportResultDto)
    requires
        old(repo).wf(),
    ensures
        final(repo).wf(),
        (exists|now: Seq<char>|
            #[trigger] grammar_import_outcome(old(repo)@, content@, now, final(repo)@, r) && (grammar_readable(
                content@,
            ) ==> clock_text(now))) || (grammar_readable(content@) && clock_refused(
            content@,
            old(repo)@,
            final(repo)@,
            r,
        )),
{
    let docs = match read_grammar(content) {
        Err(e) => {
            let mut errors: Vec<String> = Vec::new();
            errors.push(e.to_string());
            assert(strs(errors@) =~= seq![parse_error_message(e)]);
            let r = GrammarImportResultDto { imported_count: 0, errors };
            proof {
                if grammar_readable(content@) {
                    let ds = choose|ds: Seq<GrammarInputView>| #[trigger] grammar_docs_read(content@, ds);
                    assert(false);
                }
            }
            assert(grammar_import_outcome(old(repo)@, content@, Seq::empty(), repo@, r));
            return r;
        },
        Ok(docs) => docs,
    };
    assert(grammar_docs_read(content@, inputs_view(docs@)));
    match now_text() {
        Ok(now) => {
            let r = import_docs_at(repo, &docs, now.as_str());
            assert(grammar_import_outcome(old(repo)@, content@, now@, repo@, r));
            r
        },
        Err(_) => {
            let mut errors: Vec<String> = Vec::new();
            let mut i: usize = 0;
            let ghost want = inputs_view(docs@).map_values(
                |d: GrammarInputView| d.title + ": "@ + ("database error: "@ + clock_range_message()),
            );
            while i < docs.len()
                invariant
                    i <= docs.len(),
                    want.len() == docs.len(),
                    want == inputs_view(docs@).map_values(
                        |d: GrammarInputView| d.title + ": "@ + ("database error: "@ + clock_range_message()),
                    ),
                    strs(errors@) == want.take(i as int),
                decreases docs.len() - i,
            {
                let e = DbError::Storage("current time out of range".to_owned());
                let m = import_error(docs[i].title.as_str(), &e);
                assert(m@ == want[i as int]);
                errors.push(m);
                assert(want.take(i + 1) =~= want.take(i as int).push(want[i as int]));
                assert(strs(errors@) =~= want.take(i + 1));
                i += 1;
            }
            assert(want.take(i as int) =~= want);
            let r = GrammarImportResultDto { imported_count: 0, errors };
            assert(clock_refused(content@, old(repo)@, repo@, r));
            r
        },
    }
}

/// The error reported for a document that could not be stored: its title,
/// then the reason.
fn import_error(title: &str, e: &DbError) -> (r: String)
    ensures
        r@ == title@ + ": "@ + db_error_message(*e),
{
    let mut m = concat(title, ": ");
    let reason = e.to_string();
    m.append(reason.as_str());
    m
}

// ----- commands -----

/// What the library page lists: every word ordered by word, only those of
/// the requested collection or topic when one is given.
pub open spec fn list_words_options(payload: Option<ListWordsRequest>) -> QueryOptions {
    QueryOptions {
        sort: Some(SortBy::Word),
        limit: None,
        tag_filter: None,
        collection_id: match payload {
            Some(p) => p.collection_id,
            None => None,
        },
        topic_id: match payload {
            Some(p) => p.topic_id,
            None => None,
        },
    }
}

pub open spec fn word_summaries_view(v: Seq<WordSummaryDto>) -> Seq<WordSummaryView> {
    v.map_values(|s: WordSummaryDto| s@)
}

/// Lists the library (see `list_words_options`), each word as the listing
/// shows it; a failure is reported as its text.
pub fn list_words(repo: &WordRepository, payload: Option<ListWordsRequest>) -> (r: Result<Vec<WordSummaryDto>, String>)
    ensures
        exists|g: Result<Vec<WordRecord>, DbError>|
            #[trigger] query_outcome(repo@, list_words_options(payload), g) && match g {
                Ok(v) => r matches Ok(s) && word_summaries_view(s@) == words_view(v@).map_values(
                    |w: WordView| word_summary_view(w),
                ),
                Err(e) => r matches Err(m) && m@ == db_error_message(e),
            },
{
    let (collection_id, topic_id) = match &payload {
        Some(p) => (p.collection_id, p.topic_id),
        None => (None, None),
    };
    let options = QueryOptions { sort: Some(SortBy::Word), limit: None, tag_filter: None, collection_id, topic_id };
    assert(options == list_words_options(payload));
    let g = repo.query(&options);
    let ghost gg = g;
    let records = match g {
        Ok(v) => v,
        Err(e) => return Err(e.to_string()),
    };
    let mut out: Vec<WordSummaryDto> = Vec::new();
    let mut i: usize = 0;
    while i < records.len()
        invariant
            i <= records.len(),
            out.len() == i,
            forall|j: int| 0 <= j < i ==> #[trigger] out@[j]@ == word_summary_view(records@[j]@),
        decreases records.len() - i,
    {
        out.push(word_summary(records[i].copy()));
        i += 1;
    }
    assert(word_summaries_view(out@) =~= words_view(records@).map_values(|w: WordView| word_summary_view(w)));
    assert(query_outcome(repo@, list_words_options(payload), gg));
    Ok(out)
}

/// What a question request is answered with, given what the library gave.
pub open spec fn question_reply(g: Result<Option<Question>, DbError>, r: Result<Option<QuestionDto>, String>) -> bool {
    match g {
        Ok(None) => r matches Ok(None),
        Ok(Some(q)) => r matches Ok(Some(d)) && d@ == question_dto_of(q@),
        Err(e) => r matches Err(m) && m@ == db_error_message(e),
    }
}

/// What the library may give for a question in `mode`: a question as
/// `generate_outcome` says at some time and coin, or the clock's failure.
pub open spec fn question_generated(
    s: StoreView,
    mode: TestMode,
    options: TestingOptions,
    g: Result<Option<Question>, DbError>,
) -> bool {
    ||| exists|now: Seq<char>, coin: bool| clock_text(now) && #[trigger] generate_outcome(s, mode, options, now, coin, g)
    ||| g matches Err(DbError::Storage(m)) && m@ == clock_range_message()
}

/// Answers a question request: the mode by name (see `mode_named`), then a
/// question about the next word, in the interface's shape.
pub fn next_question(repo: &WordRepository, payload: &NextQuestionRequest) -> (r: Result<Option<QuestionDto>, String>)
    ensures
        match mode_named(payload.mode@) {
            Err(m) => r matches Err(x) && x@ == m,
            Ok(mode) => exists|g: Result<Option<Question>, DbError>|
                #[trigger] question_generated(
                    repo@,
                    mode,
                    TestingOptions { srs_enabled: payload.srs_enabled, topic_id: payload.topic_id },
                    g,
                ) && question_reply(g, r),
        },
{
    let mode = match parse_mode(payload.mode.as_str()) {
        Ok(m) => m,
        Err(e) => return Err(e),
    };
    let options = TestingOptions { srs_enabled: payload.srs_enabled, topic_id: payload.topic_id };
    let g = TestingEngine::generate_question_with_options(repo, mode, options);
    let ghost gg = g;
    let r = match g {
        Ok(None) => Ok(None),
        Ok(Some(q)) => Ok(Some(from_question(q))),
        Err(e) => Err(e.to_string()),
    };
    assert(question_generated(repo@, mode, options, gg) && question_reply(gg, r));
    r
}

/// What the library may give for an answer: a grade as `submit_outcome`
/// says at some time, or the clock's failure with nothing changed.
pub open spec fn answer_submitted(
    s: StoreView,
    q: QuestionView,
    answer: Seq<char>,
    srs_enabled: bool,
    s2: StoreView,
    g: Result<AnswerResult, DbError>,
) -> bool {
    ||| exists|now: Timestamp| 0 <= now.secs && now.nanos < 1_000_000_000 && #[trigger] submit_outcome(s, q, answer, srs_enabled, now, s2, g)
    ||| g matches Err(DbError::Storage(m)) && m@ == clock_range_message() && s2 == s
}

/// What an answer is answered with, given what the library gave.
pub open spec fn answer_reply(g: Result<AnswerResult, DbError>, r: Result<AnswerResultDto, String>) -> bool {
    match g {
        Ok(a) => r matches Ok(d) && d.correct == a.correct && d.normalized_answer@ == a.normalized_answer@ && strs(
            d.accepted_answers@,
        ) == strs(a.accepted_answers@),
        Err(e) => r matches Err(m) && m@ == db_error_message(e),
    }
}

/// Grades an answer to a question handed out before: the question must
/// come back with a known direction; the answer is then graded and
/// recorded, and the word rescheduled when spaced repetition is on.
pub fn submit_answer(repo: &mut WordRepository, payload: &SubmitAnswerRequest) -> (r: Result<AnswerResultDto, String>)
    requires
        old(repo).wf(),
    ensures
        final(repo).wf(),
        match question_of_dto(payload.question@) {
            Err(m) => r matches Err(x) && x@ == m && final(repo)@ == old(repo)@,
            Ok(q) => exists|g: Result<AnswerResult, DbError>|
                #[trigger] answer_submitted(old(repo)@, q, payload.answer@, payload.srs_enabled, final(repo)@, g)
                    && answer_reply(g, r),
        },
{
    let question = match to_question(&payload.question) {
        Ok(q) => q,
        Err(e) => return Err(e),
    };
    let g = VocabularyService::submit_answer_with_srs(repo, &question, payload.answer.as_str(), payload.srs_enabled);
    let ghost gg = g;
    let r = match g {
        Ok(a) => Ok(
            AnswerResultDto {
                correct: a.correct,
                normalized_answer: a.normalized_answer,
                accepted_answers: a.accepted_answers,
            },
        ),
        Err(e) => Err(e.to_string()),
    };
    assert(answer_submitted(old(repo)@, question@, payload.answer@, payload.srs_enabled, repo@, gg) && answer_reply(gg, r));
    r
}

/// What the library may give for a vocabulary import: a report as
/// `json_import_outcome` says at some time, or, for text that reads as a
/// bundle of valid records, the clock's failure with nothing changed.
pub open spec fn vocabulary_imported(
    s: StoreView,
    text: Seq<char>,
    collection: Option<Seq<char>>,
    topic: Option<Seq<char>>,
    s2: StoreView,
    g: Result<ImportReport, DbError>,
) -> bool {
    ||| exists|now: Seq<char>| (json_readable(text) ==> clock_text(now)) && #[trigger] json_import_outcome(s, text, collection, topic, now, s2, g)
    ||| json_readable(text) && (g matches Err(DbError::Storage(m)) && m@ == clock_range_message() && s2 == s)
}

fn opt_as_str(o: &Option<String>) -> (r: Option<&str>)
    ensures
        opt_chars(r) == opt_str(*o),
{
    match o {
        Some(s) => Some(s.as_str()),
        None => None,
    }
}

/// Imports vocabulary JSON into the requested collection and topic; the
/// report gives the three counts (see `import_report_dto`).
pub fn import_vocabulary(repo: &mut WordRepository, payload: &ImportVocabularyRequest) -> (r: Result<ImportReportDto, String>)
    requires
        old(repo).wf(),
    ensures
        final(repo).wf(),
        exists|g: Result<ImportReport, DbError>|
            #[trigger] vocabulary_imported(
                old(repo)@,
                payload.content@,
                opt_str(payload.collection_name),
                opt_str(payload.topic_name),
                final(repo)@,
                g,
            ) && match g {
                Ok(rep) => r matches Ok(d) && d.inserted_count == rep.inserted_count && d.updated_count
                    == rep.updated_count && d.skipped_count == rep.skipped_count && d.error_count == 0
                    && d.errors.len() == 0,
                Err(e) => r matches Err(m) && m@ == db_error_message(e),
            },
{
    let g = VocabularyService::import_json_scoped(
        repo,
        payload.content.as_str(),
        opt_as_str(&payload.collection_name),
        opt_as_str(&payload.topic_name),
    );
    let ghost gg = g;
    let r = match &g {
        Ok(rep) => Ok(import_report_dto(rep)),
        Err(e) => Err(e.to_string()),
    };
    assert(vocabulary_imported(
        old(repo)@,
        payload.content@,
        opt_str(payload.collection_name),
        opt_str(payload.topic_name),
        repo@,
        gg,
    ));
    r
}

pub open spec fn doc_dtos_view(v: Seq<GrammarDocDto>) -> Seq<DocSummaryView> {
    v.map_values(|d: GrammarDocDto| d@)
}

pub open spec fn group_dtos_view(v: Seq<GrammarGroupDto>) -> Seq<GroupSummaryView> {
    v.map_values(|g: GrammarGroupDto| g@)
}

/// Every grammar document, newest first, as the interface lists them.
pub fn list_grammar_docs(repo: &GrammarRepository) -> (r: Result<Vec<GrammarDocDto>, String>)
    ensures
        r matches Ok(v) && exists|ps: Seq<usize>|
            listed_newest_first(repo@.docs, ps) && doc_dtos_view(v@) == ps.map_values(
                |p: usize| doc_summary_of(repo@.docs[p as int], repo@.exercises),
            ),
{
    let docs = match repo.list_docs() {
        Ok(v) => v,
        Err(e) => return Err(e.to_string()),
    };
    let ghost want = doc_summaries_view(docs@);
    let mut out: Vec<GrammarDocDto> = Vec::new();
    let n = docs.len();
    let mut k: usize = 0;
    while k < n
        invariant
            k <= n,
            n == want.len(),
            docs.len() == n,
            doc_summaries_view(docs@) == want,
            out.len() == k,
            forall|j: int| 0 <= j < k ==> #[trigger] out@[j]@ == want[j],
        decreases n - k,
    {
        let d = GrammarDocSummary {
            id: docs[k].id,
            title: docs[k].title.clone(),
            category: copy_opt(&docs[k].category),
            level: copy_opt(&docs[k].level),
            exercise_count: docs[k].exercise_count,
            group_id: docs[k].group_id,
            created_at: docs[k].created_at.clone(),
        };
        assert(d@ == want[k as int]);
        out.push(grammar_doc_dto(d));
        k += 1;
    }
    assert(doc_dtos_view(out@) =~= want);
    Ok(out)
}

/// Every grammar group, by name, as the interface lists them.
pub fn list_grammar_groups(repo: &GrammarRepository) -> (r: Result<Vec<GrammarGroupDto>, String>)
    requires
        repo.wf(),
    ensures
        r matches Ok(v) && exists|ps: Seq<usize>|
            arranged_by_name(group_names(repo@.groups), positions_below(repo@.groups.len()), ps)
                && group_dtos_view(v@) == ps.map_values(
                |p: usize| group_summary_of(repo@.groups[p as int], repo@.docs),
            ),
{
    let groups = match repo.list_groups() {
        Ok(v) => v,
        Err(e) => return Err(e.to_string()),
    };
    let ghost want = group_summaries_view(groups@);
    let n = groups.len();
    let mut out: Vec<GrammarGroupDto> = Vec::new();
    let mut k: usize = 0;
    while k < n
        invariant
            k <= n,
            n == want.len(),
            groups.len() == n,
            group_summaries_view(groups@) == want,
            out.len() == k,
            forall|j: int| 0 <= j < k ==> #[trigger] out@[j]@ == want[j],
        decreases n - k,
    {
        let g = GrammarGroupSummary {
            id: groups[k].id,
            name: groups[k].name.clone(),
            description: copy_opt(&groups[k].description),
            sort_order: groups[k].sort_order,
            doc_count: groups[k].doc_count,
            created_at: groups[k].created_at.clone(),
        };
        assert(g@ == want[k as int]);
        out.push(grammar_group_dto(g));
        k += 1;
    }
    assert(group_dtos_view(out@) =~= want);
    Ok(out)
}

/// The grammar document `id` with its exercises, as the interface shows it.
pub fn get_grammar_doc(repo: &GrammarRepository, id: i64) -> (r: Result<Option<GrammarDocDetailDto>, String>)
    requires
        repo.wf(),
    ensures
        r matches Ok(o) && match o {
            None => !has_doc(repo@.docs, id),
            Some(d) => has_doc(repo@.docs, id) && ({
                let doc = repo@.docs[doc_at(repo@.docs, id)];
                let exs = exercises_of(repo@.exercises, id);
                &&& d.id == doc.id
                &&& d.title@ == doc.title
                &&& opt_str(d.category) == doc.category
                &&& opt_str(d.level) == doc.level
                &&& d.content@ == doc.content
                &&& strs(d.examples@) == doc.examples
                &&& d.group_id == doc.group_id
                &&& d.created_at@ == doc.created_at
                &&& d.exercises.len() == exs.len()
                &&& forall|i: int|
                    #![trigger d.exercises@[i]]
                    0 <= i < exs.len() ==> d.exercises@[i].id == exs[i].id && d.exercises@[i].exercise_type@
                        == exs[i].exercise_type && d.exercises@[i].data@ == exs[i].data
            }),
        },
{
    let detail = match repo.get_doc_with_exercises(id) {
        Ok(Some(d)) => d,
        Ok(None) => return Ok(None),
        Err(e) => return Err(e.to_string()),
    };
    let ghost dv = detail.doc@;
    let ghost ev = exercises_view(detail.exercises@);
    let dto = grammar_detail_dto(detail);
    proof {
        assert forall|i: int| #![trigger dto.exercises@[i]] 0 <= i < ev.len() implies dto.exercises@[i].id == ev[i].id
            && dto.exercises@[i].exercise_type@ == ev[i].exercise_type && dto.exercises@[i].data@ == ev[i].data by {}
    }
    Ok(Some(dto))
}

/// Creates a grammar group as of the current time (see
/// `create_group_outcome`); it holds no document yet.
pub fn create_grammar_group(repo: &mut GrammarRepository, payload: &CreateGrammarGroupRequest) -> (r: Result<GrammarGroupDto, String>)
    requires
        old(repo).wf(),
    ensures
        final(repo).wf(),
        exists|g: Result<GrammarGroup, DbError>|
            #[trigger] group_created(old(repo)@, payload.name@, opt_str(payload.description), final(repo)@, g) && match g {
                Ok(x) => r matches Ok(d) && d@ == group_summary_of(x@, Seq::empty()),
                Err(e) => r matches Err(m) && m@ == db_error_message(e),
            },
{
    let g = repo.create_group(payload.name.as_str(), opt_as_str(&payload.description));
    let ghost gg = g;
    let r = match g {
        Ok(x) => Ok(
            GrammarGroupDto {
                id: x.id,
                name: x.name,
                description: x.description,
                sort_order: x.sort_order,
                doc_count: 0,
                created_at: x.created_at,
            },
        ),
        Err(e) => Err(e.to_string()),
    };
    assert(group_created(old(repo)@, payload.name@, opt_str(payload.description), repo@, gg));
    r
}

/// What the library may give for a new group: a group as
/// `create_group_outcome` says at some time, or the clock's failure with
/// nothing changed.
pub open spec fn group_created(
    s: GrammarStoreView,
    name: Seq<char>,
    description: Option<Seq<char>>,
    s2: GrammarStoreView,
    g: Result<GrammarGroup, DbError>,
) -> bool {
    ||| exists|now: Seq<char>| (trim(name).len() != 0 ==> clock_text(now)) && #[trigger] create_group_outcome(s, name, description, now, s2, g)
    ||| trim(name).len() != 0 && s2 == s && (g matches Err(DbError::Storage(m)) && m@ == clock_range_message())
}

/// A description in a request: a new description when one is given, else
/// no change.
pub open spec fn description_change(o: Option<Seq<char>>) -> Option<Option<Seq<char>>> {
    match o {
        Some(d) => Some(Some(d)),
        None => None,
    }
}

/// Renames and redescribes a grammar group: a name or description that is
/// absent from the request stays as it is.
pub fn update_grammar_group(repo: &mut GrammarRepository, payload: &UpdateGrammarGroupRequest) -> (r: Result<(), String>)
    requires
        old(repo).wf(),
    ensures
        final(repo).wf(),
        exists|g: Result<(), DbError>|
            #[trigger] update_group_outcome(
                old(repo)@,
                payload.id,
                opt_str(payload.name),
                description_change(opt_str(payload.description)),
                final(repo)@,
                g,
            ) && match g {
                Ok(()) => r is Ok,
                Err(e) => r matches Err(m) && m@ == db_error_message(e),
            },
{
    let description: Option<Option<&str>> = match &payload.description {
        Some(d) => Some(Some(d.as_str())),
        None => None,
    };
    let g = repo.update_group(payload.id, opt_as_str(&payload.name), description);
    match g {
        Ok(()) => Ok(()),
        Err(e) => Err(e.to_string()),
    }
}

// ----- library: words, collections, topics -----

/// What a command answers for a result of the store that carries nothing:
/// nothing on success, the error's text on failure.
pub open spec fn unit_reply(g: Result<(), DbError>, r: Result<(), String>) -> bool {
    match g {
        Ok(()) => r is Ok,
        Err(e) => r matches Err(m) && m@ == db_error_message(e),
    }
}

/// Removes the word under `word_key` (see
/// `WordRepository::delete_by_word_key`); an unknown key changes nothing.
pub fn delete_word(repo: &mut WordRepository, word_key: String) -> (r: Result<(), String>)
    requires
        old(repo).wf(),
    ensures
        final(repo).wf(),
        r is Ok,
        match word_index(old(repo)@, word_key@) {
            None => final(repo)@ == old(repo)@,
            Some(i) => final(repo)@ == (StoreView { words: old(repo)@.words.remove(i), ..old(repo)@ }),
        },
{
    match repo.delete_by_word_key(word_key.as_str()) {
        Ok(()) => Ok(()),
        Err(e) => Err(e.to_string()),
    }
}

pub open spec fn collection_dtos_view(v: Seq<CollectionDto>) -> Seq<CollectionView> {
    v.map_values(|c: CollectionDto| c@)
}

pub open spec fn topic_dtos_view(v: Seq<TopicDto>) -> Seq<TopicView> {
    v.map_values(|t: TopicDto| t@)
}

/// Every collection, ordered by name, as the interface lists them.
pub fn list_collections(repo: &WordRepository) -> (r: Result<Vec<CollectionDto>, String>)
    ensures
        r matches Ok(v) && exists|ps: Seq<usize>|
            arranged_by_name(collection_names(repo@.collections), positions_below(repo@.collections.len()), ps)
                && collection_dtos_view(v@) == ps.map_values(|p: usize| repo@.collections[p as int]),
{
    let cols = match repo.list_collections() {
        Ok(v) => v,
        Err(e) => return Err(e.to_string()),
    };
    let ghost want = collections_view(cols@);
    let n = cols.len();
    let mut out: Vec<CollectionDto> = Vec::new();
    let mut k: usize = 0;
    while k < n
        invariant
            k <= n,
            n == want.len(),
            cols.len() == n,
            collections_view(cols@) == want,
            out.len() == k,
            forall|j: int| 0 <= j < k ==> #[trigger] out@[j]@ == want[j],
        decreases n - k,
    {
        let c = Collection {
            id: cols[k].id,
            name: cols[k].name.clone(),
            description: copy_opt(&cols[k].description),
            created_at: cols[k].created_at.clone(),
        };
        assert(c@ == want[k as int]);
        out.push(from_collection(c));
        k += 1;
    }
    assert(collection_dtos_view(out@) =~= want);
    Ok(out)
}

/// What the store may give for a new collection: one as
/// `create_collection_outcome` says at some time, or the clock's failure
/// with nothing changed.
pub open spec fn collection_created(
    s: StoreView,
    name: Seq<char>,
    description: Option<Seq<char>>,
    s2: StoreView,
    g: Result<Collection, DbError>,
) -> bool {
    ||| exists|now: Seq<char>| clock_text(now) && #[trigger] create_collection_outcome(s, name, description, now, s2, g)
    ||| (g matches Err(DbError::Storage(m)) && m@ == clock_range_message() && s2 == s)
}

/// Creates a collection as of the current time (see
/// `WordRepository::create_collection`).
pub fn create_collection(repo: &mut WordRepository, payload: &CreateCollectionRequest) -> (r: Result<CollectionDto, String>)
    requires
        old(repo).wf(),
    ensures
        final(repo).wf(),
        exists|g: Result<Collection, DbError>|
            #[trigger] collection_created(old(repo)@, payload.name@, opt_str(payload.description), final(repo)@, g)
                && match g {
                Ok(c) => r matches Ok(d) && d@ == c@,
                Err(e) => r matches Err(m) && m@ == db_error_message(e),
            },
{
    let g = repo.create_collection(payload.name.as_str(), opt_as_str(&payload.description));
    let ghost gg = g;
    assert(collection_created(old(repo)@, payload.name@, opt_str(payload.description), repo@, gg));
    match g {
        Ok(c) => Ok(from_collection(c)),
        Err(e) => Err(e.to_string()),
    }
}

/// Renames and redescribes the collection `payload.id` (see
/// `WordRepository::update_collection`).
pub fn update_collection(repo: &mut WordRepository, payload: &UpdateCollectionRequest) -> (r: Result<(), String>)
    requires
        old(repo).wf(),
    ensures
        final(repo).wf(),
        (forall|j: int| 0 <= j < old(repo)@.collections.len() ==> #[trigger] old(repo)@.collections[j].id != payload.id)
            ==> r is Ok && final(repo)@ == old(repo)@,
        forall|i: int| 0 <= i < old(repo)@.collections.len() && #[trigger] old(repo)@.collections[i].id == payload.id
            ==> if exists|j: int|
            0 <= j < old(repo)@.collections.len() && j != i && #[trigger] old(repo)@.collections[j].name
                == payload.name@ {
            r matches Err(m) && m@ == "database error: "@ + collection_name_taken_message() && final(repo)@
                == old(repo)@
        } else {
            r is Ok && final(repo)@ == StoreView {
                collections: old(repo)@.collections.update(
                    i,
                    CollectionView {
                        name: payload.name@,
                        description: opt_str(payload.description),
                        ..old(repo)@.collections[i]
                    },
                ),
                ..old(repo)@
            }
        },
{
    let g = repo.update_collection(payload.id, payload.name.as_str(), opt_as_str(&payload.description));
    match g {
        Ok(()) => Ok(()),
        Err(e) => Err(e.to_string()),
    }
}

/// Removes the collection `id` with its topics (see
/// `WordRepository::delete_collection`).
pub fn delete_collection(repo: &mut WordRepository, id: i64) -> (r: Result<(), String>)
    requires
        old(repo).wf(),
    ensures
        final(repo).wf(),
        r is Ok,
        final(repo)@ == (StoreView {
            words: without_topics(old(repo)@.words, topic_ids_of(old(repo)@, id)),
            collections: old(repo)@.collections.filter(|c: CollectionView| c.id != id),
            topics: old(repo)@.topics.filter(|t: TopicView| t.collection_id != id),
            ..old(repo)@
        }),
{
    match repo.delete_collection(id) {
        Ok(()) => Ok(()),
        Err(e) => Err(e.to_string()),
    }
}

/// The topics of collection `collection_id`, ordered by name, as the
/// interface lists them.
pub fn list_topics(repo: &WordRepository, collection_id: i64) -> (r: Result<Vec<TopicDto>, String>)
    ensures
        r matches Ok(v) && exists|ps: Seq<usize>|
            arranged_by_name(topic_names(repo@.topics), topics_of_collection(repo@.topics, collection_id), ps)
                && topic_dtos_view(v@) == ps.map_values(|p: usize| repo@.topics[p as int]),
{
    let topics = match repo.list_topics(collection_id) {
        Ok(v) => v,
        Err(e) => return Err(e.to_string()),
    };
    let ghost want = topics_view(topics@);
    let n = topics.len();
    let mut out: Vec<TopicDto> = Vec::new();
    let mut k: usize = 0;
    while k < n
        invariant
            k <= n,
            n == want.len(),
            topics.len() == n,
            topics_view(topics@) == want,
            out.len() == k,
            forall|j: int| 0 <= j < k ==> #[trigger] out@[j]@ == want[j],
        decreases n - k,
    {
        let t = Topic {
            id: topics[k].id,
            collection_id: topics[k].collection_id,
            name: topics[k].name.clone(),
            description: copy_opt(&topics[k].description),
        };
        assert(t@ == want[k as int]);
        out.push(from_topic(t));
        k += 1;
    }
    assert(topic_dtos_view(out@) =~= want);
    Ok(out)
}

/// Creates a topic in a collection (see `create_topic_outcome`).
pub fn create_topic(repo: &mut WordRepository, payload: &CreateTopicRequest) -> (r: Result<TopicDto, String>)
    requires
        old(repo).wf(),
    ensures
        final(repo).wf(),
        exists|g: Result<Topic, DbError>|
            #[trigger] create_topic_outcome(
                old(repo)@,
                payload.collection_id,
                payload.name@,
                opt_str(payload.description),
                final(repo)@,
                g,
            ) && match g {
                Ok(t) => r matches Ok(d) && d@ == t@,
                Err(e) => r matches Err(m) && m@ == db_error_message(e),
            },
{
    let g = repo.create_topic(payload.collection_id, payload.name.as_str(), opt_as_str(&payload.description));
    let ghost gg = g;
    assert(create_topic_outcome(
        old(repo)@,
        payload.collection_id,
        payload.name@,
        opt_str(payload.description),
        repo@,
        gg,
    ));
    match g {
        Ok(t) => Ok(from_topic(t)),
        Err(e) => Err(e.to_string()),
    }
}

/// Renames and redescribes the topic `payload.id` (see
/// `WordRepository::update_topic`).
pub fn update_topic(repo: &mut WordRepository, payload: &UpdateTopicRequest) -> (r: Result<(), String>)
    requires
        old(repo).wf(),
    ensures
        final(repo).wf(),
        !topic_exists(old(repo)@, payload.id) ==> r is Ok && final(repo)@ == old(repo)@,
        forall|i: int| 0 <= i < old(repo)@.topics.len() && #[trigger] old(repo)@.topics[i].id == payload.id
            ==> if exists|j: int|
            0 <= j < old(repo)@.topics.len() && j != i && #[trigger] old(repo)@.topics[j].collection_id
                == old(repo)@.topics[i].collection_id && old(repo)@.topics[j].name == payload.name@ {
            r matches Err(m) && m@ == "database error: "@ + topic_name_taken_message() && final(repo)@ == old(repo)@
        } else {
            r is Ok && final(repo)@ == (StoreView {
                topics: old(repo)@.topics.update(
                    i,
                    TopicView { name: payload.name@, description: opt_str(payload.description), ..old(repo)@.topics[i] },
                ),
                ..old(repo)@
            })
        },
{
    let g = repo.update_topic(payload.id, payload.name.as_str(), opt_as_str(&payload.description));
    match g {
        Ok(()) => Ok(()),
        Err(e) => Err(e.to_string()),
    }
}

/// Removes the topic `id` and every word's membership in it (see
/// `WordRepository::delete_topic`).
pub fn delete_topic(repo: &mut WordRepository, id: i64) -> (r: Result<(), String>)
    requires
        old(repo).wf(),
    ensures
        final(repo).wf(),
        r is Ok,
        final(repo)@ == (StoreView {
            words: if topic_exists(old(repo)@, id) {
                without_topics(old(repo)@.words, set![id])
            } else {
                old(repo)@.words
            },
            topics: old(repo)@.topics.filter(|t: TopicView| t.id != id),
            ..old(repo)@
        }),
{
    match repo.delete_topic(id) {
        Ok(()) => Ok(()),
        Err(e) => Err(e.to_string()),
    }
}

/// Puts a word in a topic (see `assign_outcome`).
pub fn assign_word_to_topic(repo: &mut WordRepository, payload: &AssignWordToTopicRequest) -> (r: Result<(), String>)
    requires
        old(repo).wf(),
    ensures
        final(repo).wf(),
        exists|g: Result<(), DbError>|
            #[trigger] assign_outcome(old(repo)@, payload.word_key@, payload.topic_id, final(repo)@, g) && unit_reply(g, r),
{
    let g = repo.assign_word_to_topic(payload.word_key.as_str(), payload.topic_id);
    let ghost gg = g;
    let r = match g {
        Ok(()) => Ok(()),
        Err(e) => Err(e.to_string()),
    };
    assert(assign_outcome(old(repo)@, payload.word_key@, payload.topic_id, repo@, gg) && unit_reply(gg, r));
    r
}

// ----- grammar: removing and moving -----

/// Removes the grammar group `id`; its documents stay, in no group.
pub fn delete_grammar_group(repo: &mut GrammarRepository, id: i64) -> (r: Result<(), String>)
    requires
        old(repo).wf(),
    ensures
        final(repo).wf(),
        r is Ok,
        delete_group_outcome(old(repo)@, id, final(repo)@),
{
    match repo.delete_group(id) {
        Ok(()) => Ok(()),
        Err(e) => Err(e.to_string()),
    }
}

/// Puts a grammar document in a group, or in none (see `move_doc_outcome`).
pub fn move_grammar_doc(repo: &mut GrammarRepository, payload: &MoveGrammarDocRequest) -> (r: Result<(), String>)
    requires
        old(repo).wf(),
    ensures
        final(repo).wf(),
        exists|g: Result<(), DbError>|
            #[trigger] move_doc_outcome(old(repo)@, payload.doc_id, payload.group_id, final(repo)@, g) && unit_reply(g, r),
{
    let g = repo.move_doc(payload.doc_id, payload.group_id);
    let ghost gg = g;
    let r = match g {
        Ok(()) => Ok(()),
        Err(e) => Err(e.to_string()),
    };
    assert(move_doc_outcome(old(repo)@, payload.doc_id, payload.group_id, repo@, gg) && unit_reply(gg, r));
    r
}

/// Removes the grammar document `id` with its exercises.
pub fn delete_grammar_doc(repo: &mut GrammarRepository, id: i64) -> (r: Result<(), String>)
    requires
        old(repo).wf(),
    ensures
        final(repo).wf(),
        r is Ok,
        delete_doc_outcome(old(repo)@, id, final(repo)@),
{
    match repo.delete_doc(id) {
        Ok(()) => Ok(()),
        Err(e) => Err(e.to_string()),
    }
}

} // verus!
