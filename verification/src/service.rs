//! One entry point for the application: import, export and testing.
use vstd::prelude::*;
use crate::clock::{clock_range_message, Timestamp};
use crate::db::DbError;
use crate::export::{csv_export_outcome, export_outcome};
use crate::import::{csv_import_outcome, csv_readable, json_import_outcome, json_readable, opt_chars};
use crate::testing::{generate_outcome, submit_outcome};
use crate::repository::clock_text;

pub use crate::export::ExportService;
pub use crate::import::{ImportReport, ImportRowResult, ImportService, ImportStatus};
pub use crate::testing::{AnswerResult, Question, TestMode, TestingEngine, TestingOptions};

verus! {

/// The application's operations on a repository.
pub struct VocabularyService;

impl VocabularyService {
    /// Imports JSON text (see `ImportService::import_from_json_string`).
    pub fn import_json(repo: &mut crate::repository::WordRepository, json_str: &str) -> (r: Result<ImportReport, DbError>)
        requires
            old(repo).wf(),
        ensures
            final(repo).wf(),
            (exists|now: Seq<char>|
                (json_readable(json_str@) ==> clock_text(now)) && #[trigger] json_import_outcome(old(repo)@, json_str@, None, None, now, final(repo)@, r))
                || (json_readable(json_str@) && (r matches Err(DbError::Storage(m)) && m@ == clock_range_message()
                && final(repo)@ == old(repo)@)),
    {
        ImportService::import_from_json_string(repo, json_str)
    }

    /// Imports JSON text into a collection and topic (see
    /// `ImportService::import_from_json_string_scoped`).
    pub fn import_json_scoped(
        repo: &mut crate::repository::WordRepository,
        json_str: &str,
        collection_name: Option<&str>,
        topic_name: Option<&str>,
    ) -> (r: Result<ImportReport, DbError>)
        requires
            old(repo).wf(),
        ensures
            final(repo).wf(),
            (exists|now: Seq<char>|
                (json_readable(json_str@) ==> clock_text(now)) && #[trigger] json_import_outcome(
                    old(repo)@,
                    json_str@,
                    opt_chars(collection_name),
                    opt_chars(topic_name),
                    now,
                    final(repo)@,
                    r,
                )) || (json_readable(json_str@) && (r matches Err(DbError::Storage(m)) && m@ == clock_range_message()
                && final(repo)@ == old(repo)@)),
    {
        ImportService::import_from_json_string_scoped(repo, json_str, collection_name, topic_name)
    }

    /// Imports CSV text (see `ImportService::import_from_csv_string`).
    pub fn import_csv(repo: &mut crate::repository::WordRepository, csv_str: &str) -> (r: Result<ImportReport, DbError>)
        requires
            old(repo).wf(),
        ensures
            final(repo).wf(),
            (exists|now: Seq<char>| (csv_readable(csv_str@) ==> clock_text(now)) && #[trigger] csv_import_outcome(old(repo)@, csv_str@, now, final(repo)@, r))
                || (csv_readable(csv_str@) && (r matches Err(DbError::Storage(m)) && m@ == clock_range_message()
                && final(repo)@ == old(repo)@)),
    {
        ImportService::import_from_csv_string(repo, csv_str)
    }

    /// Every word as pretty-printed JSON (see `export_outcome`).
    pub fn export_json(repo: &crate::repository::WordRepository) -> (r: Result<String, DbError>)
        ensures
            export_outcome(repo@, r),
    {
        ExportService::export_to_json_string(repo)
    }

    /// Every word as CSV text, one row per definition (see
    /// `csv_export_outcome`).
    pub fn export_csv(repo: &crate::repository::WordRepository) -> (r: Result<String, DbError>)
        ensures
            csv_export_outcome(repo@, r),
    {
        ExportService::export_to_csv_string(repo)
    }

    /// A question in mode `mode` about a word chosen by the clock.
    pub fn next_question(repo: &crate::repository::WordRepository, mode: TestMode) -> (r: Result<Option<Question>, DbError>)
        ensures
            (exists|now: Seq<char>, coin: bool|
                clock_text(now) && #[trigger] generate_outcome(repo@, mode, TestingOptions { srs_enabled: false, topic_id: None }, now, coin, r))
                || (r matches Err(DbError::Storage(m)) && m@ == clock_range_message()),
    {
        TestingEngine::generate_question(repo, mode)
    }

    /// A question in mode `mode`, due words first when `srs_enabled`.
    pub fn next_question_with_srs(repo: &crate::repository::WordRepository, mode: TestMode, srs_enabled: bool) -> (r: Result<Option<Question>, DbError>)
        ensures
            (exists|now: Seq<char>, coin: bool|
                clock_text(now) && #[trigger] generate_outcome(repo@, mode, TestingOptions { srs_enabled, topic_id: None }, now, coin, r))
                || (r matches Err(DbError::Storage(m)) && m@ == clock_range_message()),
    {
        TestingEngine::generate_question_with_options(repo, mode, TestingOptions { srs_enabled, topic_id: None })
    }

    /// A question in mode `mode` about a word of topic `topic_id` when given,
    /// due words first when `srs_enabled`.
    pub fn next_question_scoped(
        repo: &crate::repository::WordRepository,
        mode: TestMode,
        srs_enabled: bool,
        topic_id: Option<i64>,
    ) -> (r: Result<Option<Question>, DbError>)
        ensures
            (exists|now: Seq<char>, coin: bool|
                clock_text(now) && #[trigger] generate_outcome(repo@, mode, TestingOptions { srs_enabled, topic_id }, now, coin, r))
                || (r matches Err(DbError::Storage(m)) && m@ == clock_range_message()),
    {
        TestingEngine::generate_question_with_options(repo, mode, TestingOptions { srs_enabled, topic_id })
    }

    /// Grades an answer and records the review; a wrong answer adds one to
    /// the word's review count.
    pub fn submit_answer(repo: &mut crate::repository::WordRepository, question: &Question, answer: &str) -> (r: Result<AnswerResult, DbError>)
        requires
            old(repo).wf(),
        ensures
            final(repo).wf(),
            (exists|now: Timestamp| 0 <= now.secs && now.nanos < 1_000_000_000 && #[trigger] submit_outcome(old(repo)@, question@, answer@, false, now, final(repo)@, r))
                || (r matches Err(DbError::Storage(m)) && m@ == clock_range_message() && final(repo)@ == old(repo)@),
    {
        TestingEngine::submit_answer(repo, question, answer)
    }

    /// Grades an answer and records the review, rescheduling the word when
    /// `srs_enabled`.
    pub fn submit_answer_with_srs(
        repo: &mut crate::repository::WordRepository,
        question: &Question,
        answer: &str,
        srs_enabled: bool,
    ) -> (r: Result<AnswerResult, DbError>)
        requires
            old(repo).wf(),
        ensures
            final(repo).wf(),
            (exists|now: Timestamp| 0 <= now.secs && now.nanos < 1_000_000_000 && #[trigger] submit_outcome(old(repo)@, question@, answer@, srs_enabled, now, final(repo)@, r))
                || (r matches Err(DbError::Storage(m)) && m@ == clock_range_message() && final(repo)@ == old(repo)@),
    {
        TestingEngine::submit_answer_with_options(repo, question, answer, TestingOptions { srs_enabled, topic_id: None })
    }
}

} // verus!
