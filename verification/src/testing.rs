//! Quiz-style review: questions built from stored words, answers graded
//! after normalization, and the review schedule updated.
use vstd::prelude::*;
use crate::clock::{clock_now, clock_range_message, format_rfc3339, representable, rfc3339_text, Timestamp};
use crate::db::DbError;
use crate::model::{copy_opt, copy_strings, key_of, opt_str, DefinitionView, WordRecord, WordView};
use crate::parser::csv::{split_clean, split_with_delimiter};
use crate::repository::{
    clock_text, count_range_message, loadable, now_text, missing_word_message, pick_next_outcome, with_word, word_index,
    word_keys, RowView, StoreView, WordRepository,
};
use crate::srs::{compute_next_due, interval_secs};
use crate::text::{
    lemma_position_of, join, join_space, lowercase, replace_all, replace_text, split_ws_words, strip_non_alnum, strs,
    to_lowercase, to_uppercase, trim, trim_non_alnum, is_blank, uppercase, words,
};

verus! {

/// Which way the questions of a session go.
#[derive(Debug, Clone, Copy, PartialEq, Eq, Structural)]
pub enum TestMode {
    /// English word, Vietnamese answer.
    EnVi,
    /// Vietnamese meaning, English answer.
    ViEn,
    /// Either way, chosen per question.
    Hybrid,
}

/// Which way one question goes.
#[derive(Debug, Clone, Copy, PartialEq, Eq, Structural)]
pub enum QuestionDirection {
    EnVi,
    ViEn,
}

/// A question about one stored word.
#[derive(Debug, Clone, PartialEq, Eq)]
pub struct Question {
    pub word_key: String,
    pub direction: QuestionDirection,
    pub prompt: String,
    pub word: Option<String>,
    pub phonetic: Option<String>,
    pub examples: Vec<String>,
    pub expected_answers: Vec<String>,
    pub synonyms: Vec<String>,
    pub antonyms: Vec<String>,
    pub family_words: Vec<String>,
}

/// The grade of one answer.
#[derive(Debug, Clone, PartialEq, Eq)]
pub struct AnswerResult {
    pub correct: bool,
    pub normalized_answer: String,
    pub accepted_answers: Vec<String>,
}

/// How a session runs: whether due words come first, and which topic it
/// draws from.
#[derive(Debug, Clone, Copy, PartialEq, Eq)]
pub struct TestingOptions {
    pub srs_enabled: bool,
    pub topic_id: Option<i64>,
}

impl Default for TestingOptions {
    /// No spaced repetition, every word.
    fn default() -> (r: TestingOptions)
        ensures
            !r.srs_enabled,
            r.topic_id is None,
    {
        TestingOptions { srs_enabled: false, topic_id: None }
    }
}

/// Question building and grading.
pub struct TestingEngine;

/// The mathematical content of a `Question`.
pub struct QuestionView {
    pub word_key: Seq<char>,
    pub direction: QuestionDirection,
    pub prompt: Seq<char>,
    pub word: Option<Seq<char>>,
    pub phonetic: Option<Seq<char>>,
    pub examples: Seq<Seq<char>>,
    pub expected_answers: Seq<Seq<char>>,
    pub synonyms: Seq<Seq<char>>,
    pub antonyms: Seq<Seq<char>>,
    pub family_words: Seq<Seq<char>>,
}

impl View for Question {
    type V = QuestionView;

    open spec fn view(&self) -> QuestionView {
        QuestionView {
            word_key: self.word_key@,
            direction: self.direction,
            prompt: self.prompt@,
            word: opt_str(self.word),
            phonetic: opt_str(self.phonetic),
            examples: strs(self.examples@),
            expected_answers: strs(self.expected_answers@),
            synonyms: strs(self.synonyms@),
            antonyms: strs(self.antonyms@),
            family_words: strs(self.family_words@),
        }
    }
}

/// An answer as it is compared: its words joined by single spaces, then
/// lowercased.
pub open spec fn normalized_answer(s: Seq<char>) -> Seq<char> {
    lowercase(join(words(s), seq![' ']))
}

/// The accepted answers of a word: the pieces of every meaning between
/// `;`, trimmed, blank ones dropped, in order.
pub open spec fn meaning_parts(defs: Seq<DefinitionView>) -> Seq<Seq<char>>
    decreases defs.len(),
{
    if defs.len() == 0 {
        Seq::<Seq<char>>::empty()
    } else {
        meaning_parts(defs.drop_last()) + split_clean(defs.last().meaning, ';')
    }
}

/// A token of an example, masked when it is the word: when, stripped of
/// non-alphanumeric ends and lowercased, it equals the lowercased word, the
/// word as written, lowercased and uppercased is replaced by `____`.
pub open spec fn mask_token(token: Seq<char>, word: Seq<char>) -> Seq<char> {
    if lowercase(strip_non_alnum(token)) == lowercase(word) {
        replace_all(
            replace_all(replace_all(token, word, "____"@), lowercase(word), "____"@),
            uppercase(word),
            "____"@,
        )
    } else {
        token
    }
}

/// An example with the word masked: its whitespace-separated tokens masked
/// one by one and joined by single spaces; unchanged for a blank word.
pub open spec fn masked_example(example: Seq<char>, word: Seq<char>) -> Seq<char> {
    if trim(word).len() == 0 {
        example
    } else {
        join(words(example).map_values(|t: Seq<char>| mask_token(t, word)), seq![' '])
    }
}

/// The question about word `w` in direction `d`. English to Vietnamese asks
/// for a meaning of the word, shows its phonetic and its examples masked,
/// and accepts its meaning parts. Vietnamese to English shows the first
/// meaning part (the word itself when there is none) and accepts the word.
pub open spec fn question_for(d: QuestionDirection, w: WordView) -> QuestionView {
    match d {
        QuestionDirection::EnVi => QuestionView {
            word_key: key_of(w.word),
            direction: d,
            prompt: "Give the Vietnamese meaning of '"@ + w.word + "'."@,
            word: Some(w.word),
            phonetic: w.phonetic,
            examples: w.examples.map_values(|e: Seq<char>| masked_example(e, w.word)),
            expected_answers: meaning_parts(w.definitions),
            synonyms: w.synonyms,
            antonyms: w.antonyms,
            family_words: w.family_words,
        },
        QuestionDirection::ViEn => {
            let parts = meaning_parts(w.definitions);
            let shown = if parts.len() > 0 {
                parts[0]
            } else {
                w.word
            };
            QuestionView {
                word_key: key_of(w.word),
                direction: d,
                prompt: "Which English word matches: '"@ + shown + "' ?"@,
                word: None,
                phonetic: None,
                examples: Seq::<Seq<char>>::empty(),
                expected_answers: seq![w.word],
                synonyms: w.synonyms,
                antonyms: w.antonyms,
                family_words: w.family_words,
            }
        },
    }
}

/// The direction a mode gives: fixed, or for the hybrid mode English to
/// Vietnamese exactly when `coin` is set.
pub open spec fn direction_for(mode: TestMode, coin: bool) -> QuestionDirection {
    match mode {
        TestMode::EnVi => QuestionDirection::EnVi,
        TestMode::ViEn => QuestionDirection::ViEn,
        TestMode::Hybrid => if coin {
            QuestionDirection::EnVi
        } else {
            QuestionDirection::ViEn
        },
    }
}

/// Normalizes a free-text answer: trimmed, inner whitespace collapsed to
/// single spaces, lowercased.
pub fn normalize_answer_text(value: &str) -> (r: String)
    ensures
        r@ == normalized_answer(value@),
{
    let parts = split_ws_words(value);
    let joined = join_space(&parts);
    to_lowercase(joined.as_str())
}

/// The accepted answers of a record (see `meaning_parts`).
pub fn meaning_candidates(record: &WordRecord) -> (r: Vec<String>)
    ensures
        strs(r@) == meaning_parts(record@.definitions),
{
    let mut values: Vec<String> = Vec::new();
    let mut i: usize = 0;
    assert(record@.definitions.take(0) =~= Seq::<DefinitionView>::empty());
    while i < record.definitions.len()
        invariant
            i <= record.definitions.len(),
            record@.definitions.len() == record.definitions.len(),
            strs(values@) == meaning_parts(record@.definitions.take(i as int)),
        decreases record.definitions.len() - i,
    {
        let parts = split_with_delimiter(record.definitions[i].meaning.as_str(), ';');
        assert(record@.definitions[i as int] == record.definitions@[i as int]@);
        assert(record@.definitions.take(i + 1).drop_last() =~= record@.definitions.take(i as int));
        let ghost before = strs(values@);
        let mut k: usize = 0;
        while k < parts.len()
            invariant
                k <= parts.len(),
                strs(values@) == before + strs(parts@).take(k as int),
            decreases parts.len() - k,
        {
            let ghost vb = values@;
            let piece = parts[k].clone();
            values.push(piece);
            assert(strs(values@) =~= strs(vb).push(parts@[k as int]@));
            assert(strs(parts@).take(k + 1) =~= strs(parts@).take(k as int).push(parts@[k as int]@));
            assert(strs(values@) =~= before + strs(parts@).take(k + 1));
            k += 1;
        }
        assert(strs(parts@).take(k as int) =~= strs(parts@));
        i += 1;
    }
    assert(record@.definitions.take(i as int) =~= record@.definitions);
    values
}

/// One token of an example, masked when it is the word.
fn mask_one(token: &str, word: &str) -> (r: String)
    ensures
        r@ == mask_token(token@, word@),
{
    let lower_word = to_lowercase(word);
    let stripped = trim_non_alnum(token);
    let clean = to_lowercase(stripped.as_str());
    if clean == lower_word {
        let a = replace_text(token, word, "____");
        let b = replace_text(a.as_str(), lower_word.as_str(), "____");
        let upper = to_uppercase(word);
        replace_text(b.as_str(), upper.as_str(), "____")
    } else {
        token.to_owned()
    }
}

/// An example with the word masked (see `masked_example`).
pub fn mask_word_in_example(example: &str, word: &str) -> (r: String)
    ensures
        r@ == masked_example(example@, word@),
{
    if is_blank(word) {
        return example.to_owned();
    }
    let tokens = split_ws_words(example);
    let mut masked: Vec<String> = Vec::new();
    let mut i: usize = 0;
    while i < tokens.len()
        invariant
            i <= tokens.len(),
            masked.len() == i,
            forall|j: int| 0 <= j < i ==> #[trigger] masked@[j]@ == mask_token(tokens@[j]@, word@),
        decreases tokens.len() - i,
    {
        masked.push(mask_one(tokens[i].as_str(), word));
        i += 1;
    }
    assert(strs(masked@) =~= words(example@).map_values(|t: Seq<char>| mask_token(t, word@))) by {
        assert(strs(tokens@) == words(example@));
        assert forall|j: int| 0 <= j < masked.len() implies #[trigger] strs(masked@)[j] == words(example@).map_values(|t: Seq<char>| mask_token(t, word@))[j] by {
            assert(strs(tokens@)[j] == tokens@[j]@);
        }
    }
    join_space(&masked)
}

impl TestingEngine {
    /// The question about `record` in direction `direction` (see
    /// `question_for`).
    pub fn build_question(direction: QuestionDirection, record: WordRecord) -> (r: Question)
        ensures
            r@ == question_for(direction, record@),
    {
        let synonyms = copy_strings(&record.synonyms);
        let antonyms = copy_strings(&record.antonyms);
        let family_words = copy_strings(&record.family_words);
        let candidates = meaning_candidates(&record);
        match direction {
            QuestionDirection::EnVi => {
                let mut examples: Vec<String> = Vec::new();
                let mut i: usize = 0;
                while i < record.examples.len()
                    invariant
                        i <= record.examples.len(),
                        examples.len() == i,
                        forall|j: int| 0 <= j < i ==> #[trigger] examples@[j]@ == masked_example(record.examples@[j]@, record.word@),
                    decreases record.examples.len() - i,
                {
                    examples.push(mask_word_in_example(record.examples[i].as_str(), record.word.as_str()));
                    i += 1;
                }
                assert(strs(examples@) =~= record@.examples.map_values(|e: Seq<char>| masked_example(e, record@.word)));
                let mut prompt = "Give the Vietnamese meaning of '".to_owned();
                prompt.append(record.word.as_str());
                prompt.append("'.");
                Question {
                    word_key: record.word_key(),
                    direction,
                    prompt,
                    word: Some(record.word.clone()),
                    phonetic: copy_opt(&record.phonetic),
                    examples,
                    expected_answers: candidates,
                    synonyms,
                    antonyms,
                    family_words,
                }
            },
            QuestionDirection::ViEn => {
                let shown = if candidates.len() > 0 {
                    candidates[0].clone()
                } else {
                    record.word.clone()
                };
                let mut prompt = "Which English word matches: '".to_owned();
                prompt.append(shown.as_str());
                prompt.append("' ?");
                let expected = vec![record.word.clone()];
                assert(strs(expected@) =~= seq![record@.word]);
                assert(strs(Seq::<String>::empty()) =~= Seq::<Seq<char>>::empty());
                Question {
                    word_key: record.word_key(),
                    direction,
                    prompt,
                    word: None,
                    phonetic: None,
                    examples: Vec::new(),
                    expected_answers: expected,
                    synonyms,
                    antonyms,
                    family_words,
                }
            },
        }
    }
}

/// What generating a question with the clock reading `now` and the coin
/// `coin` gives: the next word picked (see `pick_next_outcome`), asked in the
/// direction the mode gives.
pub open spec fn generate_outcome(
    s: StoreView,
    mode: TestMode,
    options: TestingOptions,
    now: Seq<char>,
    coin: bool,
    r: Result<Option<Question>, DbError>,
) -> bool {
    exists|p: Result<Option<WordRecord>, DbError>|
        #[trigger] pick_next_outcome(s, options.srs_enabled, now, options.topic_id, p) && match p {
            Ok(None) => r matches Ok(None),
            Ok(Some(w)) => r matches Ok(Some(q)) && q@ == question_for(direction_for(mode, coin), w@),
            Err(e) => r matches Err(e2) && e2 == e,
        }
}

/// Whether an answer is right: its normalized form is among the normalized
/// expected answers.
pub open spec fn grade(q: QuestionView, answer: Seq<char>) -> bool {
    q.expected_answers.map_values(|e: Seq<char>| normalized_answer(e)).contains(normalized_answer(answer))
}

/// The instants at which an answer can be recorded and scheduled: their
/// text, and that of two weeks later, is certainly available.
pub open spec fn schedulable(now: Timestamp) -> bool {
    representable(now.secs as int, now.nanos as int) && now.secs + 1_209_600 <= 8_000_000_000_000
}

/// What submitting `answer` to question `q` at instant `now` does. The
/// answer is graded; a wrong one adds one to the word's review count; the
/// review is appended to the word's history at `now`; with spaced repetition
/// on, the word falls due after the interval for the grade and the count
/// (see `interval_secs`). A word that is gone, or whose count cannot be
/// read, is an error and changes nothing.
pub open spec fn submit_outcome(
    s: StoreView,
    q: QuestionView,
    answer: Seq<char>,
    srs_enabled: bool,
    now: Timestamp,
    s2: StoreView,
    r: Result<AnswerResult, DbError>,
) -> bool {
    let correct = grade(q, answer);
    match word_index(s, q.word_key) {
        None => r matches Err(DbError::Storage(m)) && m@ == missing_word_message() && s2 == s,
        Some(i) => if !loadable(s.words[i]) {
            r matches Err(DbError::Storage(m)) && m@ == count_range_message() && s2 == s
        } else {
            let w = s.words[i];
            let count: nat = if correct {
                w.review_count
            } else {
                w.review_count + 1
            };
            let effective: u32 = if correct {
                w.review_count as u32
            } else if w.review_count < u32::MAX {
                (w.review_count + 1) as u32
            } else {
                u32::MAX
            };
            let at = rfc3339_text(now.secs, now.nanos)->0;
            let due = if srs_enabled {
                rfc3339_text((now.secs + interval_secs(correct, effective)) as i64, now.nanos)->0
            } else {
                w.due_at
            };
            &&& s2 == with_word(
                s,
                i,
                RowView { review_count: count, history: w.history.push((at, correct)), due_at: due, ..w },
            )
            &&& r matches Ok(res) && res.correct == correct && res.normalized_answer@
                == normalized_answer(answer) && strs(res.accepted_answers@)
                == q.expected_answers.map_values(|e: Seq<char>| normalized_answer(e))
        },
    }
}

impl TestingEngine {
    /// A question about the next word (see `generate_outcome`), for the
    /// clock reading `now_utc` and the coin `coin`.
    pub fn generate_question_at(
        repo: &WordRepository,
        mode: TestMode,
        options: TestingOptions,
        now_utc: &str,
        coin: bool,
    ) -> (r: Result<Option<Question>, DbError>)
        ensures
            generate_outcome(repo@, mode, options, now_utc@, coin, r),
    {
        let picked = repo.pick_next_word_scoped(options.srs_enabled, now_utc, options.topic_id);
        let ghost p = picked;
        let record = match picked {
            Ok(Some(w)) => w,
            Ok(None) => {
                return Ok(None);
            },
            Err(e) => {
                return Err(e);
            },
        };
        let direction = match mode {
            TestMode::EnVi => QuestionDirection::EnVi,
            TestMode::ViEn => QuestionDirection::ViEn,
            TestMode::Hybrid => if coin {
                QuestionDirection::EnVi
            } else {
                QuestionDirection::ViEn
            },
        };
        Ok(Some(Self::build_question(direction, record)))
    }

    /// A question about the next word, at the current time; the hybrid mode
    /// takes its direction from the parity of the clock's nanoseconds.
    pub fn generate_question_with_options(repo: &WordRepository, mode: TestMode, options: TestingOptions) -> (r: Result<Option<Question>, DbError>)
        ensures
            (exists|now: Seq<char>, coin: bool| clock_text(now) && #[trigger] generate_outcome(repo@, mode, options, now, coin, r)) || (r matches Err(
                DbError::Storage(m),
            ) && m@ == clock_range_message()),
    {
        let now = match now_text() {
            Ok(t) => t,
            Err(e) => {
                return Err(e);
            },
        };
        let coin = match clock_now() {
            Some(t) => t.nanos % 2 == 0,
            None => true,
        };
        let r = Self::generate_question_at(repo, mode, options, now.as_str(), coin);
        assert(generate_outcome(repo@, mode, options, now@, coin, r));
        r
    }

    /// A question about a word chosen by the clock, in mode `mode`.
    pub fn generate_question(repo: &WordRepository, mode: TestMode) -> (r: Result<Option<Question>, DbError>)
        ensures
            (exists|now: Seq<char>, coin: bool|
                clock_text(now) && #[trigger] generate_outcome(repo@, mode, TestingOptions { srs_enabled: false, topic_id: None }, now, coin, r))
                || (r matches Err(DbError::Storage(m)) && m@ == clock_range_message()),
    {
        Self::generate_question_with_options(repo, mode, TestingOptions { srs_enabled: false, topic_id: None })
    }

    /// Grades `user_answer` to `question` at instant `now` and records the
    /// review (see `submit_outcome`).
    pub fn submit_answer_at(
        repo: &mut WordRepository,
        question: &Question,
        user_answer: &str,
        options: TestingOptions,
        now: Timestamp,
    ) -> (r: Result<AnswerResult, DbError>)
        requires
            old(repo).wf(),
            representable(now.secs as int, now.nanos as int),
            options.srs_enabled ==> schedulable(now),
        ensures
            final(repo).wf(),
            submit_outcome(old(repo)@, question@, user_answer@, options.srs_enabled, now, final(repo)@, r),
    {
        let ghost s = repo@;
        let ghost acc = question@.expected_answers.map_values(|e: Seq<char>| normalized_answer(e));
        let normalized = normalize_answer_text(user_answer);
        let mut accepted: Vec<String> = Vec::new();
        let mut correct = false;
        let mut i: usize = 0;
        while i < question.expected_answers.len()
            invariant
                i <= question.expected_answers.len(),
                accepted.len() == i,
                acc == question@.expected_answers.map_values(|e: Seq<char>| normalized_answer(e)),
                normalized@ == normalized_answer(user_answer@),
                forall|j: int| 0 <= j < i ==> #[trigger] accepted@[j]@ == acc[j],
                correct <==> acc.take(i as int).contains(normalized@),
            decreases question.expected_answers.len() - i,
        {
            let a = normalize_answer_text(question.expected_answers[i].as_str());
            assert(a@ == acc[i as int]);
            let hit = a == normalized;
            proof {
                assert(acc.take(i + 1) =~= acc.take(i as int).push(acc[i as int]));
                if hit {
                    assert(acc.take(i + 1)[i as int] == normalized@);
                }
                if acc.take(i as int).contains(normalized@) {
                    let x = choose|x: int| 0 <= x < i && acc.take(i as int)[x] == normalized@;
                    assert(acc.take(i + 1)[x] == normalized@);
                }
                if acc.take(i + 1).contains(normalized@) && !hit {
                    let x = choose|x: int| 0 <= x < i + 1 && #[trigger] acc.take(i + 1)[x] == normalized@;
                    assert(acc.take(i as int)[x] == normalized@);
                }
            }
            correct = correct || hit;
            accepted.push(a);
            i += 1;
        }
        assert(acc.take(i as int) =~= acc);
        assert(strs(accepted@) =~= acc);
        let key = question.word_key.as_str();
        let ghost widx = word_index(s, key@);
        proof {
            lemma_position_of(word_keys(s.words), key@);
        }
        let before: u32 = match repo.get_by_word_key(key) {
            Ok(Some(w)) => w.metadata.review_count,
            Ok(None) => 0,
            Err(e) => {
                return Err(e);
            },
        };
        assert(widx is Some ==> loadable(s.words[widx->0]) && before == s.words[widx->0].review_count as u32);
        if !correct {
            match repo.increment_review_count_by_word_key(key) {
                Ok(()) => {},
                Err(e) => {
                    return Err(e);
                },
            }
        }
        let ghost s1 = repo@;
        assert(word_keys(s1.words) =~= word_keys(s.words)) by {
            if widx is Some {
                assert forall|j: int| 0 <= j < s1.words.len() implies #[trigger] s1.words[j].key == s.words[j].key by {}
            }
        }
        assert(word_index(s1, key@) == widx);
        let effective: u32 = if correct {
            before
        } else if before < u32::MAX {
            before + 1
        } else {
            u32::MAX
        };
        let at = match format_rfc3339(now) {
            Some(t) => t,
            None => String::new(),
        };
        match repo.record_review_event(key, correct, at.as_str()) {
            Ok(()) => {},
            Err(e) => {
                return Err(e);
            },
        }
        let ghost s2 = repo@;
        assert(widx is Some);
        let ghost i = widx->0;
        assert(word_keys(s2.words) =~= word_keys(s.words)) by {
            assert forall|j: int| 0 <= j < s2.words.len() implies #[trigger] s2.words[j].key == s1.words[j].key by {}
        }
        if options.srs_enabled {
            let due = compute_next_due(now, correct, effective);
            match repo.set_due_at_by_word_key(key, due.as_str()) {
                Ok(()) => {},
                Err(e) => {
                    return Err(e);
                },
            }
        }
        proof {
            let w = s.words[i];
            let count: nat = if correct { w.review_count } else { w.review_count + 1 };
            let due = if options.srs_enabled {
                rfc3339_text((now.secs + interval_secs(correct, effective)) as i64, now.nanos)->0
            } else {
                w.due_at
            };
            let row = RowView { review_count: count, history: w.history.push((at@, correct)), due_at: due, ..w };
            assert(repo@.words =~= s.words.update(i, row));
            assert(repo@ == with_word(s, i, row));
        }
        Ok(AnswerResult { correct, normalized_answer: normalized, accepted_answers: accepted })
    }

    /// Grades `user_answer` to `question` now and records the review.
    pub fn submit_answer_with_options(
        repo: &mut WordRepository,
        question: &Question,
        user_answer: &str,
        options: TestingOptions,
    ) -> (r: Result<AnswerResult, DbError>)
        requires
            old(repo).wf(),
        ensures
            final(repo).wf(),
            (exists|now: Timestamp| 0 <= now.secs && now.nanos < 1_000_000_000 && #[trigger] submit_outcome(old(repo)@, question@, user_answer@, options.srs_enabled, now, final(repo)@, r))
                || (r matches Err(DbError::Storage(m)) && m@ == clock_range_message() && final(repo)@ == old(repo)@),
    {
        let now = match clock_now() {
            Some(t) => t,
            None => {
                return Err(DbError::Storage("current time out of range".to_owned()));
            },
        };
        if now.secs > 8_000_000_000_000 || (options.srs_enabled && now.secs > 8_000_000_000_000 - 1_209_600) {
            return Err(DbError::Storage("current time out of range".to_owned()));
        }
        let r = Self::submit_answer_at(repo, question, user_answer, options, now);
        assert(submit_outcome(old(repo)@, question@, user_answer@, options.srs_enabled, now, repo@, r));
        r
    }

    /// Grades `user_answer` to `question` now and records the review,
    /// without spaced repetition.
    pub fn submit_answer(repo: &mut WordRepository, question: &Question, user_answer: &str) -> (r: Result<AnswerResult, DbError>)
        requires
            old(repo).wf(),
        ensures
            final(repo).wf(),
            (exists|now: Timestamp| 0 <= now.secs && now.nanos < 1_000_000_000 && #[trigger] submit_outcome(old(repo)@, question@, user_answer@, false, now, final(repo)@, r))
                || (r matches Err(DbError::Storage(m)) && m@ == clock_range_message() && final(repo)@ == old(repo)@),
    {
        Self::submit_answer_with_options(repo, question, user_answer, TestingOptions { srs_enabled: false, topic_id: None })
    }
}

/// A wrong answer counts once and a right one not at all: after a graded
/// answer, the word's history is one longer and its review count is one
/// higher exactly when the answer was wrong.
pub proof fn law_answer_counted(
    s: StoreView,
    q: QuestionView,
    answer: Seq<char>,
    srs_enabled: bool,
    now: Timestamp,
    s2: StoreView,
    res: AnswerResult,
)
    requires
        submit_outcome(s, q, answer, srs_enabled, now, s2, Ok(res)),
    ensures
        word_index(s, q.word_key) is Some,
        word_index(s2, q.word_key) == word_index(s, q.word_key),
        s2.words[word_index(s, q.word_key)->0].history.len() == s.words[word_index(s, q.word_key)->0].history.len() + 1,
        s2.words[word_index(s, q.word_key)->0].review_count == s.words[word_index(s, q.word_key)->0].review_count + if res.correct {
            0int
        } else {
            1int
        },
        !srs_enabled ==> s2.words[word_index(s, q.word_key)->0].due_at == s.words[word_index(s, q.word_key)->0].due_at,
{
    let i = word_index(s, q.word_key)->0;
    lemma_position_of(word_keys(s.words), q.word_key);
    assert(word_keys(s2.words) =~= word_keys(s.words));
}

/// Grading ignores spacing: answers with the same words give the same
/// normalized answer.
pub proof fn law_grading_ignores_spacing(a: Seq<char>, b: Seq<char>)
    requires
        words(a) == words(b),
    ensures
        normalized_answer(a) == normalized_answer(b),
{
}

/// An answer is graded right exactly when its normalized form equals the
/// normalized form of one of the question's expected answers, at whatever
/// position that answer stands; in particular a match with any expected
/// answer makes it right, and then the word's review count is left as it
/// was.
pub proof fn law_answer_right_when_any_expected_matches(
    s: StoreView,
    q: QuestionView,
    answer: Seq<char>,
    srs_enabled: bool,
    now: Timestamp,
    s2: StoreView,
    res: AnswerResult,
)
    requires
        submit_outcome(s, q, answer, srs_enabled, now, s2, Ok(res)),
    ensures
        res.correct <==> exists|k: int|
            0 <= k < q.expected_answers.len() && normalized_answer(#[trigger] q.expected_answers[k])
                == normalized_answer(answer),
        forall|k: int|
            0 <= k < q.expected_answers.len() && normalized_answer(#[trigger] q.expected_answers[k])
                == normalized_answer(answer) ==> res.correct,
        res.correct ==> word_index(s, q.word_key) is Some && s2.words[word_index(s, q.word_key)->0].review_count
            == s.words[word_index(s, q.word_key)->0].review_count,
{
    let acc = q.expected_answers.map_values(|e: Seq<char>| normalized_answer(e));
    let n = normalized_answer(answer);
    assert forall|k: int|
        0 <= k < q.expected_answers.len() && normalized_answer(#[trigger] q.expected_answers[k]) == n implies res.correct by {
        assert(acc[k] == n);
    }
    if res.correct {
        let k = choose|k: int| 0 <= k < acc.len() && acc[k] == n;
        assert(normalized_answer(q.expected_answers[k]) == n);
    }
    law_answer_counted(s, q, answer, srs_enabled, now, s2, res);
}

} // verus!
