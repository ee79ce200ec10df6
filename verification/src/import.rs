//! Importing vocabulary: parse a JSON or CSV text, then write every record
//! into the repository, reporting what became of each.
use vstd::prelude::*;
use crate::clock::clock_range_message;
use crate::db::{db_error_message, DbError};
use crate::model::{copy_opt, key_of, opt_str, WordRecord, WordView};
use crate::parser::csv::{csv_result, CsvRowError};
use crate::parser::json::{json_bundle_result, words_view, BundleImport};
use crate::parser::{parse_csv, parse_error_message, parse_json_bundle, ParseError};
use crate::repository::{
    clock_text, collection_name_used, topic_name_used, now_text, assign_outcome, empty_store, find_or_create_collection_outcome, find_or_create_topic_outcome,
    is_stored_form, loaded, store_wf, upsert_outcome, word_index, word_keys, RowView, StoreView, UpsertResult,
    WordRepository,
};
use crate::export::{export_outcome, law_export_reads_back};
use crate::parser::json::first_invalid;
use crate::model::validation_of;
use crate::text::lemma_position_of;


verus! {

/// What became of one record.
#[derive(Debug, Clone, PartialEq, Eq)]
pub enum ImportStatus {
    /// Stored as a new word.
    Inserted,
    /// Merged into a stored word.
    Updated,
    /// Not stored; the message says why.
    Skipped(String),
}

/// One record's outcome, with its word.
#[derive(Debug, Clone, PartialEq, Eq)]
pub struct ImportRowResult {
    pub word: Option<String>,
    pub status: ImportStatus,
}

/// The outcome of an import: counts, the CSV rows that could not be read,
/// and the outcome of every record in order.
#[derive(Debug, Clone, PartialEq, Eq, Default)]
pub struct ImportReport {
    pub inserted_count: usize,
    pub updated_count: usize,
    pub skipped_count: usize,
    pub csv_errors: Vec<CsvRowError>,
    pub results: Vec<ImportRowResult>,
}

/// Imports into a repository.
pub struct ImportService;

/// The mathematical content of an `ImportStatus`.
pub enum StatusView {
    Inserted,
    Updated,
    Skipped(Seq<char>),
}

pub open spec fn status_view(s: ImportStatus) -> StatusView {
    match s {
        ImportStatus::Inserted => StatusView::Inserted,
        ImportStatus::Updated => StatusView::Updated,
        ImportStatus::Skipped(m) => StatusView::Skipped(m@),
    }
}

/// The word and status of every record outcome.
pub open spec fn results_view(v: Seq<ImportRowResult>) -> Seq<(Option<Seq<char>>, StatusView)> {
    v.map_values(|r: ImportRowResult| (opt_str(r.word), status_view(r.status)))
}

/// How many outcomes are insertions, updates and skips.
pub open spec fn tally(rs: Seq<(Option<Seq<char>>, StatusView)>) -> (nat, nat, nat)
    decreases rs.len(),
{
    if rs.len() == 0 {
        (0, 0, 0)
    } else {
        let (i, u, k) = tally(rs.drop_last());
        match rs.last().1 {
            StatusView::Inserted => (i + 1, u, k),
            StatusView::Updated => (i, u + 1, k),
            StatusView::Skipped(_) => (i, u, k + 1),
        }
    }
}

/// What writing one record `rec` at time `now` does: it is upserted (see
/// `upsert_outcome`); when that succeeds it is also put into topic
/// `topic_id`, if any, whatever that gives; when it fails it is skipped with
/// the error's text.
pub open spec fn import_step(
    s: StoreView,
    rec: WordView,
    now: Seq<char>,
    topic_id: Option<i64>,
    s2: StoreView,
    res: (Option<Seq<char>>, StatusView),
) -> bool {
    exists|up: Result<UpsertResult, DbError>, mid: StoreView|
        #[trigger] upsert_outcome(s, rec, now, mid, up) && match up {
            Ok(u) => res == (Some(rec.word), if u.inserted {
                StatusView::Inserted
            } else {
                StatusView::Updated
            }) && match topic_id {
                None => s2 == mid,
                Some(t) => exists|ar: Result<(), DbError>| #[trigger] assign_outcome(mid, key_of(rec.word), t, s2, ar),
            },
            Err(e) => res == (Some(rec.word), StatusView::Skipped(db_error_message(e))) && s2 == mid,
        }
}

/// The stores `states` that writing `recs` one by one passes through from
/// `s`, and the outcome of each record.
pub open spec fn import_trace(
    s: StoreView,
    recs: Seq<WordView>,
    now: Seq<char>,
    topic_id: Option<i64>,
    states: Seq<StoreView>,
    results: Seq<(Option<Seq<char>>, StatusView)>,
) -> bool {
    &&& states.len() == recs.len() + 1
    &&& results.len() == recs.len()
    &&& states[0] == s
    &&& forall|k: int|
        0 <= k < recs.len() ==> #[trigger] import_step(states[k], recs[k], now, topic_id, states[k + 1], results[k])
}

/// What writing `recs` in order does: the store goes from `s` to `s2`
/// record by record, and the report lists every outcome with its counts.
pub open spec fn imported(
    s: StoreView,
    recs: Seq<WordView>,
    now: Seq<char>,
    topic_id: Option<i64>,
    s2: StoreView,
    rep: ImportReport,
) -> bool {
    exists|states: Seq<StoreView>|
        #[trigger] import_trace(s, recs, now, topic_id, states, results_view(rep.results@)) && states.last() == s2
            && tally(results_view(rep.results@)) == (
            rep.inserted_count as nat,
            rep.updated_count as nat,
            rep.skipped_count as nat,
        )
}

/// `first` when it is given, else `second`.
pub open spec fn preferred(first: Option<Seq<char>>, second: Option<Seq<char>>) -> Option<Seq<char>> {
    if first is Some {
        first
    } else {
        second
    }
}

/// What importing the records `recs` at time `now` into collection `ec`
/// and topic `et` does: with a collection it is found or created, and with a
/// topic too that topic is found or created in it; a failure there ends the
/// import. Then every record is written, into the topic when there is one.
pub open spec fn bundle_outcome(
    s: StoreView,
    recs: Seq<WordView>,
    ec: Option<Seq<char>>,
    et: Option<Seq<char>>,
    now: Seq<char>,
    s2: StoreView,
    r: Result<ImportReport, DbError>,
) -> bool {
    match ec {
        None => r matches Ok(rep) && rep.csv_errors@.len() == 0 && imported(s, recs, now, None, s2, rep),
        Some(cn) => exists|s1: StoreView, rc: Result<crate::model::Collection, DbError>|
            #[trigger] find_or_create_collection_outcome(s, cn, now, s1, rc) && match rc {
                Err(e) => r matches Err(x) && x == e && s2 == s1,
                Ok(c) => match et {
                    None => r matches Ok(rep) && rep.csv_errors@.len() == 0 && imported(s1, recs, now, None, s2, rep),
                    Some(tn) => exists|s3: StoreView, rt: Result<crate::model::Topic, DbError>|
                        #[trigger] find_or_create_topic_outcome(s1, c.id, tn, s3, rt) && match rt {
                            Err(e) => r matches Err(x) && x == e && s2 == s3,
                            Ok(t) => r matches Ok(rep) && rep.csv_errors@.len() == 0 && imported(
                                s3,
                                recs,
                                now,
                                Some(t.id),
                                s2,
                                rep,
                            ),
                        },
                },
            },
    }
}

/// What importing JSON text at time `now` does: text that does not parse is
/// refused with the parser's message; a bundle is imported (see
/// `bundle_outcome`).
pub open spec fn json_import_outcome(
    s: StoreView,
    text: Seq<char>,
    collection_name: Option<Seq<char>>,
    topic_name: Option<Seq<char>>,
    now: Seq<char>,
    s2: StoreView,
    r: Result<ImportReport, DbError>,
) -> bool {
    exists|p: Result<BundleImport, ParseError>|
        #[trigger] json_bundle_result(text, p) && match p {
            Err(e) => r matches Err(DbError::Validation(m)) && m@ == "JSON parse error: "@ + parse_error_message(e)
                && s2 == s,
            Ok(b) => bundle_outcome(s, b@.words, preferred(collection_name, b@.collection), preferred(topic_name, b@.topic), now, s2, r),
        }
}

/// What importing CSV text at time `now` does: text the CSV reader or the
/// header check refuses is an error; otherwise every record read is written
/// and the rows that could not be read are reported.
pub open spec fn csv_import_outcome(s: StoreView, text: Seq<char>, now: Seq<char>, s2: StoreView, r: Result<ImportReport, DbError>) -> bool {
    exists|p: Result<crate::parser::CsvImportReport, ParseError>|
        #[trigger] csv_result(text, p) && match p {
            Err(e) => r matches Err(DbError::Parse(x)) && x == e && s2 == s,
            Ok(c) => r matches Ok(rep) && rep.csv_errors@ == c.errors@ && imported(s, words_view(c.records@), now, None, s2, rep),
        }
}

/// Whether `text` reads as a bundle of valid records (see
/// `json_bundle_result`): only then does a JSON import read the clock.
pub open spec fn json_readable(text: Seq<char>) -> bool {
    exists|b: BundleImport| #[trigger] json_bundle_result(text, Ok(b))
}

/// Whether `text` passes the CSV reader and the header check (see
/// `csv_result`): only then does a CSV import read the clock.
pub open spec fn csv_readable(text: Seq<char>) -> bool {
    exists|c: crate::parser::CsvImportReport| #[trigger] csv_result(text, Ok(c))
}

/// The characters of an optional string slice.
pub open spec fn opt_chars(o: Option<&str>) -> Option<Seq<char>> {
    match o {
        Some(s) => Some(s@),
        None => None,
    }
}

impl ImportReport {
    /// How many records were processed: inserted, updated or skipped.
    pub fn total_processed(&self) -> (r: usize)
        requires
            self.inserted_count + self.updated_count + self.skipped_count <= usize::MAX,
        ensures
            r == self.inserted_count + self.updated_count + self.skipped_count,
    {
        self.inserted_count + self.updated_count + self.skipped_count
    }

    /// How many errors there were: unreadable CSV rows and skipped records.
    pub fn total_errors(&self) -> (r: usize)
        requires
            self.csv_errors.len() + self.skipped_count <= usize::MAX,
        ensures
            r == self.csv_errors.len() + self.skipped_count,
    {
        self.csv_errors.len() + self.skipped_count
    }
}

impl ImportService {
    /// Writes `records` in order at time `now` (see `imported`), putting each
    /// stored one into topic `topic_id` when there is one.
    pub fn import_records_at(
        repo: &mut WordRepository,
        records: &Vec<WordRecord>,
        topic_id: Option<i64>,
        now: &str,
        csv_errors: Vec<CsvRowError>,
    ) -> (r: ImportReport)
        requires
            old(repo).wf(),
        ensures
            final(repo).wf(),
            r.csv_errors@ == csv_errors@,
            imported(old(repo)@, words_view(records@), now@, topic_id, final(repo)@, r),
    {
        let ghost s0 = repo@;
        let ghost recs = words_view(records@);
        let ghost mut states: Seq<StoreView> = seq![s0];
        let mut inserted_count: usize = 0;
        let mut updated_count: usize = 0;
        let mut skipped_count: usize = 0;
        let mut results: Vec<ImportRowResult> = Vec::new();
        let mut k: usize = 0;
        while k < records.len()
            invariant
                k <= records.len(),
                repo.wf(),
                recs == words_view(records@),
                import_trace(s0, recs.take(k as int), now@, topic_id, states, results_view(results@)),
                states.last() == repo@,
                tally(results_view(results@)) == (inserted_count as nat, updated_count as nat, skipped_count as nat),
                inserted_count + updated_count + skipped_count == k,
            decreases records.len() - k,
        {
            let record = &records[k];
            assert(recs[k as int] == record@);
            let ghost prev = repo@;
            let word = record.word.clone();
            let key = record.word_key();
            let up = repo.upsert_at(record, now);
            let ghost mid = repo@;
            let status = match up {
                Ok(u) => {
                    match topic_id {
                        Some(t) => {
                            let _assigned = repo.assign_word_to_topic(key.as_str(), t);
                        },
                        None => {},
                    }
                    if u.inserted {
                        inserted_count += 1;
                        ImportStatus::Inserted
                    } else {
                        updated_count += 1;
                        ImportStatus::Updated
                    }
                },
                Err(e) => {
                    skipped_count += 1;
                    ImportStatus::Skipped(e.to_string())
                },
            };
            let row = ImportRowResult { word: Some(word), status };
            let ghost rv = (opt_str(row.word), status_view(row.status));
            let ghost rb = results_view(results@);
            results.push(row);
            proof {
                assert(import_step(prev, recs[k as int], now@, topic_id, repo@, rv));
                assert(results_view(results@) =~= rb.push(rv));
                let st2 = states.push(repo@);
                assert(recs.take(k + 1).drop_last() =~= recs.take(k as int));
                assert forall|j: int| 0 <= j < k + 1 implies #[trigger] import_step(
                    st2[j],
                    recs.take(k + 1)[j],
                    now@,
                    topic_id,
                    st2[j + 1],
                    results_view(results@)[j],
                ) by {
                    if j < k {
                        assert(st2[j] == states[j] && st2[j + 1] == states[j + 1]);
                        assert(recs.take(k + 1)[j] == recs.take(k as int)[j]);
                        assert(results_view(results@)[j] == rb[j]);
                    } else {
                        assert(st2[j] == prev);
                    }
                }
                assert(results_view(results@).drop_last() =~= rb);
                states = st2;
            }
            k += 1;
        }
        assert(recs.take(k as int) =~= recs);
        let r = ImportReport { inserted_count, updated_count, skipped_count, csv_errors, results };
        assert(import_trace(s0, recs, now@, topic_id, states, results_view(r.results@)));
        r
    }

    /// Imports a parsed bundle at time `now` (see `bundle_outcome`).
    pub fn import_bundle_at(
        repo: &mut WordRepository,
        bundle: &BundleImport,
        collection_name: Option<&str>,
        topic_name: Option<&str>,
        now: &str,
    ) -> (r: Result<ImportReport, DbError>)
        requires
            old(repo).wf(),
        ensures
            final(repo).wf(),
            bundle_outcome(
                old(repo)@,
                bundle@.words,
                preferred(opt_chars(collection_name), bundle@.collection),
                preferred(opt_chars(topic_name), bundle@.topic),
                now@,
                final(repo)@,
                r,
            ),
    {
        let ghost s = repo@;
        let effective_collection: Option<String> = match collection_name {
            Some(c) => Some(c.to_owned()),
            None => copy_opt(&bundle.collection),
        };
        let effective_topic: Option<String> = match topic_name {
            Some(t) => Some(t.to_owned()),
            None => copy_opt(&bundle.topic),
        };
        let ghost ec = preferred(opt_chars(collection_name), bundle@.collection);
        let ghost et = preferred(opt_chars(topic_name), bundle@.topic);
        assert(opt_str(effective_collection) == ec);
        assert(opt_str(effective_topic) == et);
        match effective_collection {
            None => {
                let rep = Self::import_records_at(repo, &bundle.words, None, now, Vec::new());
                assert(rep.csv_errors@.len() == 0);
                assert(opt_chars(collection_name) is None && bundle@.collection is None);
                assert(imported(s, bundle@.words, now@, None, repo@, rep));
                let r = Ok(rep);
                assert(bundle_outcome(s, bundle@.words, ec, et, now@, repo@, r));
                r
            },
            Some(cname) => {
                let rc = repo.find_or_create_collection_at(cname.as_str(), now);
                let ghost s1 = repo@;
                let ghost rcg = rc;
                assert(ec == Some(cname@));
                assert(ec is Some && ec->0 == cname@);
                assert(find_or_create_collection_outcome(s, cname@, now@, s1, rcg));
                match rc {
                    Err(e) => {
                        let r = Err(e);
                        assert(bundle_outcome(s, bundle@.words, ec, et, now@, repo@, r));
                        r
                    },
                    Ok(c) => match effective_topic {
                        None => {
                            let rep = Self::import_records_at(repo, &bundle.words, None, now, Vec::new());
                            assert(rep.csv_errors@.len() == 0);
                            let r = Ok(rep);
                            assert(bundle_outcome(s, bundle@.words, ec, et, now@, repo@, r));
                            r
                        },
                        Some(tname) => {
                            let rt = repo.find_or_create_topic(c.id, tname.as_str());
                            let ghost s3 = repo@;
                            let ghost rtg = rt;
                            assert(et == Some(tname@));
                            assert(et is Some && et->0 == tname@);
                            assert(find_or_create_topic_outcome(s1, c.id, tname@, s3, rtg));
                            match rt {
                                Err(e) => {
                                    let r = Err(e);
                                    assert(bundle_outcome(s, bundle@.words, ec, et, now@, repo@, r));
                                    r
                                },
                                Ok(t) => {
                                    let rep = Self::import_records_at(repo, &bundle.words, Some(t.id), now, Vec::new());
                                    assert(rep.csv_errors@.len() == 0);
                                    let r = Ok(rep);
                                    assert(bundle_outcome(s, bundle@.words, ec, et, now@, repo@, r));
                                    r
                                },
                            }
                        },
                    },
                }
            },
        }
    }
    /// Imports JSON text as of the current time, into the named collection
    /// and topic when given (they take precedence over the bundle's own).
    pub fn import_from_json_string_scoped(
        repo: &mut WordRepository,
        json_str: &str,
        collection_name: Option<&str>,
        topic_name: Option<&str>,
    ) -> (r: Result<ImportReport, DbError>)
        requires
            old(repo).wf(),
        ensures
            final(repo).wf(),
            (exists|now: Seq<char>|
                (json_readable(json_str@) ==> clock_text(now)) && #[trigger] json_import_outcome(
                    old(repo)@,
                    json_str@,
                    opt_chars(collection_name),
                    opt_chars(topic_name),
                    now,
                    final(repo)@,
                    r,
                )) || (json_readable(json_str@) && (r matches Err(DbError::Storage(m)) && m@ == clock_range_message()
                && final(repo)@ == old(repo)@)),
    {
        let parsed = parse_json_bundle(json_str);
        let ghost p = parsed;
        let bundle = match parsed {
            Ok(b) => b,
            Err(e) => {
                let mut m = "JSON parse error: ".to_owned();
                let text = e.to_string();
                m.append(text.as_str());
                let r = Err(DbError::Validation(m));
                assert(json_import_outcome(
                    old(repo)@,
                    json_str@,
                    opt_chars(collection_name),
                    opt_chars(topic_name),
                    Seq::empty(),
                    repo@,
                    r,
                ));
                return r;
            },
        };
        let now = match now_text() {
            Ok(t) => t,
            Err(e) => {
                assert(json_bundle_result(json_str@, Ok(bundle)));
                return Err(e);
            },
        };
        let r = Self::import_bundle_at(repo, &bundle, collection_name, topic_name, now.as_str());
        assert(json_import_outcome(
            old(repo)@,
            json_str@,
            opt_chars(collection_name),
            opt_chars(topic_name),
            now@,
            repo@,
            r,
        ));
        r
    }

    /// Imports JSON text as of the current time.
    pub fn import_from_json_string(repo: &mut WordRepository, json_str: &str) -> (r: Result<ImportReport, DbError>)
        requires
            old(repo).wf(),
        ensures
            final(repo).wf(),
            (exists|now: Seq<char>|
                (json_readable(json_str@) ==> clock_text(now)) && #[trigger] json_import_outcome(old(repo)@, json_str@, None, None, now, final(repo)@, r))
                || (json_readable(json_str@) && (r matches Err(DbError::Storage(m)) && m@ == clock_range_message()
                && final(repo)@ == old(repo)@)),
    {
        Self::import_from_json_string_scoped(repo, json_str, None, None)
    }

    /// Imports CSV text as of the current time.
    pub fn import_from_csv_string(repo: &mut WordRepository, csv_str: &str) -> (r: Result<ImportReport, DbError>)
        requires
            old(repo).wf(),
        ensures
            final(repo).wf(),
            (exists|now: Seq<char>| (csv_readable(csv_str@) ==> clock_text(now)) && #[trigger] csv_import_outcome(old(repo)@, csv_str@, now, final(repo)@, r))
                || (csv_readable(csv_str@) && (r matches Err(DbError::Storage(m)) && m@ == clock_range_message()
                && final(repo)@ == old(repo)@)),
    {
        let parsed = parse_csv(csv_str);
        let ghost p = parsed;
        let report = match parsed {
            Ok(c) => c,
            Err(e) => {
                let r = Err(DbError::Parse(e));
                assert(csv_import_outcome(old(repo)@, csv_str@, Seq::empty(), repo@, r));
                return r;
            },
        };
        let now = match now_text() {
            Ok(t) => t,
            Err(e) => {
                assert(csv_result(csv_str@, Ok(report)));
                return Err(e);
            },
        };
        let r = Self::import_records_at(repo, &report.records, None, now.as_str(), report.errors);
        assert(csv_import_outcome(old(repo)@, csv_str@, now@, repo@, Ok::<ImportReport, DbError>(r)));
        Ok(r)
    }
}

/// Every record of `ws` passes validation when none is the first to fail.
proof fn lemma_none_invalid(ws: Seq<WordView>)
    requires
        first_invalid(ws) is None,
    ensures
        forall|k: int| 0 <= k < ws.len() ==> #[trigger] validation_of(ws[k]) is None,
    decreases ws.len(),
{
    if ws.len() > 0 {
        lemma_none_invalid(ws.drop_last());
        assert forall|k: int| 0 <= k < ws.len() implies #[trigger] validation_of(ws[k]) is None by {
            if k < ws.len() - 1 {
                assert(ws.drop_last()[k] == ws[k]);
            }
        }
    }
}

/// The counts of outcomes that are all insertions.
proof fn lemma_tally_inserted(rs: Seq<(Option<Seq<char>>, StatusView)>)
    requires
        forall|k: int| 0 <= k < rs.len() ==> (#[trigger] rs[k]).1 == StatusView::Inserted,
    ensures
        tally(rs) == (rs.len(), 0nat, 0nat),
    decreases rs.len(),
{
    if rs.len() > 0 {
        lemma_tally_inserted(rs.drop_last());
        assert(rs.last() == rs[rs.len() - 1]);
    }
}

/// Writing the exported words of `s` into an empty store inserts them one
/// by one: after `n` records, the store holds exactly the first `n`, each
/// under its key, in stored form, due at `now`.
proof fn lemma_reimport_prefix(
    s: StoreView,
    ws: Seq<WordView>,
    now: Seq<char>,
    states: Seq<StoreView>,
    res: Seq<(Option<Seq<char>>, StatusView)>,
    n: int,
)
    requires
        store_wf(s),
        ws == s.words.map_values(|w: RowView| loaded(w)),
        forall|k: int| 0 <= k < ws.len() ==> #[trigger] validation_of(ws[k]) is None,
        import_trace(empty_store(), ws, now, None, states, res),
        0 <= n <= ws.len(),
    ensures
        states[n].words.len() == n,
        states[n].collections == empty_store().collections,
        states[n].topics == empty_store().topics,
        forall|j: int|
            0 <= j < n ==> (#[trigger] states[n].words[j]).key == s.words[j].key && is_stored_form(
                states[n].words[j].record,
                ws[j],
            ) && states[n].words[j].due_at == now && states[n].words[j].review_count
                == ws[j].metadata.review_count,
        forall|j: int| 0 <= j < n ==> (#[trigger] res[j]).1 == StatusView::Inserted,
    decreases n,
{
    if n > 0 {
        let m = n - 1;
        lemma_reimport_prefix(s, ws, now, states, res, m);
        assert(import_step(states[m], ws[m], now, None, states[m + 1], res[m]));
        let st = states[m];
        let key = key_of(ws[m].word);
        assert(ws[m] == loaded(s.words[m]));
        assert(key == s.words[m].key);
        lemma_position_of(word_keys(st.words), key);
        if word_index(st, key) is Some {
            let i = word_index(st, key)->0;
            assert(word_keys(st.words)[i] == st.words[i].key);
            assert(st.words[i].key == s.words[i].key);
            assert(false);
        }
        let (up, mid) = choose|up: Result<UpsertResult, DbError>, mid: StoreView|
            #[trigger] upsert_outcome(st, ws[m], now, mid, up) && match up {
                Ok(u) => res[m] == (Some(ws[m].word), if u.inserted {
                    StatusView::Inserted
                } else {
                    StatusView::Updated
                }) && states[m + 1] == mid,
                Err(e) => res[m] == (Some(ws[m].word), StatusView::Skipped(db_error_message(e))) && states[m
                    + 1] == mid,
            };
        assert(mid == states[n]);
        assert forall|j: int| 0 <= j < n implies (#[trigger] states[n].words[j]).key == s.words[j].key
            && is_stored_form(states[n].words[j].record, ws[j]) && states[n].words[j].due_at == now
            && states[n].words[j].review_count == ws[j].metadata.review_count by {
            if j < m {
                assert(states[n].words.drop_last()[j] == states[n].words[j]);
            }
        }
    }
}

/// Exporting a store to JSON and importing the text into an empty store
/// gives back every word: each is inserted, in the same order and under the
/// same key, in the form a new record is stored (the same word, phonetic,
/// definitions, examples and creation time; tags in ascending order, related
/// words once each), with its review count, due at the time of the import;
/// nothing is updated or skipped. Stated where every stored word passes
/// validation, as words written by the repository do.
pub proof fn law_json_export_import_round_trip(
    s: StoreView,
    t: String,
    now: Seq<char>,
    s2: StoreView,
    r: Result<ImportReport, DbError>,
)
    requires
        store_wf(s),
        s.words.len() <= usize::MAX,
        export_outcome(s, Ok(t)),
        first_invalid(s.words.map_values(|w: RowView| loaded(w))) is None,
        json_import_outcome(empty_store(), t@, None, None, now, s2, r),
    ensures
        r matches Ok(rep) && rep.inserted_count == s.words.len() && rep.updated_count == 0 && rep.skipped_count
            == 0,
        s2.words.len() == s.words.len(),
        s2.collections.len() == 0,
        s2.topics.len() == 0,
        forall|k: int|
            0 <= k < s.words.len() ==> (#[trigger] s2.words[k]).key == s.words[k].key && is_stored_form(
                s2.words[k].record,
                loaded(s.words[k]),
            ) && s2.words[k].due_at == now && s2.words[k].review_count == loaded(
                s.words[k],
            ).metadata.review_count,
{
    let ws = s.words.map_values(|w: RowView| loaded(w));
    let p = choose|p: Result<BundleImport, ParseError>|
        #[trigger] json_bundle_result(t@, p) && match p {
            Err(e) => r matches Err(DbError::Validation(m)) && m@ == "JSON parse error: "@ + parse_error_message(e)
                && s2 == empty_store(),
            Ok(b) => bundle_outcome(
                empty_store(),
                b@.words,
                preferred(None, b@.collection),
                preferred(None, b@.topic),
                now,
                s2,
                r,
            ),
        };
    law_export_reads_back(s, t, p);
    let b = p->Ok_0;
    assert(b@.words == ws);
    assert(preferred(None, b@.collection) is None);
    let rep = r->Ok_0;
    let rv = results_view(rep.results@);
    let states = choose|states: Seq<StoreView>|
        #[trigger] import_trace(empty_store(), ws, now, None, states, rv) && states.last() == s2 && tally(rv) == (
            rep.inserted_count as nat,
            rep.updated_count as nat,
            rep.skipped_count as nat,
        );
    lemma_none_invalid(ws);
    lemma_reimport_prefix(s, ws, now, states, rv, ws.len() as int);
    lemma_tally_inserted(rv);
    assert(states.last() == states[ws.len() as int]);
}

/// Writing records keeps the store's collections and topics as they were.
proof fn lemma_import_keeps_catalog(
    s: StoreView,
    recs: Seq<WordView>,
    now: Seq<char>,
    topic_id: Option<i64>,
    states: Seq<StoreView>,
    results: Seq<(Option<Seq<char>>, StatusView)>,
    n: int,
)
    requires
        import_trace(s, recs, now, topic_id, states, results),
        0 <= n <= recs.len(),
    ensures
        states[n].collections == s.collections,
        states[n].topics == s.topics,
    decreases n,
{
    if n > 0 {
        let m = n - 1;
        lemma_import_keeps_catalog(s, recs, now, topic_id, states, results, m);
        assert(import_step(states[m], recs[m], now, topic_id, states[m + 1], results[m]));
        let (up, mid) = choose|up: Result<UpsertResult, DbError>, mid: StoreView|
            #[trigger] upsert_outcome(states[m], recs[m], now, mid, up) && match up {
                Ok(u) => results[m] == (Some(recs[m].word), if u.inserted {
                    StatusView::Inserted
                } else {
                    StatusView::Updated
                }) && match topic_id {
                    None => states[m + 1] == mid,
                    Some(t) => exists|ar: Result<(), DbError>| #[trigger] assign_outcome(mid, key_of(recs[m].word), t, states[m + 1], ar),
                },
                Err(e) => results[m] == (Some(recs[m].word), StatusView::Skipped(db_error_message(e))) && states[m + 1] == mid,
            };
        assert(mid.collections == states[m].collections && mid.topics == states[m].topics);
        if let Ok(_) = up {
            if let Some(t) = topic_id {
                let ar = choose|ar: Result<(), DbError>| #[trigger] assign_outcome(mid, key_of(recs[m].word), t, states[m + 1], ar);
                assert(states[m + 1].collections == mid.collections && states[m + 1].topics == mid.topics);
            }
        }
    }
}

/// An import into a named collection puts its words there, whatever
/// collection the bundle itself names: after a successful JSON import with
/// `collection_name = Some(c)`, the store has a collection named `c`; with
/// `topic_name = Some(t)` as well, that collection has a topic named `t`.
pub proof fn law_import_uses_the_requested_collection(
    s: StoreView,
    text: Seq<char>,
    c: Seq<char>,
    topic_name: Option<Seq<char>>,
    now: Seq<char>,
    s2: StoreView,
    rep: ImportReport,
)
    requires
        json_import_outcome(s, text, Some(c), topic_name, now, s2, Ok(rep)),
    ensures
        exists|j: int| 0 <= j < s2.collections.len() && #[trigger] s2.collections[j].name == c,
        topic_name matches Some(t) ==> exists|j: int, m: int|
            #![trigger s2.collections[j], s2.topics[m]]
            0 <= j < s2.collections.len() && 0 <= m < s2.topics.len() && s2.collections[j].name == c
                && s2.topics[m].name == t && s2.topics[m].collection_id == s2.collections[j].id,
{
    let r = Ok::<ImportReport, DbError>(rep);
    let p = choose|p: Result<BundleImport, ParseError>|
        #[trigger] json_bundle_result(text, p) && match p {
            Err(e) => r matches Err(DbError::Validation(m)) && m@ == "JSON parse error: "@ + parse_error_message(e)
                && s2 == s,
            Ok(b) => bundle_outcome(
                s,
                b@.words,
                preferred(Some(c), b@.collection),
                preferred(topic_name, b@.topic),
                now,
                s2,
                r,
            ),
        };
    let b = p->Ok_0;
    let recs = b@.words;
    let et = preferred(topic_name, b@.topic);
    assert(preferred(Some(c), b@.collection) == Some(c));
    let (s1, rc) = choose|s1: StoreView, rc: Result<crate::model::Collection, DbError>|
        #[trigger] find_or_create_collection_outcome(s, c, now, s1, rc) && match rc {
            Err(e) => r matches Err(x) && x == e && s2 == s1,
            Ok(col) => match et {
                None => r matches Ok(rep) && rep.csv_errors@.len() == 0 && imported(s1, recs, now, None, s2, rep),
                Some(tn) => exists|s3: StoreView, rt: Result<crate::model::Topic, DbError>|
                    #[trigger] find_or_create_topic_outcome(s1, col.id, tn, s3, rt) && match rt {
                        Err(e) => r matches Err(x) && x == e && s2 == s3,
                        Ok(t) => r matches Ok(rep) && rep.csv_errors@.len() == 0 && imported(
                            s3,
                            recs,
                            now,
                            Some(t.id),
                            s2,
                            rep,
                        ),
                    },
            },
        };
    let col = rc->Ok_0;
    // The collection is in s1, under the requested name.
    let jc = if collection_name_used(s, c) {
        choose|j: int| 0 <= j < s.collections.len() && #[trigger] s.collections[j].name == c && col@ == s.collections[j]
    } else {
        s.collections.len() as int
    };
    assert(0 <= jc < s1.collections.len() && s1.collections[jc].name == c && s1.collections[jc].id == col.id);
    match et {
        None => {
            let states = choose|states: Seq<StoreView>|
                #[trigger] import_trace(s1, recs, now, None, states, results_view(rep.results@)) && states.last() == s2
                    && tally(results_view(rep.results@)) == (
                    rep.inserted_count as nat,
                    rep.updated_count as nat,
                    rep.skipped_count as nat,
                );
            lemma_import_keeps_catalog(s1, recs, now, None, states, results_view(rep.results@), recs.len() as int);
            assert(states.last() == states[recs.len() as int]);
            assert(s2.collections[jc].name == c);
        },
        Some(tn) => {
            let (s3, rt) = choose|s3: StoreView, rt: Result<crate::model::Topic, DbError>|
                #[trigger] find_or_create_topic_outcome(s1, col.id, tn, s3, rt) && match rt {
                    Err(e) => r matches Err(x) && x == e && s2 == s3,
                    Ok(t) => r matches Ok(rep) && rep.csv_errors@.len() == 0 && imported(
                        s3,
                        recs,
                        now,
                        Some(t.id),
                        s2,
                        rep,
                    ),
                };
            let tp = rt->Ok_0;
            let jt = if topic_name_used(s1, col.id, tn) {
                choose|j: int|
                    0 <= j < s1.topics.len() && #[trigger] s1.topics[j].collection_id == col.id && s1.topics[j].name == tn
                        && tp@ == s1.topics[j]
            } else {
                s1.topics.len() as int
            };
            assert(0 <= jt < s3.topics.len() && s3.topics[jt].name == tn && s3.topics[jt].collection_id == col.id);
            assert(s3.collections == s1.collections);
            let states = choose|states: Seq<StoreView>|
                #[trigger] import_trace(s3, recs, now, Some(tp.id), states, results_view(rep.results@)) && states.last()
                    == s2 && tally(results_view(rep.results@)) == (
                    rep.inserted_count as nat,
                    rep.updated_count as nat,
                    rep.skipped_count as nat,
                );
            lemma_import_keeps_catalog(s3, recs, now, Some(tp.id), states, results_view(rep.results@), recs.len() as int);
            assert(states.last() == states[recs.len() as int]);
            assert(s2.collections[jc].name == c);
            assert(s2.topics[jt].name == tn && s2.topics[jt].collection_id == s2.collections[jc].id);
        },
    }
}

} // verus!
