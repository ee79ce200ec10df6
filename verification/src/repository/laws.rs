//! What the repository's operations promise together.
use vstd::prelude::*;
use crate::db::merge::{
    distinct, distinct_defs, has_def, is_merged_record, law_merge_keeps_everything, law_merge_reimport_changes_nothing,
    lemma_dedup_contains, lemma_dedup_defs_fixed, lemma_dedup_fixed,
};
use crate::db::DbError;
use crate::model::{key_of, DefinitionView, MetadataView, WordRecord, WordView};
use crate::repository::{
    count_range_message, due_candidate, in_scope, pick_due_outcome, pick_next_outcome, pick_scope,
    is_stored_form, loadable, loaded, lookup_outcome, query_outcome, store_wf, upsert_outcome,
    with_word, word_index, word_keys, QueryOptions, RowView, StoreView, UpsertResult, limited,
    selected_positions, load_all_outcome, listing_order,
};
use crate::text::{lemma_position_of, position_of};

verus! {

proof fn lemma_index_after_push(ws: Seq<RowView>, row: RowView)
    requires
        position_of(word_keys(ws), row.key) is None,
    ensures
        position_of(word_keys(ws.push(row)), row.key) == Some(ws.len() as int),
{
    assert(word_keys(ws.push(row)).drop_last() =~= word_keys(ws));
}

proof fn lemma_index_after_update(s: StoreView, i: int, row: RowView, key: Seq<char>)
    requires
        0 <= i < s.words.len(),
        row.key == s.words[i].key,
    ensures
        word_index(with_word(s, i, row), key) == word_index(s, key),
{
    assert(word_keys(with_word(s, i, row).words) =~= word_keys(s.words));
}

/// Reading back a written word gives what was written: after a successful
/// upsert of `rec`, its key finds a readable word whose record is `rec` in
/// its stored form (with `rec`'s review count) when it was new, or `rec`
/// merged into the record read before when it was known; and a lookup of
/// the key returns exactly that record.
pub proof fn law_read_after_upsert(s: StoreView, rec: WordView, now: Seq<char>, s2: StoreView, u: UpsertResult)
    requires
        store_wf(s),
        upsert_outcome(s, rec, now, s2, Ok(u)),
    ensures
        word_index(s2, key_of(rec.word)) is Some,
        loadable(s2.words[word_index(s2, key_of(rec.word))->0]),
        u.inserted ==> is_stored_form(loaded(s2.words[word_index(s2, key_of(rec.word))->0]), rec)
            && loaded(s2.words[word_index(s2, key_of(rec.word))->0]).metadata.review_count
            == rec.metadata.review_count,
        !u.inserted ==> word_index(s, key_of(rec.word)) == word_index(s2, key_of(rec.word))
            && is_merged_record(
            loaded(s2.words[word_index(s2, key_of(rec.word))->0]),
            loaded(s.words[word_index(s, key_of(rec.word))->0]),
            rec,
        ),
        forall|r: Result<Option<WordRecord>, DbError>|
            #[trigger] lookup_outcome(s2, key_of(rec.word), r) ==> (r matches Ok(Some(w)) && w@ == loaded(
                s2.words[word_index(s2, key_of(rec.word))->0],
            )),
{
    let key = key_of(rec.word);
    lemma_position_of(word_keys(s.words), key);
    match word_index(s, key) {
        None => {
            let row = s2.words.last();
            assert(s2.words =~= s.words.push(row));
            lemma_index_after_push(s.words, row);
            assert(loaded(row).metadata.tags == row.record.metadata.tags);
        },
        Some(i) => {
            let m = s2.words[i].record;
            let row = RowView { record: m, review_count: m.metadata.review_count as nat, ..s.words[i] };
            assert(word_keys(s.words)[i] == s.words[i].key);
            lemma_index_after_update(s, i, row, key);
            assert(loaded(s2.words[i]) =~= m) by {
                assert(loaded(s2.words[i]).metadata =~= m.metadata);
            }
        },
    }
}

/// Re-importing never loses data: after a successful upsert of `rec`, the
/// word read back has every definition, example, related word and tag of
/// `rec` and, when the word was known, of the record read before.
pub proof fn law_upsert_keeps_everything(s: StoreView, rec: WordView, now: Seq<char>, s2: StoreView, u: UpsertResult)
    requires
        store_wf(s),
        upsert_outcome(s, rec, now, s2, Ok(u)),
    ensures
        ({
            let w = loaded(s2.words[word_index(s2, key_of(rec.word))->0]);
            &&& forall|x: Seq<char>| rec.examples.contains(x) ==> #[trigger] w.examples.contains(x)
            &&& forall|x: Seq<char>| rec.synonyms.contains(x) ==> #[trigger] w.synonyms.contains(x)
            &&& forall|x: Seq<char>| rec.antonyms.contains(x) ==> #[trigger] w.antonyms.contains(x)
            &&& forall|x: Seq<char>| rec.family_words.contains(x) ==> #[trigger] w.family_words.contains(x)
            &&& forall|x: Seq<char>| rec.metadata.tags.contains(x) ==> #[trigger] w.metadata.tags.contains(x)
            &&& forall|d: DefinitionView| has_def(rec.definitions, d) ==> #[trigger] has_def(w.definitions, d)
        }),
        !u.inserted ==> ({
            let old = loaded(s.words[word_index(s, key_of(rec.word))->0]);
            let w = loaded(s2.words[word_index(s2, key_of(rec.word))->0]);
            &&& forall|x: Seq<char>| old.examples.contains(x) ==> #[trigger] w.examples.contains(x)
            &&& forall|x: Seq<char>| old.synonyms.contains(x) ==> #[trigger] w.synonyms.contains(x)
            &&& forall|x: Seq<char>| old.antonyms.contains(x) ==> #[trigger] w.antonyms.contains(x)
            &&& forall|x: Seq<char>| old.family_words.contains(x) ==> #[trigger] w.family_words.contains(x)
            &&& forall|x: Seq<char>| old.metadata.tags.contains(x) ==> #[trigger] w.metadata.tags.contains(x)
            &&& forall|d: DefinitionView| has_def(old.definitions, d) ==> #[trigger] has_def(w.definitions, d)
        }),
{
    law_read_after_upsert(s, rec, now, s2, u);
    let w = loaded(s2.words[word_index(s2, key_of(rec.word))->0]);
    if u.inserted {
        assert forall|x: Seq<char>| rec.synonyms.contains(x) implies #[trigger] w.synonyms.contains(x) by {
            lemma_dedup_contains(rec.synonyms, x);
        }
        assert forall|x: Seq<char>| rec.antonyms.contains(x) implies #[trigger] w.antonyms.contains(x) by {
            lemma_dedup_contains(rec.antonyms, x);
        }
        assert forall|x: Seq<char>| rec.family_words.contains(x) implies #[trigger] w.family_words.contains(x) by {
            lemma_dedup_contains(rec.family_words, x);
        }
        assert forall|x: Seq<char>| rec.metadata.tags.contains(x) implies #[trigger] w.metadata.tags.contains(x) by {
            assert((Seq::<Seq<char>>::empty() + rec.metadata.tags) =~= rec.metadata.tags);
            assert(rec.metadata.tags.to_set().contains(x));
            assert(w.metadata.tags.to_set().contains(x));
        }
    } else {
        let old = loaded(s.words[word_index(s, key_of(rec.word))->0]);
        law_merge_keeps_everything(old, rec, w);
    }
}

/// A deleted word is gone: after deleting key `key`, no word has it.
pub proof fn law_delete_then_get(s: StoreView, key: Seq<char>, s2: StoreView)
    requires
        store_wf(s),
        s2 == match word_index(s, key) {
            None => s,
            Some(i) => StoreView { words: s.words.remove(i), ..s },
        },
    ensures
        word_index(s2, key) is None,
        forall|r: Result<Option<WordRecord>, DbError>| #[trigger] lookup_outcome(s2, key, r) ==> r matches Ok(None),
{
    lemma_position_of(word_keys(s.words), key);
    if let Some(i) = word_index(s, key) {
        assert(word_keys(s.words)[i] == key);
        assert forall|j: int| 0 <= j < s2.words.len() implies #[trigger] word_keys(s2.words)[j] != key by {
            let j2 = if j < i { j } else { j + 1 };
            assert(s2.words[j] == s.words[j2]);
            assert(word_keys(s.words)[j2] == s.words[j2].key);
            if j2 != i {
                assert(s.words[j2].key != s.words[i].key);
            }
        }
    }
    lemma_position_of(word_keys(s2.words), key);
}

/// A listing without filter, order or limit lists every stored word once,
/// in storage order, each as it reads back.
pub proof fn law_unfiltered_query_lists_all(s: StoreView, v: Vec<WordRecord>)
    requires
        s.words.len() <= usize::MAX,
        query_outcome(
            s,
            QueryOptions { sort: None, limit: None, tag_filter: None, collection_id: None, topic_id: None },
            Ok(v),
        ),
    ensures
        crate::parser::json::words_view(v@) == s.words.map_values(|w: RowView| loaded(w)),
{
    let o = QueryOptions { sort: None, limit: None, tag_filter: None, collection_id: None, topic_id: None };
    let ps = choose|ps: Seq<usize>|
        #![trigger limited(ps, o.limit)]
        ps.no_duplicates() && ps.to_set() == selected_positions(s, o) && listing_order(s, o.sort, ps)
            && load_all_outcome(s, limited(ps, o.limit), Ok(v));
    assert(limited(ps, o.limit) == ps);
    assert forall|k: int| 0 <= k < ps.len() implies #[trigger] ps[k] == k by {
        lemma_rising_positions(s, o, ps, k);
    }
    assert(ps.len() == s.words.len()) by {
        lemma_rising_positions_len(s, o, ps);
    }
    assert(ps.map_values(|p: usize| loaded(s.words[p as int])) =~= s.words.map_values(|w: RowView| loaded(w)));
}

proof fn lemma_rising_positions(s: StoreView, o: QueryOptions, ps: Seq<usize>, k: int)
    requires
        o.tag_filter is None,
        o.topic_id is None,
        o.collection_id is None,
        ps.to_set() == selected_positions(s, o),
        forall|a: int, c: int| 0 <= a < c < ps.len() ==> #[trigger] ps[a] < #[trigger] ps[c],
        0 <= k < ps.len(),
    ensures
        ps[k] == k,
    decreases k,
{
    if k > 0 {
        lemma_rising_positions(s, o, ps, k - 1);
        assert(ps[k - 1] < ps[k]);
    }
    if ps[k] > k {
        assert(ps.to_set().contains(ps[k]));
        let x = k as usize;
        assert(selected_positions(s, o).contains(x));
        assert(ps.to_set().contains(x));
        let j = choose|j: int| 0 <= j < ps.len() && ps[j] == x;
        if j < k {
            lemma_rising_positions(s, o, ps, j);
        } else if j > k {
            assert(ps[k] < ps[j]);
        }
    }
}

proof fn lemma_rising_positions_len(s: StoreView, o: QueryOptions, ps: Seq<usize>)
    requires
        s.words.len() <= usize::MAX,
        o.tag_filter is None,
        o.topic_id is None,
        o.collection_id is None,
        ps.to_set() == selected_positions(s, o),
        forall|a: int, c: int| 0 <= a < c < ps.len() ==> #[trigger] ps[a] < #[trigger] ps[c],
    ensures
        ps.len() == s.words.len(),
{
    assert forall|k: int| 0 <= k < ps.len() implies #[trigger] ps[k] == k by {
        lemma_rising_positions(s, o, ps, k);
    }
    if ps.len() < s.words.len() {
        let x = ps.len() as usize;
        assert(selected_positions(s, o).contains(x));
        assert(ps.to_set().contains(x));
        let j = choose|j: int| 0 <= j < ps.len() && ps[j] == x;
        assert(ps[j] == j);
    } else if ps.len() > s.words.len() {
        let k = s.words.len() as int;
        assert(ps.to_set().contains(ps[k]));
        assert(ps[k] == k);
    }
}

/// A due time written is the due time read: after setting the due time of
/// the word under `key` to `due`, the key finds the same word, due at `due`.
pub proof fn law_due_after_set(s: StoreView, key: Seq<char>, due: Seq<char>, s2: StoreView)
    requires
        word_index(s, key) is Some,
        s2 == with_word(s, word_index(s, key)->0, RowView { due_at: due, ..s.words[word_index(s, key)->0] }),
    ensures
        word_index(s2, key) == word_index(s, key),
        s2.words[word_index(s2, key)->0].due_at == due,
{
    lemma_position_of(word_keys(s.words), key);
    lemma_index_after_update(s, word_index(s, key)->0, RowView { due_at: due, ..s.words[word_index(s, key)->0] }, key);
}

/// Each recorded review counts once: after recording a review of the word
/// under `key`, its history is one longer and ends with that review.
pub proof fn law_review_recorded(s: StoreView, key: Seq<char>, at: Seq<char>, correct: bool, s2: StoreView)
    requires
        word_index(s, key) is Some,
        s2 == with_word(
            s,
            word_index(s, key)->0,
            RowView { history: s.words[word_index(s, key)->0].history.push((at, correct)), ..s.words[word_index(s, key)->0] },
        ),
    ensures
        word_index(s2, key) == word_index(s, key),
        s2.words[word_index(s2, key)->0].history.len() == s.words[word_index(s, key)->0].history.len() + 1,
        s2.words[word_index(s2, key)->0].history.last() == (at, correct),
{
    let i = word_index(s, key)->0;
    lemma_position_of(word_keys(s.words), key);
    lemma_index_after_update(s, i, RowView { history: s.words[i].history.push((at, correct)), ..s.words[i] }, key);
}

/// Upserting a record a second time, at any time, changes nothing and
/// reports an update: re-importing is safe at the level of the store. It is
/// stated of a record that repeats no definition (by trimmed part of speech
/// and meaning) and no example, the lists a first insertion keeps as given.
pub proof fn law_upsert_again_changes_nothing(
    s: StoreView,
    rec: WordView,
    now1: Seq<char>,
    s1: StoreView,
    u1: UpsertResult,
    now2: Seq<char>,
    s2: StoreView,
    u2: Result<UpsertResult, DbError>,
)
    requires
        store_wf(s),
        distinct_defs(rec.definitions),
        distinct(rec.examples),
        upsert_outcome(s, rec, now1, s1, Ok(u1)),
        upsert_outcome(s1, rec, now2, s2, u2),
    ensures
        u2 matches Ok(u) && !u.inserted,
        s2 == s1,
{
    let key = key_of(rec.word);
    match word_index(s, key) {
        None => {
            let row = s1.words.last();
            let i = s.words.len() as int;
            assert(s1.words =~= s.words.push(row));
            lemma_index_after_push(s.words, row);
            let e = WordView {
                word: rec.word,
                phonetic: rec.phonetic,
                definitions: Seq::empty(),
                examples: Seq::empty(),
                synonyms: Seq::empty(),
                antonyms: Seq::empty(),
                family_words: Seq::empty(),
                metadata: MetadataView { tags: Seq::empty(), created_at: None, review_count: 0 },
            };
            lemma_dedup_defs_fixed(rec.definitions, Seq::empty());
            lemma_dedup_fixed(rec.examples, Seq::empty());
            assert(rec.definitions + Seq::<DefinitionView>::empty() =~= rec.definitions);
            assert(e.definitions + rec.definitions =~= rec.definitions);
            assert(rec.examples + Seq::<Seq<char>>::empty() =~= rec.examples);
            assert(e.examples + rec.examples =~= rec.examples);
            assert(e.synonyms + rec.synonyms =~= rec.synonyms);
            assert(e.antonyms + rec.antonyms =~= rec.antonyms);
            assert(e.family_words + rec.family_words =~= rec.family_words);
            assert(loaded(row) == row.record);
            assert(is_merged_record(row.record, e, rec));
            assert(word_index(s1, key) == Some(i));
            law_merge_reimport_changes_nothing(e, rec, row.record, s2.words[i].record);
            assert(s2.words =~= s1.words);
        },
        Some(j) => {
            lemma_position_of(word_keys(s.words), key);
            assert(0 <= j < s.words.len());
            let m = s1.words[j].record;
            assert(s1 == with_word(s, j, RowView { record: m, review_count: m.metadata.review_count as nat, ..s.words[j] }));
            assert(s1.words[j].key == s.words[j].key);
            lemma_index_after_update(s, j, s1.words[j], key);
            assert(loaded(s1.words[j]).metadata == m.metadata);
            assert(loaded(s1.words[j]) == m);
            law_merge_reimport_changes_nothing(loaded(s.words[j]), rec, m, s2.words[j].record);
            assert(s2.words =~= s1.words);
        },
    }
}

/// The words a listing returns are stored words that pass its filters, in
/// the listing's positions.
proof fn lemma_query_rows(s: StoreView, o: QueryOptions, v: Vec<WordRecord>) -> (lp: Seq<usize>)
    requires
        query_outcome(s, o, Ok(v)),
    ensures
        lp.len() == v.len(),
        forall|k: int| #![trigger lp[k]] 0 <= k < v.len() ==> {
            let p = lp[k] as int;
            &&& 0 <= p < s.words.len()
            &&& v@[k]@ == loaded(s.words[p])
            &&& in_scope(s, s.words[p], o.topic_id, o.collection_id)
        },
{
    let ps = choose|ps: Seq<usize>|
        #![trigger limited(ps, o.limit)]
        ps.no_duplicates() && ps.to_set() == selected_positions(s, o) && listing_order(s, o.sort, ps)
            && load_all_outcome(s, limited(ps, o.limit), Ok(v));
    let lp = limited(ps, o.limit);
    let ws = crate::parser::json::words_view(v@);
    assert(ws == lp.map_values(|p: usize| loaded(s.words[p as int])));
    assert(lp.len() == v@.len());
    assert forall|k: int| 0 <= k < lp.len() implies #[trigger] ps.contains(lp[k]) by {
        assert(lp[k] == ps[k]);
    }
    assert forall|k: int| #![trigger lp[k]] 0 <= k < v.len() implies {
        let p = lp[k] as int;
        &&& 0 <= p < s.words.len()
        &&& v@[k]@ == loaded(s.words[p])
        &&& in_scope(s, s.words[p], o.topic_id, o.collection_id)
    } by {
        assert(ws[k] == v@[k]@);
        assert(ws[k] == loaded(s.words[lp[k] as int]));
        assert(ps.contains(lp[k]));
        assert(ps.to_set().contains(lp[k]));
        assert(selected_positions(s, o).contains(lp[k]));
    }
    lp
}

/// A listing scoped to a collection lists only words that belong to a topic
/// of that collection: every word it returns is a stored word that is a
/// member of a stored topic whose collection is the requested one.
pub proof fn law_query_stays_in_collection(s: StoreView, o: QueryOptions, c: i64, v: Vec<WordRecord>)
    requires
        query_outcome(s, o, Ok(v)),
        o.collection_id == Some(c),
    ensures
        forall|k: int|
            #![trigger v@[k]]
            0 <= k < v.len() ==> exists|i: int, j: int|
                #![trigger s.words[i], s.topics[j]]
                0 <= i < s.words.len() && 0 <= j < s.topics.len() && v@[k]@ == loaded(s.words[i])
                    && s.words[i].topics.contains(s.topics[j].id) && s.topics[j].collection_id == c,
{
    let lp = lemma_query_rows(s, o, v);
    assert forall|k: int| #![trigger v@[k]] 0 <= k < v.len() implies exists|i: int, j: int|
        #![trigger s.words[i], s.topics[j]]
        0 <= i < s.words.len() && 0 <= j < s.topics.len() && v@[k]@ == loaded(s.words[i])
            && s.words[i].topics.contains(s.topics[j].id) && s.topics[j].collection_id == c by {
        let p = lp[k] as int;
        let j = choose|j: int|
            0 <= j < s.topics.len() && s.words[p].topics.contains(#[trigger] s.topics[j].id) && (o.topic_id matches Some(t)
                ==> s.topics[j].id == t) && (o.collection_id matches Some(c) ==> s.topics[j].collection_id == c);
        assert(s.topics[j].collection_id == c);
        assert(s.words[p] == s.words[p] && s.topics[j] == s.topics[j]);
    }
}

/// A listing scoped to a topic lists only words that are members of that
/// topic, which is a stored topic.
pub proof fn law_query_stays_in_topic(s: StoreView, o: QueryOptions, t: i64, v: Vec<WordRecord>)
    requires
        query_outcome(s, o, Ok(v)),
        o.topic_id == Some(t),
    ensures
        forall|k: int|
            #![trigger v@[k]]
            0 <= k < v.len() ==> exists|i: int|
                0 <= i < s.words.len() && v@[k]@ == loaded(s.words[i]) && #[trigger] s.words[i].topics.contains(t),
        v.len() > 0 ==> exists|j: int| 0 <= j < s.topics.len() && #[trigger] s.topics[j].id == t,
{
    let lp = lemma_query_rows(s, o, v);
    assert forall|k: int| #![trigger v@[k]] 0 <= k < v.len() implies exists|i: int|
        0 <= i < s.words.len() && v@[k]@ == loaded(s.words[i]) && #[trigger] s.words[i].topics.contains(t) by {
        let p = lp[k] as int;
        let j = choose|j: int|
            0 <= j < s.topics.len() && s.words[p].topics.contains(#[trigger] s.topics[j].id) && (o.topic_id matches Some(t)
                ==> s.topics[j].id == t) && (o.collection_id matches Some(c) ==> s.topics[j].collection_id == c);
        assert(s.topics[j].id == t);
        assert(s.words[p].topics.contains(t));
    }
    if v.len() > 0 {
        let p = lp[0] as int;
        let j = choose|j: int|
            0 <= j < s.topics.len() && s.words[p].topics.contains(#[trigger] s.topics[j].id) && (o.topic_id matches Some(t)
                ==> s.topics[j].id == t) && (o.collection_id matches Some(c) ==> s.topics[j].collection_id == c);
        assert(s.topics[j].id == t);
    }
}

/// A due pick scoped to a topic gives only a word of that topic that is due
/// at the given time, and a next-word pick scoped to a topic gives only a
/// word of that topic.
pub proof fn law_pick_stays_in_topic(
    s: StoreView,
    now: Seq<char>,
    srs_enabled: bool,
    t: i64,
    w: WordRecord,
)
    ensures
        pick_due_outcome(s, now, Some(t), Ok(Some(w))) ==> exists|i: int|
            0 <= i < s.words.len() && #[trigger] s.words[i].topics.contains(t) && crate::order::lex_le(
                s.words[i].due_at,
                now,
            ) && w@ == loaded(s.words[i]),
        pick_next_outcome(s, srs_enabled, now, Some(t), Ok(Some(w))) ==> exists|i: int|
            0 <= i < s.words.len() && #[trigger] s.words[i].topics.contains(t) && w@ == loaded(s.words[i]),
{
    if pick_due_outcome(s, now, Some(t), Ok(Some(w))) {
        if !(forall|i: int| !#[trigger] due_candidate(s, i, now, Some(t))) {
            let i = choose|i: int|
                #[trigger] due_candidate(s, i, now, Some(t)) && (forall|j: int|
                    #[trigger] due_candidate(s, j, now, Some(t)) && j != i ==> crate::order::lex_lt(s.words[i].due_at, s.words[j].due_at)
                        || (s.words[i].due_at == s.words[j].due_at && i < j)) && if loadable(s.words[i]) {
                    Ok::<Option<WordRecord>, DbError>(Some(w)) matches Ok(Some(x)) && x@ == loaded(s.words[i])
                } else {
                    Ok::<Option<WordRecord>, DbError>(Some(w)) matches Err(DbError::Storage(m)) && m@ == count_range_message()
                };
            assert(s.words[i].topics.contains(t));
        }
    }
    if pick_next_outcome(s, srs_enabled, now, Some(t), Ok(Some(w))) {
        if srs_enabled && exists|i: int| #[trigger] due_candidate(s, i, now, Some(t)) {
            let i = choose|i: int|
                #[trigger] due_candidate(s, i, now, Some(t)) && (forall|j: int|
                    #[trigger] due_candidate(s, j, now, Some(t)) && j != i ==> crate::order::lex_lt(s.words[i].due_at, s.words[j].due_at)
                        || (s.words[i].due_at == s.words[j].due_at && i < j)) && if loadable(s.words[i]) {
                    Ok::<Option<WordRecord>, DbError>(Some(w)) matches Ok(Some(x)) && x@ == loaded(s.words[i])
                } else {
                    Ok::<Option<WordRecord>, DbError>(Some(w)) matches Err(DbError::Storage(m)) && m@ == count_range_message()
                };
            assert(s.words[i].topics.contains(t));
        } else if !(forall|i: int| 0 <= i < s.words.len() ==> !#[trigger] pick_scope(s, i, Some(t))) {
            let i = choose|i: int|
                0 <= i < s.words.len() && #[trigger] pick_scope(s, i, Some(t)) && if loadable(s.words[i]) {
                    Ok::<Option<WordRecord>, DbError>(Some(w)) matches Ok(Some(x)) && x@ == loaded(s.words[i])
                } else {
                    Ok::<Option<WordRecord>, DbError>(Some(w)) matches Err(DbError::Storage(m)) && m@ == count_range_message()
                };
            assert(s.words[i].topics.contains(t));
        }
    }
}

} // verus!
