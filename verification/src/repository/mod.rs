//! The word repository: the words with their review schedule and history,
//! and the collections and topics that group them.
use vstd::prelude::*;
use crate::clock::{clock_now, clock_range_message, format_rfc3339, representable, rfc3339_text};
use crate::db::merge::{dedup, is_merged_record, is_merged_tags, merge_records, merge_string_vec, merge_tags};
use crate::db::DbError;
use crate::model::{copy_definitions, copy_opt, copy_strings, is_valid, key_of, opt_str, validation_message, validation_of, Collection, CollectionView, Metadata, MetadataView, Topic, TopicView, WordRecord, WordView};
use crate::text::{lemma_position_of, lemma_position_prefix, position_of, strs};

pub mod query;
pub mod sorting;
pub mod laws;

use self::sorting::{arrange_by_name, arranged_by_name, key_lt, precedes, sort_positions, SortKey};
use crate::order::{lemma_lex_lt_trans, lemma_lex_trichotomy, lex_le, lex_lt, str_le, str_lt};

pub use self::query::{QueryOptions, SortBy};

verus! {

/// One review of a word: when, and whether the answer was right.
#[derive(Debug, Clone, PartialEq, Eq)]
pub struct ReviewEvent {
    pub reviewed_at: String,
    pub was_correct: bool,
}

/// A stored word: its key, its record, its review count, when it is next
/// due, its review history and the topics it belongs to.
struct WordRow {
    key: String,
    record: WordRecord,
    review_count: u64,
    due_at: String,
    history: Vec<ReviewEvent>,
    topics: Vec<i64>,
}

/// The mathematical content of a stored word. The review count is kept
/// apart from the record, whose own count field is not used.
pub struct RowView {
    pub key: Seq<char>,
    pub record: WordView,
    pub review_count: nat,
    pub due_at: Seq<char>,
    pub history: Seq<(Seq<char>, bool)>,
    pub topics: Seq<i64>,
}

/// The mathematical content of the store. Collection and topic identifiers
/// are never reused: each new one is one more than the last one handed out.
pub struct StoreView {
    pub words: Seq<RowView>,
    pub collections: Seq<CollectionView>,
    pub topics: Seq<TopicView>,
    pub last_collection_id: i64,
    pub last_topic_id: i64,
}

pub open spec fn history_view(h: Seq<ReviewEvent>) -> Seq<(Seq<char>, bool)> {
    h.map_values(|e: ReviewEvent| (e.reviewed_at@, e.was_correct))
}

pub open spec fn collections_view(v: Seq<Collection>) -> Seq<CollectionView> {
    v.map_values(|c: Collection| c@)
}

pub open spec fn topics_view(v: Seq<Topic>) -> Seq<TopicView> {
    v.map_values(|t: Topic| t@)
}

spec fn row_view(r: WordRow) -> RowView {
    RowView {
        key: r.key@,
        record: r.record@,
        review_count: r.review_count as nat,
        due_at: r.due_at@,
        history: history_view(r.history@),
        topics: r.topics@,
    }
}

/// The store holding everything a repository works on.
pub struct Database {
    words: Vec<WordRow>,
    collections: Vec<Collection>,
    topics: Vec<Topic>,
    last_collection_id: i64,
    last_topic_id: i64,
}

impl View for Database {
    type V = StoreView;

    closed spec fn view(&self) -> StoreView {
        StoreView {
            words: self.words@.map_values(|r: WordRow| row_view(r)),
            collections: collections_view(self.collections@),
            topics: topics_view(self.topics@),
            last_collection_id: self.last_collection_id,
            last_topic_id: self.last_topic_id,
        }
    }
}

/// The empty store.
pub open spec fn empty_store() -> StoreView {
    StoreView {
        words: Seq::empty(),
        collections: Seq::empty(),
        topics: Seq::empty(),
        last_collection_id: 0,
        last_topic_id: 0,
    }
}

/// The keys of the stored words, in storage order.
pub open spec fn word_keys(ws: Seq<RowView>) -> Seq<Seq<char>> {
    ws.map_values(|r: RowView| r.key)
}

/// What the store keeps true: no two words share a key, and each word is
/// kept under the key of its own text; collection and topic
/// identifiers are positive, at most the last one handed out, and rise in
/// storage order; no two collections share a name, and no two topics of one
/// collection share a name.
pub open spec fn store_wf(s: StoreView) -> bool {
    &&& forall|i: int, j: int|
        0 <= i < j < s.words.len() ==> #[trigger] s.words[i].key != #[trigger] s.words[j].key
    &&& forall|i: int| 0 <= i < s.words.len() ==> #[trigger] s.words[i].key == key_of(s.words[i].record.word)
    &&& 0 <= s.last_collection_id
    &&& 0 <= s.last_topic_id
    &&& forall|i: int|
        0 <= i < s.collections.len() ==> 0 < #[trigger] s.collections[i].id
            <= s.last_collection_id
    &&& forall|i: int| 0 <= i < s.topics.len() ==> 0 < #[trigger] s.topics[i].id <= s.last_topic_id
    &&& forall|i: int, j: int|
        0 <= i < j < s.collections.len() ==> #[trigger] s.collections[i].id
            < #[trigger] s.collections[j].id && s.collections[i].name != s.collections[j].name
    &&& forall|i: int, j: int|
        0 <= i < j < s.topics.len() ==> #[trigger] s.topics[i].id < #[trigger] s.topics[j].id && !(
        s.topics[i].collection_id == s.topics[j].collection_id && s.topics[i].name
            == s.topics[j].name)
}

/// A store whose words changed, with keys still distinct, and nothing else
/// changed, keeps the invariant.
proof fn lemma_wf_words(s: StoreView, s2: StoreView)
    requires
        store_wf(s),
        s2.collections == s.collections,
        s2.topics == s.topics,
        s2.last_collection_id == s.last_collection_id,
        s2.last_topic_id == s.last_topic_id,
        forall|i: int, j: int|
            0 <= i < j < s2.words.len() ==> #[trigger] s2.words[i].key != #[trigger] s2.words[j].key,
        forall|i: int| 0 <= i < s2.words.len() ==> #[trigger] s2.words[i].key == key_of(s2.words[i].record.word),
    ensures
        store_wf(s2),
{
}

/// Adding a topic with the next identifier and a name not yet taken in its
/// collection keeps the invariant.
proof fn lemma_push_topic(s: StoreView, t: TopicView)
    requires
        store_wf(s),
        s.last_topic_id < i64::MAX,
        t.id == s.last_topic_id + 1,
        forall|j: int| 0 <= j < s.topics.len() ==> !(#[trigger] s.topics[j].collection_id == t.collection_id && s.topics[j].name == t.name),
    ensures
        store_wf(StoreView { topics: s.topics.push(t), last_topic_id: t.id, ..s }),
{
    let ts = s.topics.push(t);
    assert forall|a: int, b: int| 0 <= a < b < ts.len() implies #[trigger] ts[a].id < #[trigger] ts[b].id && !(ts[a].collection_id
        == ts[b].collection_id && ts[a].name == ts[b].name) by {
        assert(ts[a] == s.topics[a]);
        if b < s.topics.len() {
            assert(ts[b] == s.topics[b]);
        }
    }
}

/// Adding a collection with the next identifier and a name not yet taken
/// keeps the invariant.
proof fn lemma_push_collection(s: StoreView, c: CollectionView)
    requires
        store_wf(s),
        s.last_collection_id < i64::MAX,
        c.id == s.last_collection_id + 1,
        forall|j: int| 0 <= j < s.collections.len() ==> #[trigger] s.collections[j].name != c.name,
    ensures
        store_wf(StoreView { collections: s.collections.push(c), last_collection_id: c.id, ..s }),
{
    let cs = s.collections.push(c);
    assert forall|a: int, b: int| 0 <= a < b < cs.len() implies #[trigger] cs[a].id < #[trigger] cs[b].id
        && cs[a].name != cs[b].name by {
        assert(cs[a] == s.collections[a]);
        if b < s.collections.len() {
            assert(cs[b] == s.collections[b]);
        }
    }
    assert forall|a: int| 0 <= a < cs.len() implies 0 < #[trigger] cs[a].id <= c.id by {
        if a < s.collections.len() {
            assert(cs[a] == s.collections[a]);
        }
    }
}

/// The position of the word stored under `key`.
pub open spec fn word_index(s: StoreView, key: Seq<char>) -> Option<int> {
    position_of(word_keys(s.words), key)
}

/// The record a stored word reads back as: its stored record with the
/// stored review count.
pub open spec fn loaded(r: RowView) -> WordView {
    WordView {
        metadata: MetadataView { review_count: r.review_count as u32, ..r.record.metadata },
        ..r.record
    }
}

/// Whether a stored word can be read back: its count fits a `u32`.
pub open spec fn loadable(r: RowView) -> bool {
    r.review_count <= u32::MAX
}

/// The message for a review count that no longer fits a `u32`.
pub open spec fn count_range_message() -> Seq<char> {
    "review count out of range"@
}

/// What reading a stored word back gives.
pub open spec fn load_outcome(r: RowView, out: Result<WordRecord, DbError>) -> bool {
    if loadable(r) {
        out matches Ok(w) && w@ == loaded(r)
    } else {
        out matches Err(DbError::Storage(m)) && m@ == count_range_message()
    }
}

/// What looking a word up by its key gives.
pub open spec fn lookup_outcome(s: StoreView, key: Seq<char>, out: Result<Option<WordRecord>, DbError>) -> bool {
    match word_index(s, key) {
        None => out matches Ok(None),
        Some(i) => if loadable(s.words[i]) {
            out matches Ok(Some(w)) && w@ == loaded(s.words[i])
        } else {
            out matches Err(DbError::Storage(m)) && m@ == count_range_message()
        },
    }
}

impl Database {
    /// The store's invariant.
    pub open spec fn wf(&self) -> bool {
        store_wf(self@)
    }

    /// An empty store.
    pub fn new() -> (d: Database)
        ensures
            d.wf(),
            d@ == empty_store(),
    {
        let d = Database {
            words: Vec::new(),
            collections: Vec::new(),
            topics: Vec::new(),
            last_collection_id: 0,
            last_topic_id: 0,
        };
        assert(d@.words =~= Seq::<RowView>::empty());
        assert(d@.collections =~= Seq::<CollectionView>::empty());
        assert(d@.topics =~= Seq::<TopicView>::empty());
        d
    }

    /// The position of the word stored under `key`.
    fn find_word(&self, key: &str) -> (r: Option<usize>)
        ensures
            match r {
                Some(i) => word_index(self@, key@) == Some(i as int) && i < self.words.len(),
                None => word_index(self@, key@) is None,
            },
    {
        let k = key.to_owned();
        let ghost ks = word_keys(self@.words);
        let mut i: usize = 0;
        assert(ks.take(0) =~= Seq::<Seq<char>>::empty());
        while i < self.words.len()
            invariant
                i <= self.words.len(),
                k@ == key@,
                ks == word_keys(self@.words),
                ks.len() == self.words.len(),
                position_of(ks.take(i as int), key@) is None,
            decreases self.words.len() - i,
        {
            assert(ks.take(i + 1).drop_last() =~= ks.take(i as int));
            assert(ks[i as int] == self.words@[i as int].key@);
            if self.words[i].key == k {
                assert(position_of(ks.take(i + 1), key@) == Some(i as int));
                proof {
                    lemma_position_prefix(ks, i as int + 1, key@);
                }
                return Some(i);
            }
            i += 1;
        }
        assert(ks.take(i as int) =~= ks);
        None
    }

    /// The position of the collection named `name`.
    fn collection_named(&self, name: &str) -> (r: Option<usize>)
        ensures
            match r {
                Some(i) => i < self@.collections.len() && self@.collections[i as int].name == name@,
                None => forall|j: int|
                    0 <= j < self@.collections.len() ==> #[trigger] self@.collections[j].name != name@,
            },
    {
        let k = name.to_owned();
        let mut i: usize = 0;
        while i < self.collections.len()
            invariant
                i <= self.collections.len(),
                k@ == name@,
                self@.collections == collections_view(self.collections@),
                forall|j: int| 0 <= j < i ==> #[trigger] self@.collections[j].name != name@,
            decreases self.collections.len() - i,
        {
            assert(self@.collections[i as int] == self.collections@[i as int]@);
            if self.collections[i].name == k {
                return Some(i);
            }
            i += 1;
        }
        None
    }

    /// The position of the collection with identifier `id`.
    fn collection_position(&self, id: i64) -> (r: Option<usize>)
        ensures
            match r {
                Some(i) => i < self@.collections.len() && self@.collections[i as int].id == id,
                None => forall|j: int|
                    0 <= j < self@.collections.len() ==> #[trigger] self@.collections[j].id != id,
            },
    {
        let mut i: usize = 0;
        while i < self.collections.len()
            invariant
                i <= self.collections.len(),
                self@.collections == collections_view(self.collections@),
                forall|j: int| 0 <= j < i ==> #[trigger] self@.collections[j].id != id,
            decreases self.collections.len() - i,
        {
            assert(self@.collections[i as int] == self.collections@[i as int]@);
            if self.collections[i].id == id {
                return Some(i);
            }
            i += 1;
        }
        None
    }

    /// The position of the topic named `name` in collection `collection_id`.
    fn topic_named(&self, collection_id: i64, name: &str) -> (r: Option<usize>)
        ensures
            match r {
                Some(i) => i < self@.topics.len() && self@.topics[i as int].collection_id
                    == collection_id && self@.topics[i as int].name == name@,
                None => forall|j: int|
                    0 <= j < self@.topics.len() ==> !(#[trigger] self@.topics[j].collection_id
                        == collection_id && self@.topics[j].name == name@),
            },
    {
        let k = name.to_owned();
        let mut i: usize = 0;
        while i < self.topics.len()
            invariant
                i <= self.topics.len(),
                k@ == name@,
                self@.topics == topics_view(self.topics@),
                forall|j: int|
                    0 <= j < i ==> !(#[trigger] self@.topics[j].collection_id == collection_id
                        && self@.topics[j].name == name@),
            decreases self.topics.len() - i,
        {
            assert(self@.topics[i as int] == self.topics@[i as int]@);
            if self.topics[i].collection_id == collection_id && self.topics[i].name == k {
                return Some(i);
            }
            i += 1;
        }
        None
    }

    /// The position of the topic with identifier `id`.
    fn topic_position(&self, id: i64) -> (r: Option<usize>)
        ensures
            match r {
                Some(i) => i < self@.topics.len() && self@.topics[i as int].id == id,
                None => forall|j: int| 0 <= j < self@.topics.len() ==> #[trigger] self@.topics[j].id != id,
            },
    {
        let mut i: usize = 0;
        while i < self.topics.len()
            invariant
                i <= self.topics.len(),
                self@.topics == topics_view(self.topics@),
                forall|j: int| 0 <= j < i ==> #[trigger] self@.topics[j].id != id,
            decreases self.topics.len() - i,
        {
            assert(self@.topics[i as int] == self.topics@[i as int]@);
            if self.topics[i].id == id {
                return Some(i);
            }
            i += 1;
        }
        None
    }

    /// The collections other than `id`, in order.
    fn collections_except(&self, id: i64) -> (r: Vec<Collection>)
        ensures
            collections_view(r@) == self@.collections.filter(|c: CollectionView| c.id != id),
    {
        let ghost cs = self@.collections;
        let mut out: Vec<Collection> = Vec::new();
        let mut k: usize = 0;
        while k < self.collections.len()
            invariant
                k <= self.collections.len(),
                cs == self@.collections,
                cs == collections_view(self.collections@),
                collections_view(out@) == cs.take(k as int).filter(|c: CollectionView| c.id != id),
            decreases self.collections.len() - k,
        {
            let ghost before = collections_view(out@);
            assert(cs[k as int] == self.collections@[k as int]@);
            proof {
                reveal(Seq::filter);
                assert(cs.take(k + 1).drop_last() =~= cs.take(k as int));
            }
            if self.collections[k].id != id {
                let c = self.collections[k].copy();
                out.push(c);
                assert(collections_view(out@) =~= before.push(cs[k as int]));
            }
            k += 1;
        }
        assert(cs.take(k as int) =~= cs);
        out
    }

    /// The topics outside collection `collection_id`, in order, and the
    /// identifiers of the topics inside it.
    fn topics_outside(&self, collection_id: i64) -> (r: (Vec<Topic>, Vec<i64>))
        ensures
            topics_view(r.0@) == self@.topics.filter(|t: TopicView| t.collection_id != collection_id),
            r.1@.to_set() == topic_ids_of(self@, collection_id),
    {
        let ghost ts = self@.topics;
        let mut out: Vec<Topic> = Vec::new();
        let mut gone: Vec<i64> = Vec::new();
        let mut k: usize = 0;
        while k < self.topics.len()
            invariant
                k <= self.topics.len(),
                ts == self@.topics,
                ts == topics_view(self.topics@),
                topics_view(out@) == ts.take(k as int).filter(|t: TopicView| t.collection_id != collection_id),
                forall|t: i64| gone@.contains(t) <==> exists|j: int|
                    0 <= j < k && #[trigger] ts[j].collection_id == collection_id && ts[j].id == t,
            decreases self.topics.len() - k,
        {
            let ghost before = topics_view(out@);
            let ghost gone_before = gone@;
            assert(ts[k as int] == self.topics@[k as int]@);
            proof {
                reveal(Seq::filter);
                assert(ts.take(k + 1).drop_last() =~= ts.take(k as int));
            }
            if self.topics[k].collection_id != collection_id {
                let t = self.topics[k].copy();
                out.push(t);
                assert(topics_view(out@) =~= before.push(ts[k as int]));
            } else {
                gone.push(self.topics[k].id);
            }
            proof {
                assert forall|t: i64| gone@.contains(t) <==> exists|j: int|
                    0 <= j < k + 1 && #[trigger] ts[j].collection_id == collection_id && ts[j].id == t by {
                    if gone@.contains(t) {
                        let x = choose|x: int| 0 <= x < gone@.len() && gone@[x] == t;
                        if x < gone_before.len() {
                            assert(gone_before[x] == t);
                            assert(gone_before.contains(t));
                        } else {
                            assert(ts[k as int].collection_id == collection_id && ts[k as int].id == t);
                        }
                    }
                    if exists|j: int| 0 <= j < k + 1 && #[trigger] ts[j].collection_id == collection_id && ts[j].id == t {
                        let j = choose|j: int| 0 <= j < k + 1 && #[trigger] ts[j].collection_id == collection_id && ts[j].id == t;
                        if j < k {
                            assert(gone_before.contains(t));
                            let x = choose|x: int| 0 <= x < gone_before.len() && gone_before[x] == t;
                            assert(gone@[x] == t);
                        } else {
                            assert(gone@[gone_before.len() as int] == t);
                        }
                    }
                }
            }
            k += 1;
        }
        assert(ts.take(k as int) =~= ts);
        proof {
            assert forall|t: i64| gone@.to_set().contains(t) <==> topic_ids_of(self@, collection_id).contains(t) by {
                if topic_ids_of(self@, collection_id).contains(t) {
                    let j = choose|j: int| 0 <= j < ts.len() && #[trigger] ts[j].collection_id == collection_id && ts[j].id == t;
                    assert(ts[j].collection_id == collection_id && ts[j].id == t);
                }
            }
            assert(gone@.to_set() =~= topic_ids_of(self@, collection_id));
        }
        (out, gone)
    }

    /// Takes the topics `gone` out of every word's memberships.
    fn drop_memberships(&mut self, gone: &Vec<i64>)
        ensures
            final(self)@ == (StoreView { words: without_topics(old(self)@.words, gone@.to_set()), ..old(self)@ }),
    {
        let ghost s = self@;
        let ghost g = gone@.to_set();
        let mut i: usize = 0;
        while i < self.words.len()
            invariant
                i <= self.words.len(),
                self.words.len() == s.words.len(),
                g == gone@.to_set(),
                self@ == (StoreView { words: self@.words, ..s }),
                forall|j: int| 0 <= j < i ==> #[trigger] self@.words[j] == without_topics(s.words, g)[j],
                forall|j: int| i <= j < s.words.len() ==> #[trigger] self@.words[j] == s.words[j],
            decreases self.words.len() - i,
        {
            let ghost w0 = self@.words;
            let mut row = self.words.remove(i);
            assert(row_view(row) == w0[i as int]);
            let kept = keep_ids(&row.topics, gone);
            row.topics = kept;
            let ghost rv = row_view(row);
            self.words.insert(i, row);
            proof {
                assert(self@.words =~= w0.update(i as int, rv));
                assert((|t: i64| !gone@.contains(t)) =~= (|t: i64| !g.contains(t)));
                assert(rv == without_topics(s.words, g)[i as int]);
            }
            i += 1;
        }
        assert(self@.words =~= without_topics(s.words, g));
    }

    /// The topics other than `id`, in order.
    fn topics_except(&self, id: i64) -> (r: Vec<Topic>)
        ensures
            topics_view(r@) == self@.topics.filter(|t: TopicView| t.id != id),
    {
        let ghost ts = self@.topics;
        let mut out: Vec<Topic> = Vec::new();
        let mut k: usize = 0;
        while k < self.topics.len()
            invariant
                k <= self.topics.len(),
                ts == self@.topics,
                ts == topics_view(self.topics@),
                topics_view(out@) == ts.take(k as int).filter(|t: TopicView| t.id != id),
            decreases self.topics.len() - k,
        {
            let ghost before = topics_view(out@);
            assert(ts[k as int] == self.topics@[k as int]@);
            proof {
                reveal(Seq::filter);
                assert(ts.take(k + 1).drop_last() =~= ts.take(k as int));
            }
            if self.topics[k].id != id {
                let t = self.topics[k].copy();
                out.push(t);
                assert(topics_view(out@) =~= before.push(ts[k as int]));
            }
            k += 1;
        }
        assert(ts.take(k as int) =~= ts);
        out
    }

    /// Copies of the topics at positions `ps`, in that order.
    fn topics_at(&self, ps: &Vec<usize>) -> (r: Vec<Topic>)
        requires
            forall|k: int| 0 <= k < ps.len() ==> #[trigger] ps@[k] < self@.topics.len(),
        ensures
            topics_view(r@) == ps@.map_values(|p: usize| self@.topics[p as int]),
    {
        let ghost ts = self@.topics;
        let mut out: Vec<Topic> = Vec::new();
        let mut k: usize = 0;
        while k < ps.len()
            invariant
                k <= ps.len(),
                ts == self@.topics,
                ts == topics_view(self.topics@),
                forall|m: int| 0 <= m < ps.len() ==> #[trigger] ps@[m] < ts.len(),
                topics_view(out@) == ps@.take(k as int).map_values(|p: usize| ts[p as int]),
            decreases ps.len() - k,
        {
            assert(ps@[k as int] < ts.len());
            let t = self.topics[ps[k]].copy();
            let ghost before = out@;
            out.push(t);
            proof {
                assert(topics_view(out@) =~= topics_view(before).push(t@));
                assert(ps@.take(k + 1) =~= ps@.take(k as int).push(ps@[k as int]));
                assert(ps@.take(k + 1).map_values(|p: usize| ts[p as int]) =~= ps@.take(k as int).map_values(|p: usize| ts[p as int]).push(ts[ps@[k as int] as int]));
            }
            k += 1;
        }
        assert(ps@.take(k as int) =~= ps@);
        out
    }

    /// The names of all topics, in storage order.
    fn topic_name_list(&self) -> (r: Vec<String>)
        ensures
            strs(r@) == topic_names(self@.topics),
    {
        let ghost ts = self@.topics;
        let mut names: Vec<String> = Vec::new();
        let mut i: usize = 0;
        while i < self.topics.len()
            invariant
                i <= self.topics.len(),
                ts == self@.topics,
                ts == topics_view(self.topics@),
                names.len() == i,
                forall|j: int| 0 <= j < i ==> #[trigger] names@[j]@ == ts[j].name,
            decreases self.topics.len() - i,
        {
            names.push(self.topics[i].name.clone());
            i += 1;
        }
        assert(strs(names@) =~= topic_names(ts));
        names
    }

    /// Whether the word at position `i` carries `tag`.
    fn row_has_tag(&self, i: usize, tag: &String) -> (r: bool)
        requires
            i < self@.words.len(),
        ensures
            r == has_tag(self@.words[i as int], tag@),
    {
        let ghost rv = self@.words[i as int];
        assert(row_view(self.words@[i as int]) == rv);
        let tags = &self.words[i].record.metadata.tags;
        let mut k: usize = 0;
        while k < tags.len()
            invariant
                k <= tags.len(),
                i < self@.words.len(),
                rv == self@.words[i as int],
                strs(tags@) == rv.record.metadata.tags,
                forall|j: int| 0 <= j < k ==> #[trigger] rv.record.metadata.tags[j] != tag@,
            decreases tags.len() - k,
        {
            assert(rv.record.metadata.tags[k as int] == tags@[k as int]@);
            if tags[k] == *tag {
                assert(tags@[k as int]@ == tag@);
                assert(rv.record.metadata.tags[k as int] == tag@);
                assert(rv.record.metadata.tags.contains(tag@));
                return true;
            }
            k += 1;
        }
        false
    }

    /// Whether the word at position `i` is in a topic matching both scopes.
    fn row_in_scope(&self, i: usize, topic_id: Option<i64>, collection_id: Option<i64>) -> (r: bool)
        requires
            i < self@.words.len(),
        ensures
            r == in_scope(self@, self@.words[i as int], topic_id, collection_id),
    {
        if topic_id.is_none() && collection_id.is_none() {
            return true;
        }
        let ghost s = self@;
        let ghost rv = s.words[i as int];
        assert(row_view(self.words@[i as int]) == rv);
        let mut j: usize = 0;
        while j < self.topics.len()
            invariant
                j <= self.topics.len(),
                i < self.words.len(),
                s == self@,
                rv == s.words[i as int],
                s.topics == topics_view(self.topics@),
                rv.topics == self.words@[i as int].topics@,
                !(topic_id is None && collection_id is None),
                forall|k: int| 0 <= k < j ==> !(rv.topics.contains(#[trigger] s.topics[k].id) && (topic_id matches Some(t) ==> s.topics[k].id == t)
                    && (collection_id matches Some(c) ==> s.topics[k].collection_id == c)),
            decreases self.topics.len() - j,
        {
            assert(s.topics[j as int] == self.topics@[j as int]@);
            let t = &self.topics[j];
            let tid_ok = match topic_id {
                Some(x) => t.id == x,
                None => true,
            };
            let cid_ok = match collection_id {
                Some(c) => t.collection_id == c,
                None => true,
            };
            if tid_ok && cid_ok && contains_id(&self.words[i].topics, t.id) {
                assert(rv.topics.contains(s.topics[j as int].id));
                assert(0 <= j < s.topics.len() && rv.topics.contains(s.topics[j as int].id) && (topic_id matches Some(x) ==> s.topics[j as int].id == x)
                    && (collection_id matches Some(c) ==> s.topics[j as int].collection_id == c));
                return true;
            }
            j += 1;
        }
        false
    }

    /// The positions of the words passing the filters of `o`, in order.
    fn selected_list(&self, o: &QueryOptions) -> (r: Vec<usize>)
        ensures
            r@.no_duplicates(),
            r@.to_set() == selected_positions(self@, *o),
            forall|a: int, c: int| 0 <= a < c < r.len() ==> #[trigger] r@[a] < #[trigger] r@[c],
            forall|k: int| 0 <= k < r.len() ==> #[trigger] r@[k] < self@.words.len(),
    {
        let ghost s = self@;
        let mut out: Vec<usize> = Vec::new();
        let mut i: usize = 0;
        while i < self.words.len()
            invariant
                i <= self.words.len(),
                s == self@,
                s.words.len() == self.words.len(),
                forall|a: int, c: int| 0 <= a < c < out.len() ==> #[trigger] out@[a] < #[trigger] out@[c],
                forall|k: int| 0 <= k < out.len() ==> #[trigger] out@[k] < i,
                forall|x: usize| out@.contains(x) <==> (x < i && selected(s, *o, x as int)),
            decreases self.words.len() - i,
        {
            let tag_ok = match &o.tag_filter {
                Some(t) => self.row_has_tag(i, t),
                None => true,
            };
            let ok = tag_ok && self.row_in_scope(i, o.topic_id, o.collection_id);
            if ok {
                let ghost before = out@;
                out.push(i);
                proof {
                    assert forall|x: usize| out@.contains(x) <==> (x < i + 1 && selected(s, *o, x as int)) by {
                        if x == i {
                            assert(out@[before.len() as int] == x);
                        } else if out@.contains(x) {
                            let m = choose|m: int| 0 <= m < out@.len() && out@[m] == x;
                            assert(before[m] == x);
                            assert(before.contains(x));
                        } else if x < i && selected(s, *o, x as int) {
                            assert(before.contains(x));
                            let m = choose|m: int| 0 <= m < before.len() && before[m] == x;
                            assert(out@[m] == x);
                        }
                    }
                }
            }
            i += 1;
        }
        proof {
            assert forall|a: int, c: int| 0 <= a < c < out.len() implies out@[a] != out@[c] by {}
            assert(out@.to_set() =~= selected_positions(s, *o)) by {
                assert forall|x: usize| out@.to_set().contains(x) <==> selected_positions(s, *o).contains(x) by {
                    assert(out@.contains(x) <==> (x < s.words.len() && selected(s, *o, x as int)));
                }
            }
        }
        out
    }

    /// The sort key of every stored word under `b`.
    fn sort_keys(&self, b: SortBy) -> (r: Vec<SortKey>)
        ensures
            r.len() == self@.words.len(),
            forall|i: int| 0 <= i < r.len() ==> key_matches(#[trigger] r@[i], b, self@.words[i]),
    {
        let mut keys: Vec<SortKey> = Vec::new();
        let mut i: usize = 0;
        while i < self.words.len()
            invariant
                i <= self.words.len(),
                keys.len() == i,
                forall|j: int| 0 <= j < i ==> key_matches(#[trigger] keys@[j], b, self@.words[j]),
            decreases self.words.len() - i,
        {
            assert(row_view(self.words@[i as int]) == self@.words[i as int]);
            let row = &self.words[i];
            let k = match b {
                SortBy::Word => SortKey::Text(row.record.word.clone()),
                SortBy::CreatedAt => SortKey::TextDesc(copy_opt(&row.record.metadata.created_at)),
                SortBy::ReviewCount => SortKey::CountDesc(row.review_count),
            };
            keys.push(k);
            i += 1;
        }
        keys
    }

    /// The words at positions `ps`, read back in that order.
    fn load_positions(&self, ps: &Vec<usize>) -> (r: Result<Vec<WordRecord>, DbError>)
        requires
            forall|k: int| 0 <= k < ps.len() ==> #[trigger] ps@[k] < self@.words.len(),
        ensures
            load_all_outcome(self@, ps@, r),
    {
        let ghost s = self@;
        let mut out: Vec<WordRecord> = Vec::new();
        let mut k: usize = 0;
        while k < ps.len()
            invariant
                k <= ps.len(),
                s == self@,
                forall|m: int| 0 <= m < ps.len() ==> #[trigger] ps@[m] < s.words.len(),
                forall|m: int| 0 <= m < k ==> loadable(s.words[#[trigger] ps@[m] as int]),
                crate::parser::json::words_view(out@) == ps@.take(k as int).map_values(|p: usize| loaded(s.words[p as int])),
            decreases ps.len() - k,
        {
            let w = match self.load_row(ps[k]) {
                Ok(w) => w,
                Err(e) => {
                    return Err(e);
                },
            };
            let ghost before = out@;
            out.push(w);
            proof {
                assert(crate::parser::json::words_view(out@) =~= crate::parser::json::words_view(before).push(w@));
                assert(ps@.take(k + 1) =~= ps@.take(k as int).push(ps@[k as int]));
                assert(ps@.take(k + 1).map_values(|p: usize| loaded(s.words[p as int])) =~= ps@.take(k as int).map_values(|p: usize| loaded(s.words[p as int])).push(loaded(s.words[ps@[k as int] as int])));
            }
            k += 1;
        }
        assert(ps@.take(k as int) =~= ps@);
        Ok(out)
    }

    /// Whether the word at position `i` is in scope for a pick.
    fn row_in_pick_scope(&self, i: usize, topic_id: Option<i64>) -> (r: bool)
        requires
            i < self@.words.len(),
        ensures
            r == pick_scope(self@, i as int, topic_id),
    {
        assert(row_view(self.words@[i as int]) == self@.words[i as int]);
        match topic_id {
            Some(t) => contains_id(&self.words[i].topics, t),
            None => true,
        }
    }

    /// The positions of the words in scope for a pick, in order.
    fn pick_list(&self, topic_id: Option<i64>) -> (r: Vec<usize>)
        ensures
            pick_candidates(self@, topic_id, r@),
            forall|k: int| 0 <= k < r.len() ==> #[trigger] r@[k] < self@.words.len(),
    {
        let ghost s = self@;
        let mut out: Vec<usize> = Vec::new();
        let mut i: usize = 0;
        while i < self.words.len()
            invariant
                i <= self.words.len(),
                s == self@,
                s.words.len() == self.words.len(),
                forall|a: int, c: int| 0 <= a < c < out.len() ==> #[trigger] out@[a] < #[trigger] out@[c],
                forall|k: int| 0 <= k < out.len() ==> #[trigger] out@[k] < i,
                forall|x: usize| out@.contains(x) <==> (x < i && pick_scope(s, x as int, topic_id)),
            decreases self.words.len() - i,
        {
            if self.row_in_pick_scope(i, topic_id) {
                let ghost before = out@;
                out.push(i);
                proof {
                    assert forall|x: usize| out@.contains(x) <==> (x < i + 1 && pick_scope(s, x as int, topic_id)) by {
                        if x == i {
                            assert(out@[before.len() as int] == x);
                        } else if out@.contains(x) {
                            let m = choose|m: int| 0 <= m < out@.len() && out@[m] == x;
                            assert(before[m] == x);
                            assert(before.contains(x));
                        } else if x < i && pick_scope(s, x as int, topic_id) {
                            assert(before.contains(x));
                            let m = choose|m: int| 0 <= m < before.len() && before[m] == x;
                            assert(out@[m] == x);
                        }
                    }
                }
            }
            i += 1;
        }
        out
    }

    /// The word at position `i`, read back.
    fn load_row(&self, i: usize) -> (r: Result<WordRecord, DbError>)
        requires
            i < self@.words.len(),
        ensures
            load_outcome(self@.words[i as int], r),
    {
        let row = &self.words[i];
        assert(row_view(*row) == self@.words[i as int]);
        if row.review_count > 0xFFFF_FFFFu64 {
            return Err(DbError::Storage("review count out of range".to_owned()));
        }
        let mut w = row.record.copy();
        w.metadata.review_count = row.review_count as u32;
        Ok(w)
    }

}

/// The message for a reference to a row that does not exist.
pub open spec fn missing_reference_message() -> Seq<char> {
    "FOREIGN KEY constraint failed"@
}

/// The message for a review event about a word that does not exist.
pub open spec fn missing_word_message() -> Seq<char> {
    "NOT NULL constraint failed: review_history.word_id"@
}

/// The message for a history too long to count in a `u32`.
pub open spec fn history_range_message() -> Seq<char> {
    "review history count out of range"@
}

/// The message for a second collection with a name already taken.
pub open spec fn collection_name_taken_message() -> Seq<char> {
    "UNIQUE constraint failed: collections.name"@
}

/// The message for a second topic with a name already taken in its
/// collection.
pub open spec fn topic_name_taken_message() -> Seq<char> {
    "UNIQUE constraint failed: topics.collection_id, topics.name"@
}

/// The message for an identifier past the largest one the store can give.
pub open spec fn ids_exhausted_message() -> Seq<char> {
    "database or disk is full"@
}

/// The characters of an optional string slice.
pub open spec fn opt_text(o: Option<&str>) -> Option<Seq<char>> {
    match o {
        Some(s) => Some(s@),
        None => None,
    }
}

/// The names of the collections, in storage order.
pub open spec fn collection_names(cs: Seq<CollectionView>) -> Seq<Seq<char>> {
    cs.map_values(|c: CollectionView| c.name)
}

/// The names of the topics, in storage order.
pub open spec fn topic_names(ts: Seq<TopicView>) -> Seq<Seq<char>> {
    ts.map_values(|t: TopicView| t.name)
}

/// The positions below `n`.
pub open spec fn positions_below(n: nat) -> Set<usize> {
    Set::new(|i: usize| i < n)
}

/// The positions of the topics of collection `collection_id`.
pub open spec fn topics_of_collection(ts: Seq<TopicView>, collection_id: i64) -> Set<usize> {
    Set::new(|i: usize| i < ts.len() && ts[i as int].collection_id == collection_id)
}

/// Whether some collection is named `name`.
pub open spec fn collection_name_used(s: StoreView, name: Seq<char>) -> bool {
    exists|j: int| 0 <= j < s.collections.len() && #[trigger] s.collections[j].name == name
}

/// What creating a collection at time `now` does: a taken name is refused,
/// then an exhausted identifier space; otherwise the collection is added
/// with the next identifier.
pub open spec fn create_collection_outcome(
    s: StoreView,
    name: Seq<char>,
    description: Option<Seq<char>>,
    now: Seq<char>,
    s2: StoreView,
    r: Result<Collection, DbError>,
) -> bool {
    if collection_name_used(s, name) {
        r matches Err(DbError::Storage(m)) && m@ == collection_name_taken_message() && s2 == s
    } else if s.last_collection_id == i64::MAX {
        r matches Err(DbError::Storage(m)) && m@ == ids_exhausted_message() && s2 == s
    } else {
        let c = CollectionView {
            id: (s.last_collection_id + 1) as i64,
            name,
            description,
            created_at: now,
        };
        &&& r matches Ok(x) && x@ == c
        &&& s2 == StoreView {
            collections: s.collections.push(c),
            last_collection_id: c.id,
            ..s
        }
    }
}

/// What creating a topic does: a name taken in the collection is refused,
/// then a collection that does not exist, then an exhausted identifier
/// space; otherwise the topic is added with the next identifier.
pub open spec fn create_topic_outcome(
    s: StoreView,
    collection_id: i64,
    name: Seq<char>,
    description: Option<Seq<char>>,
    s2: StoreView,
    r: Result<Topic, DbError>,
) -> bool {
    if exists|j: int|
        0 <= j < s.topics.len() && #[trigger] s.topics[j].collection_id == collection_id
            && s.topics[j].name == name {
        r matches Err(DbError::Storage(m)) && m@ == topic_name_taken_message() && s2 == s
    } else if forall|j: int| 0 <= j < s.collections.len() ==> #[trigger] s.collections[j].id != collection_id {
        r matches Err(DbError::Storage(m)) && m@ == missing_reference_message() && s2 == s
    } else if s.last_topic_id == i64::MAX {
        r matches Err(DbError::Storage(m)) && m@ == ids_exhausted_message() && s2 == s
    } else {
        let t = TopicView { id: (s.last_topic_id + 1) as i64, collection_id, name, description };
        &&& r matches Ok(x) && x@ == t
        &&& s2 == StoreView { topics: s.topics.push(t), last_topic_id: t.id, ..s }
    }
}

/// The positions of the topics whose identifiers are in `ids`.
pub open spec fn topics_among(ts: Seq<TopicView>, ids: Seq<i64>) -> Set<usize> {
    Set::new(|j: usize| j < ts.len() && ids.contains(ts[j as int].id))
}

/// Whether some topic has identifier `id`.
pub open spec fn topic_exists(s: StoreView, id: i64) -> bool {
    exists|j: int| 0 <= j < s.topics.len() && #[trigger] s.topics[j].id == id
}

/// Whether the stored word carries tag `tag`.
pub open spec fn has_tag(r: RowView, tag: Seq<char>) -> bool {
    r.record.metadata.tags.contains(tag)
}

/// Whether the stored word belongs to a topic that matches both scopes:
/// the topic itself and the collection it is in. Without either scope every
/// word matches.
pub open spec fn in_scope(s: StoreView, r: RowView, topic_id: Option<i64>, collection_id: Option<i64>) -> bool {
    (topic_id is None && collection_id is None) || exists|j: int|
        0 <= j < s.topics.len() && r.topics.contains(#[trigger] s.topics[j].id) && (topic_id matches Some(t) ==> s.topics[j].id == t)
            && (collection_id matches Some(c) ==> s.topics[j].collection_id == c)
}

/// Whether the word at position `i` passes the filters of `o`.
pub open spec fn selected(s: StoreView, o: QueryOptions, i: int) -> bool {
    &&& (o.tag_filter matches Some(t) ==> has_tag(s.words[i], t@))
    &&& in_scope(s, s.words[i], o.topic_id, o.collection_id)
}

/// The positions of the words that pass the filters of `o`.
pub open spec fn selected_positions(s: StoreView, o: QueryOptions) -> Set<usize> {
    Set::new(|i: usize| i < s.words.len() && selected(s, o, i as int))
}

/// Whether stored word `x` sorts strictly before `y` under `b`: by word
/// ascending, by creation time descending with undated words last, or by
/// review count descending.
pub open spec fn row_key_lt(b: SortBy, x: RowView, y: RowView) -> bool {
    match b {
        SortBy::Word => lex_lt(x.record.word, y.record.word),
        SortBy::CreatedAt => match (x.record.metadata.created_at, y.record.metadata.created_at) {
            (Some(p), Some(q)) => lex_lt(q, p),
            (Some(_), None) => true,
            _ => false,
        },
        SortBy::ReviewCount => x.review_count > y.review_count,
    }
}

/// Position `i` is listed before position `j` under `b`: a smaller key, or
/// an equivalent key and an earlier position.
pub open spec fn word_precedes(s: StoreView, b: SortBy, i: int, j: int) -> bool {
    row_key_lt(b, s.words[i], s.words[j]) || (!row_key_lt(b, s.words[j], s.words[i]) && i < j)
}

/// The positions `ps` in the order a listing uses: by `sort` when there is
/// one, else by position.
pub open spec fn listing_order(s: StoreView, sort: Option<SortBy>, ps: Seq<usize>) -> bool {
    match sort {
        Some(b) => forall|a: int, c: int|
            0 <= a < c < ps.len() ==> word_precedes(s, b, #[trigger] ps[a] as int, #[trigger] ps[c] as int),
        None => forall|a: int, c: int| 0 <= a < c < ps.len() ==> #[trigger] ps[a] < #[trigger] ps[c],
    }
}

/// The part of a listing that a limit keeps.
pub open spec fn limited(ps: Seq<usize>, limit: Option<usize>) -> Seq<usize> {
    match limit {
        Some(n) => if n < ps.len() {
            ps.take(n as int)
        } else {
            ps
        },
        None => ps,
    }
}

/// What reading the words at positions `ps` back gives: all of them, or the
/// error for one that cannot be read.
pub open spec fn load_all_outcome(s: StoreView, ps: Seq<usize>, r: Result<Vec<WordRecord>, DbError>) -> bool {
    if forall|k: int| 0 <= k < ps.len() ==> loadable(s.words[#[trigger] ps[k] as int]) {
        r matches Ok(v) && crate::parser::json::words_view(v@) == ps.map_values(|p: usize| loaded(s.words[p as int]))
    } else {
        r matches Err(DbError::Storage(m)) && m@ == count_range_message()
    }
}

/// What a listing with options `o` gives: the words passing the filters,
/// each once, in the listing order, cut to the limit, read back.
pub open spec fn query_outcome(s: StoreView, o: QueryOptions, r: Result<Vec<WordRecord>, DbError>) -> bool {
    exists|ps: Seq<usize>|
        #![trigger limited(ps, o.limit)]
        ps.no_duplicates() && ps.to_set() == selected_positions(s, o) && listing_order(s, o.sort, ps)
            && load_all_outcome(s, limited(ps, o.limit), r)
}

/// Whether the word at position `i` is in scope for a pick: any word, or
/// one in topic `topic_id`.
pub open spec fn pick_scope(s: StoreView, i: int, topic_id: Option<i64>) -> bool {
    topic_id matches Some(t) ==> s.words[i].topics.contains(t)
}

/// Whether the word at position `i` is in scope and due at `now`.
pub open spec fn due_candidate(s: StoreView, i: int, now: Seq<char>, topic_id: Option<i64>) -> bool {
    0 <= i < s.words.len() && lex_le(s.words[i].due_at, now) && pick_scope(s, i, topic_id)
}

/// What picking the word due first gives: nothing when no word in scope is
/// due at `now`; else the due word with the earliest due time, the earliest
/// stored among equal times, read back.
pub open spec fn pick_due_outcome(s: StoreView, now: Seq<char>, topic_id: Option<i64>, r: Result<Option<WordRecord>, DbError>) -> bool {
    if forall|i: int| !#[trigger] due_candidate(s, i, now, topic_id) {
        r matches Ok(None)
    } else {
        exists|i: int|
            #[trigger] due_candidate(s, i, now, topic_id) && (forall|j: int|
                #[trigger] due_candidate(s, j, now, topic_id) && j != i ==> lex_lt(s.words[i].due_at, s.words[j].due_at)
                    || (s.words[i].due_at == s.words[j].due_at && i < j)) && if loadable(s.words[i]) {
                r matches Ok(Some(w)) && w@ == loaded(s.words[i])
            } else {
                r matches Err(DbError::Storage(m)) && m@ == count_range_message()
            }
    }
}

/// The positions of the words in scope for a pick, in storage order.
pub open spec fn pick_candidates(s: StoreView, topic_id: Option<i64>, ps: Seq<usize>) -> bool {
    &&& forall|a: int, c: int| 0 <= a < c < ps.len() ==> #[trigger] ps[a] < #[trigger] ps[c]
    &&& forall|x: usize| ps.contains(x) <==> (x < s.words.len() && pick_scope(s, x as int, topic_id))
}

/// What picking by `seed` gives: nothing when no word is in scope; else the
/// word in scope at position `seed` modulo their number, read back.
pub open spec fn pick_seeded_outcome(s: StoreView, topic_id: Option<i64>, seed: u64, r: Result<Option<WordRecord>, DbError>) -> bool {
    exists|ps: Seq<usize>|
        #[trigger] pick_candidates(s, topic_id, ps) && if ps.len() == 0 {
            r matches Ok(None)
        } else {
            let i = ps[(seed as int) % (ps.len() as int)] as int;
            if loadable(s.words[i]) {
                r matches Ok(Some(w)) && w@ == loaded(s.words[i])
            } else {
                r matches Err(DbError::Storage(m)) && m@ == count_range_message()
            }
        }
}

/// What a random pick may give: nothing exactly when no word is in scope;
/// else one of the words in scope, read back.
pub open spec fn pick_any_outcome(s: StoreView, topic_id: Option<i64>, r: Result<Option<WordRecord>, DbError>) -> bool {
    if forall|i: int| 0 <= i < s.words.len() ==> !#[trigger] pick_scope(s, i, topic_id) {
        r matches Ok(None)
    } else {
        exists|i: int|
            0 <= i < s.words.len() && #[trigger] pick_scope(s, i, topic_id) && if loadable(s.words[i]) {
                r matches Ok(Some(w)) && w@ == loaded(s.words[i])
            } else {
                r matches Err(DbError::Storage(m)) && m@ == count_range_message()
            }
    }
}

/// Whether `k` is the sort key of stored word `r` under `b`.
pub open spec fn key_matches(k: SortKey, b: SortBy, r: RowView) -> bool {
    match (k, b) {
        (SortKey::Text(t), SortBy::Word) => t@ == r.record.word,
        (SortKey::TextDesc(o), SortBy::CreatedAt) => opt_str(o) == r.record.metadata.created_at,
        (SortKey::CountDesc(c), SortBy::ReviewCount) => c == r.review_count,
        _ => false,
    }
}

proof fn lemma_key_matches(ka: SortKey, kb: SortKey, b: SortBy, x: RowView, y: RowView)
    requires
        key_matches(ka, b, x),
        key_matches(kb, b, y),
    ensures
        key_lt(ka, kb) == row_key_lt(b, x, y),
{
}

/// What picking the next word gives: with spaced repetition on and a word
/// due, the due pick; otherwise a random pick.
pub open spec fn pick_next_outcome(s: StoreView, srs_enabled: bool, now: Seq<char>, topic_id: Option<i64>, r: Result<Option<WordRecord>, DbError>) -> bool {
    if srs_enabled && exists|i: int| #[trigger] due_candidate(s, i, now, topic_id) {
        pick_due_outcome(s, now, topic_id, r)
    } else {
        pick_any_outcome(s, topic_id, r)
    }
}

/// What putting the word under `key` into topic `topic_id` does: an unknown
/// word or a membership already held changes nothing; an unknown topic is
/// an error; otherwise the topic is added to the word's memberships.
pub open spec fn assign_outcome(s: StoreView, key: Seq<char>, topic_id: i64, s2: StoreView, r: Result<(), DbError>) -> bool {
    match word_index(s, key) {
        None => r is Ok && s2 == s,
        Some(i) => if !topic_exists(s, topic_id) {
            r matches Err(DbError::Storage(m)) && m@ == missing_reference_message() && s2 == s
        } else if s.words[i].topics.contains(topic_id) {
            r is Ok && s2 == s
        } else {
            r is Ok && s2 == with_word(s, i, RowView { topics: s.words[i].topics.push(topic_id), ..s.words[i] })
        },
    }
}

/// What finding or creating the collection named `name` at time `now`
/// does: an existing one is returned and nothing changes; otherwise it is
/// created (see `create_collection_outcome`).
pub open spec fn find_or_create_collection_outcome(s: StoreView, name: Seq<char>, now: Seq<char>, s2: StoreView, r: Result<Collection, DbError>) -> bool {
    if collection_name_used(s, name) {
        s2 == s && (r matches Ok(c) && exists|j: int|
            0 <= j < s.collections.len() && #[trigger] s.collections[j].name == name && c@ == s.collections[j])
    } else {
        create_collection_outcome(s, name, None, now, s2, r)
    }
}

/// Whether collection `collection_id` has a topic named `name`.
pub open spec fn topic_name_used(s: StoreView, collection_id: i64, name: Seq<char>) -> bool {
    exists|j: int| 0 <= j < s.topics.len() && #[trigger] s.topics[j].collection_id == collection_id && s.topics[j].name == name
}

/// What finding or creating the topic named `name` in collection
/// `collection_id` does: an existing one is returned and nothing changes;
/// otherwise it is created (see `create_topic_outcome`).
pub open spec fn find_or_create_topic_outcome(s: StoreView, collection_id: i64, name: Seq<char>, s2: StoreView, r: Result<Topic, DbError>) -> bool {
    if topic_name_used(s, collection_id, name) {
        s2 == s && (r matches Ok(t) && exists|j: int|
            0 <= j < s.topics.len() && #[trigger] s.topics[j].collection_id == collection_id && s.topics[j].name == name && t@ == s.topics[j])
    } else {
        create_topic_outcome(s, collection_id, name, None, s2, r)
    }
}

/// The topic identifiers of collection `collection_id`.
pub open spec fn topic_ids_of(s: StoreView, collection_id: i64) -> Set<i64> {
    Set::new(
        |tid: i64|
            exists|k: int|
                0 <= k < s.topics.len() && #[trigger] s.topics[k].collection_id == collection_id
                    && s.topics[k].id == tid,
    )
}

/// Every word with the topics `gone` taken out of its memberships.
pub open spec fn without_topics(ws: Seq<RowView>, gone: Set<i64>) -> Seq<RowView> {
    ws.map_values(|w: RowView| RowView { topics: w.topics.filter(|t: i64| !gone.contains(t)), ..w })
}

/// What an upsert reports: whether the word was new, and how many
/// definitions, examples and tags the written record has.
#[derive(Debug, Clone, PartialEq, Eq, Structural)]
pub struct UpsertResult {
    pub inserted: bool,
    pub definitions_count: usize,
    pub examples_count: usize,
    pub tags_count: usize,
}

/// The form in which a new record is stored: as given, except that its tags
/// are kept once each in ascending order and its related words once each.
pub open spec fn is_stored_form(st: WordView, w: WordView) -> bool {
    &&& st.word == w.word
    &&& st.phonetic == w.phonetic
    &&& st.definitions == w.definitions
    &&& st.examples == w.examples
    &&& st.synonyms == dedup(w.synonyms)
    &&& st.antonyms == dedup(w.antonyms)
    &&& st.family_words == dedup(w.family_words)
    &&& is_merged_tags(st.metadata.tags, Seq::<Seq<char>>::empty(), w.metadata.tags)
    &&& st.metadata.created_at == w.metadata.created_at
    &&& st.metadata.review_count == w.metadata.review_count
}

/// The store after the word at position `i` is replaced by `row`; the rest
/// is unchanged.
pub open spec fn with_word(s: StoreView, i: int, row: RowView) -> StoreView {
    StoreView { words: s.words.update(i, row), ..s }
}

/// What an upsert of `rec` at time `now` does to store `s`, leaving `s2` and
/// answering `r`. An invalid record is refused. A new key is stored in its
/// stored form, due for review at `now`, with an empty history and no topic.
/// A known key is merged with what is stored (see `is_merged_record`); its
/// schedule, history and topics stay.
pub open spec fn upsert_outcome(
    s: StoreView,
    rec: WordView,
    now: Seq<char>,
    s2: StoreView,
    r: Result<UpsertResult, DbError>,
) -> bool {
    match validation_of(rec) {
        Some(e) => r matches Err(DbError::Validation(m)) && m@ == validation_message(e) && s2 == s,
        None => match word_index(s, key_of(rec.word)) {
            None => {
                &&& r matches Ok(u) && u.inserted && u.definitions_count == rec.definitions.len()
                    && u.examples_count == rec.examples.len() && u.tags_count
                    == rec.metadata.tags.len()
                &&& s2.words.len() == s.words.len() + 1
                &&& s2.words.drop_last() == s.words
                &&& s2.words.last().key == key_of(rec.word)
                &&& is_stored_form(s2.words.last().record, rec)
                &&& s2.words.last().review_count == rec.metadata.review_count
                &&& s2.words.last().due_at == now
                &&& s2.words.last().history.len() == 0
                &&& s2.words.last().topics.len() == 0
                &&& s2.collections == s.collections
                &&& s2.topics == s.topics
                &&& s2.last_collection_id == s.last_collection_id
                &&& s2.last_topic_id == s.last_topic_id
            },
            Some(i) => if !loadable(s.words[i]) {
                r matches Err(DbError::Storage(m)) && m@ == count_range_message() && s2 == s
            } else {
                let m = s2.words[i].record;
                &&& r matches Ok(u) && !u.inserted && u.definitions_count == m.definitions.len()
                    && u.examples_count == m.examples.len() && u.tags_count
                    == m.metadata.tags.len()
                &&& is_merged_record(m, loaded(s.words[i]), rec)
                &&& s2 == with_word(
                    s,
                    i,
                    RowView { record: m, review_count: m.metadata.review_count as nat, ..s.words[i] },
                )
            },
        },
    }
}

/// The stored form of a new record.
fn stored_form(record: &WordRecord) -> (r: WordRecord)
    ensures
        is_stored_form(r@, record@),
{
    let ghost e = Seq::<Seq<char>>::empty();
    let synonyms = merge_string_vec(Vec::new(), copy_strings(&record.synonyms));
    let antonyms = merge_string_vec(Vec::new(), copy_strings(&record.antonyms));
    let family_words = merge_string_vec(Vec::new(), copy_strings(&record.family_words));
    let tags = merge_tags(Vec::new(), copy_strings(&record.metadata.tags));
    assert(e + record@.synonyms =~= record@.synonyms);
    assert(e + record@.antonyms =~= record@.antonyms);
    assert(e + record@.family_words =~= record@.family_words);
    assert(strs(Seq::<String>::empty()) =~= e);
    WordRecord {
        word: record.word.clone(),
        phonetic: copy_opt(&record.phonetic),
        definitions: copy_definitions(&record.definitions),
        examples: copy_strings(&record.examples),
        synonyms,
        antonyms,
        family_words,
        metadata: Metadata {
            tags,
            created_at: copy_opt(&record.metadata.created_at),
            review_count: record.metadata.review_count,
        },
    }
}

/// Whether `t` is the RFC 3339 text of an instant that the clock can give:
/// one at or after the Unix epoch, with a nanosecond part below one second.
pub open spec fn clock_text(t: Seq<char>) -> bool {
    exists|secs: i64, nanos: u32|
        0 <= secs && nanos < 1_000_000_000 && #[trigger] rfc3339_text(secs, nanos) == Some(t)
}

/// The current time as RFC 3339 text: the text of the instant the clock
/// reads; or an error where the clock reads a time before the Unix epoch or
/// one that `chrono` cannot write.
pub fn now_text() -> (r: Result<String, DbError>)
    ensures
        match r {
            Ok(s) => clock_text(s@),
            Err(e) => e matches DbError::Storage(m) && m@ == clock_range_message(),
        },
{
    let t = match clock_now() {
        Some(t) => t,
        None => return Err(DbError::Storage("current time out of range".to_owned())),
    };
    match format_rfc3339(t) {
        Some(s) => Ok(s),
        None => Err(DbError::Storage("current time out of range".to_owned())),
    }
}

/// Whether `x` is in `v`.
fn contains_id(v: &Vec<i64>, x: i64) -> (r: bool)
    ensures
        r == v@.contains(x),
{
    let mut i: usize = 0;
    while i < v.len()
        invariant
            i <= v.len(),
            forall|j: int| 0 <= j < i ==> #[trigger] v@[j] != x,
        decreases v.len() - i,
    {
        if v[i] == x {
            assert(v@[i as int] == x);
            return true;
        }
        i += 1;
    }
    false
}

/// Each member of a filtered sequence is a member of the original, at
/// positions that rise with the filtered positions.
proof fn lemma_filter_indices<A>(s: Seq<A>, pred: spec_fn(A) -> bool) -> (idx: Seq<int>)
    ensures
        idx.len() == s.filter(pred).len(),
        forall|a: int| 0 <= a < idx.len() ==> 0 <= #[trigger] idx[a] < s.len() && s[idx[a]] == s.filter(pred)[a],
        forall|a: int, b: int| 0 <= a < b < idx.len() ==> #[trigger] idx[a] < #[trigger] idx[b],
    decreases s.len(),
{
    reveal(Seq::filter);
    if s.len() == 0 {
        Seq::empty()
    } else {
        let rest = lemma_filter_indices(s.drop_last(), pred);
        if pred(s.last()) {
            let idx = rest.push(s.len() - 1);
            assert forall|a: int| 0 <= a < idx.len() implies 0 <= #[trigger] idx[a] < s.len() && s[idx[a]] == s.filter(pred)[a] by {
                if a < rest.len() {
                    assert(s.drop_last()[rest[a]] == s[rest[a]]);
                }
            }
            idx
        } else {
            assert forall|a: int| 0 <= a < rest.len() implies 0 <= #[trigger] rest[a] < s.len() && s[rest[a]] == s.filter(pred)[a] by {
                assert(s.drop_last()[rest[a]] == s[rest[a]]);
            }
            rest
        }
    }
}

/// The identifiers of `ids` that are not in `gone`, in order.
fn keep_ids(ids: &Vec<i64>, gone: &Vec<i64>) -> (r: Vec<i64>)
    ensures
        r@ == ids@.filter(|t: i64| !gone@.contains(t)),
{
    let mut out: Vec<i64> = Vec::new();
    let mut k: usize = 0;
    while k < ids.len()
        invariant
            k <= ids.len(),
            out@ == ids@.take(k as int).filter(|t: i64| !gone@.contains(t)),
        decreases ids.len() - k,
    {
        let t = ids[k];
        let mut present = false;
        let mut g: usize = 0;
        while g < gone.len()
            invariant
                g <= gone.len(),
                present <==> gone@.take(g as int).contains(t),
            decreases gone.len() - g,
        {
            let ghost pre = gone@.take(g as int);
            assert(gone@.take(g + 1) =~= pre.push(gone@[g as int]));
            if gone[g] == t {
                present = true;
            }
            proof {
                if gone@[g as int] == t {
                    assert(gone@.take(g + 1)[g as int] == t);
                }
                if pre.contains(t) {
                    let x = choose|x: int| 0 <= x < pre.len() && pre[x] == t;
                    assert(gone@.take(g + 1)[x] == t);
                }
                if gone@.take(g + 1).contains(t) && gone@[g as int] != t {
                    let x = choose|x: int| 0 <= x < g + 1 && #[trigger] gone@.take(g + 1)[x] == t;
                    assert(pre[x] == t);
                }
            }
            g += 1;
        }
        assert(gone@.take(g as int) =~= gone@);
        proof {
            reveal(Seq::filter);
            assert(ids@.take(k + 1).drop_last() =~= ids@.take(k as int));
        }
        if !present {
            out.push(t);
        }
        k += 1;
    }
    assert(ids@.take(k as int) =~= ids@);
    out
}

/// The vocabulary repository: reads and writes words, their review schedule
/// and history, and the collections and topics that group them.
pub struct WordRepository {
    db: Database,
}

impl View for WordRepository {
    type V = StoreView;

    closed spec fn view(&self) -> StoreView {
        self.db@
    }
}

impl WordRepository {
    /// The repository's invariant.
    pub open spec fn wf(&self) -> bool {
        store_wf(self@)
    }

    /// A repository over the store `db`.
    pub fn new(db: Database) -> (r: WordRepository)
        requires
            db.wf(),
        ensures
            r.wf(),
            r@ == db@,
    {
        WordRepository { db }
    }

    /// The record stored under `word_key`, if any. The key is matched
    /// exactly, so it must already be normalized.
    pub fn get_by_word_key(&self, word_key: &str) -> (r: Result<Option<WordRecord>, DbError>)
        ensures
            lookup_outcome(self@, word_key@, r),
    {
        match self.db.find_word(word_key) {
            None => Ok(None),
            Some(i) => match self.db.load_row(i) {
                Ok(w) => Ok(Some(w)),
                Err(e) => Err(e),
            },
        }
    }

    /// Writes `record` as of time `now`: validates it, then inserts it under
    /// its key, or merges it into the word already stored there.
    pub fn upsert_at(&mut self, record: &WordRecord, now: &str) -> (r: Result<UpsertResult, DbError>)
        requires
            old(self).wf(),
        ensures
            final(self).wf(),
            upsert_outcome(old(self)@, record@, now@, final(self)@, r),
    {
        match record.validate() {
            Err(e) => {
                return Err(DbError::Validation(e.to_string()));
            },
            Ok(()) => {},
        }
        let key = record.word_key();
        match self.db.find_word(key.as_str()) {
            None => {
                let ghost s = self@;
                proof {
                    lemma_position_of(word_keys(s.words), key@);
                }
                let stored = stored_form(record);
                let row = WordRow {
                    key,
                    record: stored,
                    review_count: record.metadata.review_count as u64,
                    due_at: now.to_owned(),
                    history: Vec::new(),
                    topics: Vec::new(),
                };
                let ghost rv = row_view(row);
                self.db.words.push(row);
                proof {
                    assert(self@.words =~= s.words.push(rv));
                    assert(self@.words.drop_last() =~= s.words);
                    assert(self@.collections == s.collections);
                    assert(self@.topics == s.topics);
                    assert(rv.history =~= Seq::<(Seq<char>, bool)>::empty());
                    assert forall|a: int, b: int|
                        0 <= a < b < self@.words.len() implies #[trigger] self@.words[a].key
                        != #[trigger] self@.words[b].key by {
                        if b == s.words.len() {
                            assert(word_keys(s.words)[a] == s.words[a].key);
                        }
                    }
                    lemma_wf_words(s, self@);
                }
                Ok(UpsertResult {
                    inserted: true,
                    definitions_count: record.definitions.len(),
                    examples_count: record.examples.len(),
                    tags_count: record.metadata.tags.len(),
                })
            },
            Some(i) => {
                let old_record = match self.db.load_row(i) {
                    Ok(w) => w,
                    Err(e) => {
                        return Err(e);
                    },
                };
                let ghost s = self@;
                let merged = merge_records(&old_record, record);
                let definitions_count = merged.definitions.len();
                let examples_count = merged.examples.len();
                let tags_count = merged.metadata.tags.len();
                let mut row = self.db.words.remove(i);
                row.review_count = merged.metadata.review_count as u64;
                row.record = merged;
                let ghost rv = row_view(row);
                self.db.words.insert(i, row);
                proof {
                    assert(self@.words =~= s.words.update(i as int, rv));
                    assert(self@.collections == s.collections);
                    assert(rv == RowView {
                        record: rv.record,
                        review_count: rv.record.metadata.review_count as nat,
                        ..s.words[i as int]
                    });
                    assert(self@ == with_word(s, i as int, rv));
                    assert forall|a: int, b: int|
                        0 <= a < b < self@.words.len() implies #[trigger] self@.words[a].key
                        != #[trigger] self@.words[b].key by {
                        assert(self@.words[a].key == s.words[a].key);
                        assert(self@.words[b].key == s.words[b].key);
                    }
                    assert forall|k: int| 0 <= k < self@.words.len() implies #[trigger] self@.words[k].key
                        == key_of(self@.words[k].record.word) by {
                        if k != i {
                            assert(self@.words[k] == s.words[k]);
                        } else {
                            lemma_position_of(word_keys(s.words), key@);
                            assert(word_keys(s.words)[k] == s.words[k].key);
                        }
                    }
                    lemma_wf_words(s, self@);
                }
                Ok(UpsertResult { inserted: false, definitions_count, examples_count, tags_count })
            },
        }
    }

    /// Writes `record` as of the current time (see `upsert_at`); a valid
    /// record may instead meet the clock's failure, with nothing changed.
    pub fn upsert(&mut self, record: &WordRecord) -> (r: Result<UpsertResult, DbError>)
        requires
            old(self).wf(),
        ensures
            final(self).wf(),
            (exists|now: Seq<char>| (is_valid(record@) ==> clock_text(now)) && #[trigger] upsert_outcome(old(self)@, record@, now, final(self)@, r)) || (is_valid(record@)
                && (r matches Err(DbError::Storage(m)) && m@ == clock_range_message() && final(self)@
                == old(self)@)),
    {
        match record.validate() {
            Err(e) => {
                let r = Err(DbError::Validation(e.to_string()));
                assert(!is_valid(record@));
                assert((is_valid(record@) ==> clock_text(Seq::empty())) && upsert_outcome(old(self)@, record@, Seq::empty(), self@, r));
                return r;
            },
            Ok(()) => {},
        }
        let now = match now_text() {
            Ok(t) => t,
            Err(e) => {
                return Err(e);
            },
        };
        let r = self.upsert_at(record, now.as_str());
        assert(clock_text(now@) && upsert_outcome(old(self)@, record@, now@, self@, r));
        r
    }
    /// Adds one to the review count of the word under `word_key`; an unknown
    /// key changes nothing. The count is kept in 64 bits and stops at its
    /// maximum.
    pub fn increment_review_count_by_word_key(&mut self, word_key: &str) -> (r: Result<(), DbError>)
        requires
            old(self).wf(),
        ensures
            final(self).wf(),
            r is Ok,
            match word_index(old(self)@, word_key@) {
                None => final(self)@ == old(self)@,
                Some(i) => final(self)@ == with_word(
                    old(self)@,
                    i,
                    RowView {
                        review_count: if old(self)@.words[i].review_count < u64::MAX {
                            old(self)@.words[i].review_count + 1
                        } else {
                            old(self)@.words[i].review_count
                        },
                        ..old(self)@.words[i]
                    },
                ),
            },
    {
        match self.db.find_word(word_key) {
            None => Ok(()),
            Some(i) => {
                let ghost s = self@;
                let mut row = self.db.words.remove(i);
                if row.review_count < u64::MAX {
                    row.review_count = row.review_count + 1;
                }
                let ghost rv = row_view(row);
                self.db.words.insert(i, row);
                proof {
                    assert(self@.words =~= s.words.update(i as int, rv));
                    assert forall|a: int, b: int|
                        0 <= a < b < self@.words.len() implies #[trigger] self@.words[a].key
                        != #[trigger] self@.words[b].key by {
                        assert(self@.words[a].key == s.words[a].key);
                        assert(self@.words[b].key == s.words[b].key);
                    }
                    lemma_wf_words(s, self@);
                }
                Ok(())
            },
        }
    }

    /// Sets when the word under `word_key` is next due. An unknown key is an
    /// error: the schedule refers to words that exist.
    pub fn set_due_at_by_word_key(&mut self, word_key: &str, due_at: &str) -> (r: Result<(), DbError>)
        requires
            old(self).wf(),
        ensures
            final(self).wf(),
            match word_index(old(self)@, word_key@) {
                None => r matches Err(DbError::Storage(m)) && m@ == missing_reference_message()
                    && final(self)@ == old(self)@,
                Some(i) => r is Ok && final(self)@ == with_word(
                    old(self)@,
                    i,
                    RowView { due_at: due_at@, ..old(self)@.words[i] },
                ),
            },
    {
        match self.db.find_word(word_key) {
            None => Err(DbError::Storage("FOREIGN KEY constraint failed".to_owned())),
            Some(i) => {
                let ghost s = self@;
                let mut row = self.db.words.remove(i);
                row.due_at = due_at.to_owned();
                let ghost rv = row_view(row);
                self.db.words.insert(i, row);
                proof {
                    assert(self@.words =~= s.words.update(i as int, rv));
                    assert forall|a: int, b: int|
                        0 <= a < b < self@.words.len() implies #[trigger] self@.words[a].key
                        != #[trigger] self@.words[b].key by {
                        assert(self@.words[a].key == s.words[a].key);
                        assert(self@.words[b].key == s.words[b].key);
                    }
                    lemma_wf_words(s, self@);
                }
                Ok(())
            },
        }
    }

    /// When the word under `word_key` is next due, if the word exists.
    pub fn get_due_at_by_word_key(&self, word_key: &str) -> (r: Result<Option<String>, DbError>)
        ensures
            match word_index(self@, word_key@) {
                None => r matches Ok(None),
                Some(i) => r matches Ok(Some(d)) && d@ == self@.words[i].due_at,
            },
    {
        match self.db.find_word(word_key) {
            None => Ok(None),
            Some(i) => {
                assert(row_view(self.db.words@[i as int]) == self@.words[i as int]);
                Ok(Some(self.db.words[i].due_at.clone()))
            },
        }
    }

    /// Appends a review of the word under `word_key` to its history. An
    /// unknown key is an error.
    pub fn record_review_event(&mut self, word_key: &str, was_correct: bool, reviewed_at: &str) -> (r: Result<(), DbError>)
        requires
            old(self).wf(),
        ensures
            final(self).wf(),
            match word_index(old(self)@, word_key@) {
                None => r matches Err(DbError::Storage(m)) && m@ == missing_word_message()
                    && final(self)@ == old(self)@,
                Some(i) => r is Ok && final(self)@ == with_word(
                    old(self)@,
                    i,
                    RowView {
                        history: old(self)@.words[i].history.push((reviewed_at@, was_correct)),
                        ..old(self)@.words[i]
                    },
                ),
            },
    {
        match self.db.find_word(word_key) {
            None => Err(DbError::Storage("NOT NULL constraint failed: review_history.word_id".to_owned())),
            Some(i) => {
                let ghost s = self@;
                let mut row = self.db.words.remove(i);
                let ghost h = row.history@;
                let ev = ReviewEvent { reviewed_at: reviewed_at.to_owned(), was_correct };
                let ghost evv = ev;
                row.history.push(ev);
                let ghost rv = row_view(row);
                self.db.words.insert(i, row);
                proof {
                    assert(history_view(h.push(evv)) =~= history_view(h).push((reviewed_at@, was_correct)));
                    assert(rv.history =~= s.words[i as int].history.push((reviewed_at@, was_correct)));
                    assert(self@.words =~= s.words.update(i as int, rv));
                    assert forall|a: int, b: int|
                        0 <= a < b < self@.words.len() implies #[trigger] self@.words[a].key
                        != #[trigger] self@.words[b].key by {
                        assert(self@.words[a].key == s.words[a].key);
                        assert(self@.words[b].key == s.words[b].key);
                    }
                    lemma_wf_words(s, self@);
                }
                Ok(())
            },
        }
    }

    /// Removes the word under `word_key` with its schedule, history and topic
    /// memberships; an unknown key changes nothing.
    pub fn delete_by_word_key(&mut self, word_key: &str) -> (r: Result<(), DbError>)
        requires
            old(self).wf(),
        ensures
            final(self).wf(),
            r is Ok,
            match word_index(old(self)@, word_key@) {
                None => final(self)@ == old(self)@,
                Some(i) => final(self)@ == (StoreView { words: old(self)@.words.remove(i), ..old(self)@ }),
            },
    {
        match self.db.find_word(word_key) {
            None => Ok(()),
            Some(i) => {
                let ghost s = self@;
                let _gone = self.db.words.remove(i);
                proof {
                    assert(self@.words =~= s.words.remove(i as int));
                    assert forall|a: int, b: int|
                        0 <= a < b < self@.words.len() implies #[trigger] self@.words[a].key
                        != #[trigger] self@.words[b].key by {
                        let a2 = if a < i { a } else { a + 1 };
                        let b2 = if b < i { b } else { b + 1 };
                        assert(self@.words[a].key == s.words[a2].key);
                        assert(self@.words[b].key == s.words[b2].key);
                    }
                    lemma_wf_words(s, self@);
                }
                Ok(())
            },
        }
    }

    /// How many reviews of the word under `word_key` are recorded; zero for
    /// an unknown key.
    pub fn review_history_count_by_word_key(&self, word_key: &str) -> (r: Result<u32, DbError>)
        ensures
            match word_index(self@, word_key@) {
                None => r == Ok::<u32, DbError>(0),
                Some(i) => if self@.words[i].history.len() <= u32::MAX {
                    r matches Ok(n) && n == self@.words[i].history.len()
                } else {
                    r matches Err(DbError::Storage(m)) && m@ == history_range_message()
                },
            },
    {
        match self.db.find_word(word_key) {
            None => Ok(0),
            Some(i) => {
                assert(row_view(self.db.words@[i as int]) == self@.words[i as int]);
                let n = self.db.words[i].history.len();
                if n > 0xFFFF_FFFFusize {
                    Err(DbError::Storage("review history count out of range".to_owned()))
                } else {
                    Ok(n as u32)
                }
            },
        }
    }
    /// All collections, ordered by name.
    pub fn list_collections(&self) -> (r: Result<Vec<Collection>, DbError>)
        ensures
            r matches Ok(v) && exists|ps: Seq<usize>|
                arranged_by_name(collection_names(self@.collections), positions_below(self@.collections.len()), ps)
                    && collections_view(v@) == ps.map_values(|p: usize| self@.collections[p as int]),
    {
        let ghost cs = self@.collections;
        let mut names: Vec<String> = Vec::new();
        let mut cands: Vec<usize> = Vec::new();
        let mut i: usize = 0;
        while i < self.db.collections.len()
            invariant
                i <= self.db.collections.len(),
                cs == self@.collections,
                cs == collections_view(self.db.collections@),
                names.len() == i,
                cands.len() == i,
                forall|j: int| 0 <= j < i ==> #[trigger] names@[j]@ == cs[j].name,
                forall|j: int| 0 <= j < i ==> #[trigger] cands@[j] == j,
            decreases self.db.collections.len() - i,
        {
            names.push(self.db.collections[i].name.clone());
            cands.push(i);
            i += 1;
        }
        proof {
            assert(strs(names@) =~= collection_names(cs));
            assert(cands@.no_duplicates());
            assert(cands@.to_set() =~= positions_below(cs.len())) by {
                assert forall|x: usize| cands@.to_set().contains(x) <==> positions_below(cs.len()).contains(x) by {
                    if x < cs.len() {
                        assert(cands@[x as int] == x);
                    }
                }
            }
        }
        let ps = arrange_by_name(&names, &cands);
        let mut out: Vec<Collection> = Vec::new();
        let mut k: usize = 0;
        while k < ps.len()
            invariant
                k <= ps.len(),
                cs == self@.collections,
                cs == collections_view(self.db.collections@),
                arranged_by_name(collection_names(cs), positions_below(cs.len()), ps@),
                collections_view(out@) == ps@.take(k as int).map_values(|p: usize| cs[p as int]),
            decreases ps.len() - k,
        {
            assert(ps@[k as int] < collection_names(cs).len());
            let c = self.db.collections[ps[k]].copy();
            let ghost before = out@;
            out.push(c);
            proof {
                assert(collections_view(out@) =~= collections_view(before).push(c@));
                assert(ps@.take(k + 1) =~= ps@.take(k as int).push(ps@[k as int]));
                assert(ps@.take(k + 1).map_values(|p: usize| cs[p as int]) =~= ps@.take(k as int).map_values(|p: usize| cs[p as int]).push(cs[ps@[k as int] as int]));
            }
            k += 1;
        }
        assert(ps@.take(k as int) =~= ps@);
        Ok(out)
    }

    /// Adds a collection as of time `now`.
    pub fn create_collection_at(&mut self, name: &str, description: Option<&str>, now: &str) -> (r: Result<Collection, DbError>)
        requires
            old(self).wf(),
        ensures
            final(self).wf(),
            create_collection_outcome(old(self)@, name@, opt_text(description), now@, final(self)@, r),
    {
        if let Some(_) = self.db.collection_named(name) {
            return Err(DbError::Storage("UNIQUE constraint failed: collections.name".to_owned()));
        }
        if self.db.last_collection_id == i64::MAX {
            return Err(DbError::Storage("database or disk is full".to_owned()));
        }
        let ghost s = self@;
        let id = self.db.last_collection_id + 1;
        let description = match description {
            Some(d) => Some(d.to_owned()),
            None => None,
        };
        let c = Collection { id, name: name.to_owned(), description, created_at: now.to_owned() };
        let out = c.copy();
        self.db.collections.push(c);
        self.db.last_collection_id = id;
        proof {
            assert(self@.collections =~= s.collections.push(out@));
            assert(self@ == StoreView { collections: s.collections.push(out@), last_collection_id: id, ..s });
            lemma_push_collection(s, out@);
        }
        Ok(out)
    }

    /// Adds a collection as of the current time (see `create_collection_at`).
    pub fn create_collection(&mut self, name: &str, description: Option<&str>) -> (r: Result<Collection, DbError>)
        requires
            old(self).wf(),
        ensures
            final(self).wf(),
            (exists|now: Seq<char>|
                clock_text(now) && #[trigger] create_collection_outcome(old(self)@, name@, opt_text(description), now, final(self)@, r))
                || (r matches Err(DbError::Storage(m)) && m@ == clock_range_message() && final(self)@
                == old(self)@),
    {
        let now = match now_text() {
            Ok(t) => t,
            Err(e) => {
                return Err(e);
            },
        };
        let r = self.create_collection_at(name, description, now.as_str());
        assert(create_collection_outcome(old(self)@, name@, opt_text(description), now@, self@, r));
        r
    }

    /// Renames and redescribes the collection `id`. An unknown identifier
    /// changes nothing; a name taken by another collection is refused.
    pub fn update_collection(&mut self, id: i64, name: &str, description: Option<&str>) -> (r: Result<(), DbError>)
        requires
            old(self).wf(),
        ensures
            final(self).wf(),
            (forall|j: int| 0 <= j < old(self)@.collections.len() ==> #[trigger] old(self)@.collections[j].id != id)
                ==> r is Ok && final(self)@ == old(self)@,
            forall|i: int| 0 <= i < old(self)@.collections.len() && #[trigger] old(self)@.collections[i].id == id ==> if exists|j: int|
                0 <= j < old(self)@.collections.len() && j != i && #[trigger] old(self)@.collections[j].name == name@ {
                r matches Err(DbError::Storage(m)) && m@ == collection_name_taken_message() && final(self)@ == old(self)@
            } else {
                r is Ok && final(self)@ == StoreView {
                    collections: old(self)@.collections.update(
                        i,
                        CollectionView { name: name@, description: opt_text(description), ..old(self)@.collections[i] },
                    ),
                    ..old(self)@
                }
            },
    {
        let ghost s = self@;
        let i = match self.db.collection_position(id) {
            None => {
                return Ok(());
            },
            Some(i) => i,
        };
        let key = name.to_owned();
        let mut j: usize = 0;
        while j < self.db.collections.len()
            invariant
                j <= self.db.collections.len(),
                self@ == s,
                store_wf(s),
                key@ == name@,
                s.collections == collections_view(self.db.collections@),
                i < s.collections.len(),
                s.collections[i as int].id == id,
                forall|k: int| 0 <= k < j && k != i ==> #[trigger] s.collections[k].name != name@,
            decreases self.db.collections.len() - j,
        {
            assert(s.collections[j as int] == self.db.collections@[j as int]@);
            if j != i && self.db.collections[j].name == key {
                proof {
                    assert(s.collections[j as int].name == name@);
                    assert forall|i2: int| 0 <= i2 < s.collections.len() && #[trigger] s.collections[i2].id == id implies i2 == i by {
                        if i2 < i { assert(s.collections[i2].id < s.collections[i as int].id); }
                        if i2 > i { assert(s.collections[i as int].id < s.collections[i2].id); }
                    }
                }
                return Err(DbError::Storage("UNIQUE constraint failed: collections.name".to_owned()));
            }
            j += 1;
        }
        let description = match description {
            Some(d) => Some(d.to_owned()),
            None => None,
        };
        let old_c = self.db.collections.remove(i);
        let c = Collection { id: old_c.id, name: name.to_owned(), description, created_at: old_c.created_at };
        let ghost cv = c@;
        self.db.collections.insert(i, c);
        proof {
            assert(self@.collections =~= s.collections.update(i as int, cv));
            assert forall|i2: int| 0 <= i2 < s.collections.len() && #[trigger] s.collections[i2].id == id implies i2 == i by {
                if i2 < i { assert(s.collections[i2].id < s.collections[i as int].id); }
                if i2 > i { assert(s.collections[i as int].id < s.collections[i2].id); }
            }
            assert forall|a: int, b: int| 0 <= a < b < self@.collections.len() implies #[trigger] self@.collections[a].id
                < #[trigger] self@.collections[b].id && self@.collections[a].name != self@.collections[b].name by {
                assert(s.collections[a].id < s.collections[b].id);
            }
        }
        Ok(())
    }

    /// The collection named `name`, created as of time `now` when there is
    /// none.
    pub fn find_or_create_collection_at(&mut self, name: &str, now: &str) -> (r: Result<Collection, DbError>)
        requires
            old(self).wf(),
        ensures
            final(self).wf(),
            find_or_create_collection_outcome(old(self)@, name@, now@, final(self)@, r),
    {
        match self.db.collection_named(name) {
            Some(i) => {
                let c = self.db.collections[i].copy();
                assert(self@.collections[i as int] == self.db.collections@[i as int]@);
                Ok(c)
            },
            None => self.create_collection_at(name, None, now),
        }
    }

    /// The collection named `name`, created as of the current time when
    /// there is none.
    pub fn find_or_create_collection(&mut self, name: &str) -> (r: Result<Collection, DbError>)
        requires
            old(self).wf(),
        ensures
            final(self).wf(),
            collection_name_used(old(self)@, name@) ==> final(self)@ == old(self)@ && (r matches Ok(
                c) && exists|j: int|
                0 <= j < old(self)@.collections.len() && #[trigger] old(self)@.collections[j].name
                    == name@ && c@ == old(self)@.collections[j]),
            !collection_name_used(old(self)@, name@) ==> (exists|now: Seq<char>|
                clock_text(now) && #[trigger] create_collection_outcome(old(self)@, name@, None, now, final(self)@, r)) || (
                r matches Err(DbError::Storage(m)) && m@ == clock_range_message() && final(self)@
                == old(self)@),
    {
        match self.db.collection_named(name) {
            Some(i) => {
                let c = self.db.collections[i].copy();
                assert(self@.collections[i as int] == self.db.collections@[i as int]@);
                Ok(c)
            },
            None => self.create_collection(name, None),
        }
    }

    /// Removes the collection `id`, its topics, and every word's membership
    /// in those topics.
    pub fn delete_collection(&mut self, id: i64) -> (r: Result<(), DbError>)
        requires
            old(self).wf(),
        ensures
            final(self).wf(),
            r is Ok,
            final(self)@ == (StoreView {
                words: without_topics(old(self)@.words, topic_ids_of(old(self)@, id)),
                collections: old(self)@.collections.filter(|c: CollectionView| c.id != id),
                topics: old(self)@.topics.filter(|t: TopicView| t.collection_id != id),
                ..old(self)@
            }),
    {
        let ghost s = self@;
        let kept_c = self.db.collections_except(id);
        let (kept_t, gone) = self.db.topics_outside(id);
        self.db.drop_memberships(&gone);
        self.db.collections = kept_c;
        self.db.topics = kept_t;
        proof {
            let cf = s.collections.filter(|c: CollectionView| c.id != id);
            let tf = s.topics.filter(|t: TopicView| t.collection_id != id);
            let ci = lemma_filter_indices(s.collections, |c: CollectionView| c.id != id);
            let ti = lemma_filter_indices(s.topics, |t: TopicView| t.collection_id != id);
            assert forall|a: int, b: int| 0 <= a < b < cf.len() implies #[trigger] cf[a].id < #[trigger] cf[b].id
                && cf[a].name != cf[b].name by {
                assert(cf[a] == s.collections[ci[a]] && cf[b] == s.collections[ci[b]]);
            }
            assert forall|a: int| 0 <= a < cf.len() implies 0 < #[trigger] cf[a].id <= s.last_collection_id by {
                assert(cf[a] == s.collections[ci[a]]);
            }
            assert forall|a: int, b: int| 0 <= a < b < tf.len() implies #[trigger] tf[a].id < #[trigger] tf[b].id
                && !(tf[a].collection_id == tf[b].collection_id && tf[a].name == tf[b].name) by {
                assert(tf[a] == s.topics[ti[a]] && tf[b] == s.topics[ti[b]]);
            }
            assert forall|a: int| 0 <= a < tf.len() implies 0 < #[trigger] tf[a].id <= s.last_topic_id by {
                assert(tf[a] == s.topics[ti[a]]);
            }
            assert forall|a: int, b: int| 0 <= a < b < self@.words.len() implies #[trigger] self@.words[a].key != #[trigger] self@.words[b].key by {
                assert(self@.words[a].key == s.words[a].key);
                assert(self@.words[b].key == s.words[b].key);
            }
        }
        Ok(())
    }
    /// The topics of collection `collection_id`, ordered by name.
    pub fn list_topics(&self, collection_id: i64) -> (r: Result<Vec<Topic>, DbError>)
        ensures
            r matches Ok(v) && exists|ps: Seq<usize>|
                arranged_by_name(topic_names(self@.topics), topics_of_collection(self@.topics, collection_id), ps)
                    && topics_view(v@) == ps.map_values(|p: usize| self@.topics[p as int]),
    {
        let ghost ts = self@.topics;
        let names = self.db.topic_name_list();
        let mut cands: Vec<usize> = Vec::new();
        let mut i: usize = 0;
        while i < self.db.topics.len()
            invariant
                i <= self.db.topics.len(),
                ts == self@.topics,
                ts == topics_view(self.db.topics@),
                cands@.no_duplicates(),
                forall|k: int| 0 <= k < cands.len() ==> #[trigger] cands@[k] < i,
                forall|x: usize| cands@.contains(x) <==> (x < i && ts[x as int].collection_id == collection_id),
            decreases self.db.topics.len() - i,
        {
            assert(ts[i as int] == self.db.topics@[i as int]@);
            if self.db.topics[i].collection_id == collection_id {
                let ghost before = cands@;
                cands.push(i);
                proof {
                    assert forall|x: usize| cands@.contains(x) <==> (x < i + 1 && ts[x as int].collection_id == collection_id) by {
                        if x == i {
                            assert(cands@[before.len() as int] == x);
                        } else if cands@.contains(x) {
                            let m = choose|m: int| 0 <= m < cands@.len() && cands@[m] == x;
                            assert(before[m] == x);
                            assert(before.contains(x));
                        } else if x < i && ts[x as int].collection_id == collection_id {
                            assert(before.contains(x));
                            let m = choose|m: int| 0 <= m < before.len() && before[m] == x;
                            assert(cands@[m] == x);
                        }
                    }
                    assert forall|a: int, b: int| 0 <= a < b < cands.len() implies cands@[a] != cands@[b] by {
                        if b == before.len() {
                            assert(before[a] < i);
                        }
                    }
                }
            }
            i += 1;
        }
        assert(cands@.to_set() =~= topics_of_collection(ts, collection_id)) by {
            assert forall|x: usize| cands@.to_set().contains(x) <==> topics_of_collection(ts, collection_id).contains(x) by {
                assert(cands@.contains(x) <==> (x < ts.len() && ts[x as int].collection_id == collection_id));
            }
        }
        assert(names.len() == ts.len()) by {
            assert(strs(names@).len() == names@.len());
        }
        let ps = arrange_by_name(&names, &cands);
        let out = self.db.topics_at(&ps);
        Ok(out)
    }

    /// Adds a topic to collection `collection_id`.
    pub fn create_topic(&mut self, collection_id: i64, name: &str, description: Option<&str>) -> (r: Result<Topic, DbError>)
        requires
            old(self).wf(),
        ensures
            final(self).wf(),
            create_topic_outcome(old(self)@, collection_id, name@, opt_text(description), final(self)@, r),
    {
        if let Some(j) = self.db.topic_named(collection_id, name) {
            assert(self@.topics[j as int].collection_id == collection_id && self@.topics[j as int].name == name@);
            return Err(DbError::Storage("UNIQUE constraint failed: topics.collection_id, topics.name".to_owned()));
        }
        if let None = self.db.collection_position(collection_id) {
            return Err(DbError::Storage("FOREIGN KEY constraint failed".to_owned()));
        }
        if self.db.last_topic_id == i64::MAX {
            return Err(DbError::Storage("database or disk is full".to_owned()));
        }
        let ghost s = self@;
        let id = self.db.last_topic_id + 1;
        let description = match description {
            Some(d) => Some(d.to_owned()),
            None => None,
        };
        let t = Topic { id, collection_id, name: name.to_owned(), description };
        let out = t.copy();
        self.db.topics.push(t);
        self.db.last_topic_id = id;
        proof {
            assert(self@.topics =~= s.topics.push(out@));
            assert(self@ == StoreView { topics: s.topics.push(out@), last_topic_id: id, ..s });
            lemma_push_topic(s, out@);
        }
        Ok(out)
    }

    /// Renames and redescribes the topic `id`. An unknown identifier changes
    /// nothing; a name taken by another topic of the same collection is
    /// refused.
    pub fn update_topic(&mut self, id: i64, name: &str, description: Option<&str>) -> (r: Result<(), DbError>)
        requires
            old(self).wf(),
        ensures
            final(self).wf(),
            !topic_exists(old(self)@, id) ==> r is Ok && final(self)@ == old(self)@,
            forall|i: int| 0 <= i < old(self)@.topics.len() && #[trigger] old(self)@.topics[i].id == id ==> if exists|j: int|
                0 <= j < old(self)@.topics.len() && j != i && #[trigger] old(self)@.topics[j].collection_id
                    == old(self)@.topics[i].collection_id && old(self)@.topics[j].name == name@ {
                r matches Err(DbError::Storage(m)) && m@ == topic_name_taken_message() && final(self)@ == old(self)@
            } else {
                r is Ok && final(self)@ == (StoreView {
                    topics: old(self)@.topics.update(
                        i,
                        TopicView { name: name@, description: opt_text(description), ..old(self)@.topics[i] },
                    ),
                    ..old(self)@
                })
            },
    {
        let ghost s = self@;
        let i = match self.db.topic_position(id) {
            None => {
                return Ok(());
            },
            Some(i) => i,
        };
        let cid = self.db.topics[i].collection_id;
        assert(s.topics[i as int] == self.db.topics@[i as int]@);
        let key = name.to_owned();
        let mut j: usize = 0;
        while j < self.db.topics.len()
            invariant
                j <= self.db.topics.len(),
                self@ == s,
                store_wf(s),
                key@ == name@,
                s.topics == topics_view(self.db.topics@),
                i < s.topics.len(),
                s.topics[i as int].id == id,
                s.topics[i as int].collection_id == cid,
                forall|k: int| 0 <= k < j && k != i ==> !(#[trigger] s.topics[k].collection_id == cid && s.topics[k].name == name@),
            decreases self.db.topics.len() - j,
        {
            assert(s.topics[j as int] == self.db.topics@[j as int]@);
            if j != i && self.db.topics[j].collection_id == cid && self.db.topics[j].name == key {
                proof {
                    assert(s.topics[j as int].collection_id == cid && s.topics[j as int].name == name@);
                    assert forall|i2: int| 0 <= i2 < s.topics.len() && #[trigger] s.topics[i2].id == id implies i2 == i by {
                        if i2 < i { assert(s.topics[i2].id < s.topics[i as int].id); }
                        if i2 > i { assert(s.topics[i as int].id < s.topics[i2].id); }
                    }
                }
                return Err(DbError::Storage("UNIQUE constraint failed: topics.collection_id, topics.name".to_owned()));
            }
            j += 1;
        }
        let description = match description {
            Some(d) => Some(d.to_owned()),
            None => None,
        };
        let old_t = self.db.topics.remove(i);
        let t = Topic { id: old_t.id, collection_id: old_t.collection_id, name: name.to_owned(), description };
        let ghost tv = t@;
        self.db.topics.insert(i, t);
        proof {
            assert(self@.topics =~= s.topics.update(i as int, tv));
            assert forall|i2: int| 0 <= i2 < s.topics.len() && #[trigger] s.topics[i2].id == id implies i2 == i by {
                if i2 < i { assert(s.topics[i2].id < s.topics[i as int].id); }
                if i2 > i { assert(s.topics[i as int].id < s.topics[i2].id); }
            }
            assert forall|a: int, b: int| 0 <= a < b < self@.topics.len() implies #[trigger] self@.topics[a].id
                < #[trigger] self@.topics[b].id && !(self@.topics[a].collection_id == self@.topics[b].collection_id
                && self@.topics[a].name == self@.topics[b].name) by {
                assert(s.topics[a].id < s.topics[b].id);
                if a == i {
                    assert(self@.topics[b] == s.topics[b]);
                    assert(!(s.topics[b].collection_id == cid && s.topics[b].name == name@));
                } else if b == i {
                    assert(self@.topics[a] == s.topics[a]);
                    assert(!(s.topics[a].collection_id == cid && s.topics[a].name == name@));
                } else {
                    assert(self@.topics[a] == s.topics[a]);
                    assert(self@.topics[b] == s.topics[b]);
                }
            }
            assert forall|k: int| 0 <= k < self@.topics.len() implies 0 < #[trigger] self@.topics[k].id
                <= self@.last_topic_id by {
                assert(self@.topics[k].id == s.topics[k].id);
            }
        }
        Ok(())
    }

    /// Removes the topic `id` and every word's membership in it.
    pub fn delete_topic(&mut self, id: i64) -> (r: Result<(), DbError>)
        requires
            old(self).wf(),
        ensures
            final(self).wf(),
            r is Ok,
            final(self)@ == (StoreView {
                words: if topic_exists(old(self)@, id) {
                    without_topics(old(self)@.words, set![id])
                } else {
                    old(self)@.words
                },
                topics: old(self)@.topics.filter(|t: TopicView| t.id != id),
                ..old(self)@
            }),
    {
        let ghost s = self@;
        let found = self.db.topic_position(id);
        let kept = self.db.topics_except(id);
        if let Some(_) = found {
            let gone = vec![id];
            assert(gone@.to_set() =~= set![id]) by {
                assert(gone@[0] == id);
            }
            self.db.drop_memberships(&gone);
        }
        self.db.topics = kept;
        proof {
            let tf = s.topics.filter(|t: TopicView| t.id != id);
            let ti = lemma_filter_indices(s.topics, |t: TopicView| t.id != id);
            assert forall|a: int, b: int| 0 <= a < b < tf.len() implies #[trigger] tf[a].id < #[trigger] tf[b].id
                && !(tf[a].collection_id == tf[b].collection_id && tf[a].name == tf[b].name) by {
                assert(tf[a] == s.topics[ti[a]] && tf[b] == s.topics[ti[b]]);
            }
            assert forall|a: int| 0 <= a < tf.len() implies 0 < #[trigger] tf[a].id <= s.last_topic_id by {
                assert(tf[a] == s.topics[ti[a]]);
            }
            assert forall|a: int, b: int| 0 <= a < b < self@.words.len() implies #[trigger] self@.words[a].key != #[trigger] self@.words[b].key by {
                assert(self@.words[a].key == s.words[a].key);
                assert(self@.words[b].key == s.words[b].key);
            }
            if found is None {
                assert(self@.words == s.words);
            }
        }
        Ok(())
    }

    /// The topic named `name` in collection `collection_id`, created when
    /// there is none.
    pub fn find_or_create_topic(&mut self, collection_id: i64, name: &str) -> (r: Result<Topic, DbError>)
        requires
            old(self).wf(),
        ensures
            final(self).wf(),
            find_or_create_topic_outcome(old(self)@, collection_id, name@, final(self)@, r),
    {
        match self.db.topic_named(collection_id, name) {
            Some(i) => {
                let t = self.db.topics[i].copy();
                assert(self@.topics[i as int] == self.db.topics@[i as int]@);
                Ok(t)
            },
            None => self.create_topic(collection_id, name, None),
        }
    }

    /// Puts the word under `word_key` into topic `topic_id`. An unknown word
    /// or a membership already held changes nothing; an unknown topic is an
    /// error.
    pub fn assign_word_to_topic(&mut self, word_key: &str, topic_id: i64) -> (r: Result<(), DbError>)
        requires
            old(self).wf(),
        ensures
            final(self).wf(),
            assign_outcome(old(self)@, word_key@, topic_id, final(self)@, r),
    {
        let i = match self.db.find_word(word_key) {
            None => {
                return Ok(());
            },
            Some(i) => i,
        };
        match self.db.topic_position(topic_id) {
            None => {
                return Err(DbError::Storage("FOREIGN KEY constraint failed".to_owned()));
            },
            Some(j) => {
                assert(self@.topics[j as int].id == topic_id);
            },
        }
        assert(row_view(self.db.words@[i as int]) == self@.words[i as int]);
        if contains_id(&self.db.words[i].topics, topic_id) {
            return Ok(());
        }
        let ghost s = self@;
        let mut row = self.db.words.remove(i);
        row.topics.push(topic_id);
        let ghost rv = row_view(row);
        self.db.words.insert(i, row);
        proof {
            assert(self@.words =~= s.words.update(i as int, rv));
            assert forall|a: int, b: int|
                0 <= a < b < self@.words.len() implies #[trigger] self@.words[a].key
                != #[trigger] self@.words[b].key by {
                assert(self@.words[a].key == s.words[a].key);
                assert(self@.words[b].key == s.words[b].key);
            }
            assert forall|k: int| 0 <= k < self@.words.len() implies #[trigger] self@.words[k].key
                == key_of(self@.words[k].record.word) by {
                assert(self@.words[k].key == s.words[k].key && self@.words[k].record == s.words[k].record);
            }
            lemma_wf_words(s, self@);
        }
        Ok(())
    }

    /// The topics of the word under `word_key`, ordered by name; none for an
    /// unknown word.
    pub fn get_word_topics(&self, word_key: &str) -> (r: Result<Vec<Topic>, DbError>)
        ensures
            r matches Ok(v) && match word_index(self@, word_key@) {
                None => v@.len() == 0,
                Some(i) => exists|ps: Seq<usize>|
                    arranged_by_name(topic_names(self@.topics), topics_among(self@.topics, self@.words[i].topics), ps)
                        && topics_view(v@) == ps.map_values(|p: usize| self@.topics[p as int]),
            },
    {
        let w = match self.db.find_word(word_key) {
            None => {
                return Ok(Vec::new());
            },
            Some(w) => w,
        };
        let ghost ts = self@.topics;
        let ghost ids = self@.words[w as int].topics;
        assert(row_view(self.db.words@[w as int]) == self@.words[w as int]);
        let names = self.db.topic_name_list();
        let mut cands: Vec<usize> = Vec::new();
        let mut i: usize = 0;
        while i < self.db.topics.len()
            invariant
                i <= self.db.topics.len(),
                w < self.db.words.len(),
                ts == self@.topics,
                ts == topics_view(self.db.topics@),
                ids == self.db.words@[w as int].topics@,
                cands@.no_duplicates(),
                forall|k: int| 0 <= k < cands.len() ==> #[trigger] cands@[k] < i,
                forall|x: usize| cands@.contains(x) <==> (x < i && ids.contains(ts[x as int].id)),
            decreases self.db.topics.len() - i,
        {
            assert(ts[i as int] == self.db.topics@[i as int]@);
            if contains_id(&self.db.words[w].topics, self.db.topics[i].id) {
                let ghost before = cands@;
                cands.push(i);
                proof {
                    assert forall|x: usize| cands@.contains(x) <==> (x < i + 1 && ids.contains(ts[x as int].id)) by {
                        if x == i {
                            assert(cands@[before.len() as int] == x);
                        } else if cands@.contains(x) {
                            let m = choose|m: int| 0 <= m < cands@.len() && cands@[m] == x;
                            assert(before[m] == x);
                            assert(before.contains(x));
                        } else if x < i && ids.contains(ts[x as int].id) {
                            assert(before.contains(x));
                            let m = choose|m: int| 0 <= m < before.len() && before[m] == x;
                            assert(cands@[m] == x);
                        }
                    }
                    assert forall|a: int, b: int| 0 <= a < b < cands.len() implies cands@[a] != cands@[b] by {
                        if b == before.len() {
                            assert(before[a] < i);
                        }
                    }
                }
            }
            i += 1;
        }
        assert(cands@.to_set() =~= topics_among(ts, ids)) by {
            assert forall|x: usize| cands@.to_set().contains(x) <==> topics_among(ts, ids).contains(x) by {
                assert(cands@.contains(x) <==> (x < ts.len() && ids.contains(ts[x as int].id)));
            }
        }
        assert(names.len() == ts.len()) by {
            assert(strs(names@).len() == names@.len());
        }
        let ps = arrange_by_name(&names, &cands);
        let out = self.db.topics_at(&ps);
        Ok(out)
    }
    /// The words passing the filters of `options`, each once, ordered by its
    /// sort (by storage order without one), cut to its limit.
    pub fn query(&self, options: &QueryOptions) -> (r: Result<Vec<WordRecord>, DbError>)
        ensures
            query_outcome(self@, *options, r),
    {
        let ghost s = self@;
        let cands = self.db.selected_list(options);
        let mut ordered = match options.sort {
            Some(b) => {
                let keys = self.db.sort_keys(b);
                let ps = sort_positions(&keys, &cands);
                proof {
                    assert forall|a: int, c: int| 0 <= a < c < ps.len() implies word_precedes(s, b, #[trigger] ps@[a] as int, #[trigger] ps@[c] as int) by {
                        assert(precedes(keys@, ps@[a] as int, ps@[c] as int));
                        assert(ps@.to_set().contains(ps@[a]) && ps@.to_set().contains(ps@[c]));
                        assert(cands@.contains(ps@[a]) && cands@.contains(ps@[c]));
                        let ia = choose|m: int| 0 <= m < cands.len() && cands@[m] == ps@[a];
                        let ic = choose|m: int| 0 <= m < cands.len() && cands@[m] == ps@[c];
                        assert(ps@[a] < s.words.len() && ps@[c] < s.words.len());
                        lemma_key_matches(keys@[ps@[a] as int], keys@[ps@[c] as int], b, s.words[ps@[a] as int], s.words[ps@[c] as int]);
                        lemma_key_matches(keys@[ps@[c] as int], keys@[ps@[a] as int], b, s.words[ps@[c] as int], s.words[ps@[a] as int]);
                    }
                }
                ps
            },
            None => cands,
        };
        let ghost full = ordered@;
        proof {
            assert(full.to_set() == selected_positions(s, *options));
            assert forall|k: int| 0 <= k < full.len() implies #[trigger] full[k] < s.words.len() by {
                assert(full.to_set().contains(full[k]));
            }
        }
        match options.limit {
            Some(n) => {
                if n < ordered.len() {
                    ordered.truncate(n);
                }
            },
            None => {},
        }
        proof {
            assert(ordered@ == limited(full, options.limit)) by {
                if options.limit is Some && options.limit->0 < full.len() {
                    assert(full.subrange(0, options.limit->0 as int) =~= full.take(options.limit->0 as int));
                }
            }
            assert forall|k: int| 0 <= k < ordered.len() implies #[trigger] ordered@[k] < s.words.len() by {
                assert(ordered@[k] == full[k]);
            }
        }
        let r = self.db.load_positions(&ordered);
        assert(query_outcome(s, *options, r)) by {
            assert(full.no_duplicates() && full.to_set() == selected_positions(s, *options) && listing_order(s, options.sort, full)
                && load_all_outcome(s, limited(full, options.limit), r));
        }
        r
    }
    /// The word in scope that is due at `now` with the earliest due time
    /// (the earliest stored among equal times); nothing when none is due.
    /// Times are compared as text, which orders RFC 3339 times in UTC.
    pub fn pick_due_word_scoped(&self, now_utc: &str, topic_id: Option<i64>) -> (r: Result<Option<WordRecord>, DbError>)
        ensures
            pick_due_outcome(self@, now_utc@, topic_id, r),
    {
        let ghost s = self@;
        let mut best: Option<usize> = None;
        let mut i: usize = 0;
        while i < self.db.words.len()
            invariant
                i <= self.db.words.len(),
                s == self@,
                s.words.len() == self.db.words.len(),
                match best {
                    None => forall|j: int| 0 <= j < i ==> !#[trigger] due_candidate(s, j, now_utc@, topic_id),
                    Some(b) => b < i && due_candidate(s, b as int, now_utc@, topic_id) && forall|j: int|
                        0 <= j < i && #[trigger] due_candidate(s, j, now_utc@, topic_id) && j != b ==> lex_lt(
                            s.words[b as int].due_at,
                            s.words[j].due_at,
                        ) || (s.words[b as int].due_at == s.words[j].due_at && b < j),
                },
            decreases self.db.words.len() - i,
        {
            assert(row_view(self.db.words@[i as int]) == s.words[i as int]);
            let due = str_le(self.db.words[i].due_at.as_str(), now_utc) && self.db.row_in_pick_scope(i, topic_id);
            if due {
                match best {
                    None => {
                        best = Some(i);
                    },
                    Some(b) => {
                        assert(row_view(self.db.words@[b as int]) == s.words[b as int]);
                        if str_lt(self.db.words[i].due_at.as_str(), self.db.words[b].due_at.as_str()) {
                            proof {
                                assert forall|j: int|
                                    0 <= j < i + 1 && #[trigger] due_candidate(s, j, now_utc@, topic_id) && j != i implies lex_lt(
                                        s.words[i as int].due_at,
                                        s.words[j].due_at,
                                    ) || (s.words[i as int].due_at == s.words[j].due_at && i < j) by {
                                    if j != b {
                                        lemma_lex_trichotomy(s.words[b as int].due_at, s.words[j].due_at);
                                        lemma_lex_lt_trans(s.words[i as int].due_at, s.words[b as int].due_at, s.words[j].due_at);
                                    }
                                }
                            }
                            best = Some(i);
                        } else {
                            proof {
                                lemma_lex_trichotomy(s.words[i as int].due_at, s.words[b as int].due_at);
                            }
                        }
                    },
                }
            }
            i += 1;
        }
        match best {
            None => Ok(None),
            Some(b) => {
                let r = match self.db.load_row(b) {
                    Ok(w) => Ok(Some(w)),
                    Err(e) => Err(e),
                };
                proof {
                    assert(due_candidate(s, b as int, now_utc@, topic_id));
                }
                r
            },
        }
    }

    /// The word due first at `now_utc` (see `pick_due_word_scoped`).
    pub fn pick_due_word(&self, now_utc: &str) -> (r: Result<Option<WordRecord>, DbError>)
        ensures
            pick_due_outcome(self@, now_utc@, None, r),
    {
        self.pick_due_word_scoped(now_utc, None)
    }

    /// The word in scope at position `seed` modulo the number of words in
    /// scope; nothing when no word is in scope.
    pub fn pick_word_seeded(&self, topic_id: Option<i64>, seed: u64) -> (r: Result<Option<WordRecord>, DbError>)
        ensures
            pick_seeded_outcome(self@, topic_id, seed, r),
    {
        let ps = self.db.pick_list(topic_id);
        if ps.len() == 0 {
            assert(pick_candidates(self@, topic_id, ps@));
            return Ok(None);
        }
        let k = (seed % (ps.len() as u64)) as usize;
        let r = match self.db.load_row(ps[k]) {
            Ok(w) => Ok(Some(w)),
            Err(e) => Err(e),
        };
        assert(pick_candidates(self@, topic_id, ps@));
        r
    }

    /// A word in scope chosen by the clock's sub-second reading; nothing
    /// when no word is in scope.
    pub fn pick_random_word_scoped(&self, topic_id: Option<i64>) -> (r: Result<Option<WordRecord>, DbError>)
        ensures
            pick_any_outcome(self@, topic_id, r),
    {
        let seed: u64 = match clock_now() {
            Some(t) => t.nanos as u64,
            None => 0,
        };
        let r = self.pick_word_seeded(topic_id, seed);
        proof {
            let s = self@;
            let ps = choose|ps: Seq<usize>| #[trigger] pick_candidates(s, topic_id, ps) && if ps.len() == 0 {
                r matches Ok(None)
            } else {
                let i = ps[(seed as int) % (ps.len() as int)] as int;
                if loadable(s.words[i]) {
                    r matches Ok(Some(w)) && w@ == loaded(s.words[i])
                } else {
                    r matches Err(DbError::Storage(m)) && m@ == count_range_message()
                }
            };
            if ps.len() == 0 {
                assert(s.words.len() == self.db.words.len());
                assert forall|i: int| 0 <= i < s.words.len() implies !#[trigger] pick_scope(s, i, topic_id) by {
                    if pick_scope(s, i, topic_id) {
                        assert(ps.contains(i as usize));
                    }
                }
            } else {
                let i = ps[(seed as int) % (ps.len() as int)];
                assert(ps.contains(i));
                assert(pick_scope(s, i as int, topic_id));
            }
        }
        r
    }

    /// A word chosen by the clock (see `pick_random_word_scoped`).
    pub fn pick_random_word(&self) -> (r: Result<Option<WordRecord>, DbError>)
        ensures
            pick_any_outcome(self@, None, r),
    {
        self.pick_random_word_scoped(None)
    }

    /// The next word to test: with spaced repetition on, the word due first
    /// when one is due; otherwise a word chosen by the clock.
    pub fn pick_next_word_scoped(&self, srs_enabled: bool, now_utc: &str, topic_id: Option<i64>) -> (r: Result<Option<WordRecord>, DbError>)
        ensures
            pick_next_outcome(self@, srs_enabled, now_utc@, topic_id, r),
    {
        if srs_enabled {
            let due = self.pick_due_word_scoped(now_utc, topic_id);
            match due {
                Ok(None) => {},
                _ => {
                    return due;
                },
            }
        }
        self.pick_random_word_scoped(topic_id)
    }

    /// The next word to test (see `pick_next_word_scoped`).
    pub fn pick_next_word(&self, srs_enabled: bool, now_utc: &str) -> (r: Result<Option<WordRecord>, DbError>)
        ensures
            pick_next_outcome(self@, srs_enabled, now_utc@, None, r),
    {
        self.pick_next_word_scoped(srs_enabled, now_utc, None)
    }
}

} // verus!
