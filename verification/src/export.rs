//! Exporting the library as JSON text that the importer reads back.
use vstd::prelude::*;
use crate::db::DbError;
use crate::json::{
    items_view, json_view, lemma_items_view, lemma_members_view, members_view, pretty_json,
    write_json_pretty, Json, JsonMember, JsonNumber, JsonValue, NumberView,
};
use crate::model::{Definition, DefinitionView, Metadata, MetadataView, WordRecord, WordView};
use crate::parser::json::words_view;
use crate::repository::{loaded, query_outcome, QueryOptions, RowView, StoreView, WordRepository};
use crate::parser::ParseError;
use crate::model::opt_str;
use crate::json::{
    all_strs, as_opt_str, as_strs, as_strs_or_empty, as_u32_or_zero, field, lemma_plain_items, lemma_plain_values, lookup,
    parsed_json, plain_json,
};
use crate::parser::json::{first_invalid, json_bundle_result, BundleImport, decode_definition, decode_definition_items, decode_metadata, decode_payload, decode_word, decode_word_items, BundleView};
use crate::text::{decimal, join, join_char, push_decimal, strs};

verus! {

/// Exports from a repository.
pub struct ExportService;

/// A list of texts as a JSON array of strings.
pub open spec fn strs_json(ss: Seq<Seq<char>>) -> Json {
    Json::Array(ss.map_values(|x: Seq<char>| Json::Str(x)))
}

/// A member `name: value` when the value is present, else nothing.
pub open spec fn opt_member(name: Seq<char>, o: Option<Seq<char>>) -> Seq<(Seq<char>, Json)> {
    match o {
        Some(v) => seq![(name, Json::Str(v))],
        None => Seq::<(Seq<char>, Json)>::empty(),
    }
}

/// A member `name: [..]` when the list is not empty, else nothing.
pub open spec fn list_member(name: Seq<char>, ss: Seq<Seq<char>>) -> Seq<(Seq<char>, Json)> {
    if ss.len() == 0 {
        Seq::<(Seq<char>, Json)>::empty()
    } else {
        seq![(name, strs_json(ss))]
    }
}

/// A definition as JSON: `pos` when present, then `meaning`.
pub open spec fn definition_json(d: DefinitionView) -> Json {
    Json::Object(opt_member("pos"@, d.pos) + seq![("meaning"@, Json::Str(d.meaning))])
}

/// Metadata as JSON: `tags`, `created_at` when present, `review_count`.
pub open spec fn metadata_json(m: MetadataView) -> Json {
    Json::Object(
        seq![("tags"@, strs_json(m.tags))] + opt_member("created_at"@, m.created_at) + seq![
            ("review_count"@, Json::Number(NumberView::PosInt(m.review_count as u64))),
        ],
    )
}

/// A record as JSON, in the canonical import format: `word`, `phonetic`
/// when present, `definitions`, `examples`, the related-word lists when not
/// empty, and `metadata`.
pub open spec fn word_json(w: WordView) -> Json {
    Json::Object(word_members(w))
}

/// The members of a record as JSON (see `word_json`).
pub open spec fn word_members(w: WordView) -> Seq<(Seq<char>, Json)> {
    seq![("word"@, Json::Str(w.word))] + opt_member("phonetic"@, w.phonetic) + seq![
        ("definitions"@, definitions_json(w.definitions)),
        ("examples"@, strs_json(w.examples)),
    ] + list_member("synonyms"@, w.synonyms) + list_member("antonyms"@, w.antonyms) + list_member(
        "family_words"@,
        w.family_words,
    ) + seq![("metadata"@, metadata_json(w.metadata))]
}

/// Definitions as a JSON array.
pub open spec fn definitions_json(ds: Seq<DefinitionView>) -> Json {
    Json::Array(ds.map_values(|d: DefinitionView| definition_json(d)))
}

/// Records as a JSON array.
pub open spec fn words_json(ws: Seq<WordView>) -> Json {
    Json::Array(ws.map_values(|w: WordView| word_json(w)))
}

/// The key and view of every member.
pub open spec fn pairs_view(ms: Seq<JsonMember>) -> Seq<(Seq<char>, Json)> {
    ms.map_values(|m: JsonMember| (m.key@, json_view(m.value)))
}

proof fn lemma_object_view(ms: Seq<JsonMember>)
    ensures
        members_view(ms, ms.len()) == pairs_view(ms),
{
    lemma_members_view(ms, ms.len());
    assert(members_view(ms, ms.len()) =~= pairs_view(ms));
}

proof fn lemma_array_view(vs: Seq<JsonValue>)
    ensures
        items_view(vs, vs.len()) == vs.map_values(|v: JsonValue| json_view(v)),
{
    lemma_items_view(vs, vs.len());
    assert(items_view(vs, vs.len()) =~= vs.map_values(|v: JsonValue| json_view(v)));
}

/// Appends the member `key: value`.
fn push_member(ms: &mut Vec<JsonMember>, key: &str, value: JsonValue)
    ensures
        pairs_view(final(ms)@) == pairs_view(old(ms)@).push((key@, json_view(value))),
{
    let ghost before = ms@;
    let ghost vv = json_view(value);
    ms.push(JsonMember { key: key.to_owned(), value });
    assert(pairs_view(ms@) =~= pairs_view(before).push((key@, vv)));
}

/// A list of texts as a JSON array of strings.
fn strings_json(v: &Vec<String>) -> (r: JsonValue)
    ensures
        r@ == strs_json(strs(v@)),
{
    let mut items: Vec<JsonValue> = Vec::new();
    let mut i: usize = 0;
    while i < v.len()
        invariant
            i <= v.len(),
            items.len() == i,
            forall|j: int| 0 <= j < i ==> #[trigger] json_view(items@[j]) == Json::Str(v@[j]@),
        decreases v.len() - i,
    {
        items.push(JsonValue::Str(v[i].clone()));
        i += 1;
    }
    proof {
        lemma_array_view(items@);
        assert(items@.map_values(|x: JsonValue| json_view(x)) =~= strs(v@).map_values(|x: Seq<char>| Json::Str(x)));
    }
    JsonValue::Array(items)
}

/// A definition as JSON (see `definition_json`).
fn definition_to_json(d: &Definition) -> (r: JsonValue)
    ensures
        r@ == definition_json(d@),
{
    let mut ms: Vec<JsonMember> = Vec::new();
    assert(pairs_view(ms@) =~= Seq::<(Seq<char>, Json)>::empty());
    match &d.pos {
        Some(p) => push_member(&mut ms, "pos", JsonValue::Str(p.clone())),
        None => {},
    }
    push_member(&mut ms, "meaning", JsonValue::Str(d.meaning.clone()));
    proof {
        lemma_object_view(ms@);
        assert(pairs_view(ms@) =~= opt_member("pos"@, d@.pos) + seq![("meaning"@, Json::Str(d@.meaning))]);
    }
    JsonValue::Object(ms)
}

/// Metadata as JSON (see `metadata_json`).
fn metadata_to_json(m: &Metadata) -> (r: JsonValue)
    ensures
        r@ == metadata_json(m@),
{
    let mut ms: Vec<JsonMember> = Vec::new();
    assert(pairs_view(ms@) =~= Seq::<(Seq<char>, Json)>::empty());
    push_member(&mut ms, "tags", strings_json(&m.tags));
    match &m.created_at {
        Some(c) => push_member(&mut ms, "created_at", JsonValue::Str(c.clone())),
        None => {},
    }
    push_member(&mut ms, "review_count", JsonValue::Number(JsonNumber::PosInt(m.review_count as u64)));
    proof {
        lemma_object_view(ms@);
        assert(pairs_view(ms@) =~= seq![("tags"@, strs_json(m@.tags))] + opt_member("created_at"@, m@.created_at)
            + seq![("review_count"@, Json::Number(NumberView::PosInt(m@.review_count as u64)))]);
    }
    JsonValue::Object(ms)
}

/// A record as JSON (see `word_json`).
pub fn word_to_json(w: &WordRecord) -> (r: JsonValue)
    ensures
        r@ == word_json(w@),
{
    let mut defs: Vec<JsonValue> = Vec::new();
    let mut i: usize = 0;
    while i < w.definitions.len()
        invariant
            i <= w.definitions.len(),
            defs.len() == i,
            forall|j: int| 0 <= j < i ==> #[trigger] json_view(defs@[j]) == definition_json(w.definitions@[j]@),
        decreases w.definitions.len() - i,
    {
        defs.push(definition_to_json(&w.definitions[i]));
        i += 1;
    }
    proof {
        lemma_array_view(defs@);
        assert(defs@.map_values(|x: JsonValue| json_view(x)) =~= w@.definitions.map_values(|d: DefinitionView| definition_json(d)));
    }
    let mut ms: Vec<JsonMember> = Vec::new();
    assert(pairs_view(ms@) =~= Seq::<(Seq<char>, Json)>::empty());
    push_member(&mut ms, "word", JsonValue::Str(w.word.clone()));
    match &w.phonetic {
        Some(p) => push_member(&mut ms, "phonetic", JsonValue::Str(p.clone())),
        None => {},
    }
    push_member(&mut ms, "definitions", JsonValue::Array(defs));
    push_member(&mut ms, "examples", strings_json(&w.examples));
    if w.synonyms.len() > 0 {
        push_member(&mut ms, "synonyms", strings_json(&w.synonyms));
    }
    if w.antonyms.len() > 0 {
        push_member(&mut ms, "antonyms", strings_json(&w.antonyms));
    }
    if w.family_words.len() > 0 {
        push_member(&mut ms, "family_words", strings_json(&w.family_words));
    }
    push_member(&mut ms, "metadata", metadata_to_json(&w.metadata));
    proof {
        lemma_object_view(ms@);
        assert(pairs_view(ms@) =~= seq![("word"@, Json::Str(w@.word))] + opt_member("phonetic"@, w@.phonetic) + seq![
            ("definitions"@, Json::Array(w@.definitions.map_values(|d: DefinitionView| definition_json(d)))),
            ("examples"@, strs_json(w@.examples)),
        ] + list_member("synonyms"@, w@.synonyms) + list_member("antonyms"@, w@.antonyms) + list_member(
            "family_words"@,
            w@.family_words,
        ) + seq![("metadata"@, metadata_json(w@.metadata))]);
    }
    JsonValue::Object(ms)
}

/// Records as a JSON array (see `words_json`).
pub fn words_to_json(v: &Vec<WordRecord>) -> (r: JsonValue)
    ensures
        r@ == words_json(words_view(v@)),
{
    let mut items: Vec<JsonValue> = Vec::new();
    let mut i: usize = 0;
    while i < v.len()
        invariant
            i <= v.len(),
            items.len() == i,
            forall|j: int| 0 <= j < i ==> #[trigger] json_view(items@[j]) == word_json(v@[j]@),
        decreases v.len() - i,
    {
        items.push(word_to_json(&v[i]));
        i += 1;
    }
    proof {
        lemma_array_view(items@);
        assert(items@.map_values(|x: JsonValue| json_view(x)) =~= words_view(v@).map_values(|w: WordView| word_json(w)));
    }
    JsonValue::Array(items)
}

/// The options of a listing of every word in storage order.
pub open spec fn all_words() -> QueryOptions {
    QueryOptions { sort: None, limit: None, tag_filter: None, collection_id: None, topic_id: None }
}

/// What exporting gives: every word, in storage order, as pretty-printed
/// JSON in the canonical import format; or the error of reading them.
pub open spec fn export_outcome(s: StoreView, r: Result<String, DbError>) -> bool {
    exists|q: Result<Vec<WordRecord>, DbError>|
        #[trigger] query_outcome(s, all_words(), q) && match q {
            Ok(v) => r matches Ok(t) && t@ == pretty_json(words_json(words_view(v@))) && parsed_json(t@) == Ok::<Json, Seq<char>>(
                words_json(words_view(v@)),
            ),
            Err(e) => r matches Err(x) && x == e,
        }
}


// ----- CSV -----

/// The characters that make the CSV writer quote a field: the delimiter,
/// the quote, and the two line-ending characters.
pub open spec fn csv_special(c: char) -> bool {
    c == ',' || c == '"' || c == '\r' || c == '\n'
}

/// `f` with every double quote doubled.
pub open spec fn doubled_quotes(f: Seq<char>) -> Seq<char>
    decreases f.len(),
{
    if f.len() == 0 {
        Seq::<char>::empty()
    } else {
        doubled_quotes(f.drop_last()) + if f.last() == '"' {
            seq!['"', '"']
        } else {
            seq![f.last()]
        }
    }
}

/// A field as the CSV writer writes it: in double quotes, with its quotes
/// doubled, when it holds a special character; else as it is.
pub open spec fn csv_field(f: Seq<char>) -> Seq<char> {
    if exists|i: int| 0 <= i < f.len() && csv_special(#[trigger] f[i]) {
        seq!['"'] + doubled_quotes(f) + seq!['"']
    } else {
        f
    }
}

/// The text that a `csv::Writer` with its default settings (comma
/// delimiter, `"` quote doubled when escaped, quoting only where necessary,
/// `\n` terminator) writes for one record of `fields`: the fields, each as
/// `csv_field` gives it, separated by commas, then a newline; a record that
/// would be empty (no field, or one empty field) is written as `""`.
pub open spec fn csv_record(fields: Seq<Seq<char>>) -> Seq<char> {
    let body = join(fields.map_values(|f: Seq<char>| csv_field(f)), seq![',']);
    if body.len() == 0 {
        seq!['"', '"', '\n']
    } else {
        body + seq!['\n']
    }
}

/// Writes one record with `csv::Writer::from_writer` into memory and returns
/// the text (`write_record`, then `into_inner`), as `csv_record` states it;
/// writing to memory does not fail, and the writer's output for UTF-8
/// fields is UTF-8.
#[verifier::external_body]
fn write_csv_record(fields: &Vec<String>) -> (r: String)
    ensures
        r@ == csv_record(strs(fields@)),
{
    let mut wtr = ::csv::Writer::from_writer(Vec::new());
    let written = wtr.write_record(fields);
    match (written, wtr.into_inner()) {
        (Ok(()), Ok(bytes)) => String::from_utf8(bytes).unwrap_or_default(),
        _ => String::new(),
    }
}

/// The columns of the CSV export, in the order the CSV importer reads.
pub open spec fn csv_export_header() -> Seq<Seq<char>> {
    seq![
        "word"@,
        "meaning_vi"@,
        "phonetic"@,
        "pos"@,
        "examples"@,
        "synonyms"@,
        "antonyms"@,
        "family_words"@,
        "tags"@,
        "created_at"@,
        "review_count"@,
    ]
}

/// An optional text as a cell: empty when absent.
pub open spec fn cell(o: Option<Seq<char>>) -> Seq<char> {
    match o {
        Some(t) => t,
        None => Seq::<char>::empty(),
    }
}

/// The CSV row of one definition of a word: the word, the meaning, the
/// phonetic, the part of speech, the examples, synonyms, antonyms, family
/// words and tags each joined by `|`, the creation time and the review count
/// in decimal.
pub open spec fn definition_row(w: WordView, d: DefinitionView) -> Seq<Seq<char>> {
    seq![
        w.word,
        d.meaning,
        cell(w.phonetic),
        cell(d.pos),
        join(w.examples, seq!['|']),
        join(w.synonyms, seq!['|']),
        join(w.antonyms, seq!['|']),
        join(w.family_words, seq!['|']),
        join(w.metadata.tags, seq!['|']),
        cell(w.metadata.created_at),
        decimal(w.metadata.review_count as nat),
    ]
}

/// The CSV rows of words: one per definition, words in order.
pub open spec fn word_rows(ws: Seq<WordView>) -> Seq<Seq<Seq<char>>>
    decreases ws.len(),
{
    if ws.len() == 0 {
        Seq::empty()
    } else {
        let w = ws.last();
        word_rows(ws.drop_last()) + w.definitions.map_values(|d: DefinitionView| definition_row(w, d))
    }
}

/// The text of records written one after another.
pub open spec fn csv_text(rows: Seq<Seq<Seq<char>>>) -> Seq<char>
    decreases rows.len(),
{
    if rows.len() == 0 {
        Seq::empty()
    } else {
        csv_text(rows.drop_last()) + csv_record(rows.last())
    }
}

/// What exporting as CSV gives: the header, then one row per definition of
/// every word in storage order; or the error of reading the words.
pub open spec fn csv_export_outcome(s: StoreView, r: Result<String, DbError>) -> bool {
    exists|q: Result<Vec<WordRecord>, DbError>|
        #[trigger] query_outcome(s, all_words(), q) && match q {
            Ok(v) => r matches Ok(t) && t@ == csv_text(seq![csv_export_header()] + word_rows(words_view(v@))),
            Err(e) => r matches Err(x) && x == e,
        }
}

fn opt_cell(o: &Option<String>) -> (r: String)
    ensures
        r@ == cell(opt_str(*o)),
{
    match o {
        Some(t) => t.clone(),
        None => String::new(),
    }
}

fn decimal_text(n: u32) -> (r: String)
    ensures
        r@ == decimal(n as nat),
{
    let mut s = String::new();
    push_decimal(&mut s, n as usize);
    assert(s@ =~= decimal(n as nat));
    s
}


// ----- what the JSON export reads back as -----

proof fn lemma_lookup_concat(p: Seq<(Seq<char>, Json)>, q: Seq<(Seq<char>, Json)>, k: Seq<char>)
    ensures
        lookup(p + q, k) == match lookup(p, k) {
            Some(x) => Some(x),
            None => lookup(q, k),
        },
    decreases p.len(),
{
    if p.len() == 0 {
        assert(p + q =~= q);
    } else {
        assert((p + q).drop_first() =~= p.drop_first() + q);
        assert((p + q)[0] == p[0]);
        lemma_lookup_concat(p.drop_first(), q, k);
    }
}

proof fn lemma_lookup_one(key: Seq<char>, v: Json, k: Seq<char>)
    ensures
        lookup(seq![(key, v)], k) == if key == k {
            Some(v)
        } else {
            None::<Json>
        },
{
    let m = seq![(key, v)];
    assert(m[0] == (key, v));
    if key != k {
        assert(m.drop_first() =~= Seq::<(Seq<char>, Json)>::empty());
        assert(lookup(Seq::<(Seq<char>, Json)>::empty(), k) is None);
    }
}

proof fn lemma_lookup_opt(name: Seq<char>, o: Option<Seq<char>>, k: Seq<char>)
    ensures
        lookup(opt_member(name, o), k) == if name == k && o is Some {
            Some(Json::Str(o->0))
        } else {
            None::<Json>
        },
{
    match o {
        Some(v) => lemma_lookup_one(name, Json::Str(v), k),
        None => {},
    }
}

proof fn lemma_lookup_list(name: Seq<char>, ss: Seq<Seq<char>>, k: Seq<char>)
    ensures
        lookup(list_member(name, ss), k) == if name == k && ss.len() > 0 {
            Some(strs_json(ss))
        } else {
            None::<Json>
        },
{
    if ss.len() > 0 {
        lemma_lookup_one(name, strs_json(ss), k);
    }
}

proof fn lemma_strs_json_reads_back(ss: Seq<Seq<char>>)
    ensures
        as_strs(strs_json(ss)) == Some(ss),
{
    let items = ss.map_values(|x: Seq<char>| Json::Str(x));
    assert(all_strs(items));
    assert(items.map_values(|x: Json| x->Str_0) =~= ss);
}

proof fn lemma_list_member_reads_back(name: Seq<char>, ss: Seq<Seq<char>>)
    ensures
        as_strs_or_empty(
            if ss.len() > 0 {
                Some(strs_json(ss))
            } else {
                None::<Json>
            },
        ) == Some(ss),
{
    lemma_strs_json_reads_back(ss);
    if ss.len() == 0 {
        assert(ss =~= Seq::<Seq<char>>::empty());
    }
}

/// The import reads back a definition as the export writes it.
proof fn lemma_definition_reads_back(d: DefinitionView)
    ensures
        decode_definition(definition_json(d)) == Some(d),
{
    reveal_strlit("pos");
    reveal_strlit("meaning");
    let p = opt_member("pos"@, d.pos);
    let q = seq![("meaning"@, Json::Str(d.meaning))];
    assert("pos"@ != "meaning"@) by {
        assert("pos"@[0] != "meaning"@[0]);
    }
    lemma_lookup_concat(p, q, "pos"@);
    lemma_lookup_concat(p, q, "meaning"@);
    lemma_lookup_opt("pos"@, d.pos, "pos"@);
    lemma_lookup_opt("pos"@, d.pos, "meaning"@);
    lemma_lookup_one("meaning"@, Json::Str(d.meaning), "pos"@);
    lemma_lookup_one("meaning"@, Json::Str(d.meaning), "meaning"@);
}

proof fn lemma_definitions_read_back(ds: Seq<DefinitionView>)
    ensures
        decode_definition_items(ds.map_values(|d: DefinitionView| definition_json(d))) == Some(ds),
    decreases ds.len(),
{
    let items = ds.map_values(|d: DefinitionView| definition_json(d));
    if ds.len() > 0 {
        lemma_definitions_read_back(ds.drop_last());
        assert(items.drop_last() =~= ds.drop_last().map_values(|d: DefinitionView| definition_json(d)));
        lemma_definition_reads_back(ds.last());
        assert(ds.drop_last().push(ds.last()) =~= ds);
    } else {
        assert(ds =~= Seq::<DefinitionView>::empty());
    }
}

/// The import reads back metadata as the export writes it.
proof fn lemma_metadata_reads_back(m: MetadataView)
    ensures
        decode_metadata(metadata_json(m)) == Some(m),
{
    reveal_strlit("tags");
    reveal_strlit("created_at");
    reveal_strlit("review_count");
    let a = seq![("tags"@, strs_json(m.tags))];
    let b = opt_member("created_at"@, m.created_at);
    let c = seq![("review_count"@, Json::Number(NumberView::PosInt(m.review_count as u64)))];
    assert("tags"@[0] != "created_at"@[0]);
    assert("tags"@[0] != "review_count"@[0]);
    assert("created_at"@[0] != "review_count"@[0]);
    lemma_lookup_concat(a + b, c, "tags"@);
    lemma_lookup_concat(a, b, "tags"@);
    lemma_lookup_one("tags"@, strs_json(m.tags), "tags"@);
    lemma_lookup_opt("created_at"@, m.created_at, "tags"@);
    lemma_lookup_concat(a + b, c, "created_at"@);
    lemma_lookup_concat(a, b, "created_at"@);
    lemma_lookup_one("tags"@, strs_json(m.tags), "created_at"@);
    lemma_lookup_opt("created_at"@, m.created_at, "created_at"@);
    lemma_lookup_one("review_count"@, Json::Number(NumberView::PosInt(m.review_count as u64)), "created_at"@);
    lemma_lookup_concat(a + b, c, "review_count"@);
    lemma_lookup_concat(a, b, "review_count"@);
    lemma_lookup_one("tags"@, strs_json(m.tags), "review_count"@);
    lemma_lookup_opt("created_at"@, m.created_at, "review_count"@);
    lemma_lookup_one("review_count"@, Json::Number(NumberView::PosInt(m.review_count as u64)), "review_count"@);
    assert(metadata_json(m) == Json::Object(a + b + c));
    let j = metadata_json(m);
    assert(field(j, "tags"@, 0) == Some(strs_json(m.tags)));
    assert(as_strs_or_empty(field(j, "tags"@, 0)) == Some(m.tags));
    assert(as_opt_str(field(j, "created_at"@, 1)) == Some(m.created_at));
    assert((m.review_count as u64) as u32 == m.review_count);
    assert(as_u32_or_zero(field(j, "review_count"@, 2)) == Some(m.review_count));
    lemma_strs_json_reads_back(m.tags);
}


/// The first characters of the member names of a record, all different.
proof fn lemma_word_keys_differ()
    ensures
        "word"@.len() > 0,
        "phonetic"@.len() > 0,
        "definitions"@.len() > 0,
        "examples"@.len() > 0,
        "synonyms"@.len() > 0,
        "antonyms"@.len() > 0,
        "family_words"@.len() > 0,
        "metadata"@.len() > 0,
        "word"@[0] == 'w',
        "phonetic"@[0] == 'p',
        "definitions"@[0] == 'd',
        "examples"@[0] == 'e',
        "synonyms"@[0] == 's',
        "antonyms"@[0] == 'a',
        "family_words"@[0] == 'f',
        "metadata"@[0] == 'm',
{
    reveal_strlit("word");
    reveal_strlit("phonetic");
    reveal_strlit("definitions");
    reveal_strlit("examples");
    reveal_strlit("synonyms");
    reveal_strlit("antonyms");
    reveal_strlit("family_words");
    reveal_strlit("metadata");
}

proof fn lemma_word_lookup(w: WordView, k: Seq<char>)
    ensures
        lookup(word_members(w), k) == if k == "word"@ {
            Some(Json::Str(w.word))
        } else if k == "phonetic"@ {
            if w.phonetic is Some {
                Some(Json::Str(w.phonetic->0))
            } else {
                None
            }
        } else if k == "definitions"@ {
            Some(definitions_json(w.definitions))
        } else if k == "examples"@ {
            Some(strs_json(w.examples))
        } else if k == "synonyms"@ {
            if w.synonyms.len() > 0 {
                Some(strs_json(w.synonyms))
            } else {
                None
            }
        } else if k == "antonyms"@ {
            if w.antonyms.len() > 0 {
                Some(strs_json(w.antonyms))
            } else {
                None
            }
        } else if k == "family_words"@ {
            if w.family_words.len() > 0 {
                Some(strs_json(w.family_words))
            } else {
                None
            }
        } else if k == "metadata"@ {
            Some(metadata_json(w.metadata))
        } else {
            None
        },
{
    lemma_word_keys_differ();
    let a = seq![("word"@, Json::Str(w.word))];
    let b = opt_member("phonetic"@, w.phonetic);
    let c1 = seq![("definitions"@, definitions_json(w.definitions))];
    let c2 = seq![("examples"@, strs_json(w.examples))];
    let c = seq![("definitions"@, definitions_json(w.definitions)), ("examples"@, strs_json(w.examples))];
    assert(c1 + c2 =~= c);
    let d = list_member("synonyms"@, w.synonyms);
    let e = list_member("antonyms"@, w.antonyms);
    let f = list_member("family_words"@, w.family_words);
    let g = seq![("metadata"@, metadata_json(w.metadata))];
    lemma_lookup_concat(a + b + c + d + e + f, g, k);
    lemma_lookup_concat(a + b + c + d + e, f, k);
    lemma_lookup_concat(a + b + c + d, e, k);
    lemma_lookup_concat(a + b + c, d, k);
    lemma_lookup_concat(a + b, c, k);
    lemma_lookup_concat(a, b, k);
    lemma_lookup_concat(c1, c2, k);
    lemma_lookup_one("word"@, Json::Str(w.word), k);
    lemma_lookup_opt("phonetic"@, w.phonetic, k);
    lemma_lookup_one("definitions"@, definitions_json(w.definitions), k);
    lemma_lookup_one("examples"@, strs_json(w.examples), k);
    lemma_lookup_list("synonyms"@, w.synonyms, k);
    lemma_lookup_list("antonyms"@, w.antonyms, k);
    lemma_lookup_list("family_words"@, w.family_words, k);
    lemma_lookup_one("metadata"@, metadata_json(w.metadata), k);
    assert(word_members(w) == a + b + c + d + e + f + g);
}

/// The import reads back a record as the export writes it.
proof fn lemma_word_reads_back(w: WordView)
    ensures
        decode_word(word_json(w)) == Some(w),
{
    lemma_word_keys_differ();
    let j = word_json(w);
    lemma_word_lookup(w, "word"@);
    lemma_word_lookup(w, "phonetic"@);
    lemma_word_lookup(w, "definitions"@);
    lemma_word_lookup(w, "examples"@);
    lemma_word_lookup(w, "synonyms"@);
    lemma_word_lookup(w, "antonyms"@);
    lemma_word_lookup(w, "family_words"@);
    lemma_word_lookup(w, "metadata"@);
    lemma_definitions_read_back(w.definitions);
    lemma_strs_json_reads_back(w.examples);
    lemma_list_member_reads_back("synonyms"@, w.synonyms);
    lemma_list_member_reads_back("antonyms"@, w.antonyms);
    lemma_list_member_reads_back("family_words"@, w.family_words);
    lemma_metadata_reads_back(w.metadata);
    assert(field(j, "word"@, 0) == Some(Json::Str(w.word)));
    assert(as_opt_str(field(j, "phonetic"@, 1)) == Some(w.phonetic));
    assert(field(j, "definitions"@, 2) == Some(definitions_json(w.definitions)));
}

proof fn lemma_words_read_back(ws: Seq<WordView>)
    ensures
        decode_word_items(ws.map_values(|w: WordView| word_json(w))) == Some(ws),
    decreases ws.len(),
{
    let items = ws.map_values(|w: WordView| word_json(w));
    if ws.len() > 0 {
        lemma_words_read_back(ws.drop_last());
        assert(items.drop_last() =~= ws.drop_last().map_values(|w: WordView| word_json(w)));
        lemma_word_reads_back(ws.last());
        assert(ws.drop_last().push(ws.last()) =~= ws);
    } else {
        assert(ws =~= Seq::<WordView>::empty());
    }
}

/// What the JSON export writes for records, the JSON import reads as those
/// records, with no collection or topic.
pub proof fn lemma_export_format_reads_back(ws: Seq<WordView>)
    ensures
        decode_payload(words_json(ws)) == Some(BundleView { collection: None, topic: None, words: ws }),
{
    lemma_words_read_back(ws);
}


/// No name twice among the members.
pub open spec fn distinct_keys(ms: Seq<(Seq<char>, Json)>) -> bool {
    forall|a: int, b: int| 0 <= a < b < ms.len() ==> #[trigger] ms[a].0 != #[trigger] ms[b].0
}

/// Every member name starts with a character of `cs`.
pub open spec fn keys_start_in(ms: Seq<(Seq<char>, Json)>, cs: Set<char>) -> bool {
    forall|i: int| #![trigger ms[i]] 0 <= i < ms.len() ==> ms[i].0.len() > 0 && cs.contains(ms[i].0[0])
}

proof fn lemma_distinct_concat(p: Seq<(Seq<char>, Json)>, q: Seq<(Seq<char>, Json)>, cp: Set<char>, cq: Set<char>)
    requires
        distinct_keys(p),
        distinct_keys(q),
        keys_start_in(p, cp),
        keys_start_in(q, cq),
        cp.disjoint(cq),
    ensures
        distinct_keys(p + q),
        keys_start_in(p + q, cp + cq),
{
    let m = p + q;
    assert forall|a: int, b: int| 0 <= a < b < m.len() implies #[trigger] m[a].0 != #[trigger] m[b].0 by {
        if a < p.len() && b >= p.len() {
            assert(m[a] == p[a]);
            assert(m[b] == q[b - p.len()]);
            assert(cp.contains(p[a].0[0]));
            assert(cq.contains(q[b - p.len()].0[0]));
        } else if a >= p.len() {
            assert(m[a] == q[a - p.len()]);
            assert(m[b] == q[b - p.len()]);
        } else {
            assert(m[a] == p[a]);
            assert(m[b] == p[b]);
        }
    }
    assert forall|i: int| #![trigger m[i]] 0 <= i < m.len() implies m[i].0.len() > 0 && (cp + cq).contains(m[i].0[0]) by {
        if i < p.len() {
            assert(m[i] == p[i]);
        } else {
            assert(m[i] == q[i - p.len()]);
        }
    }
}

proof fn lemma_one_member(key: Seq<char>, v: Json, c: char)
    requires
        key.len() > 0,
        key[0] == c,
    ensures
        distinct_keys(seq![(key, v)]),
        keys_start_in(seq![(key, v)], set![c]),
{
}

proof fn lemma_strs_json_plain(ss: Seq<Seq<char>>, d: nat)
    requires
        d >= 2,
    ensures
        plain_json(strs_json(ss), d),
{
    let j = strs_json(ss);
    assert(j is Array);
    let items = j->Array_0;
    assert forall|k: int| 0 <= k < items.len() implies #[trigger] plain_json(items[k], (d - 1) as nat) by {
        assert(items[k] == Json::Str(ss[k]));
    }
    lemma_plain_items(items, (d - 1) as nat, items.len());
}

proof fn lemma_definition_plain(df: DefinitionView, d: nat)
    requires
        d >= 2,
    ensures
        plain_json(definition_json(df), d),
{
    reveal_strlit("pos");
    reveal_strlit("meaning");
    let p = opt_member("pos"@, df.pos);
    let q = seq![("meaning"@, Json::Str(df.meaning))];
    if let Some(x) = df.pos {
        lemma_one_member("pos"@, Json::Str(x), 'p');
    }
    assert(distinct_keys(p) && keys_start_in(p, set!['p']));
    lemma_one_member("meaning"@, Json::Str(df.meaning), 'm');
    lemma_distinct_concat(p, q, set!['p'], set!['m']);
    let ms = p + q;
    assert forall|k: int| 0 <= k < ms.len() implies #[trigger] plain_json(ms[k].1, (d - 1) as nat) by {
        if k < p.len() {
            assert(ms[k] == p[k]);
        } else {
            assert(ms[k] == q[k - p.len()]);
        }
    }
    lemma_plain_values(ms, (d - 1) as nat, ms.len());
}

proof fn lemma_metadata_plain(m: MetadataView, d: nat)
    requires
        d >= 3,
    ensures
        plain_json(metadata_json(m), d),
{
    reveal_strlit("tags");
    reveal_strlit("created_at");
    reveal_strlit("review_count");
    let a = seq![("tags"@, strs_json(m.tags))];
    let b = opt_member("created_at"@, m.created_at);
    let c = seq![("review_count"@, Json::Number(NumberView::PosInt(m.review_count as u64)))];
    lemma_one_member("tags"@, strs_json(m.tags), 't');
    if let Some(x) = m.created_at {
        lemma_one_member("created_at"@, Json::Str(x), 'c');
    }
    assert(distinct_keys(b) && keys_start_in(b, set!['c']));
    lemma_one_member("review_count"@, Json::Number(NumberView::PosInt(m.review_count as u64)), 'r');
    lemma_distinct_concat(a, b, set!['t'], set!['c']);
    lemma_distinct_concat(a + b, c, set!['t'] + set!['c'], set!['r']);
    lemma_strs_json_plain(m.tags, (d - 1) as nat);
    let ms = a + b + c;
    assert forall|k: int| 0 <= k < ms.len() implies #[trigger] plain_json(ms[k].1, (d - 1) as nat) by {
        if k == 0 {
            assert(ms[k] == a[0]);
        } else if k < a.len() + b.len() {
            assert(ms[k] == b[k - 1]);
        } else {
            assert(ms[k] == c[k - a.len() - b.len()]);
        }
    }
    lemma_plain_values(ms, (d - 1) as nat, ms.len());
}

proof fn lemma_list_member_plain(name: Seq<char>, ss: Seq<Seq<char>>, ch: char, d: nat)
    requires
        name.len() > 0,
        name[0] == ch,
        d >= 3,
    ensures
        distinct_keys(list_member(name, ss)),
        keys_start_in(list_member(name, ss), set![ch]),
        forall|k: int|
            0 <= k < list_member(name, ss).len() ==> #[trigger] plain_json(list_member(name, ss)[k].1, (d - 1) as nat),
{
    if ss.len() > 0 {
        lemma_one_member(name, strs_json(ss), ch);
        lemma_strs_json_plain(ss, (d - 1) as nat);
    }
}

proof fn lemma_word_plain(w: WordView, d: nat)
    requires
        d >= 4,
    ensures
        plain_json(word_json(w), d),
{
    lemma_word_keys_differ();
    let a = seq![("word"@, Json::Str(w.word))];
    let b = opt_member("phonetic"@, w.phonetic);
    let c1 = seq![("definitions"@, definitions_json(w.definitions))];
    let c2 = seq![("examples"@, strs_json(w.examples))];
    let c = seq![("definitions"@, definitions_json(w.definitions)), ("examples"@, strs_json(w.examples))];
    assert(c1 + c2 =~= c);
    let dd = list_member("synonyms"@, w.synonyms);
    let e = list_member("antonyms"@, w.antonyms);
    let f = list_member("family_words"@, w.family_words);
    let g = seq![("metadata"@, metadata_json(w.metadata))];
    lemma_one_member("word"@, Json::Str(w.word), 'w');
    if let Some(x) = w.phonetic {
        lemma_one_member("phonetic"@, Json::Str(x), 'p');
    }
    assert(distinct_keys(b) && keys_start_in(b, set!['p']));
    lemma_one_member("definitions"@, definitions_json(w.definitions), 'd');
    lemma_one_member("examples"@, strs_json(w.examples), 'e');
    lemma_distinct_concat(c1, c2, set!['d'], set!['e']);
    lemma_list_member_plain("synonyms"@, w.synonyms, 's', d);
    lemma_list_member_plain("antonyms"@, w.antonyms, 'a', d);
    lemma_list_member_plain("family_words"@, w.family_words, 'f', d);
    lemma_one_member("metadata"@, metadata_json(w.metadata), 'm');
    let s1 = set!['w'];
    let s2 = s1 + set!['p'];
    let s3 = s2 + (set!['d'] + set!['e']);
    let s4 = s3 + set!['s'];
    let s5 = s4 + set!['a'];
    let s6 = s5 + set!['f'];
    lemma_distinct_concat(a, b, s1, set!['p']);
    lemma_distinct_concat(a + b, c, s2, set!['d'] + set!['e']);
    lemma_distinct_concat(a + b + c, dd, s3, set!['s']);
    lemma_distinct_concat(a + b + c + dd, e, s4, set!['a']);
    lemma_distinct_concat(a + b + c + dd + e, f, s5, set!['f']);
    lemma_distinct_concat(a + b + c + dd + e + f, g, s6, set!['m']);
    assert(word_members(w) == a + b + c + dd + e + f + g);
    lemma_strs_json_plain(w.examples, (d - 1) as nat);
    lemma_metadata_plain(w.metadata, (d - 1) as nat);
    assert(definitions_json(w.definitions) is Array);
    let defs = definitions_json(w.definitions)->Array_0;
    let d1 = (d - 1) as nat;
    assert forall|k: int| 0 <= k < defs.len() implies #[trigger] plain_json(defs[k], (d1 - 1) as nat) by {
        lemma_definition_plain(w.definitions[k], (d1 - 1) as nat);
    }
    lemma_plain_items(defs, (d1 - 1) as nat, defs.len());
    assert(plain_json(definitions_json(w.definitions), (d - 1) as nat));
    let ms = word_members(w);
    assert(word_json(w) is Object);
    assert forall|k: int| 0 <= k < ms.len() implies #[trigger] plain_json(ms[k].1, (d - 1) as nat) by {
        let n1 = a.len() as int;
        let n2 = n1 + b.len();
        let n3 = n2 + c.len();
        let n4 = n3 + dd.len();
        let n5 = n4 + e.len();
        let n6 = n5 + f.len();
        if k < n1 {
            assert(ms[k] == a[k]);
        } else if k < n2 {
            assert(ms[k] == b[k - n1]);
        } else if k < n3 {
            assert(ms[k] == c[k - n2]);
        } else if k < n4 {
            assert(ms[k] == dd[k - n3]);
        } else if k < n5 {
            assert(ms[k] == e[k - n4]);
        } else if k < n6 {
            assert(ms[k] == f[k - n5]);
        } else {
            assert(ms[k] == g[k - n6]);
        }
    }
    lemma_plain_values(ms, (d - 1) as nat, ms.len());
}

/// The JSON export writes a document that serde_json reads back unchanged.
proof fn lemma_words_json_plain(ws: Seq<WordView>, d: nat)
    requires
        d >= 5,
    ensures
        plain_json(words_json(ws), d),
{
    assert(words_json(ws) is Array);
    let items = words_json(ws)->Array_0;
    assert forall|k: int| 0 <= k < items.len() implies #[trigger] plain_json(items[k], (d - 1) as nat) by {
        assert(items[k] == word_json(ws[k]));
        lemma_word_plain(ws[k], (d - 1) as nat);
    }
    lemma_plain_items(items, (d - 1) as nat, items.len());
}


/// What the JSON export writes, the JSON import reads back: every stored
/// word, in storage order, as it reads back, with no collection or topic.
/// This holds whenever the stored records pass the import's validation.
pub proof fn law_export_reads_back(s: StoreView, t: String, p: Result<BundleImport, ParseError>)
    requires
        s.words.len() <= usize::MAX,
        export_outcome(s, Ok(t)),
        json_bundle_result(t@, p),
        first_invalid(s.words.map_values(|w: RowView| loaded(w))) is None,
    ensures
        p matches Ok(b) && b@.words == s.words.map_values(|w: RowView| loaded(w)) && b@.collection is None
            && b@.topic is None,
{
    let q = choose|q: Result<Vec<WordRecord>, DbError>|
        #[trigger] query_outcome(s, all_words(), q) && match q {
            Ok(v) => Ok::<String, DbError>(t) matches Ok(x) && x@ == pretty_json(words_json(words_view(v@)))
                && parsed_json(x@) == Ok::<Json, Seq<char>>(words_json(words_view(v@))),
            Err(e) => Ok::<String, DbError>(t) matches Err(x) && x == e,
        };
    let v = q->Ok_0;
    assert(all_words() == QueryOptions { sort: None, limit: None, tag_filter: None, collection_id: None, topic_id: None });
    crate::repository::laws::law_unfiltered_query_lists_all(s, v);
    lemma_export_format_reads_back(words_view(v@));
}

impl ExportService {
    /// Every word as pretty-printed JSON (see `export_outcome`).
    pub fn export_to_json_string(repo: &WordRepository) -> (r: Result<String, DbError>)
        ensures
            export_outcome(repo@, r),
    {
        let options = QueryOptions::new();
        assert(options == all_words());
        let q = repo.query(&options);
        let ghost qg = q;
        let records = match q {
            Ok(v) => v,
            Err(e) => {
                return Err(e);
            },
        };
        let doc = words_to_json(&records);
        proof {
            lemma_words_json_plain(words_view(records@), 100);
        }
        Ok(write_json_pretty(&doc))
    }

    /// Every word as CSV text (see `csv_export_outcome`). A meaning that
    /// holds `;`, or an example or tag that holds `|`, reads back as several.
    pub fn export_to_csv_string(repo: &WordRepository) -> (r: Result<String, DbError>)
        ensures
            csv_export_outcome(repo@, r),
    {
        let options = QueryOptions::new();
        assert(options == all_words());
        let q = repo.query(&options);
        let ghost qg = q;
        let records = match q {
            Ok(v) => v,
            Err(e) => {
                return Err(e);
            },
        };
        let ghost ws = words_view(records@);
        let mut header: Vec<String> = Vec::new();
        header.push("word".to_owned());
        header.push("meaning_vi".to_owned());
        header.push("phonetic".to_owned());
        header.push("pos".to_owned());
        header.push("examples".to_owned());
        header.push("synonyms".to_owned());
        header.push("antonyms".to_owned());
        header.push("family_words".to_owned());
        header.push("tags".to_owned());
        header.push("created_at".to_owned());
        header.push("review_count".to_owned());
        assert(strs(header@) =~= csv_export_header());
        let mut out = write_csv_record(&header);
        let ghost rows = seq![csv_export_header()];
        assert(rows.drop_last() =~= Seq::<Seq<Seq<char>>>::empty());
        assert(csv_text(Seq::<Seq<Seq<char>>>::empty()) == Seq::<char>::empty());
        assert(rows.last() == csv_export_header());
        assert(csv_text(rows) == csv_text(rows.drop_last()) + csv_record(rows.last()));
        assert(csv_text(rows) =~= csv_record(csv_export_header()));
        assert(word_rows(ws.take(0)) =~= Seq::<Seq<Seq<char>>>::empty());
        assert(rows + word_rows(ws.take(0)) =~= rows);
        let mut i: usize = 0;
        while i < records.len()
            invariant
                i <= records.len(),
                ws == words_view(records@),
                rows == seq![csv_export_header()],
                out@ == csv_text(rows + word_rows(ws.take(i as int))),
            decreases records.len() - i,
        {
            let w = &records[i];
            let ghost wv = w@;
            assert(ws[i as int] == wv);
            assert(ws.take(i + 1).drop_last() =~= ws.take(i as int));
            assert(ws.take(i + 1).last() == wv);
            let ghost base = rows + word_rows(ws.take(i as int));
            let ghost defs_rows = wv.definitions.map_values(|d: DefinitionView| definition_row(wv, d));
            assert(rows + word_rows(ws.take(i + 1)) =~= base + defs_rows);
            let phonetic = opt_cell(&w.phonetic);
            let examples = join_char(&w.examples, '|');
            let synonyms = join_char(&w.synonyms, '|');
            let antonyms = join_char(&w.antonyms, '|');
            let family_words = join_char(&w.family_words, '|');
            let tags = join_char(&w.metadata.tags, '|');
            let created_at = opt_cell(&w.metadata.created_at);
            let review_count = decimal_text(w.metadata.review_count);
            let mut k: usize = 0;
            assert(base + defs_rows.take(0) =~= base);
            while k < w.definitions.len()
                invariant
                    k <= w.definitions.len(),
                    wv == w@,
                    defs_rows == wv.definitions.map_values(|d: DefinitionView| definition_row(wv, d)),
                    phonetic@ == cell(wv.phonetic),
                    examples@ == join(wv.examples, seq!['|']),
                    synonyms@ == join(wv.synonyms, seq!['|']),
                    antonyms@ == join(wv.antonyms, seq!['|']),
                    family_words@ == join(wv.family_words, seq!['|']),
                    tags@ == join(wv.metadata.tags, seq!['|']),
                    created_at@ == cell(wv.metadata.created_at),
                    review_count@ == decimal(wv.metadata.review_count as nat),
                    out@ == csv_text(base + defs_rows.take(k as int)),
                decreases w.definitions.len() - k,
            {
                let d = &w.definitions[k];
                let mut row: Vec<String> = Vec::new();
                row.push(w.word.clone());
                row.push(d.meaning.clone());
                row.push(phonetic.clone());
                row.push(opt_cell(&d.pos));
                row.push(examples.clone());
                row.push(synonyms.clone());
                row.push(antonyms.clone());
                row.push(family_words.clone());
                row.push(tags.clone());
                row.push(created_at.clone());
                row.push(review_count.clone());
                assert(wv.definitions[k as int] == d@);
                assert(strs(row@) =~= definition_row(wv, d@));
                let text = write_csv_record(&row);
                let ghost prev = base + defs_rows.take(k as int);
                assert((base + defs_rows.take(k + 1)).drop_last() =~= prev);
                assert((base + defs_rows.take(k + 1)).last() == definition_row(wv, d@));
                out.append(text.as_str());
                k += 1;
            }
            assert(defs_rows.take(k as int) =~= defs_rows);
            i += 1;
        }
        assert(ws.take(i as int) =~= ws);
        assert(query_outcome(repo@, all_words(), qg));
        Ok(out)
    }
}

/// Whether `row` holds, under each column name of `header`, that field of
/// word `w` and its definition `d`: the word, the meaning, the phonetic
/// (empty when absent), the part of speech (empty when absent), the
/// examples, synonyms, antonyms, family words and tags each joined by `|`,
/// the creation time (empty when absent) and the review count in decimal.
pub open spec fn row_holds(header: Seq<Seq<char>>, row: Seq<Seq<char>>, w: WordView, d: DefinitionView) -> bool {
    &&& row.len() == header.len()
    &&& forall|j: int|
        0 <= j < header.len() ==> {
            let h = #[trigger] header[j];
            let c = row[j];
            &&& h == "word"@ ==> c == w.word
            &&& h == "meaning_vi"@ ==> c == d.meaning
            &&& h == "phonetic"@ ==> c == cell(w.phonetic)
            &&& h == "pos"@ ==> c == cell(d.pos)
            &&& h == "examples"@ ==> c == join(w.examples, seq!['|'])
            &&& h == "synonyms"@ ==> c == join(w.synonyms, seq!['|'])
            &&& h == "antonyms"@ ==> c == join(w.antonyms, seq!['|'])
            &&& h == "family_words"@ ==> c == join(w.family_words, seq!['|'])
            &&& h == "tags"@ ==> c == join(w.metadata.tags, seq!['|'])
            &&& h == "created_at"@ ==> c == cell(w.metadata.created_at)
            &&& h == "review_count"@ ==> c == decimal(w.metadata.review_count as nat)
        }
}

/// The row of a definition holds, under each header name, that field of the
/// word and the definition.
proof fn lemma_definition_row_holds(w: WordView, d: DefinitionView)
    ensures
        row_holds(csv_export_header(), definition_row(w, d), w, d),
{
    reveal_strlit("word");
    reveal_strlit("meaning_vi");
    reveal_strlit("phonetic");
    reveal_strlit("pos");
    reveal_strlit("examples");
    reveal_strlit("synonyms");
    reveal_strlit("antonyms");
    reveal_strlit("family_words");
    reveal_strlit("tags");
    reveal_strlit("created_at");
    reveal_strlit("review_count");
    let h = csv_export_header();
    let names = seq![
        "word"@,
        "meaning_vi"@,
        "phonetic"@,
        "pos"@,
        "examples"@,
        "synonyms"@,
        "antonyms"@,
        "family_words"@,
        "tags"@,
        "created_at"@,
        "review_count"@,
    ];
    assert forall|a: int, b: int| 0 <= a < b < 11 implies names[a] != names[b] by {
        if names[a].len() == names[b].len() {
            if a == 0 {
                assert(names[a][0] != names[b][0]);
            } else if a == 3 {
                assert(names[a][0] != names[b][0]);
            } else {
                assert(names[a][0] != names[b][0] || names[a][1] != names[b][1]);
            }
        }
    }
    assert(h == names);
}

/// Whether `row` is the row of one definition of one of the words `ws`.
pub open spec fn row_of_some_definition(ws: Seq<WordView>, row: Seq<Seq<char>>) -> bool {
    exists|i: int, e: int|
        0 <= i < ws.len() && 0 <= e < ws[i].definitions.len() && row == #[trigger] definition_row(
            ws[i],
            ws[i].definitions[e],
        )
}

/// Every row of the words' CSV rows is the row of one definition of one of
/// the words.
proof fn lemma_word_rows_come_from_definitions(ws: Seq<WordView>)
    ensures
        forall|k: int| 0 <= k < word_rows(ws).len() ==> row_of_some_definition(ws, #[trigger] word_rows(ws)[k]),
    decreases ws.len(),
{
    if ws.len() > 0 {
        let init = ws.drop_last();
        let w = ws.last();
        lemma_word_rows_come_from_definitions(init);
        let a = word_rows(init);
        let b = w.definitions.map_values(|d: DefinitionView| definition_row(w, d));
        assert(word_rows(ws) == a + b);
        assert forall|k: int| 0 <= k < word_rows(ws).len() implies row_of_some_definition(ws, #[trigger] word_rows(ws)[k]) by {
            if k < a.len() {
                assert(row_of_some_definition(init, a[k]));
                let (i, e) = choose|i: int, e: int|
                    0 <= i < init.len() && 0 <= e < init[i].definitions.len() && a[k] == #[trigger] definition_row(
                        init[i],
                        init[i].definitions[e],
                    );
                assert(init[i] == ws[i]);
                assert(word_rows(ws)[k] == a[k]);
                assert(word_rows(ws)[k] == definition_row(ws[i], ws[i].definitions[e]));
            } else {
                let e = k - a.len();
                assert(word_rows(ws)[k] == b[e]);
                assert(b[e] == definition_row(w, w.definitions[e]));
                let i = ws.len() - 1;
                assert(ws[i] == w);
                assert(word_rows(ws)[k] == definition_row(ws[i], ws[i].definitions[e]));
            }
        }
    }
}

/// In the CSV export every data row holds, under each header name, that
/// field of one stored word and one of its definitions: under `antonyms` the
/// word's antonyms, under `family_words` its family words, and so on for
/// every column; the text is the header row followed by these rows.
pub proof fn law_csv_export_columns(s: StoreView, t: String)
    requires
        s.words.len() <= usize::MAX,
        csv_export_outcome(s, Ok(t)),
    ensures
        exists|rows: Seq<Seq<Seq<char>>>|
            #[trigger] csv_text(seq![csv_export_header()] + rows) == t@ && forall|k: int|
                0 <= k < rows.len() ==> exists|i: int, e: int|
                    0 <= i < s.words.len() && 0 <= e < loaded(s.words[i]).definitions.len() && row_holds(
                        csv_export_header(),
                        #[trigger] rows[k],
                        loaded(s.words[i]),
                        loaded(s.words[i]).definitions[e],
                    ),
{
    let q = choose|q: Result<Vec<WordRecord>, DbError>|
        #[trigger] query_outcome(s, all_words(), q) && match q {
            Ok(v) => Ok::<String, DbError>(t) matches Ok(x) && x@ == csv_text(
                seq![csv_export_header()] + word_rows(words_view(v@)),
            ),
            Err(e) => Ok::<String, DbError>(t) matches Err(x) && x == e,
        };
    let v = q->Ok_0;
    assert(all_words() == QueryOptions { sort: None, limit: None, tag_filter: None, collection_id: None, topic_id: None });
    crate::repository::laws::law_unfiltered_query_lists_all(s, v);
    let ws = words_view(v@);
    let rows = word_rows(ws);
    lemma_word_rows_come_from_definitions(ws);
    reveal_strlit("word");
    reveal_strlit("meaning_vi");
    reveal_strlit("phonetic");
    reveal_strlit("pos");
    reveal_strlit("examples");
    reveal_strlit("synonyms");
    reveal_strlit("antonyms");
    reveal_strlit("family_words");
    reveal_strlit("tags");
    reveal_strlit("created_at");
    reveal_strlit("review_count");
    assert forall|k: int| 0 <= k < rows.len() implies exists|i: int, e: int|
        0 <= i < s.words.len() && 0 <= e < loaded(s.words[i]).definitions.len() && row_holds(
            csv_export_header(),
            #[trigger] rows[k],
            loaded(s.words[i]),
            loaded(s.words[i]).definitions[e],
        ) by {
        assert(row_of_some_definition(ws, rows[k]));
        let (i, e) = choose|i: int, e: int|
            0 <= i < ws.len() && 0 <= e < ws[i].definitions.len() && rows[k] == #[trigger] definition_row(
                ws[i],
                ws[i].definitions[e],
            );
        assert(ws[i] == loaded(s.words[i]));
        lemma_definition_row_holds(ws[i], ws[i].definitions[e]);
    }
    assert(csv_text(seq![csv_export_header()] + rows) == t@);
}

} // verus!
