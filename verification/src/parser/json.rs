//! The JSON vocabulary format: a flat array of records, or a bundle
//! `{ "collection", "topic", "words" }`.
use vstd::prelude::*;
use crate::json::{
    as_opt_str, as_str, as_strs_or_empty, as_u32_or_zero, field, get_field, is_struct_like,
    items_view, lemma_items_view, lookup, members_view, parse_json_text, parsed_json, read_opt_str,
    read_str, read_strs_or_empty, read_u32_or_zero, struct_like, get_member, Json, JsonValue,
};
use crate::model::{
    opt_str, defs_view, validation_message, validation_of, Definition, DefinitionView, Metadata,
    MetadataView, WordRecord, WordView,
};
use crate::parser::ParseError;
use crate::text::{decimal, push_decimal};

verus! {

/// Bundle format: a collection/topic wrapper around an array of words.
#[derive(Debug, Clone, PartialEq, Eq)]
pub struct BundleImport {
    pub collection: Option<String>,
    pub topic: Option<String>,
    pub words: Vec<WordRecord>,
}

/// The mathematical content of a bundle.
pub struct BundleView {
    pub collection: Option<Seq<char>>,
    pub topic: Option<Seq<char>>,
    pub words: Seq<WordView>,
}

/// The views of a sequence of records.
pub open spec fn words_view(v: Seq<WordRecord>) -> Seq<WordView> {
    v.map_values(|w: WordRecord| w@)
}

impl View for BundleImport {
    type V = BundleView;

    open spec fn view(&self) -> BundleView {
        BundleView {
            collection: opt_str(self.collection),
            topic: opt_str(self.topic),
            words: words_view(self.words@),
        }
    }
}

// ----- the shape of the format -----

/// A definition: `pos` (optional) and `meaning` (required).
pub open spec fn decode_definition(j: Json) -> Option<DefinitionView> {
    if !is_struct_like(j, 2) {
        None
    } else {
        match (as_opt_str(field(j, "pos"@, 0)), field(j, "meaning"@, 1)) {
            (Some(pos), Some(m)) => match as_str(m) {
                Some(meaning) => Some(DefinitionView { pos, meaning }),
                None => None,
            },
            _ => None,
        }
    }
}

/// Every item decoded as a definition, or `None` if one is not one.
pub open spec fn decode_definition_items(items: Seq<Json>) -> Option<Seq<DefinitionView>>
    decreases items.len(),
{
    if items.len() == 0 {
        Some(Seq::<DefinitionView>::empty())
    } else {
        match (decode_definition_items(items.drop_last()), decode_definition(items.last())) {
            (Some(ds), Some(d)) => Some(ds.push(d)),
            _ => None,
        }
    }
}

/// An array of definitions.
pub open spec fn decode_definitions(j: Json) -> Option<Seq<DefinitionView>> {
    match j {
        Json::Array(items) => decode_definition_items(items),
        _ => None,
    }
}

/// The metadata of a record: `tags`, `created_at`, `review_count`, each
/// optional.
pub open spec fn decode_metadata(j: Json) -> Option<MetadataView> {
    if !is_struct_like(j, 3) {
        None
    } else {
        match (
            as_strs_or_empty(field(j, "tags"@, 0)),
            as_opt_str(field(j, "created_at"@, 1)),
            as_u32_or_zero(field(j, "review_count"@, 2)),
        ) {
            (Some(tags), Some(created_at), Some(review_count)) => Some(
                MetadataView { tags, created_at, review_count },
            ),
            _ => None,
        }
    }
}

/// The metadata a record has when its `metadata` is absent.
pub open spec fn default_metadata() -> MetadataView {
    MetadataView { tags: Seq::<Seq<char>>::empty(), created_at: None, review_count: 0 }
}

/// A record: `word` and `definitions` required, the other fields optional.
pub open spec fn decode_word(j: Json) -> Option<WordView> {
    if !is_struct_like(j, 8) {
        None
    } else {
        match (field(j, "word"@, 0), as_opt_str(field(j, "phonetic"@, 1)), field(j, "definitions"@, 2)) {
            (Some(wj), Some(phonetic), Some(dj)) => match (
                as_str(wj),
                decode_definitions(dj),
                as_strs_or_empty(field(j, "examples"@, 3)),
                as_strs_or_empty(field(j, "synonyms"@, 4)),
                as_strs_or_empty(field(j, "antonyms"@, 5)),
                as_strs_or_empty(field(j, "family_words"@, 6)),
                match field(j, "metadata"@, 7) {
                    None => Some(default_metadata()),
                    Some(mj) => decode_metadata(mj),
                },
            ) {
                (
                    Some(word),
                    Some(definitions),
                    Some(examples),
                    Some(synonyms),
                    Some(antonyms),
                    Some(family_words),
                    Some(metadata),
                ) => Some(
                    WordView {
                        word,
                        phonetic,
                        definitions,
                        examples,
                        synonyms,
                        antonyms,
                        family_words,
                        metadata,
                    },
                ),
                _ => None,
            },
            _ => None,
        }
    }
}

/// Every item decoded as a record, or `None` if one is not one.
pub open spec fn decode_word_items(items: Seq<Json>) -> Option<Seq<WordView>>
    decreases items.len(),
{
    if items.len() == 0 {
        Some(Seq::<WordView>::empty())
    } else {
        match (decode_word_items(items.drop_last()), decode_word(items.last())) {
            (Some(ws), Some(w)) => Some(ws.push(w)),
            _ => None,
        }
    }
}

/// An array of records.
pub open spec fn decode_words(j: Json) -> Option<Seq<WordView>> {
    match j {
        Json::Array(items) => decode_word_items(items),
        _ => None,
    }
}

/// A bundle written as a struct: an object whose `words` is required and
/// whose `collection` and `topic` may be absent or null, or an array of
/// exactly those three, in that order.
pub open spec fn decode_bundle_struct(j: Json) -> Option<BundleView> {
    match j {
        Json::Object(ms) => match (
            as_opt_str(lookup(ms, "collection"@)),
            as_opt_str(lookup(ms, "topic"@)),
            lookup(ms, "words"@),
        ) {
            (Some(collection), Some(topic), Some(wj)) => match decode_words(wj) {
                Some(words) => Some(BundleView { collection, topic, words }),
                None => None,
            },
            _ => None,
        },
        Json::Array(items) => if items.len() == 3 {
            match (as_opt_str(Some(items[0])), as_opt_str(Some(items[1])), decode_words(items[2])) {
                (Some(collection), Some(topic), Some(words)) => Some(
                    BundleView { collection, topic, words },
                ),
                _ => None,
            }
        } else {
            None
        },
        _ => None,
    }
}

/// The accepted payloads, tried in order: a flat array of records (no
/// collection or topic), else a bundle.
pub open spec fn decode_payload(j: Json) -> Option<BundleView> {
    match decode_words(j) {
        Some(words) => Some(BundleView { collection: None, topic: None, words }),
        None => decode_bundle_struct(j),
    }
}

/// The position of the first record that fails validation, if any.
pub open spec fn first_invalid(ws: Seq<WordView>) -> Option<int>
    decreases ws.len(),
{
    if ws.len() == 0 {
        None
    } else {
        match first_invalid(ws.drop_last()) {
            Some(i) => Some(i),
            None => if validation_of(ws.last()) is Some {
                Some(ws.len() - 1)
            } else {
                None
            },
        }
    }
}

/// The message for record `i` (counted from zero) failing validation.
pub open spec fn invalid_record_message(ws: Seq<WordView>, i: int) -> Seq<char> {
    "record "@ + decimal((i + 1) as nat) + ": "@ + validation_message(validation_of(ws[i])->0)
}

/// What reading a JSON bundle from `text` gives.
pub open spec fn json_bundle_result(text: Seq<char>, r: Result<BundleImport, ParseError>) -> bool {
    match parsed_json(text) {
        Err(m) => r matches Err(ParseError::Json(x)) && x@ == m,
        Ok(doc) => bundle_doc_result(doc, r),
    }
}

/// What reading a bundle from a JSON document gives: a flat array of
/// records or a bundle object, each record valid.
pub open spec fn bundle_doc_result(doc: Json, r: Result<BundleImport, ParseError>) -> bool {
    match decode_payload(doc) {
        None => r matches Err(ParseError::Json(_)),
        Some(b) => match first_invalid(b.words) {
            Some(i) => r matches Err(ParseError::InvalidData(m)) && m@
                == invalid_record_message(b.words, i),
            None => r matches Ok(bundle) && bundle@ == b,
        },
    }
}

// ----- reading the format -----

fn decode_definition_json(v: &JsonValue) -> (r: Result<Definition, String>)
    ensures
        r is Ok <==> decode_definition(v@) is Some,
        r matches Ok(d) ==> decode_definition(v@) == Some(d@),
{
    if !struct_like(v, 2) {
        return Err("invalid type: expected struct Definition".to_owned());
    }
    let pos = match read_opt_str(get_field(v, "pos", 0)) {
        Some(p) => p,
        None => return Err("invalid type for field `pos`: expected a string or null".to_owned()),
    };
    let m = match get_field(v, "meaning", 1) {
        Some(m) => m,
        None => return Err("missing field `meaning`".to_owned()),
    };
    let meaning = match read_str(m) {
        Some(s) => s,
        None => return Err("invalid type for field `meaning`: expected a string".to_owned()),
    };
    Ok(Definition { pos, meaning })
}

fn decode_definitions_json(v: &JsonValue) -> (r: Result<Vec<Definition>, String>)
    ensures
        r is Ok <==> decode_definitions(v@) is Some,
        r matches Ok(ds) ==> decode_definitions(v@) == Some(defs_view(ds@)),
{
    match v {
        JsonValue::Array(items) => {
            let ghost iv = items_view(items@, items@.len());
            proof {
                lemma_items_view(items@, items@.len());
            }
            assert(v@ == Json::Array(iv));
            let mut out: Vec<Definition> = Vec::new();
            let mut i: usize = 0;
            assert(iv.take(0) =~= Seq::<Json>::empty());
            assert(defs_view(out@) =~= Seq::<DefinitionView>::empty());
            while i < items.len()
                invariant
                    i <= items.len(),
                    v@ == Json::Array(iv),
                    iv == items_view(items@, items@.len()),
                    iv.len() == items.len(),
                    forall|j: int| 0 <= j < items.len() ==> #[trigger] iv[j] == items@[j]@,
                    decode_definition_items(iv.take(i as int)) == Some(defs_view(out@)),
                decreases items.len() - i,
            {
                assert(iv.take(i + 1).drop_last() =~= iv.take(i as int));
                assert(iv.take(i + 1).last() == items@[i as int]@);
                match decode_definition_json(&items[i]) {
                    Ok(d) => {
                        let ghost before = defs_view(out@);
                        out.push(d);
                        assert(defs_view(out@) =~= before.push(d@));
                    },
                    Err(e) => {
                        assert(decode_definition_items(iv.take(i + 1)) is None);
                        assert(decode_definition_items(iv) is None) by {
                            lemma_items_prefix_defs(iv, i as int + 1);
                        }
                        return Err(e);
                    },
                }
                i += 1;
            }
            assert(iv.take(i as int) =~= iv);
            Ok(out)
        },
        _ => Err("invalid type for field `definitions`: expected a sequence".to_owned()),
    }
}

proof fn lemma_items_prefix_defs(items: Seq<Json>, n: int)
    requires
        0 <= n <= items.len(),
        decode_definition_items(items.take(n)) is None,
    ensures
        decode_definition_items(items) is None,
    decreases items.len() - n,
{
    if n < items.len() {
        assert(items.take(n + 1).drop_last() =~= items.take(n));
        lemma_items_prefix_defs(items, n + 1);
    } else {
        assert(items.take(n) =~= items);
    }
}

proof fn lemma_items_prefix_words(items: Seq<Json>, n: int)
    requires
        0 <= n <= items.len(),
        decode_word_items(items.take(n)) is None,
    ensures
        decode_word_items(items) is None,
    decreases items.len() - n,
{
    if n < items.len() {
        assert(items.take(n + 1).drop_last() =~= items.take(n));
        lemma_items_prefix_words(items, n + 1);
    } else {
        assert(items.take(n) =~= items);
    }
}

fn decode_metadata_json(v: &JsonValue) -> (r: Result<Metadata, String>)
    ensures
        r is Ok <==> decode_metadata(v@) is Some,
        r matches Ok(m) ==> decode_metadata(v@) == Some(m@),
{
    if !struct_like(v, 3) {
        return Err("invalid type: expected struct Metadata".to_owned());
    }
    let tags = match read_strs_or_empty(get_field(v, "tags", 0)) {
        Some(t) => t,
        None => return Err("invalid type for field `tags`: expected a sequence of strings".to_owned()),
    };
    let created_at = match read_opt_str(get_field(v, "created_at", 1)) {
        Some(c) => c,
        None => return Err("invalid type for field `created_at`: expected a string or null".to_owned()),
    };
    let review_count = match read_u32_or_zero(get_field(v, "review_count", 2)) {
        Some(n) => n,
        None => return Err("invalid value for field `review_count`: expected u32".to_owned()),
    };
    Ok(Metadata { tags, created_at, review_count })
}

fn decode_word_json(v: &JsonValue) -> (r: Result<WordRecord, String>)
    ensures
        r is Ok <==> decode_word(v@) is Some,
        r matches Ok(w) ==> decode_word(v@) == Some(w@),
{
    if !struct_like(v, 8) {
        return Err("invalid type: expected struct WordRecord".to_owned());
    }
    let wj = match get_field(v, "word", 0) {
        Some(x) => x,
        None => return Err("missing field `word`".to_owned()),
    };
    let phonetic = match read_opt_str(get_field(v, "phonetic", 1)) {
        Some(p) => p,
        None => return Err("invalid type for field `phonetic`: expected a string or null".to_owned()),
    };
    let dj = match get_field(v, "definitions", 2) {
        Some(x) => x,
        None => return Err("missing field `definitions`".to_owned()),
    };
    let word = match read_str(wj) {
        Some(s) => s,
        None => return Err("invalid type for field `word`: expected a string".to_owned()),
    };
    let definitions = match decode_definitions_json(dj) {
        Ok(d) => d,
        Err(e) => return Err(e),
    };
    let examples = match read_strs_or_empty(get_field(v, "examples", 3)) {
        Some(x) => x,
        None => return Err("invalid type for field `examples`: expected a sequence of strings".to_owned()),
    };
    let synonyms = match read_strs_or_empty(get_field(v, "synonyms", 4)) {
        Some(x) => x,
        None => return Err("invalid type for field `synonyms`: expected a sequence of strings".to_owned()),
    };
    let antonyms = match read_strs_or_empty(get_field(v, "antonyms", 5)) {
        Some(x) => x,
        None => return Err("invalid type for field `antonyms`: expected a sequence of strings".to_owned()),
    };
    let family_words = match read_strs_or_empty(get_field(v, "family_words", 6)) {
        Some(x) => x,
        None => return Err(
            "invalid type for field `family_words`: expected a sequence of strings".to_owned(),
        ),
    };
    let metadata = match get_field(v, "metadata", 7) {
        None => {
            let m = Metadata { tags: Vec::new(), created_at: None, review_count: 0 };
            assert(m@.tags =~= Seq::<Seq<char>>::empty());
            m
        },
        Some(mj) => match decode_metadata_json(mj) {
            Ok(m) => m,
            Err(e) => return Err(e),
        },
    };
    Ok(WordRecord { word, phonetic, definitions, examples, synonyms, antonyms, family_words, metadata })
}

fn decode_words_json(v: &JsonValue) -> (r: Result<Vec<WordRecord>, String>)
    ensures
        r is Ok <==> decode_words(v@) is Some,
        r matches Ok(ws) ==> decode_words(v@) == Some(words_view(ws@)),
{
    match v {
        JsonValue::Array(items) => {
            let ghost iv = items_view(items@, items@.len());
            proof {
                lemma_items_view(items@, items@.len());
            }
            assert(v@ == Json::Array(iv));
            let mut out: Vec<WordRecord> = Vec::new();
            let mut i: usize = 0;
            assert(iv.take(0) =~= Seq::<Json>::empty());
            assert(words_view(out@) =~= Seq::<WordView>::empty());
            while i < items.len()
                invariant
                    i <= items.len(),
                    v@ == Json::Array(iv),
                    iv == items_view(items@, items@.len()),
                    iv.len() == items.len(),
                    forall|j: int| 0 <= j < items.len() ==> #[trigger] iv[j] == items@[j]@,
                    decode_word_items(iv.take(i as int)) == Some(words_view(out@)),
                decreases items.len() - i,
            {
                assert(iv.take(i + 1).drop_last() =~= iv.take(i as int));
                assert(iv.take(i + 1).last() == items@[i as int]@);
                match decode_word_json(&items[i]) {
                    Ok(w) => {
                        let ghost before = words_view(out@);
                        out.push(w);
                        assert(words_view(out@) =~= before.push(w@));
                    },
                    Err(e) => {
                        assert(decode_word_items(iv.take(i + 1)) is None);
                        proof {
                            lemma_items_prefix_words(iv, i as int + 1);
                        }
                        return Err(e);
                    },
                }
                i += 1;
            }
            assert(iv.take(i as int) =~= iv);
            Ok(out)
        },
        _ => Err("invalid type: expected a sequence of records".to_owned()),
    }
}

fn decode_bundle_struct_json(v: &JsonValue) -> (r: Result<BundleImport, String>)
    ensures
        r is Ok <==> decode_bundle_struct(v@) is Some,
        r matches Ok(b) ==> decode_bundle_struct(v@) == Some(b@),
{
    match v {
        JsonValue::Object(members) => {
            assert(v@ == Json::Object(members_view(members@, members@.len())));
            let collection = match read_opt_str(get_member(members, "collection")) {
                Some(c) => c,
                None => return Err("invalid type for field `collection`".to_owned()),
            };
            let topic = match read_opt_str(get_member(members, "topic")) {
                Some(t) => t,
                None => return Err("invalid type for field `topic`".to_owned()),
            };
            let wj = match get_member(members, "words") {
                Some(w) => w,
                None => return Err("missing field `words`".to_owned()),
            };
            match decode_words_json(wj) {
                Ok(words) => Ok(BundleImport { collection, topic, words }),
                Err(e) => Err(e),
            }
        },
        JsonValue::Array(items) => {
            proof {
                lemma_items_view(items@, items@.len());
            }
            assert(v@ == Json::Array(items_view(items@, items@.len())));
            if items.len() != 3 {
                return Err("invalid length: expected a bundle of 3 elements".to_owned());
            }
            let collection = match read_opt_str(Some(&items[0])) {
                Some(c) => c,
                None => return Err("invalid type for field `collection`".to_owned()),
            };
            let topic = match read_opt_str(Some(&items[1])) {
                Some(t) => t,
                None => return Err("invalid type for field `topic`".to_owned()),
            };
            match decode_words_json(&items[2]) {
                Ok(words) => Ok(BundleImport { collection, topic, words }),
                Err(e) => Err(e),
            }
        },
        _ => Err("data did not match any variant of the import payload".to_owned()),
    }
}

/// The position of the first record that fails validation, if any.
fn find_invalid(words: &Vec<WordRecord>) -> (r: Option<usize>)
    ensures
        r matches Some(i) ==> first_invalid(words_view(words@)) == Some(i as int),
        r is None ==> first_invalid(words_view(words@)) is None,
{
    let ghost ws = words_view(words@);
    let mut i: usize = 0;
    assert(ws.take(0) =~= Seq::<WordView>::empty());
    while i < words.len()
        invariant
            i <= words.len(),
            ws == words_view(words@),
            first_invalid(ws.take(i as int)) is None,
        decreases words.len() - i,
    {
        assert(ws.take(i + 1).drop_last() =~= ws.take(i as int));
        assert(ws.take(i + 1).last() == words@[i as int]@);
        if words[i].validate().is_err() {
            proof {
                lemma_first_invalid_prefix(ws, i as int + 1);
            }
            return Some(i);
        }
        i += 1;
    }
    assert(ws.take(i as int) =~= ws);
    None
}

proof fn lemma_first_invalid_prefix(ws: Seq<WordView>, n: int)
    requires
        0 <= n <= ws.len(),
        first_invalid(ws.take(n)) is Some,
    ensures
        first_invalid(ws) == first_invalid(ws.take(n)),
    decreases ws.len() - n,
{
    if n < ws.len() {
        assert(ws.take(n + 1).drop_last() =~= ws.take(n));
        lemma_first_invalid_prefix(ws, n + 1);
    } else {
        assert(ws.take(n) =~= ws);
    }
}

proof fn lemma_first_invalid_is_invalid(ws: Seq<WordView>)
    ensures
        first_invalid(ws) matches Some(i) ==> 0 <= i < ws.len() && validation_of(ws[i]) is Some,
    decreases ws.len(),
{
    if ws.len() > 0 {
        lemma_first_invalid_is_invalid(ws.drop_last());
    }
}

/// Parse JSON (a flat array of records, or a bundle) into a bundle; a flat
/// array gives a bundle with no collection or topic. Every record must pass
/// validation; the first that does not is reported by its position.
pub fn parse_json_bundle(input: &str) -> (r: Result<BundleImport, ParseError>)
    ensures
        json_bundle_result(input@, r),
{
    let doc = match parse_json_text(input) {
        Ok(d) => d,
        Err(e) => return Err(ParseError::Json(e)),
    };
    decode_bundle(&doc)
}

/// Reads a bundle from a JSON document (see `bundle_doc_result`); the rest of
/// `parse_json_bundle`.
pub fn decode_bundle(doc: &JsonValue) -> (r: Result<BundleImport, ParseError>)
    ensures
        bundle_doc_result(doc@, r),
{
    let bundle = match decode_words_json(doc) {
        Ok(words) => BundleImport { collection: None, topic: None, words },
        Err(_) => match decode_bundle_struct_json(doc) {
            Ok(b) => b,
            Err(e) => return Err(ParseError::Json(e)),
        },
    };
    match find_invalid(&bundle.words) {
        Some(i) => {
            proof {
                lemma_first_invalid_is_invalid(words_view(bundle.words@));
            }
            assert(i < bundle.words.len());
            assert(words_view(bundle.words@)[i as int] == bundle.words@[i as int]@);
            match bundle.words[i].validate() {
                Err(err) => {
                    let mut msg = "record ".to_owned();
                    push_decimal(&mut msg, i + 1);
                    msg.append(": ");
                    msg.append(err.to_string().as_str());
                    Err(ParseError::InvalidData(msg))
                },
                Ok(()) => {
                    assert(false);
                    Err(ParseError::InvalidData(String::new()))
                },
            }
        },
        None => Ok(bundle),
    }
}

/// Parse JSON (a flat array of records, or a bundle) into its list of
/// records, under the same rules as `parse_json_bundle`.
pub fn parse_json_canonical(input: &str) -> (r: Result<Vec<WordRecord>, ParseError>)
    ensures
        match parsed_json(input@) {
            Err(m) => r matches Err(ParseError::Json(x)) && x@ == m,
            Ok(doc) => match decode_payload(doc) {
                None => r matches Err(ParseError::Json(_)),
                Some(b) => match first_invalid(b.words) {
                    Some(i) => r matches Err(ParseError::InvalidData(m)) && m@
                        == invalid_record_message(b.words, i),
                    None => r matches Ok(words) && words_view(words@) == b.words,
                },
            },
        },
{
    match parse_json_bundle(input) {
        Ok(bundle) => Ok(bundle.words),
        Err(e) => Err(e),
    }
}

} // verus!
