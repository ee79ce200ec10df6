//! Bilingual reading material: articles made of paragraphs of English and
//! Vietnamese segments, with the sentence structures they show, and the JSON
//! format they are imported from.
use vstd::prelude::*;
use crate::db::DbError;
use crate::json::{
    as_opt_str, as_str, decode_all, field, get_field, is_struct_like, items_view,
    lemma_decode_all_prefix, lemma_items_view, parse_json_text, parsed_json, read_opt_str, read_str,
    struct_like, Json, JsonValue,
};
use crate::model::opt_str;
use crate::parser::ParseError;
use crate::text::{concat, decimal, push_decimal, trim, trim_str};

pub mod repository;

pub use self::repository::{BilingualArticleUpsertResult, BilingualRepository};

verus! {

/// One English segment with its Vietnamese translation.
#[derive(Debug, Clone, PartialEq, Eq)]
pub struct BilingualSegment {
    pub en: String,
    pub vi: String,
}

/// A sentence structure an article shows: its pattern, an example, and an
/// optional note.
#[derive(Debug, Clone, PartialEq, Eq)]
pub struct BilingualStructure {
    pub pattern: String,
    pub example: String,
    pub note: Option<String>,
}

/// A stored article.
#[derive(Debug, Clone, PartialEq, Eq)]
pub struct BilingualArticle {
    pub id: i64,
    pub title: String,
    pub book: String,
    pub level: Option<String>,
    pub paragraphs: Vec<Vec<BilingualSegment>>,
    pub structures: Vec<BilingualStructure>,
    pub created_at: String,
}

/// A stored article in a listing: its counts instead of its content.
#[derive(Debug, Clone, PartialEq, Eq)]
pub struct BilingualArticleSummary {
    pub id: i64,
    pub title: String,
    pub book: String,
    pub level: Option<String>,
    pub paragraph_count: usize,
    pub structure_count: usize,
    pub created_at: String,
}

/// An article as imported.
#[derive(Debug, Clone, PartialEq, Eq)]
pub struct BilingualArticleInput {
    pub title: String,
    pub book: String,
    pub level: Option<String>,
    pub paragraphs: Vec<Vec<BilingualSegment>>,
    pub structures: Vec<BilingualStructure>,
}

/// The mathematical content of a segment.
pub struct SegmentView {
    pub en: Seq<char>,
    pub vi: Seq<char>,
}

/// The mathematical content of a structure.
pub struct StructureView {
    pub pattern: Seq<char>,
    pub example: Seq<char>,
    pub note: Option<Seq<char>>,
}

/// The mathematical content of an imported article.
pub struct ArticleView {
    pub title: Seq<char>,
    pub book: Seq<char>,
    pub level: Option<Seq<char>>,
    pub paragraphs: Seq<Seq<SegmentView>>,
    pub structures: Seq<StructureView>,
}

impl View for BilingualSegment {
    type V = SegmentView;

    open spec fn view(&self) -> SegmentView {
        SegmentView { en: self.en@, vi: self.vi@ }
    }
}

impl View for BilingualStructure {
    type V = StructureView;

    open spec fn view(&self) -> StructureView {
        StructureView { pattern: self.pattern@, example: self.example@, note: opt_str(self.note) }
    }
}

pub open spec fn segments_view(v: Seq<BilingualSegment>) -> Seq<SegmentView> {
    v.map_values(|s: BilingualSegment| s@)
}

pub open spec fn paragraphs_view(v: Seq<Vec<BilingualSegment>>) -> Seq<Seq<SegmentView>> {
    v.map_values(|p: Vec<BilingualSegment>| segments_view(p@))
}

pub open spec fn structures_view(v: Seq<BilingualStructure>) -> Seq<StructureView> {
    v.map_values(|s: BilingualStructure| s@)
}

impl View for BilingualArticleInput {
    type V = ArticleView;

    open spec fn view(&self) -> ArticleView {
        ArticleView {
            title: self.title@,
            book: self.book@,
            level: opt_str(self.level),
            paragraphs: paragraphs_view(self.paragraphs@),
            structures: structures_view(self.structures@),
        }
    }
}

pub open spec fn articles_view(v: Seq<BilingualArticleInput>) -> Seq<ArticleView> {
    v.map_values(|a: BilingualArticleInput| a@)
}

// ----- the shape of the format -----

/// A segment: `en` and `vi`, both required.
pub open spec fn decode_segment(j: Json) -> Option<SegmentView> {
    if !is_struct_like(j, 2) {
        None
    } else {
        match (field(j, "en"@, 0), field(j, "vi"@, 1)) {
            (Some(e), Some(v)) => match (as_str(e), as_str(v)) {
                (Some(en), Some(vi)) => Some(SegmentView { en, vi }),
                _ => None,
            },
            _ => None,
        }
    }
}

/// Every item decoded as a segment.
pub open spec fn decode_segment_items(items: Seq<Json>) -> Option<Seq<SegmentView>> {
    decode_all(items, |x: Json| decode_segment(x))
}

/// A paragraph: an array of segments.
pub open spec fn decode_paragraph(j: Json) -> Option<Seq<SegmentView>> {
    match j {
        Json::Array(items) => decode_segment_items(items),
        _ => None,
    }
}

/// Every item decoded as a paragraph.
pub open spec fn decode_paragraph_items(items: Seq<Json>) -> Option<Seq<Seq<SegmentView>>> {
    decode_all(items, |x: Json| decode_paragraph(x))
}

/// The paragraphs of an article: an array of paragraphs, none when absent.
pub open spec fn decode_paragraphs(f: Option<Json>) -> Option<Seq<Seq<SegmentView>>> {
    match f {
        None => Some(Seq::<Seq<SegmentView>>::empty()),
        Some(Json::Array(items)) => decode_paragraph_items(items),
        Some(_) => None,
    }
}

/// A structure: `pattern` and `example` required, `note` optional.
pub open spec fn decode_structure(j: Json) -> Option<StructureView> {
    if !is_struct_like(j, 3) {
        None
    } else {
        match (field(j, "pattern"@, 0), field(j, "example"@, 1), as_opt_str(field(j, "note"@, 2))) {
            (Some(p), Some(e), Some(note)) => match (as_str(p), as_str(e)) {
                (Some(pattern), Some(example)) => Some(StructureView { pattern, example, note }),
                _ => None,
            },
            _ => None,
        }
    }
}

/// Every item decoded as a structure.
pub open spec fn decode_structure_items(items: Seq<Json>) -> Option<Seq<StructureView>> {
    decode_all(items, |x: Json| decode_structure(x))
}

/// The structures of an article: an array, none when absent.
pub open spec fn decode_structures(f: Option<Json>) -> Option<Seq<StructureView>> {
    match f {
        None => Some(Seq::<StructureView>::empty()),
        Some(Json::Array(items)) => decode_structure_items(items),
        Some(_) => None,
    }
}

/// The book an article belongs to when it names none.
pub open spec fn default_book_name() -> Seq<char> {
    "Bilingual Books"@
}

/// An article: `title` required; `book` defaulting to the default book;
/// `level`, `paragraphs` and `structures` optional.
pub open spec fn decode_article(j: Json) -> Option<ArticleView> {
    if !is_struct_like(j, 5) {
        None
    } else {
        match (
            field(j, "title"@, 0),
            match field(j, "book"@, 1) {
                None => Some(default_book_name()),
                Some(b) => as_str(b),
            },
            as_opt_str(field(j, "level"@, 2)),
            decode_paragraphs(field(j, "paragraphs"@, 3)),
            decode_structures(field(j, "structures"@, 4)),
        ) {
            (Some(t), Some(book), Some(level), Some(paragraphs), Some(structures)) => match as_str(t) {
                Some(title) => Some(ArticleView { title, book, level, paragraphs, structures }),
                None => None,
            },
            _ => None,
        }
    }
}

/// Every item decoded as an article.
pub open spec fn decode_article_items(items: Seq<Json>) -> Option<Seq<ArticleView>> {
    decode_all(items, |x: Json| decode_article(x))
}

/// An array of articles.
pub open spec fn decode_articles(j: Json) -> Option<Seq<ArticleView>> {
    match j {
        Json::Array(items) => decode_article_items(items),
        _ => None,
    }
}

// ----- the rules of the format -----

/// A required text: trimmed, or the message that `name` is required when
/// nothing is left.
pub open spec fn required_text(v: Seq<char>, name: Seq<char>) -> Result<Seq<char>, Seq<char>> {
    if trim(v).len() == 0 {
        Err(name + " is required"@)
    } else {
        Ok(trim(v))
    }
}

/// An optional text: trimmed, and absent when nothing is left.
pub open spec fn trimmed_opt(o: Option<Seq<char>>) -> Option<Seq<char>> {
    match o {
        Some(v) => if trim(v).len() == 0 {
            None
        } else {
            Some(trim(v))
        },
        None => None,
    }
}

/// The name of part `part` of segment `s` of paragraph `p`, both counted
/// from zero.
pub open spec fn segment_label(title: Seq<char>, p: nat, s: nat, part: Seq<char>) -> Seq<char> {
    title + ": paragraphs["@ + decimal(p) + "]["@ + decimal(s) + "]."@ + part
}

/// The name of part `part` of structure `k`, counted from zero.
pub open spec fn structure_label(title: Seq<char>, k: nat, part: Seq<char>) -> Seq<char> {
    title + ": structures["@ + decimal(k) + "]."@ + part
}

/// The segments of paragraph `p`, each text required and trimmed; the first
/// failure in order is reported.
pub open spec fn normalize_segments(title: Seq<char>, p: nat, segs: Seq<SegmentView>) -> Result<Seq<SegmentView>, Seq<char>>
    decreases segs.len(),
{
    if segs.len() == 0 {
        Ok(Seq::<SegmentView>::empty())
    } else {
        match normalize_segments(title, p, segs.drop_last()) {
            Err(m) => Err(m),
            Ok(done) => {
                let k = (segs.len() - 1) as nat;
                match required_text(segs.last().en, segment_label(title, p, k, "en"@)) {
                    Err(m) => Err(m),
                    Ok(en) => match required_text(segs.last().vi, segment_label(title, p, k, "vi"@)) {
                        Err(m) => Err(m),
                        Ok(vi) => Ok(done.push(SegmentView { en, vi })),
                    },
                }
            },
        }
    }
}

/// The paragraphs, each required to hold a segment and normalized in turn.
pub open spec fn normalize_paragraphs(title: Seq<char>, ps: Seq<Seq<SegmentView>>) -> Result<Seq<Seq<SegmentView>>, Seq<char>>
    decreases ps.len(),
{
    if ps.len() == 0 {
        Ok(Seq::<Seq<SegmentView>>::empty())
    } else {
        match normalize_paragraphs(title, ps.drop_last()) {
            Err(m) => Err(m),
            Ok(done) => {
                let p = (ps.len() - 1) as nat;
                if ps.last().len() == 0 {
                    Err(title + ": paragraph "@ + decimal(p + 1) + " must contain at least one segment"@)
                } else {
                    match normalize_segments(title, p, ps.last()) {
                        Err(m) => Err(m),
                        Ok(segs) => Ok(done.push(segs)),
                    }
                }
            },
        }
    }
}

/// The structures, pattern and example required and trimmed, note trimmed.
pub open spec fn normalize_structures(title: Seq<char>, ss: Seq<StructureView>) -> Result<Seq<StructureView>, Seq<char>>
    decreases ss.len(),
{
    if ss.len() == 0 {
        Ok(Seq::<StructureView>::empty())
    } else {
        match normalize_structures(title, ss.drop_last()) {
            Err(m) => Err(m),
            Ok(done) => {
                let k = (ss.len() - 1) as nat;
                match required_text(ss.last().pattern, structure_label(title, k, "pattern"@)) {
                    Err(m) => Err(m),
                    Ok(pattern) => match required_text(ss.last().example, structure_label(title, k, "example"@)) {
                        Err(m) => Err(m),
                        Ok(example) => Ok(done.push(StructureView { pattern, example, note: trimmed_opt(ss.last().note) })),
                    },
                }
            },
        }
    }
}

/// An article normalized: title and book required and trimmed, level
/// trimmed, at least one paragraph, then paragraphs and structures in turn.
pub open spec fn normalized_article(a: ArticleView) -> Result<ArticleView, Seq<char>> {
    match required_text(a.title, "title"@) {
        Err(m) => Err(m),
        Ok(title) => match required_text(a.book, "book"@) {
            Err(m) => Err(m),
            Ok(book) => if a.paragraphs.len() == 0 {
                Err(title + ": paragraphs must not be empty"@)
            } else {
                match normalize_paragraphs(title, a.paragraphs) {
                    Err(m) => Err(m),
                    Ok(paragraphs) => match normalize_structures(title, a.structures) {
                        Err(m) => Err(m),
                        Ok(structures) => Ok(ArticleView { title, book, level: trimmed_opt(a.level), paragraphs, structures }),
                    },
                }
            },
        },
    }
}

/// Every article normalized; the first failure in order is reported.
pub open spec fn normalized_articles(arts: Seq<ArticleView>) -> Result<Seq<ArticleView>, Seq<char>>
    decreases arts.len(),
{
    if arts.len() == 0 {
        Ok(Seq::<ArticleView>::empty())
    } else {
        match normalized_articles(arts.drop_last()) {
            Err(m) => Err(m),
            Ok(done) => match normalized_article(arts.last()) {
                Err(m) => Err(m),
                Ok(a) => Ok(done.push(a)),
            },
        }
    }
}

/// The message for an import without articles.
pub open spec fn no_articles_message() -> Seq<char> {
    "bilingual import must contain at least one article"@
}

/// What reading bilingual JSON from `text` gives: text that is not JSON of
/// the right shape is a JSON error; no article, or an article that breaks a
/// rule, is invalid data; otherwise the articles normalized.
pub open spec fn bilingual_result(text: Seq<char>, r: Result<Vec<BilingualArticleInput>, ParseError>) -> bool {
    match parsed_json(text) {
        Err(m) => r matches Err(ParseError::Json(x)) && x@ == m,
        Ok(doc) => bilingual_doc_result(doc, r),
    }
}

/// What reading bilingual articles from a JSON document gives (see
/// `bilingual_result`).
pub open spec fn bilingual_doc_result(doc: Json, r: Result<Vec<BilingualArticleInput>, ParseError>) -> bool {
    match decode_articles(doc) {
        None => r matches Err(ParseError::Json(_)),
        Some(arts) => if arts.len() == 0 {
            r matches Err(ParseError::InvalidData(m)) && m@ == no_articles_message()
        } else {
            match normalized_articles(arts) {
                Err(m) => r matches Err(ParseError::InvalidData(x)) && x@ == m,
                Ok(ns) => r matches Ok(v) && articles_view(v@) == ns,
            }
        },
    }
}

// ----- reading the format -----

proof fn lemma_segment_items(items: Seq<Json>, n: int)
    requires
        0 <= n < items.len(),
    ensures
        decode_segment_items(items.take(n + 1)) == match (decode_segment_items(items.take(n)), decode_segment(items[n])) {
            (Some(ds), Some(d)) => Some(ds.push(d)),
            _ => None::<Seq<SegmentView>>,
        },
        decode_segment_items(items.take(n + 1)) is None ==> decode_segment_items(items) is None,
{
    assert(items.take(n + 1).drop_last() =~= items.take(n));
    if decode_segment_items(items.take(n + 1)) is None {
        lemma_decode_all_prefix(items, |x: Json| decode_segment(x), n + 1);
    }
}

proof fn lemma_paragraph_items(items: Seq<Json>, n: int)
    requires
        0 <= n < items.len(),
    ensures
        decode_paragraph_items(items.take(n + 1)) == match (decode_paragraph_items(items.take(n)), decode_paragraph(items[n])) {
            (Some(ds), Some(d)) => Some(ds.push(d)),
            _ => None::<Seq<Seq<SegmentView>>>,
        },
        decode_paragraph_items(items.take(n + 1)) is None ==> decode_paragraph_items(items) is None,
{
    assert(items.take(n + 1).drop_last() =~= items.take(n));
    if decode_paragraph_items(items.take(n + 1)) is None {
        lemma_decode_all_prefix(items, |x: Json| decode_paragraph(x), n + 1);
    }
}

proof fn lemma_structure_items(items: Seq<Json>, n: int)
    requires
        0 <= n < items.len(),
    ensures
        decode_structure_items(items.take(n + 1)) == match (decode_structure_items(items.take(n)), decode_structure(items[n])) {
            (Some(ds), Some(d)) => Some(ds.push(d)),
            _ => None::<Seq<StructureView>>,
        },
        decode_structure_items(items.take(n + 1)) is None ==> decode_structure_items(items) is None,
{
    assert(items.take(n + 1).drop_last() =~= items.take(n));
    if decode_structure_items(items.take(n + 1)) is None {
        lemma_decode_all_prefix(items, |x: Json| decode_structure(x), n + 1);
    }
}

proof fn lemma_article_items(items: Seq<Json>, n: int)
    requires
        0 <= n < items.len(),
    ensures
        decode_article_items(items.take(n + 1)) == match (decode_article_items(items.take(n)), decode_article(items[n])) {
            (Some(ds), Some(d)) => Some(ds.push(d)),
            _ => None::<Seq<ArticleView>>,
        },
        decode_article_items(items.take(n + 1)) is None ==> decode_article_items(items) is None,
{
    assert(items.take(n + 1).drop_last() =~= items.take(n));
    if decode_article_items(items.take(n + 1)) is None {
        lemma_decode_all_prefix(items, |x: Json| decode_article(x), n + 1);
    }
}

fn decode_segment_json(v: &JsonValue) -> (r: Result<BilingualSegment, String>)
    ensures
        r is Ok <==> decode_segment(v@) is Some,
        r matches Ok(s) ==> decode_segment(v@) == Some(s@),
{
    if !struct_like(v, 2) {
        return Err("invalid type: expected struct BilingualSegment".to_owned());
    }
    let e = match get_field(v, "en", 0) {
        Some(e) => e,
        None => return Err("missing field `en`".to_owned()),
    };
    let x = match get_field(v, "vi", 1) {
        Some(x) => x,
        None => return Err("missing field `vi`".to_owned()),
    };
    let en = match read_str(e) {
        Some(s) => s,
        None => return Err("invalid type for field `en`: expected a string".to_owned()),
    };
    let vi = match read_str(x) {
        Some(s) => s,
        None => return Err("invalid type for field `vi`: expected a string".to_owned()),
    };
    Ok(BilingualSegment { en, vi })
}

fn decode_paragraph_json(v: &JsonValue) -> (r: Result<Vec<BilingualSegment>, String>)
    ensures
        r is Ok <==> decode_paragraph(v@) is Some,
        r matches Ok(p) ==> decode_paragraph(v@) == Some(segments_view(p@)),
{
    match v {
        JsonValue::Array(items) => {
            let ghost iv = items_view(items@, items@.len());
            proof {
                lemma_items_view(items@, items@.len());
            }
            let mut out: Vec<BilingualSegment> = Vec::new();
            let mut i: usize = 0;
            assert(iv.take(0) =~= Seq::<Json>::empty());
            assert(segments_view(out@) =~= Seq::<SegmentView>::empty());
            while i < items.len()
                invariant
                    i <= items.len(),
                    v@ == Json::Array(iv),
                    iv.len() == items.len(),
                    forall|j: int| 0 <= j < items.len() ==> #[trigger] iv[j] == items@[j]@,
                    decode_segment_items(iv.take(i as int)) == Some(segments_view(out@)),
                decreases items.len() - i,
            {
                proof {
                    lemma_segment_items(iv, i as int);
                }
                match decode_segment_json(&items[i]) {
                    Ok(d) => {
                        let ghost before = segments_view(out@);
                        out.push(d);
                        assert(segments_view(out@) =~= before.push(d@));
                    },
                    Err(e) => {
                        return Err(e);
                    },
                }
                i += 1;
            }
            assert(iv.take(i as int) =~= iv);
            Ok(out)
        },
        _ => Err("invalid type: expected a sequence of segments".to_owned()),
    }
}

fn decode_paragraphs_json(f: Option<&JsonValue>) -> (r: Result<Vec<Vec<BilingualSegment>>, String>)
    ensures
        r is Ok <==> decode_paragraphs(match f { Some(x) => Some(x@), None => None }) is Some,
        r matches Ok(ps) ==> decode_paragraphs(match f { Some(x) => Some(x@), None => None }) == Some(paragraphs_view(ps@)),
{
    match f {
        None => {
            let out: Vec<Vec<BilingualSegment>> = Vec::new();
            assert(paragraphs_view(out@) =~= Seq::<Seq<SegmentView>>::empty());
            Ok(out)
        },
        Some(JsonValue::Array(items)) => {
            let ghost iv = items_view(items@, items@.len());
            proof {
                lemma_items_view(items@, items@.len());
            }
            let mut out: Vec<Vec<BilingualSegment>> = Vec::new();
            let mut i: usize = 0;
            assert(iv.take(0) =~= Seq::<Json>::empty());
            assert(paragraphs_view(out@) =~= Seq::<Seq<SegmentView>>::empty());
            while i < items.len()
                invariant
                    i <= items.len(),
                    iv == items_view(items@, items@.len()),
                    (match f { Some(x) => Some(x@), None => None }) == Some(Json::Array(iv)),
                    iv.len() == items.len(),
                    forall|j: int| 0 <= j < items.len() ==> #[trigger] iv[j] == items@[j]@,
                    decode_paragraph_items(iv.take(i as int)) == Some(paragraphs_view(out@)),
                decreases items.len() - i,
            {
                proof {
                    lemma_paragraph_items(iv, i as int);
                }
                match decode_paragraph_json(&items[i]) {
                    Ok(d) => {
                        let ghost before = paragraphs_view(out@);
                        let ghost dv = segments_view(d@);
                        out.push(d);
                        assert(paragraphs_view(out@) =~= before.push(dv));
                    },
                    Err(e) => {
                        return Err(e);
                    },
                }
                i += 1;
            }
            assert(iv.take(i as int) =~= iv);
            Ok(out)
        },
        Some(_) => Err("invalid type for field `paragraphs`: expected a sequence".to_owned()),
    }
}

fn decode_structure_json(v: &JsonValue) -> (r: Result<BilingualStructure, String>)
    ensures
        r is Ok <==> decode_structure(v@) is Some,
        r matches Ok(s) ==> decode_structure(v@) == Some(s@),
{
    if !struct_like(v, 3) {
        return Err("invalid type: expected struct BilingualStructure".to_owned());
    }
    let p = match get_field(v, "pattern", 0) {
        Some(p) => p,
        None => return Err("missing field `pattern`".to_owned()),
    };
    let e = match get_field(v, "example", 1) {
        Some(e) => e,
        None => return Err("missing field `example`".to_owned()),
    };
    let note = match read_opt_str(get_field(v, "note", 2)) {
        Some(n) => n,
        None => return Err("invalid type for field `note`: expected a string or null".to_owned()),
    };
    let pattern = match read_str(p) {
        Some(s) => s,
        None => return Err("invalid type for field `pattern`: expected a string".to_owned()),
    };
    let example = match read_str(e) {
        Some(s) => s,
        None => return Err("invalid type for field `example`: expected a string".to_owned()),
    };
    Ok(BilingualStructure { pattern, example, note })
}

fn decode_structures_json(f: Option<&JsonValue>) -> (r: Result<Vec<BilingualStructure>, String>)
    ensures
        r is Ok <==> decode_structures(match f { Some(x) => Some(x@), None => None }) is Some,
        r matches Ok(ss) ==> decode_structures(match f { Some(x) => Some(x@), None => None }) == Some(structures_view(ss@)),
{
    match f {
        None => {
            let out: Vec<BilingualStructure> = Vec::new();
            assert(structures_view(out@) =~= Seq::<StructureView>::empty());
            Ok(out)
        },
        Some(JsonValue::Array(items)) => {
            let ghost iv = items_view(items@, items@.len());
            proof {
                lemma_items_view(items@, items@.len());
            }
            let mut out: Vec<BilingualStructure> = Vec::new();
            let mut i: usize = 0;
            assert(iv.take(0) =~= Seq::<Json>::empty());
            assert(structures_view(out@) =~= Seq::<StructureView>::empty());
            while i < items.len()
                invariant
                    i <= items.len(),
                    iv == items_view(items@, items@.len()),
                    (match f { Some(x) => Some(x@), None => None }) == Some(Json::Array(iv)),
                    iv.len() == items.len(),
                    forall|j: int| 0 <= j < items.len() ==> #[trigger] iv[j] == items@[j]@,
                    decode_structure_items(iv.take(i as int)) == Some(structures_view(out@)),
                decreases items.len() - i,
            {
                proof {
                    lemma_structure_items(iv, i as int);
                }
                match decode_structure_json(&items[i]) {
                    Ok(d) => {
                        let ghost before = structures_view(out@);
                        out.push(d);
                        assert(structures_view(out@) =~= before.push(d@));
                    },
                    Err(e) => {
                        return Err(e);
                    },
                }
                i += 1;
            }
            assert(iv.take(i as int) =~= iv);
            Ok(out)
        },
        Some(_) => Err("invalid type for field `structures`: expected a sequence".to_owned()),
    }
}

/// The book an article belongs to when it names none.
pub fn default_book() -> (r: String)
    ensures
        r@ == default_book_name(),
{
    "Bilingual Books".to_owned()
}

fn decode_article_json(v: &JsonValue) -> (r: Result<BilingualArticleInput, String>)
    ensures
        r is Ok <==> decode_article(v@) is Some,
        r matches Ok(a) ==> decode_article(v@) == Some(a@),
{
    if !struct_like(v, 5) {
        return Err("invalid type: expected struct BilingualArticleInput".to_owned());
    }
    let t = match get_field(v, "title", 0) {
        Some(t) => t,
        None => return Err("missing field `title`".to_owned()),
    };
    let book = match get_field(v, "book", 1) {
        None => default_book(),
        Some(b) => match read_str(b) {
            Some(s) => s,
            None => return Err("invalid type for field `book`: expected a string".to_owned()),
        },
    };
    let level = match read_opt_str(get_field(v, "level", 2)) {
        Some(l) => l,
        None => return Err("invalid type for field `level`: expected a string or null".to_owned()),
    };
    let paragraphs = match decode_paragraphs_json(get_field(v, "paragraphs", 3)) {
        Ok(p) => p,
        Err(e) => return Err(e),
    };
    let structures = match decode_structures_json(get_field(v, "structures", 4)) {
        Ok(s) => s,
        Err(e) => return Err(e),
    };
    let title = match read_str(t) {
        Some(s) => s,
        None => return Err("invalid type for field `title`: expected a string".to_owned()),
    };
    Ok(BilingualArticleInput { title, book, level, paragraphs, structures })
}

fn decode_articles_json(v: &JsonValue) -> (r: Result<Vec<BilingualArticleInput>, String>)
    ensures
        r is Ok <==> decode_articles(v@) is Some,
        r matches Ok(a) ==> decode_articles(v@) == Some(articles_view(a@)),
{
    match v {
        JsonValue::Array(items) => {
            let ghost iv = items_view(items@, items@.len());
            proof {
                lemma_items_view(items@, items@.len());
            }
            let mut out: Vec<BilingualArticleInput> = Vec::new();
            let mut i: usize = 0;
            assert(iv.take(0) =~= Seq::<Json>::empty());
            assert(articles_view(out@) =~= Seq::<ArticleView>::empty());
            while i < items.len()
                invariant
                    i <= items.len(),
                    v@ == Json::Array(iv),
                    iv.len() == items.len(),
                    forall|j: int| 0 <= j < items.len() ==> #[trigger] iv[j] == items@[j]@,
                    decode_article_items(iv.take(i as int)) == Some(articles_view(out@)),
                decreases items.len() - i,
            {
                proof {
                    lemma_article_items(iv, i as int);
                }
                match decode_article_json(&items[i]) {
                    Ok(d) => {
                        let ghost before = articles_view(out@);
                        let ghost dv = d@;
                        out.push(d);
                        assert(articles_view(out@) =~= before.push(dv));
                    },
                    Err(e) => {
                        return Err(e);
                    },
                }
                i += 1;
            }
            assert(iv.take(i as int) =~= iv);
            Ok(out)
        },
        _ => Err("invalid type: expected a sequence of articles".to_owned()),
    }
}

// ----- the rules, applied -----

proof fn lemma_segments_prefix(title: Seq<char>, p: nat, segs: Seq<SegmentView>, n: int)
    requires
        0 <= n <= segs.len(),
        normalize_segments(title, p, segs.take(n)) is Err,
    ensures
        normalize_segments(title, p, segs) == normalize_segments(title, p, segs.take(n)),
    decreases segs.len() - n,
{
    if n < segs.len() {
        assert(segs.take(n + 1).drop_last() =~= segs.take(n));
        lemma_segments_prefix(title, p, segs, n + 1);
    } else {
        assert(segs.take(n) =~= segs);
    }
}

proof fn lemma_paragraphs_prefix(title: Seq<char>, ps: Seq<Seq<SegmentView>>, n: int)
    requires
        0 <= n <= ps.len(),
        normalize_paragraphs(title, ps.take(n)) is Err,
    ensures
        normalize_paragraphs(title, ps) == normalize_paragraphs(title, ps.take(n)),
    decreases ps.len() - n,
{
    if n < ps.len() {
        assert(ps.take(n + 1).drop_last() =~= ps.take(n));
        lemma_paragraphs_prefix(title, ps, n + 1);
    } else {
        assert(ps.take(n) =~= ps);
    }
}

proof fn lemma_structures_prefix(title: Seq<char>, ss: Seq<StructureView>, n: int)
    requires
        0 <= n <= ss.len(),
        normalize_structures(title, ss.take(n)) is Err,
    ensures
        normalize_structures(title, ss) == normalize_structures(title, ss.take(n)),
    decreases ss.len() - n,
{
    if n < ss.len() {
        assert(ss.take(n + 1).drop_last() =~= ss.take(n));
        lemma_structures_prefix(title, ss, n + 1);
    } else {
        assert(ss.take(n) =~= ss);
    }
}

proof fn lemma_articles_prefix(arts: Seq<ArticleView>, n: int)
    requires
        0 <= n <= arts.len(),
        normalized_articles(arts.take(n)) is Err,
    ensures
        normalized_articles(arts) == normalized_articles(arts.take(n)),
    decreases arts.len() - n,
{
    if n < arts.len() {
        assert(arts.take(n + 1).drop_last() =~= arts.take(n));
        lemma_articles_prefix(arts, n + 1);
    } else {
        assert(arts.take(n) =~= arts);
    }
}

/// A required text, trimmed; blank is an error naming the field.
fn required(value: &str, field_name: &str) -> (r: Result<String, ParseError>)
    ensures
        match required_text(value@, field_name@) {
            Ok(t) => r matches Ok(x) && x@ == t,
            Err(m) => r matches Err(ParseError::InvalidData(x)) && x@ == m,
        },
{
    let trimmed = trim_str(value);
    if trimmed.as_str().is_empty() {
        return Err(ParseError::InvalidData(concat(field_name, " is required")));
    }
    Ok(trimmed)
}

/// An optional text, trimmed; blank becomes absent.
pub fn normalize_optional(value: &Option<String>) -> (r: Option<String>)
    ensures
        opt_str(r) == trimmed_opt(opt_str(*value)),
{
    match value {
        Some(s) => {
            let t = trim_str(s.as_str());
            if t.as_str().is_empty() {
                None
            } else {
                Some(t)
            }
        },
        None => None,
    }
}

/// A required text, trimmed; blank is a validation error naming the field.
pub fn normalize_required(value: &str, field_name: &str) -> (r: Result<String, DbError>)
    ensures
        match required_text(value@, field_name@) {
            Ok(t) => r matches Ok(x) && x@ == t,
            Err(m) => r matches Err(DbError::Validation(x)) && x@ == m,
        },
{
    let trimmed = trim_str(value);
    if trimmed.as_str().is_empty() {
        return Err(DbError::Validation(concat(field_name, " is required")));
    }
    Ok(trimmed)
}

fn label_segment(title: &str, p: usize, s: usize, part: &str) -> (r: String)
    ensures
        r@ == segment_label(title@, p as nat, s as nat, part@),
{
    let mut m = title.to_owned();
    m.append(": paragraphs[");
    push_decimal(&mut m, p);
    m.append("][");
    push_decimal(&mut m, s);
    m.append("].");
    m.append(part);
    m
}

fn label_structure(title: &str, k: usize, part: &str) -> (r: String)
    ensures
        r@ == structure_label(title@, k as nat, part@),
{
    let mut m = title.to_owned();
    m.append(": structures[");
    push_decimal(&mut m, k);
    m.append("].");
    m.append(part);
    m
}

fn normalize_segments_exec(title: &str, p: usize, segs: &Vec<BilingualSegment>) -> (r: Result<Vec<BilingualSegment>, ParseError>)
    ensures
        match normalize_segments(title@, p as nat, segments_view(segs@)) {
            Ok(v) => r matches Ok(x) && segments_view(x@) == v,
            Err(m) => r matches Err(ParseError::InvalidData(x)) && x@ == m,
        },
{
    let ghost sv = segments_view(segs@);
    let mut out: Vec<BilingualSegment> = Vec::new();
    let mut i: usize = 0;
    assert(sv.take(0) =~= Seq::<SegmentView>::empty());
    assert(segments_view(out@) =~= Seq::<SegmentView>::empty());
    while i < segs.len()
        invariant
            i <= segs.len(),
            sv == segments_view(segs@),
            normalize_segments(title@, p as nat, sv.take(i as int)) == Ok::<Seq<SegmentView>, Seq<char>>(segments_view(out@)),
        decreases segs.len() - i,
    {
        assert(sv.take(i + 1).drop_last() =~= sv.take(i as int));
        assert(sv.take(i + 1).last() == segs@[i as int]@);
        let en = match required(segs[i].en.as_str(), label_segment(title, p, i, "en").as_str()) {
            Ok(x) => x,
            Err(e) => {
                proof {
                    lemma_segments_prefix(title@, p as nat, sv, i + 1);
                }
                return Err(e);
            },
        };
        let vi = match required(segs[i].vi.as_str(), label_segment(title, p, i, "vi").as_str()) {
            Ok(x) => x,
            Err(e) => {
                proof {
                    lemma_segments_prefix(title@, p as nat, sv, i + 1);
                }
                return Err(e);
            },
        };
        let ghost before = segments_view(out@);
        let seg = BilingualSegment { en, vi };
        let ghost segv = seg@;
        out.push(seg);
        assert(segments_view(out@) =~= before.push(segv));
        i += 1;
    }
    assert(sv.take(i as int) =~= sv);
    Ok(out)
}

fn normalize_paragraphs_exec(title: &str, ps: &Vec<Vec<BilingualSegment>>) -> (r: Result<Vec<Vec<BilingualSegment>>, ParseError>)
    ensures
        match normalize_paragraphs(title@, paragraphs_view(ps@)) {
            Ok(v) => r matches Ok(x) && paragraphs_view(x@) == v,
            Err(m) => r matches Err(ParseError::InvalidData(x)) && x@ == m,
        },
{
    let ghost pv = paragraphs_view(ps@);
    let mut out: Vec<Vec<BilingualSegment>> = Vec::new();
    let mut i: usize = 0;
    assert(pv.take(0) =~= Seq::<Seq<SegmentView>>::empty());
    assert(paragraphs_view(out@) =~= Seq::<Seq<SegmentView>>::empty());
    while i < ps.len()
        invariant
            i <= ps.len(),
            pv == paragraphs_view(ps@),
            normalize_paragraphs(title@, pv.take(i as int)) == Ok::<Seq<Seq<SegmentView>>, Seq<char>>(paragraphs_view(out@)),
        decreases ps.len() - i,
    {
        assert(pv.take(i + 1).drop_last() =~= pv.take(i as int));
        assert(pv.take(i + 1).last() == segments_view(ps@[i as int]@));
        if ps[i].len() == 0 {
            let mut m = title.to_owned();
            m.append(": paragraph ");
            push_decimal(&mut m, i + 1);
            m.append(" must contain at least one segment");
            proof {
                lemma_paragraphs_prefix(title@, pv, i + 1);
            }
            return Err(ParseError::InvalidData(m));
        }
        let segs = match normalize_segments_exec(title, i, &ps[i]) {
            Ok(x) => x,
            Err(e) => {
                proof {
                    lemma_paragraphs_prefix(title@, pv, i + 1);
                }
                return Err(e);
            },
        };
        let ghost before = paragraphs_view(out@);
        let ghost sv = segments_view(segs@);
        out.push(segs);
        assert(paragraphs_view(out@) =~= before.push(sv));
        i += 1;
    }
    assert(pv.take(i as int) =~= pv);
    Ok(out)
}

fn normalize_structures_exec(title: &str, ss: &Vec<BilingualStructure>) -> (r: Result<Vec<BilingualStructure>, ParseError>)
    ensures
        match normalize_structures(title@, structures_view(ss@)) {
            Ok(v) => r matches Ok(x) && structures_view(x@) == v,
            Err(m) => r matches Err(ParseError::InvalidData(x)) && x@ == m,
        },
{
    let ghost sv = structures_view(ss@);
    let mut out: Vec<BilingualStructure> = Vec::new();
    let mut i: usize = 0;
    assert(sv.take(0) =~= Seq::<StructureView>::empty());
    assert(structures_view(out@) =~= Seq::<StructureView>::empty());
    while i < ss.len()
        invariant
            i <= ss.len(),
            sv == structures_view(ss@),
            normalize_structures(title@, sv.take(i as int)) == Ok::<Seq<StructureView>, Seq<char>>(structures_view(out@)),
        decreases ss.len() - i,
    {
        assert(sv.take(i + 1).drop_last() =~= sv.take(i as int));
        assert(sv.take(i + 1).last() == ss@[i as int]@);
        let pattern = match required(ss[i].pattern.as_str(), label_structure(title, i, "pattern").as_str()) {
            Ok(x) => x,
            Err(e) => {
                proof {
                    lemma_structures_prefix(title@, sv, i + 1);
                }
                return Err(e);
            },
        };
        let example = match required(ss[i].example.as_str(), label_structure(title, i, "example").as_str()) {
            Ok(x) => x,
            Err(e) => {
                proof {
                    lemma_structures_prefix(title@, sv, i + 1);
                }
                return Err(e);
            },
        };
        let note = normalize_optional(&ss[i].note);
        let ghost before = structures_view(out@);
        let st = BilingualStructure { pattern, example, note };
        let ghost stv = st@;
        out.push(st);
        assert(structures_view(out@) =~= before.push(stv));
        i += 1;
    }
    assert(sv.take(i as int) =~= sv);
    Ok(out)
}

/// Normalizes an imported article in place (see `normalized_article`).
pub fn normalize_article(article: &mut BilingualArticleInput) -> (r: Result<(), ParseError>)
    ensures
        match normalized_article(old(article)@) {
            Ok(a) => r is Ok && final(article)@ == a,
            Err(m) => r matches Err(ParseError::InvalidData(x)) && x@ == m,
        },
{
    let title = match required(article.title.as_str(), "title") {
        Ok(t) => t,
        Err(e) => {
            proof {
                reveal_strlit("title");
            }
            return Err(e);
        },
    };
    let book = match required(article.book.as_str(), "book") {
        Ok(b) => b,
        Err(e) => return Err(e),
    };
    let level = normalize_optional(&article.level);
    if article.paragraphs.len() == 0 {
        return Err(ParseError::InvalidData(concat(title.as_str(), ": paragraphs must not be empty")));
    }
    let paragraphs = match normalize_paragraphs_exec(title.as_str(), &article.paragraphs) {
        Ok(p) => p,
        Err(e) => return Err(e),
    };
    let structures = match normalize_structures_exec(title.as_str(), &article.structures) {
        Ok(s) => s,
        Err(e) => return Err(e),
    };
    *article = BilingualArticleInput { title, book, level, paragraphs, structures };
    Ok(())
}

/// Reads bilingual articles from JSON (see `bilingual_result`).
pub fn parse_bilingual_json(input: &str) -> (r: Result<Vec<BilingualArticleInput>, ParseError>)
    ensures
        bilingual_result(input@, r),
{
    let doc = match parse_json_text(input) {
        Ok(d) => d,
        Err(e) => return Err(ParseError::Json(e)),
    };
    decode_bilingual(&doc)
}

/// Reads bilingual articles from a JSON document (see
/// `bilingual_doc_result`); the rest of `parse_bilingual_json`.
pub fn decode_bilingual(doc: &JsonValue) -> (r: Result<Vec<BilingualArticleInput>, ParseError>)
    ensures
        bilingual_doc_result(doc@, r),
{
    let mut articles = match decode_articles_json(doc) {
        Ok(a) => a,
        Err(e) => return Err(ParseError::Json(e)),
    };
    if articles.len() == 0 {
        return Err(ParseError::InvalidData("bilingual import must contain at least one article".to_owned()));
    }
    let ghost av = articles_view(articles@);
    let ghost n = articles.len();
    let mut out: Vec<BilingualArticleInput> = Vec::new();
    let mut i: usize = 0;
    assert(av.take(0) =~= Seq::<ArticleView>::empty());
    assert(articles_view(out@) =~= Seq::<ArticleView>::empty());
    assert(articles_view(articles@) =~= av.skip(0));
    while articles.len() > 0
        invariant
            i <= n,
            n == av.len(),
            n > 0,
            decode_articles(doc@) == Some(av),
            articles.len() == n - i,
            articles_view(articles@) == av.skip(i as int),
            normalized_articles(av.take(i as int)) == Ok::<Seq<ArticleView>, Seq<char>>(articles_view(out@)),
        decreases articles.len(),
    {
        let ghost rest = articles@;
        let mut a = articles.remove(0);
        assert(a@ == av[i as int]) by {
            assert(articles_view(rest)[0] == a@);
        }
        assert(articles_view(articles@) =~= av.skip(i + 1)) by {
            assert(articles@ == rest.remove(0));
            assert forall|j: int| 0 <= j < articles@.len() implies #[trigger] articles_view(articles@)[j] == av.skip(i + 1)[j] by {
                assert(articles@[j] == rest[j + 1]);
                assert(articles_view(rest)[j + 1] == av.skip(i as int)[j + 1]);
            }
        }
        assert(av.take(i + 1).drop_last() =~= av.take(i as int));
        match normalize_article(&mut a) {
            Ok(()) => {},
            Err(e) => {
                proof {
                    lemma_articles_prefix(av, i + 1);
                }
                return Err(e);
            },
        }
        let ghost before = articles_view(out@);
        let ghost aw = a@;
        out.push(a);
        assert(articles_view(out@) =~= before.push(aw));
        i += 1;
    }
    assert(av.take(i as int) =~= av);
    Ok(out)
}

} // verus!
