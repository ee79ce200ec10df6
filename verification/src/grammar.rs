//! Grammar lessons: documents with exercises, and the two formats they are
//! imported from, a JSON array and a Markdown file with front matter.
use vstd::prelude::*;
use crate::json::{
    as_opt_str, as_str, as_strs_or_empty, decode_all, field, get_field, is_struct_like, items_view,
    json_view, lemma_decode_all_prefix, lemma_items_view, lemma_members_view, members_view,
    parse_json_text, parsed_json, read_opt_str, read_str, read_strs_or_empty, struct_like, Json,
    JsonMember, JsonNumber, JsonValue,
};
use crate::model::opt_str;
use crate::parser::ParseError;
use crate::text::{char_count, find_text, find_text_exec, lines_of, starts_with, starts_with_text, strip_both_char, strip_leading, strip_leading_char, strip_trailing, strs, substring, text_lines, trim, trim_start, trim_start_str, trim_str};

pub mod repository;

pub use self::repository::GrammarRepository;

verus! {

/// A stored grammar document.
#[derive(Debug, Clone, PartialEq, Eq)]
pub struct GrammarDoc {
    pub id: i64,
    pub title: String,
    pub category: Option<String>,
    pub level: Option<String>,
    pub content: String,
    pub examples: Vec<String>,
    pub group_id: Option<i64>,
    pub created_at: String,
}

/// A stored grammar document in a listing: the number of its exercises in
/// place of its content.
#[derive(Debug, Clone, PartialEq, Eq)]
pub struct GrammarDocSummary {
    pub id: i64,
    pub title: String,
    pub category: Option<String>,
    pub level: Option<String>,
    pub exercise_count: usize,
    pub group_id: Option<i64>,
    pub created_at: String,
}

/// A named group of grammar documents.
#[derive(Debug, Clone, PartialEq, Eq)]
pub struct GrammarGroup {
    pub id: i64,
    pub name: String,
    pub description: Option<String>,
    pub sort_order: i64,
    pub created_at: String,
}

/// A group in a listing, with the number of documents in it.
#[derive(Debug, Clone, PartialEq, Eq)]
pub struct GrammarGroupSummary {
    pub id: i64,
    pub name: String,
    pub description: Option<String>,
    pub sort_order: i64,
    pub doc_count: usize,
    pub created_at: String,
}

/// What storing a document did: its identifier, and whether it was new.
#[derive(Debug, Clone, PartialEq, Eq)]
pub struct GrammarDocUpsertResult {
    pub id: i64,
    pub inserted: bool,
}

/// A stored exercise: its kind and its data as JSON.
#[derive(Debug, PartialEq, Eq)]
pub struct GrammarExercise {
    pub id: i64,
    pub doc_id: i64,
    pub order_index: i32,
    pub exercise_type: String,
    pub data: JsonValue,
}

/// A stored document with its exercises.
#[derive(Debug, PartialEq, Eq)]
pub struct GrammarDocDetail {
    pub doc: GrammarDoc,
    pub exercises: Vec<GrammarExercise>,
}

/// A grammar document as imported.
#[derive(Debug, PartialEq, Eq)]
pub struct GrammarDocInput {
    pub title: String,
    pub category: Option<String>,
    pub level: Option<String>,
    pub content: String,
    pub examples: Vec<String>,
    pub exercises: Vec<JsonValue>,
}

/// The mathematical content of an imported document.
pub struct GrammarInputView {
    pub title: Seq<char>,
    pub category: Option<Seq<char>>,
    pub level: Option<Seq<char>>,
    pub content: Seq<char>,
    pub examples: Seq<Seq<char>>,
    pub exercises: Seq<Json>,
}

pub open spec fn jsons_view(v: Seq<JsonValue>) -> Seq<Json> {
    v.map_values(|x: JsonValue| json_view(x))
}

impl View for GrammarDocInput {
    type V = GrammarInputView;

    open spec fn view(&self) -> GrammarInputView {
        GrammarInputView {
            title: self.title@,
            category: opt_str(self.category),
            level: opt_str(self.level),
            content: self.content@,
            examples: strs(self.examples@),
            exercises: jsons_view(self.exercises@),
        }
    }
}

pub open spec fn inputs_view(v: Seq<GrammarDocInput>) -> Seq<GrammarInputView> {
    v.map_values(|d: GrammarDocInput| d@)
}

// ----- the JSON format -----

/// A document: `title` required; `category`, `level`, `content`,
/// `examples` and `exercises` optional, the last any JSON values.
pub open spec fn decode_grammar_doc(j: Json) -> Option<GrammarInputView> {
    if !is_struct_like(j, 6) {
        None
    } else {
        match (
            field(j, "title"@, 0),
            as_opt_str(field(j, "category"@, 1)),
            as_opt_str(field(j, "level"@, 2)),
            match field(j, "content"@, 3) {
                None => Some(Seq::<char>::empty()),
                Some(c) => as_str(c),
            },
            as_strs_or_empty(field(j, "examples"@, 4)),
            match field(j, "exercises"@, 5) {
                None => Some(Seq::<Json>::empty()),
                Some(Json::Array(items)) => Some(items),
                Some(_) => None,
            },
        ) {
            (Some(t), Some(category), Some(level), Some(content), Some(examples), Some(exercises)) => match as_str(t) {
                Some(title) => Some(GrammarInputView { title, category, level, content, examples, exercises }),
                None => None,
            },
            _ => None,
        }
    }
}

/// Every item decoded as a document.
pub open spec fn decode_grammar_items(items: Seq<Json>) -> Option<Seq<GrammarInputView>> {
    decode_all(items, |x: Json| decode_grammar_doc(x))
}

/// The message for JSON that is not an array where one is expected.
pub open spec fn not_a_sequence_message() -> Seq<char> {
    "invalid type: expected a sequence"@
}

/// What reading grammar JSON from `text` gives: an array of documents, or a
/// JSON error.
pub open spec fn grammar_json_result(text: Seq<char>, r: Result<Vec<GrammarDocInput>, ParseError>) -> bool {
    match parsed_json(text) {
        Err(m) => r matches Err(ParseError::Json(x)) && x@ == m,
        Ok(doc) => grammar_doc_result(doc, r),
    }
}

/// What reading grammar documents from a JSON document gives: an array of
/// documents, or a JSON error.
pub open spec fn grammar_doc_result(doc: Json, r: Result<Vec<GrammarDocInput>, ParseError>) -> bool {
    match doc {
        Json::Array(items) => match decode_grammar_items(items) {
            None => r matches Err(ParseError::Json(_)),
            Some(ds) => r matches Ok(v) && inputs_view(v@) == ds,
        },
        _ => r matches Err(ParseError::Json(x)) && x@ == not_a_sequence_message(),
    }
}

// ----- the Markdown format -----

/// The fields the front matter sets.
pub struct FrontMatter {
    pub title: Seq<char>,
    pub category: Option<Seq<char>>,
    pub level: Option<Seq<char>>,
}

/// A front-matter value: trimmed, then without surrounding double quotes.
pub open spec fn fm_value(v: Seq<char>) -> Seq<char> {
    strip_trailing(strip_leading(trim(v), '"'), '"')
}

/// The fields set by front-matter lines, read in order: `title:`,
/// `category:` and `level:` lines set their field, a later line winning.
pub open spec fn scan_frontmatter(ls: Seq<Seq<char>>) -> FrontMatter
    decreases ls.len(),
{
    if ls.len() == 0 {
        FrontMatter { title: Seq::<char>::empty(), category: None, level: None }
    } else {
        let f = scan_frontmatter(ls.drop_last());
        let l = ls.last();
        if starts_with(l, "title:"@) {
            FrontMatter { title: fm_value(l.skip(6)), ..f }
        } else if starts_with(l, "category:"@) {
            FrontMatter { category: Some(fm_value(l.skip(9))), ..f }
        } else if starts_with(l, "level:"@) {
            FrontMatter { level: Some(fm_value(l.skip(6))), ..f }
        } else {
            f
        }
    }
}

/// The front matter and the body of a Markdown file. A file whose text
/// starts, after whitespace, with `---` has front matter: after the leading
/// dashes and newlines, up to the first `\n---`; the body is what follows
/// that newline, without the closing dashes and the newlines after them.
/// Any other file is all body.
pub open spec fn split_frontmatter(input: Seq<char>) -> Result<(Seq<char>, Seq<char>), Seq<char>> {
    let ts = trim_start(input);
    if starts_with(ts, "---"@) {
        let after_open = strip_leading(strip_leading(ts, '-'), '\n');
        match find_text(after_open, "\n---"@) {
            None => Err("frontmatter closing '---' not found"@),
            Some(close) => Ok(
                (after_open.take(close), strip_leading(strip_leading(after_open.skip(close + 1), '-'), '\n')),
            ),
        }
    } else {
        Ok((Seq::<char>::empty(), input))
    }
}

/// The marker that opens the exercises block.
pub open spec fn exercises_open() -> Seq<char> {
    "<!-- EXERCISES"@
}

/// What reading a Markdown grammar file gives. The front matter must set a
/// title. An exercises block `<!-- EXERCISES ... -->` in the body holds a
/// JSON array of exercises and is cut out of the content: the content is
/// the trimmed text before it and the trimmed text after it, joined by a
/// newline, trimmed. Without a block the content is the trimmed body.
pub open spec fn grammar_md_result(input: Seq<char>, r: Result<GrammarDocInput, ParseError>) -> bool {
    match split_frontmatter(input) {
        Err(m) => r matches Err(ParseError::InvalidData(x)) && x@ == m,
        Ok((fm, body)) => {
            let f = scan_frontmatter(text_lines(fm));
            if f.title.len() == 0 {
                r matches Err(ParseError::InvalidData(x)) && x@ == "missing 'title:' in frontmatter"@
            } else {
                match find_text(body, exercises_open()) {
                    None => r matches Ok(d) && d@ == GrammarInputView {
                        title: f.title,
                        category: f.category,
                        level: f.level,
                        content: trim(body),
                        examples: Seq::<Seq<char>>::empty(),
                        exercises: Seq::<Json>::empty(),
                    },
                    Some(start) => {
                        let inner = body.skip(start + 14);
                        match find_text(inner, "-->"@) {
                            None => r matches Err(ParseError::InvalidData(x)) && x@
                                == "unclosed <!-- EXERCISES --> block"@,
                            Some(end) => match parsed_json(trim(inner.take(end))) {
                                Ok(Json::Array(items)) => r matches Ok(d) && d@ == GrammarInputView {
                                    title: f.title,
                                    category: f.category,
                                    level: f.level,
                                    content: trim(trim(body.take(start)) + seq!['\n'] + trim(inner.skip(end + 3))),
                                    examples: Seq::<Seq<char>>::empty(),
                                    exercises: items,
                                },
                                Ok(_) => r matches Err(ParseError::Json(x)) && x@ == not_a_sequence_message(),
                                Err(m) => r matches Err(ParseError::Json(x)) && x@ == m,
                            },
                        }
                    },
                }
            }
        },
    }
}

// ----- reading the formats -----

fn copy_number(n: &JsonNumber) -> (r: JsonNumber)
    ensures
        crate::json::number_view(r) == crate::json::number_view(*n),
{
    match n {
        JsonNumber::PosInt(u) => JsonNumber::PosInt(*u),
        JsonNumber::NegInt(i) => JsonNumber::NegInt(*i),
        JsonNumber::Float(f) => JsonNumber::Float(f.clone()),
    }
}

/// A copy of a JSON document.
pub fn copy_json(v: &JsonValue) -> (r: JsonValue)
    ensures
        r@ == v@,
    decreases v,
{
    match v {
        JsonValue::Null => JsonValue::Null,
        JsonValue::Bool(b) => JsonValue::Bool(*b),
        JsonValue::Number(n) => JsonValue::Number(copy_number(n)),
        JsonValue::Str(s) => JsonValue::Str(s.clone()),
        JsonValue::Array(items) => {
            let mut out: Vec<JsonValue> = Vec::new();
            let mut i: usize = 0;
            while i < items.len()
                invariant
                    *v == JsonValue::Array(*items),
                    i <= items.len(),
                    out.len() == i,
                    forall|j: int| 0 <= j < i ==> #[trigger] out@[j]@ == items@[j]@,
                decreases items.len() - i,
            {
                proof {
                    assert(decreases_to!(*v => (*v)->Array_0));
                    assert(decreases_to!(*items => items[i as int]));
                }
                out.push(copy_json(&items[i]));
                i += 1;
            }
            proof {
                lemma_items_view(items@, items@.len());
                lemma_items_view(out@, out@.len());
                assert forall|j: int| 0 <= j < out.len() implies #[trigger] items_view(out@, out@.len())[j] == items_view(items@, items@.len())[j] by {
                    assert(out@[j]@ == items@[j]@);
                }
                assert(items_view(out@, out@.len()) =~= items_view(items@, items@.len()));
            }
            JsonValue::Array(out)
        },
        JsonValue::Object(ms) => {
            let mut out: Vec<JsonMember> = Vec::new();
            let mut i: usize = 0;
            while i < ms.len()
                invariant
                    *v == JsonValue::Object(*ms),
                    i <= ms.len(),
                    out.len() == i,
                    forall|j: int| #![trigger out@[j]] 0 <= j < i ==> out@[j].key@ == ms@[j].key@ && out@[j].value@ == ms@[j].value@,
                decreases ms.len() - i,
            {
                proof {
                    assert(decreases_to!(*v => (*v)->Object_0));
                    assert(decreases_to!(*ms => ms[i as int]));
                    assert(decreases_to!(ms[i as int] => ms[i as int].value));
                }
                let value = copy_json(&ms[i].value);
                let key = ms[i].key.clone();
                let ghost before = out@;
                out.push(JsonMember { key, value });
                assert(out@[i as int].key@ == ms@[i as int].key@);
                assert(forall|j: int| 0 <= j < i ==> out@[j] == before[j]);
                i += 1;
            }
            proof {
                lemma_members_view(ms@, ms@.len());
                lemma_members_view(out@, out@.len());
                assert forall|j: int| 0 <= j < out.len() implies #[trigger] members_view(out@, out@.len())[j] == members_view(ms@, ms@.len())[j] by {
                    assert(out@[j].key@ == ms@[j].key@ && out@[j].value@ == ms@[j].value@);
                }
                assert(members_view(out@, out@.len()) =~= members_view(ms@, ms@.len()));
            }
            JsonValue::Object(out)
        },
    }
}

fn decode_grammar_doc_json(v: &JsonValue) -> (r: Result<GrammarDocInput, String>)
    ensures
        r is Ok <==> decode_grammar_doc(v@) is Some,
        r matches Ok(d) ==> decode_grammar_doc(v@) == Some(d@),
{
    if !struct_like(v, 6) {
        return Err("invalid type: expected struct RawGrammarDoc".to_owned());
    }
    let t = match get_field(v, "title", 0) {
        Some(t) => t,
        None => return Err("missing field `title`".to_owned()),
    };
    let category = match read_opt_str(get_field(v, "category", 1)) {
        Some(c) => c,
        None => return Err("invalid type for field `category`: expected a string or null".to_owned()),
    };
    let level = match read_opt_str(get_field(v, "level", 2)) {
        Some(l) => l,
        None => return Err("invalid type for field `level`: expected a string or null".to_owned()),
    };
    let content = match get_field(v, "content", 3) {
        None => String::new(),
        Some(c) => match read_str(c) {
            Some(s) => s,
            None => return Err("invalid type for field `content`: expected a string".to_owned()),
        },
    };
    let examples = match read_strs_or_empty(get_field(v, "examples", 4)) {
        Some(e) => e,
        None => return Err("invalid type for field `examples`: expected a sequence of strings".to_owned()),
    };
    let exercises: Vec<JsonValue> = match get_field(v, "exercises", 5) {
        None => Vec::new(),
        Some(JsonValue::Array(items)) => {
            let mut out: Vec<JsonValue> = Vec::new();
            let mut i: usize = 0;
            while i < items.len()
                invariant
                    i <= items.len(),
                    out.len() == i,
                    forall|j: int| 0 <= j < i ==> #[trigger] out@[j]@ == items@[j]@,
                decreases items.len() - i,
            {
                out.push(copy_json(&items[i]));
                i += 1;
            }
            proof {
                lemma_items_view(items@, items@.len());
                assert forall|j: int| 0 <= j < out.len() implies #[trigger] jsons_view(out@)[j] == items_view(items@, items@.len())[j] by {
                    assert(out@[j]@ == items@[j]@);
                }
                assert(jsons_view(out@) =~= items_view(items@, items@.len()));
            }
            out
        },
        Some(_) => return Err("invalid type for field `exercises`: expected a sequence".to_owned()),
    };
    assert(jsons_view(Seq::<JsonValue>::empty()) =~= Seq::<Json>::empty());
    let title = match read_str(t) {
        Some(s) => s,
        None => return Err("invalid type for field `title`: expected a string".to_owned()),
    };
    Ok(GrammarDocInput { title, category, level, content, examples, exercises })
}

proof fn lemma_grammar_items(items: Seq<Json>, n: int)
    requires
        0 <= n < items.len(),
    ensures
        decode_grammar_items(items.take(n + 1)) == match (decode_grammar_items(items.take(n)), decode_grammar_doc(items[n])) {
            (Some(ds), Some(d)) => Some(ds.push(d)),
            _ => None::<Seq<GrammarInputView>>,
        },
        decode_grammar_items(items.take(n + 1)) is None ==> decode_grammar_items(items) is None,
{
    assert(items.take(n + 1).drop_last() =~= items.take(n));
    if decode_grammar_items(items.take(n + 1)) is None {
        lemma_decode_all_prefix(items, |x: Json| decode_grammar_doc(x), n + 1);
    }
}

/// Reads a JSON array of grammar documents (see `grammar_json_result`).
pub fn parse_grammar_json(input: &str) -> (r: Result<Vec<GrammarDocInput>, ParseError>)
    ensures
        grammar_json_result(input@, r),
{
    let doc = match parse_json_text(input) {
        Ok(d) => d,
        Err(e) => return Err(ParseError::Json(e)),
    };
    decode_grammar_docs(&doc)
}

/// Reads grammar documents from a JSON document (see
/// `grammar_doc_result`); the rest of `parse_grammar_json`.
pub fn decode_grammar_docs(doc: &JsonValue) -> (r: Result<Vec<GrammarDocInput>, ParseError>)
    ensures
        grammar_doc_result(doc@, r),
{
    match doc {
        JsonValue::Array(items) => {
            let ghost iv = items_view(items@, items@.len());
            proof {
                lemma_items_view(items@, items@.len());
            }
            let mut out: Vec<GrammarDocInput> = Vec::new();
            let mut i: usize = 0;
            assert(iv.take(0) =~= Seq::<Json>::empty());
            assert(inputs_view(out@) =~= Seq::<GrammarInputView>::empty());
            while i < items.len()
                invariant
                    i <= items.len(),
                    doc@ == Json::Array(iv),
                    iv.len() == items.len(),
                    forall|j: int| 0 <= j < items.len() ==> #[trigger] iv[j] == items@[j]@,
                    decode_grammar_items(iv.take(i as int)) == Some(inputs_view(out@)),
                decreases items.len() - i,
            {
                proof {
                    lemma_grammar_items(iv, i as int);
                }
                match decode_grammar_doc_json(&items[i]) {
                    Ok(d) => {
                        let ghost before = inputs_view(out@);
                        let ghost dv = d@;
                        out.push(d);
                        assert(inputs_view(out@) =~= before.push(dv));
                    },
                    Err(e) => {
                        return Err(ParseError::Json(e));
                    },
                }
                i += 1;
            }
            assert(iv.take(i as int) =~= iv);
            Ok(out)
        },
        _ => Err(ParseError::Json("invalid type: expected a sequence".to_owned())),
    }
}

/// The fields set by the lines of `fm` (see `scan_frontmatter`).
fn read_frontmatter(fm: &str) -> (r: (String, Option<String>, Option<String>))
    ensures
        r.0@ == scan_frontmatter(text_lines(fm@)).title,
        opt_str(r.1) == scan_frontmatter(text_lines(fm@)).category,
        opt_str(r.2) == scan_frontmatter(text_lines(fm@)).level,
{
    let lines = lines_of(fm);
    let ghost ls = strs(lines@);
    let mut title = String::new();
    let mut category: Option<String> = None;
    let mut level: Option<String> = None;
    let mut i: usize = 0;
    assert(ls.take(0) =~= Seq::<Seq<char>>::empty());
    while i < lines.len()
        invariant
            i <= lines.len(),
            ls == strs(lines@),
            title@ == scan_frontmatter(ls.take(i as int)).title,
            opt_str(category) == scan_frontmatter(ls.take(i as int)).category,
            opt_str(level) == scan_frontmatter(ls.take(i as int)).level,
        decreases lines.len() - i,
    {
        assert(ls.take(i + 1).drop_last() =~= ls.take(i as int));
        assert(ls.take(i + 1).last() == lines@[i as int]@);
        let line = lines[i].as_str();
        proof {
            reveal_strlit("title:");
            reveal_strlit("category:");
            reveal_strlit("level:");
        }
        if starts_with_text(line, "title:") {
            let rest = substring(line, 6, char_count(line));
            assert(rest@ =~= line@.skip(6));
            let t = trim_str(rest.as_str());
            title = strip_both_char(t.as_str(), '"');
        } else if starts_with_text(line, "category:") {
            let rest = substring(line, 9, char_count(line));
            assert(rest@ =~= line@.skip(9));
            let t = trim_str(rest.as_str());
            category = Some(strip_both_char(t.as_str(), '"'));
        } else if starts_with_text(line, "level:") {
            let rest = substring(line, 6, char_count(line));
            assert(rest@ =~= line@.skip(6));
            let t = trim_str(rest.as_str());
            level = Some(strip_both_char(t.as_str(), '"'));
        }
        i += 1;
    }
    assert(ls.take(i as int) =~= ls);
    (title, category, level)
}

/// The exercises of an exercises block, read from its JSON document: the
/// items of an array, in order; anything else is refused.
pub fn exercises_from(doc: JsonValue) -> (r: Result<Vec<JsonValue>, ParseError>)
    ensures
        match doc@ {
            Json::Array(items) => r matches Ok(v) && jsons_view(v@) == items,
            _ => r matches Err(ParseError::Json(x)) && x@ == not_a_sequence_message(),
        },
{
    match doc {
        JsonValue::Array(items) => {
            proof {
                lemma_items_view(items@, items@.len());
                assert(jsons_view(items@) =~= items_view(items@, items@.len()));
            }
            Ok(items)
        },
        _ => Err(ParseError::Json("invalid type: expected a sequence".to_owned())),
    }
}

/// Reads one Markdown grammar file (see `grammar_md_result`).
pub fn parse_grammar_md(input: &str) -> (r: Result<GrammarDocInput, ParseError>)
    ensures
        grammar_md_result(input@, r),
{
    let ts = trim_start_str(input);
    let (frontmatter, body) = if starts_with_text(ts.as_str(), "---") {
        let a = strip_leading_char(ts.as_str(), '-');
        let after_open = strip_leading_char(a.as_str(), '\n');
        let close = match find_text_exec(after_open.as_str(), "\n---") {
            Some(c) => c,
            None => return Err(ParseError::InvalidData("frontmatter closing '---' not found".to_owned())),
        };
        proof {
            crate::text::lemma_find_text_bound(after_open@, "\n---"@);
            reveal_strlit("\n---");
        }
        let n = char_count(after_open.as_str());
        let fm = substring(after_open.as_str(), 0, close);
        let rest = substring(after_open.as_str(), close + 1, n);
        let b = strip_leading_char(rest.as_str(), '-');
        let body = strip_leading_char(b.as_str(), '\n');
        assert(fm@ =~= after_open@.take(close as int));
        assert(rest@ =~= after_open@.skip(close + 1));
        (fm, body)
    } else {
        (String::new(), input.to_owned())
    };
    assert(split_frontmatter(input@) == Ok::<(Seq<char>, Seq<char>), Seq<char>>((frontmatter@, body@)));
    let (title, category, level) = read_frontmatter(frontmatter.as_str());
    if title.as_str().is_empty() {
        return Err(ParseError::InvalidData("missing 'title:' in frontmatter".to_owned()));
    }
    let n = char_count(body.as_str());
    match find_text_exec(body.as_str(), "<!-- EXERCISES") {
        None => {
            let content = trim_str(body.as_str());
            let d = GrammarDocInput { title, category, level, content, examples: Vec::new(), exercises: Vec::new() };
            assert(strs(Seq::<String>::empty()) =~= Seq::<Seq<char>>::empty());
            assert(jsons_view(Seq::<JsonValue>::empty()) =~= Seq::<Json>::empty());
            Ok(d)
        },
        Some(start) => {
            proof {
                crate::text::lemma_find_text_bound(body@, "<!-- EXERCISES"@);
                reveal_strlit("<!-- EXERCISES");
            }
            let inner_start = start + 14;
            let inner = substring(body.as_str(), inner_start, n);
            assert(inner@ =~= body@.skip(inner_start as int));
            let inner_end = match find_text_exec(inner.as_str(), "-->") {
                Some(e) => e,
                None => return Err(ParseError::InvalidData("unclosed <!-- EXERCISES --> block".to_owned())),
            };
            proof {
                crate::text::lemma_find_text_bound(inner@, "-->"@);
                reveal_strlit("-->");
            }
            let m = char_count(inner.as_str());
            let json_raw = substring(inner.as_str(), 0, inner_end);
            assert(json_raw@ =~= inner@.take(inner_end as int));
            let json_str = trim_str(json_raw.as_str());
            let doc = match parse_json_text(json_str.as_str()) {
                Ok(d) => d,
                Err(e) => return Err(ParseError::Json(e)),
            };
            let exercises: Vec<JsonValue> = match exercises_from(doc) {
                Ok(items) => items,
                Err(e) => return Err(e),
            };
            let before_raw = substring(body.as_str(), 0, start);
            assert(before_raw@ =~= body@.take(start as int));
            let after_raw = substring(inner.as_str(), inner_end + 3, m);
            assert(after_raw@ =~= inner@.skip(inner_end + 3));
            let before = trim_str(before_raw.as_str());
            let after = trim_str(after_raw.as_str());
            let mut joined = before;
            joined.push('\n');
            joined.append(after.as_str());
            assert(joined@ =~= before@ + seq!['\n'] + after@);
            let content = trim_str(joined.as_str());
            let d = GrammarDocInput { title, category, level, content, examples: Vec::new(), exercises };
            assert(strs(Seq::<String>::empty()) =~= Seq::<Seq<char>>::empty());
            Ok(d)
        },
    }
}

} // verus!
