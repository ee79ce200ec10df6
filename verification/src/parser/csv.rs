//! The CSV vocabulary format: a header row naming the columns, then one row
//! per word. Rows are parsed one by one; a bad row is reported and skipped.
use vstd::prelude::*;
use crate::model::{
    defs_view, validation_message, validation_of, Definition, DefinitionView, Metadata,
    MetadataView, WordRecord, WordView,
};
use crate::parser::json::words_view;
use crate::parser::ParseError;
use crate::text::{chars_of, concat, decimal, is_blank, lemma_position_prefix, lowercase, nonempty, position_of, push_decimal, split_on, split_on_char, strs, to_lowercase, trim, trim_str};

verus! {

/// One row that could not be turned into a record.
#[derive(Debug, Clone, PartialEq, Eq)]
pub struct CsvRowError {
    /// The row number: the header is row 1, so data rows start at 2.
    pub row: usize,
    /// What was wrong.
    pub message: String,
}

/// The records read from a CSV text and the rows that failed.
#[derive(Debug, Clone, PartialEq, Eq, Default)]
pub struct CsvImportReport {
    pub records: Vec<WordRecord>,
    pub errors: Vec<CsvRowError>,
}

/// The header and rows that the CSV reader gives, every cell trimmed; a row
/// the reader rejects is its error message.
pub struct CsvTable {
    pub header: Vec<String>,
    pub rows: Vec<Result<Vec<String>, String>>,
}

/// The mathematical content of a `CsvTable`.
pub struct CsvTableView {
    pub header: Seq<Seq<char>>,
    pub rows: Seq<Result<Seq<Seq<char>>, Seq<char>>>,
}

pub open spec fn row_view(r: Result<Vec<String>, String>) -> Result<Seq<Seq<char>>, Seq<char>> {
    match r {
        Ok(cells) => Ok(strs(cells@)),
        Err(m) => Err(m@),
    }
}

impl View for CsvTable {
    type V = CsvTableView;

    open spec fn view(&self) -> CsvTableView {
        CsvTableView { header: strs(self.header@), rows: self.rows@.map_values(|r| row_view(r)) }
    }
}

/// `csv_table(text)` names what the `csv` crate's reader (built with
/// `trim(Trim::All)`, first row as header) gives for `text`: the header and
/// every record in order, or the error it reports for the header.
pub uninterp spec fn csv_table(text: Seq<char>) -> Result<CsvTableView, Seq<char>>;

/// Runs the `csv` reader over the text; each record becomes its cells or its
/// error message. Besides the name, the contract states only that the rows fit
/// in a `Vec`, which std never lets grow past `isize::MAX` bytes.
#[verifier::external_body]
fn read_csv_table(input: &str) -> (r: Result<CsvTable, String>)
    ensures
        r matches Ok(t) ==> (csv_table(input@) matches Ok(v) && v == t@ && t.rows.len()
            <= isize::MAX),
        r matches Err(m) ==> (csv_table(input@) matches Err(x) && x == m@),
{
    let mut rdr = ::csv::ReaderBuilder::new().trim(::csv::Trim::All).from_reader(input.as_bytes());
    let header: Vec<String> = match rdr.headers() {
        Ok(h) => h.iter().map(|c| c.to_string()).collect(),
        Err(e) => return Err(e.to_string()),
    };
    let rows = rdr.records().map(|row| match row {
        Ok(rec) => Ok(rec.iter().map(|c| c.to_string()).collect()),
        Err(e) => Err(e.to_string()),
    }).collect();
    Ok(CsvTable { header, rows })
}

// ----- the rules of the format -----

/// Header names are compared trimmed and lowercased.
pub open spec fn normalized_headers(h: Seq<Seq<char>>) -> Seq<Seq<char>> {
    h.map_values(|x: Seq<char>| lowercase(trim(x)))
}

/// A cell, trimmed; a missing cell reads as empty.
pub open spec fn cell(cells: Seq<Seq<char>>, idx: int) -> Seq<char> {
    if 0 <= idx < cells.len() {
        trim(cells[idx])
    } else {
        Seq::<char>::empty()
    }
}

/// An optional column's cell: absent column or blank cell is `None`.
pub open spec fn opt_cell(cells: Seq<Seq<char>>, idx: Option<int>) -> Option<Seq<char>> {
    match idx {
        Some(i) => if cell(cells, i).len() == 0 {
            None
        } else {
            Some(cell(cells, i))
        },
        None => None,
    }
}

/// The non-empty trimmed pieces of `s` between occurrences of `d`.
pub open spec fn split_clean(s: Seq<char>, d: char) -> Seq<Seq<char>> {
    nonempty(split_on(s, d).map_values(|x: Seq<char>| trim(x)))
}

/// A multi-value column: its pieces between `|`, or nothing if the column
/// is absent.
pub open spec fn multi_cell(cells: Seq<Seq<char>>, idx: Option<int>) -> Seq<Seq<char>> {
    match idx {
        Some(i) => match opt_cell(cells, Some(i)) {
            Some(c) => split_clean(c, '|'),
            None => split_clean(Seq::<char>::empty(), '|'),
        },
        None => Seq::<Seq<char>>::empty(),
    }
}

/// The value of a decimal digit string.
pub open spec fn digits_value(s: Seq<char>) -> int
    decreases s.len(),
{
    if s.len() == 0 {
        0
    } else {
        digits_value(s.drop_last()) * 10 + (s.last() as int - '0' as int)
    }
}

/// Whether every character is an ASCII digit.
pub open spec fn all_digits(s: Seq<char>) -> bool {
    forall|i: int| 0 <= i < s.len() ==> '0' <= #[trigger] s[i] && s[i] <= '9'
}

/// What `str::parse::<u32>` accepts: an optional `+`, then one or more ASCII
/// digits, whose value fits a `u32`.
pub open spec fn parse_u32_spec(s: Seq<char>) -> Option<u32> {
    let d = if s.len() > 0 && s[0] == '+' {
        s.drop_first()
    } else {
        s
    };
    if d.len() > 0 && all_digits(d) && digits_value(d) <= u32::MAX {
        Some(digits_value(d) as u32)
    } else {
        None
    }
}

/// The column positions, found by name in the normalized header.
pub struct Columns {
    pub word: int,
    pub meaning_vi: int,
    pub phonetic: Option<int>,
    pub pos: Option<int>,
    pub examples: Option<int>,
    pub synonyms: Option<int>,
    pub antonyms: Option<int>,
    pub family_words: Option<int>,
    pub tags: Option<int>,
    pub created_at: Option<int>,
    pub review_count: Option<int>,
}

pub open spec fn columns_of(hs: Seq<Seq<char>>) -> Columns {
    Columns {
        word: position_of(hs, "word"@)->0,
        meaning_vi: position_of(hs, "meaning_vi"@)->0,
        phonetic: position_of(hs, "phonetic"@),
        pos: position_of(hs, "pos"@),
        examples: position_of(hs, "examples"@),
        synonyms: position_of(hs, "synonyms"@),
        antonyms: position_of(hs, "antonyms"@),
        family_words: position_of(hs, "family_words"@),
        tags: position_of(hs, "tags"@),
        created_at: position_of(hs, "created_at"@),
        review_count: position_of(hs, "review_count"@),
    }
}

/// The message for a review count that does not parse.
pub open spec fn review_count_message(row: int, v: Seq<char>) -> Seq<char> {
    "invalid review_count at row "@ + decimal(row as nat) + ": expected unsigned integer, got '"@
        + v + "'"@
}

/// The record a row gives, or the message saying why it gives none.
pub open spec fn parse_row_spec(cells: Seq<Seq<char>>, row: int, c: Columns) -> Result<
    WordView,
    Seq<char>,
> {
    let word = cell(cells, c.word);
    let meaning_vi = cell(cells, c.meaning_vi);
    if word.len() == 0 {
        Err("missing required field: word"@)
    } else if meaning_vi.len() == 0 {
        Err("missing required field: meaning_vi"@)
    } else {
        let pos = opt_cell(cells, c.pos);
        let meanings = split_clean(meaning_vi, ';');
        let definitions = meanings.map_values(
            |m: Seq<char>| DefinitionView { pos: pos, meaning: m },
        );
        if definitions.len() == 0 {
            Err("missing required field: definitions[].meaning"@)
        } else {
            let rc = opt_cell(cells, c.review_count);
            if rc is Some && parse_u32_spec(rc->0) is None {
                Err(review_count_message(row, rc->0))
            } else {
                let w = WordView {
                    word,
                    phonetic: opt_cell(cells, c.phonetic),
                    definitions,
                    examples: multi_cell(cells, c.examples),
                    synonyms: multi_cell(cells, c.synonyms),
                    antonyms: multi_cell(cells, c.antonyms),
                    family_words: multi_cell(cells, c.family_words),
                    metadata: MetadataView {
                        tags: multi_cell(cells, c.tags),
                        created_at: opt_cell(cells, c.created_at),
                        review_count: match rc {
                            Some(v) => parse_u32_spec(v)->0,
                            None => 0,
                        },
                    },
                };
                match validation_of(w) {
                    Some(e) => Err(validation_message(e)),
                    None => Ok(w),
                }
            }
        }
    }
}

/// Whether every cell of a row is blank.
pub open spec fn blank_row(cells: Seq<Seq<char>>) -> bool {
    forall|i: int| 0 <= i < cells.len() ==> #[trigger] trim(cells[i]).len() == 0
}

/// The records and the `(row, message)` errors that the rows give, in order.
/// Row `k` (from zero) is numbered `k + 2`; blank rows are skipped.
pub open spec fn rows_outcome(rows: Seq<Result<Seq<Seq<char>>, Seq<char>>>, c: Columns) -> (
    Seq<WordView>,
    Seq<(int, Seq<char>)>,
)
    decreases rows.len(),
{
    if rows.len() == 0 {
        (Seq::<WordView>::empty(), Seq::<(int, Seq<char>)>::empty())
    } else {
        let (ws, es) = rows_outcome(rows.drop_last(), c);
        let row: int = rows.len() as int + 1;
        match rows.last() {
            Err(m) => (ws, es.push((row, m))),
            Ok(cells) => if blank_row(cells) {
                (ws, es)
            } else {
                match parse_row_spec(cells, row, c) {
                    Ok(w) => (ws.push(w), es),
                    Err(m) => (ws, es.push((row, m))),
                }
            },
        }
    }
}

/// The views of row errors.
pub open spec fn row_errors_view(v: Seq<CsvRowError>) -> Seq<(int, Seq<char>)> {
    v.map_values(|e: CsvRowError| (e.row as int, e.message@))
}

/// What parsing a CSV text gives.
pub open spec fn csv_result(text: Seq<char>, r: Result<CsvImportReport, ParseError>) -> bool {
    match csv_table(text) {
        Err(m) => r matches Err(ParseError::Csv(x)) && x@ == m,
        Ok(t) => csv_table_result(t, r),
    }
}

/// What reading vocabulary from a table that the CSV reader gave yields:
/// the header must name `word` and `meaning_vi`; then the records and the
/// row errors that `rows_outcome` gives.
pub open spec fn csv_table_result(t: CsvTableView, r: Result<CsvImportReport, ParseError>) -> bool {
    let hs = normalized_headers(t.header);
    if position_of(hs, "word"@) is None {
        r matches Err(ParseError::InvalidData(x)) && x@ == "missing required CSV header: word"@
    } else if position_of(hs, "meaning_vi"@) is None {
        r matches Err(ParseError::InvalidData(x)) && x@
            == "missing required CSV header: meaning_vi"@
    } else {
        let (ws, es) = rows_outcome(t.rows, columns_of(hs));
        r matches Ok(rep) && words_view(rep.records@) == ws && row_errors_view(
            rep.errors@,
        ) == es
    }
}

// ----- reading the format -----

/// The column positions of a header.
struct HeaderIndexes {
    word: usize,
    meaning_vi: usize,
    phonetic: Option<usize>,
    pos: Option<usize>,
    examples: Option<usize>,
    synonyms: Option<usize>,
    antonyms: Option<usize>,
    family_words: Option<usize>,
    tags: Option<usize>,
    created_at: Option<usize>,
    review_count: Option<usize>,
}

pub open spec fn opt_int(o: Option<usize>) -> Option<int> {
    match o {
        Some(i) => Some(i as int),
        None => None,
    }
}

impl HeaderIndexes {
    spec fn columns(&self) -> Columns {
        Columns {
            word: self.word as int,
            meaning_vi: self.meaning_vi as int,
            phonetic: opt_int(self.phonetic),
            pos: opt_int(self.pos),
            examples: opt_int(self.examples),
            synonyms: opt_int(self.synonyms),
            antonyms: opt_int(self.antonyms),
            family_words: opt_int(self.family_words),
            tags: opt_int(self.tags),
            created_at: opt_int(self.created_at),
            review_count: opt_int(self.review_count),
        }
    }

    /// Finds the column positions; `word` and `meaning_vi` are required.
    fn new(headers: &Vec<String>) -> (r: Result<HeaderIndexes, ParseError>)
        ensures
            ({
                let hs = normalized_headers(strs(headers@));
                if position_of(hs, "word"@) is None {
                    r matches Err(ParseError::InvalidData(x)) && x@
                        == "missing required CSV header: word"@
                } else if position_of(hs, "meaning_vi"@) is None {
                    r matches Err(ParseError::InvalidData(x)) && x@
                        == "missing required CSV header: meaning_vi"@
                } else {
                    r matches Ok(ix) && ix.columns() == columns_of(hs)
                }
            }),
    {
        let mut normalized: Vec<String> = Vec::new();
        let mut i: usize = 0;
        while i < headers.len()
            invariant
                i <= headers.len(),
                normalized.len() == i,
                forall|j: int|
                    0 <= j < i ==> #[trigger] normalized@[j]@ == lowercase(trim(headers@[j]@)),
            decreases headers.len() - i,
        {
            normalized.push(normalize_header(headers[i].as_str()));
            i += 1;
        }
        assert(strs(normalized@) =~= normalized_headers(strs(headers@)));
        proof {
            reveal_strlit("missing required CSV header: ");
            reveal_strlit("word");
            reveal_strlit("meaning_vi");
            reveal_strlit("missing required CSV header: word");
            reveal_strlit("missing required CSV header: meaning_vi");
        }
        let word = match find_required(&normalized, "word") {
            Ok(i) => i,
            Err(e) => {
                assert(e->InvalidData_0@ =~= "missing required CSV header: word"@);
                return Err(e);
            },
        };
        let meaning_vi = match find_required(&normalized, "meaning_vi") {
            Ok(i) => i,
            Err(e) => {
                assert(e->InvalidData_0@ =~= "missing required CSV header: meaning_vi"@);
                return Err(e);
            },
        };
        Ok(HeaderIndexes {
            word,
            meaning_vi,
            phonetic: find_optional(&normalized, "phonetic"),
            pos: find_optional(&normalized, "pos"),
            examples: find_optional(&normalized, "examples"),
            synonyms: find_optional(&normalized, "synonyms"),
            antonyms: find_optional(&normalized, "antonyms"),
            family_words: find_optional(&normalized, "family_words"),
            tags: find_optional(&normalized, "tags"),
            created_at: find_optional(&normalized, "created_at"),
            review_count: find_optional(&normalized, "review_count"),
        })
    }
}

/// The position of a required column, or the error naming it.
fn find_required(headers: &Vec<String>, key: &str) -> (r: Result<usize, ParseError>)
    ensures
        r matches Ok(i) ==> position_of(strs(headers@), key@) == Some(i as int),
        r matches Err(e) ==> position_of(strs(headers@), key@) is None && e
            == ParseError::InvalidData(e->InvalidData_0) && e->InvalidData_0@
            == "missing required CSV header: "@ + key@,
        r is Err ==> position_of(strs(headers@), key@) is None,
{
    match find_optional(headers, key) {
        Some(i) => Ok(i),
        None => Err(ParseError::InvalidData(concat("missing required CSV header: ", key))),
    }
}

/// The first position of a column by name.
fn find_optional(headers: &Vec<String>, key: &str) -> (r: Option<usize>)
    ensures
        opt_int(r) == position_of(strs(headers@), key@),
{
    let k = key.to_owned();
    let ghost hs = strs(headers@);
    let mut i: usize = 0;
    assert(hs.take(0) =~= Seq::<Seq<char>>::empty());
    while i < headers.len()
        invariant
            i <= headers.len(),
            k@ == key@,
            hs == strs(headers@),
            position_of(hs.take(i as int), key@) is None,
        decreases headers.len() - i,
    {
        assert(hs.take(i + 1).drop_last() =~= hs.take(i as int));
        if headers[i] == k {
            assert(position_of(hs.take(i + 1), key@) == Some(i as int));
            proof {
                lemma_position_prefix(hs, i as int + 1, key@);
            }
            return Some(i);
        }
        i += 1;
    }
    assert(hs.take(i as int) =~= hs);
    None
}

/// A header name, trimmed and lowercased.
fn normalize_header(value: &str) -> (r: String)
    ensures
        r@ == lowercase(trim(value@)),
{
    let t = trim_str(value);
    to_lowercase(t.as_str())
}

/// A required cell, trimmed, or the message naming the missing field.
fn get_required_cell(row: &Vec<String>, idx: usize, field_name: &str) -> (r: Result<String, String>)
    ensures
        r matches Ok(v) ==> v@ == cell(strs(row@), idx as int) && v@.len() > 0,
        r matches Err(m) ==> cell(strs(row@), idx as int).len() == 0 && m@
            == "missing required field: "@ + field_name@,
{
    let value = if idx < row.len() {
        trim_str(row[idx].as_str())
    } else {
        String::new()
    };
    if value.as_str().is_empty() {
        return Err(concat("missing required field: ", field_name));
    }
    Ok(value)
}

/// An optional cell, trimmed; a missing or blank cell is `None`.
fn get_optional_cell(row: &Vec<String>, idx: usize) -> (r: Option<String>)
    ensures
        opt_str_eq(r, opt_cell(strs(row@), Some(idx as int))),
{
    let value = if idx < row.len() {
        trim_str(row[idx].as_str())
    } else {
        String::new()
    };
    if value.as_str().is_empty() {
        None
    } else {
        Some(value)
    }
}

pub open spec fn opt_str_eq(r: Option<String>, v: Option<Seq<char>>) -> bool {
    crate::model::opt_str(r) == v
}

/// The non-empty trimmed pieces of `value` between occurrences of `delimiter`.
pub fn split_with_delimiter(value: &str, delimiter: char) -> (r: Vec<String>)
    ensures
        strs(r@) == split_clean(value@, delimiter),
{
    let pieces = split_on_char(value, delimiter);
    let ghost trimmed = strs(pieces@).map_values(|x: Seq<char>| trim(x));
    let mut out: Vec<String> = Vec::new();
    let mut i: usize = 0;
    assert(trimmed.take(0) =~= Seq::<Seq<char>>::empty());
    assert(strs(out@) =~= Seq::<Seq<char>>::empty());
    while i < pieces.len()
        invariant
            i <= pieces.len(),
            trimmed == strs(pieces@).map_values(|x: Seq<char>| trim(x)),
            strs(out@) == nonempty(trimmed.take(i as int)),
        decreases pieces.len() - i,
    {
        let t = trim_str(pieces[i].as_str());
        assert(trimmed.take(i + 1).drop_last() =~= trimmed.take(i as int));
        assert(trimmed.take(i + 1).last() == t@);
        if !t.as_str().is_empty() {
            let ghost before = strs(out@);
            out.push(t);
            assert(strs(out@) =~= before.push(t@));
        }
        i += 1;
    }
    assert(trimmed.take(i as int) =~= trimmed);
    out
}

/// `str::parse::<u32>`: an optional `+`, then ASCII digits whose value fits.
fn parse_u32(s: &str) -> (r: Option<u32>)
    ensures
        r == parse_u32_spec(s@),
{
    let v = chars_of(s);
    let mut i: usize = 0;
    if v.len() > 0 && v[0] == '+' {
        i = 1;
    }
    let ghost d = if s@.len() > 0 && s@[0] == '+' {
        s@.drop_first()
    } else {
        s@
    };
    assert(d =~= v@.skip(i as int));
    if i == v.len() {
        return None;
    }
    let mut value: u64 = 0;
    let mut k = i;
    assert(v@.subrange(i as int, k as int) =~= Seq::<char>::empty());
    while k < v.len()
        invariant
            i <= k <= v.len(),
            v@ == s@,
            d == (if s@.len() > 0 && s@[0] == '+' {
                s@.drop_first()
            } else {
                s@
            }),
            d == v@.skip(i as int),
            all_digits(v@.subrange(i as int, k as int)),
            value as int == digits_value(v@.subrange(i as int, k as int)),
            value <= u32::MAX,
        decreases v.len() - k,
    {
        let c = v[k];
        assert(v@.subrange(i as int, k + 1).drop_last() =~= v@.subrange(i as int, k as int));
        if c < '0' || c > '9' {
            assert(!all_digits(d)) by {
                assert(d[k - i] == c);
            }
            return None;
        }
        let dv = (c as u32 - '0' as u32) as u64;
        assert(dv == c as int - '0' as int) by {
            assert('0' <= c <= '9');
        }
        value = value * 10 + dv;
        k += 1;
        if value > 0xFFFF_FFFFu64 {
            assert(v@.subrange(i as int, k as int) =~= d.take(k - i));
            proof {
                lemma_digits_grow(d, k - i);
            }
            return None;
        }
    }
    assert(v@.subrange(i as int, k as int) =~= d);
    Some(value as u32)
}

proof fn lemma_digits_grow(d: Seq<char>, n: int)
    requires
        0 < n <= d.len(),
        all_digits(d.take(n)),
        digits_value(d.take(n)) > u32::MAX,
    ensures
        !(all_digits(d) && digits_value(d) <= u32::MAX),
    decreases d.len() - n,
{
    if n < d.len() && all_digits(d) {
        assert(d.take(n + 1).drop_last() =~= d.take(n));
        assert(all_digits(d.take(n + 1)));
        lemma_digits_grow(d, n + 1);
    } else if all_digits(d) {
        assert(d.take(n) =~= d);
    }
}

/// Whether every cell of a row is blank.
fn is_blank_row(row: &Vec<String>) -> (r: bool)
    ensures
        r == blank_row(strs(row@)),
{
    let mut i: usize = 0;
    while i < row.len()
        invariant
            i <= row.len(),
            forall|j: int| 0 <= j < i ==> #[trigger] trim(strs(row@)[j]).len() == 0,
        decreases row.len() - i,
    {
        if !is_blank(row[i].as_str()) {
            assert(trim(strs(row@)[i as int]).len() != 0);
            return false;
        }
        i += 1;
    }
    true
}

/// The message for a review count that does not parse.
fn review_count_error(row_number: usize, value: &str) -> (r: String)
    ensures
        r@ == review_count_message(row_number as int, value@),
{
    let mut m = "invalid review_count at row ".to_owned();
    push_decimal(&mut m, row_number);
    m.append(": expected unsigned integer, got '");
    m.append(value);
    m.append("'");
    m
}

/// The pieces of a multi-value column (see `multi_cell`).
fn get_multi_cell(row: &Vec<String>, idx: Option<usize>) -> (r: Vec<String>)
    ensures
        strs(r@) == multi_cell(strs(row@), opt_int(idx)),
{
    match idx {
        Some(i) => {
            let v = match get_optional_cell(row, i) {
                Some(s) => s,
                None => String::new(),
            };
            split_with_delimiter(v.as_str(), '|')
        },
        None => {
            let r = Vec::new();
            assert(strs(r@) =~= Seq::<Seq<char>>::empty());
            r
        },
    }
}

/// Turns one row into a record, or says why it cannot.
fn parse_row(row: &Vec<String>, row_number: usize, indexes: &HeaderIndexes) -> (r: Result<
    WordRecord,
    String,
>)
    ensures
        match parse_row_spec(strs(row@), row_number as int, indexes.columns()) {
            Ok(w) => r matches Ok(rec) && rec@ == w,
            Err(m) => r matches Err(x) && x@ == m,
        },
{
    proof {
        reveal_strlit("missing required field: ");
        reveal_strlit("word");
        reveal_strlit("meaning_vi");
        reveal_strlit("missing required field: word");
        reveal_strlit("missing required field: meaning_vi");
    }
    let ghost cells = strs(row@);
    let ghost c = indexes.columns();
    let word = match get_required_cell(row, indexes.word, "word") {
        Ok(v) => v,
        Err(m) => {
            assert(m@ =~= "missing required field: word"@);
            return Err(m);
        },
    };
    let meaning_vi = match get_required_cell(row, indexes.meaning_vi, "meaning_vi") {
        Ok(v) => v,
        Err(m) => {
            assert(m@ =~= "missing required field: meaning_vi"@);
            return Err(m);
        },
    };
    let pos = match indexes.pos {
        Some(i) => get_optional_cell(row, i),
        None => None,
    };
    assert(crate::model::opt_str(pos) == opt_cell(cells, c.pos));
    let meanings = split_with_delimiter(meaning_vi.as_str(), ';');
    let ghost dv = strs(meanings@).map_values(
        |m: Seq<char>| DefinitionView { pos: opt_cell(cells, c.pos), meaning: m },
    );
    let mut definitions: Vec<Definition> = Vec::new();
    let mut i: usize = 0;
    while i < meanings.len()
        invariant
            i <= meanings.len(),
            crate::model::opt_str(pos) == opt_cell(cells, c.pos),
            dv == strs(meanings@).map_values(
                |m: Seq<char>| DefinitionView { pos: opt_cell(cells, c.pos), meaning: m },
            ),
            defs_view(definitions@) == dv.take(i as int),
        decreases meanings.len() - i,
    {
        let d = Definition { pos: crate::model::copy_opt(&pos), meaning: meanings[i].clone() };
        let ghost before = defs_view(definitions@);
        definitions.push(d);
        assert(defs_view(definitions@) =~= before.push(d@));
        assert(dv.take(i + 1) =~= dv.take(i as int).push(dv[i as int]));
        i += 1;
    }
    assert(dv.take(i as int) =~= dv);
    if definitions.len() == 0 {
        return Err("missing required field: definitions[].meaning".to_owned());
    }
    let phonetic = match indexes.phonetic {
        Some(i) => get_optional_cell(row, i),
        None => None,
    };
    let examples = get_multi_cell(row, indexes.examples);
    let synonyms = get_multi_cell(row, indexes.synonyms);
    let antonyms = get_multi_cell(row, indexes.antonyms);
    let family_words = get_multi_cell(row, indexes.family_words);
    let tags = get_multi_cell(row, indexes.tags);
    let created_at = match indexes.created_at {
        Some(i) => get_optional_cell(row, i),
        None => None,
    };
    let rc = match indexes.review_count {
        Some(i) => get_optional_cell(row, i),
        None => None,
    };
    let review_count: u32 = match rc {
        Some(value) => match parse_u32(value.as_str()) {
            Some(n) => n,
            None => {
                return Err(review_count_error(row_number, value.as_str()));
            },
        },
        None => 0,
    };
    let record = WordRecord {
        word,
        phonetic,
        definitions,
        examples,
        synonyms,
        antonyms,
        family_words,
        metadata: Metadata { tags, created_at, review_count },
    };
    match record.validate() {
        Ok(()) => Ok(record),
        Err(e) => Err(e.to_string()),
    }
}

/// Parses CSV vocabulary: a header row naming the columns (`word` and
/// `meaning_vi` required; `phonetic`, `pos`, `examples`, `synonyms`,
/// `antonyms`, `family_words`, `tags`, `created_at` and `review_count`
/// optional; names compared trimmed and lowercased), then one word per row.
/// Meanings are split on `;`, the multi-value columns on `|`. Blank rows are skipped; a row that fails is reported with
/// its number and the rest are still read.
pub fn parse_csv(input: &str) -> (r: Result<CsvImportReport, ParseError>)
    ensures
        csv_result(input@, r),
{
    let table = match read_csv_table(input) {
        Ok(t) => t,
        Err(m) => return Err(ParseError::Csv(m)),
    };
    parse_csv_table(&table)
}

/// Reads vocabulary from the header and rows that the CSV reader gave (see
/// `csv_table_result`); the rest of `parse_csv`.
pub fn parse_csv_table(table: &CsvTable) -> (r: Result<CsvImportReport, ParseError>)
    requires
        table.rows.len() <= isize::MAX,
    ensures
        csv_table_result(table@, r),
{
    let indexes = match HeaderIndexes::new(&table.header) {
        Ok(ix) => ix,
        Err(e) => return Err(e),
    };
    let ghost c = columns_of(normalized_headers(strs(table.header@)));
    let ghost rows = table@.rows;
    let mut records: Vec<WordRecord> = Vec::new();
    let mut errors: Vec<CsvRowError> = Vec::new();
    let mut k: usize = 0;
    assert(rows.take(0) =~= Seq::<Result<Seq<Seq<char>>, Seq<char>>>::empty());
    assert(words_view(records@) =~= Seq::<WordView>::empty());
    assert(row_errors_view(errors@) =~= Seq::<(int, Seq<char>)>::empty());
    while k < table.rows.len()
        invariant
            k <= table.rows.len(),
            table.rows.len() <= isize::MAX,
            rows == table@.rows,
            indexes.columns() == c,
            rows_outcome(rows.take(k as int), c) == (words_view(records@), row_errors_view(errors@)),
        decreases table.rows.len() - k,
    {
        let row_number = k + 2;
        assert(rows.take(k + 1).drop_last() =~= rows.take(k as int));
        assert(rows.take(k + 1).last() == row_view(table.rows@[k as int]));
        let ghost ws = words_view(records@);
        let ghost es = row_errors_view(errors@);
        match &table.rows[k] {
            Err(m) => {
                let e = CsvRowError { row: row_number, message: m.clone() };
                errors.push(e);
                assert(row_errors_view(errors@) =~= es.push((row_number as int, m@)));
            },
            Ok(cells) => {
                if !is_blank_row(cells) {
                    match parse_row(cells, row_number, &indexes) {
                        Ok(rec) => {
                            let ghost rv = rec@;
                            records.push(rec);
                            assert(words_view(records@) =~= ws.push(rv));
                        },
                        Err(message) => {
                            let ghost mv = message@;
                            errors.push(CsvRowError { row: row_number, message });
                            assert(row_errors_view(errors@) =~= es.push((row_number as int, mv)));
                        },
                    }
                }
            },
        }
        k += 1;
    }
    assert(rows.take(k as int) =~= rows);
    Ok(CsvImportReport { records, errors })
}

} // verus!
