//! The vocabulary record model, its identity key and its validation rules.
use vstd::prelude::*;
use crate::text::{is_blank, lowercase, strs, to_lowercase, trim, trim_str};

verus! {

/// One meaning of a word, optionally tagged with a part of speech.
#[derive(Debug, Clone, PartialEq, Eq)]
pub struct Definition {
    pub pos: Option<String>,
    pub meaning: String,
}

/// Bookkeeping attached to a word.
#[derive(Debug, Clone, PartialEq, Eq, Default)]
pub struct Metadata {
    pub tags: Vec<String>,
    pub created_at: Option<String>,
    pub review_count: u32,
}

/// A vocabulary entry.
#[derive(Debug, Clone, PartialEq, Eq)]
pub struct WordRecord {
    pub word: String,
    pub phonetic: Option<String>,
    pub definitions: Vec<Definition>,
    pub examples: Vec<String>,
    pub synonyms: Vec<String>,
    pub antonyms: Vec<String>,
    pub family_words: Vec<String>,
    pub metadata: Metadata,
}

/// A named collection of words (top-level group, e.g. "1000 Common Words").
#[derive(Debug, Clone, PartialEq, Eq)]
pub struct Collection {
    pub id: i64,
    pub name: String,
    pub description: Option<String>,
    pub created_at: String,
}

/// A topic inside a collection (sub-group, e.g. "Food & Drink").
#[derive(Debug, Clone, PartialEq, Eq)]
pub struct Topic {
    pub id: i64,
    pub collection_id: i64,
    pub name: String,
    pub description: Option<String>,
}

/// Why a record is not acceptable.
#[derive(Debug, Clone, Copy, PartialEq, Eq, Structural)]
pub enum ValidationError {
    MissingWord,
    MissingDefinition,
    MissingMeaning,
}

/// The characters of an optional string.
pub open spec fn opt_str(o: Option<String>) -> Option<Seq<char>> {
    match o {
        Some(s) => Some(s@),
        None => None,
    }
}

/// The mathematical content of a `Definition`.
pub struct DefinitionView {
    pub pos: Option<Seq<char>>,
    pub meaning: Seq<char>,
}

/// The mathematical content of `Metadata`.
pub struct MetadataView {
    pub tags: Seq<Seq<char>>,
    pub created_at: Option<Seq<char>>,
    pub review_count: u32,
}

/// The mathematical content of a `WordRecord`.
pub struct WordView {
    pub word: Seq<char>,
    pub phonetic: Option<Seq<char>>,
    pub definitions: Seq<DefinitionView>,
    pub examples: Seq<Seq<char>>,
    pub synonyms: Seq<Seq<char>>,
    pub antonyms: Seq<Seq<char>>,
    pub family_words: Seq<Seq<char>>,
    pub metadata: MetadataView,
}

impl View for Definition {
    type V = DefinitionView;

    open spec fn view(&self) -> DefinitionView {
        DefinitionView { pos: opt_str(self.pos), meaning: self.meaning@ }
    }
}

impl View for Metadata {
    type V = MetadataView;

    open spec fn view(&self) -> MetadataView {
        MetadataView {
            tags: strs(self.tags@),
            created_at: opt_str(self.created_at),
            review_count: self.review_count,
        }
    }
}

/// The views of a sequence of definitions.
pub open spec fn defs_view(v: Seq<Definition>) -> Seq<DefinitionView> {
    v.map_values(|d: Definition| d@)
}

impl View for WordRecord {
    type V = WordView;

    open spec fn view(&self) -> WordView {
        WordView {
            word: self.word@,
            phonetic: opt_str(self.phonetic),
            definitions: defs_view(self.definitions@),
            examples: strs(self.examples@),
            synonyms: strs(self.synonyms@),
            antonyms: strs(self.antonyms@),
            family_words: strs(self.family_words@),
            metadata: self.metadata@,
        }
    }
}

/// The identity key of a word: trimmed and lowercased.
pub open spec fn key_of(word: Seq<char>) -> Seq<char> {
    lowercase(trim(word))
}

/// Whether every definition's meaning is blank after trimming.
pub open spec fn all_meanings_blank(defs: Seq<DefinitionView>) -> bool {
    forall|i: int| 0 <= i < defs.len() ==> #[trigger] trim(defs[i].meaning).len() == 0
}

/// The first rule that `w` breaks, if any: a blank word, then no definitions,
/// then definitions whose meanings are all blank.
pub open spec fn validation_of(w: WordView) -> Option<ValidationError> {
    if trim(w.word).len() == 0 {
        Some(ValidationError::MissingWord)
    } else if w.definitions.len() == 0 {
        Some(ValidationError::MissingDefinition)
    } else if all_meanings_blank(w.definitions) {
        Some(ValidationError::MissingMeaning)
    } else {
        None
    }
}

/// Whether `w` passes validation.
pub open spec fn is_valid(w: WordView) -> bool {
    validation_of(w) is None
}

/// The text of a validation error.
pub open spec fn validation_message(e: ValidationError) -> Seq<char> {
    match e {
        ValidationError::MissingWord => "missing required field: word"@,
        ValidationError::MissingDefinition => "missing required field: definitions"@,
        ValidationError::MissingMeaning => "missing required field: definitions[].meaning"@,
    }
}

/// The normalized identity key of a word: trimmed, then lowercased.
pub fn normalize_key(value: &str) -> (r: String)
    ensures
        r@ == key_of(value@),
{
    let t = trim_str(value);
    to_lowercase(t.as_str())
}

impl ValidationError {
    /// The human-readable text of this error.
    pub fn to_string(&self) -> (r: String)
        ensures
            r@ == validation_message(*self),
    {
        match self {
            ValidationError::MissingWord => "missing required field: word".to_owned(),
            ValidationError::MissingDefinition => "missing required field: definitions".to_owned(),
            ValidationError::MissingMeaning => "missing required field: definitions[].meaning".to_owned(),
        }
    }
}

/// A copy of an optional string.
pub fn copy_opt(o: &Option<String>) -> (r: Option<String>)
    ensures
        opt_str(r) == opt_str(*o),
{
    match o {
        Some(s) => Some(s.clone()),
        None => None,
    }
}

/// A copy of a vector of strings.
pub fn copy_strings(v: &Vec<String>) -> (r: Vec<String>)
    ensures
        strs(r@) == strs(v@),
{
    let mut r: Vec<String> = Vec::new();
    let mut i: usize = 0;
    while i < v.len()
        invariant
            i <= v.len(),
            r.len() == i,
            forall|j: int| 0 <= j < i ==> #[trigger] r@[j]@ == v@[j]@,
        decreases v.len() - i,
    {
        r.push(v[i].clone());
        i += 1;
    }
    assert(strs(r@) =~= strs(v@));
    r
}

impl Definition {
    /// A copy of this definition.
    pub fn copy(&self) -> (r: Definition)
        ensures
            r@ == self@,
    {
        Definition { pos: copy_opt(&self.pos), meaning: self.meaning.clone() }
    }
}

/// A copy of a vector of definitions.
pub fn copy_definitions(v: &Vec<Definition>) -> (r: Vec<Definition>)
    ensures
        defs_view(r@) == defs_view(v@),
{
    let mut r: Vec<Definition> = Vec::new();
    let mut i: usize = 0;
    while i < v.len()
        invariant
            i <= v.len(),
            r.len() == i,
            forall|j: int| 0 <= j < i ==> #[trigger] r@[j]@ == v@[j]@,
        decreases v.len() - i,
    {
        r.push(v[i].copy());
        i += 1;
    }
    assert(defs_view(r@) =~= defs_view(v@));
    r
}

impl Metadata {
    /// A copy of this metadata.
    pub fn copy(&self) -> (r: Metadata)
        ensures
            r@ == self@,
    {
        Metadata {
            tags: copy_strings(&self.tags),
            created_at: copy_opt(&self.created_at),
            review_count: self.review_count,
        }
    }
}

impl WordRecord {
    /// A copy of this record.
    pub fn copy(&self) -> (r: WordRecord)
        ensures
            r@ == self@,
    {
        WordRecord {
            word: self.word.clone(),
            phonetic: copy_opt(&self.phonetic),
            definitions: copy_definitions(&self.definitions),
            examples: copy_strings(&self.examples),
            synonyms: copy_strings(&self.synonyms),
            antonyms: copy_strings(&self.antonyms),
            family_words: copy_strings(&self.family_words),
            metadata: self.metadata.copy(),
        }
    }

    /// The identity key of this record: its word trimmed and lowercased.
    pub fn word_key(&self) -> (r: String)
        ensures
            r@ == key_of(self.word@),
    {
        normalize_key(self.word.as_str())
    }

    /// Checks the required fields: a non-blank word, at least one definition,
    /// and at least one definition whose meaning is not blank.
    pub fn validate(&self) -> (r: Result<(), ValidationError>)
        ensures
            r is Ok <==> is_valid(self@),
            r matches Err(e) ==> validation_of(self@) == Some(e),
    {
        if is_blank(self.word.as_str()) {
            return Err(ValidationError::MissingWord);
        }
        if self.definitions.len() == 0 {
            return Err(ValidationError::MissingDefinition);
        }
        let mut i: usize = 0;
        while i < self.definitions.len()
            invariant
                i <= self.definitions.len(),
                trim(self.word@).len() != 0,
                self.definitions.len() > 0,
                forall|j: int|
                    0 <= j < i ==> #[trigger] trim(self.definitions@[j].meaning@).len() == 0,
            decreases self.definitions.len() - i,
        {
            if !is_blank(self.definitions[i].meaning.as_str()) {
                assert(defs_view(self.definitions@)[i as int] == self.definitions@[i as int]@);
                assert(trim(self@.definitions[i as int].meaning).len() != 0);
                assert(!all_meanings_blank(self@.definitions));
                return Ok(());
            }
            i += 1;
        }
        assert forall|j: int| 0 <= j < self@.definitions.len() implies #[trigger] trim(
            self@.definitions[j].meaning,
        ).len() == 0 by {
            assert(defs_view(self.definitions@)[j] == self.definitions@[j]@);
        }
        Err(ValidationError::MissingMeaning)
    }
}

/// The mathematical content of a `Collection`.
pub struct CollectionView {
    pub id: i64,
    pub name: Seq<char>,
    pub description: Option<Seq<char>>,
    pub created_at: Seq<char>,
}

/// The mathematical content of a `Topic`.
pub struct TopicView {
    pub id: i64,
    pub collection_id: i64,
    pub name: Seq<char>,
    pub description: Option<Seq<char>>,
}

impl View for Collection {
    type V = CollectionView;

    open spec fn view(&self) -> CollectionView {
        CollectionView {
            id: self.id,
            name: self.name@,
            description: opt_str(self.description),
            created_at: self.created_at@,
        }
    }
}

impl View for Topic {
    type V = TopicView;

    open spec fn view(&self) -> TopicView {
        TopicView {
            id: self.id,
            collection_id: self.collection_id,
            name: self.name@,
            description: opt_str(self.description),
        }
    }
}

impl Collection {
    /// A copy of this collection.
    pub fn copy(&self) -> (r: Collection)
        ensures
            r@ == self@,
    {
        Collection {
            id: self.id,
            name: self.name.clone(),
            description: copy_opt(&self.description),
            created_at: self.created_at.clone(),
        }
    }
}

impl Topic {
    /// A copy of this topic.
    pub fn copy(&self) -> (r: Topic)
        ensures
            r@ == self@,
    {
        Topic {
            id: self.id,
            collection_id: self.collection_id,
            name: self.name.clone(),
            description: copy_opt(&self.description),
        }
    }
}

} // verus!
