//! Stored bilingual articles: at most one per book and title, listed by book
//! and then title.
use vstd::prelude::*;
use super::{
    paragraphs_view, required_text, segments_view, structures_view, trimmed_opt, normalize_optional,
    normalize_required, ArticleView, BilingualArticle, BilingualArticleInput, BilingualArticleSummary,
    BilingualSegment, BilingualStructure, SegmentView, StructureView,
};
use crate::clock::clock_range_message;
use crate::db::DbError;
use crate::model::{copy_opt, opt_str};
use crate::order::lex_lt;
use crate::text::trim;
use crate::repository::sorting::{precedes, sort_positions, SortKey};
use crate::repository::{clock_text, ids_exhausted_message, now_text, positions_below, Database};

verus! {

/// What an upsert did: the article's identifier, and whether the article
/// was new.
#[derive(Debug, Clone, PartialEq, Eq)]
pub struct BilingualArticleUpsertResult {
    pub id: i64,
    pub inserted: bool,
}

/// The mathematical content of a stored article.
pub struct StoredArticleView {
    pub id: i64,
    pub title: Seq<char>,
    pub book: Seq<char>,
    pub level: Option<Seq<char>>,
    pub paragraphs: Seq<Seq<SegmentView>>,
    pub structures: Seq<StructureView>,
    pub created_at: Seq<char>,
}

impl View for BilingualArticle {
    type V = StoredArticleView;

    open spec fn view(&self) -> StoredArticleView {
        StoredArticleView {
            id: self.id,
            title: self.title@,
            book: self.book@,
            level: opt_str(self.level),
            paragraphs: paragraphs_view(self.paragraphs@),
            structures: structures_view(self.structures@),
            created_at: self.created_at@,
        }
    }
}

/// The mathematical content of an article in a listing.
pub struct ArticleSummaryView {
    pub id: i64,
    pub title: Seq<char>,
    pub book: Seq<char>,
    pub level: Option<Seq<char>>,
    pub paragraph_count: nat,
    pub structure_count: nat,
    pub created_at: Seq<char>,
}

impl View for BilingualArticleSummary {
    type V = ArticleSummaryView;

    open spec fn view(&self) -> ArticleSummaryView {
        ArticleSummaryView {
            id: self.id,
            title: self.title@,
            book: self.book@,
            level: opt_str(self.level),
            paragraph_count: self.paragraph_count as nat,
            structure_count: self.structure_count as nat,
            created_at: self.created_at@,
        }
    }
}

/// How a stored article shows in a listing.
pub open spec fn summary_of(a: StoredArticleView) -> ArticleSummaryView {
    ArticleSummaryView {
        id: a.id,
        title: a.title,
        book: a.book,
        level: a.level,
        paragraph_count: a.paragraphs.len(),
        structure_count: a.structures.len(),
        created_at: a.created_at,
    }
}

pub open spec fn summaries_view(v: Seq<BilingualArticleSummary>) -> Seq<ArticleSummaryView> {
    v.map_values(|s: BilingualArticleSummary| s@)
}

/// The mathematical content of the article table: the articles in storage
/// order, and the last identifier handed out. Identifiers are never reused.
pub struct ArticleTableView {
    pub articles: Seq<StoredArticleView>,
    pub last_id: i64,
}

/// What the table keeps true: identifiers are positive, at most the last
/// one handed out, and rise in storage order; no two articles share both
/// book and title.
pub open spec fn article_table_wf(t: ArticleTableView) -> bool {
    &&& 0 <= t.last_id
    &&& forall|i: int| 0 <= i < t.articles.len() ==> 0 < #[trigger] t.articles[i].id <= t.last_id
    &&& forall|i: int, j: int|
        0 <= i < j < t.articles.len() ==> #[trigger] t.articles[i].id < #[trigger] t.articles[j].id
    &&& forall|i: int, j: int|
        0 <= i < j < t.articles.len() ==> !(#[trigger] t.articles[i].book == #[trigger] t.articles[j].book
            && t.articles[i].title == t.articles[j].title)
}

/// Whether an article of book `book` titled `title` is stored.
pub open spec fn has_article(arts: Seq<StoredArticleView>, book: Seq<char>, title: Seq<char>) -> bool {
    exists|i: int| 0 <= i < arts.len() && #[trigger] arts[i].book == book && arts[i].title == title
}

/// The position of the article of book `book` titled `title`.
pub open spec fn article_at(arts: Seq<StoredArticleView>, book: Seq<char>, title: Seq<char>) -> int {
    choose|i: int| 0 <= i < arts.len() && #[trigger] arts[i].book == book && arts[i].title == title
}

/// What an upsert at time `now` does. The title, then the book, must hold
/// more than whitespace; both are trimmed, and a blank level is dropped. An
/// article with the same book and title gets the new level, paragraphs and
/// structures and keeps its identifier and creation time; otherwise the
/// article is added with the next identifier, created at `now`.
pub open spec fn upsert_article_outcome(
    t: ArticleTableView,
    input: ArticleView,
    now: Seq<char>,
    t2: ArticleTableView,
    r: Result<BilingualArticleUpsertResult, DbError>,
) -> bool {
    match (required_text(input.title, "title"@), required_text(input.book, "book"@)) {
        (Err(m), _) => r matches Err(DbError::Validation(x)) && x@ == m && t2 == t,
        (Ok(_), Err(m)) => r matches Err(DbError::Validation(x)) && x@ == m && t2 == t,
        (Ok(title), Ok(book)) => {
            let level = trimmed_opt(input.level);
            if has_article(t.articles, book, title) {
                let i = article_at(t.articles, book, title);
                let a = t.articles[i];
                &&& r == Ok::<BilingualArticleUpsertResult, DbError>(
                    BilingualArticleUpsertResult { id: a.id, inserted: false },
                )
                &&& t2 == ArticleTableView {
                    articles: t.articles.update(
                        i,
                        StoredArticleView {
                            level,
                            paragraphs: input.paragraphs,
                            structures: input.structures,
                            ..a
                        },
                    ),
                    ..t
                }
            } else if t.last_id == i64::MAX {
                r matches Err(DbError::Storage(m)) && m@ == ids_exhausted_message() && t2 == t
            } else {
                let a = StoredArticleView {
                    id: (t.last_id + 1) as i64,
                    title,
                    book,
                    level,
                    paragraphs: input.paragraphs,
                    structures: input.structures,
                    created_at: now,
                };
                &&& r == Ok::<BilingualArticleUpsertResult, DbError>(
                    BilingualArticleUpsertResult { id: a.id, inserted: true },
                )
                &&& t2 == ArticleTableView { articles: t.articles.push(a), last_id: a.id }
            }
        },
    }
}

/// Whether the title and the book of `input` both hold more than whitespace.
pub open spec fn article_key_valid(input: ArticleView) -> bool {
    required_text(input.title, "title"@) is Ok && required_text(input.book, "book"@) is Ok
}

/// `ps` lists every stored position once, ordered by book and then title.
pub open spec fn listed_by_book_and_title(arts: Seq<StoredArticleView>, ps: Seq<usize>) -> bool {
    &&& ps.no_duplicates()
    &&& ps.to_set() == positions_below(arts.len())
    &&& forall|k: int| 0 <= k < ps.len() ==> #[trigger] ps[k] < arts.len()
    &&& forall|a: int, b: int|
        0 <= a < b < ps.len() ==> book_title_lt(
            arts[#[trigger] ps[a] as int],
            arts[#[trigger] ps[b] as int],
        )
}

/// Article `a` comes before article `b`: a smaller book, or the same book
/// and a smaller title.
pub open spec fn book_title_lt(a: StoredArticleView, b: StoredArticleView) -> bool {
    lex_lt(a.book, b.book) || (!lex_lt(b.book, a.book) && lex_lt(a.title, b.title))
}


/// After an article is stored, the stored article with the identifier
/// reported holds the trimmed title and book, the trimmed level (none when
/// blank), and the given paragraphs and structures.
pub proof fn law_upsert_article_read_back(
    t: ArticleTableView,
    input: ArticleView,
    now: Seq<char>,
    t2: ArticleTableView,
    r: Result<BilingualArticleUpsertResult, DbError>,
)
    requires
        article_table_wf(t),
        upsert_article_outcome(t, input, now, t2, r),
        r is Ok,
    ensures
        exists|i: int| 0 <= i < t2.articles.len() && #[trigger] t2.articles[i].id == r->Ok_0.id,
        forall|i: int|
            0 <= i < t2.articles.len() && #[trigger] t2.articles[i].id == r->Ok_0.id ==> {
                let a = t2.articles[i];
                &&& a.title == trim(input.title)
                &&& a.book == trim(input.book)
                &&& a.level == trimmed_opt(input.level)
                &&& a.paragraphs == input.paragraphs
                &&& a.structures == input.structures
            },
{
    let title = trim(input.title);
    let book = trim(input.book);
    if has_article(t.articles, book, title) {
        let i = article_at(t.articles, book, title);
        assert(t2.articles[i].id == r->Ok_0.id);
        assert forall|j: int| 0 <= j < t2.articles.len() && #[trigger] t2.articles[j].id == r->Ok_0.id implies j == i by {
            if j < i {
                assert(t.articles[j].id < t.articles[i].id);
            } else if j > i {
                assert(t.articles[i].id < t.articles[j].id);
            }
        }
    } else {
        let n = t.articles.len() as int;
        assert(t2.articles[n].id == r->Ok_0.id);
        assert forall|j: int| 0 <= j < t2.articles.len() && #[trigger] t2.articles[j].id == r->Ok_0.id implies j == n by {
            if j < n {
                assert(t.articles[j].id <= t.last_id);
            }
        }
    }
}

/// Storing an article a second time under the same book and title keeps one
/// article: the second time reports the same identifier, as an update, adds
/// no article, and the article then holds the second level (trimmed, blank
/// as none), paragraphs and structures.
pub proof fn law_upsert_article_no_duplicate(
    t: ArticleTableView,
    a: ArticleView,
    b: ArticleView,
    now1: Seq<char>,
    now2: Seq<char>,
    t2: ArticleTableView,
    t3: ArticleTableView,
    r1: Result<BilingualArticleUpsertResult, DbError>,
    r2: Result<BilingualArticleUpsertResult, DbError>,
)
    requires
        article_table_wf(t),
        article_table_wf(t2),
        upsert_article_outcome(t, a, now1, t2, r1),
        upsert_article_outcome(t2, b, now2, t3, r2),
        r1 is Ok,
        trim(a.title) == trim(b.title),
        trim(a.book) == trim(b.book),
    ensures
        r2 is Ok,
        r2->Ok_0.id == r1->Ok_0.id,
        !r2->Ok_0.inserted,
        t3.articles.len() == t2.articles.len(),
        forall|i: int|
            0 <= i < t3.articles.len() && #[trigger] t3.articles[i].id == r1->Ok_0.id ==> {
                let x = t3.articles[i];
                &&& x.level == trimmed_opt(b.level)
                &&& x.paragraphs == b.paragraphs
                &&& x.structures == b.structures
            },
{
    let title = trim(a.title);
    let book = trim(a.book);
    let p = if has_article(t.articles, book, title) {
        article_at(t.articles, book, title)
    } else {
        t.articles.len() as int
    };
    assert(t2.articles[p].book == book && t2.articles[p].title == title);
    assert(has_article(t2.articles, book, title));
    let k = article_at(t2.articles, book, title);
    if k != p {
        if k < p {
            assert(!(t2.articles[k].book == t2.articles[p].book && t2.articles[k].title == t2.articles[p].title));
        } else {
            assert(!(t2.articles[p].book == t2.articles[k].book && t2.articles[p].title == t2.articles[k].title));
        }
    }    law_upsert_article_read_back(t2, b, now2, t3, r2);
}

/// The stored articles of a repository.
pub struct BilingualRepository {
    articles: Vec<BilingualArticle>,
    last_id: i64,
}

impl View for BilingualRepository {
    type V = ArticleTableView;

    closed spec fn view(&self) -> ArticleTableView {
        ArticleTableView {
            articles: self.articles@.map_values(|a: BilingualArticle| a@),
            last_id: self.last_id,
        }
    }
}

fn copy_segments(v: &Vec<BilingualSegment>) -> (r: Vec<BilingualSegment>)
    ensures
        segments_view(r@) == segments_view(v@),
{
    let mut out: Vec<BilingualSegment> = Vec::new();
    let mut i: usize = 0;
    while i < v.len()
        invariant
            i <= v.len(),
            out.len() == i,
            forall|j: int| 0 <= j < i ==> #[trigger] out@[j]@ == v@[j]@,
        decreases v.len() - i,
    {
        out.push(BilingualSegment { en: v[i].en.clone(), vi: v[i].vi.clone() });
        i += 1;
    }
    assert(segments_view(out@) =~= segments_view(v@));
    out
}

fn copy_paragraphs(v: &Vec<Vec<BilingualSegment>>) -> (r: Vec<Vec<BilingualSegment>>)
    ensures
        paragraphs_view(r@) == paragraphs_view(v@),
{
    let mut out: Vec<Vec<BilingualSegment>> = Vec::new();
    let mut i: usize = 0;
    while i < v.len()
        invariant
            i <= v.len(),
            out.len() == i,
            forall|j: int| 0 <= j < i ==> segments_view(#[trigger] out@[j]@) == segments_view(v@[j]@),
        decreases v.len() - i,
    {
        out.push(copy_segments(&v[i]));
        i += 1;
    }
    assert(paragraphs_view(out@) =~= paragraphs_view(v@));
    out
}

fn copy_structures(v: &Vec<BilingualStructure>) -> (r: Vec<BilingualStructure>)
    ensures
        structures_view(r@) == structures_view(v@),
{
    let mut out: Vec<BilingualStructure> = Vec::new();
    let mut i: usize = 0;
    while i < v.len()
        invariant
            i <= v.len(),
            out.len() == i,
            forall|j: int| 0 <= j < i ==> #[trigger] out@[j]@ == v@[j]@,
        decreases v.len() - i,
    {
        out.push(
            BilingualStructure {
                pattern: v[i].pattern.clone(),
                example: v[i].example.clone(),
                note: copy_opt(&v[i].note),
            },
        );
        i += 1;
    }
    assert(structures_view(out@) =~= structures_view(v@));
    out
}

fn copy_article(a: &BilingualArticle) -> (r: BilingualArticle)
    ensures
        r@ == a@,
{
    BilingualArticle {
        id: a.id,
        title: a.title.clone(),
        book: a.book.clone(),
        level: copy_opt(&a.level),
        paragraphs: copy_paragraphs(&a.paragraphs),
        structures: copy_structures(&a.structures),
        created_at: a.created_at.clone(),
    }
}

impl BilingualRepository {
    /// The table's invariant.
    pub open spec fn wf(&self) -> bool {
        article_table_wf(self@)
    }

    /// A repository on the store `db`. Articles are kept by the repository
    /// itself, so a new one holds none.
    pub fn new(db: Database) -> (r: Self)
        ensures
            r.wf(),
            r@ == (ArticleTableView { articles: Seq::empty(), last_id: 0 }),
    {
        let r = BilingualRepository { articles: Vec::new(), last_id: 0 };
        assert(r@.articles =~= Seq::<StoredArticleView>::empty());
        r
    }

    /// The position of the article of book `book` titled `title`.
    fn find_article(&self, book: &str, title: &str) -> (r: Option<usize>)
        requires
            self.wf(),
        ensures
            match r {
                Some(i) => i < self@.articles.len() && has_article(self@.articles, book@, title@)
                    && article_at(self@.articles, book@, title@) == i,
                None => !has_article(self@.articles, book@, title@),
            },
    {
        let b = book.to_owned();
        let t = title.to_owned();
        let ghost arts = self@.articles;
        let mut i: usize = 0;
        while i < self.articles.len()
            invariant
                i <= self.articles.len(),
                b@ == book@,
                t@ == title@,
                arts == self@.articles,
                self.wf(),
                arts.len() == self.articles.len(),
                forall|j: int| 0 <= j < i ==> !(#[trigger] arts[j].book == book@ && arts[j].title == title@),
            decreases self.articles.len() - i,
        {
            assert(arts[i as int] == self.articles@[i as int]@);
            if self.articles[i].book == b && self.articles[i].title == t {
                proof {
                    assert(arts[i as int].book == book@ && arts[i as int].title == title@);
                    assert(has_article(arts, book@, title@));
                    let k = article_at(arts, book@, title@);
                    if k != i {
                        if k < i {
                            assert(arts[k].book == book@ && arts[k].title == title@);
                        } else {
                            assert(!(arts[i as int].book == arts[k].book && arts[i as int].title == arts[k].title));
                        }
                    }
                }
                return Some(i);
            }
            i += 1;
        }
        None
    }

    /// Stores `input` as of `now` (see `upsert_article_outcome`).
    pub fn upsert_article_at(&mut self, input: &BilingualArticleInput, now: &str) -> (r: Result<
        BilingualArticleUpsertResult,
        DbError,
    >)
        requires
            old(self).wf(),
        ensures
            final(self).wf(),
            upsert_article_outcome(old(self)@, input@, now@, final(self)@, r),
    {
        let title = match normalize_required(input.title.as_str(), "title") {
            Ok(t) => t,
            Err(e) => return Err(e),
        };
        let book = match normalize_required(input.book.as_str(), "book") {
            Ok(b) => b,
            Err(e) => return Err(e),
        };
        let level = normalize_optional(&input.level);
        match self.find_article(book.as_str(), title.as_str()) {
            Some(i) => {
                let ghost old_arts = self@.articles;
                let id = self.articles[i].id;
                let paragraphs = copy_paragraphs(&input.paragraphs);
                let structures = copy_structures(&input.structures);
                self.articles[i].level = level;
                self.articles[i].paragraphs = paragraphs;
                self.articles[i].structures = structures;
                proof {
                    let a = old_arts[i as int];
                    let new_a = StoredArticleView {
                        level: trimmed_opt(input@.level),
                        paragraphs: input@.paragraphs,
                        structures: input@.structures,
                        ..a
                    };
                    assert(self@.articles =~= old_arts.update(i as int, new_a));
                }
                Ok(BilingualArticleUpsertResult { id, inserted: false })
            },
            None => {
                if self.last_id == i64::MAX {
                    return Err(DbError::Storage("database or disk is full".to_owned()));
                }
                let ghost old_arts = self@.articles;
                let id = self.last_id + 1;
                let a = BilingualArticle {
                    id,
                    title,
                    book,
                    level,
                    paragraphs: copy_paragraphs(&input.paragraphs),
                    structures: copy_structures(&input.structures),
                    created_at: now.to_owned(),
                };
                self.articles.push(a);
                self.last_id = id;
                assert(self@.articles =~= old_arts.push(a@));
                Ok(BilingualArticleUpsertResult { id, inserted: true })
            },
        }
    }

    /// Stores `input` as of the current time (see `upsert_article_outcome`).
    /// A title or book that is blank is refused before the clock is read.
    pub fn upsert_article(&mut self, input: &BilingualArticleInput) -> (r: Result<
        BilingualArticleUpsertResult,
        DbError,
    >)
        requires
            old(self).wf(),
        ensures
            final(self).wf(),
            (exists|now: Seq<char>|
                (article_key_valid(input@) ==> clock_text(now)) && #[trigger] upsert_article_outcome(old(self)@, input@, now, final(self)@, r)) || (
            article_key_valid(input@) && final(self)@ == old(self)@ && (r matches Err(DbError::Storage(m))
                && m@ == clock_range_message())),
    {
        if let Err(e) = normalize_required(input.title.as_str(), "title") {
            assert(!article_key_valid(input@));
            assert((article_key_valid(input@) ==> clock_text(Seq::empty())) && upsert_article_outcome(old(self)@, input@, Seq::empty(), self@, Err(e)));
            return Err(e);
        }
        if let Err(e) = normalize_required(input.book.as_str(), "book") {
            assert(!article_key_valid(input@));
            assert((article_key_valid(input@) ==> clock_text(Seq::empty())) && upsert_article_outcome(old(self)@, input@, Seq::empty(), self@, Err(e)));
            return Err(e);
        }
        let now = match now_text() {
            Ok(t) => t,
            Err(e) => return Err(e),
        };
        let r = self.upsert_article_at(input, now.as_str());
        assert(clock_text(now@) && upsert_article_outcome(old(self)@, input@, now@, self@, r));
        r
    }

    /// The article `id`, if one is stored.
    pub fn get_article(&self, id: i64) -> (r: Result<Option<BilingualArticle>, DbError>)
        ensures
            r matches Ok(o) && match o {
                Some(a) => exists|i: int|
                    0 <= i < self@.articles.len() && #[trigger] self@.articles[i].id == id && a@
                        == self@.articles[i],
                None => forall|i: int| 0 <= i < self@.articles.len() ==> #[trigger] self@.articles[i].id != id,
            },
    {
        let mut i: usize = 0;
        while i < self.articles.len()
            invariant
                i <= self.articles.len(),
                forall|j: int| 0 <= j < i ==> #[trigger] self@.articles[j].id != id,
            decreases self.articles.len() - i,
        {
            assert(self@.articles[i as int] == self.articles@[i as int]@);
            if self.articles[i].id == id {
                assert(self@.articles[i as int].id == id);
                let a = copy_article(&self.articles[i]);
                return Ok(Some(a));
            }
            i += 1;
        }
        Ok(None)
    }

    /// Every stored article, ordered by book and then title, with the
    /// number of its paragraphs and structures in place of them.
    pub fn list_articles(&self) -> (r: Result<Vec<BilingualArticleSummary>, DbError>)
        requires
            self.wf(),
        ensures
            r matches Ok(v) && exists|ps: Seq<usize>|
                listed_by_book_and_title(self@.articles, ps) && summaries_view(v@) == ps.map_values(
                    |p: usize| summary_of(self@.articles[p as int]),
                ),
    {
        let ghost arts = self@.articles;
        let mut keys: Vec<SortKey> = Vec::new();
        let mut cands: Vec<usize> = Vec::new();
        let mut i: usize = 0;
        while i < self.articles.len()
            invariant
                i <= self.articles.len(),
                arts == self@.articles,
                arts.len() == self.articles.len(),
                keys.len() == i,
                cands.len() == i,
                forall|j: int| 0 <= j < i ==> (#[trigger] keys@[j] matches SortKey::TextPair(b, t) && b@
                    == arts[j].book && t@ == arts[j].title),
                forall|j: int| 0 <= j < i ==> #[trigger] cands@[j] == j,
            decreases self.articles.len() - i,
        {
            assert(arts[i as int] == self.articles@[i as int]@);
            keys.push(SortKey::TextPair(self.articles[i].book.clone(), self.articles[i].title.clone()));
            cands.push(i);
            i += 1;
        }
        proof {
            assert(cands@.no_duplicates());
        }
        let ps = sort_positions(&keys, &cands);
        proof {
            assert(cands@.to_set() =~= positions_below(arts.len())) by {
                assert forall|x: usize| cands@.to_set().contains(x) <==> positions_below(arts.len()).contains(x) by {
                    if x < arts.len() {
                        assert(cands@[x as int] == x);
                    }
                }
            }
            assert forall|k: int| 0 <= k < ps.len() implies #[trigger] ps@[k] < arts.len() by {
                assert(ps@.to_set().contains(ps@[k]));
            }
            assert forall|a: int, b: int| 0 <= a < b < ps.len() implies book_title_lt(
                arts[#[trigger] ps@[a] as int],
                arts[#[trigger] ps@[b] as int],
            ) by {
                let x = ps@[a] as int;
                let y = ps@[b] as int;
                assert(ps@.to_set().contains(ps@[a]));
                assert(ps@.to_set().contains(ps@[b]));
                assert(precedes(keys@, x, y));
                assert(keys@[x] matches SortKey::TextPair(p, q) && p@ == arts[x].book && q@ == arts[x].title);
                assert(keys@[y] matches SortKey::TextPair(p, q) && p@ == arts[y].book && q@ == arts[y].title);
                assert(x != y);
                if x < y {
                    assert(!(arts[x].book == arts[y].book && arts[x].title == arts[y].title));
                } else {
                    assert(!(arts[y].book == arts[x].book && arts[y].title == arts[x].title));
                }
                crate::order::lemma_lex_trichotomy(arts[x].book, arts[y].book);
                crate::order::lemma_lex_trichotomy(arts[x].title, arts[y].title);
            }
        }
        let mut out: Vec<BilingualArticleSummary> = Vec::new();
        let mut k: usize = 0;
        while k < ps.len()
            invariant
                k <= ps.len(),
                arts == self@.articles,
                arts.len() == self.articles.len(),
                forall|m: int| 0 <= m < ps.len() ==> #[trigger] ps@[m] < arts.len(),
                out.len() == k,
                forall|m: int| 0 <= m < k ==> #[trigger] out@[m]@ == summary_of(arts[ps@[m] as int]),
            decreases ps.len() - k,
        {
            let p = ps[k];
            assert(ps@[k as int] < arts.len());
            assert(arts[p as int] == self.articles@[p as int]@);
            let a = &self.articles[p];
            out.push(
                BilingualArticleSummary {
                    id: a.id,
                    title: a.title.clone(),
                    book: a.book.clone(),
                    level: copy_opt(&a.level),
                    paragraph_count: a.paragraphs.len(),
                    structure_count: a.structures.len(),
                    created_at: a.created_at.clone(),
                },
            );
            k += 1;
        }
        assert(summaries_view(out@) =~= ps@.map_values(|p: usize| summary_of(arts[p as int])));
        assert(listed_by_book_and_title(arts, ps@));
        Ok(out)
    }
}

} // verus!
