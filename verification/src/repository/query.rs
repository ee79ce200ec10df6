//! What a listing of words asks for: a filter, an order and a limit.
use vstd::prelude::*;

verus! {

/// How a listing of words is ordered.
#[derive(Debug, Clone, Copy, PartialEq, Eq, Structural)]
pub enum SortBy {
    /// Alphabetically by word.
    Word,
    /// By creation time, newest first.
    CreatedAt,
    /// By review count, highest first.
    ReviewCount,
}

/// The `ORDER BY` clause that names each order.
pub open spec fn sort_sql(s: SortBy) -> Seq<char> {
    match s {
        SortBy::Word => "words.word ASC"@,
        SortBy::CreatedAt => "words.created_at DESC"@,
        SortBy::ReviewCount => "words.review_count DESC"@,
    }
}

impl SortBy {
    /// The SQL `ORDER BY` clause for this order.
    pub fn to_sql(&self) -> (r: &'static str)
        ensures
            r@ == sort_sql(*self),
    {
        match self {
            SortBy::Word => "words.word ASC",
            SortBy::CreatedAt => "words.created_at DESC",
            SortBy::ReviewCount => "words.review_count DESC",
        }
    }
}

/// What a listing of words asks for. Every part is optional.
#[derive(Debug, Clone, PartialEq, Eq, Default)]
pub struct QueryOptions {
    /// The order; without one, words come in the order they were stored.
    pub sort: Option<SortBy>,
    /// The most words to return.
    pub limit: Option<usize>,
    /// Only words carrying this tag.
    pub tag_filter: Option<String>,
    /// Only words in a topic of this collection.
    pub collection_id: Option<i64>,
    /// Only words in this topic.
    pub topic_id: Option<i64>,
}

impl QueryOptions {
    /// No filter, no order, no limit.
    pub fn new() -> (r: QueryOptions)
        ensures
            r.sort is None,
            r.limit is None,
            r.tag_filter is None,
            r.collection_id is None,
            r.topic_id is None,
    {
        QueryOptions { sort: None, limit: None, tag_filter: None, collection_id: None, topic_id: None }
    }

    /// The same options, ordered by `sort`.
    pub fn sort(self, sort: SortBy) -> (r: QueryOptions)
        ensures
            r.sort == Some(sort),
            r.limit == self.limit,
            r.tag_filter == self.tag_filter,
            r.collection_id == self.collection_id,
            r.topic_id == self.topic_id,
    {
        QueryOptions { sort: Some(sort), ..self }
    }

    /// The same options, returning at most `limit` words.
    pub fn limit(self, limit: usize) -> (r: QueryOptions)
        ensures
            r.sort == self.sort,
            r.limit == Some(limit),
            r.tag_filter == self.tag_filter,
            r.collection_id == self.collection_id,
            r.topic_id == self.topic_id,
    {
        QueryOptions { limit: Some(limit), ..self }
    }

    /// The same options, keeping only words tagged `tag`.
    pub fn with_tag(self, tag: String) -> (r: QueryOptions)
        ensures
            r.sort == self.sort,
            r.limit == self.limit,
            r.tag_filter == Some(tag),
            r.collection_id == self.collection_id,
            r.topic_id == self.topic_id,
    {
        QueryOptions { tag_filter: Some(tag), ..self }
    }
}

} // verus!
