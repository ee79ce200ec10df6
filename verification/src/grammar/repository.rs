//! Stored grammar documents, their exercises, and the groups that hold them.
use vstd::prelude::*;
use super::{
    copy_json, jsons_view, GrammarDoc, GrammarDocDetail, GrammarDocInput, GrammarDocSummary,
    GrammarDocUpsertResult, GrammarExercise, GrammarGroup, GrammarGroupSummary, GrammarInputView,
};
use crate::clock::clock_range_message;
use crate::db::DbError;
use crate::json::{get_member, lookup, Json, JsonValue};
use crate::model::{copy_opt, copy_strings, opt_str};
use crate::order::lex_lt;
use crate::repository::sorting::{arrange_by_name, arranged_by_name, precedes, sort_positions, SortKey};
use crate::repository::{clock_text, ids_exhausted_message, now_text, opt_text, positions_below, Database};
use crate::text::{lemma_position_of, lemma_position_prefix, position_of, strs, trim, trim_str};

verus! {

/// The mathematical content of a stored document.
pub struct DocView {
    pub id: i64,
    pub title: Seq<char>,
    pub category: Option<Seq<char>>,
    pub level: Option<Seq<char>>,
    pub content: Seq<char>,
    pub examples: Seq<Seq<char>>,
    pub group_id: Option<i64>,
    pub created_at: Seq<char>,
}

impl View for GrammarDoc {
    type V = DocView;

    open spec fn view(&self) -> DocView {
        DocView {
            id: self.id,
            title: self.title@,
            category: opt_str(self.category),
            level: opt_str(self.level),
            content: self.content@,
            examples: strs(self.examples@),
            group_id: self.group_id,
            created_at: self.created_at@,
        }
    }
}

/// The mathematical content of a stored exercise.
pub struct ExerciseView {
    pub id: i64,
    pub doc_id: i64,
    pub order_index: i32,
    pub exercise_type: Seq<char>,
    pub data: Json,
}

impl View for GrammarExercise {
    type V = ExerciseView;

    open spec fn view(&self) -> ExerciseView {
        ExerciseView {
            id: self.id,
            doc_id: self.doc_id,
            order_index: self.order_index,
            exercise_type: self.exercise_type@,
            data: self.data@,
        }
    }
}

/// The mathematical content of a group.
pub struct GroupView {
    pub id: i64,
    pub name: Seq<char>,
    pub description: Option<Seq<char>>,
    pub sort_order: i64,
    pub created_at: Seq<char>,
}

impl View for GrammarGroup {
    type V = GroupView;

    open spec fn view(&self) -> GroupView {
        GroupView {
            id: self.id,
            name: self.name@,
            description: opt_str(self.description),
            sort_order: self.sort_order,
            created_at: self.created_at@,
        }
    }
}

/// The mathematical content of a document in a listing.
pub struct DocSummaryView {
    pub id: i64,
    pub title: Seq<char>,
    pub category: Option<Seq<char>>,
    pub level: Option<Seq<char>>,
    pub exercise_count: nat,
    pub group_id: Option<i64>,
    pub created_at: Seq<char>,
}

impl View for GrammarDocSummary {
    type V = DocSummaryView;

    open spec fn view(&self) -> DocSummaryView {
        DocSummaryView {
            id: self.id,
            title: self.title@,
            category: opt_str(self.category),
            level: opt_str(self.level),
            exercise_count: self.exercise_count as nat,
            group_id: self.group_id,
            created_at: self.created_at@,
        }
    }
}

/// The mathematical content of a group in a listing.
pub struct GroupSummaryView {
    pub id: i64,
    pub name: Seq<char>,
    pub description: Option<Seq<char>>,
    pub sort_order: i64,
    pub doc_count: nat,
    pub created_at: Seq<char>,
}

impl View for GrammarGroupSummary {
    type V = GroupSummaryView;

    open spec fn view(&self) -> GroupSummaryView {
        GroupSummaryView {
            id: self.id,
            name: self.name@,
            description: opt_str(self.description),
            sort_order: self.sort_order,
            doc_count: self.doc_count as nat,
            created_at: self.created_at@,
        }
    }
}

/// The mathematical content of the grammar tables: documents, exercises and
/// groups in storage order, and the last identifier handed out for each.
/// Identifiers are never reused.
pub struct GrammarStoreView {
    pub docs: Seq<DocView>,
    pub exercises: Seq<ExerciseView>,
    pub groups: Seq<GroupView>,
    pub last_doc_id: i64,
    pub last_exercise_id: i64,
    pub last_group_id: i64,
}

/// Whether a group with identifier `id` is stored.
pub open spec fn has_group(gs: Seq<GroupView>, id: i64) -> bool {
    exists|i: int| 0 <= i < gs.len() && #[trigger] gs[i].id == id
}

/// Whether a document with identifier `id` is stored.
pub open spec fn has_doc(ds: Seq<DocView>, id: i64) -> bool {
    exists|i: int| 0 <= i < ds.len() && #[trigger] ds[i].id == id
}

/// What the tables keep true: identifiers are positive and at most the last
/// one handed out; document and group identifiers rise in storage order;
/// no two groups share a name and every group has sort order 0; a document
/// names only a stored group, and an exercise only a stored document.
pub open spec fn grammar_store_wf(s: GrammarStoreView) -> bool {
    &&& 0 <= s.last_doc_id
    &&& 0 <= s.last_exercise_id
    &&& 0 <= s.last_group_id
    &&& forall|i: int| 0 <= i < s.docs.len() ==> 0 < #[trigger] s.docs[i].id <= s.last_doc_id
    &&& forall|i: int, j: int| 0 <= i < j < s.docs.len() ==> #[trigger] s.docs[i].id < #[trigger] s.docs[j].id
    &&& forall|i: int| 0 <= i < s.exercises.len() ==> 0 < #[trigger] s.exercises[i].id <= s.last_exercise_id
    &&& forall|i: int| 0 <= i < s.groups.len() ==> 0 < #[trigger] s.groups[i].id <= s.last_group_id
    &&& forall|i: int, j: int|
        0 <= i < j < s.groups.len() ==> #[trigger] s.groups[i].id < #[trigger] s.groups[j].id
            && s.groups[i].name != s.groups[j].name
    &&& forall|i: int| 0 <= i < s.groups.len() ==> #[trigger] s.groups[i].sort_order == 0
    &&& forall|i: int| 0 <= i < s.docs.len() ==> (#[trigger] s.docs[i].group_id matches Some(g) ==> has_group(s.groups, g))
    &&& forall|i: int| 0 <= i < s.exercises.len() ==> has_doc(s.docs, #[trigger] s.exercises[i].doc_id)
}

// ----- groups -----

/// The position of the group `id`.
pub open spec fn group_at(gs: Seq<GroupView>, id: i64) -> int {
    choose|i: int| 0 <= i < gs.len() && #[trigger] gs[i].id == id
}

/// Whether a group named `name` is stored, other than the group `except`.
pub open spec fn group_name_taken(gs: Seq<GroupView>, name: Seq<char>, except: Option<i64>) -> bool {
    exists|i: int| 0 <= i < gs.len() && #[trigger] gs[i].name == name && except != Some(gs[i].id)
}

/// The names of the groups, in storage order.
pub open spec fn group_names(gs: Seq<GroupView>) -> Seq<Seq<char>> {
    gs.map_values(|g: GroupView| g.name)
}

/// The message when a group name is blank.
pub open spec fn group_name_required_message() -> Seq<char> {
    "group name is required"@
}

/// The message when a group name is taken.
pub open spec fn group_name_taken_message() -> Seq<char> {
    "UNIQUE constraint failed: grammar_groups.name"@
}

/// The message when a document names a group that is not stored.
pub open spec fn missing_group_message() -> Seq<char> {
    "FOREIGN KEY constraint failed"@
}

/// What creating a group at time `now` does: the name is trimmed and must
/// hold more than whitespace and be free; the group gets the next
/// identifier and sort order 0.
pub open spec fn create_group_outcome(
    s: GrammarStoreView,
    name: Seq<char>,
    description: Option<Seq<char>>,
    now: Seq<char>,
    s2: GrammarStoreView,
    r: Result<GrammarGroup, DbError>,
) -> bool {
    let t = trim(name);
    if t.len() == 0 {
        r matches Err(DbError::Validation(m)) && m@ == group_name_required_message() && s2 == s
    } else if group_name_taken(s.groups, t, None) {
        r matches Err(DbError::Storage(m)) && m@ == group_name_taken_message() && s2 == s
    } else if s.last_group_id == i64::MAX {
        r matches Err(DbError::Storage(m)) && m@ == ids_exhausted_message() && s2 == s
    } else {
        let g = GroupView { id: (s.last_group_id + 1) as i64, name: t, description, sort_order: 0, created_at: now };
        &&& r matches Ok(x) && x@ == g
        &&& s2 == GrammarStoreView { groups: s.groups.push(g), last_group_id: g.id, ..s }
    }
}

/// What finding or creating the group named `name` does: the trimmed name
/// must hold more than whitespace; a group of that name is found, else one
/// is created at `now` without a description.
pub open spec fn find_or_create_group_outcome(
    s: GrammarStoreView,
    name: Seq<char>,
    now: Seq<char>,
    s2: GrammarStoreView,
    r: Result<i64, DbError>,
) -> bool {
    let t = trim(name);
    if t.len() == 0 {
        r matches Err(DbError::Validation(m)) && m@ == group_name_required_message() && s2 == s
    } else if group_name_taken(s.groups, t, None) {
        let i = choose|i: int| 0 <= i < s.groups.len() && #[trigger] s.groups[i].name == t;
        r == Ok::<i64, DbError>(s.groups[i].id) && s2 == s
    } else if s.last_group_id == i64::MAX {
        r matches Err(DbError::Storage(m)) && m@ == ids_exhausted_message() && s2 == s
    } else {
        let g = GroupView { id: (s.last_group_id + 1) as i64, name: t, description: None, sort_order: 0, created_at: now };
        &&& r == Ok::<i64, DbError>(g.id)
        &&& s2 == GrammarStoreView { groups: s.groups.push(g), last_group_id: g.id, ..s }
    }
}

/// What updating the group `id` does. A new name is trimmed and must hold
/// more than whitespace, and must not name another group; a new
/// description (possibly none) replaces the old. An identifier that is not
/// stored changes nothing.
pub open spec fn update_group_outcome(
    s: GrammarStoreView,
    id: i64,
    name: Option<Seq<char>>,
    description: Option<Option<Seq<char>>>,
    s2: GrammarStoreView,
    r: Result<(), DbError>,
) -> bool {
    if name matches Some(n) && trim(n).len() == 0 {
        r matches Err(DbError::Validation(m)) && m@ == group_name_required_message() && s2 == s
    } else if !has_group(s.groups, id) {
        r is Ok && s2 == s
    } else if name matches Some(n) && group_name_taken(s.groups, trim(n), Some(id)) {
        r matches Err(DbError::Storage(m)) && m@ == group_name_taken_message() && s2 == s
    } else {
        let i = group_at(s.groups, id);
        let g = s.groups[i];
        let g2 = GroupView {
            name: match name {
                Some(n) => trim(n),
                None => g.name,
            },
            description: match description {
                Some(d) => d,
                None => g.description,
            },
            ..g
        };
        r is Ok && s2 == GrammarStoreView { groups: s.groups.update(i, g2), ..s }
    }
}

/// The documents with those of group `g` taken out of it.
pub open spec fn ungroup_docs(ds: Seq<DocView>, g: i64) -> Seq<DocView> {
    Seq::new(
        ds.len(),
        |k: int|
            if ds[k].group_id == Some(g) {
                DocView { group_id: None, ..ds[k] }
            } else {
                ds[k]
            },
    )
}

/// What deleting the group `id` does: its documents leave it, and it is
/// removed. An identifier that is not stored changes nothing.
pub open spec fn delete_group_outcome(s: GrammarStoreView, id: i64, s2: GrammarStoreView) -> bool {
    if has_group(s.groups, id) {
        s2 == GrammarStoreView {
            docs: ungroup_docs(s.docs, id),
            groups: s.groups.remove(group_at(s.groups, id)),
            ..s
        }
    } else {
        s2 == s
    }
}

/// The number of documents in group `g`.
pub open spec fn docs_in_group(ds: Seq<DocView>, g: i64) -> nat
    decreases ds.len(),
{
    if ds.len() == 0 {
        0
    } else {
        docs_in_group(ds.drop_last(), g) + if ds.last().group_id == Some(g) {
            1nat
        } else {
            0nat
        }
    }
}

/// How a group shows in a listing.
pub open spec fn group_summary_of(g: GroupView, ds: Seq<DocView>) -> GroupSummaryView {
    GroupSummaryView {
        id: g.id,
        name: g.name,
        description: g.description,
        sort_order: g.sort_order,
        doc_count: docs_in_group(ds, g.id),
        created_at: g.created_at,
    }
}

pub open spec fn group_summaries_view(v: Seq<GrammarGroupSummary>) -> Seq<GroupSummaryView> {
    v.map_values(|g: GrammarGroupSummary| g@)
}


// ----- documents and exercises -----

/// The kind of an exercise: its `type` member when that is a string, else
/// `unknown`.
pub open spec fn exercise_type_of(j: Json) -> Seq<char> {
    match j {
        Json::Object(ms) => match lookup(ms, "type"@) {
            Some(Json::Str(t)) => t,
            _ => "unknown"@,
        },
        _ => "unknown"@,
    }
}

/// The exercises stored for document `doc_id` from `items`: the `k`-th gets
/// identifier `first + k` and order index `k`.
pub open spec fn new_exercises(doc_id: i64, first: int, items: Seq<Json>) -> Seq<ExerciseView> {
    Seq::new(
        items.len(),
        |k: int|
            ExerciseView {
                id: (first + k) as i64,
                doc_id,
                order_index: k as i32,
                exercise_type: exercise_type_of(items[k]),
                data: items[k],
            },
    )
}

/// The exercises of document `doc_id`, in storage order.
pub open spec fn exercises_of(exs: Seq<ExerciseView>, doc_id: i64) -> Seq<ExerciseView>
    decreases exs.len(),
{
    if exs.len() == 0 {
        Seq::empty()
    } else if exs.last().doc_id == doc_id {
        exercises_of(exs.drop_last(), doc_id).push(exs.last())
    } else {
        exercises_of(exs.drop_last(), doc_id)
    }
}

/// The exercises of the documents other than `doc_id`, in storage order.
pub open spec fn exercises_not_of(exs: Seq<ExerciseView>, doc_id: i64) -> Seq<ExerciseView>
    decreases exs.len(),
{
    if exs.len() == 0 {
        Seq::empty()
    } else if exs.last().doc_id != doc_id {
        exercises_not_of(exs.drop_last(), doc_id).push(exs.last())
    } else {
        exercises_not_of(exs.drop_last(), doc_id)
    }
}

/// The titles of the documents, in storage order.
pub open spec fn doc_titles(ds: Seq<DocView>) -> Seq<Seq<char>> {
    ds.map_values(|d: DocView| d.title)
}

/// The position of the document `id`.
pub open spec fn doc_at(ds: Seq<DocView>, id: i64) -> int {
    choose|i: int| 0 <= i < ds.len() && #[trigger] ds[i].id == id
}

/// Whether storing a document for group `group_id` is refused because the
/// group is not stored.
pub open spec fn group_missing(s: GrammarStoreView, group_id: Option<i64>) -> bool {
    group_id matches Some(g) && !has_group(s.groups, g)
}

/// Whether the identifiers left cannot hold `n` more exercises.
pub open spec fn exercise_ids_short(s: GrammarStoreView, n: nat) -> bool {
    s.last_exercise_id + n > i64::MAX
}

/// The tables with `input` added as a new document in group `group_id`,
/// created at `now`, with its exercises.
pub open spec fn with_new_doc(s: GrammarStoreView, input: GrammarInputView, group_id: Option<i64>, now: Seq<char>) -> GrammarStoreView {
    let d = DocView {
        id: (s.last_doc_id + 1) as i64,
        title: input.title,
        category: input.category,
        level: input.level,
        content: input.content,
        examples: input.examples,
        group_id,
        created_at: now,
    };
    GrammarStoreView {
        docs: s.docs.push(d),
        exercises: s.exercises + new_exercises(d.id, s.last_exercise_id + 1, input.exercises),
        last_doc_id: d.id,
        last_exercise_id: (s.last_exercise_id + input.exercises.len()) as i64,
        ..s
    }
}

/// What adding a document at time `now` does: a group that is not stored is
/// refused, then a lack of identifiers; otherwise the document gets the
/// next identifier and its exercises the next ones, in order.
pub open spec fn insert_doc_outcome(
    s: GrammarStoreView,
    input: GrammarInputView,
    group_id: Option<i64>,
    now: Seq<char>,
    s2: GrammarStoreView,
    r: Result<i64, DbError>,
) -> bool {
    if group_missing(s, group_id) {
        r matches Err(DbError::Storage(m)) && m@ == missing_group_message() && s2 == s
    } else if s.last_doc_id == i64::MAX || exercise_ids_short(s, input.exercises.len()) {
        r matches Err(DbError::Storage(m)) && m@ == ids_exhausted_message() && s2 == s
    } else {
        r == Ok::<i64, DbError>((s.last_doc_id + 1) as i64) && s2 == with_new_doc(s, input, group_id, now)
    }
}

/// What storing a document at time `now` does. The first stored document
/// with the same title is updated: it takes the new category, level,
/// content, examples and group, keeps its identifier and creation time, and
/// its exercises are replaced by the new ones. A document with a new title
/// is added as `insert_doc_outcome` says. A group that is not stored, or a
/// lack of identifiers, is refused with nothing changed.
pub open spec fn upsert_doc_outcome(
    s: GrammarStoreView,
    input: GrammarInputView,
    group_id: Option<i64>,
    now: Seq<char>,
    s2: GrammarStoreView,
    r: Result<GrammarDocUpsertResult, DbError>,
) -> bool {
    if group_missing(s, group_id) {
        r matches Err(DbError::Storage(m)) && m@ == missing_group_message() && s2 == s
    } else {
        match position_of(doc_titles(s.docs), input.title) {
            Some(i) => if exercise_ids_short(s, input.exercises.len()) {
                r matches Err(DbError::Storage(m)) && m@ == ids_exhausted_message() && s2 == s
            } else {
                let d = s.docs[i];
                &&& r == Ok::<GrammarDocUpsertResult, DbError>(GrammarDocUpsertResult { id: d.id, inserted: false })
                &&& s2 == GrammarStoreView {
                    docs: s.docs.update(
                        i,
                        DocView {
                            category: input.category,
                            level: input.level,
                            content: input.content,
                            examples: input.examples,
                            group_id,
                            ..d
                        },
                    ),
                    exercises: exercises_not_of(s.exercises, d.id) + new_exercises(
                        d.id,
                        s.last_exercise_id + 1,
                        input.exercises,
                    ),
                    last_exercise_id: (s.last_exercise_id + input.exercises.len()) as i64,
                    ..s
                }
            },
            None => if s.last_doc_id == i64::MAX || exercise_ids_short(s, input.exercises.len()) {
                r matches Err(DbError::Storage(m)) && m@ == ids_exhausted_message() && s2 == s
            } else {
                &&& r == Ok::<GrammarDocUpsertResult, DbError>(
                    GrammarDocUpsertResult { id: (s.last_doc_id + 1) as i64, inserted: true },
                )
                &&& s2 == with_new_doc(s, input, group_id, now)
            },
        }
    }
}

/// What deleting the document `id` does: it goes, with its exercises. An
/// identifier that is not stored changes nothing.
pub open spec fn delete_doc_outcome(s: GrammarStoreView, id: i64, s2: GrammarStoreView) -> bool {
    if has_doc(s.docs, id) {
        s2 == GrammarStoreView {
            docs: s.docs.remove(doc_at(s.docs, id)),
            exercises: exercises_not_of(s.exercises, id),
            ..s
        }
    } else {
        s2 == s
    }
}

/// What moving the document `doc_id` to group `group_id` (or to none) does.
/// An identifier that is not stored changes nothing; a group that is not
/// stored is refused.
pub open spec fn move_doc_outcome(
    s: GrammarStoreView,
    doc_id: i64,
    group_id: Option<i64>,
    s2: GrammarStoreView,
    r: Result<(), DbError>,
) -> bool {
    if !has_doc(s.docs, doc_id) {
        r is Ok && s2 == s
    } else if group_missing(s, group_id) {
        r matches Err(DbError::Storage(m)) && m@ == missing_group_message() && s2 == s
    } else {
        let i = doc_at(s.docs, doc_id);
        r is Ok && s2 == GrammarStoreView { docs: s.docs.update(i, DocView { group_id, ..s.docs[i] }), ..s }
    }
}

/// How a document shows in a listing.
pub open spec fn doc_summary_of(d: DocView, exs: Seq<ExerciseView>) -> DocSummaryView {
    DocSummaryView {
        id: d.id,
        title: d.title,
        category: d.category,
        level: d.level,
        exercise_count: exercises_of(exs, d.id).len(),
        group_id: d.group_id,
        created_at: d.created_at,
    }
}

pub open spec fn doc_summaries_view(v: Seq<GrammarDocSummary>) -> Seq<DocSummaryView> {
    v.map_values(|d: GrammarDocSummary| d@)
}

pub open spec fn exercises_view(v: Seq<GrammarExercise>) -> Seq<ExerciseView> {
    v.map_values(|e: GrammarExercise| e@)
}

/// Position `i` comes before position `j` in a listing: a later creation
/// time, or the same time and an earlier position.
pub open spec fn created_later(ds: Seq<DocView>, i: int, j: int) -> bool {
    lex_lt(ds[j].created_at, ds[i].created_at) || (!lex_lt(ds[i].created_at, ds[j].created_at) && i < j)
}

/// `ps` lists every stored position once, newest first.
pub open spec fn listed_newest_first(ds: Seq<DocView>, ps: Seq<usize>) -> bool {
    &&& ps.no_duplicates()
    &&& ps.to_set() == positions_below(ds.len())
    &&& forall|k: int| 0 <= k < ps.len() ==> #[trigger] ps[k] < ds.len()
    &&& forall|a: int, b: int| 0 <= a < b < ps.len() ==> created_later(ds, #[trigger] ps[a] as int, #[trigger] ps[b] as int)
}

proof fn lemma_exercises_not_of(exs: Seq<ExerciseView>, d: i64)
    ensures
        forall|k: int|
            0 <= k < exercises_not_of(exs, d).len() ==> (#[trigger] exercises_not_of(exs, d)[k]).doc_id != d
                && exs.contains(exercises_not_of(exs, d)[k]),
    decreases exs.len(),
{
    if exs.len() > 0 {
        let init = exs.drop_last();
        lemma_exercises_not_of(init, d);
        let r = exercises_not_of(exs, d);
        let r0 = exercises_not_of(init, d);
        assert forall|k: int| 0 <= k < r.len() implies (#[trigger] r[k]).doc_id != d && exs.contains(r[k]) by {
            if k < r0.len() {
                assert(r[k] == r0[k]);
                assert(init.contains(r0[k]));
                let j = choose|j: int| 0 <= j < init.len() && init[j] == r0[k];
                assert(exs[j] == r0[k]);
            } else {
                assert(r[k] == exs.last());
                assert(exs[exs.len() - 1] == exs.last());
            }
        }
    }
}


proof fn lemma_exercises_of_concat(a: Seq<ExerciseView>, b: Seq<ExerciseView>, d: i64)
    ensures
        exercises_of(a + b, d) == exercises_of(a, d) + exercises_of(b, d),
    decreases b.len(),
{
    if b.len() == 0 {
        assert(a + b =~= a);
        assert(exercises_of(a, d) + exercises_of(b, d) =~= exercises_of(a, d));
    } else {
        lemma_exercises_of_concat(a, b.drop_last(), d);
        assert((a + b).drop_last() =~= a + b.drop_last());
        assert((a + b).last() == b.last());
        if b.last().doc_id == d {
            assert(exercises_of(a, d) + exercises_of(b.drop_last(), d).push(b.last()) =~= (exercises_of(a, d)
                + exercises_of(b.drop_last(), d)).push(b.last()));
        }
    }
}

proof fn lemma_exercises_of_none(x: Seq<ExerciseView>, d: i64)
    requires
        forall|k: int| 0 <= k < x.len() ==> #[trigger] x[k].doc_id != d,
    ensures
        exercises_of(x, d) == Seq::<ExerciseView>::empty(),
    decreases x.len(),
{
    if x.len() > 0 {
        assert(x.last() == x[x.len() - 1]);
        lemma_exercises_of_none(x.drop_last(), d);
    }
}

proof fn lemma_exercises_of_all(x: Seq<ExerciseView>, d: i64)
    requires
        forall|k: int| 0 <= k < x.len() ==> #[trigger] x[k].doc_id == d,
    ensures
        exercises_of(x, d) == x,
    decreases x.len(),
{
    if x.len() > 0 {
        assert(x.last() == x[x.len() - 1]);
        lemma_exercises_of_all(x.drop_last(), d);
        assert(x.drop_last().push(x.last()) =~= x);
    }
}

/// After a document is stored, the stored document with the identifier
/// reported holds what was given, and its exercises are exactly the given
/// ones, in order, whatever it had before: storing under a known title
/// replaces, never adds to, what was there.
pub proof fn law_upsert_doc_read_back(
    s: GrammarStoreView,
    input: GrammarInputView,
    group_id: Option<i64>,
    now: Seq<char>,
    s2: GrammarStoreView,
    r: Result<GrammarDocUpsertResult, DbError>,
)
    requires
        grammar_store_wf(s),
        grammar_store_wf(s2),
        upsert_doc_outcome(s, input, group_id, now, s2, r),
        r is Ok,
    ensures
        has_doc(s2.docs, r->Ok_0.id),
        ({
            let d = s2.docs[doc_at(s2.docs, r->Ok_0.id)];
            &&& d.title == input.title
            &&& d.category == input.category
            &&& d.level == input.level
            &&& d.content == input.content
            &&& d.examples == input.examples
            &&& d.group_id == group_id
        }),
        exercises_of(s2.exercises, r->Ok_0.id) == new_exercises(r->Ok_0.id, s.last_exercise_id + 1, input.exercises),
        s2.docs.len() == s.docs.len() + if r->Ok_0.inserted {
            1int
        } else {
            0int
        },
{
    let id = r->Ok_0.id;
    let fresh = new_exercises(id, s.last_exercise_id + 1, input.exercises);
    assert forall|k: int| 0 <= k < fresh.len() implies #[trigger] fresh[k].doc_id == id by {}
    lemma_exercises_of_all(fresh, id);
    match position_of(doc_titles(s.docs), input.title) {
        Some(i) => {
            lemma_position_of(doc_titles(s.docs), input.title);
            let kept = exercises_not_of(s.exercises, id);
            lemma_exercises_not_of(s.exercises, id);
            assert forall|k: int| 0 <= k < kept.len() implies #[trigger] kept[k].doc_id != id by {}
            lemma_exercises_of_none(kept, id);
            lemma_exercises_of_concat(kept, fresh, id);
            assert(exercises_of(kept, id) + fresh =~= fresh);
            assert(s2.docs[i].id == id);
            let k = doc_at(s2.docs, id);
            if k != i {
                if k < i {
                    assert(s2.docs[k].id < s2.docs[i].id);
                } else {
                    assert(s2.docs[i].id < s2.docs[k].id);
                }
            }
        },
        None => {
            let n = s.docs.len() as int;
            assert(s2.docs[n].id == id);
            assert forall|j: int| 0 <= j < s.exercises.len() implies #[trigger] s.exercises[j].doc_id != id by {
                let x = s.exercises[j].doc_id;
                assert(has_doc(s.docs, x));
                let m = choose|m: int| 0 <= m < s.docs.len() && #[trigger] s.docs[m].id == x;
                assert(s.docs[m].id <= s.last_doc_id);
            }
            lemma_exercises_of_none(s.exercises, id);
            lemma_exercises_of_concat(s.exercises, fresh, id);
            assert(exercises_of(s.exercises, id) + fresh =~= fresh);
            let k = doc_at(s2.docs, id);
            if k != n {
                assert(s2.docs[k].id < s2.docs[n].id);
            }
        },
    }
}

/// Storing a document twice under one title keeps one document: the second
/// time reports the same identifier, as an update, and adds no document.
pub proof fn law_upsert_doc_no_duplicate(
    s: GrammarStoreView,
    a: GrammarInputView,
    b: GrammarInputView,
    g1: Option<i64>,
    g2: Option<i64>,
    now1: Seq<char>,
    now2: Seq<char>,
    s2: GrammarStoreView,
    s3: GrammarStoreView,
    r1: Result<GrammarDocUpsertResult, DbError>,
    r2: Result<GrammarDocUpsertResult, DbError>,
)
    requires
        grammar_store_wf(s),
        grammar_store_wf(s2),
        upsert_doc_outcome(s, a, g1, now1, s2, r1),
        upsert_doc_outcome(s2, b, g2, now2, s3, r2),
        r1 is Ok,
        r2 is Ok,
        a.title == b.title,
    ensures
        r2->Ok_0.id == r1->Ok_0.id,
        !r2->Ok_0.inserted,
        s3.docs.len() == s2.docs.len(),
{
    let id = r1->Ok_0.id;
    let ts = doc_titles(s.docs);
    let ts2 = doc_titles(s2.docs);
    lemma_position_of(ts, a.title);
    lemma_position_of(ts2, a.title);
    match position_of(ts, a.title) {
        Some(i) => {
            assert(ts2[i] == ts[i]);
            assert forall|j: int| 0 <= j < i implies #[trigger] ts2[j] != a.title by {
                assert(ts2[j] == ts[j]);
            }
            match position_of(ts2, a.title) {
                Some(k) => {
                    if k < i {
                        assert(ts2[k] != a.title);
                    } else if k > i {
                        assert(ts2[i] == a.title);
                    }
                },
                None => {
                    assert(ts2[i] == a.title);
                },
            }
        },
        None => {
            let n = s.docs.len() as int;
            assert(ts2[n] == a.title);
            assert forall|j: int| 0 <= j < n implies #[trigger] ts2[j] != a.title by {
                assert(ts2[j] == ts[j]);
            }
            match position_of(ts2, a.title) {
                Some(k) => {
                    if k < n {
                        assert(ts2[k] != a.title);
                    }
                },
                None => {
                    assert(ts2[n] == a.title);
                },
            }
        },
    }
}

/// The grammar tables of a repository.
pub struct GrammarRepository {
    docs: Vec<GrammarDoc>,
    exercises: Vec<GrammarExercise>,
    groups: Vec<GrammarGroup>,
    last_doc_id: i64,
    last_exercise_id: i64,
    last_group_id: i64,
}

impl View for GrammarRepository {
    type V = GrammarStoreView;

    closed spec fn view(&self) -> GrammarStoreView {
        GrammarStoreView {
            docs: self.docs@.map_values(|d: GrammarDoc| d@),
            exercises: self.exercises@.map_values(|e: GrammarExercise| e@),
            groups: self.groups@.map_values(|g: GrammarGroup| g@),
            last_doc_id: self.last_doc_id,
            last_exercise_id: self.last_exercise_id,
            last_group_id: self.last_group_id,
        }
    }
}

/// The empty grammar tables.
pub open spec fn empty_grammar_store() -> GrammarStoreView {
    GrammarStoreView {
        docs: Seq::empty(),
        exercises: Seq::empty(),
        groups: Seq::empty(),
        last_doc_id: 0,
        last_exercise_id: 0,
        last_group_id: 0,
    }
}

fn copy_group(g: &GrammarGroup) -> (r: GrammarGroup)
    ensures
        r@ == g@,
{
    GrammarGroup {
        id: g.id,
        name: g.name.clone(),
        description: copy_opt(&g.description),
        sort_order: g.sort_order,
        created_at: g.created_at.clone(),
    }
}

fn opt_string(o: Option<&str>) -> (r: Option<String>)
    ensures
        opt_str(r) == opt_text(o),
{
    match o {
        Some(s) => Some(s.to_owned()),
        None => None,
    }
}


/// The kind of an exercise (see `exercise_type_of`).
fn exercise_type(data: &JsonValue) -> (r: String)
    ensures
        r@ == exercise_type_of(data@),
{
    match data {
        JsonValue::Object(ms) => match get_member(ms, "type") {
            Some(JsonValue::Str(t)) => t.clone(),
            _ => "unknown".to_owned(),
        },
        _ => "unknown".to_owned(),
    }
}

fn copy_exercise(e: &GrammarExercise) -> (r: GrammarExercise)
    ensures
        r@ == e@,
{
    GrammarExercise {
        id: e.id,
        doc_id: e.doc_id,
        order_index: e.order_index,
        exercise_type: e.exercise_type.clone(),
        data: copy_json(&e.data),
    }
}

fn copy_doc(d: &GrammarDoc) -> (r: GrammarDoc)
    ensures
        r@ == d@,
{
    GrammarDoc {
        id: d.id,
        title: d.title.clone(),
        category: copy_opt(&d.category),
        level: copy_opt(&d.level),
        content: d.content.clone(),
        examples: copy_strings(&d.examples),
        group_id: d.group_id,
        created_at: d.created_at.clone(),
    }
}

impl GrammarRepository {
    /// The tables' invariant.
    pub open spec fn wf(&self) -> bool {
        grammar_store_wf(self@)
    }

    /// A repository on the store `db`. Grammar tables are kept by the
    /// repository itself, so a new one holds nothing.
    pub fn new(db: Database) -> (r: Self)
        ensures
            r.wf(),
            r@ == empty_grammar_store(),
    {
        let r = GrammarRepository {
            docs: Vec::new(),
            exercises: Vec::new(),
            groups: Vec::new(),
            last_doc_id: 0,
            last_exercise_id: 0,
            last_group_id: 0,
        };
        assert(r@.docs =~= Seq::<DocView>::empty());
        assert(r@.exercises =~= Seq::<ExerciseView>::empty());
        assert(r@.groups =~= Seq::<GroupView>::empty());
        r
    }

    /// The position of the group `id`.
    fn find_group(&self, id: i64) -> (r: Option<usize>)
        requires
            self.wf(),
        ensures
            match r {
                Some(i) => i < self@.groups.len() && has_group(self@.groups, id) && group_at(self@.groups, id) == i,
                None => !has_group(self@.groups, id),
            },
    {
        let ghost gs = self@.groups;
        let mut i: usize = 0;
        while i < self.groups.len()
            invariant
                i <= self.groups.len(),
                gs == self@.groups,
                self.wf(),
                forall|j: int| 0 <= j < i ==> #[trigger] gs[j].id != id,
            decreases self.groups.len() - i,
        {
            assert(gs[i as int] == self.groups@[i as int]@);
            if self.groups[i].id == id {
                proof {
                    assert(gs[i as int].id == id);
                    let k = group_at(gs, id);
                    if k != i {
                        if k < i {
                            assert(gs[k].id != id);
                        } else {
                            assert(gs[i as int].id < gs[k].id);
                        }
                    }
                }
                return Some(i);
            }
            i += 1;
        }
        None
    }

    /// The position of a group named `name`, other than the group `except`.
    fn find_group_named(&self, name: &str, except: Option<i64>) -> (r: Option<usize>)
        ensures
            match r {
                Some(i) => i < self@.groups.len() && self@.groups[i as int].name == name@ && except != Some(
                    self@.groups[i as int].id,
                ),
                None => !group_name_taken(self@.groups, name@, except),
            },
    {
        let n = name.to_owned();
        let ghost gs = self@.groups;
        let mut i: usize = 0;
        while i < self.groups.len()
            invariant
                i <= self.groups.len(),
                n@ == name@,
                gs == self@.groups,
                forall|j: int| 0 <= j < i ==> !(#[trigger] gs[j].name == name@ && except != Some(gs[j].id)),
            decreases self.groups.len() - i,
        {
            assert(gs[i as int] == self.groups@[i as int]@);
            let same_id = match except {
                Some(e) => self.groups[i].id == e,
                None => false,
            };
            if self.groups[i].name == n && !same_id {
                return Some(i);
            }
            i += 1;
        }
        None
    }

    /// Adds a group as of `now` (see `create_group_outcome`).
    pub fn create_group_at(&mut self, name: &str, description: Option<&str>, now: &str) -> (r: Result<
        GrammarGroup,
        DbError,
    >)
        requires
            old(self).wf(),
        ensures
            final(self).wf(),
            create_group_outcome(old(self)@, name@, opt_text(description), now@, final(self)@, r),
    {
        let trimmed = trim_str(name);
        if trimmed.as_str().is_empty() {
            return Err(DbError::Validation("group name is required".to_owned()));
        }
        if let Some(i) = self.find_group_named(trimmed.as_str(), None) {
            assert(self@.groups[i as int].name == trimmed@);
            return Err(DbError::Storage("UNIQUE constraint failed: grammar_groups.name".to_owned()));
        }
        if self.last_group_id == i64::MAX {
            return Err(DbError::Storage("database or disk is full".to_owned()));
        }
        let ghost old_s = self@;
        let ghost old_groups = self@.groups;
        let id = self.last_group_id + 1;
        let g = GrammarGroup {
            id,
            name: trimmed,
            description: opt_string(description),
            sort_order: 0,
            created_at: now.to_owned(),
        };
        let out = copy_group(&g);
        self.groups.push(g);
        self.last_group_id = id;
        assert(self@.groups =~= old_groups.push(out@));
        proof {
            let s = self@;
            assert forall|i: int, j: int| 0 <= i < j < s.groups.len() implies #[trigger] s.groups[i].id
                < #[trigger] s.groups[j].id && s.groups[i].name != s.groups[j].name by {
                if j == s.groups.len() - 1 {
                    assert(0 < old_s.groups[i].id <= old_s.last_group_id);
                    assert(!(old_groups[i].name == out@.name && None::<i64> != Some(old_groups[i].id)));
                } else {
                    assert(old_s.groups[i].id < old_s.groups[j].id);
                }
            }
            assert forall|i: int| 0 <= i < s.docs.len() implies (#[trigger] s.docs[i].group_id matches Some(x)
                ==> has_group(s.groups, x)) by {
                if let Some(x) = s.docs[i].group_id {
                    assert(has_group(old_groups, x));
                    let k = choose|k: int| 0 <= k < old_groups.len() && #[trigger] old_groups[k].id == x;
                    assert(s.groups[k].id == x);
                }
            }
        }
        Ok(out)
    }

    /// Adds a group as of the current time (see `create_group_outcome`). A
    /// blank name is refused before the clock is read.
    pub fn create_group(&mut self, name: &str, description: Option<&str>) -> (r: Result<GrammarGroup, DbError>)
        requires
            old(self).wf(),
        ensures
            final(self).wf(),
            (exists|now: Seq<char>|
                (trim(name@).len() != 0 ==> clock_text(now)) && #[trigger] create_group_outcome(
                    old(self)@,
                    name@,
                    opt_text(description),
                    now,
                    final(self)@,
                    r,
                )) || (trim(
                name@,
            ).len() != 0 && final(self)@ == old(self)@ && (r matches Err(DbError::Storage(m)) && m@
                == clock_range_message())),
    {
        let trimmed = trim_str(name);
        if trimmed.as_str().is_empty() {
            let r = Err(DbError::Validation("group name is required".to_owned()));
            assert((trim(name@).len() != 0 ==> clock_text(Seq::empty())) && create_group_outcome(old(self)@, name@, opt_text(description), Seq::empty(), self@, r));
            return r;
        }
        let now = match now_text() {
            Ok(t) => t,
            Err(e) => return Err(e),
        };
        let r = self.create_group_at(name, description, now.as_str());
        assert(clock_text(now@) && create_group_outcome(old(self)@, name@, opt_text(description), now@, self@, r));
        r
    }

    /// Finds the group named `name`, or creates it as of `now` (see
    /// `find_or_create_group_outcome`).
    pub fn find_or_create_group_at(&mut self, name: &str, now: &str) -> (r: Result<i64, DbError>)
        requires
            old(self).wf(),
        ensures
            final(self).wf(),
            find_or_create_group_outcome(old(self)@, name@, now@, final(self)@, r),
    {
        let trimmed = trim_str(name);
        if trimmed.as_str().is_empty() {
            return Err(DbError::Validation("group name is required".to_owned()));
        }
        if let Some(i) = self.find_group_named(trimmed.as_str(), None) {
            proof {
                let gs = self@.groups;
                let t = trimmed@;
                assert(gs[i as int].name == t);
                assert(group_name_taken(gs, t, None));
                let k = choose|k: int| 0 <= k < gs.len() && #[trigger] gs[k].name == t;
                if k != i {
                    if k < i {
                        assert(gs[k].id < gs[i as int].id);
                    } else {
                        assert(gs[i as int].id < gs[k].id);
                    }
                }
            }
            return Ok(self.groups[i].id);
        }
        let r = self.create_group_at(trimmed.as_str(), None, now);
        proof {
            assert(trim(trimmed@) == trimmed@) by {
                crate::text::lemma_trim_idempotent(name@);
            }
        }
        match r {
            Ok(g) => Ok(g.id),
            Err(e) => Err(e),
        }
    }

    /// Finds the group named `name`, or creates it as of the current time
    /// (see `find_or_create_group_outcome`).
    pub fn find_or_create_group(&mut self, name: &str) -> (r: Result<i64, DbError>)
        requires
            old(self).wf(),
        ensures
            final(self).wf(),
            (exists|now: Seq<char>|
                (trim(name@).len() != 0 && !group_name_taken(old(self)@.groups, trim(name@), None) ==> clock_text(now))
                    && #[trigger] find_or_create_group_outcome(old(self)@, name@, now, final(self)@, r)) || (
            trim(name@).len() != 0 && !group_name_taken(old(self)@.groups, trim(name@), None) && final(self)@
                == old(self)@ && (r matches Err(DbError::Storage(m)) && m@ == clock_range_message())),
    {
        let trimmed = trim_str(name);
        if trimmed.as_str().is_empty() {
            let r = Err(DbError::Validation("group name is required".to_owned()));
            assert((trim(name@).len() != 0 && !group_name_taken(old(self)@.groups, trim(name@), None) ==> clock_text(
                Seq::empty(),
            )) && find_or_create_group_outcome(old(self)@, name@, Seq::empty(), self@, r));
            return r;
        }
        if self.find_group_named(trimmed.as_str(), None).is_some() {
            assert(group_name_taken(old(self)@.groups, trim(name@), None));
            let r = self.find_or_create_group_at(name, "");
            assert((trim(name@).len() != 0 && !group_name_taken(old(self)@.groups, trim(name@), None) ==> clock_text(
                ""@,
            )) && find_or_create_group_outcome(old(self)@, name@, ""@, self@, r));
            return r;
        }
        let now = match now_text() {
            Ok(t) => t,
            Err(e) => return Err(e),
        };
        let r = self.find_or_create_group_at(name, now.as_str());
        assert(clock_text(now@) && find_or_create_group_outcome(old(self)@, name@, now@, self@, r));
        r
    }

    /// Renames and redescribes the group `id` (see `update_group_outcome`).
    pub fn update_group(&mut self, id: i64, name: Option<&str>, description: Option<Option<&str>>) -> (r: Result<
        (),
        DbError,
    >)
        requires
            old(self).wf(),
        ensures
            final(self).wf(),
            update_group_outcome(
                old(self)@,
                id,
                match name {
                    Some(n) => Some(n@),
                    None => None,
                },
                match description {
                    Some(d) => Some(opt_text(d)),
                    None => None,
                },
                final(self)@,
                r,
            ),
    {
        let new_name = match name {
            Some(n) => {
                let t = trim_str(n);
                if t.as_str().is_empty() {
                    return Err(DbError::Validation("group name is required".to_owned()));
                }
                Some(t)
            },
            None => None,
        };
        let i = match self.find_group(id) {
            Some(i) => i,
            None => return Ok(()),
        };
        if let Some(t) = &new_name {
            if let Some(j) = self.find_group_named(t.as_str(), Some(id)) {
                assert(self@.groups[j as int].name == t@);
                return Err(DbError::Storage("UNIQUE constraint failed: grammar_groups.name".to_owned()));
            }
        }
        let ghost old_s = self@;
        let ghost old_groups = self@.groups;
        if let Some(t) = new_name {
            self.groups[i].name = t;
        }
        if let Some(d) = description {
            self.groups[i].description = opt_string(d);
        }
        proof {
            let s = self@;
            assert(s.groups =~= old_groups.update(i as int, s.groups[i as int]));
            assert forall|a: int, b: int| 0 <= a < b < s.groups.len() implies #[trigger] s.groups[a].id
                < #[trigger] s.groups[b].id && s.groups[a].name != s.groups[b].name by {
                assert(old_s.groups[a].id < old_s.groups[b].id);
                assert(old_s.groups[a].name != old_s.groups[b].name);
                if let Some(n) = name {
                    if a == i {
                        assert(!(old_groups[b].name == trim(n@) && Some(id) != Some(old_groups[b].id)));
                    }
                    if b == i {
                        assert(!(old_groups[a].name == trim(n@) && Some(id) != Some(old_groups[a].id)));
                    }
                }
            }
            assert forall|k: int| 0 <= k < s.groups.len() implies #[trigger] s.groups[k].sort_order == 0 by {
                assert(old_s.groups[k].sort_order == 0);
            }
            assert forall|k: int| 0 <= k < s.docs.len() implies (#[trigger] s.docs[k].group_id matches Some(x)
                ==> has_group(s.groups, x)) by {
                if let Some(x) = s.docs[k].group_id {
                    assert(has_group(old_groups, x));
                    let m = choose|m: int| 0 <= m < old_groups.len() && #[trigger] old_groups[m].id == x;
                    assert(s.groups[m].id == x);
                }
            }
        }
        Ok(())
    }

    /// Removes the group `id`; its documents stay, in no group (see
    /// `delete_group_outcome`).
    pub fn delete_group(&mut self, id: i64) -> (r: Result<(), DbError>)
        requires
            old(self).wf(),
        ensures
            final(self).wf(),
            r is Ok,
            delete_group_outcome(old(self)@, id, final(self)@),
    {
        let i = match self.find_group(id) {
            Some(i) => i,
            None => return Ok(()),
        };
        let ghost old_s = self@;
        let mut k: usize = 0;
        let ghost ug = ungroup_docs(old_s.docs, id);
        while k < self.docs.len()
            invariant
                k <= self.docs.len(),
                self.docs.len() == old_s.docs.len(),
                ug == ungroup_docs(old_s.docs, id),
                ug.len() == old_s.docs.len(),
                self@.groups == old_s.groups,
                self@.exercises == old_s.exercises,
                self.last_doc_id == old_s.last_doc_id,
                self.last_exercise_id == old_s.last_exercise_id,
                self.last_group_id == old_s.last_group_id,
                forall|j: int| 0 <= j < k ==> #[trigger] self.docs@[j]@ == ug[j],
                forall|j: int| k <= j < self.docs.len() ==> #[trigger] self.docs@[j]@ == old_s.docs[j],
            decreases self.docs.len() - k,
        {
            assert(self.docs@[k as int]@ == old_s.docs[k as int]);
            let ghost before = self.docs@[k as int]@;
            assert(ug[k as int] == if before.group_id == Some(id) {
                DocView { group_id: None, ..before }
            } else {
                before
            });
            let in_group = match self.docs[k].group_id {
                Some(g) => g == id,
                None => false,
            };
            if in_group {
                self.docs[k].group_id = None;
            }
            assert(self.docs@[k as int]@ == ug[k as int]);
            k += 1;
        }
        self.groups.remove(i);
        proof {
            let s = self@;
            assert(s.docs =~= ungroup_docs(old_s.docs, id));
            assert(s.groups =~= old_s.groups.remove(i as int));
            assert forall|a: int| 0 <= a < s.docs.len() implies (#[trigger] s.docs[a].group_id matches Some(x)
                ==> has_group(s.groups, x)) by {
                if let Some(x) = s.docs[a].group_id {
                    assert(old_s.docs[a].group_id == Some(x) && x != id);
                    assert(has_group(old_s.groups, x));
                    let m = choose|m: int| 0 <= m < old_s.groups.len() && #[trigger] old_s.groups[m].id == x;
                    if m < i {
                        assert(s.groups[m].id == x);
                    } else {
                        assert(m != i);
                        assert(s.groups[m - 1].id == x);
                    }
                }
            }
            assert forall|a: int| 0 <= a < s.exercises.len() implies has_doc(s.docs, #[trigger] s.exercises[a].doc_id) by {
                let x = s.exercises[a].doc_id;
                assert(has_doc(old_s.docs, x));
                let m = choose|m: int| 0 <= m < old_s.docs.len() && #[trigger] old_s.docs[m].id == x;
                assert(s.docs[m].id == x);
            }
        }
        Ok(())
    }

    /// Every group, ordered by sort order and then name, with the number of
    /// documents in it. All groups have sort order 0, so the order is by name.
    pub fn list_groups(&self) -> (r: Result<Vec<GrammarGroupSummary>, DbError>)
        requires
            self.wf(),
        ensures
            r matches Ok(v) && exists|ps: Seq<usize>|
                arranged_by_name(group_names(self@.groups), positions_below(self@.groups.len()), ps)
                    && group_summaries_view(v@) == ps.map_values(
                    |p: usize| group_summary_of(self@.groups[p as int], self@.docs),
                ),
    {
        let ghost gs = self@.groups;
        let ghost ds = self@.docs;
        let mut names: Vec<String> = Vec::new();
        let mut cands: Vec<usize> = Vec::new();
        let mut i: usize = 0;
        while i < self.groups.len()
            invariant
                i <= self.groups.len(),
                gs == self@.groups,
                gs.len() == self.groups.len(),
                names.len() == i,
                cands.len() == i,
                forall|j: int| 0 <= j < i ==> #[trigger] names@[j]@ == gs[j].name,
                forall|j: int| 0 <= j < i ==> #[trigger] cands@[j] == j,
            decreases self.groups.len() - i,
        {
            assert(gs[i as int] == self.groups@[i as int]@);
            names.push(self.groups[i].name.clone());
            cands.push(i);
            i += 1;
        }
        proof {
            assert(strs(names@) =~= group_names(gs));
            assert(cands@.no_duplicates());
            assert(cands@.to_set() =~= positions_below(gs.len())) by {
                assert forall|x: usize| cands@.to_set().contains(x) <==> positions_below(gs.len()).contains(x) by {
                    if x < gs.len() {
                        assert(cands@[x as int] == x);
                    }
                }
            }
        }
        let ps = arrange_by_name(&names, &cands);
        let mut out: Vec<GrammarGroupSummary> = Vec::new();
        let mut k: usize = 0;
        while k < ps.len()
            invariant
                k <= ps.len(),
                gs == self@.groups,
                ds == self@.docs,
                gs.len() == self.groups.len(),
                forall|m: int| 0 <= m < ps.len() ==> #[trigger] ps@[m] < gs.len(),
                out.len() == k,
                forall|m: int| 0 <= m < k ==> #[trigger] out@[m]@ == group_summary_of(gs[ps@[m] as int], ds),
            decreases ps.len() - k,
        {
            let p = ps[k];
            assert(ps@[k as int] < gs.len());
            assert(gs[p as int] == self.groups@[p as int]@);
            let g = &self.groups[p];
            let n = self.count_docs_in_group(g.id);
            out.push(
                GrammarGroupSummary {
                    id: g.id,
                    name: g.name.clone(),
                    description: copy_opt(&g.description),
                    sort_order: g.sort_order,
                    doc_count: n,
                    created_at: g.created_at.clone(),
                },
            );
            k += 1;
        }
        assert(group_summaries_view(out@) =~= ps@.map_values(|p: usize| group_summary_of(gs[p as int], ds)));
        Ok(out)
    }

    /// The number of documents in group `g`.
    fn count_docs_in_group(&self, g: i64) -> (r: usize)
        ensures
            r == docs_in_group(self@.docs, g),
    {
        let ghost ds = self@.docs;
        let mut n: usize = 0;
        let mut i: usize = 0;
        assert(ds.take(0) =~= Seq::<DocView>::empty());
        while i < self.docs.len()
            invariant
                i <= self.docs.len(),
                ds == self@.docs,
                ds.len() == self.docs.len(),
                n == docs_in_group(ds.take(i as int), g),
                n <= i,
            decreases self.docs.len() - i,
        {
            assert(ds.take(i + 1).drop_last() =~= ds.take(i as int));
            assert(ds[i as int] == self.docs@[i as int]@);
            if self.docs[i].group_id == Some(g) {
                n += 1;
            }
            i += 1;
        }
        assert(ds.take(i as int) =~= ds);
        n
    }

    /// Whether the group `g` is stored.
    fn group_exists(&self, g: i64) -> (r: bool)
        requires
            self.wf(),
        ensures
            r == has_group(self@.groups, g),
    {
        self.find_group(g).is_some()
    }

    /// The position of the document `id`.
    fn find_doc(&self, id: i64) -> (r: Option<usize>)
        requires
            self.wf(),
        ensures
            match r {
                Some(i) => i < self@.docs.len() && has_doc(self@.docs, id) && doc_at(self@.docs, id) == i,
                None => !has_doc(self@.docs, id),
            },
    {
        let ghost ds = self@.docs;
        let mut i: usize = 0;
        while i < self.docs.len()
            invariant
                i <= self.docs.len(),
                ds == self@.docs,
                self.wf(),
                forall|j: int| 0 <= j < i ==> #[trigger] ds[j].id != id,
            decreases self.docs.len() - i,
        {
            assert(ds[i as int] == self.docs@[i as int]@);
            if self.docs[i].id == id {
                proof {
                    assert(ds[i as int].id == id);
                    let k = doc_at(ds, id);
                    if k != i {
                        if k < i {
                            assert(ds[k].id != id);
                        } else {
                            assert(ds[i as int].id < ds[k].id);
                        }
                    }
                }
                return Some(i);
            }
            i += 1;
        }
        None
    }

    /// The position of the first document titled `title`.
    fn find_doc_titled(&self, title: &str) -> (r: Option<usize>)
        ensures
            match r {
                Some(i) => position_of(doc_titles(self@.docs), title@) == Some(i as int) && i < self@.docs.len(),
                None => position_of(doc_titles(self@.docs), title@) is None,
            },
    {
        let t = title.to_owned();
        let ghost ts = doc_titles(self@.docs);
        let mut i: usize = 0;
        assert(ts.take(0) =~= Seq::<Seq<char>>::empty());
        while i < self.docs.len()
            invariant
                i <= self.docs.len(),
                t@ == title@,
                ts == doc_titles(self@.docs),
                ts.len() == self.docs.len(),
                position_of(ts.take(i as int), title@) is None,
            decreases self.docs.len() - i,
        {
            assert(ts.take(i + 1).drop_last() =~= ts.take(i as int));
            assert(ts[i as int] == self.docs@[i as int].title@);
            if self.docs[i].title == t {
                assert(position_of(ts.take(i + 1), title@) == Some(i as int));
                proof {
                    lemma_position_prefix(ts, i as int + 1, title@);
                }
                return Some(i);
            }
            i += 1;
        }
        assert(ts.take(i as int) =~= ts);
        None
    }

    /// Appends the exercises of `items` for document `doc_id`, with the next
    /// identifiers.
    fn push_exercises(&mut self, doc_id: i64, items: &Vec<JsonValue>)
        requires
            0 <= old(self).last_exercise_id,
            old(self).last_exercise_id + items.len() <= i64::MAX,
        ensures
            final(self)@ == (GrammarStoreView {
                exercises: old(self)@.exercises + new_exercises(
                    doc_id,
                    old(self)@.last_exercise_id + 1,
                    jsons_view(items@),
                ),
                last_exercise_id: (old(self)@.last_exercise_id + items.len()) as i64,
                ..old(self)@
            }),
    {
        let ghost old_s = self@;
        let ghost fresh = new_exercises(doc_id, old_s.last_exercise_id + 1, jsons_view(items@));
        let base = self.last_exercise_id;
        let mut k: usize = 0;
        assert(old_s.exercises + fresh.take(0) =~= old_s.exercises);
        while k < items.len()
            invariant
                k <= items.len(),
                base == old_s.last_exercise_id,
                0 <= base,
                base + items.len() <= i64::MAX,
                fresh == new_exercises(doc_id, old_s.last_exercise_id + 1, jsons_view(items@)),
                fresh.len() == items.len(),
                self@.docs == old_s.docs,
                self@.groups == old_s.groups,
                self.last_doc_id == old_s.last_doc_id,
                self.last_group_id == old_s.last_group_id,
                self.last_exercise_id == base + k,
                self@.exercises == old_s.exercises + fresh.take(k as int),
            decreases items.len() - k,
        {
            let ghost before = self@.exercises;
            let id = base + 1 + k as i64;
            let e = GrammarExercise {
                id,
                doc_id,
                order_index: k as i32,
                exercise_type: exercise_type(&items[k]),
                data: copy_json(&items[k]),
            };
            self.exercises.push(e);
            self.last_exercise_id = id;
            proof {
                assert(jsons_view(items@)[k as int] == items@[k as int]@);
                assert(e@ == fresh[k as int]);
                assert(self@.exercises =~= before.push(e@));
                assert(old_s.exercises + fresh.take(k + 1) =~= (old_s.exercises + fresh.take(k as int)).push(fresh[k as int]));
            }
            k += 1;
        }
        assert(fresh.take(k as int) =~= fresh);
    }

    /// Drops the exercises of document `doc_id`.
    fn remove_exercises_of(&mut self, doc_id: i64)
        ensures
            final(self)@ == (GrammarStoreView {
                exercises: exercises_not_of(old(self)@.exercises, doc_id),
                ..old(self)@
            }),
    {
        let ghost exs = self@.exercises;
        let mut out: Vec<GrammarExercise> = Vec::new();
        let mut i: usize = 0;
        assert(exs.take(0) =~= Seq::<ExerciseView>::empty());
        while i < self.exercises.len()
            invariant
                i <= self.exercises.len(),
                exs == self@.exercises,
                exs.len() == self.exercises.len(),
                exercises_view(out@) == exercises_not_of(exs.take(i as int), doc_id),
            decreases self.exercises.len() - i,
        {
            assert(exs.take(i + 1).drop_last() =~= exs.take(i as int));
            assert(exs[i as int] == self.exercises@[i as int]@);
            if self.exercises[i].doc_id != doc_id {
                let ghost before = exercises_view(out@);
                let e = copy_exercise(&self.exercises[i]);
                out.push(e);
                assert(exercises_view(out@) =~= before.push(e@));
            }
            i += 1;
        }
        assert(exs.take(i as int) =~= exs);
        self.exercises = out;
        assert(self@.exercises =~= exercises_view(out@));
    }

    /// Adds `input` as a new document (see `with_new_doc`).
    fn add_doc(&mut self, input: &GrammarDocInput, group_id: Option<i64>, now: &str) -> (id: i64)
        requires
            old(self).wf(),
            !group_missing(old(self)@, group_id),
            old(self)@.last_doc_id < i64::MAX,
            !exercise_ids_short(old(self)@, input.exercises.len() as nat),
        ensures
            final(self).wf(),
            final(self)@ == with_new_doc(old(self)@, input@, group_id, now@),
            id == old(self)@.last_doc_id + 1,
    {
        let ghost old_s = self@;
        let id = self.last_doc_id + 1;
        let d = GrammarDoc {
            id,
            title: input.title.clone(),
            category: copy_opt(&input.category),
            level: copy_opt(&input.level),
            content: input.content.clone(),
            examples: copy_strings(&input.examples),
            group_id,
            created_at: now.to_owned(),
        };
        let ghost dv = d@;
        self.docs.push(d);
        self.last_doc_id = id;
        assert(self@.docs =~= old_s.docs.push(dv));
        self.push_exercises(id, &input.exercises);
        proof {
            let s = self@;
            let fresh = new_exercises(id, old_s.last_exercise_id + 1, jsons_view(input.exercises@));
            assert(s == with_new_doc(old_s, input@, group_id, now@));
            assert forall|i: int| 0 <= i < s.docs.len() implies 0 < #[trigger] s.docs[i].id <= s.last_doc_id by {
                if i < old_s.docs.len() {
                    assert(old_s.docs[i].id <= old_s.last_doc_id);
                }
            }
            assert forall|i: int, j: int| 0 <= i < j < s.docs.len() implies #[trigger] s.docs[i].id
                < #[trigger] s.docs[j].id by {
                assert(old_s.docs[i].id <= old_s.last_doc_id);
                if j < old_s.docs.len() {
                    assert(old_s.docs[i].id < old_s.docs[j].id);
                }
            }
            assert forall|i: int| 0 <= i < s.exercises.len() implies 0 < #[trigger] s.exercises[i].id
                <= s.last_exercise_id by {
                if i < old_s.exercises.len() {
                    assert(old_s.exercises[i].id <= old_s.last_exercise_id);
                } else {
                    assert(s.exercises[i] == fresh[i - old_s.exercises.len()]);
                }
            }
            assert forall|i: int| 0 <= i < s.docs.len() implies (#[trigger] s.docs[i].group_id matches Some(g)
                ==> has_group(s.groups, g)) by {
                if i < old_s.docs.len() {
                    assert(old_s.docs[i].group_id == s.docs[i].group_id);
                }
            }
            assert forall|i: int| 0 <= i < s.exercises.len() implies has_doc(s.docs, #[trigger] s.exercises[i].doc_id) by {
                if i < old_s.exercises.len() {
                    let x = old_s.exercises[i].doc_id;
                    assert(has_doc(old_s.docs, x));
                    let m = choose|m: int| 0 <= m < old_s.docs.len() && #[trigger] old_s.docs[m].id == x;
                    assert(s.docs[m].id == x);
                } else {
                    assert(s.exercises[i] == fresh[i - old_s.exercises.len()]);
                    assert(s.docs[old_s.docs.len() as int].id == id);
                }
            }
            assert forall|i: int| 0 <= i < s.groups.len() implies #[trigger] s.groups[i].sort_order == 0 by {
                assert(old_s.groups[i].sort_order == 0);
            }
            assert forall|i: int| 0 <= i < s.groups.len() implies 0 < #[trigger] s.groups[i].id <= s.last_group_id by {
                assert(old_s.groups[i].id <= old_s.last_group_id);
            }
            assert forall|i: int, j: int| 0 <= i < j < s.groups.len() implies #[trigger] s.groups[i].id
                < #[trigger] s.groups[j].id && s.groups[i].name != s.groups[j].name by {
                assert(old_s.groups[i].id < old_s.groups[j].id);
            }
        }
        id
    }

    /// Adds a document as of `now` (see `insert_doc_outcome`).
    pub fn insert_doc_at(&mut self, input: &GrammarDocInput, group_id: Option<i64>, now: &str) -> (r: Result<
        i64,
        DbError,
    >)
        requires
            old(self).wf(),
        ensures
            final(self).wf(),
            insert_doc_outcome(old(self)@, input@, group_id, now@, final(self)@, r),
    {
        if let Some(g) = group_id {
            if !self.group_exists(g) {
                return Err(DbError::Storage("FOREIGN KEY constraint failed".to_owned()));
            }
        }
        if self.last_doc_id == i64::MAX || (input.exercises.len() as u64) > ((i64::MAX - self.last_exercise_id) as u64) {
            return Err(DbError::Storage("database or disk is full".to_owned()));
        }
        let id = self.add_doc(input, group_id, now);
        Ok(id)
    }

    /// Adds a document as of the current time (see `insert_doc_outcome`).
    pub fn insert_doc(&mut self, input: &GrammarDocInput, group_id: Option<i64>) -> (r: Result<i64, DbError>)
        requires
            old(self).wf(),
        ensures
            final(self).wf(),
            (exists|now: Seq<char>| clock_text(now) && #[trigger] insert_doc_outcome(old(self)@, input@, group_id, now, final(self)@, r)) || (
            final(self)@ == old(self)@ && (r matches Err(DbError::Storage(m)) && m@ == clock_range_message())),
    {
        let now = match now_text() {
            Ok(t) => t,
            Err(e) => return Err(e),
        };
        let r = self.insert_doc_at(input, group_id, now.as_str());
        assert(insert_doc_outcome(old(self)@, input@, group_id, now@, self@, r));
        r
    }

    /// Stores a document as of `now` (see `upsert_doc_outcome`).
    pub fn upsert_doc_at(&mut self, input: &GrammarDocInput, group_id: Option<i64>, now: &str) -> (r: Result<
        GrammarDocUpsertResult,
        DbError,
    >)
        requires
            old(self).wf(),
        ensures
            final(self).wf(),
            upsert_doc_outcome(old(self)@, input@, group_id, now@, final(self)@, r),
    {
        if let Some(g) = group_id {
            if !self.group_exists(g) {
                return Err(DbError::Storage("FOREIGN KEY constraint failed".to_owned()));
            }
        }
        let short = (input.exercises.len() as u64) > ((i64::MAX - self.last_exercise_id) as u64);
        match self.find_doc_titled(input.title.as_str()) {
            Some(i) => {
                if short {
                    return Err(DbError::Storage("database or disk is full".to_owned()));
                }
                let ghost old_s = self@;
                proof {
                    lemma_position_of(doc_titles(old_s.docs), input@.title);
                }
                let id = self.docs[i].id;
                self.docs[i].category = copy_opt(&input.category);
                self.docs[i].level = copy_opt(&input.level);
                self.docs[i].content = input.content.clone();
                self.docs[i].examples = copy_strings(&input.examples);
                self.docs[i].group_id = group_id;
                let ghost d = old_s.docs[i as int];
                let ghost d2 = DocView {
                    category: input@.category,
                    level: input@.level,
                    content: input@.content,
                    examples: input@.examples,
                    group_id,
                    ..d
                };
                assert(self@.docs =~= old_s.docs.update(i as int, d2));
                self.remove_exercises_of(id);
                self.push_exercises(id, &input.exercises);
                proof {
                    let s = self@;
                    let kept = exercises_not_of(old_s.exercises, id);
                    let fresh = new_exercises(id, old_s.last_exercise_id + 1, jsons_view(input.exercises@));
                    lemma_exercises_not_of(old_s.exercises, id);
                    assert(s.exercises == kept + fresh);
                    assert forall|a: int| 0 <= a < s.docs.len() implies 0 < #[trigger] s.docs[a].id <= s.last_doc_id by {
                        assert(old_s.docs[a].id <= old_s.last_doc_id);
                    }
                    assert forall|a: int, b: int| 0 <= a < b < s.docs.len() implies #[trigger] s.docs[a].id
                        < #[trigger] s.docs[b].id by {
                        assert(old_s.docs[a].id < old_s.docs[b].id);
                    }
                    assert forall|a: int| 0 <= a < s.exercises.len() implies 0 < #[trigger] s.exercises[a].id
                        <= s.last_exercise_id by {
                        if a < kept.len() {
                            assert(s.exercises[a] == kept[a]);
                            let j = choose|j: int| 0 <= j < old_s.exercises.len() && old_s.exercises[j] == kept[a];
                            assert(old_s.exercises[j].id <= old_s.last_exercise_id);
                        } else {
                            assert(s.exercises[a] == fresh[a - kept.len()]);
                        }
                    }
                    assert forall|a: int| 0 <= a < s.docs.len() implies (#[trigger] s.docs[a].group_id matches Some(g)
                        ==> has_group(s.groups, g)) by {
                        if a != i {
                            assert(old_s.docs[a].group_id == s.docs[a].group_id);
                        }
                    }
                    assert forall|a: int| 0 <= a < s.exercises.len() implies has_doc(s.docs, #[trigger] s.exercises[a].doc_id) by {
                        if a < kept.len() {
                            assert(s.exercises[a] == kept[a]);
                            let j = choose|j: int| 0 <= j < old_s.exercises.len() && old_s.exercises[j] == kept[a];
                            let x = old_s.exercises[j].doc_id;
                            assert(has_doc(old_s.docs, x));
                            let m = choose|m: int| 0 <= m < old_s.docs.len() && #[trigger] old_s.docs[m].id == x;
                            assert(s.docs[m].id == x);
                        } else {
                            assert(s.exercises[a] == fresh[a - kept.len()]);
                            assert(s.docs[i as int].id == id);
                        }
                    }
                    assert forall|a: int| 0 <= a < s.groups.len() implies #[trigger] s.groups[a].sort_order == 0 by {
                        assert(old_s.groups[a].sort_order == 0);
                    }
                    assert forall|a: int| 0 <= a < s.groups.len() implies 0 < #[trigger] s.groups[a].id <= s.last_group_id by {
                        assert(old_s.groups[a].id <= old_s.last_group_id);
                    }
                    assert forall|a: int, b: int| 0 <= a < b < s.groups.len() implies #[trigger] s.groups[a].id
                        < #[trigger] s.groups[b].id && s.groups[a].name != s.groups[b].name by {
                        assert(old_s.groups[a].id < old_s.groups[b].id);
                    }
                }
                Ok(GrammarDocUpsertResult { id, inserted: false })
            },
            None => {
                if self.last_doc_id == i64::MAX || short {
                    return Err(DbError::Storage("database or disk is full".to_owned()));
                }
                let id = self.add_doc(input, group_id, now);
                Ok(GrammarDocUpsertResult { id, inserted: true })
            },
        }
    }

    /// Stores a document as of the current time (see `upsert_doc_outcome`).
    pub fn upsert_doc(&mut self, input: &GrammarDocInput, group_id: Option<i64>) -> (r: Result<
        GrammarDocUpsertResult,
        DbError,
    >)
        requires
            old(self).wf(),
        ensures
            final(self).wf(),
            (exists|now: Seq<char>| clock_text(now) && #[trigger] upsert_doc_outcome(old(self)@, input@, group_id, now, final(self)@, r)) || (
            final(self)@ == old(self)@ && (r matches Err(DbError::Storage(m)) && m@ == clock_range_message())),
    {
        let now = match now_text() {
            Ok(t) => t,
            Err(e) => return Err(e),
        };
        let r = self.upsert_doc_at(input, group_id, now.as_str());
        assert(upsert_doc_outcome(old(self)@, input@, group_id, now@, self@, r));
        r
    }

    /// Removes the document `id` and its exercises (see `delete_doc_outcome`).
    #[verifier::spinoff_prover]
    pub fn delete_doc(&mut self, id: i64) -> (r: Result<(), DbError>)
        requires
            old(self).wf(),
        ensures
            final(self).wf(),
            r is Ok,
            delete_doc_outcome(old(self)@, id, final(self)@),
    {
        let i = match self.find_doc(id) {
            Some(i) => i,
            None => return Ok(()),
        };
        let ghost old_s = self@;
        self.docs.remove(i);
        assert(self@.docs =~= old_s.docs.remove(i as int));
        self.remove_exercises_of(id);
        proof {
            let s = self@;
            lemma_exercises_not_of(old_s.exercises, id);
            assert forall|a: int| 0 <= a < s.docs.len() implies 0 < #[trigger] s.docs[a].id <= s.last_doc_id by {
                if a < i {
                    assert(old_s.docs[a].id <= old_s.last_doc_id);
                } else {
                    assert(old_s.docs[a + 1].id <= old_s.last_doc_id);
                }
            }
            assert forall|a: int, b: int| 0 <= a < b < s.docs.len() implies #[trigger] s.docs[a].id
                < #[trigger] s.docs[b].id by {
                let a0 = if a < i { a } else { a + 1 };
                let b0 = if b < i { b } else { b + 1 };
                assert(old_s.docs[a0].id < old_s.docs[b0].id);
            }
            assert forall|a: int| 0 <= a < s.exercises.len() implies 0 < #[trigger] s.exercises[a].id
                <= s.last_exercise_id by {
                let j = choose|j: int| 0 <= j < old_s.exercises.len() && old_s.exercises[j] == s.exercises[a];
                assert(old_s.exercises[j].id <= old_s.last_exercise_id);
            }
            assert forall|a: int| 0 <= a < s.docs.len() implies (#[trigger] s.docs[a].group_id matches Some(g)
                ==> has_group(s.groups, g)) by {
                let a0 = if a < i { a } else { a + 1 };
                assert(old_s.docs[a0].group_id == s.docs[a].group_id);
            }
            assert forall|a: int| 0 <= a < s.exercises.len() implies has_doc(s.docs, #[trigger] s.exercises[a].doc_id) by {
                let j = choose|j: int| 0 <= j < old_s.exercises.len() && old_s.exercises[j] == s.exercises[a];
                let x = old_s.exercises[j].doc_id;
                assert(x != id);
                assert(has_doc(old_s.docs, x));
                let m = choose|m: int| 0 <= m < old_s.docs.len() && #[trigger] old_s.docs[m].id == x;
                assert(m != i);
                if m < i {
                    assert(s.docs[m].id == x);
                } else {
                    assert(s.docs[m - 1].id == x);
                }
            }
            assert forall|a: int| 0 <= a < s.groups.len() implies #[trigger] s.groups[a].sort_order == 0 by {
                assert(old_s.groups[a].sort_order == 0);
            }
            assert forall|a: int| 0 <= a < s.groups.len() implies 0 < #[trigger] s.groups[a].id <= s.last_group_id by {
                assert(old_s.groups[a].id <= old_s.last_group_id);
            }
            assert forall|a: int, b: int| 0 <= a < b < s.groups.len() implies #[trigger] s.groups[a].id
                < #[trigger] s.groups[b].id && s.groups[a].name != s.groups[b].name by {
                assert(old_s.groups[a].id < old_s.groups[b].id);
            }
            assert(grammar_store_wf(s));
        }
        Ok(())
    }

    /// Puts the document `doc_id` in group `group_id`, or in none (see
    /// `move_doc_outcome`).
    pub fn move_doc(&mut self, doc_id: i64, group_id: Option<i64>) -> (r: Result<(), DbError>)
        requires
            old(self).wf(),
        ensures
            final(self).wf(),
            move_doc_outcome(old(self)@, doc_id, group_id, final(self)@, r),
    {
        let i = match self.find_doc(doc_id) {
            Some(i) => i,
            None => return Ok(()),
        };
        if let Some(g) = group_id {
            if !self.group_exists(g) {
                return Err(DbError::Storage("FOREIGN KEY constraint failed".to_owned()));
            }
        }
        let ghost old_s = self@;
        self.docs[i].group_id = group_id;
        proof {
            let s = self@;
            assert(s.docs =~= old_s.docs.update(i as int, DocView { group_id, ..old_s.docs[i as int] }));
            assert forall|a: int| 0 <= a < s.docs.len() implies 0 < #[trigger] s.docs[a].id <= s.last_doc_id by {
                assert(old_s.docs[a].id <= old_s.last_doc_id);
            }
            assert forall|a: int, b: int| 0 <= a < b < s.docs.len() implies #[trigger] s.docs[a].id
                < #[trigger] s.docs[b].id by {
                assert(old_s.docs[a].id < old_s.docs[b].id);
            }
            assert forall|a: int| 0 <= a < s.docs.len() implies (#[trigger] s.docs[a].group_id matches Some(g)
                ==> has_group(s.groups, g)) by {
                if a != i {
                    assert(old_s.docs[a].group_id == s.docs[a].group_id);
                }
            }
            assert forall|a: int| 0 <= a < s.exercises.len() implies has_doc(s.docs, #[trigger] s.exercises[a].doc_id) by {
                let x = old_s.exercises[a].doc_id;
                assert(has_doc(old_s.docs, x));
                let m = choose|m: int| 0 <= m < old_s.docs.len() && #[trigger] old_s.docs[m].id == x;
                assert(s.docs[m].id == x);
            }
            assert forall|a: int| 0 <= a < s.exercises.len() implies 0 < #[trigger] s.exercises[a].id
                <= s.last_exercise_id by {
                assert(old_s.exercises[a].id <= old_s.last_exercise_id);
            }
            assert forall|a: int| 0 <= a < s.groups.len() implies #[trigger] s.groups[a].sort_order == 0 by {
                assert(old_s.groups[a].sort_order == 0);
            }
            assert forall|a: int| 0 <= a < s.groups.len() implies 0 < #[trigger] s.groups[a].id <= s.last_group_id by {
                assert(old_s.groups[a].id <= old_s.last_group_id);
            }
            assert forall|a: int, b: int| 0 <= a < b < s.groups.len() implies #[trigger] s.groups[a].id
                < #[trigger] s.groups[b].id && s.groups[a].name != s.groups[b].name by {
                assert(old_s.groups[a].id < old_s.groups[b].id);
            }
        }
        Ok(())
    }

    /// The number of exercises of document `d`.
    fn count_exercises(&self, d: i64) -> (r: usize)
        ensures
            r == exercises_of(self@.exercises, d).len(),
    {
        let ghost exs = self@.exercises;
        let mut n: usize = 0;
        let mut i: usize = 0;
        assert(exs.take(0) =~= Seq::<ExerciseView>::empty());
        while i < self.exercises.len()
            invariant
                i <= self.exercises.len(),
                exs == self@.exercises,
                exs.len() == self.exercises.len(),
                n == exercises_of(exs.take(i as int), d).len(),
                n <= i,
            decreases self.exercises.len() - i,
        {
            assert(exs.take(i + 1).drop_last() =~= exs.take(i as int));
            assert(exs[i as int] == self.exercises@[i as int]@);
            if self.exercises[i].doc_id == d {
                n += 1;
            }
            i += 1;
        }
        assert(exs.take(i as int) =~= exs);
        n
    }

    /// Every document, newest first, with the number of its exercises in
    /// place of its content; documents created at the same time keep their
    /// storage order.
    pub fn list_docs(&self) -> (r: Result<Vec<GrammarDocSummary>, DbError>)
        ensures
            r matches Ok(v) && exists|ps: Seq<usize>|
                listed_newest_first(self@.docs, ps) && doc_summaries_view(v@) == ps.map_values(
                    |p: usize| doc_summary_of(self@.docs[p as int], self@.exercises),
                ),
    {
        let ghost ds = self@.docs;
        let ghost exs = self@.exercises;
        let mut keys: Vec<SortKey> = Vec::new();
        let mut cands: Vec<usize> = Vec::new();
        let mut i: usize = 0;
        while i < self.docs.len()
            invariant
                i <= self.docs.len(),
                ds == self@.docs,
                ds.len() == self.docs.len(),
                keys.len() == i,
                cands.len() == i,
                forall|j: int| 0 <= j < i ==> (#[trigger] keys@[j] matches SortKey::TextDesc(Some(t)) && t@
                    == ds[j].created_at),
                forall|j: int| 0 <= j < i ==> #[trigger] cands@[j] == j,
            decreases self.docs.len() - i,
        {
            assert(ds[i as int] == self.docs@[i as int]@);
            keys.push(SortKey::TextDesc(Some(self.docs[i].created_at.clone())));
            cands.push(i);
            i += 1;
        }
        proof {
            assert(cands@.no_duplicates());
        }
        let ps = sort_positions(&keys, &cands);
        proof {
            assert(cands@.to_set() =~= positions_below(ds.len())) by {
                assert forall|x: usize| cands@.to_set().contains(x) <==> positions_below(ds.len()).contains(x) by {
                    if x < ds.len() {
                        assert(cands@[x as int] == x);
                    }
                }
            }
            assert forall|k: int| 0 <= k < ps.len() implies #[trigger] ps@[k] < ds.len() by {
                assert(ps@.to_set().contains(ps@[k]));
            }
            assert forall|a: int, b: int| 0 <= a < b < ps.len() implies created_later(
                ds,
                #[trigger] ps@[a] as int,
                #[trigger] ps@[b] as int,
            ) by {
                let x = ps@[a] as int;
                let y = ps@[b] as int;
                assert(ps@.to_set().contains(ps@[a]));
                assert(ps@.to_set().contains(ps@[b]));
                assert(precedes(keys@, x, y));
                assert(keys@[x] matches SortKey::TextDesc(Some(t)) && t@ == ds[x].created_at);
                assert(keys@[y] matches SortKey::TextDesc(Some(t)) && t@ == ds[y].created_at);
            }
        }
        let mut out: Vec<GrammarDocSummary> = Vec::new();
        let mut k: usize = 0;
        while k < ps.len()
            invariant
                k <= ps.len(),
                ds == self@.docs,
                exs == self@.exercises,
                ds.len() == self.docs.len(),
                forall|m: int| 0 <= m < ps.len() ==> #[trigger] ps@[m] < ds.len(),
                out.len() == k,
                forall|m: int| 0 <= m < k ==> #[trigger] out@[m]@ == doc_summary_of(ds[ps@[m] as int], exs),
            decreases ps.len() - k,
        {
            let p = ps[k];
            assert(ps@[k as int] < ds.len());
            assert(ds[p as int] == self.docs@[p as int]@);
            let d = &self.docs[p];
            let n = self.count_exercises(d.id);
            out.push(
                GrammarDocSummary {
                    id: d.id,
                    title: d.title.clone(),
                    category: copy_opt(&d.category),
                    level: copy_opt(&d.level),
                    exercise_count: n,
                    group_id: d.group_id,
                    created_at: d.created_at.clone(),
                },
            );
            k += 1;
        }
        assert(doc_summaries_view(out@) =~= ps@.map_values(|p: usize| doc_summary_of(ds[p as int], exs)));
        assert(listed_newest_first(ds, ps@));
        Ok(out)
    }

    /// The document `id` with its exercises, in the order they were stored.
    pub fn get_doc_with_exercises(&self, id: i64) -> (r: Result<Option<GrammarDocDetail>, DbError>)
        requires
            self.wf(),
        ensures
            r matches Ok(o) && match o {
                Some(d) => has_doc(self@.docs, id) && d.doc@ == self@.docs[doc_at(self@.docs, id)]
                    && exercises_view(d.exercises@) == exercises_of(self@.exercises, id),
                None => !has_doc(self@.docs, id),
            },
    {
        let i = match self.find_doc(id) {
            Some(i) => i,
            None => return Ok(None),
        };
        assert(self@.docs[i as int] == self.docs@[i as int]@);
        let doc = copy_doc(&self.docs[i]);
        let ghost exs = self@.exercises;
        let mut out: Vec<GrammarExercise> = Vec::new();
        let mut k: usize = 0;
        assert(exs.take(0) =~= Seq::<ExerciseView>::empty());
        while k < self.exercises.len()
            invariant
                k <= self.exercises.len(),
                exs == self@.exercises,
                exs.len() == self.exercises.len(),
                exercises_view(out@) == exercises_of(exs.take(k as int), id),
            decreases self.exercises.len() - k,
        {
            assert(exs.take(k + 1).drop_last() =~= exs.take(k as int));
            assert(exs[k as int] == self.exercises@[k as int]@);
            if self.exercises[k].doc_id == id {
                let ghost before = exercises_view(out@);
                let e = copy_exercise(&self.exercises[k]);
                out.push(e);
                assert(exercises_view(out@) =~= before.push(e@));
            }
            k += 1;
        }
        assert(exs.take(k as int) =~= exs);
        Ok(Some(GrammarDocDetail { doc, exercises: out }))
    }

}

} // verus!
