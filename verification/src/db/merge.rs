//! The merge policy applied when an incoming record meets a stored one.
//! Every function here is pure.
use vstd::prelude::*;
use crate::model::{copy_definitions, copy_opt, copy_strings, defs_view, opt_str, Definition, DefinitionView, Metadata, WordRecord, WordView};
use crate::order::{
    lemma_lex_lt_trans, lemma_lex_trichotomy, lex_le, lex_lt, sorted_strict, str_le, str_lt,
};
use crate::text::{is_blank, strs, trim, trim_str};
use crate::clock::{instant_before, parse_rfc3339, rfc3339_instant};

verus! {

/// `s` with every member that equals an earlier member removed.
pub open spec fn dedup(s: Seq<Seq<char>>) -> Seq<Seq<char>>
    decreases s.len(),
{
    if s.len() == 0 {
        Seq::<Seq<char>>::empty()
    } else {
        let r = dedup(s.drop_last());
        if r.contains(s.last()) {
            r
        } else {
            r.push(s.last())
        }
    }
}

/// The part of speech used to compare definitions: a missing one counts as empty.
pub open spec fn pos_key(p: Option<Seq<char>>) -> Seq<char> {
    match p {
        Some(s) => s,
        None => Seq::<char>::empty(),
    }
}

/// Two definitions are duplicates when their parts of speech (missing =
/// empty) and their meanings are equal once trimmed; case counts.
pub open spec fn same_def(a: DefinitionView, b: DefinitionView) -> bool {
    trim(pos_key(a.pos)) == trim(pos_key(b.pos)) && trim(a.meaning) == trim(b.meaning)
}

/// Whether `s` holds a duplicate of `d`.
pub open spec fn has_def(s: Seq<DefinitionView>, d: DefinitionView) -> bool {
    exists|k: int| 0 <= k < s.len() && same_def(#[trigger] s[k], d)
}

/// `s` with every definition that duplicates an earlier one removed.
pub open spec fn dedup_defs(s: Seq<DefinitionView>) -> Seq<DefinitionView>
    decreases s.len(),
{
    if s.len() == 0 {
        Seq::<DefinitionView>::empty()
    } else {
        let r = dedup_defs(s.drop_last());
        if has_def(r, s.last()) {
            r
        } else {
            r.push(s.last())
        }
    }
}

/// The phonetic kept by a merge: the incoming one when it is present and not
/// blank, else the stored one.
pub open spec fn merged_phonetic(old: Option<Seq<char>>, new: Option<Seq<char>>) -> Option<
    Seq<char>,
> {
    match new {
        Some(n) => if trim(n).len() > 0 {
            Some(n)
        } else {
            old
        },
        None => old,
    }
}

/// Whether creation time `a` is no later than `b`: as instants when both
/// are RFC 3339 text, else by text order.
pub open spec fn not_later(a: Seq<char>, b: Seq<char>) -> bool {
    match (rfc3339_instant(a), rfc3339_instant(b)) {
        (Some(x), Some(y)) => !instant_before(y, x),
        _ => lex_le(a, b),
    }
}

/// The creation time kept by a merge: the earlier instant of the two (the
/// stored one on a tie), by text order where either is not RFC 3339 text;
/// or whichever is present.
pub open spec fn merged_created_at(old: Option<Seq<char>>, new: Option<Seq<char>>) -> Option<
    Seq<char>,
> {
    match (old, new) {
        (Some(o), Some(n)) => if not_later(o, n) {
            Some(o)
        } else {
            Some(n)
        },
        (Some(o), None) => Some(o),
        (None, Some(n)) => Some(n),
        (None, None) => None,
    }
}

/// The review count kept by a merge: the larger.
pub open spec fn merged_review_count(old: u32, new: u32) -> u32 {
    if old >= new {
        old
    } else {
        new
    }
}

/// The tags kept by a merge: every tag of either side, once each, in
/// ascending order.
pub open spec fn is_merged_tags(r: Seq<Seq<char>>, old: Seq<Seq<char>>, new: Seq<Seq<char>>) -> bool {
    sorted_strict(r) && r.to_set() == (old + new).to_set()
}

/// The record that an upsert stores when `new` meets the stored `old`.
pub open spec fn is_merged_record(r: WordView, old: WordView, new: WordView) -> bool {
    &&& r.word == new.word
    &&& r.phonetic == merged_phonetic(old.phonetic, new.phonetic)
    &&& r.definitions == dedup_defs(old.definitions + new.definitions)
    &&& r.examples == dedup(old.examples + new.examples)
    &&& r.synonyms == dedup(old.synonyms + new.synonyms)
    &&& r.antonyms == dedup(old.antonyms + new.antonyms)
    &&& r.family_words == dedup(old.family_words + new.family_words)
    &&& is_merged_tags(r.metadata.tags, old.metadata.tags, new.metadata.tags)
    &&& r.metadata.created_at == merged_created_at(old.metadata.created_at, new.metadata.created_at)
    &&& r.metadata.review_count == merged_review_count(
        old.metadata.review_count,
        new.metadata.review_count,
    )
}

/// Merge two optional phonetic values: the incoming one is used when it is
/// present and not blank; otherwise the stored one is kept.
pub fn merge_phonetic(old: Option<String>, new: Option<String>) -> (r: Option<String>)
    ensures
        opt_str(r) == merged_phonetic(opt_str(old), opt_str(new)),
{
    if let Some(new_val) = new {
        if !is_blank(new_val.as_str()) {
            return Some(new_val);
        }
    }
    old
}

/// A part of speech trimmed, a missing one counting as empty.
fn pos_text(p: &Option<String>) -> (r: String)
    ensures
        r@ == trim(pos_key(opt_str(*p))),
{
    match p {
        Some(x) => trim_str(x.as_str()),
        None => {
            let e = String::new();
            trim_str(e.as_str())
        },
    }
}

/// Whether two optional parts of speech are equal once trimmed, a missing
/// one counting as empty.
fn same_pos(a: &Option<String>, b: &Option<String>) -> (r: bool)
    ensures
        r == (trim(pos_key(opt_str(*a))) == trim(pos_key(opt_str(*b)))),
{
    pos_text(a) == pos_text(b)
}

/// Whether `v` holds a duplicate of `d`.
fn contains_def(v: &Vec<Definition>, d: &Definition) -> (r: bool)
    ensures
        r == has_def(defs_view(v@), d@),
{
    let mut k: usize = 0;
    while k < v.len()
        invariant
            k <= v.len(),
            forall|j: int| 0 <= j < k ==> !same_def(#[trigger] defs_view(v@)[j], d@),
        decreases v.len() - k,
    {
        if same_pos(&v[k].pos, &d.pos) && trim_str(v[k].meaning.as_str()) == trim_str(d.meaning.as_str()) {
            assert(same_def(defs_view(v@)[k as int], d@));
            return true;
        }
        k += 1;
    }
    false
}

/// Whether `v` holds a string equal to `s`.
fn contains_str(v: &Vec<String>, s: &String) -> (r: bool)
    ensures
        r == strs(v@).contains(s@),
{
    let mut k: usize = 0;
    while k < v.len()
        invariant
            k <= v.len(),
            forall|j: int| 0 <= j < k ==> #[trigger] strs(v@)[j] != s@,
        decreases v.len() - k,
    {
        if v[k] == *s {
            assert(strs(v@)[k as int] == s@);
            return true;
        }
        k += 1;
    }
    false
}

/// `a` followed by `b`, each string copied.
fn concat_strings(a: &Vec<String>, b: &Vec<String>) -> (r: Vec<String>)
    ensures
        strs(r@) == strs(a@) + strs(b@),
{
    let mut r = copy_strings(a);
    let mut i: usize = 0;
    assert(strs(r@) =~= strs(a@) + strs(b@).take(0));
    while i < b.len()
        invariant
            i <= b.len(),
            strs(r@) == strs(a@) + strs(b@).take(i as int),
        decreases b.len() - i,
    {
        let ghost before = strs(r@);
        r.push(b[i].clone());
        assert(strs(r@) =~= before.push(b@[i as int]@));
        i += 1;
        assert(strs(b@).take(i as int) =~= strs(b@).take(i - 1).push(b@[i - 1]@));
        assert(strs(r@) =~= strs(a@) + strs(b@).take(i as int));
    }
    assert(strs(b@).take(i as int) =~= strs(b@));
    r
}

/// The strings of `s`, duplicates after the first occurrence removed.
fn dedup_strings(s: &Vec<String>) -> (r: Vec<String>)
    ensures
        strs(r@) == dedup(strs(s@)),
{
    let mut r: Vec<String> = Vec::new();
    let mut i: usize = 0;
    while i < s.len()
        invariant
            i <= s.len(),
            strs(r@) == dedup(strs(s@).take(i as int)),
        decreases s.len() - i,
    {
        assert(strs(s@).take(i + 1).drop_last() =~= strs(s@).take(i as int));
        if !contains_str(&r, &s[i]) {
            let ghost before = strs(r@);
            r.push(s[i].clone());
            assert(strs(r@) =~= before.push(s@[i as int]@));
        }
        i += 1;
    }
    assert(strs(s@).take(i as int) =~= strs(s@));
    r
}

/// Merge two lists of definitions: both lists in order, and a definition
/// that duplicates an earlier one (same part of speech, missing = empty, and
/// same meaning, both compared trimmed and case-sensitively) dropped.
pub fn merge_definitions(old: Vec<Definition>, new: Vec<Definition>) -> (r: Vec<Definition>)
    ensures
        defs_view(r@) == dedup_defs(defs_view(old@) + defs_view(new@)),
{
    let mut every = copy_definitions(&old);
    let mut j: usize = 0;
    assert(defs_view(every@) =~= defs_view(old@) + defs_view(new@).take(0));
    while j < new.len()
        invariant
            j <= new.len(),
            defs_view(every@) == defs_view(old@) + defs_view(new@).take(j as int),
        decreases new.len() - j,
    {
        let ghost before = defs_view(every@);
        every.push(new[j].copy());
        assert(defs_view(every@) =~= before.push(new@[j as int]@));
        j += 1;
        assert(defs_view(new@).take(j as int) =~= defs_view(new@).take(j - 1).push(new@[j - 1]@));
    }
    assert(defs_view(new@).take(j as int) =~= defs_view(new@));
    let ghost all = defs_view(every@);
    let mut r: Vec<Definition> = Vec::new();
    let mut i: usize = 0;
    while i < every.len()
        invariant
            i <= every.len(),
            all == defs_view(every@),
            defs_view(r@) == dedup_defs(all.take(i as int)),
        decreases every.len() - i,
    {
        let d = &every[i];
        assert(d@ == all[i as int]);
        assert(all.take(i + 1).drop_last() =~= all.take(i as int));
        if !contains_def(&r, d) {
            let ghost before = defs_view(r@);
            r.push(d.copy());
            assert(defs_view(r@) =~= before.push(all[i as int]));
        }
        i += 1;
    }
    assert(all.take(i as int) =~= all);
    r
}

/// Merge two lists of examples: both lists in order, exact duplicates after
/// the first occurrence dropped.
pub fn merge_examples(old: Vec<String>, new: Vec<String>) -> (r: Vec<String>)
    ensures
        strs(r@) == dedup(strs(old@) + strs(new@)),
{
    let all = concat_strings(&old, &new);
    dedup_strings(&all)
}

/// Merge two lists of strings: both lists in order, exact duplicates after
/// the first occurrence dropped (no sorting).
pub fn merge_string_vec(old: Vec<String>, new: Vec<String>) -> (r: Vec<String>)
    ensures
        strs(r@) == dedup(strs(old@) + strs(new@)),
{
    let all = concat_strings(&old, &new);
    dedup_strings(&all)
}

proof fn lemma_push_to_set(s: Seq<Seq<char>>, x: Seq<char>)
    ensures
        s.push(x).to_set() == s.to_set().insert(x),
{
    assert forall|z: Seq<char>| s.push(x).to_set().contains(z) <==> s.to_set().insert(x).contains(
        z,
    ) by {
        if s.push(x).to_set().contains(z) {
            let i = choose|i: int| 0 <= i < s.push(x).len() && s.push(x)[i] == z;
            if i < s.len() {
                assert(s[i] == z);
            }
        }
        if s.to_set().contains(z) {
            let i = choose|i: int| 0 <= i < s.len() && s[i] == z;
            assert(s.push(x)[i] == z);
        }
        if z == x {
            assert(s.push(x)[s.len() as int] == z);
        }
    }
    assert(s.push(x).to_set() =~= s.to_set().insert(x));
}

/// Insert `x` into the strictly sorted `v` unless it is already there.
fn insert_sorted(v: &mut Vec<String>, x: &String)
    requires
        sorted_strict(strs(old(v)@)),
    ensures
        sorted_strict(strs(final(v)@)),
        strs(final(v)@).to_set() == strs(old(v)@).to_set().insert(x@),
{
    let ghost s0 = strs(v@);
    let mut k: usize = 0;
    while k < v.len() && !str_lt(x.as_str(), v[k].as_str())
        invariant
            k <= v.len(),
            v@ == old(v)@,
            s0 == strs(v@),
            sorted_strict(s0),
            forall|m: int| 0 <= m < k ==> lex_lt(#[trigger] s0[m], x@),
        decreases v.len() - k,
    {
        if v[k] == *x {
            assert(s0[k as int] == x@);
            assert(s0.to_set().insert(x@) =~= s0.to_set());
            return;
        }
        proof {
            lemma_lex_trichotomy(x@, s0[k as int]);
        }
        k += 1;
    }
    // Every member from position k on comes after x.
    assert forall|m: int| k <= m < s0.len() implies lex_lt(x@, #[trigger] s0[m]) by {
        assert(lex_lt(x@, s0[k as int]));
        if m > k {
            assert(lex_lt(s0[k as int], s0[m]));
            lemma_lex_lt_trans(x@, s0[k as int], s0[m]);
        }
    }
    v.insert(k, x.clone());
    let ghost s1 = strs(v@);
    assert(s1 =~= s0.take(k as int).push(x@) + s0.skip(k as int));
    assert forall|i: int, j: int| 0 <= i < j < s1.len() implies lex_lt(
        #[trigger] s1[i],
        #[trigger] s1[j],
    ) by {
        if j < k {
            assert(s1[i] == s0[i] && s1[j] == s0[j]);
        } else if j == k {
            assert(s1[i] == s0[i]);
        } else if i < k {
            assert(s1[i] == s0[i] && s1[j] == s0[j - 1]);
            assert(lex_lt(x@, s0[j - 1]));
            lemma_lex_lt_trans(s0[i], x@, s0[j - 1]);
        } else if i == k {
            assert(s1[j] == s0[j - 1]);
        } else {
            assert(s1[i] == s0[i - 1] && s1[j] == s0[j - 1]);
        }
    }
    assert forall|z: Seq<char>| s1.to_set().contains(z) <==> s0.to_set().insert(x@).contains(z) by {
        if s1.to_set().contains(z) {
            let i = choose|i: int| 0 <= i < s1.len() && s1[i] == z;
            if i < k {
                assert(s0[i] == z);
            } else if i > k {
                assert(s0[i - 1] == z);
            }
        }
        if s0.to_set().contains(z) {
            let i = choose|i: int| 0 <= i < s0.len() && s0[i] == z;
            if i < k {
                assert(s1[i] == z);
            } else {
                assert(s1[i + 1] == z);
            }
        }
        if z == x@ {
            assert(s1[k as int] == z);
        }
    }
    assert(s1.to_set() =~= s0.to_set().insert(x@));
}

/// Merge two lists of tags: every tag of either list, once each, sorted
/// ascending for a deterministic result.
pub fn merge_tags(old: Vec<String>, new: Vec<String>) -> (r: Vec<String>)
    ensures
        is_merged_tags(strs(r@), strs(old@), strs(new@)),
{
    let all = concat_strings(&old, &new);
    let mut r: Vec<String> = Vec::new();
    let mut i: usize = 0;
    assert(strs(r@).to_set() =~= strs(all@).take(0).to_set());
    while i < all.len()
        invariant
            i <= all.len(),
            sorted_strict(strs(r@)),
            strs(r@).to_set() == strs(all@).take(i as int).to_set(),
        decreases all.len() - i,
    {
        insert_sorted(&mut r, &all[i]);
        assert(strs(all@).take(i + 1) =~= strs(all@).take(i as int).push(all@[i as int]@));
        proof {
            lemma_push_to_set(strs(all@).take(i as int), all@[i as int]@);
        }
        i += 1;
    }
    assert(strs(all@).take(i as int) =~= strs(all@));
    r
}

/// Merge two optional creation times: the earlier instant is kept (see
/// `merged_created_at`), or whichever is present.
pub fn merge_created_at(old: Option<String>, new: Option<String>) -> (r: Option<String>)
    ensures
        opt_str(r) == merged_created_at(opt_str(old), opt_str(new)),
{
    match (old, new) {
        (Some(o), Some(n)) => {
            let keep_old = match (parse_rfc3339(o.as_str()), parse_rfc3339(n.as_str())) {
                (Some(x), Some(y)) => !(y.0 < x.0 || (y.0 == x.0 && y.1 < x.1)),
                _ => str_le(o.as_str(), n.as_str()),
            };
            if keep_old {
                Some(o)
            } else {
                Some(n)
            }
        },
        (Some(o), None) => Some(o),
        (None, Some(n)) => Some(n),
        (None, None) => None,
    }
}

/// Merge two review counts: the higher is kept.
pub fn merge_review_count(old: u32, new: u32) -> (r: u32)
    ensures
        r == merged_review_count(old, new),
{
    if old >= new {
        old
    } else {
        new
    }
}

/// The record an upsert stores when `new` meets the stored `old`: the
/// incoming word spelling, and every other field merged by its rule.
pub fn merge_records(old: &WordRecord, new: &WordRecord) -> (r: WordRecord)
    ensures
        is_merged_record(r@, old@, new@),
{
    let definitions = merge_definitions(
        copy_definitions(&old.definitions),
        copy_definitions(&new.definitions),
    );
    let examples = merge_examples(copy_strings(&old.examples), copy_strings(&new.examples));
    let synonyms = merge_string_vec(copy_strings(&old.synonyms), copy_strings(&new.synonyms));
    let antonyms = merge_string_vec(copy_strings(&old.antonyms), copy_strings(&new.antonyms));
    let family_words = merge_string_vec(
        copy_strings(&old.family_words),
        copy_strings(&new.family_words),
    );
    let tags = merge_tags(copy_strings(&old.metadata.tags), copy_strings(&new.metadata.tags));
    WordRecord {
        word: new.word.clone(),
        phonetic: merge_phonetic(copy_opt(&old.phonetic), copy_opt(&new.phonetic)),
        definitions,
        examples,
        synonyms,
        antonyms,
        family_words,
        metadata: Metadata {
            tags,
            created_at: merge_created_at(
                copy_opt(&old.metadata.created_at),
                copy_opt(&new.metadata.created_at),
            ),
            review_count: merge_review_count(
                old.metadata.review_count,
                new.metadata.review_count,
            ),
        },
    }
}

// ----- What the merge policy guarantees -----

pub proof fn lemma_dedup_contains(s: Seq<Seq<char>>, x: Seq<char>)
    ensures
        dedup(s).contains(x) <==> s.contains(x),
    decreases s.len(),
{
    if s.len() > 0 {
        let p = s.drop_last();
        lemma_dedup_contains(p, x);
        let r = dedup(p);
        let y = s.last();
        let d = dedup(s);
        assert(d == (if r.contains(y) { r } else { r.push(y) }));
        if s.contains(x) {
            let i = choose|i: int| 0 <= i < s.len() && s[i] == x;
            if i < s.len() - 1 {
                assert(p[i] == x);
                assert(p.contains(x));
                assert(r.contains(x));
                let k = choose|k: int| 0 <= k < r.len() && r[k] == x;
                assert(d[k] == x);
            } else if r.contains(y) {
                assert(d.contains(x));
            } else {
                assert(d[r.len() as int] == x);
            }
        }
        if d.contains(x) {
            let j = choose|j: int| 0 <= j < d.len() && d[j] == x;
            if j < r.len() {
                assert(r[j] == x);
                assert(r.contains(x));
                let k = choose|k: int| 0 <= k < p.len() && p[k] == x;
                assert(s[k] == x);
            } else {
                assert(x == y);
                assert(s[s.len() - 1] == x);
            }
        }
    }
}

/// No member of `s` repeats.
pub open spec fn distinct(s: Seq<Seq<char>>) -> bool {
    forall|i: int, j: int| 0 <= i < j < s.len() ==> #[trigger] s[i] != #[trigger] s[j]
}

proof fn lemma_dedup_distinct(s: Seq<Seq<char>>)
    ensures
        distinct(dedup(s)),
    decreases s.len(),
{
    if s.len() > 0 {
        lemma_dedup_distinct(s.drop_last());
    }
}

pub proof fn lemma_dedup_fixed(d: Seq<Seq<char>>, y: Seq<Seq<char>>)
    requires
        distinct(d),
        forall|i: int| 0 <= i < y.len() ==> d.contains(#[trigger] y[i]),
    ensures
        dedup(d + y) == d,
    decreases d.len() + y.len(),
{
    if y.len() > 0 {
        assert((d + y).drop_last() =~= d + y.drop_last());
        lemma_dedup_fixed(d, y.drop_last());
        assert((d + y).last() == y[y.len() - 1]);
    } else if d.len() > 0 {
        assert(d + y =~= d);
        assert(d.drop_last() + y =~= d.drop_last());
        lemma_dedup_fixed(d.drop_last(), y);
        if d.drop_last().contains(d.last()) {
            let i = choose|i: int| 0 <= i < d.drop_last().len() && d.drop_last()[i] == d.last();
            assert(d[i] == d[d.len() - 1]);
        }
        assert(d.drop_last().push(d.last()) =~= d);
    } else {
        assert(d + y =~= d);
    }
}

/// Merging `b` again into the result of merging `b` into `a` changes nothing.
proof fn lemma_dedup_remerge(a: Seq<Seq<char>>, b: Seq<Seq<char>>)
    ensures
        dedup(dedup(a + b) + b) == dedup(a + b),
{
    let d = dedup(a + b);
    lemma_dedup_distinct(a + b);
    assert forall|i: int| 0 <= i < b.len() implies d.contains(#[trigger] b[i]) by {
        assert((a + b)[a.len() + i] == b[i]);
        lemma_dedup_contains(a + b, b[i]);
    }
    lemma_dedup_fixed(d, b);
}

proof fn lemma_dedup_defs_has(s: Seq<DefinitionView>, x: DefinitionView)
    ensures
        has_def(dedup_defs(s), x) <==> has_def(s, x),
    decreases s.len(),
{
    if s.len() > 0 {
        let p = s.drop_last();
        lemma_dedup_defs_has(p, x);
        let r = dedup_defs(p);
        let y = s.last();
        let d = dedup_defs(s);
        assert(d == (if has_def(r, y) { r } else { r.push(y) }));
        if has_def(s, x) {
            let i = choose|i: int| 0 <= i < s.len() && same_def(s[i], x);
            if i < s.len() - 1 {
                assert(same_def(p[i], x));
                assert(has_def(r, x));
                let k = choose|k: int| 0 <= k < r.len() && same_def(r[k], x);
                assert(same_def(d[k], x));
            } else if has_def(r, y) {
                let k = choose|k: int| 0 <= k < r.len() && same_def(r[k], y);
                assert(same_def(r[k], x));
                assert(same_def(d[k], x));
            } else {
                assert(same_def(d[r.len() as int], x));
            }
        }
        if has_def(d, x) {
            let j = choose|j: int| 0 <= j < d.len() && same_def(d[j], x);
            if j < r.len() {
                assert(same_def(r[j], x));
                assert(has_def(r, x));
                let k = choose|k: int| 0 <= k < p.len() && same_def(p[k], x);
                assert(same_def(s[k], x));
            } else {
                assert(same_def(s[s.len() - 1], x));
            }
        }
    }
}

/// No two definitions of `s` duplicate each other.
pub open spec fn distinct_defs(s: Seq<DefinitionView>) -> bool {
    forall|i: int, j: int| 0 <= i < j < s.len() ==> !same_def(#[trigger] s[i], #[trigger] s[j])
}

proof fn lemma_dedup_defs_distinct(s: Seq<DefinitionView>)
    ensures
        distinct_defs(dedup_defs(s)),
    decreases s.len(),
{
    if s.len() > 0 {
        lemma_dedup_defs_distinct(s.drop_last());
        let r = dedup_defs(s.drop_last());
        if !has_def(r, s.last()) {
            let t = r.push(s.last());
            assert forall|i: int, j: int| 0 <= i < j < t.len() implies !same_def(
                #[trigger] t[i],
                #[trigger] t[j],
            ) by {
                if j == r.len() {
                    assert(!same_def(r[i], s.last()));
                } else {
                    assert(t[i] == r[i] && t[j] == r[j]);
                }
            }
        }
    }
}

pub proof fn lemma_dedup_defs_fixed(d: Seq<DefinitionView>, y: Seq<DefinitionView>)
    requires
        distinct_defs(d),
        forall|i: int| 0 <= i < y.len() ==> has_def(d, #[trigger] y[i]),
    ensures
        dedup_defs(d + y) == d,
    decreases d.len() + y.len(),
{
    if y.len() > 0 {
        assert((d + y).drop_last() =~= d + y.drop_last());
        lemma_dedup_defs_fixed(d, y.drop_last());
        assert((d + y).last() == y[y.len() - 1]);
    } else if d.len() > 0 {
        assert(d + y =~= d);
        assert(d.drop_last() + y =~= d.drop_last());
        lemma_dedup_defs_fixed(d.drop_last(), y);
        if has_def(d.drop_last(), d.last()) {
            let i = choose|i: int| 0 <= i < d.drop_last().len() && same_def(
                d.drop_last()[i],
                d.last(),
            );
            assert(same_def(d[i], d[d.len() - 1]));
        }
        assert(d.drop_last().push(d.last()) =~= d);
    } else {
        assert(d + y =~= d);
    }
}

proof fn lemma_dedup_defs_remerge(a: Seq<DefinitionView>, b: Seq<DefinitionView>)
    ensures
        dedup_defs(dedup_defs(a + b) + b) == dedup_defs(a + b),
{
    let d = dedup_defs(a + b);
    lemma_dedup_defs_distinct(a + b);
    assert forall|i: int| 0 <= i < b.len() implies has_def(d, #[trigger] b[i]) by {
        assert((a + b)[a.len() + i] == b[i]);
        assert(same_def((a + b)[a.len() + i], b[i]));
        lemma_dedup_defs_has(a + b, b[i]);
    }
    lemma_dedup_defs_fixed(d, b);
}

/// Merging never loses data: every example, synonym, antonym, family word and
/// tag of either side is in the merged record, every definition of either side
/// has a duplicate (same part of speech, same meaning) in it, no list repeats
/// a member, the review count is at least either side's and the creation time
/// is no later than either side's.
pub proof fn law_merge_keeps_everything(old: WordView, new: WordView, r: WordView)
    requires
        is_merged_record(r, old, new),
    ensures
        forall|x: Seq<char>|
            old.examples.contains(x) || new.examples.contains(x) ==> #[trigger] r.examples.contains(x),
        forall|x: Seq<char>|
            old.synonyms.contains(x) || new.synonyms.contains(x) ==> #[trigger] r.synonyms.contains(x),
        forall|x: Seq<char>|
            old.antonyms.contains(x) || new.antonyms.contains(x) ==> #[trigger] r.antonyms.contains(x),
        forall|x: Seq<char>|
            old.family_words.contains(x) || new.family_words.contains(x)
                ==> #[trigger] r.family_words.contains(x),
        forall|x: Seq<char>|
            old.metadata.tags.contains(x) || new.metadata.tags.contains(x)
                ==> #[trigger] r.metadata.tags.contains(x),
        forall|d: DefinitionView|
            has_def(old.definitions, d) || has_def(new.definitions, d) ==> #[trigger] has_def(
                r.definitions,
                d,
            ),
        distinct(r.examples),
        distinct(r.synonyms),
        distinct(r.antonyms),
        distinct(r.family_words),
        distinct(r.metadata.tags),
        distinct_defs(r.definitions),
        r.metadata.review_count >= old.metadata.review_count,
        r.metadata.review_count >= new.metadata.review_count,
        old.metadata.created_at is Some ==> r.metadata.created_at is Some && not_later(
            r.metadata.created_at->0,
            old.metadata.created_at->0,
        ),
        new.metadata.created_at is Some ==> r.metadata.created_at is Some && not_later(
            r.metadata.created_at->0,
            new.metadata.created_at->0,
        ),
{
    assert forall|a: Seq<Seq<char>>, b: Seq<Seq<char>>, x: Seq<char>|
        a.contains(x) || b.contains(x) implies #[trigger] dedup(a + b).contains(x) by {
        lemma_dedup_contains(a + b, x);
        if a.contains(x) {
            let i = choose|i: int| 0 <= i < a.len() && a[i] == x;
            assert((a + b)[i] == x);
        } else {
            let i = choose|i: int| 0 <= i < b.len() && b[i] == x;
            assert((a + b)[a.len() + i] == x);
        }
    }
    assert forall|x: Seq<char>|
        old.metadata.tags.contains(x) || new.metadata.tags.contains(
            x,
        ) implies #[trigger] r.metadata.tags.contains(x) by {
        let all = old.metadata.tags + new.metadata.tags;
        if old.metadata.tags.contains(x) {
            let i = choose|i: int| 0 <= i < old.metadata.tags.len() && old.metadata.tags[i] == x;
            assert(all[i] == x);
        } else {
            let i = choose|i: int| 0 <= i < new.metadata.tags.len() && new.metadata.tags[i] == x;
            assert(all[old.metadata.tags.len() + i] == x);
        }
        assert(all.to_set().contains(x));
        assert(r.metadata.tags.to_set().contains(x));
    }
    assert forall|d: DefinitionView|
        has_def(old.definitions, d) || has_def(new.definitions, d) implies #[trigger] has_def(
        r.definitions,
        d,
    ) by {
        let all = old.definitions + new.definitions;
        lemma_dedup_defs_has(all, d);
        if has_def(old.definitions, d) {
            let i = choose|i: int| 0 <= i < old.definitions.len() && same_def(old.definitions[i], d);
            assert(same_def(all[i], d));
        } else {
            let i = choose|i: int| 0 <= i < new.definitions.len() && same_def(new.definitions[i], d);
            assert(same_def(all[old.definitions.len() + i], d));
        }
    }
    lemma_dedup_distinct(old.examples + new.examples);
    lemma_dedup_distinct(old.synonyms + new.synonyms);
    lemma_dedup_distinct(old.antonyms + new.antonyms);
    lemma_dedup_distinct(old.family_words + new.family_words);
    lemma_dedup_defs_distinct(old.definitions + new.definitions);
    assert forall|i: int, j: int| 0 <= i < j < r.metadata.tags.len() implies #[trigger] r.metadata.tags[i]
        != #[trigger] r.metadata.tags[j] by {
        assert(lex_lt(r.metadata.tags[i], r.metadata.tags[j]));
    }
    if let (Some(o), Some(n)) = (old.metadata.created_at, new.metadata.created_at) {
        lemma_lex_trichotomy(o, n);
        crate::order::lemma_lex_refl(o);
        crate::order::lemma_lex_refl(n);
    } else if let Some(o) = old.metadata.created_at {
        crate::order::lemma_lex_refl(o);
    } else if let Some(n) = new.metadata.created_at {
        crate::order::lemma_lex_refl(n);
    }
}

/// Re-importing is safe: merging the same incoming record into the result of
/// a merge gives that result back, field for field.
pub proof fn law_merge_reimport_changes_nothing(
    old: WordView,
    new: WordView,
    once: WordView,
    twice: WordView,
)
    requires
        is_merged_record(once, old, new),
        is_merged_record(twice, once, new),
    ensures
        twice == once,
{
    lemma_dedup_remerge(old.examples, new.examples);
    lemma_dedup_remerge(old.synonyms, new.synonyms);
    lemma_dedup_remerge(old.antonyms, new.antonyms);
    lemma_dedup_remerge(old.family_words, new.family_words);
    lemma_dedup_defs_remerge(old.definitions, new.definitions);
    let t1 = once.metadata.tags;
    let t2 = twice.metadata.tags;
    assert(t2.to_set() == t1.to_set()) by {
        assert forall|x: Seq<char>| (t1 + new.metadata.tags).to_set().contains(x) <==> t1.to_set().contains(
            x,
        ) by {
            if (t1 + new.metadata.tags).to_set().contains(x) {
                let i = choose|i: int| 0 <= i < (t1 + new.metadata.tags).len() && (t1
                    + new.metadata.tags)[i] == x;
                if i >= t1.len() {
                    let all = old.metadata.tags + new.metadata.tags;
                    assert(all[old.metadata.tags.len() + (i - t1.len())] == x);
                    assert(all.to_set().contains(x));
                }
            }
            if t1.to_set().contains(x) {
                let i = choose|i: int| 0 <= i < t1.len() && t1[i] == x;
                assert((t1 + new.metadata.tags)[i] == x);
            }
        }
        assert((t1 + new.metadata.tags).to_set() =~= t1.to_set());
    }
    crate::order::lemma_sorted_strict_unique(t2, t1);
    if let (Some(o), Some(n)) = (old.metadata.created_at, new.metadata.created_at) {
        lemma_lex_trichotomy(o, n);
        crate::order::lemma_lex_refl(o);
        crate::order::lemma_lex_refl(n);
    } else if let Some(n) = new.metadata.created_at {
        crate::order::lemma_lex_refl(n);
    }
    assert(twice.metadata == once.metadata);
}

/// Merging tags does not depend on which side is stored: merging `new`
/// into `old` gives the tags that merging `old` into `new` gives.
pub proof fn law_merge_tags_commutes(old: Seq<Seq<char>>, new: Seq<Seq<char>>, r1: Seq<Seq<char>>, r2: Seq<Seq<char>>)
    requires
        is_merged_tags(r1, old, new),
        is_merged_tags(r2, new, old),
    ensures
        r1 == r2,
{
    assert forall|x: Seq<char>| (old + new).to_set().contains(x) <==> (new + old).to_set().contains(x) by {
        if (old + new).to_set().contains(x) {
            let i = choose|i: int| 0 <= i < (old + new).len() && (old + new)[i] == x;
            if i < old.len() {
                assert((new + old)[new.len() + i] == x);
            } else {
                assert((new + old)[i - old.len()] == x);
            }
        }
        if (new + old).to_set().contains(x) {
            let i = choose|i: int| 0 <= i < (new + old).len() && (new + old)[i] == x;
            if i < new.len() {
                assert((old + new)[old.len() + i] == x);
            } else {
                assert((old + new)[i - new.len()] == x);
            }
        }
    }
    assert((old + new).to_set() =~= (new + old).to_set());
    crate::order::lemma_sorted_strict_unique(r1, r2);
}

} // verus!
