//! Ordering rows for listing: each row gets a sort key, rows are arranged by
//! key, and rows with equivalent keys keep their storage order.
use vstd::prelude::*;
use crate::order::{lemma_lex_lt_trans, lemma_lex_trichotomy, lex_lt, str_lt};
use crate::text::strs;

verus! {

/// What a row is ordered by.
pub enum SortKey {
    /// A text, ascending.
    Text(String),
    /// An optional text, descending, rows without one last.
    TextDesc(Option<String>),
    /// A count, descending.
    CountDesc(u64),
    /// Two texts, ascending by the first and then by the second.
    TextPair(String, String),
}

pub open spec fn key_rank(k: SortKey) -> int {
    match k {
        SortKey::Text(_) => 0,
        SortKey::TextDesc(_) => 1,
        SortKey::CountDesc(_) => 2,
        SortKey::TextPair(_, _) => 3,
    }
}

/// Whether key `a` sorts strictly before key `b`.
pub open spec fn key_lt(a: SortKey, b: SortKey) -> bool {
    match (a, b) {
        (SortKey::Text(x), SortKey::Text(y)) => lex_lt(x@, y@),
        (SortKey::TextDesc(x), SortKey::TextDesc(y)) => match (x, y) {
            (Some(p), Some(q)) => lex_lt(q@, p@),
            (Some(_), None) => true,
            _ => false,
        },
        (SortKey::CountDesc(x), SortKey::CountDesc(y)) => x > y,
        (SortKey::TextPair(x1, x2), SortKey::TextPair(y1, y2)) => lex_lt(x1@, y1@) || (!lex_lt(y1@, x1@)
            && lex_lt(x2@, y2@)),
        _ => key_rank(a) < key_rank(b),
    }
}

/// Position `i` comes before position `j`: a smaller key, or an equivalent
/// key and an earlier position.
pub open spec fn precedes(keys: Seq<SortKey>, i: int, j: int) -> bool {
    key_lt(keys[i], keys[j]) || (!key_lt(keys[j], keys[i]) && i < j)
}

/// `ps` lists positions in the order that `precedes` gives.
pub open spec fn sorted_by_keys(keys: Seq<SortKey>, ps: Seq<usize>) -> bool {
    forall|a: int, b: int|
        0 <= a < b < ps.len() ==> precedes(keys, #[trigger] ps[a] as int, #[trigger] ps[b] as int)
}

proof fn lemma_lex_le_lt(a: Seq<char>, b: Seq<char>, c: Seq<char>)
    requires
        !lex_lt(b, a),
        lex_lt(b, c),
    ensures
        lex_lt(a, c),
{
    lemma_lex_trichotomy(a, b);
    if a == b {
    } else {
        lemma_lex_lt_trans(a, b, c);
    }
}

/// `key_lt` is a strict weak order: irreflexive, transitive, and whenever
/// `a < b`, any `c` is above `a` or below `b`.
proof fn lemma_key_order(a: SortKey, b: SortKey, c: SortKey)
    ensures
        !key_lt(a, a),
        key_lt(a, b) && key_lt(b, c) ==> key_lt(a, c),
        key_lt(a, b) ==> key_lt(a, c) || key_lt(c, b),
{
    match (a, b, c) {
        (SortKey::Text(x), SortKey::Text(y), SortKey::Text(z)) => {
            lemma_lex_trichotomy(x@, y@);
            lemma_lex_trichotomy(y@, z@);
            lemma_lex_trichotomy(x@, z@);
            if lex_lt(x@, y@) && lex_lt(y@, z@) {
                lemma_lex_lt_trans(x@, y@, z@);
            }
            if lex_lt(x@, y@) && !lex_lt(x@, z@) {
                lemma_lex_le_lt(z@, x@, y@);
            }
        },
        (SortKey::TextDesc(x), SortKey::TextDesc(y), SortKey::TextDesc(z)) => {
            match (x, y, z) {
                (Some(p), Some(q), Some(r)) => {
                    lemma_lex_trichotomy(p@, q@);
                    lemma_lex_trichotomy(q@, r@);
                    lemma_lex_trichotomy(p@, r@);
                    if lex_lt(q@, p@) && lex_lt(r@, q@) {
                        lemma_lex_lt_trans(r@, q@, p@);
                    }
                    if lex_lt(q@, p@) && !lex_lt(r@, p@) {
                        lemma_lex_lt_trans(q@, p@, r@);
                    }
                },
                (Some(p), Some(q), None) => {
                    lemma_lex_trichotomy(p@, q@);
                },
                (Some(p), None, Some(r)) => {
                    lemma_lex_trichotomy(p@, r@);
                },
                (None, Some(q), Some(r)) => {
                    lemma_lex_trichotomy(q@, r@);
                },
                (Some(p), None, None) => {
                    lemma_lex_trichotomy(p@, p@);
                },
                (None, Some(q), None) => {
                    lemma_lex_trichotomy(q@, q@);
                },
                (None, None, Some(r)) => {
                    lemma_lex_trichotomy(r@, r@);
                },
                (None, None, None) => {},
            }
        },
        (SortKey::TextPair(x1, x2), SortKey::TextPair(y1, y2), SortKey::TextPair(z1, z2)) => {
            lemma_lex_trichotomy(x1@, y1@);
            lemma_lex_trichotomy(y1@, z1@);
            lemma_lex_trichotomy(x1@, z1@);
            lemma_lex_trichotomy(x2@, y2@);
            lemma_lex_trichotomy(y2@, z2@);
            lemma_lex_trichotomy(x2@, z2@);
            if lex_lt(x1@, y1@) && lex_lt(y1@, z1@) {
                lemma_lex_lt_trans(x1@, y1@, z1@);
            }
            if lex_lt(x2@, y2@) && lex_lt(y2@, z2@) {
                lemma_lex_lt_trans(x2@, y2@, z2@);
            }
            if lex_lt(x1@, y1@) && !lex_lt(x1@, z1@) {
                lemma_lex_le_lt(z1@, x1@, y1@);
            }
            if lex_lt(x2@, y2@) && !lex_lt(x2@, z2@) {
                lemma_lex_le_lt(z2@, x2@, y2@);
            }
        },
        _ => {
            match a {
                SortKey::Text(x) => lemma_lex_trichotomy(x@, x@),
                SortKey::TextPair(x1, x2) => {
                    lemma_lex_trichotomy(x1@, x1@);
                    lemma_lex_trichotomy(x2@, x2@);
                },
                SortKey::TextDesc(Some(p)) => lemma_lex_trichotomy(p@, p@),
                _ => {},
            }
        },
    }
}

/// `precedes` orders distinct positions totally and transitively.
pub proof fn lemma_precedes(keys: Seq<SortKey>, i: int, j: int, l: int)
    requires
        0 <= i < keys.len(),
        0 <= j < keys.len(),
        0 <= l < keys.len(),
    ensures
        !precedes(keys, i, i),
        i != j ==> precedes(keys, i, j) || precedes(keys, j, i),
        precedes(keys, i, j) ==> !precedes(keys, j, i),
        precedes(keys, i, j) && precedes(keys, j, l) ==> precedes(keys, i, l),
{
    lemma_key_order(keys[i], keys[j], keys[l]);
    lemma_key_order(keys[j], keys[l], keys[i]);
    lemma_key_order(keys[l], keys[i], keys[j]);
    lemma_key_order(keys[i], keys[l], keys[j]);
    lemma_key_order(keys[j], keys[i], keys[l]);
    lemma_key_order(keys[l], keys[j], keys[i]);
    lemma_key_order(keys[i], keys[j], keys[i]);
    lemma_key_order(keys[j], keys[i], keys[j]);
}

/// Whether key `a` sorts strictly before key `b`.
fn key_less(a: &SortKey, b: &SortKey) -> (r: bool)
    ensures
        r == key_lt(*a, *b),
{
    match (a, b) {
        (SortKey::Text(x), SortKey::Text(y)) => str_lt(x.as_str(), y.as_str()),
        (SortKey::TextDesc(x), SortKey::TextDesc(y)) => match (x, y) {
            (Some(p), Some(q)) => str_lt(q.as_str(), p.as_str()),
            (Some(_), None) => true,
            _ => false,
        },
        (SortKey::CountDesc(x), SortKey::CountDesc(y)) => *x > *y,
        (SortKey::TextPair(x1, x2), SortKey::TextPair(y1, y2)) => str_lt(x1.as_str(), y1.as_str()) || (!str_lt(
            y1.as_str(),
            x1.as_str(),
        ) && str_lt(x2.as_str(), y2.as_str())),
        (SortKey::Text(_), _) => true,
        (SortKey::TextDesc(_), SortKey::CountDesc(_)) => true,
        (SortKey::TextDesc(_), SortKey::TextPair(_, _)) => true,
        (SortKey::CountDesc(_), SortKey::TextPair(_, _)) => true,
        _ => false,
    }
}

/// Whether position `i` comes before position `j`.
fn position_before(keys: &Vec<SortKey>, i: usize, j: usize) -> (r: bool)
    requires
        i < keys.len(),
        j < keys.len(),
    ensures
        r == precedes(keys@, i as int, j as int),
{
    if key_less(&keys[i], &keys[j]) {
        true
    } else {
        !key_less(&keys[j], &keys[i]) && i < j
    }
}

/// The positions `ps`, arranged by their keys; positions with equivalent keys
/// keep their relative storage order.
pub fn sort_positions(keys: &Vec<SortKey>, ps: &Vec<usize>) -> (r: Vec<usize>)
    requires
        ps@.no_duplicates(),
        forall|k: int| 0 <= k < ps.len() ==> #[trigger] ps@[k] < keys.len(),
    ensures
        r@.no_duplicates(),
        r@.to_set() == ps@.to_set(),
        r.len() == ps.len(),
        sorted_by_keys(keys@, r@),
{
    let mut out: Vec<usize> = Vec::new();
    let mut k: usize = 0;
    while k < ps.len()
        invariant
            k <= ps.len(),
            ps@.no_duplicates(),
            forall|m: int| 0 <= m < ps.len() ==> #[trigger] ps@[m] < keys.len(),
            out.len() == k,
            out@.no_duplicates(),
            forall|m: int| 0 <= m < out.len() ==> #[trigger] out@[m] < keys.len(),
            forall|x: usize| out@.contains(x) <==> ps@.take(k as int).contains(x),
            sorted_by_keys(keys@, out@),
        decreases ps.len() - k,
    {
        let p = ps[k];
        assert(!out@.contains(p)) by {
            if out@.contains(p) {
                let m = choose|m: int| 0 <= m < k && ps@.take(k as int)[m] == p;
                assert(ps@[m] == ps@[k as int]);
            }
        }
        let mut q: usize = 0;
        while q < out.len() && !position_before(keys, p, out[q])
            invariant
                q <= out.len(),
                p < keys.len(),
                out.len() == k,
                forall|m: int| 0 <= m < out.len() ==> #[trigger] out@[m] < keys.len(),
                forall|m: int| 0 <= m < q ==> !precedes(keys@, p as int, #[trigger] out@[m] as int),
            decreases out.len() - q,
        {
            q += 1;
        }
        let ghost before = out@;
        out.insert(q, p);
        proof {
            assert(out@ == before.insert(q as int, p));
            assert forall|a: int, b: int| 0 <= a < b < out@.len() implies precedes(
                keys@,
                #[trigger] out@[a] as int,
                #[trigger] out@[b] as int,
            ) by {
                if b < q {
                    assert(out@[a] == before[a] && out@[b] == before[b]);
                } else if b == q {
                    assert(out@[a] == before[a]);
                    lemma_precedes(keys@, p as int, before[a] as int, p as int);
                    assert(before[a] != p);
                } else if a < q {
                    assert(out@[a] == before[a] && out@[b] == before[b - 1]);
                } else if a == q {
                    assert(out@[b] == before[b - 1]);
                    lemma_precedes(keys@, p as int, before[q as int] as int, before[b - 1] as int);
                    if b - 1 > q {
                        assert(precedes(keys@, before[q as int] as int, before[b - 1] as int));
                    }
                } else {
                    assert(out@[a] == before[a - 1] && out@[b] == before[b - 1]);
                }
            }
            assert forall|m: int| 0 <= m < out.len() implies #[trigger] out@[m] < keys.len() by {
                if m < q {
                    assert(out@[m] == before[m]);
                } else if m > q {
                    assert(out@[m] == before[m - 1]);
                }
            }
            assert(ps@.take(k + 1) =~= ps@.take(k as int).push(p));
            assert forall|x: usize| out@.contains(x) <==> ps@.take(k + 1).contains(x) by {
                if x == p {
                    assert(ps@.take(k + 1)[k as int] == p);
                }
                if out@.contains(x) {
                    let m = choose|m: int| 0 <= m < out@.len() && out@[m] == x;
                    if m < q {
                        assert(before[m] == x);
                        assert(before.contains(x));
                    } else if m > q {
                        assert(before[m - 1] == x);
                        assert(before.contains(x));
                    }
                }
                if ps@.take(k + 1).contains(x) {
                    if x == p {
                        assert(out@[q as int] == p);
                    } else {
                        let m = choose|m: int| 0 <= m < k + 1 && #[trigger] ps@.take(k + 1)[m] == x;
                        assert(ps@.take(k as int)[m] == x);
                        assert(before.contains(x));
                        let n = choose|n: int| 0 <= n < before.len() && before[n] == x;
                        if n < q {
                            assert(out@[n] == x);
                        } else {
                            assert(out@[n + 1] == x);
                        }
                    }
                }
            }
            assert forall|a: int, b: int| 0 <= a < b < out@.len() implies out@[a] != out@[b] by {
                if a == q {
                    assert(out@[b] == before[b - 1]);
                    assert(before.contains(before[b - 1]));
                } else if b == q {
                    assert(out@[a] == before[a]);
                    assert(before.contains(before[a]));
                } else {
                    let a2 = if a < q { a } else { a - 1 };
                    let b2 = if b < q { b } else { b - 1 };
                    assert(out@[a] == before[a2] && out@[b] == before[b2]);
                }
            }
        }
        k += 1;
    }
    proof {
        assert(ps@.take(k as int) =~= ps@);
        assert(out@.to_set() =~= ps@.to_set()) by {
            assert forall|x: usize| out@.to_set().contains(x) <==> ps@.to_set().contains(x) by {
                assert(out@.contains(x) <==> ps@.take(k as int).contains(x));
            }
        }
    }
    out
}

/// Position `i` comes before position `j` by name: a smaller name, or the
/// same name and an earlier position.
pub open spec fn name_precedes(names: Seq<Seq<char>>, i: int, j: int) -> bool {
    lex_lt(names[i], names[j]) || (!lex_lt(names[j], names[i]) && i < j)
}

/// `ps` lists exactly the positions `cands`, once each, ordered by name.
pub open spec fn arranged_by_name(names: Seq<Seq<char>>, cands: Set<usize>, ps: Seq<usize>) -> bool {
    &&& ps.no_duplicates()
    &&& ps.to_set() == cands
    &&& forall|k: int| 0 <= k < ps.len() ==> #[trigger] ps[k] < names.len()
    &&& forall|a: int, b: int|
        0 <= a < b < ps.len() ==> name_precedes(names, #[trigger] ps[a] as int, #[trigger] ps[b] as int)
}

/// The positions `cands`, ordered by the names at them; equal names keep
/// their storage order.
pub fn arrange_by_name(names: &Vec<String>, cands: &Vec<usize>) -> (r: Vec<usize>)
    requires
        cands@.no_duplicates(),
        forall|k: int| 0 <= k < cands.len() ==> #[trigger] cands@[k] < names.len(),
    ensures
        arranged_by_name(strs(names@), cands@.to_set(), r@),
{
    let mut keys: Vec<SortKey> = Vec::new();
    let mut i: usize = 0;
    while i < names.len()
        invariant
            i <= names.len(),
            keys.len() == i,
            forall|j: int| 0 <= j < i ==> (#[trigger] keys@[j] matches SortKey::Text(t) && t@ == names@[j]@),
        decreases names.len() - i,
    {
        keys.push(SortKey::Text(names[i].clone()));
        i += 1;
    }
    let r = sort_positions(&keys, cands);
    proof {
        let ns = strs(names@);
        assert forall|k: int| 0 <= k < r.len() implies #[trigger] r@[k] < names.len() by {
            assert(r@.to_set().contains(r@[k]));
            assert(cands@.contains(r@[k]));
        }
        assert forall|a: int, b: int| 0 <= a < b < r.len() implies name_precedes(
            ns,
            #[trigger] r@[a] as int,
            #[trigger] r@[b] as int,
        ) by {
            assert(precedes(keys@, r@[a] as int, r@[b] as int));
            assert(r@[a] < names.len() && r@[b] < names.len());
            assert(keys@[r@[a] as int] matches SortKey::Text(t) && t@ == names@[r@[a] as int]@);
            assert(keys@[r@[b] as int] matches SortKey::Text(t) && t@ == names@[r@[b] as int]@);
        }
    }
    r
}

} // verus!
