//! The lexicographic order on character sequences that `Ord for String`
//! and SQLite's binary collation use: code point by code point, a proper
//! prefix first.
use vstd::prelude::*;
use crate::text::chars_of;

verus! {

/// `a` comes before `b` or equals it.
pub open spec fn lex_le(a: Seq<char>, b: Seq<char>) -> bool
    decreases a.len(),
{
    if a.len() == 0 {
        true
    } else if b.len() == 0 {
        false
    } else if a[0] != b[0] {
        a[0] < b[0]
    } else {
        lex_le(a.drop_first(), b.drop_first())
    }
}

/// `a` comes strictly before `b`.
pub open spec fn lex_lt(a: Seq<char>, b: Seq<char>) -> bool {
    lex_le(a, b) && a != b
}

/// Every member comes strictly before every later member.
pub open spec fn sorted_strict(s: Seq<Seq<char>>) -> bool {
    forall|i: int, j: int| 0 <= i < j < s.len() ==> lex_lt(#[trigger] s[i], #[trigger] s[j])
}

pub proof fn lemma_lex_refl(a: Seq<char>)
    ensures
        lex_le(a, a),
    decreases a.len(),
{
    if a.len() > 0 {
        lemma_lex_refl(a.drop_first());
    }
}

pub proof fn lemma_lex_total(a: Seq<char>, b: Seq<char>)
    ensures
        lex_le(a, b) || lex_le(b, a),
    decreases a.len(),
{
    if a.len() > 0 && b.len() > 0 && a[0] == b[0] {
        lemma_lex_total(a.drop_first(), b.drop_first());
    }
    if a.len() > 0 && b.len() > 0 && a[0] != b[0] {
        
    }
}

pub proof fn lemma_lex_antisym(a: Seq<char>, b: Seq<char>)
    requires
        lex_le(a, b),
        lex_le(b, a),
    ensures
        a == b,
    decreases a.len(),
{
    if a.len() == 0 {
        assert(b.len() == 0);
        assert(a =~= b);
    } else {
        assert(b.len() > 0);
        if a[0] == b[0] {
            lemma_lex_antisym(a.drop_first(), b.drop_first());
            assert(a =~= seq![a[0]] + a.drop_first());
            assert(b =~= seq![b[0]] + b.drop_first());
        } else {
            
        }
    }
}

pub proof fn lemma_lex_trans(a: Seq<char>, b: Seq<char>, c: Seq<char>)
    requires
        lex_le(a, b),
        lex_le(b, c),
    ensures
        lex_le(a, c),
    decreases a.len(),
{
    if a.len() > 0 && b.len() > 0 && c.len() > 0 {
        if a[0] == b[0] && b[0] == c[0] {
            lemma_lex_trans(a.drop_first(), b.drop_first(), c.drop_first());
        }
        if a[0] != b[0] || b[0] != c[0] {
            
            if a[0] == c[0] {
                assert(false);
            }
        }
    }
}

pub proof fn lemma_lex_lt_trans(a: Seq<char>, b: Seq<char>, c: Seq<char>)
    requires
        lex_lt(a, b),
        lex_le(b, c),
    ensures
        lex_lt(a, c),
{
    lemma_lex_trans(a, b, c);
    if a == c {
        lemma_lex_antisym(a, b);
    }
}

/// The total order facts for a pair: exactly one of `a < b`, `a == b`,
/// `b < a` holds.
pub proof fn lemma_lex_trichotomy(a: Seq<char>, b: Seq<char>)
    ensures
        lex_lt(a, b) || a == b || lex_lt(b, a),
        !(lex_lt(a, b) && lex_lt(b, a)),
        lex_le(a, b) <==> !lex_lt(b, a),
{
    lemma_lex_total(a, b);
    lemma_lex_refl(a);
    if lex_le(a, b) && lex_le(b, a) {
        lemma_lex_antisym(a, b);
    }
}

/// Two strictly sorted sequences with the same members are equal.
pub proof fn lemma_sorted_strict_unique(s: Seq<Seq<char>>, t: Seq<Seq<char>>)
    requires
        sorted_strict(s),
        sorted_strict(t),
        s.to_set() == t.to_set(),
    ensures
        s == t,
    decreases s.len() + t.len(),
{
    if s.len() == 0 {
        if t.len() > 0 {
            assert(t.to_set().contains(t[0]));
            assert(!s.to_set().contains(t[0]));
        }
        assert(s =~= t);
    } else if t.len() == 0 {
        assert(s.to_set().contains(s[0]));
        assert(!t.to_set().contains(s[0]));
    } else {
        let x = s.last();
        let y = t.last();
        // The last member of each is the greatest of the shared members.
        assert(s.to_set().contains(x));
        assert(t.to_set().contains(x));
        assert(t.to_set().contains(y));
        assert(s.to_set().contains(y));
        let i = choose|i: int| 0 <= i < t.len() && t[i] == x;
        let j = choose|j: int| 0 <= j < s.len() && s[j] == y;
        if x != y {
            lemma_lex_trichotomy(x, y);
            if lex_lt(x, y) {
                // y sits in s before its last member x, so y < x.
                assert(j < s.len() - 1);
                assert(lex_lt(s[j], s[s.len() - 1]));
            } else {
                assert(i < t.len() - 1);
                assert(lex_lt(t[i], t[t.len() - 1]));
            }
        }
        let s2 = s.drop_last();
        let t2 = t.drop_last();
        assert(s2.to_set() == t2.to_set()) by {
            assert forall|z: Seq<char>| s2.to_set().contains(z) implies t2.to_set().contains(z) by {
                let k = choose|k: int| 0 <= k < s2.len() && s2[k] == z;
                assert(lex_lt(s[k], s[s.len() - 1]));
                assert(t.to_set().contains(z));
                let m = choose|m: int| 0 <= m < t.len() && t[m] == z;
                assert(m != t.len() - 1);
                assert(t2[m] == z);
            }
            assert forall|z: Seq<char>| t2.to_set().contains(z) implies s2.to_set().contains(z) by {
                let k = choose|k: int| 0 <= k < t2.len() && t2[k] == z;
                assert(lex_lt(t[k], t[t.len() - 1]));
                assert(s.to_set().contains(z));
                let m = choose|m: int| 0 <= m < s.len() && s[m] == z;
                assert(m != s.len() - 1);
                assert(s2[m] == z);
            }
            assert(s2.to_set() =~= t2.to_set());
        }
        lemma_sorted_strict_unique(s2, t2);
        assert(s =~= s2.push(x));
        assert(t =~= t2.push(y));
    }
}

/// Whether `a` comes before or equals `b`.
pub fn str_le(a: &str, b: &str) -> (r: bool)
    ensures
        r == lex_le(a@, b@),
{
    let x = chars_of(a);
    let y = chars_of(b);
    let mut i: usize = 0;
    assert(x@.skip(0) =~= x@);
    assert(y@.skip(0) =~= y@);
    while i < x.len() && i < y.len() && x[i] == y[i]
        invariant
            i <= x.len(),
            i <= y.len(),
            lex_le(x@, y@) == lex_le(x@.skip(i as int), y@.skip(i as int)),
        decreases x.len() - i,
    {
        assert(x@.skip(i as int).drop_first() =~= x@.skip(i + 1));
        assert(y@.skip(i as int).drop_first() =~= y@.skip(i + 1));
        i += 1;
    }
    let ghost xs = x@.skip(i as int);
    let ghost ys = y@.skip(i as int);
    if i == x.len() {
        assert(xs.len() == 0);
        true
    } else if i == y.len() {
        assert(ys.len() == 0);
        false
    } else {
        assert(xs[0] == x@[i as int] && ys[0] == y@[i as int]);
        x[i] < y[i]
    }
}

/// Whether `a` comes strictly before `b`.
pub fn str_lt(a: &str, b: &str) -> (r: bool)
    ensures
        r == lex_lt(a@, b@),
{
    let le = str_le(a, b);
    if le {
        let ge = str_le(b, a);
        proof {
            if ge {
                lemma_lex_antisym(a@, b@);
            } else {
                lemma_lex_refl(a@);
            }
        }
        !ge
    } else {
        false
    }
}

} // verus!
