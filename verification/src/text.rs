//! Text primitives: whitespace, trimming, splitting and joining, stated over
//! sequences of characters.
use vstd::prelude::*;

verus! {

/// `String::push` appends one character.
pub assume_specification[ String::push ](s: &mut String, ch: char)
    ensures
        final(s)@ == old(s)@.push(ch),
;

/// The characters that carry the Unicode `White_Space` property, which is what
/// `char::is_whitespace` (and so `str::trim` and `str::split_whitespace`) tests.
pub open spec fn is_ws(c: char) -> bool {
    let u = c as u32;
    ||| (0x09 <= u && u <= 0x0D)
    ||| u == 0x20
    ||| u == 0x85
    ||| u == 0xA0
    ||| u == 0x1680
    ||| (0x2000 <= u && u <= 0x200A)
    ||| u == 0x2028
    ||| u == 0x2029
    ||| u == 0x202F
    ||| u == 0x205F
    ||| u == 0x3000
}

/// Leading whitespace removed.
pub open spec fn trim_start(s: Seq<char>) -> Seq<char>
    decreases s.len(),
{
    if s.len() > 0 && is_ws(s[0]) {
        trim_start(s.drop_first())
    } else {
        s
    }
}

/// Trailing whitespace removed.
pub open spec fn trim_end(s: Seq<char>) -> Seq<char>
    decreases s.len(),
{
    if s.len() > 0 && is_ws(s.last()) {
        trim_end(s.drop_last())
    } else {
        s
    }
}

/// Leading and trailing whitespace removed (`str::trim`).
pub open spec fn trim(s: Seq<char>) -> Seq<char> {
    trim_end(trim_start(s))
}

/// `str::split(d)`: the pieces of `s` between occurrences of `d`, one more
/// piece than there are occurrences, empty pieces included.
pub open spec fn split_on(s: Seq<char>, d: char) -> Seq<Seq<char>>
    decreases s.len(),
{
    if s.len() == 0 {
        seq![Seq::<char>::empty()]
    } else {
        let rest = split_on(s.drop_last(), d);
        if s.last() == d {
            rest.push(Seq::<char>::empty())
        } else {
            rest.update(rest.len() - 1, rest.last().push(s.last()))
        }
    }
}

/// The pieces of `s` between whitespace characters, empty pieces included.
pub open spec fn split_ws(s: Seq<char>) -> Seq<Seq<char>>
    decreases s.len(),
{
    if s.len() == 0 {
        seq![Seq::<char>::empty()]
    } else {
        let rest = split_ws(s.drop_last());
        if is_ws(s.last()) {
            rest.push(Seq::<char>::empty())
        } else {
            rest.update(rest.len() - 1, rest.last().push(s.last()))
        }
    }
}

/// The non-empty members of `ss`, in order.
pub open spec fn nonempty(ss: Seq<Seq<char>>) -> Seq<Seq<char>>
    decreases ss.len(),
{
    if ss.len() == 0 {
        Seq::<Seq<char>>::empty()
    } else if ss.last().len() > 0 {
        nonempty(ss.drop_last()).push(ss.last())
    } else {
        nonempty(ss.drop_last())
    }
}

/// `str::split_whitespace`: the maximal runs of non-whitespace characters.
pub open spec fn words(s: Seq<char>) -> Seq<Seq<char>> {
    nonempty(split_ws(s))
}

/// The members of `ss` joined with `sep` between consecutive members.
pub open spec fn join(ss: Seq<Seq<char>>, sep: Seq<char>) -> Seq<char>
    decreases ss.len(),
{
    if ss.len() == 0 {
        Seq::<char>::empty()
    } else if ss.len() == 1 {
        ss[0]
    } else {
        join(ss.drop_last(), sep) + sep + ss.last()
    }
}

/// The character sequences of a sequence of strings.
pub open spec fn strs(v: Seq<String>) -> Seq<Seq<char>> {
    v.map_values(|s: String| s@)
}

/// Whether `c` has the Unicode `White_Space` property.
pub fn is_whitespace(c: char) -> (r: bool)
    ensures
        r == is_ws(c),
{
    let u = c as u32;
    (0x09 <= u && u <= 0x0D) || u == 0x20 || u == 0x85 || u == 0xA0 || u == 0x1680 || (0x2000
        <= u && u <= 0x200A) || u == 0x2028 || u == 0x2029 || u == 0x202F || u == 0x205F || u
        == 0x3000
}

/// The characters of a string slice, in order.
pub fn chars_of(s: &str) -> (r: Vec<char>)
    ensures
        r@ == s@,
{
    let mut r: Vec<char> = Vec::new();
    for c in it: s.chars()
        invariant
            r@ == it.seq().take(it.index() as int),
            it.seq() == s@,
    {
        r.push(c);
    }
    r
}

/// The string made of the characters `v[from..to]`.
pub fn string_from(v: &Vec<char>, from: usize, to: usize) -> (r: String)
    requires
        from <= to <= v.len(),
    ensures
        r@ == v@.subrange(from as int, to as int),
{
    let mut r = String::new();
    let mut i = from;
    while i < to
        invariant
            from <= i <= to <= v.len(),
            r@ == v@.subrange(from as int, i as int),
        decreases to - i,
    {
        r.push(v[i]);
        i += 1;
        assert(r@ =~= v@.subrange(from as int, i as int));
    }
    r
}

proof fn lemma_trim_start_shape(s: Seq<char>)
    ensures
        trim_start(s).len() > 0 ==> !is_ws(trim_start(s)[0]),
    decreases s.len(),
{
    if s.len() > 0 && is_ws(s[0]) {
        lemma_trim_start_shape(s.drop_first());
    }
}

proof fn lemma_trim_end_shape(s: Seq<char>)
    ensures
        trim_end(s).len() <= s.len(),
        trim_end(s) == s.take(trim_end(s).len() as int),
        trim_end(s).len() > 0 ==> !is_ws(trim_end(s).last()),
    decreases s.len(),
{
    if s.len() > 0 && is_ws(s.last()) {
        lemma_trim_end_shape(s.drop_last());
        let n = trim_end(s).len() as int;
        assert(s.drop_last().take(n) =~= s.take(n));
    } else {
        assert(s.take(s.len() as int) =~= s);
    }
}

/// Trimming twice is trimming once.
pub proof fn lemma_trim_idempotent(s: Seq<char>)
    ensures
        trim(trim(s)) == trim(s),
{
    let t = trim_start(s);
    let u = trim_end(t);
    lemma_trim_start_shape(s);
    lemma_trim_end_shape(t);
    if u.len() > 0 {
        assert(u[0] == t[0]);
    }
    assert(trim_start(u) == u);
    assert(trim_end(u) == u);
}

proof fn lemma_trim_start_step(s: Seq<char>, i: int)
    requires
        0 <= i < s.len(),
        is_ws(s[i]),
    ensures
        trim_start(s.subrange(i, s.len() as int)) == trim_start(s.subrange(i + 1, s.len() as int)),
{
    assert(s.subrange(i, s.len() as int).drop_first() =~= s.subrange(i + 1, s.len() as int));
}

proof fn lemma_trim_end_step(s: Seq<char>, i: int, j: int)
    requires
        0 <= i < j <= s.len(),
        is_ws(s[j - 1]),
    ensures
        trim_end(s.subrange(i, j)) == trim_end(s.subrange(i, j - 1)),
{
    assert(s.subrange(i, j).drop_last() =~= s.subrange(i, j - 1));
}

/// The bounds `[from, to)` of `trim(v)` inside `v`.
pub fn trim_bounds(v: &Vec<char>) -> (r: (usize, usize))
    ensures
        r.0 <= r.1 <= v.len(),
        v@.subrange(r.0 as int, r.1 as int) == trim(v@),
{
    let n = v.len();
    let mut i: usize = 0;
    assert(v@.subrange(0, n as int) =~= v@);
    while i < n && is_whitespace(v[i])
        invariant
            i <= n == v.len(),
            trim_start(v@) == trim_start(v@.subrange(i as int, n as int)),
        decreases n - i,
    {
        proof {
            lemma_trim_start_step(v@, i as int);
        }
        i += 1;
    }
    let ghost t = v@.subrange(i as int, n as int);
    assert(trim_start(t) == t);
    let mut j: usize = n;
    while j > i && is_whitespace(v[j - 1])
        invariant
            i <= j <= n == v.len(),
            trim_start(v@) == v@.subrange(i as int, n as int),
            trim_end(v@.subrange(i as int, n as int)) == trim_end(v@.subrange(i as int, j as int)),
        decreases j - i,
    {
        proof {
            lemma_trim_end_step(v@, i as int, j as int);
        }
        j -= 1;
    }
    let ghost u = v@.subrange(i as int, j as int);
    assert(trim_end(u) == u) by {
        if u.len() > 0 {
            assert(u.last() == v@[j - 1]);
        }
    }
    (i, j)
}

/// `str::trim`, as an owned string.
pub fn trim_str(s: &str) -> (r: String)
    ensures
        r@ == trim(s@),
{
    let v = chars_of(s);
    let (a, b) = trim_bounds(&v);
    string_from(&v, a, b)
}

/// Whether `s` is empty after trimming.
pub fn is_blank(s: &str) -> (r: bool)
    ensures
        r == (trim(s@).len() == 0),
{
    let v = chars_of(s);
    let (a, b) = trim_bounds(&v);
    a == b
}

/// `str::split(d)` with owned pieces.
pub fn split_on_char(s: &str, d: char) -> (r: Vec<String>)
    ensures
        strs(r@) == split_on(s@, d),
{
    let v = chars_of(s);
    let mut pieces: Vec<String> = Vec::new();
    let mut start: usize = 0;
    let mut i: usize = 0;
    assert(v@.take(0) =~= Seq::<char>::empty());
    assert(strs(pieces@).push(v@.subrange(0, 0)) =~= seq![Seq::<char>::empty()]);
    while i < v.len()
        invariant
            start <= i <= v.len(),
            v@ == s@,
            split_on(v@.take(i as int), d) == strs(pieces@).push(
                v@.subrange(start as int, i as int),
            ),
        decreases v.len() - i,
    {
        assert(v@.take(i + 1).drop_last() =~= v@.take(i as int));
        assert(v@.take(i + 1).last() == v@[i as int]);
        if v[i] == d {
            let piece = string_from(&v, start, i);
            pieces.push(piece);
            start = i + 1;
            assert(strs(pieces@) =~= strs(pieces@.drop_last()).push(piece@));
            assert(v@.subrange(start as int, i + 1) =~= Seq::<char>::empty());
        } else {
            assert(v@.subrange(start as int, i + 1) =~= v@.subrange(start as int, i as int).push(
                v@[i as int],
            ));
        }
        i += 1;
        assert(split_on(v@.take(i as int), d) =~= strs(pieces@).push(
            v@.subrange(start as int, i as int),
        ));
    }
    let last = string_from(&v, start, i);
    pieces.push(last);
    assert(v@.take(i as int) =~= v@);
    assert(strs(pieces@) =~= strs(pieces@.drop_last()).push(last@));
    pieces
}

/// `str::split_whitespace` with owned pieces.
pub fn split_ws_words(s: &str) -> (r: Vec<String>)
    ensures
        strs(r@) == words(s@),
{
    let v = chars_of(s);
    let mut out: Vec<String> = Vec::new();
    let mut start: usize = 0;
    let mut i: usize = 0;
    assert(v@.take(0) =~= Seq::<char>::empty());
    assert(strs(out@) =~= Seq::<Seq<char>>::empty());
    while i < v.len()
        invariant
            start <= i <= v.len(),
            v@ == s@,
            ({
                let sp = split_ws(v@.take(i as int));
                &&& sp.last() == v@.subrange(start as int, i as int)
                &&& nonempty(sp.drop_last()) == strs(out@)
                &&& sp.len() >= 1
            }),
        decreases v.len() - i,
    {
        let ghost sp = split_ws(v@.take(i as int));
        assert(v@.take(i + 1).drop_last() =~= v@.take(i as int));
        assert(v@.take(i + 1).last() == v@[i as int]);
        assert(nonempty(sp) == (if sp.last().len() > 0 {
            nonempty(sp.drop_last()).push(sp.last())
        } else {
            nonempty(sp.drop_last())
        }));
        if is_whitespace(v[i]) {
            if start < i {
                let piece = string_from(&v, start, i);
                out.push(piece);
                assert(strs(out@) =~= strs(out@.drop_last()).push(piece@));
            }
            let ghost sp2 = sp.push(Seq::<char>::empty());
            assert(sp2.drop_last() =~= sp);
            assert(sp.drop_last().push(sp.last()) =~= sp);
            start = i + 1;
            assert(v@.subrange(start as int, i + 1) =~= Seq::<char>::empty());
        } else {
            assert(v@.subrange(start as int, i + 1) =~= v@.subrange(start as int, i as int).push(
                v@[i as int],
            ));
            let ghost sp2 = sp.update(sp.len() - 1, sp.last().push(v@[i as int]));
            assert(sp2.drop_last() =~= sp.drop_last());
        }
        i += 1;
    }
    let ghost sp = split_ws(v@.take(i as int));
    assert(v@.take(i as int) =~= v@);
    assert(nonempty(sp) == (if sp.last().len() > 0 {
        nonempty(sp.drop_last()).push(sp.last())
    } else {
        nonempty(sp.drop_last())
    }));
    if start < i {
        let piece = string_from(&v, start, i);
        out.push(piece);
        assert(strs(out@) =~= strs(out@.drop_last()).push(piece@));
    }
    out
}

/// The strings of `v` joined with single spaces.
pub fn join_space(v: &Vec<String>) -> (r: String)
    ensures
        r@ == join(strs(v@), seq![' ']),
{
    join_char(v, ' ')
}

/// The strings of `v` joined with `c` between consecutive ones.
pub fn join_char(v: &Vec<String>, c: char) -> (r: String)
    ensures
        r@ == join(strs(v@), seq![c]),
{
    let mut r = String::new();
    let mut i: usize = 0;
    while i < v.len()
        invariant
            i <= v.len(),
            r@ == join(strs(v@).take(i as int), seq![c]),
        decreases v.len() - i,
    {
        let ghost before = r@;
        if i > 0 {
            r.push(c);
        }
        r.append(v[i].as_str());
        assert(strs(v@).take(i + 1).drop_last() =~= strs(v@).take(i as int));
        if i == 0 {
            assert(before =~= Seq::<char>::empty());
            assert(r@ =~= v@[0]@);
        } else {
            assert(r@ =~= before + seq![c] + v@[i as int]@);
        }
        i += 1;
    }
    assert(strs(v@).take(i as int) =~= strs(v@));
    r
}

/// `lowercase(s)` names what `str::to_lowercase` returns for `s`: every
/// character replaced by its Unicode lowercase mapping.
pub uninterp spec fn lowercase(s: Seq<char>) -> Seq<char>;

/// Calls `str::to_lowercase`; the result is named by `lowercase`.
#[verifier::external_body]
pub fn to_lowercase(s: &str) -> (r: String)
    ensures
        r@ == lowercase(s@),
{
    s.to_lowercase()
}

/// The decimal digits of `n`, most significant first, no leading zeros
/// (`"0"` for zero).
pub open spec fn decimal(n: nat) -> Seq<char>
    decreases n,
{
    if n < 10 {
        seq![digit_char(n)]
    } else {
        decimal(n / 10).push(digit_char(n % 10))
    }
}

/// The character of a decimal digit.
pub open spec fn digit_char(d: nat) -> char {
    if d == 0 { '0' }
    else if d == 1 { '1' }
    else if d == 2 { '2' }
    else if d == 3 { '3' }
    else if d == 4 { '4' }
    else if d == 5 { '5' }
    else if d == 6 { '6' }
    else if d == 7 { '7' }
    else if d == 8 { '8' }
    else { '9' }
}

fn digit(d: usize) -> (c: char)
    requires
        d < 10,
    ensures
        c == digit_char(d as nat),
{
    if d == 0 { '0' }
    else if d == 1 { '1' }
    else if d == 2 { '2' }
    else if d == 3 { '3' }
    else if d == 4 { '4' }
    else if d == 5 { '5' }
    else if d == 6 { '6' }
    else if d == 7 { '7' }
    else if d == 8 { '8' }
    else { '9' }
}

/// Appends the decimal digits of `n` to `s`.
pub fn push_decimal(s: &mut String, n: usize)
    ensures
        final(s)@ == old(s)@ + decimal(n as nat),
    decreases n,
{
    if n < 10 {
        s.push(digit(n));
    } else {
        push_decimal(s, n / 10);
        s.push(digit(n % 10));
    }
}

/// The concatenation of two strings.
pub fn concat(a: &str, b: &str) -> (r: String)
    ensures
        r@ == a@ + b@,
{
    let mut r = a.to_owned();
    r.append(b);
    r
}

/// The first position of `key` in `hs`.
pub open spec fn position_of(hs: Seq<Seq<char>>, key: Seq<char>) -> Option<int>
    decreases hs.len(),
{
    if hs.len() == 0 {
        None
    } else {
        match position_of(hs.drop_last(), key) {
            Some(i) => Some(i),
            None => if hs.last() == key {
                Some(hs.len() - 1)
            } else {
                None
            },
        }
    }
}

/// A position found in a prefix is the position in the whole sequence.
pub proof fn lemma_position_prefix(hs: Seq<Seq<char>>, n: int, key: Seq<char>)
    requires
        0 <= n <= hs.len(),
        position_of(hs.take(n), key) is Some,
    ensures
        position_of(hs, key) == position_of(hs.take(n), key),
    decreases hs.len() - n,
{
    if n < hs.len() {
        assert(hs.take(n + 1).drop_last() =~= hs.take(n));
        lemma_position_prefix(hs, n + 1, key);
    } else {
        assert(hs.take(n) =~= hs);
    }
}

/// What `position_of` says: the position holds `key` and no earlier one
/// does; with no position, no member equals `key`.
pub proof fn lemma_position_of(hs: Seq<Seq<char>>, key: Seq<char>)
    ensures
        match position_of(hs, key) {
            Some(i) => 0 <= i < hs.len() && hs[i] == key && forall|j: int|
                0 <= j < i ==> #[trigger] hs[j] != key,
            None => forall|j: int| 0 <= j < hs.len() ==> #[trigger] hs[j] != key,
        },
    decreases hs.len(),
{
    if hs.len() > 0 {
        let init = hs.drop_last();
        lemma_position_of(init, key);
        match position_of(init, key) {
            Some(i) => {
                assert(hs[i] == init[i]);
                assert forall|j: int| 0 <= j < i implies #[trigger] hs[j] != key by {
                    assert(hs[j] == init[j]);
                }
            },
            None => {
                assert forall|j: int| 0 <= j < hs.len() - 1 implies #[trigger] hs[j] != key by {
                    assert(hs[j] == init[j]);
                }
            },
        }
    }
}

/// `uppercase(s)` names what `str::to_uppercase` returns for `s`: every
/// character replaced by its Unicode uppercase mapping.
pub uninterp spec fn uppercase(s: Seq<char>) -> Seq<char>;

/// Calls `str::to_uppercase`; the result is named by `uppercase`.
#[verifier::external_body]
pub fn to_uppercase(s: &str) -> (r: String)
    ensures
        r@ == uppercase(s@),
{
    s.to_uppercase()
}

/// `alnum(c)` names what `char::is_alphanumeric` answers for `c`: whether it
/// is a Unicode letter or number.
pub uninterp spec fn alnum(c: char) -> bool;

/// Calls `char::is_alphanumeric`; the answer is named by `alnum`.
#[verifier::external_body]
pub fn is_alphanumeric(c: char) -> (r: bool)
    ensures
        r == alnum(c),
{
    c.is_alphanumeric()
}

/// `s` without its leading and trailing characters that are not letters or
/// numbers.
pub open spec fn strip_non_alnum(s: Seq<char>) -> Seq<char> {
    strip_end_non_alnum(strip_start_non_alnum(s))
}

pub open spec fn strip_start_non_alnum(s: Seq<char>) -> Seq<char>
    decreases s.len(),
{
    if s.len() > 0 && !alnum(s[0]) {
        strip_start_non_alnum(s.drop_first())
    } else {
        s
    }
}

pub open spec fn strip_end_non_alnum(s: Seq<char>) -> Seq<char>
    decreases s.len(),
{
    if s.len() > 0 && !alnum(s.last()) {
        strip_end_non_alnum(s.drop_last())
    } else {
        s
    }
}

/// `s` without its leading and trailing characters that are not letters or
/// numbers (`str::trim_matches` with that test).
pub fn trim_non_alnum(s: &str) -> (r: String)
    ensures
        r@ == strip_non_alnum(s@),
{
    let v = chars_of(s);
    let mut a: usize = 0;
    assert(v@.subrange(0, v.len() as int) =~= v@);
    while a < v.len() && !is_alphanumeric(v[a])
        invariant
            a <= v.len(),
            strip_start_non_alnum(v@) == strip_start_non_alnum(v@.subrange(a as int, v.len() as int)),
        decreases v.len() - a,
    {
        assert(v@.subrange(a as int, v.len() as int).drop_first() =~= v@.subrange(a + 1, v.len() as int));
        a += 1;
    }
    let ghost st = v@.subrange(a as int, v.len() as int);
    assert(strip_start_non_alnum(st) == st);
    let mut b: usize = v.len();
    assert(v@.subrange(a as int, b as int) =~= st);
    while b > a && !is_alphanumeric(v[b - 1])
        invariant
            a <= b <= v.len(),
            strip_end_non_alnum(st) == strip_end_non_alnum(v@.subrange(a as int, b as int)),
        decreases b - a,
    {
        assert(v@.subrange(a as int, b as int).drop_last() =~= v@.subrange(a as int, b - 1));
        b -= 1;
    }
    string_from(&v, a, b)
}

/// `str::replace`: every match of `pat` in `s`, scanned from the left
/// without overlap, replaced by `to`; an empty `pat` matches at every
/// character boundary.
pub open spec fn replace_all(s: Seq<char>, pat: Seq<char>, to: Seq<char>) -> Seq<char>
    decreases s.len(),
{
    if pat.len() == 0 {
        if s.len() == 0 {
            to
        } else {
            to + seq![s[0]] + replace_all(s.drop_first(), pat, to)
        }
    } else if s.len() < pat.len() {
        s
    } else if s.take(pat.len() as int) == pat {
        to + replace_all(s.skip(pat.len() as int), pat, to)
    } else {
        seq![s[0]] + replace_all(s.drop_first(), pat, to)
    }
}

/// `s` with every match of `pat` replaced by `to` (see `replace_all`).
pub fn replace_text(s: &str, pat: &str, to: &str) -> (r: String)
    ensures
        r@ == replace_all(s@, pat@, to@),
{
    let v = chars_of(s);
    let p = chars_of(pat);
    let n = v.len();
    let m = p.len();
    let mut out = String::new();
    let mut i: usize = 0;
    assert(v@.skip(0) =~= v@);
    while i < n
        invariant
            i <= n,
            n == v.len(),
            m == p.len(),
            v@ == s@,
            p@ == pat@,
            out@ + replace_all(v@.skip(i as int), pat@, to@) == replace_all(s@, pat@, to@),
        decreases n - i,
    {
        let ghost rest = v@.skip(i as int);
        assert(rest[0] == v@[i as int]);
        assert(rest.drop_first() =~= v@.skip(i + 1));
        if m == 0 {
            out.append(to);
            out.push(v[i]);
            i += 1;
            assert(replace_all(rest, pat@, to@) == to@ + seq![v@[i - 1]] + replace_all(v@.skip(i as int), pat@, to@));
            assert(out@ + replace_all(v@.skip(i as int), pat@, to@) =~= replace_all(s@, pat@, to@));
        } else if n - i < m {
            assert(replace_all(rest, pat@, to@) == rest);
            let tail = string_from(&v, i, n);
            out.append(tail.as_str());
            assert(out@ =~= replace_all(s@, pat@, to@));
            return out;
        } else {
            let mut k: usize = 0;
            while k < m && v[i + k] == p[k]
                invariant
                    k <= m,
                    i + m <= n,
                    n == v.len(),
                    m == p.len(),
                    forall|j: int| 0 <= j < k ==> #[trigger] v@[i + j] == p@[j],
                decreases m - k,
            {
                k += 1;
            }
            if k == m {
                assert(rest.take(m as int) =~= pat@) by {
                    assert forall|j: int| 0 <= j < m implies #[trigger] rest.take(m as int)[j] == pat@[j] by {
                        assert(v@[i + j] == p@[j]);
                    }
                }
                assert(rest.skip(m as int) =~= v@.skip(i + m));
                out.append(to);
                i += m;
            } else {
                assert(rest.take(m as int) != pat@) by {
                    assert(rest.take(m as int)[k as int] == v@[i + k]);
                }
                out.push(v[i]);
                i += 1;
                assert(out@ + replace_all(v@.skip(i as int), pat@, to@) =~= replace_all(s@, pat@, to@));
            }
        }
    }
    let ghost rest = v@.skip(i as int);
    assert(rest.len() == 0);
    if m == 0 {
        out.append(to);
    }
    assert(out@ =~= replace_all(s@, pat@, to@));
    out
}

/// `s` without its leading occurrences of `c` (`str::trim_start_matches`).
pub open spec fn strip_leading(s: Seq<char>, c: char) -> Seq<char>
    decreases s.len(),
{
    if s.len() > 0 && s[0] == c {
        strip_leading(s.drop_first(), c)
    } else {
        s
    }
}

/// `s` without its trailing occurrences of `c` (`str::trim_end_matches`).
pub open spec fn strip_trailing(s: Seq<char>, c: char) -> Seq<char>
    decreases s.len(),
{
    if s.len() > 0 && s.last() == c {
        strip_trailing(s.drop_last(), c)
    } else {
        s
    }
}

/// Whether `s` begins with `p`.
pub open spec fn starts_with(s: Seq<char>, p: Seq<char>) -> bool {
    p.len() <= s.len() && s.take(p.len() as int) == p
}

/// The first position at or after `i` where `p` occurs in `s`.
pub open spec fn find_from(s: Seq<char>, p: Seq<char>, i: int) -> Option<int>
    decreases s.len() + 1 - i,
{
    if i < 0 || i + p.len() > s.len() {
        None
    } else if s.subrange(i, i + p.len()) == p {
        Some(i)
    } else {
        find_from(s, p, i + 1)
    }
}

/// The first position where `p` occurs in `s` (`str::find`).
pub open spec fn find_text(s: Seq<char>, p: Seq<char>) -> Option<int> {
    find_from(s, p, 0)
}

/// A line without its `\r` ending, if it has one.
pub open spec fn without_cr(l: Seq<char>) -> Seq<char> {
    if l.len() > 0 && l.last() == '\r' {
        l.drop_last()
    } else {
        l
    }
}

/// `str::lines`: the pieces between `\n`, each without a `\r` ending, and
/// no empty last piece after a final line ending.
pub open spec fn text_lines(s: Seq<char>) -> Seq<Seq<char>> {
    let ps = split_on(s, '\n');
    let ps2 = if ps.len() > 0 && ps.last().len() == 0 {
        ps.drop_last()
    } else {
        ps
    };
    ps2.map_values(|l: Seq<char>| without_cr(l))
}

/// The characters of `s` from position `from` to `to`.
pub fn substring(s: &str, from: usize, to: usize) -> (r: String)
    requires
        from <= to <= s@.len(),
    ensures
        r@ == s@.subrange(from as int, to as int),
{
    let v = chars_of(s);
    string_from(&v, from, to)
}

/// The number of characters of `s`.
pub fn char_count(s: &str) -> (r: usize)
    ensures
        r == s@.len(),
{
    let v = chars_of(s);
    v.len()
}

/// `s` without its leading whitespace.
pub fn trim_start_str(s: &str) -> (r: String)
    ensures
        r@ == trim_start(s@),
{
    let v = chars_of(s);
    let mut a: usize = 0;
    assert(v@.subrange(0, v.len() as int) =~= v@);
    while a < v.len() && is_whitespace(v[a])
        invariant
            a <= v.len(),
            trim_start(v@) == trim_start(v@.subrange(a as int, v.len() as int)),
        decreases v.len() - a,
    {
        assert(v@.subrange(a as int, v.len() as int).drop_first() =~= v@.subrange(a + 1, v.len() as int));
        a += 1;
    }
    string_from(&v, a, v.len())
}

/// `s` without its leading occurrences of `c`.
pub fn strip_leading_char(s: &str, c: char) -> (r: String)
    ensures
        r@ == strip_leading(s@, c),
{
    let v = chars_of(s);
    let mut a: usize = 0;
    assert(v@.subrange(0, v.len() as int) =~= v@);
    while a < v.len() && v[a] == c
        invariant
            a <= v.len(),
            strip_leading(v@, c) == strip_leading(v@.subrange(a as int, v.len() as int), c),
        decreases v.len() - a,
    {
        assert(v@.subrange(a as int, v.len() as int).drop_first() =~= v@.subrange(a + 1, v.len() as int));
        a += 1;
    }
    string_from(&v, a, v.len())
}

/// `s` without its leading and trailing occurrences of `c`.
pub fn strip_both_char(s: &str, c: char) -> (r: String)
    ensures
        r@ == strip_trailing(strip_leading(s@, c), c),
{
    let t = strip_leading_char(s, c);
    let v = chars_of(t.as_str());
    let mut b: usize = v.len();
    assert(v@.subrange(0, b as int) =~= v@);
    while b > 0 && v[b - 1] == c
        invariant
            b <= v.len(),
            strip_trailing(v@, c) == strip_trailing(v@.subrange(0, b as int), c),
        decreases b,
    {
        assert(v@.subrange(0, b as int).drop_last() =~= v@.subrange(0, b - 1));
        b -= 1;
    }
    string_from(&v, 0, b)
}

/// Whether `s` begins with `p`.
pub fn starts_with_text(s: &str, p: &str) -> (r: bool)
    ensures
        r == starts_with(s@, p@),
{
    let v = chars_of(s);
    let w = chars_of(p);
    if w.len() > v.len() {
        return false;
    }
    let mut k: usize = 0;
    while k < w.len()
        invariant
            k <= w.len() <= v.len(),
            v@ == s@,
            w@ == p@,
            forall|j: int| 0 <= j < k ==> #[trigger] v@[j] == w@[j],
        decreases w.len() - k,
    {
        if v[k] != w[k] {
            assert(s@.take(p@.len() as int)[k as int] != p@[k as int]);
            return false;
        }
        k += 1;
    }
    assert(s@.take(p@.len() as int) =~= p@);
    true
}

/// The first position where `p` occurs in `s`.
pub fn find_text_exec(s: &str, p: &str) -> (r: Option<usize>)
    ensures
        match r {
            Some(i) => find_text(s@, p@) == Some(i as int),
            None => find_text(s@, p@) is None,
        },
{
    let v = chars_of(s);
    let w = chars_of(p);
    let n = v.len();
    let m = w.len();
    if m > n {
        return None;
    }
    let mut i: usize = 0;
    while i <= n - m
        invariant
            i <= n - m + 1,
            m <= n,
            v@ == s@,
            w@ == p@,
            n == v.len(),
            m == w.len(),
            find_text(s@, p@) == find_from(s@, p@, i as int),
        decreases n - i,
    {
        let mut k: usize = 0;
        while k < m && v[i + k] == w[k]
            invariant
                k <= m,
                i + m <= n,
                n == v.len(),
                m == w.len(),
                forall|j: int| 0 <= j < k ==> #[trigger] v@[i + j] == w@[j],
            decreases m - k,
        {
            k += 1;
        }
        if k == m {
            assert(s@.subrange(i as int, i + m) =~= p@) by {
                assert forall|j: int| 0 <= j < m implies #[trigger] s@.subrange(i as int, i + m)[j] == p@[j] by {
                    assert(v@[i + j] == w@[j]);
                }
            }
            return Some(i);
        }
        assert(s@.subrange(i as int, i + m) != p@) by {
            assert(s@.subrange(i as int, i + m)[k as int] == v@[i + k]);
        }
        i += 1;
    }
    None
}

/// The lines of `s` (see `text_lines`).
pub fn lines_of(s: &str) -> (r: Vec<String>)
    ensures
        strs(r@) == text_lines(s@),
{
    let pieces = split_on_char(s, '\n');
    let ghost ps = strs(pieces@);
    let mut n = pieces.len();
    if n > 0 && pieces[n - 1].as_str().is_empty() {
        n = n - 1;
    }
    let ghost ps2 = if ps.len() > 0 && ps.last().len() == 0 {
        ps.drop_last()
    } else {
        ps
    };
    assert(ps2 =~= ps.take(n as int));
    let mut out: Vec<String> = Vec::new();
    let mut i: usize = 0;
    while i < n
        invariant
            i <= n <= pieces.len(),
            ps == strs(pieces@),
            out.len() == i,
            forall|j: int| 0 <= j < i ==> #[trigger] out@[j]@ == without_cr(ps[j]),
        decreases n - i,
    {
        let v = chars_of(pieces[i].as_str());
        let line = if v.len() > 0 && v[v.len() - 1] == '\r' {
            string_from(&v, 0, v.len() - 1)
        } else {
            string_from(&v, 0, v.len())
        };
        assert(v@.subrange(0, v.len() as int) =~= v@);
        assert(v@.subrange(0, v.len() - 1) =~= v@.drop_last());
        out.push(line);
        i += 1;
    }
    assert(strs(out@) =~= text_lines(s@));
    out
}

/// A position `find_text` gives leaves room for the pattern.
pub proof fn lemma_find_text_bound(s: Seq<char>, p: Seq<char>)
    ensures
        find_text(s, p) matches Some(i) ==> 0 <= i && i + p.len() <= s.len(),
{
    lemma_find_from_bound(s, p, 0);
}

proof fn lemma_find_from_bound(s: Seq<char>, p: Seq<char>, i: int)
    ensures
        find_from(s, p, i) matches Some(k) ==> i <= k && 0 <= k && k + p.len() <= s.len(),
    decreases s.len() + 1 - i,
{
    if i < 0 || i + p.len() > s.len() {
    } else if s.subrange(i, i + p.len()) == p {
    } else {
        lemma_find_from_bound(s, p, i + 1);
    }
}

} // verus!
