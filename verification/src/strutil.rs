//! Verified string helpers: prefix/suffix tests, character search, substring
//! search, splitting on a separator string, whitespace trimming, and a
//! lexicographic order on strings.

use vstd::prelude::*;

verus! {

/// `p` is a prefix of `s`.
pub open spec fn is_prefix(p: Seq<char>, s: Seq<char>) -> bool {
    p.len() <= s.len() && s.take(p.len() as int) == p
}

/// `p` is a suffix of `s`.
pub open spec fn is_suffix(p: Seq<char>, s: Seq<char>) -> bool {
    p.len() <= s.len() && s.skip(s.len() - p.len()) == p
}

/// `sep` occurs in `s` at position `i`.
pub open spec fn match_at(s: Seq<char>, sep: Seq<char>, i: int) -> bool {
    0 <= i && i + sep.len() <= s.len() && s.subrange(i, i + sep.len()) == sep
}

/// Position of the leftmost occurrence of `sep` in `s`, or -1 if `sep` does
/// not occur (or is empty).
pub open spec fn find_sep(s: Seq<char>, sep: Seq<char>) -> int
    decreases s.len(),
{
    if sep.len() == 0 || s.len() < sep.len() {
        -1
    } else if s.take(sep.len() as int) == sep {
        0
    } else {
        let r = find_sep(s.drop_first(), sep);
        if r < 0 {
            -1
        } else {
            r + 1
        }
    }
}

/// The pieces of `s` around the non-overlapping, leftmost-first occurrences
/// of `sep`; a single piece holding all of `s` when `sep` does not occur.
pub open spec fn spec_split(s: Seq<char>, sep: Seq<char>) -> Seq<Seq<char>>
    decreases s.len(),
    via spec_split_decreases
{
    let i = find_sep(s, sep);
    if i < 0 {
        seq![s]
    } else {
        seq![s.take(i)] + spec_split(s.skip(i + sep.len()), sep)
    }
}

#[via_fn]
proof fn spec_split_decreases(s: Seq<char>, sep: Seq<char>) {
    lemma_find_sep_bounds(s, sep);
}

proof fn lemma_find_sep_bounds(s: Seq<char>, sep: Seq<char>)
    ensures
        find_sep(s, sep) >= 0 ==> sep.len() >= 1 && find_sep(s, sep) + sep.len() <= s.len(),
    decreases s.len(),
{
    if sep.len() == 0 || s.len() < sep.len() {
    } else if s.take(sep.len() as int) == sep {
    } else {
        lemma_find_sep_bounds(s.drop_first(), sep);
    }
}

proof fn lemma_match_at_shift(s: Seq<char>, sep: Seq<char>, j: int)
    requires
        s.len() >= 1,
        j >= 0,
    ensures
        match_at(s.drop_first(), sep, j) <==> match_at(s, sep, j + 1),
{
    if j + sep.len() <= s.len() - 1 {
        assert(s.drop_first().subrange(j, j + sep.len()) =~= s.subrange(j + 1, j + 1 + sep.len()));
    }
}

/// `find_sep` finds exactly the leftmost occurrence of `sep`.
proof fn lemma_find_sep_spec(s: Seq<char>, sep: Seq<char>)
    requires
        sep.len() >= 1,
    ensures
        find_sep(s, sep) == -1 ==> forall|j: int| !match_at(s, sep, j),
        find_sep(s, sep) >= 0 ==> match_at(s, sep, find_sep(s, sep)) && (forall|j: int|
            0 <= j < find_sep(s, sep) ==> !match_at(s, sep, j)),
    decreases s.len(),
{
    if s.len() < sep.len() {
    } else if s.take(sep.len() as int) == sep {
        assert(s.subrange(0, sep.len() as int) == s.take(sep.len() as int));
    } else {
        lemma_find_sep_spec(s.drop_first(), sep);
        let r = find_sep(s.drop_first(), sep);
        assert(s.subrange(0, sep.len() as int) == s.take(sep.len() as int));
        assert(!match_at(s, sep, 0));
        if r < 0 {
            assert forall|j: int| !match_at(s, sep, j) by {
                if j >= 1 {
                    lemma_match_at_shift(s, sep, j - 1);
                }
            }
        } else {
            lemma_match_at_shift(s, sep, r);
            assert(match_at(s, sep, r + 1));
            assert forall|j: int| 0 <= j < r + 1 implies !match_at(s, sep, j) by {
                if j >= 1 {
                    lemma_match_at_shift(s, sep, j - 1);
                }
            }
        }
    }
}

/// Head/tail unrolling of `spec_split` at a leftmost occurrence.
pub proof fn lemma_split_step(s: Seq<char>, sep: Seq<char>, k: int)
    requires
        sep.len() >= 1,
        match_at(s, sep, k),
        forall|j: int| 0 <= j < k ==> !match_at(s, sep, j),
    ensures
        spec_split(s, sep) == seq![s.take(k)] + spec_split(s.skip(k + sep.len()), sep),
{
    lemma_find_sep_spec(s, sep);
    let i = find_sep(s, sep);
    if i == -1 {
        assert(!match_at(s, sep, k));
    } else if i < k {
        assert(!match_at(s, sep, i));
    } else if i > k {
        assert(!match_at(s, sep, k));
    }
}

/// `spec_split` of a separator-free string is that string alone.
pub proof fn lemma_split_none(s: Seq<char>, sep: Seq<char>)
    requires
        sep.len() >= 1,
        forall|j: int| !match_at(s, sep, j),
    ensures
        spec_split(s, sep) == seq![s],
{
    lemma_find_sep_spec(s, sep);
    let i = find_sep(s, sep);
    if i >= 0 {
        assert(!match_at(s, sep, i));
    }
}

/// Splitting starts at a leading piece that is free of the separator's
/// first character.
pub proof fn lemma_split_concat_head(x: Seq<char>, sep: Seq<char>, rest: Seq<char>)
    requires
        sep.len() >= 1,
        forall|i: int| 0 <= i < x.len() ==> x[i] != sep[0],
    ensures
        spec_split(x + sep + rest, sep) == seq![x] + spec_split(rest, sep),
{
    let s = x + sep + rest;
    let k = x.len() as int;
    assert(s.subrange(k, k + sep.len()) =~= sep);
    assert(match_at(s, sep, k));
    assert forall|j: int| 0 <= j < k implies !match_at(s, sep, j) by {
        if match_at(s, sep, j) {
            assert(s.subrange(j, j + sep.len())[0] == s[j]);
            assert(s[j] == x[j]);
        }
    }
    lemma_split_step(s, sep, k);
    assert(s.take(k) =~= x);
    assert(s.skip(k + sep.len()) =~= rest);
}

/// A string free of the separator's first character splits into itself
/// alone.
pub proof fn lemma_split_whole(x: Seq<char>, sep: Seq<char>)
    requires
        sep.len() >= 1,
        forall|i: int| 0 <= i < x.len() ==> x[i] != sep[0],
    ensures
        spec_split(x, sep) == seq![x],
{
    assert forall|j: int| !match_at(x, sep, j) by {
        if match_at(x, sep, j) {
            assert(x.subrange(j, j + sep.len())[0] == x[j]);
        }
    }
    lemma_split_none(x, sep);
}

/// Does `c` occur in `s`?
pub fn contains_char(s: &str, c: char) -> (r: bool)
    ensures
        r == s@.contains(c),
{
    let n = s.unicode_len();
    let mut i: usize = 0;
    while i < n
        invariant
            i <= n,
            n == s@.len(),
            forall|j: int| 0 <= j < i ==> s@[j] != c,
        decreases n - i,
    {
        if s.get_char(i) == c {
            assert(s@[i as int] == c);
            return true;
        }
        i += 1;
    }
    false
}

/// Index of the first occurrence of `c` in `s`, if any.
pub fn find_char(s: &str, c: char) -> (r: Option<usize>)
    ensures
        r matches Some(i) ==> i < s@.len() && s@[i as int] == c && (forall|j: int|
            0 <= j < i ==> s@[j] != c),
        r is None ==> !s@.contains(c),
{
    let n = s.unicode_len();
    let mut i: usize = 0;
    while i < n
        invariant
            i <= n,
            n == s@.len(),
            forall|j: int| 0 <= j < i ==> s@[j] != c,
        decreases n - i,
    {
        if s.get_char(i) == c {
            return Some(i);
        }
        i += 1;
    }
    None
}

/// Does `s` start with `p`?
pub fn has_prefix(s: &str, p: &str) -> (r: bool)
    ensures
        r == is_prefix(p@, s@),
{
    let n = s.unicode_len();
    let m = p.unicode_len();
    if m > n {
        return false;
    }
    let mut i: usize = 0;
    while i < m
        invariant
            i <= m,
            m <= n,
            n == s@.len(),
            m == p@.len(),
            forall|j: int| 0 <= j < i ==> s@[j] == p@[j],
        decreases m - i,
    {
        if s.get_char(i) != p.get_char(i) {
            assert(s@.take(m as int)[i as int] != p@[i as int]);
            return false;
        }
        i += 1;
    }
    assert(s@.take(m as int) =~= p@);
    true
}

/// Does `s` end with `p`?
pub fn has_suffix(s: &str, p: &str) -> (r: bool)
    ensures
        r == is_suffix(p@, s@),
{
    let n = s.unicode_len();
    let m = p.unicode_len();
    if m > n {
        return false;
    }
    let mut i: usize = 0;
    while i < m
        invariant
            i <= m,
            m <= n,
            n == s@.len(),
            m == p@.len(),
            forall|j: int| 0 <= j < i ==> s@[n - m + j] == p@[j],
        decreases m - i,
    {
        if s.get_char(n - m + i) != p.get_char(i) {
            assert(s@.skip(n as int - m as int)[i as int] != p@[i as int]);
            return false;
        }
        i += 1;
    }
    assert(s@.skip(n as int - m as int) =~= p@);
    true
}

/// Returns `s` without the prefix `p` when `p` is a prefix of `s`, and `s`
/// unchanged otherwise.
pub fn strip_prefix_or_self(s: &str, p: &str) -> (r: String)
    ensures
        is_prefix(p@, s@) ==> r@ == s@.skip(p@.len() as int),
        !is_prefix(p@, s@) ==> r@ == s@,
{
    if has_prefix(s, p) {
        let rest = s.substring_char(p.unicode_len(), s.unicode_len());
        rest.to_owned()
    } else {
        s.to_owned()
    }
}

/// `sep` occurs somewhere in `s`.
pub open spec fn contains_seq(s: Seq<char>, sep: Seq<char>) -> bool {
    exists|j: int| match_at(s, sep, j)
}

/// Does `sep` occur anywhere in `s`?
pub fn contains_str(s: &str, sep: &str) -> (r: bool)
    requires
        sep@.len() >= 1,
    ensures
        r == contains_seq(s@, sep@),
{
    match find_str(s, sep) {
        Some(i) => {
            assert(match_at(s@, sep@, i as int));
            true
        },
        None => false,
    }
}

/// Index of the leftmost occurrence of `sep` in `s`, if any.
pub fn find_str(s: &str, sep: &str) -> (r: Option<usize>)
    requires
        sep@.len() >= 1,
    ensures
        r matches Some(i) ==> match_at(s@, sep@, i as int) && (forall|j: int|
            0 <= j < i ==> !match_at(s@, sep@, j)),
        r is None ==> forall|j: int| !match_at(s@, sep@, j),
{
    let n = s.unicode_len();
    let m = sep.unicode_len();
    if m > n {
        assert forall|j: int| !match_at(s@, sep@, j) by {}
        return None;
    }
    let mut i: usize = 0;
    while i <= n - m
        invariant
            n == s@.len(),
            m == sep@.len(),
            1 <= m <= n,
            i <= n - m + 1,
            forall|j: int| 0 <= j < i ==> !match_at(s@, sep@, j),
        decreases n - i,
    {
        let mut t: usize = 0;
        let mut matches = true;
        while t < m
            invariant
                t <= m,
                i + m <= n,
                n == s@.len(),
                m == sep@.len(),
                matches ==> forall|q: int| 0 <= q < t ==> s@[i + q] == sep@[q],
                !matches ==> !match_at(s@, sep@, i as int),
            decreases m - t,
        {
            if s.get_char(i + t) != sep.get_char(t) {
                proof {
                    if match_at(s@, sep@, i as int) {
                        assert(s@.subrange(i as int, i + sep@.len())[t as int] == sep@[t as int]);
                    }
                }
                matches = false;
                t = m;
            } else {
                t += 1;
            }
        }
        if matches {
            assert(s@.subrange(i as int, i + sep@.len()) =~= sep@);
            assert(match_at(s@, sep@, i as int));
            return Some(i);
        }
        i += 1;
    }
    assert forall|j: int| !match_at(s@, sep@, j) by {
        if 0 <= j < i {
        } else if j >= i {
        }
    }
    None
}

/// Splits `s` on every occurrence of `sep`, leftmost first.
pub fn split_str(s: &str, sep: &str) -> (r: Vec<String>)
    requires
        sep@.len() >= 1,
    ensures
        r@.map_values(|t: String| t@) == spec_split(s@, sep@),
        r@.len() >= 1,
    decreases s@.len(),
{
    match find_str(s, sep) {
        None => {
            proof {
                lemma_split_none(s@, sep@);
            }
            let mut r: Vec<String> = Vec::new();
            r.push(s.to_owned());
            proof {
                assert(r@.map_values(|t: String| t@) =~= seq![s@]);
            }
            r
        },
        Some(i) => {
            proof {
                lemma_split_step(s@, sep@, i as int);
            }
            let head = s.substring_char(0, i).to_owned();
            let m = sep.unicode_len();
            let n = s.unicode_len();
            proof {
                assert(i + m <= n);
            }
            let tail = s.substring_char(i + m, n);
            let mut rest = split_str(tail, sep);
            let mut r: Vec<String> = Vec::new();
            r.push(head);
            r.append(&mut rest);
            proof {
                assert(s@.subrange(0, i as int) =~= s@.take(i as int));
                assert(tail@ =~= s@.skip(i + sep@.len()));
                assert(r@.map_values(|t: String| t@) =~= spec_split(s@, sep@));
            }
            r
        },
    }
}

/// The characters that count as whitespace for trimming: the same set that
/// Rust's `char::is_whitespace` accepts.
pub open spec fn is_space(c: char) -> bool {
    c == ' ' || c == '\t' || c == '\n' || c == '\u{b}' || c == '\u{c}' || c == '\r' || c
        == '\u{85}' || c == '\u{a0}' || c == '\u{1680}' || ('\u{2000}' <= c && c <= '\u{200a}') || c
        == '\u{2028}' || c == '\u{2029}' || c == '\u{202f}' || c == '\u{205f}' || c == '\u{3000}'
}

fn is_space_char(c: char) -> (r: bool)
    ensures
        r == is_space(c),
{
    c == ' ' || c == '\t' || c == '\n' || c == '\u{b}' || c == '\u{c}' || c == '\r' || c
        == '\u{85}' || c == '\u{a0}' || c == '\u{1680}' || ('\u{2000}' <= c && c <= '\u{200a}') || c
        == '\u{2028}' || c == '\u{2029}' || c == '\u{202f}' || c == '\u{205f}' || c == '\u{3000}'
}

/// `s` without leading and trailing whitespace.
pub open spec fn spec_trim(s: Seq<char>) -> Seq<char>
    decreases s.len(),
{
    if s.len() == 0 {
        s
    } else if is_space(s.first()) {
        spec_trim(s.drop_first())
    } else if is_space(s.last()) {
        spec_trim(s.drop_last())
    } else {
        s
    }
}

/// Removes leading and trailing whitespace from `s`.
pub fn trim(s: &str) -> (r: String)
    ensures
        r@ == spec_trim(s@),
{
    let n = s.unicode_len();
    proof {
        assert(s@.skip(0) =~= s@);
    }
    let mut a: usize = 0;
    while a < n && is_space_char(s.get_char(a))
        invariant
            a <= n,
            n == s@.len(),
            spec_trim(s@) == spec_trim(s@.skip(a as int)),
        decreases n - a,
    {
        proof {
            assert(s@.skip(a as int).first() == s@[a as int]);
            assert(s@.skip(a as int).drop_first() =~= s@.skip(a as int + 1));
        }
        a += 1;
    }
    proof {
        assert(s@.skip(n as int) =~= Seq::<char>::empty());
    }
    let mut b: usize = n;
    while b > a && is_space_char(s.get_char(b - 1))
        invariant
            a <= b <= n,
            n == s@.len(),
            a < n ==> !is_space(s@[a as int]),
            spec_trim(s@) == spec_trim(s@.subrange(a as int, b as int)),
        decreases b,
    {
        proof {
            let t = s@.subrange(a as int, b as int);
            assert(t.first() == s@[a as int]);
            assert(t.last() == s@[b - 1]);
            assert(t.drop_last() =~= s@.subrange(a as int, b as int - 1));
        }
        b -= 1;
    }
    proof {
        let t = s@.subrange(a as int, b as int);
        if t.len() > 0 {
            assert(t.first() == s@[a as int]);
            assert(t.last() == s@[b - 1]);
        }
        assert(spec_trim(t) == t);
    }
    s.substring_char(a, b).to_owned()
}

/// Strict lexicographic order on character sequences, by code point.
pub open spec fn lex_lt(a: Seq<char>, b: Seq<char>) -> bool
    decreases a.len(),
{
    if b.len() == 0 {
        false
    } else if a.len() == 0 {
        true
    } else if a.first() < b.first() {
        true
    } else if b.first() < a.first() {
        false
    } else {
        lex_lt(a.drop_first(), b.drop_first())
    }
}

/// `lex_lt` is irreflexive: equal sequences are not below one another.
pub proof fn lemma_lex_lt_irreflexive(a: Seq<char>)
    ensures
        !lex_lt(a, a),
    decreases a.len(),
{
    if a.len() > 0 {
        lemma_lex_lt_irreflexive(a.drop_first());
    }
}

/// `lex_lt` is connected: two different sequences compare one way or the
/// other.
pub proof fn lemma_lex_lt_connected(a: Seq<char>, b: Seq<char>)
    requires
        a != b,
    ensures
        lex_lt(a, b) || lex_lt(b, a),
    decreases a.len(),
{
    if a.len() == 0 {
        assert(b.len() > 0) by {
            if b.len() == 0 {
                assert(a =~= b);
            }
        }
    } else if b.len() == 0 {
    } else if a.first() == b.first() {
        if a.drop_first() == b.drop_first() {
            assert(a.drop_first().len() == b.drop_first().len());
            assert(a.drop_first().len() == a.len() - 1);
            assert(b.drop_first().len() == b.len() - 1);
            assert(a.len() == b.len());
            assert(a[0] == b[0]);
            assert forall|i: int| 1 <= i < a.len() implies a[i] == b[i] by {
                assert(a.drop_first()[i - 1] == a[i]);
                assert(b.drop_first()[i - 1] == b[i]);
            }
            assert(a =~= b);
        }
        lemma_lex_lt_connected(a.drop_first(), b.drop_first());
    }
}

/// `lex_lt` is transitive.
pub proof fn lemma_lex_lt_transitive(a: Seq<char>, b: Seq<char>, c: Seq<char>)
    requires
        lex_lt(a, b),
        lex_lt(b, c),
    ensures
        lex_lt(a, c),
    decreases a.len(),
{
    if a.len() == 0 {
    } else if b.len() == 0 {
    } else if c.len() == 0 {
    } else if a.first() == b.first() && b.first() == c.first() {
        lemma_lex_lt_transitive(a.drop_first(), b.drop_first(), c.drop_first());
    }
}

/// Is `a` strictly below `b` in the lexicographic order?
pub fn str_lex_lt(a: &str, b: &str) -> (r: bool)
    ensures
        r == lex_lt(a@, b@),
{
    let na = a.unicode_len();
    let nb = b.unicode_len();
    proof {
        assert(a@.skip(0) =~= a@);
        assert(b@.skip(0) =~= b@);
    }
    let mut i: usize = 0;
    while i < na && i < nb
        invariant
            i <= na,
            i <= nb,
            na == a@.len(),
            nb == b@.len(),
            forall|j: int| 0 <= j < i ==> a@[j] == b@[j],
            lex_lt(a@, b@) == lex_lt(a@.skip(i as int), b@.skip(i as int)),
        decreases na - i,
    {
        let ca = a.get_char(i);
        let cb = b.get_char(i);
        proof {
            assert(a@.skip(i as int).first() == a@[i as int]);
            assert(b@.skip(i as int).first() == b@[i as int]);
            assert(a@.skip(i as int).drop_first() =~= a@.skip(i as int + 1));
            assert(b@.skip(i as int).drop_first() =~= b@.skip(i as int + 1));
        }
        if ca < cb {
            return true;
        }
        if cb < ca {
            return false;
        }
        i += 1;
    }
    proof {
        if i >= nb {
            assert(b@.skip(i as int).len() == 0);
        } else {
            assert(a@.skip(i as int).len() == 0);
            assert(b@.skip(i as int).len() > 0);
        }
    }
    i >= na && i < nb
}

} // verus!
