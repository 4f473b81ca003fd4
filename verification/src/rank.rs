//! The query layer: ranks every distribution of the index against a query
//! bag by KS distance, serves the first `k` results, and filters results by
//! `type:`, `:property` and `type:property` patterns.
//!
//! Ties between equal distances are broken deterministically: first the
//! type name, then the property name, in lexicographic order by code point.

use vstd::prelude::*;
use crate::index::{Entry, ExtensionIndex};
use crate::ks::{ks, ks_num, Dist};
use crate::strutil::{
    find_char, has_prefix, has_suffix, lemma_lex_lt_connected, lemma_lex_lt_irreflexive,
    lemma_lex_lt_transitive, lex_lt, str_lex_lt,
};
use crate::Error;

verus! {

broadcast use {vstd::seq_lib::group_to_multiset_ensures, vstd::multiset::group_multiset_axioms};

/// A ranked result: one (type, property) pair, its KS distance from the
/// query, and its value sequence.
pub struct Ranked {
    pub tname: String,
    pub property: String,
    pub dist: Dist,
    pub values: Vec<i64>,
}

/// The spec-level shadow of [`Ranked`].
pub struct RankedV {
    pub tname: Seq<char>,
    pub property: Seq<char>,
    pub dist: Dist,
    pub values: Seq<i64>,
}

impl View for Ranked {
    type V = RankedV;

    open spec fn view(&self) -> RankedV {
        RankedV {
            tname: self.tname@,
            property: self.property@,
            dist: self.dist,
            values: self.values@,
        }
    }
}

/// The ranking order: ascending KS distance, ties broken by type name then
/// property name, lexicographically.
pub open spec fn rank_le(a: RankedV, b: RankedV) -> bool {
    let ab = a.dist.num * b.dist.den;
    let ba = b.dist.num * a.dist.den;
    ||| ab < ba
    ||| (ab == ba && lex_lt(a.tname, b.tname))
    ||| (ab == ba && a.tname == b.tname && lex_lt(a.property, b.property))
    ||| (ab == ba && a.tname == b.tname && a.property == b.property)
}

/// Ascending under [`rank_le`].
pub open spec fn sorted_ranked(s: Seq<RankedV>) -> bool {
    forall|i: int, j: int| 0 <= i < j < s.len() ==> rank_le(s[i], s[j])
}

proof fn lemma_frac_trans(xn: int, xd: int, yn: int, yd: int, zn: int, zd: int)
    requires
        xd > 0,
        yd > 0,
        zd > 0,
        xn * yd <= yn * xd,
        yn * zd <= zn * yd,
    ensures
        xn * zd <= zn * xd,
        xn * yd < yn * xd ==> xn * zd < zn * xd,
        yn * zd < zn * yd ==> xn * zd < zn * xd,
{
    assert((xn * zd) * yd <= (zn * xd) * yd && (xn * yd < yn * xd ==> (xn * zd) * yd < (zn * xd)
        * yd) && (yn * zd < zn * yd ==> (xn * zd) * yd < (zn * xd) * yd)) by (nonlinear_arith)
        requires
            xd > 0,
            yd > 0,
            zd > 0,
            xn * yd <= yn * xd,
            yn * zd <= zn * yd,
    ;
    assert(xn * zd <= zn * xd && ((xn * zd) * yd < (zn * xd) * yd ==> xn * zd < zn * xd))
        by (nonlinear_arith)
        requires
            yd > 0,
            (xn * zd) * yd <= (zn * xd) * yd,
    ;
}

/// [`rank_le`] is transitive on well-formed distances.
pub proof fn lemma_rank_le_transitive(a: RankedV, b: RankedV, c: RankedV)
    requires
        a.dist.wf(),
        b.dist.wf(),
        c.dist.wf(),
        rank_le(a, b),
        rank_le(b, c),
    ensures
        rank_le(a, c),
{
    lemma_frac_trans(
        a.dist.num as int,
        a.dist.den as int,
        b.dist.num as int,
        b.dist.den as int,
        c.dist.num as int,
        c.dist.den as int,
    );
    let ab = a.dist.num * b.dist.den;
    let ba = b.dist.num * a.dist.den;
    let bc = b.dist.num * c.dist.den;
    let cb = c.dist.num * b.dist.den;
    if ab == ba && bc == cb {
        if lex_lt(a.tname, b.tname) || lex_lt(b.tname, c.tname) {
            if lex_lt(a.tname, b.tname) && lex_lt(b.tname, c.tname) {
                lemma_lex_lt_transitive(a.tname, b.tname, c.tname);
            }
        } else {
            if lex_lt(a.property, b.property) && lex_lt(b.property, c.property) {
                lemma_lex_lt_transitive(a.property, b.property, c.property);
            }
        }
    }
}

/// [`rank_le`] is total: any two results compare one way or the other.
pub proof fn lemma_rank_le_total(a: RankedV, b: RankedV)
    requires
        a.dist.wf(),
        b.dist.wf(),
    ensures
        rank_le(a, b) || rank_le(b, a),
{
    if a.dist.num * b.dist.den == b.dist.num * a.dist.den {
        if a.tname != b.tname {
            lemma_lex_lt_connected(a.tname, b.tname);
        } else if a.property != b.property {
            lemma_lex_lt_connected(a.property, b.property);
        }
    }
}

/// Does `a` come no later than `b` in the ranking order?
fn ranked_le_exec(a: &Ranked, b: &Ranked) -> (res: bool)
    ensures
        res == rank_le(a@, b@),
{
    proof {
        assert(a@.dist == a.dist && b@.dist == b.dist);
        assert(a@.tname == a.tname@ && b@.tname == b.tname@);
        assert(a@.property == a.property@ && b@.property == b.property@);
    }
    if a.dist.eq_frac(&b.dist) {
        if !(a.tname == b.tname) {
            let res = str_lex_lt(a.tname.as_str(), b.tname.as_str());
            proof {
                assert(res == rank_le(a@, b@));
            }
            res
        } else if !(a.property == b.property) {
            let res = str_lex_lt(a.property.as_str(), b.property.as_str());
            proof {
                lemma_lex_lt_irreflexive(a.tname@);
                assert(res == rank_le(a@, b@));
            }
            res
        } else {
            true
        }
    } else {
        let res = a.dist.le(&b.dist);
        proof {
            assert(res == rank_le(a@, b@));
        }
        res
    }
}

fn copy_values(v: &Vec<i64>) -> (r: Vec<i64>)
    ensures
        r@ == v@,
{
    let mut r: Vec<i64> = Vec::new();
    let mut i: usize = 0;
    while i < v.len()
        invariant
            i <= v@.len(),
            r@ == v@.take(i as int),
        decreases v@.len() - i,
    {
        r.push(v[i]);
        proof {
            assert(v@.take(i as int + 1) =~= v@.take(i as int).push(v@[i as int]));
        }
        i += 1;
    }
    proof {
        assert(v@.take(v@.len() as int) =~= v@);
    }
    r
}

impl Clone for Ranked {
    /// A copy with the same view.
    fn clone(&self) -> (r: Self)
        ensures
            r@ == self@,
    {
        Ranked {
            tname: self.tname.clone(),
            property: self.property.clone(),
            dist: self.dist,
            values: copy_values(&self.values),
        }
    }
}

proof fn lemma_to_multiset_insert_ranked(s: Seq<Ranked>, p: int, e: Ranked)
    requires
        0 <= p <= s.len(),
    ensures
        s.insert(p, e).to_multiset() == s.to_multiset().insert(e),
{
    let t = s.insert(p, e);
    s.insert_ensures(p, e);
    t.remove_ensures(p);
    assert(t.remove(p) =~= s);
    assert(t[p] == e);
    assert(t.to_multiset().remove(e) == s.to_multiset());
    assert(t.contains(e));
    assert(t.to_multiset().count(e) > 0);
    assert(t.to_multiset() =~= s.to_multiset().insert(e)) by {
        assert forall|v: Ranked| t.to_multiset().count(v) == s.to_multiset().insert(e).count(
            v,
        ) by {
            assert(t.to_multiset().remove(e).count(v) == s.to_multiset().count(v));
            if v == e {
                assert(s.to_multiset().insert(e).count(e) == s.to_multiset().count(e) + 1);
            } else {
                assert(s.to_multiset().insert(e).count(v) == s.to_multiset().count(v));
            }
        }
    }
}

/// Sorts the results ascending under the ranking order, keeping exactly the
/// same collection of results.
#[verifier::rlimit(100)]
fn sort_ranked(input: Vec<Ranked>) -> (r: Vec<Ranked>)
    requires
        forall|i: int| 0 <= i < input@.len() ==> (#[trigger] input@[i])@.dist.wf(),
    ensures
        r@.to_multiset() == input@.to_multiset(),
        sorted_ranked(r@.map_values(|x: Ranked| x@)),
        r@.len() == input@.len(),
{
    let mut v = input;
    let mut r: Vec<Ranked> = Vec::new();
    proof {
        assert(r@ =~= Seq::<Ranked>::empty());
        assert(r@.to_multiset().len() == 0);
        vstd::multiset::lemma_multiset_empty_len::<Ranked>(r@.to_multiset());
        assert(r@.to_multiset().add(v@.to_multiset()) =~= input@.to_multiset());
    }
    while v.len() > 0
        invariant
            r@.to_multiset().add(v@.to_multiset()) == input@.to_multiset(),
            sorted_ranked(r@.map_values(|x: Ranked| x@)),
            r@.len() + v@.len() == input@.len(),
            forall|i: int| 0 <= i < v@.len() ==> (#[trigger] v@[i])@.dist.wf(),
            forall|i: int| 0 <= i < r@.len() ==> (#[trigger] r@[i])@.dist.wf(),
        decreases v@.len(),
    {
        let ghost old_v = v@;
        let e = v.remove(0);
        proof {
            assert(old_v.remove(0).to_multiset() == old_v.to_multiset().remove(old_v[0]));
            assert(old_v.to_multiset().count(old_v[0]) > 0) by {
                assert(old_v.contains(old_v[0]));
            }
            assert(forall|i: int| 0 <= i < v@.len() ==> v@[i] == old_v[i + 1]);
        }
        let mut p: usize = 0;
        while p < r.len() && ranked_le_exec(&r[p], &e)
            invariant
                p <= r@.len(),
                sorted_ranked(r@.map_values(|x: Ranked| x@)),
                forall|q: int| 0 <= q < p ==> rank_le((#[trigger] r@[q])@, e@),
            decreases r@.len() - p,
        {
            p += 1;
        }
        let ghost old_r = r@;
        let ghost pos = p as int;
        r.insert(p, e);
        proof {
            old_r.insert_ensures(pos, e);
            lemma_to_multiset_insert_ranked(old_r, pos, e);
            assert(r@.to_multiset().add(v@.to_multiset()) =~= input@.to_multiset()) by {
                assert(r@.to_multiset() == old_r.to_multiset().insert(e));
                assert(old_v.to_multiset() == v@.to_multiset().insert(e)) by {
                    assert forall|x: Ranked| old_v.to_multiset().count(x) == v@.to_multiset().insert(
                        e,
                    ).count(x) by {
                        assert(old_v.to_multiset().remove(old_v[0]).count(x) == v@.to_multiset()
                            .count(x));
                    }
                }
            }
            let rm = r@.map_values(|x: Ranked| x@);
            let om = old_r.map_values(|x: Ranked| x@);
            assert forall|i: int, j: int| 0 <= i < j < rm.len() implies rank_le(rm[i], rm[j]) by {
                assert(rm[i] == r@[i]@ && rm[j] == r@[j]@);
                if j < pos {
                    assert(r@[i] == old_r[i] && r@[j] == old_r[j]);
                    assert(rank_le(om[i], om[j]));
                    assert(om[i] == old_r[i]@ && om[j] == old_r[j]@);
                } else if j == pos {
                    assert(r@[i] == old_r[i]);
                    assert(rank_le(old_r[i]@, e@));
                } else if i > pos {
                    assert(r@[i] == old_r[i - 1] && r@[j] == old_r[j - 1]);
                    assert(rank_le(om[i - 1], om[j - 1]));
                    assert(om[i - 1] == old_r[i - 1]@ && om[j - 1] == old_r[j - 1]@);
                } else if i == pos {
                    assert(r@[j] == old_r[j - 1]);
                    if pos < old_r.len() {
                        assert(!rank_le(old_r[pos]@, e@));
                        lemma_rank_le_total(old_r[pos]@, e@);
                        assert(rank_le(e@, old_r[pos]@));
                        if j - 1 > pos {
                            assert(rank_le(om[pos], om[j - 1]));
                            assert(om[pos] == old_r[pos]@ && om[j - 1] == old_r[j - 1]@);
                            lemma_rank_le_transitive(e@, old_r[pos]@, old_r[j - 1]@);
                        }
                    }
                } else {
                    assert(r@[i] == old_r[i]);
                    assert(r@[j] == old_r[j - 1]);
                    assert(i < j - 1);
                    assert(rank_le(om[i], om[j - 1]));
                    assert(om[i] == old_r[i]@ && om[j - 1] == old_r[j - 1]@);
                }
            }
        }
    }
    proof {
        assert(v@ =~= Seq::<Ranked>::empty());
        assert(v@.to_multiset().len() == 0);
        vstd::multiset::lemma_multiset_empty_len::<Ranked>(v@.to_multiset());
        assert(r@.to_multiset() =~= r@.to_multiset().add(v@.to_multiset()));
        assert(r@.len() == r@.to_multiset().len() && input@.len() == input@.to_multiset().len());
    }
    r
}

/// `rv` is the result owed for some entry of `entries`.
pub open spec fn from_some_entry(rv: RankedV, entries: Seq<Entry>, q: Seq<i64>) -> bool {
    exists|j: int| 0 <= j < entries.len() && rv == expected_ranked(#[trigger] entries[j], q)
}

/// Some result of `v` is the one owed for the entry `e`.
pub open spec fn entry_represented(e: Entry, v: Seq<Ranked>, q: Seq<i64>) -> bool {
    exists|i: int| 0 <= i < v.len() && (#[trigger] v[i])@ == expected_ranked(e, q)
}

/// The result that ranking owes for one index entry.
pub open spec fn expected_ranked(e: Entry, q: Seq<i64>) -> RankedV {
    RankedV {
        tname: e.tname@,
        property: e.property@,
        dist: Dist {
            num: ks_num(q, e.values@) as u64,
            den: (q.len() * e.values@.len()) as u64,
        },
        values: e.values@,
    }
}

/// Ranks every distribution of the index against the query bag: the result
/// holds the KS distance of each index entry, sorted ascending with the
/// deterministic tie-break.  Fails with [`Error::EmptySample`] exactly when
/// the query is empty and there was an entry to compare it with.
#[verifier::rlimit(50)]
pub fn rank(idx: &ExtensionIndex, query: &Vec<i64>) -> (r: Result<Vec<Ranked>, Error>)
    requires
        idx.wf(),
        forall|i: int|
            0 <= i < idx.entries@.len() ==> query@.len() * (#[trigger] idx.entries@[i]).values@.len()
                <= u64::MAX,
    ensures
        r is Ok <==> (query@.len() > 0 || idx.entries@.len() == 0),
        r matches Err(e) ==> e == Error::EmptySample,
        r matches Ok(v) ==> v@.len() == idx.entries@.len() && sorted_ranked(
            v@.map_values(|x: Ranked| x@),
        ) && (forall|i: int|
            0 <= i < v@.len() ==> from_some_entry(
                (#[trigger] v@[i])@,
                idx.entries@,
                query@,
            )) && (forall|j: int|
            0 <= j < idx.entries@.len() ==> entry_represented(
                #[trigger] idx.entries@[j],
                v@,
                query@,
            )),
{
    let mut built: Vec<Ranked> = Vec::new();
    let mut i: usize = 0;
    while i < idx.entries.len()
        invariant
            i <= idx.entries@.len(),
            idx.wf(),
            forall|t: int|
                0 <= t < idx.entries@.len() ==> query@.len() * (
                #[trigger] idx.entries@[t]).values@.len() <= u64::MAX,
            built@.len() == i,
            i > 0 ==> query@.len() > 0,
            forall|t: int|
                0 <= t < i ==> (#[trigger] built@[t])@ == expected_ranked(
                    idx.entries@[t],
                    query@,
                ),
            forall|t: int| 0 <= t < i ==> (#[trigger] built@[t])@.dist.wf(),
        decreases idx.entries@.len() - i,
    {
        let e = &idx.entries[i];
        proof {
            assert(idx.pairs()[i as int].1.len() > 0);
        }
        let d = match ks(query, &e.values) {
            Result::Ok(d) => d,
            Result::Err(err) => {
                return Err(err);
            },
        };
        let item = Ranked {
            tname: e.tname.clone(),
            property: e.property.clone(),
            dist: d,
            values: copy_values(&e.values),
        };
        proof {
            assert(item@ == expected_ranked(idx.entries@[i as int], query@));
        }
        built.push(item);
        i += 1;
    }
    let ghost built_view = built@;
    let sorted = sort_ranked(built);
    proof {
        assert forall|t: int| 0 <= t < sorted@.len() implies from_some_entry(
            (#[trigger] sorted@[t])@,
            idx.entries@,
            query@,
        ) by {
            assert(sorted@.contains(sorted@[t]));
            assert(sorted@.to_multiset().count(sorted@[t]) > 0);
            assert(built_view.to_multiset().count(sorted@[t]) > 0);
            assert(built_view.contains(sorted@[t]));
            let j = choose|j: int| 0 <= j < built_view.len() && built_view[j] == sorted@[t];
            assert(built_view[j]@ == expected_ranked(idx.entries@[j], query@));
        }
        assert forall|j: int| 0 <= j < idx.entries@.len() implies entry_represented(
            #[trigger] idx.entries@[j],
            sorted@,
            query@,
        ) by {
            assert(built_view[j]@ == expected_ranked(idx.entries@[j], query@));
            assert(built_view.contains(built_view[j]));
            assert(built_view.to_multiset().count(built_view[j]) > 0);
            assert(sorted@.to_multiset().count(built_view[j]) > 0);
            assert(sorted@.contains(built_view[j]));
            let t = choose|t: int| 0 <= t < sorted@.len() && sorted@[t] == built_view[j];
            assert(sorted@[t]@ == expected_ranked(idx.entries@[j], query@));
        }
    }
    proof {
        assert(sorted@.len() == idx.entries@.len());
        assert(sorted_ranked(sorted@.map_values(|x: Ranked| x@)));
        assert(query@.len() > 0 || idx.entries@.len() == 0);
    }
    Ok(sorted)
}

/// The first `min(k, length)` results.  A `k` beyond the result count
/// returns everything unchanged and never fails; `k == 0` returns nothing.
pub fn top_k(ranked: Vec<Ranked>, k: usize) -> (r: Vec<Ranked>)
    ensures
        r@ == ranked@.take(vstd::math::min(k as int, ranked@.len() as int)),
        k >= ranked@.len() ==> r@ == ranked@,
        k == 0 ==> r@.len() == 0,
{
    let mut v = ranked;
    let ghost orig = v@;
    v.truncate(k);
    proof {
        if k as int >= orig.len() {
            assert(orig.take(vstd::math::min(k as int, orig.len() as int)) =~= orig);
        }
    }
    v
}

/// Index of the first occurrence of `c` in `s`, or -1 when `c` does not
/// occur.
pub open spec fn first_at(s: Seq<char>, c: char) -> int
    decreases s.len(),
{
    if s.len() == 0 {
        -1
    } else if s[0] == c {
        0
    } else {
        let r = first_at(s.drop_first(), c);
        if r < 0 {
            -1
        } else {
            r + 1
        }
    }
}

proof fn lemma_first_at_char(s: Seq<char>, c: char, i: int)
    requires
        0 <= i < s.len(),
        s[i] == c,
        forall|j: int| 0 <= j < i ==> s[j] != c,
    ensures
        first_at(s, c) == i,
    decreases s.len(),
{
    if i == 0 {
    } else {
        assert(forall|j: int| 0 <= j < s.drop_first().len() ==> s.drop_first()[j] == s[j + 1]);
        lemma_first_at_char(s.drop_first(), c, i - 1);
    }
}

/// The selection predicate of a pattern, as a function value.
pub open spec fn pattern_pred(p: Seq<char>) -> spec_fn(RankedV) -> bool {
    |rv: RankedV| pattern_matches(p, rv)
}

/// Which results a pattern selects, in one of three forms:
/// `:property` selects by property, `type:` by type, and otherwise the part
/// before the first `:` is the type and the part between the first and
/// second `:` is the property.
pub open spec fn pattern_matches(p: Seq<char>, rv: RankedV) -> bool {
    if p.len() > 0 && p[0] == ':' {
        rv.property == p.skip(1)
    } else if p.len() > 0 && p.last() == ':' {
        rv.tname == p.take(p.len() - 1)
    } else {
        let i = first_at(p, ':');
        let rest = p.skip(i + 1);
        let prop = if rest.contains(':') {
            rest.take(first_at(rest, ':'))
        } else {
            rest
        };
        rv.tname == p.take(i) && rv.property == prop
    }
}

/// The results that match `pattern`, in ranked order.  A pattern without a
/// `:` is rejected with [`Error::BadPattern`]; the caller may go on with
/// its other patterns.
pub fn filter_ranked(ranked: &Vec<Ranked>, pattern: &str) -> (r: Result<Vec<Ranked>, Error>)
    ensures
        r is Ok <==> pattern@.contains(':'),
        r matches Err(e) ==> e == Error::BadPattern,
        r matches Ok(v) ==> v@.map_values(|x: Ranked| x@) == ranked@.map_values(
            |x: Ranked| x@,
        ).filter(pattern_pred(pattern@)),
{
    proof {
        reveal_strlit(":");
        assert(":"@ =~= seq![':']);
    }
    let tname_filter: Option<String>;
    let property_filter: Option<String>;
    if has_prefix(pattern, ":") {
        let n = pattern.unicode_len();
        let prop = pattern.substring_char(1, n).to_owned();
        proof {
            assert(pattern@.take(1)[0] == pattern@[0]);
            assert(pattern@[0] == ':');
            assert(pattern@.contains(pattern@[0]));
            assert(prop@ =~= pattern@.skip(1));
        }
        tname_filter = None;
        property_filter = Some(prop);
    } else if has_suffix(pattern, ":") {
        let n = pattern.unicode_len();
        let t = pattern.substring_char(0, n - 1).to_owned();
        proof {
            assert(pattern@.skip(n as int - 1)[0] == pattern@[n - 1]);
            assert(pattern@[n - 1] == ':');
            assert(pattern@.contains(pattern@[n as int - 1]));
            assert(t@ =~= pattern@.take(n as int - 1));
            if pattern@[0] == ':' {
                assert(pattern@.take(1) =~= ":"@);
                assert(false);
            }
        }
        tname_filter = Some(t);
        property_filter = None;
    } else {
        match find_char(pattern, ':') {
            Option::None => {
                return Err(Error::BadPattern);
            },
            Option::Some(i) => {
                proof {
                    assert(pattern@.contains(pattern@[i as int]));
                    lemma_first_at_char(pattern@, ':', i as int);
                    if pattern@[0] == ':' {
                        assert(pattern@.take(1) =~= ":"@);
                        assert(false);
                    }
                    if pattern@.last() == ':' {
                        assert(pattern@.skip(pattern@.len() - 1)[0] == pattern@.last());
                        assert(pattern@.skip(pattern@.len() - 1) =~= ":"@);
                        assert(false);
                    }
                }
                let n = pattern.unicode_len();
                let t = pattern.substring_char(0, i).to_owned();
                let rest = pattern.substring_char(i + 1, n);
                proof {
                    assert(t@ =~= pattern@.take(i as int));
                    assert(rest@ =~= pattern@.skip(i as int + 1));
                }
                let prop = match find_char(rest, ':') {
                    Option::None => rest.to_owned(),
                    Option::Some(j) => {
                        proof {
                            assert(rest@.contains(rest@[j as int]));
                            lemma_first_at_char(rest@, ':', j as int);
                        }
                        rest.substring_char(0, j).to_owned()
                    },
                };
                tname_filter = Some(t);
                property_filter = Some(prop);
            },
        }
    }
    let mut out: Vec<Ranked> = Vec::new();
    let mut i: usize = 0;
    let ghost pred = pattern_pred(pattern@);
    proof {
        reveal(Seq::filter);
        assert(ranked@.take(0).map_values(|x: Ranked| x@) =~= Seq::<RankedV>::empty());
        assert(out@.map_values(|x: Ranked| x@) =~= ranked@.take(0).map_values(
            |x: Ranked| x@,
        ).filter(pred));
    }
    while i < ranked.len()
        invariant
            i <= ranked@.len(),
            pred == pattern_pred(pattern@),
            out@.map_values(|x: Ranked| x@) == ranked@.take(i as int).map_values(
                |x: Ranked| x@,
            ).filter(pred),
            match (tname_filter, property_filter) {
                (Option::None, Option::Some(p)) => pattern@.len() > 0 && pattern@[0] == ':'
                    && p@ == pattern@.skip(1),
                (Option::Some(t), Option::None) => pattern@.len() > 0 && pattern@[0] != ':'
                    && pattern@.last() == ':' && t@ == pattern@.take(pattern@.len() - 1),
                (Option::Some(t), Option::Some(p)) => pattern@.len() > 0 && pattern@[0] != ':'
                    && pattern@.last() != ':' && first_at(pattern@, ':') >= 0 && t@
                    == pattern@.take(first_at(pattern@, ':')) && p@ == ({
                    let rest = pattern@.skip(first_at(pattern@, ':') + 1);
                    if rest.contains(':') {
                        rest.take(first_at(rest, ':'))
                    } else {
                        rest
                    }
                }),
                (Option::None, Option::None) => false,
            },
        decreases ranked@.len() - i,
    {
        let e = &ranked[i];
        let keep: bool;
        match (&tname_filter, &property_filter) {
            (Option::None, Option::Some(p)) => {
                keep = e.property == *p;
            },
            (Option::Some(t), Option::None) => {
                keep = e.tname == *t;
            },
            (Option::Some(t), Option::Some(p)) => {
                keep = e.tname == *t && e.property == *p;
            },
            (Option::None, Option::None) => {
                keep = false;
            },
        }
        proof {
            reveal(Seq::filter);
            assert(keep == pattern_matches(pattern@, e@));
            assert(pred(e@) == pattern_matches(pattern@, e@));
            let prev = ranked@.take(i as int).map_values(|x: Ranked| x@);
            let cur = ranked@.take(i as int + 1).map_values(|x: Ranked| x@);
            assert(ranked@.take(i as int + 1) =~= ranked@.take(i as int).push(ranked@[i as int]));
            assert(cur =~= prev.push(e@));
            assert(cur.drop_last() =~= prev);
            assert(cur.last() == e@);
        }
        if keep {
            let ghost old_out = out@;
            out.push(e.clone());
            proof {
                assert(out@.map_values(|x: Ranked| x@) =~= old_out.map_values(
                    |x: Ranked| x@,
                ).push(e@));
            }
        }
        i += 1;
    }
    proof {
        assert(ranked@.take(ranked@.len() as int) =~= ranked@);
    }
    Ok(out)
}

/// One string per value, joined with `sep`.
pub open spec fn spec_join(items: Seq<Seq<char>>, sep: Seq<char>) -> Seq<char>
    decreases items.len(),
{
    if items.len() == 0 {
        Seq::empty()
    } else if items.len() == 1 {
        items[0]
    } else {
        items[0] + sep + spec_join(items.drop_first(), sep)
    }
}

proof fn lemma_join_push(items: Seq<Seq<char>>, sep: Seq<char>, x: Seq<char>)
    ensures
        items.len() == 0 ==> spec_join(items.push(x), sep) == x,
        items.len() > 0 ==> spec_join(items.push(x), sep) == spec_join(items, sep) + sep + x,
    decreases items.len(),
{
    let w = items.push(x);
    if items.len() == 0 {
        assert(w.len() == 1 && w[0] == x);
    } else if items.len() == 1 {
        assert(w.len() == 2 && w[0] == items[0]);
        assert(w.drop_first() =~= seq![x]);
        assert(seq![x].len() == 1 && seq![x][0] == x);
        assert(spec_join(seq![x], sep) == x);
    } else {
        lemma_join_push(items.drop_first(), sep, x);
        assert(w.drop_first() =~= items.drop_first().push(x));
        assert(w[0] == items[0]);
        assert(spec_join(items, sep) + sep + x =~= items[0] + sep + (spec_join(
            items.drop_first(),
            sep,
        ) + sep + x));
    }
}

/// The preview of a value list: short lists in full, long lists by their
/// two first values, the middle one, and the two last, with ellipses.
pub open spec fn spec_preview(items: Seq<Seq<char>>) -> Seq<char> {
    if items.len() <= 7 {
        seq!['['] + spec_join(items, ", "@) + seq![']']
    } else {
        seq!['['] + items[0] + ", "@ + items[1] + ", ..., "@ + items[items.len() as int / 2]
            + ", ..., "@ + items[items.len() - 2] + ", "@ + items[items.len() - 1] + seq![']']
    }
}

/// Renders a short preview of a list of already-rendered values.
pub fn preview_line(items: &Vec<String>) -> (r: String)
    ensures
        r@ == spec_preview(items@.map_values(|s: String| s@)),
{
    let ghost iv = items@.map_values(|s: String| s@);
    let mut out = String::new();
    proof {
        reveal_strlit("[");
        assert("["@ =~= seq!['[']);
        reveal_strlit("]");
        assert("]"@ =~= seq![']']);
        reveal_strlit(", ");
        reveal_strlit(", ..., ");
    }
    out.append("[");
    if items.len() <= 7 {
        let mut i: usize = 0;
        proof {
            assert(iv.take(0) =~= Seq::<Seq<char>>::empty());
            assert(out@ =~= seq!['['] + spec_join(iv.take(0), ", "@));
        }
        while i < items.len()
            invariant
                i <= items@.len(),
                iv == items@.map_values(|s: String| s@),
                out@ == seq!['['] + spec_join(iv.take(i as int), ", "@),
            decreases items@.len() - i,
        {
            if i > 0 {
                proof {
                    reveal_strlit(", ");
                }
                out.append(", ");
            }
            out.append(items[i].as_str());
            proof {
                lemma_join_push(iv.take(i as int), ", "@, iv[i as int]);
                assert(iv.take(i as int + 1) =~= iv.take(i as int).push(iv[i as int]));
                assert(out@ =~= seq!['['] + spec_join(iv.take(i as int + 1), ", "@));
            }
            i += 1;
        }
        proof {
            assert(iv.take(iv.len() as int) =~= iv);
        }
    } else {
        let n = items.len();
        out.append(items[0].as_str());
        out.append(", ");
        out.append(items[1].as_str());
        out.append(", ..., ");
        out.append(items[n / 2].as_str());
        out.append(", ..., ");
        out.append(items[n - 2].as_str());
        out.append(", ");
        out.append(items[n - 1].as_str());
    }
    out.append("]");
    proof {
        if items@.len() > 7 {
            assert(out@ =~= spec_preview(iv));
        } else {
            assert(out@ =~= spec_preview(iv));
        }
    }
    out
}

} // verus!
