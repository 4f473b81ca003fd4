//! The persisted form of the extension index: one record per line, three
//! tab-separated fields — type name, property name, and the value list in
//! brackets, comma-and-space separated.  `load_index` is the exact inverse
//! of `save_index`; a record with the wrong field count, missing brackets,
//! or an unparsable value token is a fatal error that names the line.

use vstd::prelude::*;
use crate::index::{map_of, Entry, ExtensionIndex};
use crate::numfmt::{
    format_i64, is_digit, lemma_parse_format_round_trip, lemma_spec_digits_are_digits, parse_i64,
    parse_i64_view, spec_digits, spec_i64_str,
};
use crate::strutil::{lemma_split_concat_head, lemma_split_whole, spec_split, split_str};
use crate::Error;

verus! {

/// The rendered value list: the values in decimal, separated by `", "`.
pub open spec fn spec_value_list(vs: Seq<i64>) -> Seq<char>
    decreases vs.len(),
{
    if vs.len() == 0 {
        Seq::empty()
    } else if vs.len() == 1 {
        spec_i64_str(vs[0] as int)
    } else {
        spec_i64_str(vs[0] as int) + ", "@ + spec_value_list(vs.drop_first())
    }
}

/// One record line: type, property, and the bracketed value list, the three
/// fields separated by tabs.
pub open spec fn spec_record_line(t: Seq<char>, p: Seq<char>, vs: Seq<i64>) -> Seq<char> {
    t + seq!['\t'] + p + seq!['\t'] + seq!['['] + spec_value_list(vs) + seq![']']
}

/// What one line decodes to: the three fields, with the value list parsed,
/// or nothing when the line is malformed.
pub open spec fn spec_parse_record(l: Seq<char>) -> Option<(Seq<char>, Seq<char>, Seq<i64>)> {
    let fields = spec_split(l, seq!['\t']);
    if fields.len() != 3 {
        None
    } else {
        let v = fields[2];
        if v.len() >= 2 && v[0] == '[' && v.last() == ']' {
            let toks = spec_split(v.subrange(1, v.len() - 1), ", "@);
            if forall|k: int| 0 <= k < toks.len() ==> parse_i64_view(#[trigger] toks[k]) is Some {
                Some(
                    (
                        fields[0],
                        fields[1],
                        toks.map_values(|t: Seq<char>| parse_i64_view(t).unwrap()),
                    ),
                )
            } else {
                None
            }
        } else {
            None
        }
    }
}

/// The index that a sequence of decoded records describes, a later record
/// overriding an earlier one with the same key.
pub open spec fn spec_load(
    recs: Seq<(Seq<char>, Seq<char>, Seq<i64>)>,
) -> Map<(Seq<char>, Seq<char>), Seq<i64>> {
    map_of(recs.map_values(|r: (Seq<char>, Seq<char>, Seq<i64>)| ((r.0, r.1), r.2)))
}

/// Right-hand unrolling of the value list.
proof fn lemma_value_list_push(vs: Seq<i64>, v: i64)
    ensures
        vs.len() == 0 ==> spec_value_list(vs.push(v)) == spec_i64_str(v as int),
        vs.len() > 0 ==> spec_value_list(vs.push(v)) == spec_value_list(vs) + ", "@
            + spec_i64_str(v as int),
    decreases vs.len(),
{
    let w = vs.push(v);
    if vs.len() == 0 {
        assert(w.len() == 1);
        assert(w[0] == v);
    } else if vs.len() == 1 {
        assert(w.len() == 2);
        assert(w[0] == vs[0]);
        assert(w.drop_first() =~= seq![v]);
        assert(seq![v].len() == 1 && seq![v][0] == v);
        assert(spec_value_list(seq![v]) == spec_i64_str(v as int));
        assert(spec_value_list(w) == spec_i64_str(vs[0] as int) + ", "@ + spec_i64_str(v as int));
    } else {
        lemma_value_list_push(vs.drop_first(), v);
        assert(w.drop_first() =~= vs.drop_first().push(v));
        assert(w[0] == vs[0]);
        assert(spec_value_list(w) == spec_i64_str(vs[0] as int) + ", "@ + spec_value_list(
            vs.drop_first().push(v),
        ));
        assert(spec_value_list(vs) + ", "@ + spec_i64_str(v as int) == spec_i64_str(vs[0] as int)
            + ", "@ + (spec_value_list(vs.drop_first()) + ", "@ + spec_i64_str(v as int))) by {
            assert(spec_value_list(vs) + ", "@ + spec_i64_str(v as int) =~= spec_i64_str(
                vs[0] as int,
            ) + ", "@ + (spec_value_list(vs.drop_first()) + ", "@ + spec_i64_str(v as int)));
        }
    }
}

/// Writes the index as its persisted lines, one entry per line, in entry
/// order.
pub fn save_index(idx: &ExtensionIndex) -> (r: Vec<String>)
    ensures
        r@.map_values(|l: String| l@) == idx.entries@.map_values(
            |e: Entry| spec_record_line(e.tname@, e.property@, e.values@),
        ),
{
    let mut r: Vec<String> = Vec::new();
    let mut i: usize = 0;
    proof {
        assert(r@.map_values(|l: String| l@) =~= idx.entries@.take(0).map_values(
            |e: Entry| spec_record_line(e.tname@, e.property@, e.values@),
        ));
    }
    while i < idx.entries.len()
        invariant
            i <= idx.entries@.len(),
            r@.map_values(|l: String| l@) == idx.entries@.take(i as int).map_values(
                |e: Entry| spec_record_line(e.tname@, e.property@, e.values@),
            ),
        decreases idx.entries@.len() - i,
    {
        let e = &idx.entries[i];
        let mut line = String::new();
        line.append(e.tname.as_str());
        proof {
            reveal_strlit("\t");
            assert("\t"@ =~= seq!['\t']);
            reveal_strlit("[");
            assert("["@ =~= seq!['[']);
            reveal_strlit("]");
            assert("]"@ =~= seq![']']);
            reveal_strlit(", ");
        }
        line.append("\t");
        line.append(e.property.as_str());
        line.append("\t");
        line.append("[");
        let mut j: usize = 0;
        proof {
            assert(e.values@.take(0) =~= Seq::<i64>::empty());
            assert(line@ == e.tname@ + seq!['\t'] + e.property@ + seq!['\t'] + seq!['[']
                + spec_value_list(e.values@.take(0))) by {
                assert(line@ =~= e.tname@ + seq!['\t'] + e.property@ + seq!['\t'] + seq!['[']
                    + spec_value_list(e.values@.take(0)));
            }
        }
        while j < e.values.len()
            invariant
                j <= e.values@.len(),
                line@ == e.tname@ + seq!['\t'] + e.property@ + seq!['\t'] + seq!['[']
                    + spec_value_list(e.values@.take(j as int)),
            decreases e.values@.len() - j,
        {
            if j > 0 {
                proof {
                    reveal_strlit(", ");
                }
                line.append(", ");
            }
            let piece = format_i64(e.values[j]);
            line.append(piece.as_str());
            proof {
                lemma_value_list_push(e.values@.take(j as int), e.values@[j as int]);
                assert(e.values@.take(j as int + 1) =~= e.values@.take(j as int).push(
                    e.values@[j as int],
                ));
                assert(line@ =~= e.tname@ + seq!['\t'] + e.property@ + seq!['\t'] + seq!['[']
                    + spec_value_list(e.values@.take(j as int + 1)));
            }
            j += 1;
        }
        line.append("]");
        proof {
            assert(e.values@.take(e.values@.len() as int) =~= e.values@);
            assert(line@ =~= spec_record_line(e.tname@, e.property@, e.values@));
        }
        let ghost old_r = r@;
        let ghost line_view = line@;
        r.push(line);
        proof {
            assert(r@ == old_r.push(r@.last()));
            assert(r@.last()@ == line_view);
            assert(idx.entries@.take(i as int + 1) =~= idx.entries@.take(i as int).push(
                idx.entries@[i as int],
            ));
            assert(r@.map_values(|l: String| l@) =~= old_r.map_values(|l: String| l@).push(
                line_view,
            ));
            assert(idx.entries@.take(i as int + 1).map_values(
                |e: Entry| spec_record_line(e.tname@, e.property@, e.values@),
            ) =~= idx.entries@.take(i as int).map_values(
                |e: Entry| spec_record_line(e.tname@, e.property@, e.values@),
            ).push(line_view));
            assert(r@.map_values(|l: String| l@) == idx.entries@.take(i as int + 1).map_values(
                |e: Entry| spec_record_line(e.tname@, e.property@, e.values@),
            ));
        }
        i += 1;
    }
    proof {
        assert(idx.entries@.take(idx.entries@.len() as int) =~= idx.entries@);
    }
    r
}

/// Decodes one line.
fn parse_record(line: &str) -> (r: Option<(String, String, Vec<i64>)>)
    ensures
        r is Some <==> spec_parse_record(line@) is Some,
        r matches Some(t) ==> spec_parse_record(line@) == Some((t.0@, t.1@, t.2@)),
{
    proof {
        reveal_strlit("\t");
        assert("\t"@ =~= seq!['\t']);
        reveal_strlit(", ");
    }
    let mut fields = split_str(line, "\t");
    if fields.len() != 3 {
        return None;
    }
    let v = &fields[2];
    proof {
        assert(fields@.map_values(|t: String| t@)[2] == spec_split(line@, seq!['\t'])[2]);
        assert(fields@[2]@ == spec_split(line@, seq!['\t'])[2]);
    }
    let vs = v.as_str();
    let n = vs.unicode_len();
    if n < 2 || vs.get_char(0) != '[' || vs.get_char(n - 1) != ']' {
        return None;
    }
    let inner = vs.substring_char(1, n - 1);
    proof {
        assert(inner@ =~= v@.subrange(1, v@.len() - 1));
    }
    let toks = split_str(inner, ", ");
    let ghost spec_toks = spec_split(v@.subrange(1, v@.len() - 1), ", "@);
    let mut values: Vec<i64> = Vec::new();
    let mut k: usize = 0;
    while k < toks.len()
        invariant
            k <= toks@.len(),
            spec_split(line@, seq!['\t']).len() == 3,
            v@ == spec_split(line@, seq!['\t'])[2],
            v@.len() >= 2 && v@[0] == '[' && v@.last() == ']',
            spec_toks == spec_split(v@.subrange(1, v@.len() - 1), ", "@),
            toks@.map_values(|t: String| t@) == spec_toks,
            values@.len() == k,
            forall|q: int|
                0 <= q < k ==> parse_i64_view(#[trigger] spec_toks[q]) == Some(values@[q]),
        decreases toks@.len() - k,
    {
        match parse_i64(toks[k].as_str()) {
            Option::Some(x) => {
                values.push(x);
            },
            Option::None => {
                proof {
                    assert(parse_i64_view(spec_toks[k as int]) is None);
                }
                return None;
            },
        }
        k += 1;
    }
    proof {
        assert(forall|q: int|
            0 <= q < spec_toks.len() ==> parse_i64_view(#[trigger] spec_toks[q]) is Some);
        assert(values@ =~= spec_toks.map_values(|t: Seq<char>| parse_i64_view(t).unwrap()));
    }
    proof {
        assert(fields@.map_values(|t: String| t@)[0] == spec_split(line@, seq!['\t'])[0]);
        assert(fields@.map_values(|t: String| t@)[1] == spec_split(line@, seq!['\t'])[1]);
        assert(fields@[0]@ == spec_split(line@, seq!['\t'])[0]);
        assert(fields@[1]@ == spec_split(line@, seq!['\t'])[1]);
    }
    fields.pop();
    let property = fields.pop().unwrap();
    let tname = fields.pop().unwrap();
    Some((tname, property, values))
}

/// Reads the index back from its persisted lines.  Fails with
/// [`Error::BadRecord`] naming the first malformed line, if any; otherwise
/// the result holds exactly what the lines describe, a later record
/// overriding an earlier one with the same key.
pub fn load_index(lines: &Vec<String>) -> (r: Result<ExtensionIndex, Error>)
    ensures
        r is Ok <==> (forall|i: int|
            0 <= i < lines@.len() ==> spec_parse_record((#[trigger] lines@[i])@) is Some),
        r matches Ok(idx) ==> idx.wf() && idx@ == spec_load(
            lines@.map_values(|l: String| spec_parse_record(l@).unwrap()),
        ),
        r matches Err(e) ==> exists|i: int|
            0 <= i < lines@.len() && e == Error::BadRecord(i as usize) && spec_parse_record(
                (#[trigger] lines@[i])@,
            ) is None && (forall|j: int| 0 <= j < i ==> spec_parse_record((#[trigger] lines@[j])@) is Some),
{
    let mut idx = ExtensionIndex::new();
    let mut i: usize = 0;
    let ghost recs = lines@.map_values(|l: String| spec_parse_record(l@).unwrap());
    proof {
        assert(recs.take(0).map_values(|r: (Seq<char>, Seq<char>, Seq<i64>)| ((r.0, r.1), r.2))
            =~= Seq::<((Seq<char>, Seq<char>), Seq<i64>)>::empty());
    }
    while i < lines.len()
        invariant
            i <= lines@.len(),
            idx.wf(),
            recs == lines@.map_values(|l: String| spec_parse_record(l@).unwrap()),
            forall|j: int| 0 <= j < i ==> spec_parse_record((#[trigger] lines@[j])@) is Some,
            idx@ == spec_load(recs.take(i as int)),
        decreases lines@.len() - i,
    {
        match parse_record(lines[i].as_str()) {
            Option::None => {
                proof {
                    assert(spec_parse_record(lines@[i as int]@) is None);
                }
                return Err(Error::BadRecord(i));
            },
            Option::Some(rec) => {
                let (tname, property, values) = rec;
                proof {
                    assert(spec_parse_record(lines@[i as int]@) == Some((
                        tname@,
                        property@,
                        values@,
                    )));
                    assert(recs[i as int] == (tname@, property@, values@));
                    let reshape = |r: (Seq<char>, Seq<char>, Seq<i64>)| ((r.0, r.1), r.2);
                    assert(recs.take(i as int + 1).map_values(reshape) =~= recs.take(
                        i as int,
                    ).map_values(reshape).push(((tname@, property@), values@)));
                    assert(recs.take(i as int + 1).map_values(reshape).drop_last() =~= recs.take(
                        i as int,
                    ).map_values(reshape));
                }
                if values.len() == 0 {
                    proof {
                        let toks = spec_split(
                            spec_split(lines@[i as int]@, seq!['\t'])[2].subrange(
                                1,
                                spec_split(lines@[i as int]@, seq!['\t'])[2].len() - 1,
                            ),
                            ", "@,
                        );
                        assert(toks.len() >= 1);
                        assert(values@.len() >= 1);
                    }
                }
                idx.set_values(tname, property, values);
            },
        }
        i += 1;
    }
    proof {
        assert(recs.take(recs.len() as int) =~= recs);
    }
    Ok(idx)
}

/// Every character of a rendered number is a digit or the minus sign.
proof fn lemma_num_chars(n: int)
    ensures
        forall|i: int|
            0 <= i < spec_i64_str(n).len() ==> is_digit(#[trigger] spec_i64_str(n)[i])
                || spec_i64_str(n)[i] == '-',
{
    if n < 0 {
        lemma_spec_digits_are_digits(-n);
        assert forall|i: int|
            0 <= i < spec_i64_str(n).len() implies is_digit(#[trigger] spec_i64_str(n)[i])
            || spec_i64_str(n)[i] == '-' by {
            if i >= 1 {
                assert(spec_i64_str(n)[i] == spec_digits(-n)[i - 1]);
            }
        }
    } else {
        lemma_spec_digits_are_digits(n);
    }
}

/// Every character of a rendered value list is a digit, a minus sign, a
/// comma or a space.
proof fn lemma_value_list_chars(vs: Seq<i64>)
    ensures
        forall|i: int|
            0 <= i < spec_value_list(vs).len() ==> is_digit(#[trigger] spec_value_list(vs)[i])
                || spec_value_list(vs)[i] == '-' || spec_value_list(vs)[i] == ','
                || spec_value_list(vs)[i] == ' ',
    decreases vs.len(),
{
    reveal_strlit(", ");
    if vs.len() == 0 {
    } else if vs.len() == 1 {
        lemma_num_chars(vs[0] as int);
    } else {
        lemma_num_chars(vs[0] as int);
        lemma_value_list_chars(vs.drop_first());
        let h = spec_i64_str(vs[0] as int);
        let t = spec_value_list(vs.drop_first());
        let w = spec_value_list(vs);
        assert(", "@.len() == 2 && ", "@[0] == ',' && ", "@[1] == ' ');
        assert forall|i: int|
            0 <= i < w.len() implies is_digit(#[trigger] w[i]) || w[i] == '-' || w[i] == ','
            || w[i] == ' ' by {
            if i < h.len() {
                assert(w[i] == h[i]);
            } else if i < h.len() + 2 {
                assert(w[i] == ", "@[i - h.len()]);
            } else {
                assert(w[i] == t[i - h.len() - 2]);
            }
        }
    }
}

/// The value list splits back into the rendered numbers.
proof fn lemma_value_list_split(vs: Seq<i64>)
    requires
        vs.len() >= 1,
    ensures
        spec_split(spec_value_list(vs), ", "@) == vs.map_values(
            |v: i64| spec_i64_str(v as int),
        ),
    decreases vs.len(),
{
    reveal_strlit(", ");
    assert(", "@.len() == 2 && ", "@[0] == ',');
    let h = spec_i64_str(vs[0] as int);
    lemma_num_chars(vs[0] as int);
    assert forall|i: int| 0 <= i < h.len() implies h[i] != ',' by {
        assert(is_digit(h[i]) || h[i] == '-');
    }
    if vs.len() == 1 {
        lemma_split_whole(h, ", "@);
        assert(spec_value_list(vs) == h);
        assert(vs.map_values(|v: i64| spec_i64_str(v as int)) =~= seq![h]);
    } else {
        lemma_value_list_split(vs.drop_first());
        let t = spec_value_list(vs.drop_first());
        assert(spec_value_list(vs) == h + ", "@ + t);
        lemma_split_concat_head(h, ", "@, t);
        assert(spec_split(spec_value_list(vs), ", "@) == seq![h] + spec_split(t, ", "@));
        assert(vs.map_values(|v: i64| spec_i64_str(v as int)) =~= seq![h]
            + vs.drop_first().map_values(|v: i64| spec_i64_str(v as int)));
    }
}

/// Decoding the encoded record gives the record back: the round trip of
/// one (type, property, values) entry, for names that hold no tab and a
/// non-empty value list.
pub proof fn lemma_record_round_trip(t: Seq<char>, p: Seq<char>, vs: Seq<i64>)
    requires
        !t.contains('\t'),
        !p.contains('\t'),
        vs.len() >= 1,
    ensures
        spec_parse_record(spec_record_line(t, p, vs)) == Some((t, p, vs)),
{
    let tab = seq!['\t'];
    let bracket = seq!['['] + spec_value_list(vs) + seq![']'];
    let line = spec_record_line(t, p, vs);
    let rest = p + tab + bracket;
    assert(line =~= t + tab + rest);
    assert forall|i: int| 0 <= i < t.len() implies t[i] != tab[0] by {
        assert(t.contains(t[i]) == false || t[i] != '\t') by {
            if t[i] == '\t' {
                assert(t.contains('\t'));
            }
        }
    }
    assert forall|i: int| 0 <= i < p.len() implies p[i] != tab[0] by {
        if p[i] == '\t' {
            assert(p.contains('\t'));
        }
    }
    lemma_value_list_chars(vs);
    assert forall|i: int| 0 <= i < bracket.len() implies bracket[i] != tab[0] by {
        let sv = spec_value_list(vs);
        if 1 <= i < 1 + sv.len() {
            assert(bracket[i] == sv[i - 1]);
        }
    }
    lemma_split_concat_head(t, tab, rest);
    lemma_split_concat_head(p, tab, bracket);
    lemma_split_whole(bracket, tab);
    let fields = spec_split(line, tab);
    assert(fields =~= seq![t, p, bracket]);
    assert(fields.len() == 3);
    assert(bracket.len() == spec_value_list(vs).len() + 2);
    assert(bracket[0] == '[');
    assert(bracket.last() == ']');
    assert(bracket.subrange(1, bracket.len() - 1) =~= spec_value_list(vs));
    lemma_value_list_split(vs);
    let toks = spec_split(spec_value_list(vs), ", "@);
    assert(toks == vs.map_values(|v: i64| spec_i64_str(v as int)));
    assert forall|k: int| 0 <= k < toks.len() implies parse_i64_view(#[trigger] toks[k])
        is Some by {
        assert(toks[k] == spec_i64_str(vs[k] as int));
        lemma_parse_format_round_trip(vs[k]);
    }
    assert(toks.map_values(|tk: Seq<char>| parse_i64_view(tk).unwrap()) =~= vs) by {
        assert forall|k: int| 0 <= k < toks.len() implies parse_i64_view(toks[k]).unwrap()
            == vs[k] by {
            assert(toks[k] == spec_i64_str(vs[k] as int));
            lemma_parse_format_round_trip(vs[k]);
        }
    }
}

/// Loading what was saved reproduces the index: the same (type, property)
/// keys, and under each key the same value sequence.  Holds of every
/// well-formed index whose names are free of tabs.
pub proof fn lemma_save_load_round_trip(idx: ExtensionIndex)
    requires
        idx.wf(),
        forall|i: int|
            0 <= i < idx.entries@.len() ==> !(#[trigger] idx.entries@[i]).tname@.contains('\t')
                && !idx.entries@[i].property@.contains('\t'),
    ensures
        forall|i: int|
            0 <= i < idx.entries@.len() ==> spec_parse_record(
                spec_record_line(
                    (#[trigger] idx.entries@[i]).tname@,
                    idx.entries@[i].property@,
                    idx.entries@[i].values@,
                ),
            ) is Some,
        spec_load(
            idx.entries@.map_values(
                |e: Entry| spec_record_line(e.tname@, e.property@, e.values@),
            ).map_values(|l: Seq<char>| spec_parse_record(l).unwrap()),
        ) == idx@,
{
    let lines = idx.entries@.map_values(
        |e: Entry| spec_record_line(e.tname@, e.property@, e.values@),
    );
    let recs = lines.map_values(|l: Seq<char>| spec_parse_record(l).unwrap());
    assert forall|i: int| 0 <= i < idx.entries@.len() implies spec_parse_record(
        spec_record_line(
            (#[trigger] idx.entries@[i]).tname@,
            idx.entries@[i].property@,
            idx.entries@[i].values@,
        ),
    ) is Some by {
        let e = idx.entries@[i];
        assert(idx.pairs()[i].1.len() > 0);
        lemma_record_round_trip(e.tname@, e.property@, e.values@);
    }
    assert(recs.map_values(|r: (Seq<char>, Seq<char>, Seq<i64>)| ((r.0, r.1), r.2))
        =~= idx.pairs()) by {
        assert forall|i: int| 0 <= i < idx.entries@.len() implies recs.map_values(
            |r: (Seq<char>, Seq<char>, Seq<i64>)| ((r.0, r.1), r.2),
        )[i] == idx.pairs()[i] by {
            let e = idx.entries@[i];
            assert(idx.pairs()[i].1.len() > 0);
            lemma_record_round_trip(e.tname@, e.property@, e.values@);
            assert(recs[i] == (e.tname@, e.property@, e.values@));
        }
    }
}

} // verus!
