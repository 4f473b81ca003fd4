//! Selection of one column from the lines of a delimited file: blank lines
//! and lines starting with the comment marker are skipped, and so is any
//! line whose designated column is absent.  The selected cells come back
//! trimmed; the caller decides which of them are numeric.

use vstd::prelude::*;
use crate::strutil::{spec_split, spec_trim, split_str, trim};

verus! {

/// What one line contributes: nothing for a blank or comment line or a
/// missing column, otherwise its trimmed cell.
pub open spec fn spec_select_line(l: Seq<char>, sep: Seq<char>, column: int) -> Seq<Seq<char>> {
    if spec_trim(l).len() == 0 || (l.len() > 0 && l[0] == '#') {
        Seq::empty()
    } else {
        let fields = spec_split(l, sep);
        if column < fields.len() {
            seq![spec_trim(fields[column])]
        } else {
            Seq::empty()
        }
    }
}

/// The cells selected from all lines, in order.
pub open spec fn spec_selected(lines: Seq<Seq<char>>, sep: Seq<char>, column: int) -> Seq<
    Seq<char>,
>
    decreases lines.len(),
{
    if lines.len() == 0 {
        Seq::empty()
    } else {
        spec_selected(lines.drop_last(), sep, column) + spec_select_line(
            lines.last(),
            sep,
            column,
        )
    }
}

/// Picks the `column`-th field of every data line, trimmed.
pub fn select_column(lines: &Vec<String>, sep: &str, column: usize) -> (r: Vec<String>)
    requires
        sep@.len() >= 1,
    ensures
        r@.map_values(|c: String| c@) == spec_selected(
            lines@.map_values(|l: String| l@),
            sep@,
            column as int,
        ),
{
    let ghost lv = lines@.map_values(|l: String| l@);
    let mut out: Vec<String> = Vec::new();
    let mut i: usize = 0;
    proof {
        assert(lv.take(0) =~= Seq::<Seq<char>>::empty());
        assert(out@.map_values(|c: String| c@) =~= spec_selected(lv.take(0), sep@, column as int));
    }
    while i < lines.len()
        invariant
            i <= lines@.len(),
            sep@.len() >= 1,
            lv == lines@.map_values(|l: String| l@),
            out@.map_values(|c: String| c@) == spec_selected(lv.take(i as int), sep@, column as int),
        decreases lines@.len() - i,
    {
        let line = &lines[i];
        proof {
            assert(lv.take(i as int + 1) =~= lv.take(i as int).push(lv[i as int]));
            assert(lv.take(i as int + 1).drop_last() =~= lv.take(i as int));
            assert(lv.take(i as int + 1).last() == line@);
        }
        let trimmed = trim(line.as_str());
        let is_comment = line.as_str().unicode_len() > 0 && line.as_str().get_char(0) == '#';
        if trimmed.as_str().unicode_len() > 0 && !is_comment {
            let fields = split_str(line.as_str(), sep);
            if column < fields.len() {
                let cell = trim(fields[column].as_str());
                proof {
                    assert(fields@.map_values(|t: String| t@)[column as int] == spec_split(
                        line@,
                        sep@,
                    )[column as int]);
                    assert(cell@ == spec_trim(spec_split(line@, sep@)[column as int]));
                }
                let ghost old_out = out@;
                out.push(cell);
                proof {
                    assert(spec_select_line(line@, sep@, column as int) =~= seq![
                        spec_trim(spec_split(line@, sep@)[column as int]),
                    ]);
                    assert(out@.map_values(|c: String| c@) =~= old_out.map_values(|c: String| c@)
                        + spec_select_line(line@, sep@, column as int));
                }
            } else {
                proof {
                    assert(spec_split(line@, sep@).len() == fields@.len());
                    assert(spec_select_line(line@, sep@, column as int) =~= Seq::<
                        Seq<char>,
                    >::empty());
                    assert(out@.map_values(|c: String| c@) =~= out@.map_values(|c: String| c@)
                        + spec_select_line(line@, sep@, column as int));
                }
            }
        } else {
            proof {
                assert(spec_select_line(line@, sep@, column as int) =~= Seq::<Seq<char>>::empty());
                assert(out@.map_values(|c: String| c@) =~= out@.map_values(|c: String| c@)
                    + spec_select_line(line@, sep@, column as int));
            }
        }
        i += 1;
    }
    proof {
        assert(lv.take(lv.len() as int) =~= lv);
    }
    out
}

} // verus!
