//! Verified decimal rendering and parsing of `i64` values, used by the
//! persisted cache format.  `parse_i64` accepts an optional `-` sign followed
//! by one or more decimal digits, rejecting anything else and any value
//! outside the `i64` range; `format_i64` renders the canonical form that
//! `parse_i64` maps back to the original value.

use vstd::prelude::*;

verus! {

/// `c` is a decimal digit.
pub open spec fn is_digit(c: char) -> bool {
    '0' <= c && c <= '9'
}

/// The numeric value of a digit character.
pub open spec fn digit_val(c: char) -> int {
    c as int - '0' as int
}

/// Every character of `s` is a decimal digit.
pub open spec fn all_digits(s: Seq<char>) -> bool {
    forall|i: int| 0 <= i < s.len() ==> is_digit(#[trigger] s[i])
}

/// The value of a digit string, most significant digit first.
pub open spec fn dec_val(s: Seq<char>) -> int
    decreases s.len(),
{
    if s.len() == 0 {
        0
    } else {
        dec_val(s.drop_last()) * 10 + digit_val(s.last())
    }
}

/// The digit character for a value in 0..9.
pub open spec fn digit_char(d: int) -> char {
    if d == 0 {
        '0'
    } else if d == 1 {
        '1'
    } else if d == 2 {
        '2'
    } else if d == 3 {
        '3'
    } else if d == 4 {
        '4'
    } else if d == 5 {
        '5'
    } else if d == 6 {
        '6'
    } else if d == 7 {
        '7'
    } else if d == 8 {
        '8'
    } else {
        '9'
    }
}

/// The canonical decimal digits of `n >= 0`, without a sign and without
/// leading zeros (except for `0` itself).
pub open spec fn spec_digits(n: int) -> Seq<char>
    decreases n,
{
    if n < 10 {
        seq![digit_char(n)]
    } else {
        spec_digits(n / 10).push(digit_char(n % 10))
    }
}

/// The canonical decimal rendering of `n`, with a leading `-` when negative.
pub open spec fn spec_i64_str(n: int) -> Seq<char> {
    if n < 0 {
        seq!['-'] + spec_digits(-n)
    } else {
        spec_digits(n)
    }
}

/// What `parse_i64` returns: the value of an optional sign followed by one
/// or more digits, when that value fits in an `i64`.
pub open spec fn parse_i64_view(s: Seq<char>) -> Option<i64> {
    if s.len() >= 1 && s[0] == '-' {
        let d = s.skip(1);
        if d.len() >= 1 && all_digits(d) && dec_val(d) <= 0x8000_0000_0000_0000 {
            Some((-dec_val(d)) as i64)
        } else {
            None
        }
    } else if s.len() >= 1 && all_digits(s) && dec_val(s) <= i64::MAX {
        Some(dec_val(s) as i64)
    } else {
        None
    }
}

proof fn lemma_dec_val_nonneg(s: Seq<char>)
    requires
        all_digits(s),
    ensures
        dec_val(s) >= 0,
    decreases s.len(),
{
    if s.len() > 0 {
        assert(all_digits(s.drop_last())) by {
            assert(forall|i: int| 0 <= i < s.len() - 1 ==> s.drop_last()[i] == s[i]);
        }
        lemma_dec_val_nonneg(s.drop_last());
    }
}

fn digit_to_str(d: u8) -> (r: &'static str)
    requires
        d < 10,
    ensures
        r@ == seq![digit_char(d as int)],
{
    if d == 0 {
        proof {
            reveal_strlit("0");
            assert("0"@ =~= seq!['0']);
        }
        "0"
    } else if d == 1 {
        proof {
            reveal_strlit("1");
            assert("1"@ =~= seq!['1']);
        }
        "1"
    } else if d == 2 {
        proof {
            reveal_strlit("2");
            assert("2"@ =~= seq!['2']);
        }
        "2"
    } else if d == 3 {
        proof {
            reveal_strlit("3");
            assert("3"@ =~= seq!['3']);
        }
        "3"
    } else if d == 4 {
        proof {
            reveal_strlit("4");
            assert("4"@ =~= seq!['4']);
        }
        "4"
    } else if d == 5 {
        proof {
            reveal_strlit("5");
            assert("5"@ =~= seq!['5']);
        }
        "5"
    } else if d == 6 {
        proof {
            reveal_strlit("6");
            assert("6"@ =~= seq!['6']);
        }
        "6"
    } else if d == 7 {
        proof {
            reveal_strlit("7");
            assert("7"@ =~= seq!['7']);
        }
        "7"
    } else if d == 8 {
        proof {
            reveal_strlit("8");
            assert("8"@ =~= seq!['8']);
        }
        "8"
    } else {
        proof {
            reveal_strlit("9");
            assert("9"@ =~= seq!['9']);
        }
        "9"
    }
}

/// The digit characters of `ds`, least significant first, read back to front.
spec fn rev_chars(ds: Seq<u8>) -> Seq<char>
    decreases ds.len(),
{
    if ds.len() == 0 {
        Seq::empty()
    } else {
        seq![digit_char(ds.last() as int)] + rev_chars(ds.drop_last())
    }
}

proof fn lemma_rev_chars_first(ds: Seq<u8>)
    requires
        ds.len() >= 1,
    ensures
        rev_chars(ds) == rev_chars(ds.drop_first()) + seq![digit_char(ds.first() as int)],
    decreases ds.len(),
{
    if ds.len() == 1 {
        assert(ds.first() == ds.last());
        assert(ds.drop_first() =~= Seq::<u8>::empty());
        assert(ds.drop_last() =~= Seq::<u8>::empty());
        assert(rev_chars(ds) == seq![digit_char(ds.last() as int)] + rev_chars(ds.drop_last()));
        assert(rev_chars(ds) =~= rev_chars(ds.drop_first()) + seq![digit_char(ds.first() as int)]);
    } else {
        lemma_rev_chars_first(ds.drop_last());
        assert(ds.drop_last().first() == ds.first());
        assert(ds.drop_first().last() == ds.last());
        assert(ds.drop_first().drop_last() =~= ds.drop_last().drop_first());
        assert(rev_chars(ds) =~= rev_chars(ds.drop_first()) + seq![digit_char(ds.first() as int)]);
    }
}

/// Renders `n` in decimal, exactly as [`spec_i64_str`] describes.
pub fn format_i64(n: i64) -> (r: String)
    ensures
        r@ == spec_i64_str(n as int),
{
    let neg = n < 0;
    let mut mag: u64 = if n >= 0 {
        n as u64
    } else {
        (-(n as i128)) as u64
    };
    let ghost m0 = mag as int;
    let mut digs: Vec<u8> = Vec::new();
    if mag == 0 {
        digs.push(0);
        proof {
            assert(digs@.len() == 1);
            assert(digs@.last() == 0u8);
            assert(digs@.drop_last() =~= Seq::<u8>::empty());
            assert(rev_chars(digs@) == seq![digit_char(0)] + rev_chars(digs@.drop_last()));
            assert(m0 == 0);
            assert(spec_digits(m0) == seq![digit_char(0)]);
            assert(rev_chars(digs@) =~= spec_digits(m0));
        }
    } else {
        while mag > 0
            invariant
                0 <= mag,
                m0 >= 1,
                forall|j: int| 0 <= j < digs@.len() ==> (#[trigger] digs@[j]) < 10,
                mag > 0 ==> spec_digits(m0) == spec_digits(mag as int) + rev_chars(digs@),
                mag == 0 ==> spec_digits(m0) == rev_chars(digs@),
            decreases mag,
        {
            let d = (mag % 10) as u8;
            let ghost old_digs = digs@;
            let ghost old_mag = mag as int;
            digs.push(d);
            mag = mag / 10;
            proof {
                assert(digs@.last() == d);
                assert(digs@.drop_last() =~= old_digs);
                assert(rev_chars(digs@) == seq![digit_char(d as int)] + rev_chars(old_digs));
                if mag > 0 {
                    assert(old_mag >= 10);
                    assert(spec_digits(old_mag) == spec_digits(old_mag / 10).push(
                        digit_char(old_mag % 10),
                    ));
                    assert(spec_digits(old_mag / 10).push(digit_char(old_mag % 10))
                        =~= spec_digits(old_mag / 10) + seq![digit_char(old_mag % 10)]);
                    assert(spec_digits(m0) =~= spec_digits(mag as int) + rev_chars(digs@));
                } else {
                    assert(old_mag < 10);
                    assert(spec_digits(old_mag) == seq![digit_char(old_mag)]);
                    assert(spec_digits(m0) =~= rev_chars(digs@));
                }
            }
        }
    }
    let mut out = String::new();
    if neg {
        proof {
            reveal_strlit("-");
            assert("-"@ =~= seq!['-']);
        }
        out.append("-");
    }
    let ghost sign: Seq<char> = if neg {
        seq!['-']
    } else {
        Seq::empty()
    };
    proof {
        assert(out@ =~= sign);
        assert(digs@.skip(digs@.len() as int) =~= Seq::<u8>::empty());
        assert(out@ =~= sign + rev_chars(digs@.skip(digs@.len() as int)));
    }
    let mut i: usize = digs.len();
    while i > 0
        invariant
            i <= digs@.len(),
            forall|j: int| 0 <= j < digs@.len() ==> (#[trigger] digs@[j]) < 10,
            out@ == sign + rev_chars(digs@.skip(i as int)),
        decreases i,
    {
        i -= 1;
        let piece = digit_to_str(digs[i]);
        out.append(piece);
        proof {
            let t = digs@.skip(i as int);
            assert(t.first() == digs@[i as int]);
            assert(t.drop_first() =~= digs@.skip(i as int + 1));
            lemma_rev_chars_first(t);
            assert(out@ =~= sign + rev_chars(digs@.skip(i as int)));
        }
    }
    proof {
        assert(digs@.skip(0) =~= digs@);
        if neg {
            assert(m0 == -(n as int));
            assert(out@ =~= seq!['-'] + spec_digits(-(n as int)));
        } else {
            assert(out@ =~= spec_digits(n as int));
        }
    }
    out
}

/// Parses an optional `-` sign followed by decimal digits, exactly as
/// [`parse_i64_view`] describes; `None` on any other input and on values
/// outside the `i64` range.
pub fn parse_i64(s: &str) -> (r: Option<i64>)
    ensures
        r == parse_i64_view(s@),
{
    let n = s.unicode_len();
    if n == 0 {
        return None;
    }
    let neg = s.get_char(0) == '-';
    let start: usize = if neg {
        1
    } else {
        0
    };
    if n == start {
        return None;
    }
    let mut acc: u128 = 0;
    let mut i = start;
    proof {
        assert(s@.subrange(start as int, start as int) =~= Seq::<char>::empty());
    }
    while i < n
        invariant
            start <= i <= n,
            n == s@.len(),
            neg <==> start == 1,
            neg ==> s@[0] == '-',
            !neg ==> s@[0] != '-',
            start <= 1,
            n > start,
            all_digits(s@.subrange(start as int, i as int)),
            acc <= 0x8000_0000_0000_0001,
            dec_val(s@.subrange(start as int, i as int)) <= 0x8000_0000_0000_0000 ==> acc
                == dec_val(s@.subrange(start as int, i as int)),
            dec_val(s@.subrange(start as int, i as int)) > 0x8000_0000_0000_0000 ==> acc
                == 0x8000_0000_0000_0001,
        decreases n - i,
    {
        let c = s.get_char(i);
        if !(c >= '0' && c <= '9') {
            proof {
                assert(s@.skip(start as int)[i - start] == c);
                assert(!is_digit(c));
                assert(!all_digits(s@.skip(start as int)));
                if neg {
                    assert(s@[0] == '-');
                } else {
                    assert(s@.skip(0) =~= s@);
                    assert(!all_digits(s@));
                }
            }
            return None;
        }
        let d = ((c as u32) - 48) as u128;
        proof {
            let pre = s@.subrange(start as int, i as int);
            let pre2 = s@.subrange(start as int, i as int + 1);
            assert(pre2 =~= pre.push(c));
            assert(pre2.drop_last() =~= pre);
            assert(d == digit_val(c));
            lemma_dec_val_nonneg(pre);
        }
        let mut next = acc * 10 + d;
        if next > 0x8000_0000_0000_0000 {
            next = 0x8000_0000_0000_0001;
        }
        acc = next;
        i += 1;
    }
    proof {
        assert(s@.subrange(start as int, n as int) =~= s@.skip(start as int));
        if !neg {
            assert(s@.skip(0) =~= s@);
        }
        lemma_dec_val_nonneg(s@.skip(start as int));
    }
    if neg {
        if acc > 0x8000_0000_0000_0000 {
            return None;
        }
        Some((-(acc as i128)) as i64)
    } else {
        if acc > 0x7fff_ffff_ffff_ffff {
            return None;
        }
        Some(acc as i64)
    }
}

proof fn lemma_digit_char_val(d: int)
    requires
        0 <= d < 10,
    ensures
        is_digit(digit_char(d)),
        digit_val(digit_char(d)) == d,
{
}

pub proof fn lemma_spec_digits_are_digits(n: int)
    requires
        n >= 0,
    ensures
        all_digits(spec_digits(n)),
        spec_digits(n).len() >= 1,
        dec_val(spec_digits(n)) == n,
    decreases n,
{
    if n < 10 {
        let s = spec_digits(n);
        lemma_digit_char_val(n);
        assert(s.drop_last() =~= Seq::<char>::empty());
        assert(dec_val(s) == dec_val(s.drop_last()) * 10 + digit_val(s.last()));
    } else {
        lemma_spec_digits_are_digits(n / 10);
        let s = spec_digits(n);
        let t = spec_digits(n / 10);
        assert(s == t.push(digit_char(n % 10)));
        assert(s.drop_last() =~= t);
        assert(s.last() == digit_char(n % 10));
        lemma_digit_char_val(n % 10);
        assert(all_digits(s)) by {
            assert(forall|i: int| 0 <= i < t.len() ==> s[i] == t[i]);
        }
        assert(dec_val(s) == (n / 10) * 10 + (n % 10));
        assert((n / 10) * 10 + (n % 10) == n);
    }
}

/// Parsing the canonical rendering of any `i64` gives that value back: the
/// number round trip of the cache codec.
pub proof fn lemma_parse_format_round_trip(n: i64)
    ensures
        parse_i64_view(spec_i64_str(n as int)) == Some(n),
{
    if n >= 0 {
        lemma_spec_digits_are_digits(n as int);
        let s = spec_i64_str(n as int);
        assert(s == spec_digits(n as int));
        assert(is_digit(s[0]));
        assert(s[0] != '-');
        assert(dec_val(s) == n as int);
    } else {
        lemma_spec_digits_are_digits(-(n as int));
        let s = spec_i64_str(n as int);
        let d = spec_digits(-(n as int));
        assert(s == seq!['-'] + d);
        assert(s[0] == '-');
        assert(s.skip(1) =~= d);
        assert(dec_val(d) == -(n as int));
        assert(dec_val(d) <= 0x8000_0000_0000_0000);
        assert((-dec_val(d)) as i64 == n);
    }
}

} // verus!
