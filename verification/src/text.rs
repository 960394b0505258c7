//! Text helpers for the reporter: decimal rendering of counters, the
//! human-scaled rendering of durations, and comparisons on segment keys.

use vstd::prelude::*;
use vstd::arithmetic::div_mod::{lemma_div_is_ordered, lemma_multiply_divide_lt};

verus! {

/// The decimal digit character for `d` in `0 ..= 9`.
pub open spec fn digit_char(d: int) -> char {
    if d == 0 {
        '0'
    } else if d == 1 {
        '1'
    } else if d == 2 {
        '2'
    } else if d == 3 {
        '3'
    } else if d == 4 {
        '4'
    } else if d == 5 {
        '5'
    } else if d == 6 {
        '6'
    } else if d == 7 {
        '7'
    } else if d == 8 {
        '8'
    } else {
        '9'
    }
}

/// The usual decimal rendering of a non-negative integer, most significant
/// digit first, without leading zeros (except for zero itself).
pub open spec fn dec_seq(n: int) -> Seq<char>
    recommends
        n >= 0,
    decreases n,
{
    if n < 10 {
        seq![digit_char(n)]
    } else {
        dec_seq(n / 10).push(digit_char(n % 10))
    }
}

/// `t` expressed in hundredths of `unit`, rounded half up.
pub open spec fn scaled_hundredths(t: int, unit: int) -> int {
    (t / unit) * 100 + ((t % unit) * 100 + unit / 2) / unit
}

/// `t` scaled by `unit` and rendered with exactly two decimal places.
pub open spec fn fixed2(t: int, unit: int) -> Seq<char> {
    let q = scaled_hundredths(t, unit);
    dec_seq(q / 100) + seq!['.', digit_char((q / 10) % 10), digit_char(q % 10)]
}

/// A duration in nanoseconds rendered with its best-fit unit: seconds,
/// milliseconds or microseconds with two decimals, or whole nanoseconds
/// below one microsecond's thousandth part.
pub open spec fn spec_format_time(t: int) -> Seq<char> {
    if t >= 1_000_000_000 {
        fixed2(t, 1_000_000_000) + seq![' ', 's']
    } else if t >= 1_000_000 {
        fixed2(t, 1_000_000) + seq![' ', 'm', 's']
    } else if t >= 1_000 {
        fixed2(t, 1_000) + seq![' ', 'u', 's']
    } else {
        dec_seq(t) + seq![' ', 'n', 's']
    }
}

/// One decimal digit as a string slice.
fn digit_str(d: u128) -> (r: &'static str)
    requires
        d < 10,
    ensures
        r@ =~= seq![digit_char(d as int)],
{
    match d {
        0 => {
            proof {
                reveal_strlit("0");
            }
            "0"
        },
        1 => {
            proof {
                reveal_strlit("1");
            }
            "1"
        },
        2 => {
            proof {
                reveal_strlit("2");
            }
            "2"
        },
        3 => {
            proof {
                reveal_strlit("3");
            }
            "3"
        },
        4 => {
            proof {
                reveal_strlit("4");
            }
            "4"
        },
        5 => {
            proof {
                reveal_strlit("5");
            }
            "5"
        },
        6 => {
            proof {
                reveal_strlit("6");
            }
            "6"
        },
        7 => {
            proof {
                reveal_strlit("7");
            }
            "7"
        },
        8 => {
            proof {
                reveal_strlit("8");
            }
            "8"
        },
        _ => {
            proof {
                reveal_strlit("9");
            }
            "9"
        },
    }
}

/// Decimal rendering of an unsigned counter.
pub fn u128_to_string(n: u128) -> (r: String)
    ensures
        r@ == dec_seq(n as int),
    decreases n,
{
    if n < 10 {
        let mut s = String::new();
        s.append(digit_str(n));
        proof {
            assert(s@ =~= dec_seq(n as int));
        }
        s
    } else {
        let mut s = u128_to_string(n / 10);
        s.append(digit_str(n % 10));
        proof {
            assert(s@ =~= dec_seq(n as int));
        }
        s
    }
}

/// `t` scaled by `unit`, rendered with two decimal places.
fn format_fixed2(t: u128, unit: u128) -> (r: String)
    requires
        1_000 <= unit <= 1_000_000_000,
    ensures
        r@ == fixed2(t as int, unit as int),
{
    let whole = t / unit;
    let rem = t % unit;
    proof {
        lemma_div_is_ordered(t as int, u128::MAX as int, unit as int);
        lemma_div_is_ordered(
            (u128::MAX as int) * 1_000,
            (u128::MAX as int) * (unit as int),
            (unit as int) * 1_000,
        );
        assert((u128::MAX as int) * (unit as int) / ((unit as int) * 1_000) == (u128::MAX as int)
            / 1_000 && (u128::MAX as int) * 1_000 / ((unit as int) * 1_000) == (u128::MAX as int)
            / (unit as int) && (u128::MAX as int) * 1_000 <= (u128::MAX as int) * (unit as int))
            by (nonlinear_arith)
            requires
                1_000 <= unit <= 1_000_000_000,
        ;
        assert(rem * 100 + unit / 2 < (unit as int) * 101) by (nonlinear_arith)
            requires
                rem < unit,
                unit >= 1_000,
        ;
        lemma_multiply_divide_lt((rem * 100 + unit / 2) as int, 101, unit as int);
    }
    let frac = (rem * 100 + unit / 2) / unit;
    let q = whole * 100 + frac;
    let mut s = u128_to_string(q / 100);
    proof {
        reveal_strlit(".");
    }
    s.append(".");
    s.append(digit_str((q / 10) % 10));
    s.append(digit_str(q % 10));
    proof {
        assert(s@ =~= fixed2(t as int, unit as int));
    }
    s
}

/// A duration in nanoseconds with its best-fit unit, two decimal places
/// for scaled units, whole nanoseconds otherwise.
pub fn format_time(t: u128) -> (r: String)
    ensures
        r@ == spec_format_time(t as int),
{
    if t >= 1_000_000_000 {
        let mut s = format_fixed2(t, 1_000_000_000);
        proof {
            reveal_strlit(" s");
        }
        s.append(" s");
        proof {
            assert(s@ =~= spec_format_time(t as int));
        }
        s
    } else if t >= 1_000_000 {
        let mut s = format_fixed2(t, 1_000_000);
        proof {
            reveal_strlit(" ms");
        }
        s.append(" ms");
        proof {
            assert(s@ =~= spec_format_time(t as int));
        }
        s
    } else if t >= 1_000 {
        let mut s = format_fixed2(t, 1_000);
        proof {
            reveal_strlit(" us");
        }
        s.append(" us");
        proof {
            assert(s@ =~= spec_format_time(t as int));
        }
        s
    } else {
        let mut s = u128_to_string(t);
        proof {
            reveal_strlit(" ns");
        }
        s.append(" ns");
        proof {
            assert(s@ =~= spec_format_time(t as int));
        }
        s
    }
}

/// Strict lexicographic order on character sequences.
pub open spec fn lex_lt(a: Seq<char>, b: Seq<char>) -> bool
    decreases a.len(),
{
    if b.len() == 0 {
        false
    } else if a.len() == 0 {
        true
    } else if (a[0] as u32) < (b[0] as u32) {
        true
    } else if (a[0] as u32) > (b[0] as u32) {
        false
    } else {
        lex_lt(a.drop_first(), b.drop_first())
    }
}

/// Lexicographic order is asymmetric: two sequences never each precede
/// the other.
pub proof fn lemma_lex_lt_asym(a: Seq<char>, b: Seq<char>)
    requires
        lex_lt(a, b),
    ensures
        !lex_lt(b, a),
    decreases a.len(),
{
    if a.len() > 0 && b.len() > 0 && (a[0] as u32) == (b[0] as u32) {
        lemma_lex_lt_asym(a.drop_first(), b.drop_first());
    }
}

/// Lexicographic order is transitive.
pub proof fn lemma_lex_lt_trans(a: Seq<char>, b: Seq<char>, c: Seq<char>)
    requires
        lex_lt(a, b),
        lex_lt(b, c),
    ensures
        lex_lt(a, c),
    decreases a.len(),
{
    if a.len() > 0 && b.len() > 0 && c.len() > 0 && (a[0] as u32) == (b[0] as u32) && (b[0] as u32)
        == (c[0] as u32) {
        lemma_lex_lt_trans(a.drop_first(), b.drop_first(), c.drop_first());
    }
}

/// Whether two string slices hold the same characters.
pub fn str_eq(a: &str, b: &str) -> (r: bool)
    ensures
        r == (a@ == b@),
{
    let alen = a.unicode_len();
    let blen = b.unicode_len();
    if alen != blen {
        return false;
    }
    let mut i: usize = 0;
    while i < alen
        invariant
            alen == a@.len(),
            alen == b@.len(),
            0 <= i <= alen,
            forall|j: int| 0 <= j < i ==> a@[j] == b@[j],
        decreases alen - i,
    {
        if a.get_char(i) != b.get_char(i) {
            return false;
        }
        i += 1;
    }
    proof {
        assert(a@ =~= b@);
    }
    true
}

/// Dropping an equal first character preserves the lexicographic order
/// between the remainders and the whole.
proof fn lemma_lex_lt_step(a: Seq<char>, b: Seq<char>, i: int)
    requires
        0 <= i < a.len(),
        0 <= i < b.len(),
        a[i] == b[i],
    ensures
        lex_lt(a.skip(i), b.skip(i)) == lex_lt(a.skip(i + 1), b.skip(i + 1)),
{
    assert(a.skip(i).drop_first() =~= a.skip(i + 1));
    assert(b.skip(i).drop_first() =~= b.skip(i + 1));
    assert(a.skip(i)[0] == a[i]);
    assert(b.skip(i)[0] == b[i]);
}

/// Whether `a` comes strictly before `b` in lexicographic order.
pub fn str_lt(a: &str, b: &str) -> (r: bool)
    ensures
        r == lex_lt(a@, b@),
{
    let alen = a.unicode_len();
    let blen = b.unicode_len();
    let n = if alen < blen {
        alen
    } else {
        blen
    };
    proof {
        assert(a@.skip(0) =~= a@);
        assert(b@.skip(0) =~= b@);
    }
    let mut i: usize = 0;
    while i < n
        invariant
            alen == a@.len(),
            blen == b@.len(),
            n == if alen < blen {
                alen
            } else {
                blen
            },
            0 <= i <= n,
            lex_lt(a@, b@) == lex_lt(a@.skip(i as int), b@.skip(i as int)),
        decreases n - i,
    {
        let ca = a.get_char(i);
        let cb = b.get_char(i);
        proof {
            assert(a@.skip(i as int)[0] == a@[i as int]);
            assert(b@.skip(i as int)[0] == b@[i as int]);
        }
        if (ca as u32) < (cb as u32) {
            return true;
        }
        if (ca as u32) > (cb as u32) {
            return false;
        }
        proof {
            lemma_lex_lt_step(a@, b@, i as int);
        }
        i += 1;
    }
    proof {
        if alen < blen {
            assert(a@.skip(i as int).len() == 0);
            assert(b@.skip(i as int).len() > 0);
        } else {
            assert(b@.skip(i as int).len() == 0);
        }
    }
    alen < blen
}

} // verus!
