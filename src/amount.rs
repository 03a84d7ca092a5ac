//! Amounts written with up to two decimals (`12`, `3.4`, `-3,45`), read as
//! a whole number of minor units.
use vstd::prelude::*;
use vstd::string::*;
use crate::types::Amount;

verus! {

pub open spec fn is_digit(c: char) -> bool {
    '0' <= c && c <= '9'
}

pub open spec fn all_digits(d: Seq<char>) -> bool {
    forall|i: int| 0 <= i < d.len() ==> is_digit(#[trigger] d[i])
}

/// The number that a string of decimal digits denotes.
pub open spec fn digits_value(d: Seq<char>) -> int
    decreases d.len(),
{
    if d.len() == 0 {
        0
    } else {
        digits_value(d.drop_last()) * 10 + (d.last() as int - '0' as int)
    }
}

/// An `i64` written in decimal, with an optional sign, as `str::parse` reads it.
pub open spec fn parse_i64(d: Seq<char>) -> Option<i64> {
    let neg = d.len() > 0 && d[0] == '-';
    let body = if d.len() > 0 && (d[0] == '-' || d[0] == '+') {
        d.drop_first()
    } else {
        d
    };
    let v = if neg {
        -digits_value(body)
    } else {
        digits_value(body)
    };
    if body.len() == 0 || !all_digits(body) || v < i64::MIN || v > i64::MAX {
        None
    } else {
        Some(v as i64)
    }
}

pub open spec fn is_separator(c: char) -> bool {
    c == ',' || c == '.'
}

pub open spec fn separator_count(t: Seq<char>) -> nat
    decreases t.len(),
{
    if t.len() == 0 {
        0
    } else {
        separator_count(t.drop_last()) + if is_separator(t.last()) { 1nat } else { 0nat }
    }
}

/// The index of the first separator, or the length when there is none.
pub open spec fn first_separator(t: Seq<char>, i: int) -> int
    decreases t.len() - i,
{
    if i >= t.len() || is_separator(t[i]) {
        i
    } else {
        first_separator(t, i + 1)
    }
}

/// The digits of an amount in minor units: with exactly one separator, the
/// integer part followed by the first two decimals (padded with zeros);
/// otherwise the part before any separator followed by two zeros.
pub open spec fn amount_digits(t: Seq<char>) -> Seq<char> {
    let k = first_separator(t, 0);
    if separator_count(t) == 1 {
        let frac = t.subrange(k + 1, t.len() as int);
        t.take(k) + if frac.len() < 2 {
            frac + Seq::new((2 - frac.len()) as nat, |i: int| '0')
        } else {
            frac.take(2)
        }
    } else {
        t.take(k) + seq!['0', '0']
    }
}

/// The amount that `t` denotes, in minor units.
pub open spec fn amount_value(t: Seq<char>) -> Option<i64> {
    parse_i64(amount_digits(t))
}

const DIGITS_CAP: i128 = 0x1_0000_0000_0000_0000;

/// Reads an optionally signed decimal `i64`.
fn parse_signed(d: &Vec<char>) -> (r: Option<i64>)
    ensures
        r == parse_i64(d@),
{
    let n = d.len();
    let neg = n > 0 && d[0] == '-';
    let start: usize = if n > 0 && (d[0] == '-' || d[0] == '+') {
        1
    } else {
        0
    };
    let ghost body = if n > 0 && (d@[0] == '-' || d@[0] == '+') {
        d@.drop_first()
    } else {
        d@
    };
    proof {
        assert(body =~= d@.subrange(start as int, n as int));
    }
    if start == n {
        return None;
    }
    let mut acc: i128 = 0;
    let mut i: usize = start;
    proof {
        assert(d@.subrange(start as int, start as int) =~= seq![]);
    }
    while i < n
        invariant
            n == d@.len(),
            start <= i <= n,
            body == d@.subrange(start as int, n as int),
            body == if d@.len() > 0 && (d@[0] == '-' || d@[0] == '+') {
                d@.drop_first()
            } else {
                d@
            },
            all_digits(d@.subrange(start as int, i as int)),
            acc == if digits_value(d@.subrange(start as int, i as int)) < DIGITS_CAP {
                digits_value(d@.subrange(start as int, i as int))
            } else {
                DIGITS_CAP as int
            },
            digits_value(d@.subrange(start as int, i as int)) >= 0,
        decreases n - i,
    {
        let c = d[i];
        let ghost pre = d@.subrange(start as int, i as int);
        let ghost next = d@.subrange(start as int, i + 1);
        proof {
            assert(next.drop_last() =~= pre);
            assert(next.last() == c);
        }
        if !('0' <= c && c <= '9') {
            proof {
                assert(body[i - start] == c);
                assert(!is_digit(body[i - start]));
                assert(!all_digits(body));
                assert(parse_i64(d@) is None);
            }
            return None;
        }
        let digit = (c as u32 - '0' as u32) as i128;
        acc = if acc >= DIGITS_CAP {
            DIGITS_CAP
        } else {
            let v = acc * 10 + digit;
            if v >= DIGITS_CAP {
                DIGITS_CAP
            } else {
                v
            }
        };
        proof {
            assert forall|j: int| 0 <= j < next.len() implies is_digit(#[trigger] next[j]) by {
                if j < pre.len() {
                    assert(next[j] == pre[j]);
                }
            }
        }
        i += 1;
    }
    proof {
        assert(d@.subrange(start as int, n as int) == body);
    }
    if neg {
        if acc > 0x8000_0000_0000_0000 {
            None
        } else {
            Some((-acc) as i64)
        }
    } else {
        if acc > 0x7fff_ffff_ffff_ffff {
            None
        } else {
            Some(acc as i64)
        }
    }
}

/// Reads an amount written with up to two decimals as minor units: `3.4` is
/// 340, `-3,45` is -345, `12` is 1200. Further decimals are dropped.
pub fn do_parse_amount(x: &str) -> (r: Option<Amount>)
    ensures
        r == amount_value(x@),
{
    let n = x.unicode_len();
    let ghost t = x@;
    let mut first: usize = n;
    let mut seps: usize = 0;
    let mut i: usize = 0;
    while i < n
        invariant
            n == t.len(),
            t == x@,
            0 <= i <= n,
            first <= n,
            seps == separator_count(t.take(i as int)),
            seps <= i,
            first == n ==> first_separator(t, 0) == first_separator(t, i as int) && seps == 0,
            first < n ==> first < i && first == first_separator(t, 0),
        decreases n - i,
    {
        let c = x.get_char(i);
        proof {
            assert(t.take(i + 1).drop_last() =~= t.take(i as int));
            assert(t.take(i + 1).last() == c);
        }
        if c == ',' || c == '.' {
            if first == n {
                first = i;
            }
            seps += 1;
        }
        i += 1;
    }
    proof {
        assert(t.take(n as int) =~= t);
        if first == n {
            assert(first_separator(t, n as int) == n);
        }
    }
    let mut digits: Vec<char> = Vec::new();
    let mut j: usize = 0;
    while j < first
        invariant
            first <= n,
            n == t.len(),
            t == x@,
            0 <= j <= first,
            digits@ == t.take(j as int),
        decreases first - j,
    {
        digits.push(x.get_char(j));
        proof {
            assert(t.take(j + 1) =~= t.take(j as int).push(t[j as int]));
        }
        j += 1;
    }
    let ghost int_part = digits@;
    if seps == 1 {
        proof {
            assert(first < n);
        }
        let mut taken: usize = 0;
        let mut k: usize = first + 1;
        let ghost frac = t.subrange(first + 1, n as int);
        while k < n && taken < 2
            invariant
                first < n,
                n == t.len(),
                t == x@,
                frac == t.subrange(first + 1, n as int),
                first + 1 <= k <= n,
                taken == k - first - 1,
                taken <= 2,
                digits@ == int_part + frac.take(taken as int),
            decreases n - k,
        {
            digits.push(x.get_char(k));
            proof {
                assert(frac.take(taken + 1) =~= frac.take(taken as int).push(frac[taken as int]));
            }
            k += 1;
            taken += 1;
        }
        let ghost got = digits@;
        while taken < 2
            invariant
                taken <= 2,
                got == int_part + frac.take(if frac.len() < 2 { frac.len() as int } else { 2 }),
                frac.len() >= 2 ==> taken == 2 && digits@ == got,
                frac.len() <= taken ==> digits@ == got + Seq::new((taken - frac.len()) as nat, |i: int| '0'),
                taken < 2 ==> frac.len() <= taken,
            decreases 2 - taken,
        {
            let ghost before = digits@;
            digits.push('0');
            proof {
                assert(Seq::new((taken + 1 - frac.len()) as nat, |i: int| '0') =~= Seq::new(
                    (taken - frac.len()) as nat,
                    |i: int| '0',
                ).push('0'));
            }
            taken += 1;
        }
        proof {
            if frac.len() < 2 {
                assert(frac.take(frac.len() as int) =~= frac);
                assert(digits@ =~= int_part + (frac + Seq::new((2 - frac.len()) as nat, |i: int| '0')));
            } else {
                assert(digits@ =~= int_part + frac.take(2));
            }
            assert(int_part == t.take(first_separator(t, 0)));
        }
    } else {
        digits.push('0');
        digits.push('0');
        proof {
            assert(digits@ =~= int_part + seq!['0', '0']);
        }
    }
    parse_signed(&digits)
}

} // verus!
