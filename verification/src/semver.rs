//! Version numbers `major.minor.patch`, for the minimum cargo-task version that a
//! task may ask for.

use vstd::prelude::*;
use crate::text::{chars_of, lemma_split_on_len, split_char, split_on};

verus! {

/// `c` is a decimal digit.
pub open spec fn is_digit(c: char) -> bool {
    '0' <= c && c <= '9'
}

/// The number that the decimal digits `d` write.
pub open spec fn digits_value(d: Seq<char>) -> nat
    decreases d.len(),
{
    if d.len() == 0 {
        0
    } else {
        digits_value(d.drop_last()) * 10 + ((d.last() as u32) - ('0' as u32)) as nat
    }
}

/// The digits of an unsigned number: the text without one leading `+`.
pub open spec fn number_digits(s: Seq<char>) -> Seq<char> {
    if s.len() > 0 && s[0] == '+' { s.drop_first() } else { s }
}

/// What `str::parse::<usize>` makes of `s`: the number, where `s` is one or more
/// decimal digits, after at most one `+`, that write a number that fits.
pub open spec fn usize_of(s: Seq<char>) -> Option<usize> {
    let d = number_digits(s);
    if d.len() > 0 && (forall|i: int| 0 <= i < d.len() ==> is_digit(#[trigger] d[i]))
        && digits_value(d) <= usize::MAX {
        Some(digits_value(d) as usize)
    } else {
        None
    }
}

proof fn lemma_digits_value_mono(d: Seq<char>, i: int)
    requires
        0 <= i <= d.len(),
        forall|k: int| 0 <= k < d.len() ==> is_digit(#[trigger] d[k]),
    ensures
        digits_value(d.take(i)) <= digits_value(d),
    decreases d.len() - i,
{
    if i < d.len() {
        assert(d.take(i) =~= d.drop_last().take(i)) by {
            assert(d.take(i) =~= d.drop_last().take(i));
        }
        assert forall|k: int| 0 <= k < d.drop_last().len() implies is_digit(#[trigger] d.drop_last()[k]) by {
            assert(d.drop_last()[k] == d[k]);
        }
        lemma_digits_value_mono(d.drop_last(), i);
        assert(is_digit(d[d.len() - 1]));
    } else {
        assert(d.take(i) =~= d);
    }
}

/// Parses an unsigned decimal number, as `str::parse::<usize>` does.
pub fn parse_usize(s: &str) -> (r: Option<usize>)
    ensures
        r == usize_of(s@),
{
    let cs = chars_of(s);
    let n = cs.len();
    let start: usize = if n > 0 && cs[0] == '+' { 1 } else { 0 };
    let ghost d = number_digits(s@);
    proof {
        assert(d =~= s@.skip(start as int));
    }
    if start == n {
        return None;
    }
    let mut v: usize = 0;
    let mut i: usize = start;
    proof {
        assert(d.take(0) =~= Seq::<char>::empty());
    }
    while i < n
        invariant
            cs@ == s@,
            n == s@.len(),
            start <= i <= n,
            d == s@.skip(start as int),
            d == number_digits(s@),
            d.len() > 0,
            forall|k: int| 0 <= k < i - start ==> is_digit(#[trigger] d[k]),
            v == digits_value(d.take(i - start)),
        decreases n - i,
    {
        let c = cs[i];
        proof {
            assert(d[i - start] == c);
            assert(d.take(i - start + 1).drop_last() =~= d.take(i - start));
            assert(d.take(i - start + 1).last() == c);
        }
        if !('0' <= c && c <= '9') {
            proof {
                assert(!is_digit(d[i - start]));
            }
            return None;
        }
        let digit = (c as u32 - '0' as u32) as usize;
        let next = match v.checked_mul(10) {
            Some(x) => x.checked_add(digit),
            None => None,
        };
        match next {
            Some(x) => {
                v = x;
            },
            None => {
                proof {
                    let j = i - start + 1;
                    assert(digits_value(d.take(j)) > usize::MAX);
                    if forall|k: int| 0 <= k < d.len() ==> is_digit(#[trigger] d[k]) {
                        lemma_digits_value_mono(d, j);
                    }
                }
                return None;
            },
        }
        i = i + 1;
    }
    proof {
        assert(d.take(n - start) =~= d);
    }
    Some(v)
}

/// `a` is an earlier version than `b`.
pub open spec fn version_lt(a: (usize, usize, usize), b: (usize, usize, usize)) -> bool {
    a.0 < b.0 || (a.0 == b.0 && (a.1 < b.1 || (a.1 == b.1 && a.2 < b.2)))
}

/// Versions are ordered by major number, then minor, then patch: a smaller major
/// number comes first; with the same major number, a smaller minor number; with the
/// same major and minor numbers, a smaller patch number. The order is strict and
/// total: of two different versions, exactly one comes first.
pub proof fn law_version_order(a: (usize, usize, usize), b: (usize, usize, usize))
    ensures
        a.0 < b.0 ==> version_lt(a, b),
        a.0 == b.0 && a.1 < b.1 ==> version_lt(a, b),
        a.0 == b.0 && a.1 == b.1 ==> (version_lt(a, b) <==> a.2 < b.2),
        !(version_lt(a, b) && version_lt(b, a)),
        a != b ==> version_lt(a, b) || version_lt(b, a),
        !version_lt(a, a),
{
}

/// `s` has three parts between dots, each of which parses as a number.
pub open spec fn semver_numbers_ok(s: Seq<char>) -> bool {
    let p = split_on(s, '.');
    p.len() == 3 ==> usize_of(p[0]) is Some && usize_of(p[1]) is Some && usize_of(p[2]) is Some
}

/// The decimal digit character for `d < 10`.
pub open spec fn digit_char(d: nat) -> char {
    (('0' as u32) + d) as char
}

/// The decimal text of `n`, as `{}` formats an unsigned number: its digits, most
/// significant first, with no leading zero.
pub open spec fn decimal(n: nat) -> Seq<char>
    decreases n,
{
    if n < 10 {
        seq![digit_char(n)]
    } else {
        decimal(n / 10).push(digit_char(n % 10))
    }
}

proof fn lemma_decimal(n: nat)
    ensures
        decimal(n).len() > 0,
        forall|i: int| 0 <= i < decimal(n).len() ==> is_digit(#[trigger] decimal(n)[i]),
        digits_value(decimal(n)) == n,
    decreases n,
{
    let d = n % 10;
    assert((digit_char(d) as u32) == ('0' as u32) + d);
    assert(decimal(n).last() == digit_char(d));
    if n < 10 {
        assert(decimal(n).drop_last() =~= Seq::<char>::empty());
        assert(d == n);
        assert(digits_value(Seq::<char>::empty()) == 0);
        assert(digits_value(decimal(n)) == digits_value(decimal(n).drop_last()) * 10 + ((
        decimal(n).last() as u32) - ('0' as u32)) as nat);
    } else {
        lemma_decimal(n / 10);
        let t = decimal(n / 10);
        assert(decimal(n).drop_last() =~= t);
        assert(digits_value(decimal(n)) == digits_value(t) * 10 + d);
        assert((n / 10) * 10 + n % 10 == n) by (nonlinear_arith);
        assert forall|i: int| 0 <= i < decimal(n).len() implies is_digit(#[trigger] decimal(n)[i]) by {
            if i < t.len() {
                assert(decimal(n)[i] == t[i]);
            }
        }
    }
}

/// The number that `decimal(n)` parses as, where it fits in a `usize`.
proof fn lemma_usize_of_decimal(n: usize)
    ensures
        usize_of(decimal(n as nat)) == Some(n),
        !decimal(n as nat).contains('.'),
{
    lemma_decimal(n as nat);
    let d = decimal(n as nat);
    assert(is_digit(d[0]));
    assert(number_digits(d) == d);
    if d.contains('.') {
        let k = choose|k: int| 0 <= k < d.len() && d[k] == '.';
        assert(is_digit(d[k]));
    }
}

proof fn lemma_split_extend(x: Seq<char>, y: Seq<char>, c: char)
    requires
        !y.contains(c),
    ensures
        split_on(x + y, c) == split_on(x, c).update(
            split_on(x, c).len() - 1,
            split_on(x, c).last() + y,
        ),
    decreases y.len(),
{
    lemma_split_on_len(x, c);
    if y.len() == 0 {
        assert(x + y =~= x);
        assert(split_on(x, c).last() + y =~= split_on(x, c).last());
        assert(split_on(x, c).update(split_on(x, c).len() - 1, split_on(x, c).last())
            =~= split_on(x, c));
    } else {
        let yi = y.drop_last();
        assert(!yi.contains(c)) by {
            if yi.contains(c) {
                let k = choose|k: int| 0 <= k < yi.len() && yi[k] == c;
                assert(y[k] == c);
            }
        }
        assert(y.last() != c) by {
            assert(y[y.len() - 1] == y.last());
        }
        lemma_split_extend(x, yi, c);
        assert((x + y).drop_last() =~= x + yi);
        assert((x + y).last() == y.last());
        let r = split_on(x, c);
        assert((r.last() + yi).push(y.last()) =~= r.last() + y);
        assert(split_on(x + y, c) =~= r.update(r.len() - 1, r.last() + y));
    }
}

proof fn lemma_split_sep(x: Seq<char>, c: char)
    ensures
        split_on(x.push(c), c) == split_on(x, c).push(seq![]),
{
    assert(x.push(c).drop_last() =~= x);
}

/// A version written as `{}.{}.{}` of three numbers parses back as those numbers.
pub proof fn law_semver_round_trip(a: usize, b: usize, c: usize)
    ensures
        ({
            let s = decimal(a as nat) + seq!['.'] + decimal(b as nat) + seq!['.'] + decimal(
                c as nat,
            );
            &&& semver_numbers_ok(s)
            &&& split_on(s, '.').len() == 3
            &&& usize_of(split_on(s, '.')[0]) == Some(a)
            &&& usize_of(split_on(s, '.')[1]) == Some(b)
            &&& usize_of(split_on(s, '.')[2]) == Some(c)
        }),
{
    let (da, db, dc) = (decimal(a as nat), decimal(b as nat), decimal(c as nat));
    lemma_usize_of_decimal(a);
    lemma_usize_of_decimal(b);
    lemma_usize_of_decimal(c);
    let e = Seq::<char>::empty();
    lemma_split_extend(e, da, '.');
    assert(e + da =~= da);
    assert(split_on(e, '.') =~= seq![e]);
    assert(split_on(da, '.') =~= seq![da]) by {
        assert(seq![e].update(0, e + da) =~= seq![da]);
    }
    let s1 = da.push('.');
    lemma_split_sep(da, '.');
    assert(split_on(s1, '.') =~= seq![da, e]);
    lemma_split_extend(s1, db, '.');
    let s2 = s1 + db;
    assert(split_on(s2, '.') =~= seq![da, db]) by {
        assert(e + db =~= db);
    }
    let s3 = s2.push('.');
    lemma_split_sep(s2, '.');
    assert(split_on(s3, '.') =~= seq![da, db, e]);
    lemma_split_extend(s3, dc, '.');
    let s4 = s3 + dc;
    assert(split_on(s4, '.') =~= seq![da, db, dc]) by {
        assert(e + dc =~= dc);
    }
    assert(s4 =~= da + seq!['.'] + db + seq!['.'] + dc);
}

/// A version that does not have three parts.
pub struct InvalidSemver;

/// Whether the parts of `s`, where there are three, are numbers; the parse of a
/// version panics on parts that are not.
pub fn semver_numbers_valid(s: &str) -> (b: bool)
    ensures
        b == semver_numbers_ok(s@),
{
    let p = split_char(s, '.');
    if p.len() != 3 {
        return true;
    }
    proof {
        assert(p@[0]@ == split_on(s@, '.')[0]);
        assert(p@[1]@ == split_on(s@, '.')[1]);
        assert(p@[2]@ == split_on(s@, '.')[2]);
    }
    parse_usize(p[0].as_str()).is_some() && parse_usize(p[1].as_str()).is_some() && parse_usize(
        p[2].as_str(),
    ).is_some()
}

/// Parse a semver string into a (usize, usize, usize); a string without exactly
/// three dot-separated parts is invalid.
pub fn parse_semver(s: &str) -> (r: Result<(usize, usize, usize), InvalidSemver>)
    requires
        semver_numbers_ok(s@),
    ensures
        split_on(s@, '.').len() != 3 <==> r is Err,
        r matches Ok(v) ==> Some(v.0) == usize_of(split_on(s@, '.')[0]) && Some(v.1) == usize_of(
            split_on(s@, '.')[1],
        ) && Some(v.2) == usize_of(split_on(s@, '.')[2]),
{
    let p = split_char(s, '.');
    if p.len() != 3 {
        return Err(InvalidSemver);
    }
    proof {
        assert(p@[0]@ == split_on(s@, '.')[0]);
        assert(p@[1]@ == split_on(s@, '.')[1]);
        assert(p@[2]@ == split_on(s@, '.')[2]);
    }
    let a = parse_usize(p[0].as_str());
    let b = parse_usize(p[1].as_str());
    let c = parse_usize(p[2].as_str());
    match (a, b, c) {
        (Some(a), Some(b), Some(c)) => Ok((a, b, c)),
        _ => Err(InvalidSemver),
    }
}

/// Whether version `cur` is at least `min`; either one that does not have three
/// parts is an error, `cur` checked first.
pub fn min_version_met(cur: &str, min: &str) -> (r: Result<bool, InvalidSemver>)
    requires
        semver_numbers_ok(cur@),
        semver_numbers_ok(min@),
    ensures
        r is Err <==> split_on(cur@, '.').len() != 3 || split_on(min@, '.').len() != 3,
        r matches Ok(b) ==> b == !version_lt(
            (
                usize_of(split_on(cur@, '.')[0])->0,
                usize_of(split_on(cur@, '.')[1])->0,
                usize_of(split_on(cur@, '.')[2])->0,
            ),
            (
                usize_of(split_on(min@, '.')[0])->0,
                usize_of(split_on(min@, '.')[1])->0,
                usize_of(split_on(min@, '.')[2])->0,
            ),
        ),
{
    let a = parse_semver(cur)?;
    let b = parse_semver(min)?;
    Ok(!(a.0 < b.0 || (a.0 == b.0 && (a.1 < b.1 || (a.1 == b.1 && a.2 < b.2)))))
}

} // verus!
