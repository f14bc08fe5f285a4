//! Decimal text for integers: printing an integer in base ten and reading
//! digit strings back, with proofs that the two directions agree.

use vstd::prelude::*;

verus! {

/// The decimal digit character for a value below ten.
pub open spec fn digit_char(d: nat) -> char {
    if d == 0 {
        '0'
    } else if d == 1 {
        '1'
    } else if d == 2 {
        '2'
    } else if d == 3 {
        '3'
    } else if d == 4 {
        '4'
    } else if d == 5 {
        '5'
    } else if d == 6 {
        '6'
    } else if d == 7 {
        '7'
    } else if d == 8 {
        '8'
    } else {
        '9'
    }
}

pub open spec fn is_digit(c: char) -> bool {
    c == '0' || c == '1' || c == '2' || c == '3' || c == '4' || c == '5' || c == '6' || c == '7'
        || c == '8' || c == '9'
}

/// The numeric value of a digit character.
pub open spec fn digit_val(c: char) -> nat {
    if c == '0' {
        0
    } else if c == '1' {
        1
    } else if c == '2' {
        2
    } else if c == '3' {
        3
    } else if c == '4' {
        4
    } else if c == '5' {
        5
    } else if c == '6' {
        6
    } else if c == '7' {
        7
    } else if c == '8' {
        8
    } else {
        9
    }
}

/// The shortest base-ten digit string of a natural number.
pub open spec fn dec_digits(n: nat) -> Seq<char>
    decreases n,
{
    if n < 10 {
        seq![digit_char(n)]
    } else {
        dec_digits(n / 10).push(digit_char(n % 10))
    }
}

/// The base-ten text of an integer: a minus sign for negatives, then digits.
pub open spec fn int_str(n: int) -> Seq<char> {
    if n < 0 {
        seq!['-'].add(dec_digits((-n) as nat))
    } else {
        dec_digits(n as nat)
    }
}

pub open spec fn all_digits(s: Seq<char>) -> bool {
    forall|i: int| 0 <= i < s.len() ==> is_digit(#[trigger] s[i])
}

/// The value of a digit string, most significant digit first.
pub open spec fn digits_val(s: Seq<char>) -> nat
    decreases s.len(),
{
    if s.len() == 0 {
        0
    } else {
        digits_val(s.drop_last()) * 10 + digit_val(s.last())
    }
}

pub proof fn lemma_dec_digits_wf(n: nat)
    ensures
        dec_digits(n).len() >= 1,
        all_digits(dec_digits(n)),
        digits_val(dec_digits(n)) == n,
    decreases n,
{
    if n < 10 {
        assert(dec_digits(n) =~= seq![digit_char(n)]);
        assert(dec_digits(n).drop_last() =~= Seq::<char>::empty());
        assert(digits_val(Seq::<char>::empty()) == 0);
        assert(digits_val(dec_digits(n)) == digits_val(dec_digits(n).drop_last()) * 10 + digit_val(
            dec_digits(n).last(),
        ));
    } else {
        lemma_dec_digits_wf(n / 10);
        let s = dec_digits(n);
        assert(s =~= dec_digits(n / 10).push(digit_char(n % 10)));
        assert(s.drop_last() =~= dec_digits(n / 10));
        assert(digits_val(s) == (n / 10) * 10 + n % 10);
        assert((n / 10) * 10 + n % 10 == n) by (nonlinear_arith);
    }
}

/// Appends the decimal digits of `n` to `out`.
pub fn push_u64_decimal(n: u64, out: &mut Vec<char>)
    ensures
        final(out)@ == old(out)@.add(dec_digits(n as nat)),
    decreases n,
{
    if n < 10 {
        let c: char = match n {
            0 => '0',
            1 => '1',
            2 => '2',
            3 => '3',
            4 => '4',
            5 => '5',
            6 => '6',
            7 => '7',
            8 => '8',
            _ => '9',
        };
        out.push(c);
        assert(out@ =~= old(out)@.add(dec_digits(n as nat)));
    } else {
        push_u64_decimal(n / 10, out);
        let d = n % 10;
        let c: char = match d {
            0 => '0',
            1 => '1',
            2 => '2',
            3 => '3',
            4 => '4',
            5 => '5',
            6 => '6',
            7 => '7',
            8 => '8',
            _ => '9',
        };
        out.push(c);
        assert(out@ =~= old(out)@.add(dec_digits(n as nat)));
    }
}

/// Reads the digit characters of `s` between `start` and `end` as a natural
/// number, failing on any non-digit or when the value would leave `u64`.
pub fn parse_digits_u64(s: &Vec<char>, start: usize, end: usize) -> (r: Option<u64>)
    requires
        start <= end <= s@.len(),
    ensures
        match r {
            Some(v) => all_digits(s@.subrange(start as int, end as int)) && end > start && v as nat
                == digits_val(s@.subrange(start as int, end as int)),
            None => !all_digits(s@.subrange(start as int, end as int)) || end == start
                || digits_val(s@.subrange(start as int, end as int)) > u64::MAX,
        },
{
    if start == end {
        return None;
    }
    let mut acc: u64 = 0;
    let mut i: usize = start;
    while i < end
        invariant
            start <= i <= end <= s@.len(),
            all_digits(s@.subrange(start as int, i as int)),
            acc as nat == digits_val(s@.subrange(start as int, i as int)),
        decreases end - i,
    {
        let c = s[i];
        let d: u64 = match c {
            '0' => 0,
            '1' => 1,
            '2' => 2,
            '3' => 3,
            '4' => 4,
            '5' => 5,
            '6' => 6,
            '7' => 7,
            '8' => 8,
            '9' => 9,
            _ => {
                proof {
                    assert(s@.subrange(start as int, end as int)[i - start] == c);
                    assert(!is_digit(c));
                }
                return None;
            },
        };
        proof {
            assert(is_digit(c) && digit_val(c) == d);
        }
        if acc > (u64::MAX - d) / 10 {
            proof {
                lemma_digits_val_prefix_grows(s@.subrange(start as int, end as int), i + 1 - start);
                assert(s@.subrange(start as int, end as int).subrange(0, i + 1 - start) =~= s@
                    .subrange(start as int, i as int + 1));
                assert(s@.subrange(start as int, i as int + 1).drop_last() =~= s@.subrange(
                    start as int,
                    i as int,
                ));
                assert(s@.subrange(start as int, i as int + 1).last() == c);
                assert(digits_val(s@.subrange(start as int, i as int + 1)) == acc as nat * 10 + d);
                assert(acc as nat * 10 + d > u64::MAX) by (nonlinear_arith)
                    requires
                        acc > (u64::MAX - d) / 10,
                        d <= 9,
                ;
            }
            return None;
        }
        proof {
            assert(acc as nat * 10 + d <= u64::MAX) by (nonlinear_arith)
                requires
                    acc <= (u64::MAX - d) / 10,
                    d <= 9,
            ;
        }
        acc = acc * 10 + d;
        i = i + 1;
        proof {
            assert(s@.subrange(start as int, i as int).drop_last() =~= s@.subrange(
                start as int,
                i as int - 1,
            ));
            assert(s@.subrange(start as int, i as int).last() == c);
        }
    }
    proof {
        assert(s@.subrange(start as int, i as int) =~= s@.subrange(start as int, end as int));
    }
    Some(acc)
}

/// Appends the base-ten text of a signed integer to `out`.
pub fn push_i64_decimal(n: i64, out: &mut Vec<char>)
    ensures
        final(out)@ == old(out)@.add(int_str(n as int)),
{
    if n < 0 {
        out.push('-');
        let m: u64 = (-(n as i128)) as u64;
        push_u64_decimal(m, out);
        proof {
            assert(out@ =~= old(out)@.add(int_str(n as int)));
        }
    } else {
        push_u64_decimal(n as u64, out);
    }
}

/// Whether a value fits a signed 64-bit integer.
pub open spec fn in_i64(x: int) -> bool {
    i64::MIN <= x <= i64::MAX
}

/// What reading a signed 64-bit integer from text yields: an optional single
/// sign, then one or more digits, and a value within range; otherwise nothing.
pub open spec fn spec_parse_i64(s: Seq<char>) -> Option<int> {
    let neg = s.len() >= 1 && s[0] == '-';
    let ds = if s.len() >= 1 && (s[0] == '-' || s[0] == '+') {
        s.skip(1)
    } else {
        s
    };
    if ds.len() >= 1 && all_digits(ds) {
        let v: int = if neg {
            -(digits_val(ds) as int)
        } else {
            digits_val(ds) as int
        };
        if in_i64(v) {
            Some(v)
        } else {
            None
        }
    } else {
        None
    }
}

/// Reads a signed 64-bit integer from the characters of `s` between `start`
/// and `end`.
pub fn parse_i64_range(s: &Vec<char>, start: usize, end: usize) -> (r: Option<i64>)
    requires
        start <= end <= s@.len(),
    ensures
        match r {
            Some(v) => spec_parse_i64(s@.subrange(start as int, end as int)) == Some(v as int),
            None => spec_parse_i64(s@.subrange(start as int, end as int)) is None,
        },
{
    let ghost sub = s@.subrange(start as int, end as int);
    if start == end {
        return None;
    }
    let c0 = s[start];
    let neg = c0 == '-';
    let dstart = if c0 == '-' || c0 == '+' {
        start + 1
    } else {
        start
    };
    let ghost ds = s@.subrange(dstart as int, end as int);
    proof {
        if c0 == '-' || c0 == '+' {
            assert(ds =~= sub.skip(1));
        } else {
            assert(ds =~= sub);
        }
    }
    match parse_digits_u64(s, dstart, end) {
        None => {
            proof {
                if digits_val(ds) > u64::MAX {
                    assert(!in_i64(digits_val(ds) as int));
                    assert(!in_i64(-(digits_val(ds) as int)));
                }
            }
            None
        },
        Some(v) => {
            if neg {
                if v <= 9223372036854775808u64 {
                    let res: i64 = if v == 9223372036854775808u64 {
                        i64::MIN
                    } else {
                        -(v as i64)
                    };
                    Some(res)
                } else {
                    None
                }
            } else {
                if v <= i64::MAX as u64 {
                    Some(v as i64)
                } else {
                    None
                }
            }
        },
    }
}

/// Ten to the power `k`.
pub open spec fn spec_pow10(k: nat) -> nat
    decreases k,
{
    if k == 0 {
        1
    } else {
        10 * spec_pow10((k - 1) as nat)
    }
}

/// Ten to a small power, for fractional-part denominators.
pub fn pow10_u64(k: usize) -> (r: u64)
    requires
        k <= 12,
    ensures
        r as nat == spec_pow10(k as nat),
        1 <= r <= 1000000000000,
{
    proof {
        lemma_pow10_values();
    }
    match k {
        0 => 1,
        1 => 10,
        2 => 100,
        3 => 1000,
        4 => 10000,
        5 => 100000,
        6 => 1000000,
        7 => 10000000,
        8 => 100000000,
        9 => 1000000000,
        10 => 10000000000,
        11 => 100000000000,
        _ => 1000000000000,
    }
}

/// The small powers of ten, spelled out.
pub proof fn lemma_pow10_values()
    ensures
        spec_pow10(0) == 1,
        spec_pow10(1) == 10,
        spec_pow10(2) == 100,
        spec_pow10(3) == 1000,
        spec_pow10(4) == 10000,
        spec_pow10(5) == 100000,
        spec_pow10(6) == 1000000,
        spec_pow10(7) == 10000000,
        spec_pow10(8) == 100000000,
        spec_pow10(9) == 1000000000,
        spec_pow10(10) == 10000000000,
        spec_pow10(11) == 100000000000,
        spec_pow10(12) == 1000000000000,
{
    assert(spec_pow10(0) == 1);
    assert(spec_pow10(1) == 10);
    assert(spec_pow10(2) == 100);
    assert(spec_pow10(3) == 1000);
    assert(spec_pow10(4) == 10000);
    assert(spec_pow10(5) == 100000);
    assert(spec_pow10(6) == 1000000);
    assert(spec_pow10(7) == 10000000);
    assert(spec_pow10(8) == 100000000);
    assert(spec_pow10(9) == 1000000000);
    assert(spec_pow10(10) == 10000000000);
    assert(spec_pow10(11) == 100000000000);
    assert(spec_pow10(12) == 1000000000000);
}

/// The base-ten text of an integer is nonempty, holds only digits apart from
/// a leading minus sign, and reads back as that integer.
pub proof fn lemma_int_str_props(n: int)
    requires
        in_i64(n),
    ensures
        int_str(n).len() >= 1,
        forall|j: int|
            0 <= j < int_str(n).len() ==> (is_digit(#[trigger] int_str(n)[j]) || (j == 0
                && int_str(n)[j] == '-')),
        spec_parse_i64(int_str(n)) == Some(n),
{
    if n < 0 {
        lemma_dec_digits_wf((-n) as nat);
        let s = int_str(n);
        assert(s == seq!['-'].add(dec_digits((-n) as nat)));
        assert(s[0] == '-');
        assert forall|j: int|
            0 <= j < s.len() implies (is_digit(#[trigger] s[j]) || (j == 0 && s[j] == '-')) by {
            if j > 0 {
                assert(s[j] == dec_digits((-n) as nat)[j - 1]);
            }
        }
        assert(s.skip(1) =~= dec_digits((-n) as nat));
        assert(!is_digit('-'));
        assert(spec_parse_i64(s) == Some(n));
    } else {
        lemma_dec_digits_wf(n as nat);
        let s = int_str(n);
        assert(s == dec_digits(n as nat));
        assert(is_digit(s[0]));
        assert(s[0] != '-' && s[0] != '+') by {
            assert(is_digit(s[0]));
        }
        assert(spec_parse_i64(s) == Some(n));
    }
}

pub proof fn lemma_pow10_le(a: nat, b: nat)
    requires
        a <= b,
    ensures
        spec_pow10(a) <= spec_pow10(b),
    decreases b,
{
    if a < b {
        lemma_pow10_le(a, (b - 1) as nat);
    }
}

/// A string of `k` digits reads as a value below ten to the `k`.
pub proof fn lemma_digits_val_bound(s: Seq<char>)
    ensures
        digits_val(s) < spec_pow10(s.len() as nat),
    decreases s.len(),
{
    if s.len() > 0 {
        lemma_digits_val_bound(s.drop_last());
        assert(digit_val(s.last()) <= 9);
        assert(digits_val(s.drop_last()) * 10 + 9 < 10 * spec_pow10(s.drop_last().len() as nat))
            by (nonlinear_arith)
            requires
                digits_val(s.drop_last()) < spec_pow10(s.drop_last().len() as nat),
        ;
    }
}

/// A digit string's value only grows as more digits are appended.
pub proof fn lemma_digits_val_prefix_grows(s: Seq<char>, k: int)
    requires
        0 <= k <= s.len(),
    ensures
        digits_val(s.subrange(0, k)) <= digits_val(s),
    decreases s.len() - k,
{
    if k < s.len() {
        lemma_digits_val_prefix_grows(s, k + 1);
        let a = s.subrange(0, k);
        let b = s.subrange(0, k + 1);
        assert(b.drop_last() =~= a);
        assert(digits_val(a) <= digits_val(a) * 10 + digit_val(b.last())) by (nonlinear_arith);
    } else {
        assert(s.subrange(0, k) =~= s);
    }
}

} // verus!
