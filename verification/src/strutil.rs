//! Character-level string utilities: conversion between `String`/`&str` and
//! `Vec<char>`, and decimal rendering of integers.  All other modules do
//! their text work over `Vec<char>`, whose view is a plain `Seq<char>`.

use vstd::prelude::*;
use vstd::string::StrSliceExecFns;

verus! {

/// Relies on String::push: appends one character to the end of the string.
#[verifier::external_body]
pub(crate) fn push_char(s: &mut String, c: char)
    ensures
        final(s)@ == old(s)@.push(c),
{
    s.push(c);
}

/// The characters of `s`, in order.
pub fn str_to_chars(s: &str) -> (r: Vec<char>)
    ensures
        r@ == s@,
{
    let n = s.unicode_len();
    let mut r: Vec<char> = Vec::new();
    let mut i: usize = 0;
    while i < n
        invariant
            n == s@.len(),
            i <= n,
            r@ == s@.subrange(0, i as int),
        decreases n - i,
    {
        r.push(s.get_char(i));
        i = i + 1;
        proof {
            assert(r@ =~= s@.subrange(0, i as int));
        }
    }
    proof {
        assert(r@ =~= s@);
    }
    r
}

/// A `String` holding exactly the characters of `v`, in order.
pub fn chars_to_string(v: &Vec<char>) -> (r: String)
    ensures
        r@ == v@,
{
    let mut r = String::new();
    let mut i: usize = 0;
    while i < v.len()
        invariant
            i <= v@.len(),
            r@ == v@.subrange(0, i as int),
        decreases v@.len() - i,
    {
        push_char(&mut r, v[i]);
        i = i + 1;
        proof {
            assert(r@ =~= v@.subrange(0, i as int));
        }
    }
    proof {
        assert(r@ =~= v@);
    }
    r
}

/// The decimal digit character for `d`.
pub open spec fn dec_digit(d: int) -> char {
    if d == 0 {
        '0'
    } else if d == 1 {
        '1'
    } else if d == 2 {
        '2'
    } else if d == 3 {
        '3'
    } else if d == 4 {
        '4'
    } else if d == 5 {
        '5'
    } else if d == 6 {
        '6'
    } else if d == 7 {
        '7'
    } else if d == 8 {
        '8'
    } else {
        '9'
    }
}

/// Decimal rendering of a natural number, most significant digit first,
/// without leading zeros (`0` itself renders as "0").
pub open spec fn dec_nat(n: nat) -> Seq<char>
    decreases n,
{
    if n < 10 {
        seq![dec_digit(n as int)]
    } else {
        dec_nat(n / 10).push(dec_digit((n % 10) as int))
    }
}

/// Decimal rendering of an integer: a minus sign for negative values,
/// then the digits.
pub open spec fn dec_int(n: int) -> Seq<char> {
    if n < 0 {
        seq!['-'] + dec_nat((-n) as nat)
    } else {
        dec_nat(n as nat)
    }
}

fn digit_char(d: u64) -> (r: char)
    requires
        d < 10,
    ensures
        r == dec_digit(d as int),
{
    if d == 0 {
        '0'
    } else if d == 1 {
        '1'
    } else if d == 2 {
        '2'
    } else if d == 3 {
        '3'
    } else if d == 4 {
        '4'
    } else if d == 5 {
        '5'
    } else if d == 6 {
        '6'
    } else if d == 7 {
        '7'
    } else if d == 8 {
        '8'
    } else {
        '9'
    }
}

fn push_dec_u64(n: u64, out: &mut Vec<char>)
    ensures
        final(out)@ == old(out)@ + dec_nat(n as nat),
    decreases n,
{
    if n < 10 {
        out.push(digit_char(n));
        proof {
            assert(final(out)@ =~= old(out)@ + dec_nat(n as nat));
        }
    } else {
        push_dec_u64(n / 10, out);
        out.push(digit_char(n % 10));
        proof {
            assert(final(out)@ =~= old(out)@ + dec_nat(n as nat));
        }
    }
}

/// The decimal digits of `n`, appended to `out`.
pub fn push_dec_i64(n: i64, out: &mut Vec<char>)
    ensures
        final(out)@ == old(out)@ + dec_int(n as int),
{
    if n < 0 {
        out.push('-');
        let m: u64 = (-(n as i128)) as u64;
        proof {
            assert(m as nat == (-(n as int)) as nat);
        }
        push_dec_u64(m, out);
        proof {
            assert(final(out)@ =~= old(out)@ + dec_int(n as int));
        }
    } else {
        push_dec_u64(n as u64, out);
    }
}

/// Appends every character of `piece` to `out`.
pub fn push_chars(out: &mut Vec<char>, piece: &Vec<char>)
    ensures
        final(out)@ == old(out)@ + piece@,
{
    let mut i: usize = 0;
    while i < piece.len()
        invariant
            i <= piece@.len(),
            out@ == old(out)@ + piece@.subrange(0, i as int),
        decreases piece@.len() - i,
    {
        out.push(piece[i]);
        i = i + 1;
        proof {
            assert(out@ =~= old(out)@ + piece@.subrange(0, i as int));
        }
    }
    proof {
        assert(out@ =~= old(out)@ + piece@);
    }
}

/// Appends every character of the literal `piece` to `out`.
pub fn push_str_chars(out: &mut Vec<char>, piece: &str)
    ensures
        final(out)@ == old(out)@ + piece@,
{
    let n = piece.unicode_len();
    let mut i: usize = 0;
    while i < n
        invariant
            n == piece@.len(),
            i <= n,
            out@ == old(out)@ + piece@.subrange(0, i as int),
        decreases n - i,
    {
        out.push(piece.get_char(i));
        i = i + 1;
        proof {
            assert(out@ =~= old(out)@ + piece@.subrange(0, i as int));
        }
    }
    proof {
        assert(out@ =~= old(out)@ + piece@);
    }
}

/// Whether `c` is a decimal digit.
pub open spec fn is_digit_char(c: char) -> bool {
    c == '0' || c == '1' || c == '2' || c == '3' || c == '4' || c == '5' || c == '6' || c == '7'
        || c == '8' || c == '9'
}

/// The value of a decimal digit character.
pub open spec fn digit_val(c: char) -> int {
    if c == '0' {
        0
    } else if c == '1' {
        1
    } else if c == '2' {
        2
    } else if c == '3' {
        3
    } else if c == '4' {
        4
    } else if c == '5' {
        5
    } else if c == '6' {
        6
    } else if c == '7' {
        7
    } else if c == '8' {
        8
    } else {
        9
    }
}

/// The value of a digit string, most significant digit first.
pub open spec fn digits_val(s: Seq<char>) -> int
    decreases s.len(),
{
    if s.len() == 0 {
        0
    } else {
        digits_val(s.drop_last()) * 10 + digit_val(s.last())
    }
}

/// The digits of a rendered natural number: all decimal digits, the
/// value reads back, and only zero itself starts with a zero.
pub proof fn lemma_dec_nat_val(n: nat)
    ensures
        dec_nat(n).len() >= 1,
        forall|i: int| 0 <= i < dec_nat(n).len() ==> is_digit_char(#[trigger] dec_nat(n)[i]),
        digits_val(dec_nat(n)) == n,
        n >= 1 ==> dec_nat(n)[0] != '0',
        n == 0 ==> dec_nat(n) == seq!['0'],
    decreases n,
{
    if n < 10 {
        reveal_with_fuel(digits_val, 2);
        assert(dec_nat(n) =~= seq![dec_digit(n as int)]);
        assert(dec_nat(n).drop_last() =~= Seq::<char>::empty());
    } else {
        lemma_dec_nat_val(n / 10);
        let ds = dec_nat(n);
        assert(ds == dec_nat(n / 10).push(dec_digit((n % 10) as int)));
        assert(ds.drop_last() =~= dec_nat(n / 10));
        assert(ds.last() == dec_digit((n % 10) as int));
        assert forall|i: int| 0 <= i < ds.len() implies is_digit_char(ds[i]) by {
            if i < ds.len() - 1 {
                assert(ds[i] == dec_nat(n / 10)[i]);
            }
        }
        assert(ds[0] == dec_nat(n / 10)[0]);
    }
}

/// A digit prefix never exceeds the whole, and one more digit multiplies
/// the prefix by at least ten.
pub proof fn lemma_digits_prefix(ds: Seq<char>, k: int)
    requires
        forall|i: int| 0 <= i < ds.len() ==> is_digit_char(ds[i]),
        0 <= k <= ds.len(),
    ensures
        digits_val(ds.subrange(0, k)) >= 0,
        digits_val(ds) >= digits_val(ds.subrange(0, k)),
        k < ds.len() ==> digits_val(ds) >= digits_val(ds.subrange(0, k)) * 10,
    decreases ds.len() - k,
{
    lemma_digits_val_bounds(ds.subrange(0, k));
    if k == ds.len() {
        assert(ds.subrange(0, k) =~= ds);
    } else {
        let ext = ds.subrange(0, k + 1);
        assert(ext.drop_last() =~= ds.subrange(0, k));
        assert(is_digit_char(ext.last()));
        assert(digits_val(ext) == digits_val(ds.subrange(0, k)) * 10 + digit_val(ext.last()));
        assert(digit_val(ext.last()) >= 0);
        lemma_digits_prefix(ds, k + 1);
        lemma_digits_val_bounds(ext);
        assert(digits_val(ds) >= digits_val(ext));
    }
}

/// A digit string is nonnegative, and positive when its first digit is not zero.
pub proof fn lemma_digits_val_bounds(s: Seq<char>)
    requires
        forall|i: int| 0 <= i < s.len() ==> is_digit_char(s[i]),
    ensures
        digits_val(s) >= 0,
        s.len() > 0 && s[0] != '0' ==> digits_val(s) >= 1,
    decreases s.len(),
{
    if s.len() > 0 {
        lemma_digits_val_bounds(s.drop_last());
        assert(digit_val(s.last()) >= 0);
        if s[0] != '0' {
            if s.len() == 1 {
                assert(digit_val(s[0]) >= 1);
            } else {
                assert(s.drop_last()[0] == s[0]);
                assert(digits_val(s.drop_last()) >= 1);
            }
        }
    }
}

/// A digit string without a leading zero is the decimal rendering of its
/// own value: parsing inverts rendering.
pub proof fn lemma_digits_reconstruct(s: Seq<char>)
    requires
        s.len() > 0,
        forall|i: int| 0 <= i < s.len() ==> is_digit_char(s[i]),
        s.len() > 1 ==> s[0] != '0',
    ensures
        digits_val(s) >= 0,
        dec_nat(digits_val(s) as nat) == s,
    decreases s.len(),
{
    lemma_digits_val_bounds(s);
    if s.len() == 1 {
        reveal_with_fuel(digits_val, 2);
        assert(s.drop_last().len() == 0);
        assert(s.last() == s[0]);
        assert(digits_val(s) == digit_val(s[0]));
        assert(dec_nat(digits_val(s) as nat) =~= s);
    } else {
        let pre = s.drop_last();
        let d = digit_val(s.last());
        lemma_digits_val_bounds(pre);
        assert(pre[0] == s[0]);
        assert(digits_val(pre) >= 1);
        lemma_digits_reconstruct(pre);
        let m = digits_val(s);
        assert(m == digits_val(pre) * 10 + d);
        assert(0 <= d < 10);
        assert(m / 10 == digits_val(pre) && m % 10 == d) by (nonlinear_arith)
            requires
                m == digits_val(pre) * 10 + d,
                0 <= d < 10,
                digits_val(pre) >= 1,
        ;
        assert(m >= 10) by (nonlinear_arith)
            requires
                m == digits_val(pre) * 10 + d,
                d >= 0,
                digits_val(pre) >= 1,
        ;
        assert(dec_nat(m as nat) == dec_nat((m as nat) / 10).push(
            dec_digit(((m as nat) % 10) as int),
        ));
        assert((m as nat) / 10 == (m / 10) as nat);
        assert(dec_digit(m % 10) == s.last());
        assert(dec_nat(m as nat) =~= s);
    }
}

/// Whether two strings hold the same characters.
pub fn key_eq(a: &String, b: &String) -> (r: bool)
    ensures
        r == (a@ == b@),
{
    *a == *b
}

/// The characters of `v` from `from` on.
pub fn chars_suffix(v: &Vec<char>, from: usize) -> (r: Vec<char>)
    requires
        from <= v@.len(),
    ensures
        r@ == v@.subrange(from as int, v@.len() as int),
{
    let mut r: Vec<char> = Vec::new();
    let mut i: usize = from;
    while i < v.len()
        invariant
            from <= i <= v@.len(),
            r@ == v@.subrange(from as int, i as int),
        decreases v@.len() - i,
    {
        r.push(v[i]);
        i = i + 1;
        proof {
            assert(r@ =~= v@.subrange(from as int, i as int));
        }
    }
    proof {
        assert(r@ =~= v@.subrange(from as int, v@.len() as int));
    }
    r
}

/// Whether two character vectors hold the same characters.
pub fn chars_eq(a: &Vec<char>, b: &Vec<char>) -> (r: bool)
    ensures
        r == (a@ == b@),
{
    if a.len() != b.len() {
        proof {
            assert(a@.len() != b@.len());
        }
        return false;
    }
    let mut i: usize = 0;
    while i < a.len()
        invariant
            a@.len() == b@.len(),
            i <= a@.len(),
            forall|j: int| 0 <= j < i ==> a@[j] == b@[j],
        decreases a@.len() - i,
    {
        if a[i] != b[i] {
            return false;
        }
        i = i + 1;
    }
    proof {
        assert(a@ =~= b@);
    }
    true
}

} // verus!
