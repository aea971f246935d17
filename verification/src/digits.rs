//! Decimal numbers as text: writing the digits of a number and reading them
//! back, with a proof that reading inverts writing.

use vstd::prelude::*;
use crate::text::push_char;

verus! {

/// The character is a decimal digit.
pub open spec fn is_digit(c: char) -> bool {
    48 <= c as u32 <= 57
}

/// The numeric value of a digit character.
pub open spec fn digit_val(c: char) -> nat {
    (c as u32 - 48) as nat
}

/// The digit character of a value below ten.
pub open spec fn digit_char(d: nat) -> char {
    if d == 0 {
        '0'
    } else if d == 1 {
        '1'
    } else if d == 2 {
        '2'
    } else if d == 3 {
        '3'
    } else if d == 4 {
        '4'
    } else if d == 5 {
        '5'
    } else if d == 6 {
        '6'
    } else if d == 7 {
        '7'
    } else if d == 8 {
        '8'
    } else {
        '9'
    }
}

pub proof fn lemma_digit_char(d: nat)
    requires
        d < 10,
    ensures
        is_digit(digit_char(d)),
        digit_val(digit_char(d)) == d,
{
}

/// The decimal digits of `n`, most significant first, without leading zeros
/// (zero itself is the single digit `'0'`).
pub open spec fn dec_digits(n: nat) -> Seq<char>
    decreases n,
{
    if n < 10 {
        seq![digit_char(n)]
    } else {
        dec_digits(n / 10).push(digit_char(n % 10))
    }
}

/// Digits read left to right from position `i`, the value read so far in
/// `acc`; stops at the first non-digit; fails on a value the machine cannot
/// hold.
pub open spec fn parse_num_rec(s: Seq<char>, i: int, acc: nat) -> Option<(nat, int)>
    decreases s.len() - i,
    when 0 <= i <= s.len()
{
    if i < s.len() && is_digit(s[i]) {
        let v = acc * 10 + digit_val(s[i]);
        if v > usize::MAX as nat {
            None
        } else {
            parse_num_rec(s, i + 1, v)
        }
    } else {
        Some((acc, i))
    }
}

/// A number read at position `i`: at least one digit, ending at the first
/// non-digit.
pub open spec fn parse_num_at(s: Seq<char>, i: int) -> Option<(nat, int)> {
    if 0 <= i < s.len() && is_digit(s[i]) {
        parse_num_rec(s, i, 0)
    } else {
        None
    }
}

/// The value of the digit string `ds` appended to a number already worth
/// `acc`.
pub open spec fn val_acc(ds: Seq<char>, acc: nat) -> nat
    decreases ds.len(),
{
    if ds.len() == 0 {
        acc
    } else {
        val_acc(ds.drop_first(), acc * 10 + digit_val(ds[0]))
    }
}

proof fn lemma_val_acc_ge(ds: Seq<char>, acc: nat)
    ensures
        val_acc(ds, acc) >= acc,
    decreases ds.len(),
{
    if ds.len() > 0 {
        lemma_val_acc_ge(ds.drop_first(), acc * 10 + digit_val(ds[0]));
    }
}

proof fn lemma_val_acc_push(ds: Seq<char>, c: char, acc: nat)
    ensures
        val_acc(ds.push(c), acc) == val_acc(ds, acc) * 10 + digit_val(c),
    decreases ds.len(),
{
    assert(ds.push(c)[0] == if ds.len() == 0 { c } else { ds[0] });
    if ds.len() == 0 {
        assert(ds.push(c).drop_first() =~= Seq::<char>::empty());
        assert(val_acc(ds.push(c), acc) == val_acc(Seq::<char>::empty(), acc * 10 + digit_val(c)));
    } else {
        assert(ds.push(c).drop_first() =~= ds.drop_first().push(c));
        lemma_val_acc_push(ds.drop_first(), c, acc * 10 + digit_val(ds[0]));
    }
}

/// The digits of `n` are at least one, all digits, and read back to `n`.
pub proof fn lemma_dec_digits(n: nat)
    ensures
        dec_digits(n).len() >= 1,
        forall|k: int| 0 <= k < dec_digits(n).len() ==> is_digit(#[trigger] dec_digits(n)[k]),
        val_acc(dec_digits(n), 0) == n,
    decreases n,
{
    if n < 10 {
        lemma_digit_char(n);
        assert(dec_digits(n) == seq![digit_char(n)]);
        assert(seq![digit_char(n)].drop_first() =~= Seq::<char>::empty());
        assert(val_acc(seq![digit_char(n)], 0) == val_acc(Seq::<char>::empty(), 0 * 10 + digit_val(
            digit_char(n),
        )));
    } else {
        lemma_dec_digits(n / 10);
        lemma_digit_char(n % 10);
        lemma_val_acc_push(dec_digits(n / 10), digit_char(n % 10), 0);
        assert(forall|k: int|
            0 <= k < dec_digits(n / 10).len() ==> dec_digits(n)[k] == dec_digits(n / 10)[k]);
    }
}

/// Reading digits inverts writing them: wherever the digit string `ds` sits
/// in `s` followed by a non-digit (or the end), the number read there is the
/// value of `ds`.
pub proof fn lemma_parse_digits(s: Seq<char>, i: int, ds: Seq<char>, acc: nat)
    requires
        0 <= i,
        i + ds.len() <= s.len(),
        forall|k: int| 0 <= k < ds.len() ==> is_digit(#[trigger] ds[k]),
        s.subrange(i, i + ds.len()) == ds,
        i + ds.len() == s.len() || !is_digit(s[i + ds.len()]),
        val_acc(ds, acc) <= usize::MAX as nat,
    ensures
        parse_num_rec(s, i, acc) == Some((val_acc(ds, acc), i + ds.len())),
    decreases ds.len(),
{
    if ds.len() > 0 {
        assert(s[i] == ds[0]);
        let v = acc * 10 + digit_val(ds[0]);
        lemma_val_acc_ge(ds.drop_first(), v);
        assert(s.subrange(i + 1, i + ds.len()) =~= ds.drop_first());
        lemma_parse_digits(s, i + 1, ds.drop_first(), v);
    }
}

/// Reading a number inverts writing one: wherever the digits of `n` sit in
/// `s` followed by a non-digit (or the end), the number read is `n`.
pub proof fn lemma_parse_dec_digits(s: Seq<char>, i: int, n: nat)
    requires
        0 <= i,
        n <= usize::MAX as nat,
        i + dec_digits(n).len() <= s.len(),
        s.subrange(i, i + dec_digits(n).len()) == dec_digits(n),
        i + dec_digits(n).len() == s.len() || !is_digit(s[i + dec_digits(n).len()]),
    ensures
        parse_num_at(s, i) == Some((n, i + dec_digits(n).len())),
{
    lemma_dec_digits(n);
    lemma_parse_digits(s, i, dec_digits(n), 0);
    assert(s[i] == dec_digits(n)[0]);
}

/// The digit character of a value below ten.
pub fn digit_to_char(d: usize) -> (c: char)
    requires
        d < 10,
    ensures
        c == digit_char(d as nat),
{
    match d {
        0 => '0',
        1 => '1',
        2 => '2',
        3 => '3',
        4 => '4',
        5 => '5',
        6 => '6',
        7 => '7',
        8 => '8',
        _ => '9',
    }
}

/// Appends the decimal digits of `n` to `out`.
pub fn push_dec(out: &mut String, n: usize)
    ensures
        final(out)@ == old(out)@ + dec_digits(n as nat),
    decreases n,
{
    if n < 10 {
        push_char(out, digit_to_char(n));
        proof {
            assert(out@ =~= old(out)@ + dec_digits(n as nat));
        }
    } else {
        push_dec(out, n / 10);
        push_char(out, digit_to_char(n % 10));
        proof {
            assert(out@ =~= old(out)@ + dec_digits(n as nat));
        }
    }
}

/// Reads a number at position `i`; the executable form of `parse_num_at`.
pub fn parse_num(s: &Vec<char>, i: usize) -> (r: Option<(usize, usize)>)
    requires
        i <= s@.len(),
    ensures
        match r {
            Some((n, j)) => parse_num_at(s@, i as int) == Some((n as nat, j as int)) && i < j
                <= s@.len(),
            None => parse_num_at(s@, i as int) is None,
        },
{
    if i == s.len() {
        return None;
    }
    let c0 = s[i] as u32;
    if c0 < 48 || c0 > 57 {
        return None;
    }
    let mut acc: usize = (c0 - 48) as usize;
    let mut j: usize = i + 1;
    proof {
        assert(parse_num_rec(s@, i as int, 0) == parse_num_rec(s@, j as int, acc as nat));
    }
    while j < s.len()
        invariant
            i < j <= s@.len(),
            is_digit(s@[i as int]),
            parse_num_rec(s@, i as int, 0) == parse_num_rec(s@, j as int, acc as nat),
        decreases s@.len() - j,
    {
        let cj = s[j] as u32;
        if cj < 48 || cj > 57 {
            return Some((acc, j));
        }
        let d = (cj - 48) as usize;
        let wide: u128 = acc as u128 * 10 + d as u128;
        if wide > usize::MAX as u128 {
            return None;
        }
        acc = wide as usize;
        j += 1;
    }
    Some((acc, j))
}

} // verus!
