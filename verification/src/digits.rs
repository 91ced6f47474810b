use vstd::prelude::*;

verus! {

/// Ten to the power `w`.
pub open spec fn pow10(w: nat) -> nat
    decreases w,
{
    if w == 0 {
        1
    } else {
        10 * pow10((w - 1) as nat)
    }
}

/// The decimal digit character for `d` (meaningful for `d < 10`).
pub open spec fn digit_char(d: nat) -> char {
    if d == 0 {
        '0'
    } else if d == 1 {
        '1'
    } else if d == 2 {
        '2'
    } else if d == 3 {
        '3'
    } else if d == 4 {
        '4'
    } else if d == 5 {
        '5'
    } else if d == 6 {
        '6'
    } else if d == 7 {
        '7'
    } else if d == 8 {
        '8'
    } else {
        '9'
    }
}

/// The value of a decimal digit character; 10 marks a non-digit.
pub open spec fn digit_val(c: char) -> nat {
    if c == '0' {
        0
    } else if c == '1' {
        1
    } else if c == '2' {
        2
    } else if c == '3' {
        3
    } else if c == '4' {
        4
    } else if c == '5' {
        5
    } else if c == '6' {
        6
    } else if c == '7' {
        7
    } else if c == '8' {
        8
    } else if c == '9' {
        9
    } else {
        10
    }
}

pub open spec fn is_digit_char(c: char) -> bool {
    digit_val(c) < 10
}

pub open spec fn all_digits(s: Seq<char>) -> bool {
    forall|i: int| 0 <= i < s.len() ==> is_digit_char(#[trigger] s[i])
}

/// `n` written as exactly `w` decimal digits, most significant first,
/// with leading zeros (the value is truncated to its last `w` digits).
pub open spec fn fixed_digits(n: nat, w: nat) -> Seq<char>
    decreases w,
{
    if w == 0 {
        Seq::empty()
    } else {
        fixed_digits(n / 10, (w - 1) as nat).push(digit_char(n % 10))
    }
}

/// The value of a digit string, most significant digit first.
pub open spec fn digits_val(s: Seq<char>) -> nat
    decreases s.len(),
{
    if s.len() == 0 {
        0
    } else {
        digits_val(s.drop_last()) * 10 + digit_val(s.last())
    }
}

pub proof fn lemma_pow10_small()
    ensures
        pow10(7) == 10_000_000,
        pow10(20) == 100_000_000_000_000_000_000,
{
    assert(pow10(0) == 1);
    assert(pow10(1) == 10);
    assert(pow10(2) == 100);
    assert(pow10(3) == 1000);
    assert(pow10(4) == 10000);
    assert(pow10(5) == 100000);
    assert(pow10(6) == 1000000);
    assert(pow10(7) == 10000000);
    assert(pow10(8) == 100000000);
    assert(pow10(9) == 1000000000);
    assert(pow10(10) == 10000000000);
    assert(pow10(11) == 100000000000);
    assert(pow10(12) == 1000000000000);
    assert(pow10(13) == 10000000000000);
    assert(pow10(14) == 100000000000000);
    assert(pow10(15) == 1000000000000000);
    assert(pow10(16) == 10000000000000000);
    assert(pow10(17) == 100000000000000000);
    assert(pow10(18) == 1000000000000000000);
    assert(pow10(19) == 10000000000000000000);
    assert(pow10(20) == 100000000000000000000);
}

/// Fixed-width digit strings are digit strings of the demanded width, and
/// writing then reading a value below `pow10(w)` gives the value back.
pub proof fn lemma_fixed_digits_ok(n: nat, w: nat)
    requires
        n < pow10(w),
    ensures
        fixed_digits(n, w).len() == w,
        all_digits(fixed_digits(n, w)),
        digits_val(fixed_digits(n, w)) == n,
    decreases w,
{
    if w == 0 {
    } else {
        let q = n / 10;
        let r = n % 10;
        assert(q < pow10((w - 1) as nat)) by {
            assert(pow10(w) == 10 * pow10((w - 1) as nat));
            assert(n < 10 * pow10((w - 1) as nat));
            assert(n / 10 < pow10((w - 1) as nat)) by (nonlinear_arith)
                requires
                    n < 10 * pow10((w - 1) as nat),
            ;
        }
        lemma_fixed_digits_ok(q, (w - 1) as nat);
        let s = fixed_digits(q, (w - 1) as nat).push(digit_char(r));
        assert(s.drop_last() =~= fixed_digits(q, (w - 1) as nat));
        assert(s.last() == digit_char(r));
        assert(r < 10);
        assert(digit_val(digit_char(r)) == r);
        assert(digits_val(s) == q * 10 + r);
        assert(n == q * 10 + r) by (nonlinear_arith)
            requires
                q == n / 10 && r == n % 10,
        ;
        assert forall|i: int| 0 <= i < s.len() implies is_digit_char(s[i]) by {
            if i < s.len() - 1 {
                assert(s[i] == fixed_digits(q, (w - 1) as nat)[i]);
            } else {
                assert(s[i] == digit_char(r));
            }
        }
    }
}

/// The digits of a fixed-width rendering are decimal digits, whatever the
/// value.
pub proof fn lemma_fixed_digits_are_digits(n: nat, w: nat)
    ensures
        fixed_digits(n, w).len() == w,
        all_digits(fixed_digits(n, w)),
    decreases w,
{
    if w == 0 {
    } else {
        lemma_fixed_digits_are_digits(n / 10, (w - 1) as nat);
        let s = fixed_digits(n / 10, (w - 1) as nat).push(digit_char(n % 10));
        assert forall|i: int| 0 <= i < s.len() implies is_digit_char(s[i]) by {
            if i < s.len() - 1 {
                assert(s[i] == fixed_digits(n / 10, (w - 1) as nat)[i]);
            } else {
                assert(s[i] == digit_char(n % 10));
                assert(n % 10 < 10);
            }
        }
    }
}

/// The digit character for `d`.
pub fn digit_to_char(d: u64) -> (c: char)
    requires
        d < 10,
    ensures
        c == digit_char(d as nat),
{
    match d {
        0 => '0',
        1 => '1',
        2 => '2',
        3 => '3',
        4 => '4',
        5 => '5',
        6 => '6',
        7 => '7',
        8 => '8',
        _ => '9',
    }
}

/// The value of a digit character, or `None` for any other character.
pub fn char_to_digit(c: char) -> (r: Option<u8>)
    ensures
        r is Some <==> is_digit_char(c),
        r matches Some(d) ==> d == digit_val(c),
{
    match c {
        '0' => Some(0),
        '1' => Some(1),
        '2' => Some(2),
        '3' => Some(3),
        '4' => Some(4),
        '5' => Some(5),
        '6' => Some(6),
        '7' => Some(7),
        '8' => Some(8),
        '9' => Some(9),
        _ => None,
    }
}

/// Appends the `w`-digit rendering of `n` to `out`.
pub fn push_fixed_digits(out: &mut Vec<char>, n: u64, w: usize)
    requires
        (n as nat) < pow10(w as nat),
    ensures
        final(out)@ == old(out)@ + fixed_digits(n as nat, w as nat),
    decreases w,
{
    if w == 0 {
        assert(out@ =~= old(out)@ + fixed_digits(n as nat, 0));
    } else {
        proof {
            assert(pow10(w as nat) == 10 * pow10((w - 1) as nat));
            assert(((n / 10) as nat) < pow10((w - 1) as nat)) by (nonlinear_arith)
                requires
                    (n as nat) < 10 * pow10((w - 1) as nat),
            ;
        }
        push_fixed_digits(out, n / 10, w - 1);
        out.push(digit_to_char(n % 10));
        assert(out@ =~= old(out)@ + fixed_digits(n as nat, w as nat));
    }
}

/// Reads the `w` characters of `cs` starting at `start` as a `w`-digit
/// decimal number; `None` if any of them is not a digit.
pub fn parse_fixed_digits(cs: &Vec<char>, start: usize, w: usize) -> (r: Option<u128>)
    requires
        start + w <= cs.len(),
        w <= 20,
    ensures
        r is Some <==> all_digits(cs@.subrange(start as int, start + w)),
        r matches Some(v) ==> v as nat == digits_val(cs@.subrange(start as int, start + w)),
{
    let sub = Ghost(cs@.subrange(start as int, start + w));
    let mut acc: u128 = 0;
    let mut i: usize = 0;
    proof {
        lemma_pow10_small();
        assert(sub@.subrange(0, 0) =~= Seq::<char>::empty());
    }
    while i < w
        invariant
            i <= w,
            w <= 20,
            start + w <= cs.len(),
            sub@ == cs@.subrange(start as int, start + w),
            all_digits(sub@.subrange(0, i as int)),
            acc as nat == digits_val(sub@.subrange(0, i as int)),
            (acc as nat) < pow10(i as nat),
            pow10(20) == 100_000_000_000_000_000_000,
        decreases w - i,
    {
        let c = cs[start + i];
        assert(c == sub@[i as int]);
        match char_to_digit(c) {
            None => {
                assert(!is_digit_char(sub@[i as int]));
                assert(!all_digits(cs@.subrange(start as int, start + w)));
                return None;
            },
            Some(d) => {
                proof {
                    assert(pow10((i + 1) as nat) == 10 * pow10(i as nat));
                    assert(pow10(i as nat) <= pow10(20)) by {
                        lemma_pow10_mono(i as nat, 20);
                    }
                    assert(acc as nat * 10 + 9 < 10 * pow10(i as nat)) by (nonlinear_arith)
                        requires
                            (acc as nat) < pow10(i as nat),
                    ;
                }
                acc = acc * 10 + (d as u128);
                proof {
                    let pre = sub@.subrange(0, i as int);
                    let pre1 = sub@.subrange(0, i + 1);
                    assert(pre1.drop_last() =~= pre);
                    assert(pre1.last() == sub@[i as int]);
                    assert(digits_val(pre1) == digits_val(pre) * 10 + digit_val(sub@[i as int]));
                }
                i = i + 1;
            },
        }
    }
    proof {
        assert(sub@.subrange(0, w as int) =~= sub@);
    }
    Some(acc)
}

/// A digit string's value stays below `pow10` of its length.
pub proof fn lemma_digits_val_bound(s: Seq<char>)
    requires
        all_digits(s),
    ensures
        digits_val(s) < pow10(s.len()),
    decreases s.len(),
{
    if s.len() == 0 {
    } else {
        lemma_digits_val_bound(s.drop_last());
        assert(is_digit_char(s[s.len() - 1]));
        assert(digit_val(s.last()) <= 9);
        assert(pow10(s.len()) == 10 * pow10((s.len() - 1) as nat));
        assert(digits_val(s.drop_last()) * 10 + 9 < 10 * pow10((s.len() - 1) as nat))
            by (nonlinear_arith)
            requires
                digits_val(s.drop_last()) < pow10((s.len() - 1) as nat),
        ;
    }
}

/// `pow10` is monotone.
pub proof fn lemma_pow10_mono(a: nat, b: nat)
    requires
        a <= b,
    ensures
        pow10(a) <= pow10(b),
    decreases b,
{
    if a < b {
        lemma_pow10_mono(a, (b - 1) as nat);
        assert(pow10(b) == 10 * pow10((b - 1) as nat));
    }
}

} // verus!
