//! Decimal notation for unsigned integers.
use vstd::prelude::*;

verus! {

/// Whether `c` is one of `0` to `9`.
pub open spec fn is_digit(c: char) -> bool {
    '0' <= c <= '9'
}

/// The digit character for `d`, with `d` below ten.
pub open spec fn digit_char(d: nat) -> char {
    ('0' as nat + d) as char
}

/// The number a digit character stands for.
pub open spec fn digit_value(c: char) -> nat {
    (c as nat - '0' as nat) as nat
}

/// Whether every character of `s` is a digit.
pub open spec fn all_digits(s: Seq<char>) -> bool {
    forall|i: int| 0 <= i < s.len() ==> is_digit(#[trigger] s[i])
}

/// The shortest decimal notation of `n`.
pub open spec fn decimal_text(n: nat) -> Seq<char>
    decreases n,
{
    if n < 10 {
        seq![digit_char(n)]
    } else {
        decimal_text(n / 10).push(digit_char(n % 10))
    }
}

/// The number that a run of digits denotes; leading zeros are allowed.
pub open spec fn decimal_value(s: Seq<char>) -> nat
    decreases s.len(),
{
    if s.len() == 0 {
        0
    } else {
        decimal_value(s.drop_last()) * 10 + digit_value(s.last())
    }
}

/// The notation of a number is a non-empty run of digits.
pub proof fn lemma_decimal_text_digits(n: nat)
    ensures
        decimal_text(n).len() >= 1,
        all_digits(decimal_text(n)),
    decreases n,
{
    if n >= 10 {
        lemma_decimal_text_digits(n / 10);
    }
}

/// Reading back the notation of a number gives the number.
pub proof fn lemma_decimal_round_trip(n: nat)
    ensures
        decimal_value(decimal_text(n)) == n,
    decreases n,
{
    if n < 10 {
        assert(decimal_text(n).drop_last() =~= Seq::<char>::empty());
        assert(decimal_value(Seq::<char>::empty()) == 0);
    } else {
        lemma_decimal_round_trip(n / 10);
        assert(decimal_text(n).drop_last() =~= decimal_text(n / 10));
    }
}

/// The digit character for `d`.
pub fn digit_to_char(d: u8) -> (c: char)
    requires
        d < 10,
    ensures
        c == digit_char(d as nat),
        is_digit(c),
{
    match d {
        0 => '0',
        1 => '1',
        2 => '2',
        3 => '3',
        4 => '4',
        5 => '5',
        6 => '6',
        7 => '7',
        8 => '8',
        _ => '9',
    }
}

/// Whether `c` is a digit.
pub fn char_is_digit(c: char) -> (r: bool)
    ensures
        r == is_digit(c),
{
    c >= '0' && c <= '9'
}

/// Appends the decimal notation of `n` to `out`.
pub fn push_decimal(out: &mut String, n: u64)
    ensures
        final(out)@ == old(out)@ + decimal_text(n as nat),
    decreases n,
{
    if n >= 10 {
        push_decimal(out, n / 10);
    }
    out.push(digit_to_char((n % 10) as u8));
    assert(old(out)@ + decimal_text(n as nat) =~= if n < 10 {
        old(out)@.push(digit_char(n as nat))
    } else {
        (old(out)@ + decimal_text((n / 10) as nat)).push(digit_char((n % 10) as nat))
    });
}

/// Reads `chars[start..end]` as a decimal number.
///
/// Returns `None` when the range is not made of digits alone, and
/// `Some(None)` when it is but the number does not fit in 64 bits.
pub fn scan_decimal(chars: &Vec<char>, start: usize, end: usize) -> (r: Option<Option<u64>>)
    requires
        start <= end <= chars.len(),
    ensures
        r is Some <==> all_digits(chars@.subrange(start as int, end as int)),
        r matches Some(Some(v)) ==> v == decimal_value(chars@.subrange(start as int, end as int)),
        r matches Some(None) ==> decimal_value(chars@.subrange(start as int, end as int))
            > u64::MAX,
{
    let ghost run = chars@.subrange(start as int, end as int);
    let mut value: u64 = 0;
    let mut fits = true;
    let mut i: usize = start;
    while i < end
        invariant
            start <= i <= end <= chars.len(),
            run == chars@.subrange(start as int, end as int),
            all_digits(run.take(i - start)),
            fits ==> value == decimal_value(run.take(i - start)),
            !fits ==> decimal_value(run.take(i - start)) > u64::MAX,
        decreases end - i,
    {
        let c = chars[i];
        let ghost before = run.take(i - start);
        let ghost after = run.take(i - start + 1);
        proof {
            assert(run[i - start] == c);
            assert(after.drop_last() =~= before);
            assert(after.last() == c);
        }
        if !char_is_digit(c) {
            proof {
                assert(!is_digit(run[i - start]));
            }
            return None;
        }
        let d: u64 = (c as u32 - '0' as u32) as u64;
        assert(d == digit_value(c));
        if fits {
            if value > (u64::MAX - d) / 10 {
                fits = false;
            } else {
                value = value * 10 + d;
            }
        }
        proof {
            assert forall|j: int| 0 <= j < after.len() implies is_digit(#[trigger] after[j]) by {
                if j < before.len() {
                    assert(after[j] == before[j]);
                }
            }
        }
        i += 1;
    }
    proof {
        assert(run.take(end - start) =~= run);
    }
    if fits {
        Some(Some(value))
    } else {
        Some(None)
    }
}

} // verus!
