//! Run settings of the training program: numbers read from the environment,
//! with defaults, and when to report progress.
use vstd::prelude::*;

verus! {

/// `c` is an ASCII decimal digit.
pub open spec fn is_digit(c: char) -> bool {
    48 <= (c as u32) <= 57
}

/// The number that the decimal digits `s` spell (0 for no digits).
pub open spec fn decimal_value(s: Seq<char>) -> int
    decreases s.len(),
{
    if s.len() == 0 {
        0
    } else {
        decimal_value(s.drop_last()) * 10 + ((s.last() as u32) - 48)
    }
}

/// `s` without its leading `+`, if it has one.
pub open spec fn unsigned_digits(s: Seq<char>) -> Seq<char> {
    if s.len() > 0 && s[0] == '+' {
        s.drop_first()
    } else {
        s
    }
}

/// What parsing `s` as an unsigned decimal number no larger than `max`
/// gives, as `str::parse` does for unsigned integers: an optional `+`, then
/// one or more ASCII digits, whose value must not exceed `max`; anything
/// else (empty text, a sign alone, other characters, spaces, overflow)
/// gives `None`.
pub open spec fn parsed_decimal(s: Seq<char>, max: nat) -> Option<nat> {
    let digits = unsigned_digits(s);
    if digits.len() > 0 && (forall|k: int| 0 <= k < digits.len() ==> is_digit(#[trigger] digits[k]))
        && decimal_value(digits) <= max {
        Some(decimal_value(digits) as nat)
    } else {
        None
    }
}

/// A number spelled by digits is at least the number spelled by any prefix
/// of them.
proof fn lemma_prefix_value_le(s: Seq<char>, k: int)
    requires
        0 <= k <= s.len(),
        forall|i: int| 0 <= i < s.len() ==> is_digit(#[trigger] s[i]),
    ensures
        0 <= decimal_value(s.take(k)) <= decimal_value(s),
    decreases s.len(),
{
    if k == s.len() {
        assert(s.take(k) =~= s);
        lemma_value_nonnegative(s);
    } else {
        let t = s.drop_last();
        assert(t.take(k) =~= s.take(k));
        lemma_prefix_value_le(t, k);
    }
}

/// Digits spell a nonnegative number.
proof fn lemma_value_nonnegative(s: Seq<char>)
    requires
        forall|i: int| 0 <= i < s.len() ==> is_digit(#[trigger] s[i]),
    ensures
        decimal_value(s) >= 0,
    decreases s.len(),
{
    if s.len() > 0 {
        lemma_value_nonnegative(s.drop_last());
    }
}

/// The characters of `s`, in order.
fn chars_of(s: &str) -> (v: Vec<char>)
    ensures
        v@ == s@,
{
    let mut v: Vec<char> = Vec::new();
    for c in it: s.chars()
        invariant
            it.seq() == s@,
            v@ == s@.take(it.index() as int),
    {
        v.push(c);
        assert(v@ =~= s@.take(it.index() + 1));
    }
    assert(s@.take(s@.len() as int) =~= s@);
    v
}

/// Parse `s` as an unsigned decimal number no larger than `max`, the way
/// `str::parse` reads an unsigned integer type whose largest value is `max`.
pub fn parse_decimal(s: &str, max: u64) -> (r: Option<u64>)
    ensures
        match parsed_decimal(s@, max as nat) {
            Some(v) => r is Some && r->Some_0 == v,
            None => r is None,
        },
        r matches Some(x) ==> x <= max,
{
    let chars = chars_of(s);
    let n = chars.len();
    let mut i: usize = 0;
    if n > 0 && chars[0] == '+' {
        i = 1;
    }
    let start = i;
    let ghost digits = chars@.skip(start as int);
    assert(digits =~= unsigned_digits(s@));
    if i == n {
        return None;
    }
    let mut value: u128 = 0;
    assert(digits.take(0) =~= Seq::<char>::empty());
    while i < n
        invariant
            start <= i <= n,
            n == chars@.len(),
            digits == chars@.skip(start as int),
            chars@ == s@,
            digits == unsigned_digits(s@),
            forall|k: int| 0 <= k < i - start ==> is_digit(#[trigger] digits[k]),
            value == decimal_value(digits.take(i - start)),
            value <= max,
        decreases n - i,
    {
        let c = chars[i];
        let code = c as u32;
        let ghost k = i - start;
        assert(digits[k] == c);
        if code < 48 || code > 57 {
            assert(!is_digit(digits[k]));
            return None;
        }
        let next = value * 10 + (code - 48) as u128;
        proof {
            assert(digits.take(k + 1).drop_last() =~= digits.take(k));
            assert(digits.take(k + 1).last() == c);
        }
        if next > max as u128 {
            proof {
                if forall|m: int| 0 <= m < digits.len() ==> is_digit(#[trigger] digits[m]) {
                    lemma_prefix_value_le(digits, k + 1);
                }
            }
            return None;
        }
        value = next;
        i = i + 1;
    }
    proof {
        assert(digits.take(n - start) =~= digits);
    }
    Some(value as u64)
}

/// A numeric setting: the value of the variable when it is set and spells
/// a `usize`, `default` otherwise.
pub fn env_usize(raw: Option<&str>, default: usize) -> (v: usize)
    ensures
        v == (match raw {
            Some(s) => match parsed_decimal(s@, usize::MAX as nat) {
                Some(x) => x as usize,
                None => default,
            },
            None => default,
        }),
{
    match raw {
        Some(s) => match parse_decimal(s, usize::MAX as u64) {
            Some(x) => {
                x as usize
            },
            None => default,
        },
        None => default,
    }
}

/// A numeric setting: the value of the variable when it is set and spells
/// a `u64`, `default` otherwise.
pub fn env_u64(raw: Option<&str>, default: u64) -> (v: u64)
    ensures
        v == (match raw {
            Some(s) => match parsed_decimal(s@, u64::MAX as nat) {
                Some(x) => x as u64,
                None => default,
            },
            None => default,
        }),
{
    match raw {
        Some(s) => match parse_decimal(s, u64::MAX) {
            Some(x) => x,
            None => default,
        },
        None => default,
    }
}

/// Whether training step `step` (counted from 1) of `iters` is reported:
/// the first step, every `log_every`-th step and the last step are.
pub fn should_log(step: usize, log_every: usize, iters: usize) -> (b: bool)
    requires
        log_every > 0,
    ensures
        b == (step == 1 || step % log_every == 0 || step == iters),
{
    step == 1 || step % log_every == 0 || step == iters
}

} // verus!
