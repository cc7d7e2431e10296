use vstd::prelude::*;

verus! {

/// An ASCII decimal digit.
pub open spec fn is_digit(b: u8) -> bool {
    48 <= b <= 57
}

/// A non-empty run of decimal digits.
pub open spec fn all_digits(s: Seq<u8>) -> bool {
    s.len() > 0 && forall|i: int| 0 <= i < s.len() ==> is_digit(#[trigger] s[i])
}

/// Decimal digits of `n`, most significant first, without leading zeros.
pub open spec fn nat_digits(n: nat) -> Seq<u8>
    decreases n,
{
    if n < 10 {
        seq![(n + 48) as u8]
    } else {
        nat_digits(n / 10).push((n % 10 + 48) as u8)
    }
}

/// Decimal text of `n`: its digits, after a `-` when `n` is negative.
pub open spec fn int_text(n: int) -> Seq<u8> {
    if n < 0 {
        seq![45u8] + nat_digits((-n) as nat)
    } else {
        nat_digits(n as nat)
    }
}

/// The number that a run of decimal digits spells.
pub open spec fn digits_value(s: Seq<u8>) -> int
    decreases s.len(),
{
    if s.len() == 0 {
        0
    } else {
        10 * digits_value(s.drop_last()) + (s.last() - 48)
    }
}

/// The integer that `s` spells in base 10: an optional `-` or `+`, then one or more digits.
pub open spec fn int_value(s: Seq<u8>) -> Option<int> {
    if s.len() > 0 && s[0] == 45 && all_digits(s.drop_first()) {
        Some(-digits_value(s.drop_first()))
    } else if s.len() > 0 && s[0] == 43 && all_digits(s.drop_first()) {
        Some(digits_value(s.drop_first()))
    } else if all_digits(s) {
        Some(digits_value(s))
    } else {
        None
    }
}

/// `int_value(s)`, when it fits in an `i64`.
pub open spec fn i64_value(s: Seq<u8>) -> Option<i64> {
    match int_value(s) {
        Some(n) => if i64::MIN <= n <= i64::MAX {
            Some(n as i64)
        } else {
            None
        },
        None => None,
    }
}

/// A prefix of a run of digits spells no more than the whole run.
pub proof fn lemma_digits_prefix(s: Seq<u8>, j: int)
    requires
        forall|i: int| 0 <= i < s.len() ==> is_digit(#[trigger] s[i]),
        0 <= j <= s.len(),
    ensures
        0 <= digits_value(s.subrange(0, j)) <= digits_value(s),
    decreases s.len(),
{
    if s.len() > 0 {
        if j == s.len() {
            assert(s.subrange(0, j) =~= s);
            lemma_digits_prefix(s.drop_last(), j - 1);
        } else {
            assert(s.drop_last().subrange(0, j) =~= s.subrange(0, j));
            lemma_digits_prefix(s.drop_last(), j);
        }
    }
}

/// The digits of `n` are digits, and spell `n`.
pub proof fn lemma_nat_digits(n: nat)
    ensures
        all_digits(nat_digits(n)),
        digits_value(nat_digits(n)) == n,
        nat_digits(n).len() >= 1,
    decreases n,
{
    assert(digits_value(Seq::<u8>::empty()) == 0);
    if n < 10 {
        assert(nat_digits(n).drop_last() =~= Seq::<u8>::empty());
    } else {
        lemma_nat_digits(n / 10);
        assert(nat_digits(n).drop_last() =~= nat_digits(n / 10));
        assert(nat_digits(n).last() == (n % 10 + 48) as u8);
        assert(10 * (n / 10) + n % 10 == n);
    }
}

/// The decimal text of an integer reads back as that integer.
pub proof fn lemma_int_text(n: int)
    ensures
        int_value(int_text(n)) == Some(n),
        int_text(n).len() >= 1,
        forall|i: int| 0 <= i < int_text(n).len() ==> #[trigger] int_text(n)[i] != 13u8,
{
    if n < 0 {
        lemma_nat_digits((-n) as nat);
        assert(int_text(n).drop_first() =~= nat_digits((-n) as nat));
    } else {
        lemma_nat_digits(n as nat);
    }
}

/// Appends the decimal digits of `n`.
pub fn push_nat(out: &mut Vec<u8>, n: u64)
    ensures
        final(out)@ == old(out)@ + nat_digits(n as nat),
    decreases n,
{
    if n >= 10 {
        push_nat(out, n / 10);
    }
    out.push((n % 10) as u8 + 48);
    assert(final(out)@ =~= old(out)@ + nat_digits(n as nat));
}

/// Appends the decimal text of `n`.
pub fn push_int(out: &mut Vec<u8>, n: i64)
    ensures
        final(out)@ == old(out)@ + int_text(n as int),
{
    if n < 0 {
        out.push(45);
        let magnitude: u64 = (-(n + 1)) as u64 + 1;
        push_nat(out, magnitude);
        assert(final(out)@ =~= old(out)@ + int_text(n as int));
    } else {
        push_nat(out, n as u64);
    }
}

/// The number that `s[start..]` spells when it is a non-empty run of digits that
/// spells no more than `cap`.
pub open spec fn capped_digits(s: Seq<u8>, start: int, cap: int) -> Option<int> {
    let rest = s.subrange(start, s.len() as int);
    if all_digits(rest) && digits_value(rest) <= cap {
        Some(digits_value(rest))
    } else {
        None
    }
}

/// Reads the digits of `s` from `start` on, giving up past `cap`.
fn read_digits(s: &[u8], start: usize, cap: u128) -> (r: Option<u128>)
    requires
        start <= s@.len(),
        cap <= 0xffff_ffff_ffff_ffff,
    ensures
        r matches Some(n) ==> n <= cap && capped_digits(s@, start as int, cap as int) == Some(n as int),
        r is None ==> capped_digits(s@, start as int, cap as int) is None,
{
    let len = s.len();
    if start == len {
        return None;
    }
    let ghost rest = s@.subrange(start as int, len as int);
    let mut magnitude: u128 = 0;
    let mut i: usize = start;
    while i < len
        invariant
            start <= i <= len,
            len == s@.len(),
            rest == s@.subrange(start as int, len as int),
            magnitude == digits_value(s@.subrange(start as int, i as int)),
            magnitude <= cap,
            cap <= 0xffff_ffff_ffff_ffff,
            forall|k: int| start <= k < i ==> is_digit(#[trigger] s@[k]),
        decreases len - i,
    {
        let b = s[i];
        if b < 48 || b > 57 {
            assert(!is_digit(rest[i - start]));
            return None;
        }
        assert(s@.subrange(start as int, i + 1).drop_last() =~= s@.subrange(start as int, i as int));
        magnitude = magnitude * 10 + (b - 48) as u128;
        i = i + 1;
        if magnitude > cap {
            proof {
                if all_digits(rest) {
                    assert(rest.subrange(0, i - start) =~= s@.subrange(start as int, i as int));
                    lemma_digits_prefix(rest, i - start);
                }
            }
            return None;
        }
    }
    assert(s@.subrange(start as int, i as int) =~= rest);
    Some(magnitude)
}

/// Reads a base-10 `i64`: an optional `-` or `+`, then one or more digits, and nothing else.
pub fn parse_i64(s: &[u8]) -> (r: Option<i64>)
    ensures
        r == i64_value(s@),
{
    if s.len() == 0 {
        return None;
    }
    let negative = s[0] == 45;
    let start: usize = if s[0] == 45 || s[0] == 43 {
        1
    } else {
        0
    };
    let ghost rest = s@.subrange(start as int, s@.len() as int);
    assert(start == 1 ==> rest =~= s@.drop_first());
    assert(start == 0 ==> rest =~= s@);
    assert(start == 1 ==> !is_digit(s@[0]));
    assert(start == 1 ==> !all_digits(s@));
    let cap: u128 = if negative {
        0x8000_0000_0000_0000
    } else {
        0x7fff_ffff_ffff_ffff
    };
    match read_digits(s, start, cap) {
        Some(magnitude) => {
            if negative {
                Some((0 - magnitude as i128) as i64)
            } else {
                Some(magnitude as i64)
            }
        },
        None => None,
    }
}

/// The `u64` that `s` spells in base 10: an optional `+`, then one or more digits.
pub open spec fn u64_value(s: Seq<u8>) -> Option<u64> {
    let start = if s.len() > 0 && s[0] == 43 {
        1int
    } else {
        0int
    };
    match capped_digits(s, start, u64::MAX as int) {
        Some(n) => Some(n as u64),
        None => None,
    }
}

/// Reads a base-10 `u64`: an optional `+`, then one or more digits, and nothing else.
pub fn parse_u64(s: &[u8]) -> (r: Option<u64>)
    ensures
        r == u64_value(s@),
{
    let start: usize = if s.len() > 0 && s[0] == 43 {
        1
    } else {
        0
    };
    match read_digits(s, start, 0xffff_ffff_ffff_ffff) {
        Some(n) => Some(n as u64),
        None => None,
    }
}

} // verus!
