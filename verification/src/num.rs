//! Decimal numbers as byte strings: parsing and formatting, with the
//! mathematical value of a digit string as the common reference point.
use vstd::prelude::*;

verus! {

/// ASCII decimal digit.
pub open spec fn is_digit(b: u8) -> bool {
    '0' as u8 <= b <= '9' as u8
}

/// Every byte of `s` is an ASCII decimal digit.
pub open spec fn all_digits(s: Seq<u8>) -> bool {
    forall|i: int| 0 <= i < s.len() ==> is_digit(#[trigger] s[i])
}

/// `s` is a well-formed decimal numeral: non-empty and all digits.
pub open spec fn is_numeral(s: Seq<u8>) -> bool {
    s.len() > 0 && all_digits(s)
}

/// Mathematical value of a digit string read in base ten.
pub open spec fn dec_value(s: Seq<u8>) -> nat
    decreases s.len(),
{
    if s.len() == 0 {
        0
    } else {
        dec_value(s.drop_last()) * 10 + (s.last() - ('0' as u8)) as nat
    }
}

/// Canonical decimal digits of `n` (no leading zeros; "0" for zero).
pub open spec fn dec_digits(n: nat) -> Seq<u8>
    decreases n,
{
    if n < 10 {
        seq![(n + '0' as u8) as u8]
    } else {
        dec_digits(n / 10).push((n % 10 + '0' as u8) as u8)
    }
}

/// The canonical digits of `n` are a well-formed numeral whose value is `n`.
pub proof fn lemma_dec_digits_value(n: nat)
    ensures
        is_numeral(dec_digits(n)),
        dec_value(dec_digits(n)) == n,
        n > 0 ==> dec_digits(n).first() != '0' as u8,
    decreases n,
{
    if n < 10 {
        let d = dec_digits(n);
        assert(d =~= seq![(n + '0' as u8) as u8]);
        assert(d.drop_last() =~= Seq::<u8>::empty());
        assert(d.last() == (n + '0' as u8) as u8);
        assert((n + '0' as u8) as u8 == n + 48);
        assert(dec_value(d) == dec_value(d.drop_last()) * 10 + (d.last() - '0' as u8) as nat);
        assert(dec_value(d.drop_last()) == 0);
    } else {
        lemma_dec_digits_value(n / 10);
        let d = dec_digits(n);
        assert(d.drop_last() =~= dec_digits(n / 10));
        assert(d.last() == (n % 10 + '0' as u8) as u8);
        assert(dec_value(d) == (n / 10) * 10 + n % 10);
        assert((n / 10) * 10 + n % 10 == n) by (nonlinear_arith);
        assert forall|i: int| 0 <= i < d.len() implies is_digit(#[trigger] d[i]) by {
            if i < d.len() - 1 {
                assert(d[i] == dec_digits(n / 10)[i]);
            }
        }
    }
}

/// Parse a byte slice as an unsigned decimal number.
///
/// Returns `Some(n)` exactly when the slice is a non-empty string of
/// digits whose value fits in a `u64`.
pub fn parse_u64(s: &[u8]) -> (r: Option<u64>)
    ensures
        match r {
            Some(n) => is_numeral(s@) && dec_value(s@) == n,
            None => !(is_numeral(s@) && dec_value(s@) <= u64::MAX),
        },
{
    if s.len() == 0 {
        return None;
    }
    let mut acc: u64 = 0;
    let mut i: usize = 0;
    while i < s.len()
        invariant
            0 <= i <= s@.len(),
            all_digits(s@.take(i as int)),
            acc == dec_value(s@.take(i as int)),
        decreases s@.len() - i,
    {
        let b = s[i];
        if b < '0' as u8 || b > '9' as u8 {
            assert(!is_digit(s@[i as int]));
            return None;
        }
        let d: u64 = (b - '0' as u8) as u64;
        if acc > (u64::MAX - d) / 10 {
            proof {
                lemma_overflow_prefix(s@, i as int, acc as nat, d as nat);
            }
            return None;
        }
        assert(acc * 10 + d <= u64::MAX) by (nonlinear_arith)
            requires
                acc <= (u64::MAX - d) / 10,
                d <= 9,
        ;
        acc = acc * 10 + d;
        i = i + 1;
        assert(s@.take(i as int).drop_last() =~= s@.take(i - 1));
        assert(s@.take(i as int).last() == b);
    }
    assert(s@.take(i as int) =~= s@);
    Some(acc)
}

/// If the value of a prefix already exceeds what one more digit keeps
/// below `u64::MAX`, the whole string's value exceeds `u64::MAX`.
proof fn lemma_overflow_prefix(s: Seq<u8>, i: int, acc: nat, d: nat)
    requires
        0 <= i < s.len(),
        acc == dec_value(s.take(i)),
        d == (s[i] - '0' as u8) as nat,
        is_digit(s[i]),
        d <= 9,
        acc > ((u64::MAX - d) as nat) / 10,
    ensures
        dec_value(s) > u64::MAX,
{
    assert(acc * 10 + d > u64::MAX) by (nonlinear_arith)
        requires
            acc > ((u64::MAX - d) as nat) / 10,
            d <= 9,
    ;
    assert(s.take(i + 1).drop_last() =~= s.take(i));
    assert(s.take(i + 1).last() == s[i]);
    assert(dec_value(s.take(i + 1)) == acc * 10 + d);
    lemma_dec_value_prefix_le(s, i + 1);
}

/// The value of a digit string is at least the value of any prefix.
proof fn lemma_dec_value_prefix_le(s: Seq<u8>, i: int)
    requires
        0 <= i <= s.len(),
    ensures
        dec_value(s.take(i)) <= dec_value(s),
    decreases s.len() - i,
{
    if i < s.len() {
        assert(s.take(i + 1).drop_last() =~= s.take(i));
        assert(dec_value(s.take(i + 1)) == dec_value(s.take(i)) * 10 + (s.take(i + 1).last()
            - '0' as u8) as nat);
        assert(dec_value(s.take(i)) <= dec_value(s.take(i)) * 10) by (nonlinear_arith);
        lemma_dec_value_prefix_le(s, i + 1);
    } else {
        assert(s.take(i) =~= s);
    }
}

/// Format `n` as its canonical decimal digits.
pub fn format_u64(n: u64) -> (v: Vec<u8>)
    ensures
        v@ == dec_digits(n as nat),
    decreases n,
{
    if n < 10 {
        let d: u8 = n as u8 + '0' as u8;
        let mut v: Vec<u8> = Vec::new();
        v.push(d);
        assert(v@ =~= dec_digits(n as nat));
        v
    } else {
        let mut v = format_u64(n / 10);
        let d: u8 = (n % 10) as u8 + '0' as u8;
        v.push(d);
        assert(v@ =~= dec_digits(n as nat));
        v
    }
}

/// Format a wide sum as its canonical decimal digits.
pub fn format_u128(n: u128) -> (v: Vec<u8>)
    ensures
        v@ == dec_digits(n as nat),
    decreases n,
{
    if n < 10 {
        let d: u8 = n as u8 + '0' as u8;
        let mut v: Vec<u8> = Vec::new();
        v.push(d);
        assert(v@ =~= dec_digits(n as nat));
        v
    } else {
        let mut v = format_u128(n / 10);
        let d: u8 = (n % 10) as u8 + '0' as u8;
        v.push(d);
        assert(v@ =~= dec_digits(n as nat));
        v
    }
}

} // verus!
