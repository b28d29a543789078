//! Decimal numerals: printing unsigned integers as ASCII digit strings and
//! parsing them back, with the round trip proved.

use vstd::prelude::*;

verus! {

pub open spec fn is_digit(b: u8) -> bool {
    48 <= b <= 57
}

pub open spec fn all_digits(s: Seq<u8>) -> bool {
    forall|i: int| 0 <= i < s.len() ==> is_digit(#[trigger] s[i])
}

/// Value of a digit string, most significant digit first.
pub open spec fn digits_val(s: Seq<u8>) -> nat
    decreases s.len(),
{
    if s.len() == 0 {
        0
    } else {
        digits_val(s.drop_last()) * 10 + (s.last() - 48) as nat
    }
}

/// Canonical decimal rendering of `n`: no leading zeros.
pub open spec fn spec_digits(n: nat) -> Seq<u8>
    decreases n,
{
    if n < 10 {
        seq![(48 + n) as u8]
    } else {
        spec_digits(n / 10).push((48 + n % 10) as u8)
    }
}

pub open spec fn pow10(k: nat) -> nat
    decreases k,
{
    if k == 0 {
        1
    } else {
        10 * pow10((k - 1) as nat)
    }
}

/// A digit string that may stand in a document number field: between 1 and
/// 20 digits whose value fits a u64.
pub open spec fn spec_parse_u64(s: Seq<u8>) -> Option<u64> {
    if 1 <= s.len() <= 20 && all_digits(s) && digits_val(s) <= u64::MAX {
        Some(digits_val(s) as u64)
    } else {
        None
    }
}

pub open spec fn spec_parse_u32(s: Seq<u8>) -> Option<u32> {
    match spec_parse_u64(s) {
        Some(v) => if v <= u32::MAX {
            Some(v as u32)
        } else {
            None
        },
        None => None,
    }
}

pub proof fn lemma_digits_shape(n: nat)
    ensures
        spec_digits(n).len() >= 1,
        all_digits(spec_digits(n)),
    decreases n,
{
    if n >= 10 {
        lemma_digits_shape(n / 10);
        let p = spec_digits(n / 10);
        assert forall|i: int| 0 <= i < p.push((48 + n % 10) as u8).len() implies is_digit(
            #[trigger] p.push((48 + n % 10) as u8)[i],
        ) by {
            if i < p.len() {
                assert(is_digit(p[i]));
            }
        }
    }
}

pub proof fn lemma_digits_val(n: nat)
    ensures
        digits_val(spec_digits(n)) == n,
    decreases n,
{
    if n < 10 {
        assert(digits_val(seq![(48 + n) as u8]) == digits_val(
            seq![(48 + n) as u8].drop_last(),
        ) * 10 + n);
        assert(seq![(48 + n) as u8].drop_last() =~= Seq::<u8>::empty());
    } else {
        lemma_digits_val(n / 10);
        let p = spec_digits(n / 10);
        let w = p.push((48 + n % 10) as u8);
        assert(w.drop_last() =~= p);
        assert(digits_val(w) == digits_val(p) * 10 + n % 10);
    }
}

pub proof fn lemma_digits_len(n: nat, k: nat)
    requires
        k >= 1,
        n < pow10(k),
    ensures
        spec_digits(n).len() <= k,
    decreases n,
{
    if n >= 10 {
        assert(pow10(k) == 10 * pow10((k - 1) as nat));
        assert(n / 10 < pow10((k - 1) as nat));
        lemma_digits_len(n / 10, (k - 1) as nat);
    }
}

pub proof fn lemma_u64_digits_fit(n: nat)
    requires
        n <= u64::MAX,
    ensures
        1 <= spec_digits(n).len() <= 20,
        spec_parse_u64(spec_digits(n)) == Some(n as u64),
{
    lemma_digits_shape(n);
    lemma_digits_val(n);
    lemma_pow10_20();
    lemma_digits_len(n, 20);
}

/// Canonical decimal rendering of `n`.
pub fn u64_to_digits(n: u64) -> (r: Vec<u8>)
    ensures
        r@ == spec_digits(n as nat),
    decreases n,
{
    if n < 10 {
        let mut r: Vec<u8> = Vec::new();
        r.push(48 + n as u8);
        proof {
            assert(r@ =~= seq![(48 + n) as u8]);
        }
        r
    } else {
        let mut r = u64_to_digits(n / 10);
        r.push(48 + (n % 10) as u8);
        r
    }
}

/// Parses `s[from..to]` as a decimal u64 field.
pub fn parse_u64_digits(s: &Vec<u8>, from: usize, to: usize) -> (r: Option<u64>)
    requires
        from <= to <= s.len(),
    ensures
        r == spec_parse_u64(s@.subrange(from as int, to as int)),
{
    let ghost w = s@.subrange(from as int, to as int);
    if to - from < 1 || to - from > 20 {
        return None;
    }
    let mut acc: u128 = 0;
    let mut i: usize = from;
    proof {
        lemma_pow10_20();
        assert(w.subrange(0, 0) =~= Seq::<u8>::empty());
    }
    while i < to
        invariant
            from <= i <= to <= s.len(),
            to - from <= 20,
            w == s@.subrange(from as int, to as int),
            all_digits(w.subrange(0, i - from)),
            acc == digits_val(w.subrange(0, i - from)),
            acc < pow10((i - from) as nat),
            pow10(20) == 100000000000000000000,
        decreases to - i,
    {
        let b = s[i];
        if b < 48 || b > 57 {
            proof {
                assert(w[i - from] == b);
                assert(!is_digit(w[i - from]));
            }
            return None;
        }
        proof {
            let k = (i - from) as nat;
            assert(pow10(k + 1) == 10 * pow10(k));
            assert(pow10(k + 1) <= pow10(20)) by {
                lemma_pow10_mono(k + 1, 20);
            }
            assert(w.subrange(0, i - from + 1) =~= w.subrange(0, i - from).push(w[i - from]));
            assert(w.subrange(0, i - from).push(w[i - from]).drop_last() =~= w.subrange(
                0,
                i - from,
            ));
            assert(digits_val(w.subrange(0, i - from + 1)) == digits_val(
                w.subrange(0, i - from),
            ) * 10 + (b - 48) as nat);
        }
        acc = acc * 10 + (b - 48) as u128;
        i += 1;
    }
    proof {
        assert(w.subrange(0, to - from) =~= w);
    }
    if acc > u64::MAX as u128 {
        return None;
    }
    Some(acc as u64)
}

pub proof fn lemma_pow10_20()
    ensures
        pow10(20) == 100000000000000000000,
{
    reveal_with_fuel(pow10, 21);
}

pub proof fn lemma_pow10_mono(a: nat, b: nat)
    requires
        a <= b,
    ensures
        pow10(a) <= pow10(b),
    decreases b,
{
    if a < b {
        lemma_pow10_mono(a, (b - 1) as nat);
        assert(pow10(b) == 10 * pow10((b - 1) as nat));
    }
}

/// Parses `s[from..to]` as a decimal u32 field.
pub fn parse_u32_digits(s: &Vec<u8>, from: usize, to: usize) -> (r: Option<u32>)
    requires
        from <= to <= s.len(),
    ensures
        r == spec_parse_u32(s@.subrange(from as int, to as int)),
{
    match parse_u64_digits(s, from, to) {
        Some(v) => if v <= u32::MAX as u64 {
            Some(v as u32)
        } else {
            None
        },
        None => None,
    }
}

pub proof fn lemma_digits_val_single(d: u8)
    requires
        48 <= d,
    ensures
        digits_val(seq![d]) == (d - 48) as nat,
{
    assert(seq![d].drop_last() =~= Seq::<u8>::empty());
    assert(digits_val(Seq::<u8>::empty()) == 0);
    assert(digits_val(seq![d]) == digits_val(seq![d].drop_last()) * 10 + (d - 48) as nat);
}

pub proof fn lemma_digits_val_pair(d1: u8, d2: u8)
    requires
        48 <= d1,
        48 <= d2,
    ensures
        digits_val(seq![d1, d2]) == (d1 - 48) * 10 + (d2 - 48),
{
    assert(seq![d1, d2].drop_last() =~= seq![d1]);
    lemma_digits_val_single(d1);
    assert(digits_val(seq![d1, d2]) == digits_val(seq![d1, d2].drop_last()) * 10 + (d2
        - 48) as nat);
}

/// No decimal digit is a document delimiter, a key separator, or a dot.
pub proof fn lemma_digits_text_free(s: Seq<u8>)
    requires
        all_digits(s),
    ensures
        crate::bytes::text_free(s),
        forall|i: int| 0 <= i < s.len() ==> s[i] != crate::bytes::SEP && s[i] != crate::bytes::DOT,
{
    assert forall|i: int| 0 <= i < s.len() implies #[trigger] s[i] != crate::bytes::COMMA && s[i]
        != crate::bytes::BAR && s[i] != crate::bytes::NL by {
        assert(is_digit(s[i]));
    }
    assert forall|i: int| 0 <= i < s.len() implies #[trigger] s[i] != crate::bytes::SEP && s[i]
        != crate::bytes::DOT by {
        assert(is_digit(s[i]));
    }
}

} // verus!
