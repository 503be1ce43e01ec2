//! Decimal numerals in ASCII: writing a number, reading one back.

use vstd::prelude::*;

verus! {

/// `b` is an ASCII decimal digit.
pub open spec fn is_digit(b: u8) -> bool {
    48 <= b <= 57
}

/// Every byte of `s` is an ASCII decimal digit.
pub open spec fn all_digits(s: Seq<u8>) -> bool {
    forall|i: int| 0 <= i < s.len() ==> is_digit(#[trigger] s[i])
}

/// The decimal numeral of `n`: most significant digit first, no leading zeros.
pub open spec fn decimal(n: nat) -> Seq<u8>
    decreases n,
{
    if n < 10 {
        seq![(48 + n) as u8]
    } else {
        decimal(n / 10).push((48 + n % 10) as u8)
    }
}

/// The decimal numeral of `n`, with leading zeros up to `width` digits.
pub open spec fn zero_padded(n: nat, width: nat) -> Seq<u8> {
    let d = decimal(n);
    if d.len() >= width {
        d
    } else {
        Seq::new((width - d.len()) as nat, |i: int| 48u8) + d
    }
}

/// The number that a string of decimal digits stands for.
pub open spec fn digits_value(s: Seq<u8>) -> nat
    decreases s.len(),
{
    if s.len() == 0 {
        0
    } else {
        digits_value(s.drop_last()) * 10 + (s.last() - 48) as nat
    }
}

/// The longest prefix of `s` made of decimal digits.
pub open spec fn digit_prefix(s: Seq<u8>) -> Seq<u8>
    decreases s.len(),
{
    if s.len() > 0 && is_digit(s[0]) {
        seq![s[0]] + digit_prefix(s.drop_first())
    } else {
        Seq::empty()
    }
}

/// A string of decimal digits read as a `usize`: nothing when it is empty
/// or stands for a number that does not fit.
pub open spec fn digits_to_usize(s: Seq<u8>) -> Option<usize> {
    if s.len() == 0 || digits_value(s) > usize::MAX {
        None
    } else {
        Some(digits_value(s) as usize)
    }
}

#[verifier::spinoff_prover]
pub proof fn lemma_decimal_digits(n: nat)
    ensures
        all_digits(decimal(n)),
        decimal(n).len() >= 1,
    decreases n,
{
    if n >= 10 {
        lemma_decimal_digits(n / 10);
    }
}

/// Reading a numeral back gives the number written.
#[verifier::spinoff_prover]
pub proof fn lemma_decimal_value(n: nat)
    ensures
        digits_value(decimal(n)) == n,
    decreases n,
{
    if n >= 10 {
        lemma_decimal_value(n / 10);
        assert(decimal(n).drop_last() =~= decimal(n / 10));
        assert(decimal(n).last() == (48 + n % 10) as u8);
        assert((n / 10) * 10 + n % 10 == n);
    } else {
        assert(decimal(n).drop_last() =~= Seq::<u8>::empty());
        assert(digits_value(Seq::<u8>::empty()) == 0);
    }
}

/// The digit prefix of digits followed by a non-digit is those digits.
#[verifier::spinoff_prover]
pub proof fn lemma_digit_prefix_concat(a: Seq<u8>, b: Seq<u8>)
    requires
        all_digits(a),
        b.len() == 0 || !is_digit(b[0]),
    ensures
        digit_prefix(a + b) == a,
    decreases a.len(),
{
    if a.len() == 0 {
        assert(a + b =~= b);
    } else {
        assert((a + b).drop_first() =~= a.drop_first() + b);
        lemma_digit_prefix_concat(a.drop_first(), b);
        assert(seq![a[0]] + a.drop_first() =~= a);
    }
}

/// A digit prefix is made of digits.
#[verifier::spinoff_prover]
pub proof fn lemma_digit_prefix_digits(s: Seq<u8>)
    ensures
        all_digits(digit_prefix(s)),
        digit_prefix(s).len() <= s.len(),
        digit_prefix(s) =~= s.subrange(0, digit_prefix(s).len() as int),
    decreases s.len(),
{
    if s.len() > 0 && is_digit(s[0]) {
        lemma_digit_prefix_digits(s.drop_first());
    }
}

/// A prefix of a digit string stands for no more than the whole.
#[verifier::spinoff_prover]
proof fn lemma_digits_value_prefix(s: Seq<u8>, k: int)
    requires
        all_digits(s),
        0 <= k <= s.len(),
    ensures
        digits_value(s.take(k)) <= digits_value(s),
    decreases s.len(),
{
    if k < s.len() {
        let t = s.drop_last();
        assert(all_digits(t));
        lemma_digits_value_prefix(t, k);
        assert(t.take(k) =~= s.take(k));
    } else {
        assert(s.take(k) =~= s);
    }
}

/// Number of digits in the decimal numeral of `n`.
#[verifier::spinoff_prover]
pub(crate) fn decimal_len(n: usize) -> (r: usize)
    ensures
        r == decimal(n as nat).len(),
        1 <= r <= n + 1,
    decreases n,
{
    if n < 10 {
        1
    } else {
        let r = decimal_len(n / 10);
        r + 1
    }
}

/// Appends the decimal numeral of `n`.
#[verifier::spinoff_prover]
pub(crate) fn push_decimal(out: &mut Vec<u8>, n: usize)
    ensures
        final(out)@ == old(out)@ + decimal(n as nat),
    decreases n,
{
    if n >= 10 {
        push_decimal(out, n / 10);
    }
    let d: u8 = (n % 10) as u8;
    out.push(48 + d);
    assert(final(out)@ =~= old(out)@ + decimal(n as nat));
}

/// Appends the decimal numeral of `n`, with leading zeros up to `width` digits.
#[verifier::spinoff_prover]
pub(crate) fn push_zero_padded(out: &mut Vec<u8>, n: usize, width: usize)
    ensures
        final(out)@ == old(out)@ + zero_padded(n as nat, width as nat),
{
    let d = decimal_len(n);
    let ghost start = out@;
    if d < width {
        let mut k: usize = 0;
        while k < width - d
            invariant
                k <= width - d,
                d < width,
                out@ =~= start + Seq::new(k as nat, |i: int| 48u8),
            decreases width - d - k,
        {
            out.push(48);
            k = k + 1;
        }
    }
    push_decimal(out, n);
    assert(final(out)@ =~= old(out)@ + zero_padded(n as nat, width as nat));
}

/// End of the run of digits that starts at `from`.
#[verifier::spinoff_prover]
pub(crate) fn digit_run_end(s: &[u8], from: usize) -> (end: usize)
    requires
        from <= s@.len(),
    ensures
        from <= end <= s@.len(),
        s@.subrange(from as int, end as int) == digit_prefix(s@.subrange(from as int, s@.len() as int)),
{
    let len = s.len();
    let mut i = from;
    while i < len && 48 <= s[i] && s[i] <= 57
        invariant
            from <= i <= len,
            len == s@.len(),
            digit_prefix(s@.subrange(from as int, len as int)) == s@.subrange(from as int, i as int)
                + digit_prefix(s@.subrange(i as int, len as int)),
        decreases len - i,
    {
        let ghost rest = s@.subrange(i as int, len as int);
        assert(rest.drop_first() =~= s@.subrange(i + 1, len as int));
        assert(s@.subrange(from as int, i as int) + seq![s@[i as int]] =~= s@.subrange(from as int, i + 1));
        assert(s@.subrange(from as int, i as int) + (seq![s@[i as int]] + digit_prefix(rest.drop_first()))
            =~= s@.subrange(from as int, i + 1) + digit_prefix(rest.drop_first()));
        i = i + 1;
    }
    assert(digit_prefix(s@.subrange(i as int, len as int)) =~= Seq::<u8>::empty());
    assert(s@.subrange(from as int, i as int) + Seq::<u8>::empty() =~= s@.subrange(from as int, i as int));
    i
}

/// A string of decimal digits read as a `usize`.
#[verifier::spinoff_prover]
pub(crate) fn parse_digits(s: &[u8]) -> (r: Option<usize>)
    requires
        all_digits(s@),
    ensures
        r == digits_to_usize(s@),
{
    let len = s.len();
    if len == 0 {
        return None;
    }
    let mut acc: usize = 0;
    let mut i: usize = 0;
    while i < len
        invariant
            i <= len,
            len == s@.len(),
            all_digits(s@),
            acc == digits_value(s@.take(i as int)),
        decreases len - i,
    {
        let ghost t = s@.take(i + 1);
        assert(t.drop_last() =~= s@.take(i as int));
        let d: usize = (s[i] - 48) as usize;
        match acc.checked_mul(10) {
            Some(m) => match m.checked_add(d) {
                Some(v) => {
                    acc = v;
                },
                None => {
                    proof {
                        lemma_digits_value_prefix(s@, i + 1);
                    }
                    return None;
                },
            },
            None => {
                proof {
                    lemma_digits_value_prefix(s@, i + 1);
                }
                return None;
            },
        }
        i = i + 1;
    }
    assert(s@.take(len as int) =~= s@);
    Some(acc)
}

} // verus!
