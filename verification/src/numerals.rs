//! Decimal numerals as byte sequences: the canonical digit string of a
//! number, the value of a digit string, and the round-trip lemmas between
//! the two. Both the bencode codec and the tracker URL builder write
//! numbers this way.
use vstd::prelude::*;

verus! {

/// Whether a byte is an ASCII decimal digit.
pub open spec fn is_digit(b: u8) -> bool {
    0x30 <= b <= 0x39
}

/// The canonical decimal digit string of `n`: no leading zeros, and the
/// single digit `0` for zero.
pub open spec fn dec_digits(n: nat) -> Seq<u8>
    decreases n,
{
    if n < 10 {
        seq![(0x30 + n) as u8]
    } else {
        dec_digits(n / 10) + seq![(0x30 + n % 10) as u8]
    }
}

/// The value of a digit string, most significant digit first.
pub open spec fn digits_val(d: Seq<u8>) -> int
    decreases d.len(),
{
    if d.len() == 0 {
        0
    } else {
        digits_val(d.drop_last()) * 10 + (d.last() - 0x30)
    }
}

/// Every byte of `dec_digits(n)` is a digit, the string is nonempty, and it
/// starts with `0` only when it is the single digit of zero itself.
pub proof fn lemma_dec_digits_shape(n: nat)
    ensures
        dec_digits(n).len() >= 1,
        forall|i: int| 0 <= i < dec_digits(n).len() ==> is_digit(#[trigger] dec_digits(n)[i]),
        dec_digits(n)[0] == 0x30 <==> n < 10 && dec_digits(n).len() == 1 && n == 0,
        n == 0 ==> dec_digits(n) == seq![0x30u8],
        n > 0 ==> dec_digits(n)[0] != 0x30,
    decreases n,
{
    if n < 10 {
        assert(dec_digits(n) == seq![(0x30 + n) as u8]);
    } else {
        lemma_dec_digits_shape(n / 10);
        assert(n / 10 > 0) by {
            assert(n >= 10);
        }
    }
}

/// Reading the canonical digits of `n` back gives `n`.
pub proof fn lemma_dec_digits_val(n: nat)
    ensures
        digits_val(dec_digits(n)) == n,
    decreases n,
{
    if n < 10 {
        let d = dec_digits(n);
        assert(d == seq![(0x30 + n) as u8]);
        assert(d.drop_last() =~= Seq::<u8>::empty());
        assert(digits_val(d.drop_last()) == 0);
        assert(digits_val(d) == d.last() - 0x30);
    } else {
        lemma_dec_digits_val(n / 10);
        let d = dec_digits(n);
        assert(d.drop_last() =~= dec_digits(n / 10));
        assert(digits_val(d.drop_last()) == digits_val(dec_digits(n / 10)));
        assert(d.last() == (0x30 + n % 10) as u8);
        assert(digits_val(d) == (n / 10) * 10 + n % 10);
        assert(n / 10 * 10 + n % 10 == n);
    }
}

/// A nonempty digit string without a leading zero is the canonical digit
/// string of its own value.
pub proof fn lemma_digits_canonical(d: Seq<u8>)
    requires
        d.len() >= 1,
        forall|i: int| 0 <= i < d.len() ==> is_digit(#[trigger] d[i]),
        d[0] == 0x30 ==> d.len() == 1,
    ensures
        digits_val(d) >= 0,
        dec_digits(digits_val(d) as nat) == d,
    decreases d.len(),
{
    lemma_digits_val_bounds(d);
    let v = digits_val(d) as nat;
    if d.len() == 1 {
        assert(digits_val(d.drop_last()) == 0);
        assert(v == d[0] - 0x30);
        assert(dec_digits(v) == seq![(0x30 + v) as u8]);
        assert(dec_digits(v) =~= d);
    } else {
        let head = d.drop_last();
        assert(head[0] == d[0]);
        lemma_digits_canonical(head);
        let hv = digits_val(head) as nat;
        assert(hv >= 1) by {
            if hv == 0 {
                lemma_digits_val_zero(head);
                assert(head[0] == 0x30);
            }
        }
        assert(v == hv * 10 + (d.last() - 0x30));
        assert(v >= 10);
        assert(v / 10 == hv && v % 10 == d.last() - 0x30) by {
            let r = d.last() - 0x30;
            assert(0 <= r < 10);
            assert((hv * 10 + r) / 10 == hv && (hv * 10 + r) % 10 == r) by (nonlinear_arith)
                requires 0 <= r < 10, hv >= 0;
        }
        assert(dec_digits(v) == dec_digits(hv) + seq![(0x30 + v % 10) as u8]);
        assert(dec_digits(v) =~= d);
    }
}

/// The value of a digit string is nonnegative and below `10^len`; in
/// particular one digit is below 10.
pub proof fn lemma_digits_val_bounds(d: Seq<u8>)
    requires
        forall|i: int| 0 <= i < d.len() ==> is_digit(#[trigger] d[i]),
    ensures
        digits_val(d) >= 0,
    decreases d.len(),
{
    if d.len() > 0 {
        lemma_digits_val_bounds(d.drop_last());
    }
}

/// A digit string of value zero that starts with a nonzero digit cannot
/// exist: if the value is zero every digit is `0`.
proof fn lemma_digits_val_zero(d: Seq<u8>)
    requires
        d.len() >= 1,
        forall|i: int| 0 <= i < d.len() ==> is_digit(#[trigger] d[i]),
        digits_val(d) == 0,
    ensures
        d[0] == 0x30,
    decreases d.len(),
{
    lemma_digits_val_bounds(d.drop_last());
    assert(digits_val(d.drop_last()) * 10 + (d.last() - 0x30) == 0);
    if d.len() == 1 {
        assert(d.last() == d[0]);
    } else {
        assert(digits_val(d.drop_last()) == 0);
        lemma_digits_val_zero(d.drop_last());
        assert(d.drop_last()[0] == d[0]);
    }
}

/// Within a run of digits, reading more digits cannot decrease the value.
pub proof fn lemma_digits_val_mono(s: Seq<u8>, a: int, m: int, b: int)
    requires
        0 <= a <= m <= b <= s.len(),
        forall|j: int| a <= j < b ==> is_digit(#[trigger] s[j]),
    ensures
        0 <= digits_val(s.subrange(a, m)),
        digits_val(s.subrange(a, m)) <= digits_val(s.subrange(a, b)),
    decreases b - m,
{
    assert(forall|j: int| 0 <= j < s.subrange(a, m).len() ==> is_digit(
        #[trigger] s.subrange(a, m)[j],
    ));
    lemma_digits_val_bounds(s.subrange(a, m));
    if m < b {
        assert(s.subrange(a, m + 1).drop_last() =~= s.subrange(a, m));
        assert(digits_val(s.subrange(a, m + 1)) == digits_val(s.subrange(a, m)) * 10 + (s.subrange(
            a,
            m + 1,
        ).last() - 0x30));
        assert(digits_val(s.subrange(a, m)) <= digits_val(s.subrange(a, m + 1)));
        lemma_digits_val_mono(s, a, m + 1, b);
    } else {
        assert(s.subrange(a, m) =~= s.subrange(a, b));
    }
}

/// Appends the canonical decimal digits of `n` to `out`.
pub fn push_decimal(out: &mut Vec<u8>, n: u64)
    ensures
        final(out)@ == old(out)@ + dec_digits(n as nat),
    decreases n,
{
    if n < 10 {
        out.push(0x30 + n as u8);
        assert(out@ =~= old(out)@ + dec_digits(n as nat));
    } else {
        push_decimal(out, n / 10);
        out.push(0x30 + (n % 10) as u8);
        assert(out@ =~= old(out)@ + dec_digits(n as nat));
    }
}

} // verus!
