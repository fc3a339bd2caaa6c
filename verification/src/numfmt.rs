//! Fixed-width decimal text: rendering a number as a run of ASCII digits and
//! reading such a run back. Every numeric field of the persisted state file
//! and of the clock display goes through these.

use vstd::prelude::*;

verus! {

pub open spec fn pow10(w: nat) -> nat
    decreases w,
{
    if w == 0 {
        1
    } else {
        10 * pow10((w - 1) as nat)
    }
}

/// `n` rendered as exactly `w` decimal digits, zero-padded on the left.
/// Digits beyond the width are dropped, so callers keep `n < pow10(w)`.
pub open spec fn enc_dec(n: nat, w: nat) -> Seq<u8>
    decreases w,
{
    if w == 0 {
        Seq::empty()
    } else {
        enc_dec(n / 10, (w - 1) as nat).push((48 + n % 10) as u8)
    }
}

pub open spec fn is_digit(b: u8) -> bool {
    48 <= b <= 57
}

pub open spec fn all_digits(s: Seq<u8>) -> bool {
    forall|i: int| 0 <= i < s.len() ==> is_digit(#[trigger] s[i])
}

/// The value of a run of decimal digits, most significant first.
pub open spec fn dec_val(s: Seq<u8>) -> nat
    decreases s.len(),
{
    if s.len() == 0 {
        0
    } else {
        (dec_val(s.drop_last()) * 10 + (s.last() - 48)) as nat
    }
}

pub proof fn lemma_enc_dec_len(n: nat, w: nat)
    ensures
        enc_dec(n, w).len() == w,
        all_digits(enc_dec(n, w)),
    decreases w,
{
    if w > 0 {
        lemma_enc_dec_len(n / 10, (w - 1) as nat);
    }
}

/// Reading back `w` rendered digits gives the number again.
pub proof fn lemma_dec_enc_dec(n: nat, w: nat)
    requires
        n < pow10(w),
    ensures
        dec_val(enc_dec(n, w)) == n,
    decreases w,
{
    if w == 0 {
    } else {
        let s = enc_dec(n, w);
        lemma_enc_dec_len(n / 10, (w - 1) as nat);
        assert(s.drop_last() =~= enc_dec(n / 10, (w - 1) as nat));
        assert(n / 10 < pow10((w - 1) as nat));
        lemma_dec_enc_dec(n / 10, (w - 1) as nat);
    }
}

/// The rendered digits are bounded by the width.
pub proof fn lemma_dec_val_bound(s: Seq<u8>)
    requires
        all_digits(s),
    ensures
        dec_val(s) < pow10(s.len() as nat),
    decreases s.len(),
{
    if s.len() > 0 {
        lemma_dec_val_bound(s.drop_last());
    }
}

/// Appends `n` to `out` as exactly `w` decimal digits.
pub fn push_digits(out: &mut Vec<u8>, n: u64, w: usize)
    requires
        n < pow10(w as nat),
    ensures
        final(out)@ == old(out)@ + enc_dec(n as nat, w as nat),
    decreases w,
{
    if w == 0 {
        proof {
            assert(out@ =~= out@ + enc_dec(n as nat, 0));
        }
    } else {
        push_digits(out, n / 10, w - 1);
        out.push(48 + (n % 10) as u8);
        proof {
            assert(out@ =~= old(out)@ + enc_dec(n as nat, w as nat));
        }
    }
}

/// Reads exactly `w` digits starting at `i`; `None` when the input is too
/// short or holds a non-digit there.
pub fn parse_digits(bytes: &Vec<u8>, i: usize, w: usize) -> (r: Option<u64>)
    requires
        w <= 10,
        i <= bytes@.len(),
    ensures
        match r {
            Some(n) => {
                &&& i + w <= bytes@.len()
                &&& all_digits(bytes@.subrange(i as int, i + w))
                &&& n == dec_val(bytes@.subrange(i as int, i + w))
            },
            None => !(i + w <= bytes@.len() && all_digits(bytes@.subrange(i as int, i + w))),
        },
{
    if bytes.len() < w || i > bytes.len() - w {
        return None;
    }
    let len = bytes.len();
    let mut acc: u64 = 0;
    let mut t: usize = 0;
    while t < w
        invariant
            len == bytes@.len(),
            i + w <= len,
            0 <= t <= w,
            w <= 10,
            all_digits(bytes@.subrange(i as int, i + t)),
            acc == dec_val(bytes@.subrange(i as int, i + t)),
            acc < pow10(t as nat),
        decreases w - t,
    {
        let b = bytes[i + t];
        if b < 48 || b > 57 {
            proof {
                assert(bytes@.subrange(i as int, i + w)[t as int] == b);
            }
            return None;
        }
        proof {
            reveal_with_fuel(pow10, 11);
            assert(pow10(9) == 1000000000);
            assert(pow10(t as nat) <= pow10(9)) by {
                lemma_pow10_le(t as nat, 9);
            }
            assert(bytes@.subrange(i as int, i + t + 1).drop_last() =~= bytes@.subrange(
                i as int,
                i + t,
            ));
            assert(bytes@.subrange(i as int, i + t + 1).last() == b);
        }
        acc = acc * 10 + (b - 48) as u64;
        t += 1;
    }
    proof {
        assert(bytes@.subrange(i as int, i + t) =~= bytes@.subrange(i as int, i + w));
    }
    Some(acc)
}

pub proof fn lemma_pow10_le(a: nat, b: nat)
    requires
        a <= b,
    ensures
        pow10(a) <= pow10(b),
    decreases b,
{
    if a < b {
        lemma_pow10_le(a, (b - 1) as nat);
    }
}

/// The countdown display, `MM:SS`.
pub open spec fn time_display(sec: int) -> Seq<u8> {
    enc_dec((sec / 60) as nat, 2) + seq![58u8] + enc_dec((sec % 60) as nat, 2)
}

/// Renders a number of seconds as zero-padded minutes and seconds.
pub fn format_time(sec: u32) -> (r: Vec<u8>)
    requires
        sec < 6000,
    ensures
        r@ == time_display(sec as int),
{
    let mut r: Vec<u8> = Vec::new();
    proof {
        reveal_with_fuel(pow10, 3);
    }
    push_digits(&mut r, (sec / 60) as u64, 2);
    r.push(58);
    push_digits(&mut r, (sec % 60) as u64, 2);
    proof {
        assert(r@ =~= time_display(sec as int));
    }
    r
}

} // verus!
