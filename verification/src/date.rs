//! A proleptic-Gregorian calendar model.
//!
//! A calendar date is carried as a packed key `year * 10000 + month * 100 +
//! day`, so that dates can serve as plain integer map keys and numeric order
//! agrees with chronological order.

use vstd::prelude::*;

verus! {

pub open spec fn is_leap(y: int) -> bool {
    (y % 4 == 0 && y % 100 != 0) || y % 400 == 0
}

pub open spec fn days_in_month_spec(y: int, m: int) -> int {
    if m == 1 || m == 3 || m == 5 || m == 7 || m == 8 || m == 10 || m == 12 {
        31
    } else if m == 4 || m == 6 || m == 9 || m == 11 {
        30
    } else if is_leap(y) {
        29
    } else {
        28
    }
}

/// Month and day form a real calendar date in year `y`.
pub open spec fn valid_md(y: int, m: int, d: int) -> bool {
    1 <= m <= 12 && 1 <= d <= days_in_month_spec(y, m)
}

pub open spec fn key_y(k: int) -> int {
    k / 10000
}

pub open spec fn key_m(k: int) -> int {
    (k / 100) % 100
}

pub open spec fn key_d(k: int) -> int {
    k % 100
}

pub open spec fn pack_spec(y: int, m: int, d: int) -> int {
    y * 10000 + m * 100 + d
}

/// A packed key denotes a real date with a four-digit year.
pub open spec fn valid_key(k: int) -> bool {
    &&& 1 <= key_y(k) <= 9999
    &&& valid_md(key_y(k), key_m(k), key_d(k))
}

/// Packing valid components and reading them back is the identity.
pub proof fn lemma_pack_unpack(y: int, m: int, d: int)
    requires
        0 <= y <= 9999,
        1 <= m <= 12,
        1 <= d <= 31,
    ensures
        key_y(pack_spec(y, m, d)) == y,
        key_m(pack_spec(y, m, d)) == m,
        key_d(pack_spec(y, m, d)) == d,
{
    let k = pack_spec(y, m, d);
    assert(k == y * 10000 + m * 100 + d);
    assert(k / 10000 == y && (k / 100) % 100 == m && k % 100 == d) by (nonlinear_arith)
        requires
            k == y * 10000 + m * 100 + d,
            0 <= y <= 9999,
            1 <= m <= 12,
            1 <= d <= 31,
    ;
}

pub fn days_in_month(y: u32, m: u32) -> (r: u32)
    requires
        1 <= m <= 12,
    ensures
        r == days_in_month_spec(y as int, m as int),
{
    if m == 1 || m == 3 || m == 5 || m == 7 || m == 8 || m == 10 || m == 12 {
        31
    } else if m == 4 || m == 6 || m == 9 || m == 11 {
        30
    } else if (y % 4 == 0 && y % 100 != 0) || y % 400 == 0 {
        29
    } else {
        28
    }
}

/// The previous calendar day, saturating at the very first representable
/// day, `0000-01-01`.
pub open spec fn pred_spec(y: int, m: int, d: int) -> (int, int, int) {
    if d > 1 {
        (y, m, d - 1)
    } else if m > 1 {
        (y, m - 1, days_in_month_spec(y, m - 1))
    } else if y > 0 {
        (y - 1, 12, 31)
    } else {
        (0, 1, 1)
    }
}

/// `pred_spec` applied `n` times.
pub open spec fn iter_pred(y: int, m: int, d: int, n: nat) -> (int, int, int)
    decreases n,
{
    if n == 0 {
        (y, m, d)
    } else {
        let (py, pm, pd) = iter_pred(y, m, d, (n - 1) as nat);
        pred_spec(py, pm, pd)
    }
}

pub fn pred_ymd(y: u32, m: u32, d: u32) -> (r: (u32, u32, u32))
    requires
        y <= 9999,
        valid_md(y as int, m as int, d as int),
    ensures
        (r.0 as int, r.1 as int, r.2 as int) == pred_spec(y as int, m as int, d as int),
        r.0 <= y,
        valid_md(r.0 as int, r.1 as int, r.2 as int),
{
    if d > 1 {
        (y, m, d - 1)
    } else if m > 1 {
        (y, m - 1, days_in_month(y, m - 1))
    } else if y > 0 {
        (y - 1, 12, 31)
    } else {
        (0, 1, 1)
    }
}

/// Reading components out of a packed key and packing them again is the
/// identity.
pub proof fn lemma_pack_unpack_inv(k: int)
    requires
        0 <= k <= 99999999,
    ensures
        pack_spec(key_y(k), key_m(k), key_d(k)) == k,
{
    assert(k / 10000 * 10000 + (k / 100) % 100 * 100 + k % 100 == k) by (nonlinear_arith)
        requires
            0 <= k <= 99999999,
    ;
}

/// Runtime check of `valid_key`.
pub fn is_valid_key(k: u32) -> (b: bool)
    ensures
        b == valid_key(k as int),
{
    let y = k / 10000;
    let m = (k / 100) % 100;
    let d = k % 100;
    if y < 1 || y > 9999 {
        return false;
    }
    if m < 1 || m > 12 {
        return false;
    }
    if d < 1 {
        return false;
    }
    d <= days_in_month(y, m)
}

} // verus!
