//! The contribution heatmap: a 53-week by 7-day grid of color buckets.

use vstd::prelude::*;

use crate::contrib::{contrib_wf, seq_get, Contributions};
use crate::date::{iter_pred, key_d, key_m, key_y, pack_spec, pred_ymd, valid_key, valid_md};

verus! {

/// One of the five heatmap colors, from no contributions to seven or more.
#[derive(Clone, Copy, PartialEq, Eq, Structural, Debug)]
pub enum Bucket {
    Empty,
    Low,
    Medium,
    High,
    Max,
}

/// The bucketing table: 0 is empty, 1-2 low, 3-4 medium, 5-6 high, 7 and
/// above max.
pub open spec fn bucket_of(count: int) -> Bucket {
    if count <= 0 {
        Bucket::Empty
    } else if count <= 2 {
        Bucket::Low
    } else if count <= 4 {
        Bucket::Medium
    } else if count <= 6 {
        Bucket::High
    } else {
        Bucket::Max
    }
}

pub fn heatmap_bucket(count: u32) -> (b: Bucket)
    ensures
        b == bucket_of(count as int),
{
    if count == 0 {
        Bucket::Empty
    } else if count <= 2 {
        Bucket::Low
    } else if count <= 4 {
        Bucket::Medium
    } else if count <= 6 {
        Bucket::High
    } else {
        Bucket::Max
    }
}

/// Position of a bucket on the color scale, darkest first.
pub open spec fn bucket_rank(b: Bucket) -> int {
    match b {
        Bucket::Empty => 0,
        Bucket::Low => 1,
        Bucket::Medium => 2,
        Bucket::High => 3,
        Bucket::Max => 4,
    }
}

/// A day with at least as many contributions never gets a darker bucket:
/// the bucketing table is monotonic in the count.
pub proof fn lemma_bucket_monotonic(a: int, b: int)
    requires
        a <= b,
    ensures
        bucket_rank(bucket_of(a)) <= bucket_rank(bucket_of(b)),
{
}

pub open spec fn bucket_color_spec(b: Bucket) -> Seq<char> {
    match b {
        Bucket::Empty => "#161b22"@,
        Bucket::Low => "#0e4429"@,
        Bucket::Medium => "#006d32"@,
        Bucket::High => "#26a641"@,
        Bucket::Max => "#39d353"@,
    }
}

/// The fixed hex color of each bucket.
pub fn bucket_color(b: Bucket) -> (r: &'static str)
    ensures
        r@ == bucket_color_spec(b),
{
    match b {
        Bucket::Empty => "#161b22",
        Bucket::Low => "#0e4429",
        Bucket::Medium => "#006d32",
        Bucket::High => "#26a641",
        Bucket::Max => "#39d353",
    }
}

/// The date shown in grid cell `n`, counting back one day per cell from
/// `today`, as a packed key.
pub open spec fn cell_key(today: u32, n: nat) -> int {
    let (y, m, d) = iter_pred(key_y(today as int), key_m(today as int), key_d(today as int), n);
    pack_spec(y, m, d)
}

/// The full 53x7 grid, most recent day first: cell `n` holds the bucket of
/// the contribution count of the day `n` days before `today`.
pub fn heatmap_grid(c: &Contributions, today: u32) -> (g: Vec<Bucket>)
    requires
        contrib_wf(c@),
        valid_key(today as int),
    ensures
        g@.len() == 371,
        forall|n: int|
            0 <= n < 371 ==> g@[n] == bucket_of(seq_get(c@, #[trigger] cell_key(today, n as nat)) as int),
{
    let mut g: Vec<Bucket> = Vec::new();
    let mut cy: u32 = today / 10000;
    let mut cm: u32 = (today / 100) % 100;
    let mut cd: u32 = today % 100;
    let mut n: usize = 0;
    while n < 371
        invariant
            g@.len() == n,
            0 <= n <= 371,
            cy <= 9999,
            valid_md(cy as int, cm as int, cd as int),
            (cy as int, cm as int, cd as int) == iter_pred(
                key_y(today as int),
                key_m(today as int),
                key_d(today as int),
                n as nat,
            ),
            forall|j: int|
                0 <= j < n ==> g@[j] == bucket_of(
                    seq_get(c@, #[trigger] cell_key(today, j as nat)) as int,
                ),
        decreases 371 - n,
    {
        let key: u32 = cy * 10000 + cm * 100 + cd;
        let count = c.get(key);
        g.push(heatmap_bucket(count));
        let nxt = pred_ymd(cy, cm, cd);
        cy = nxt.0;
        cm = nxt.1;
        cd = nxt.2;
        n += 1;
    }
    g
}

} // verus!
