//! The per-day contribution ledger: how many work sessions were completed on
//! each calendar date.
//!
//! The ledger is an association list sorted strictly by packed date key, so
//! that lookups have a direct recursive meaning and the persisted encoding is
//! canonical. Counts only ever grow, saturating at `u32::MAX`.

use vstd::prelude::*;

use crate::date::valid_key;

verus! {

/// Count lookup in an association list: the count of the first entry whose
/// key matches, or 0 when no entry does.
pub open spec fn seq_get(e: Seq<(u32, u32)>, k: int) -> u32
    decreases e.len(),
{
    if e.len() == 0 {
        0
    } else if e[0].0 == k {
        e[0].1
    } else {
        seq_get(e.drop_first(), k)
    }
}

pub open spec fn sorted_strict(e: Seq<(u32, u32)>) -> bool {
    forall|i: int, j: int| 0 <= i < j < e.len() ==> e[i].0 < e[j].0
}

pub open spec fn keys_valid(e: Seq<(u32, u32)>) -> bool {
    forall|i: int| 0 <= i < e.len() ==> valid_key(#[trigger] e[i].0 as int)
}

pub open spec fn contrib_wf(e: Seq<(u32, u32)>) -> bool {
    sorted_strict(e) && keys_valid(e)
}

pub open spec fn sat_inc(x: u32) -> u32 {
    if x < u32::MAX {
        (x + 1) as u32
    } else {
        x
    }
}

/// Skipping a prefix free of key `k` does not change the lookup.
pub proof fn lemma_seq_get_skip(e: Seq<(u32, u32)>, k: int, i: int)
    requires
        0 <= i <= e.len(),
        forall|j: int| 0 <= j < i ==> (#[trigger] e[j].0) != k,
    ensures
        seq_get(e, k) == seq_get(e.skip(i), k),
    decreases i,
{
    if i > 0 {
        assert(e.drop_first().skip(i - 1) =~= e.skip(i));
        lemma_seq_get_skip(e.drop_first(), k, i - 1);
    } else {
        assert(e.skip(0) =~= e);
    }
}

/// Changing one entry's count does not change lookups of other keys.
pub proof fn lemma_seq_get_update(e: Seq<(u32, u32)>, p: int, v: u32, k: int)
    requires
        0 <= p < e.len(),
        e[p].0 != k,
    ensures
        seq_get(e.update(p, (e[p].0, v)), k) == seq_get(e, k),
    decreases p,
{
    let u = e.update(p, (e[p].0, v));
    if p == 0 {
        assert(u.drop_first() =~= e.drop_first());
    } else {
        assert(u.drop_first() =~= e.drop_first().update(p - 1, (e[p].0, v)));
        lemma_seq_get_update(e.drop_first(), p - 1, v, k);
    }
}

/// Inserting an entry with a different key does not change a lookup.
pub proof fn lemma_seq_get_insert(e: Seq<(u32, u32)>, p: int, x: (u32, u32), k: int)
    requires
        0 <= p <= e.len(),
        x.0 != k,
    ensures
        seq_get(e.insert(p, x), k) == seq_get(e, k),
    decreases p,
{
    let u = e.insert(p, x);
    if p == 0 {
        assert(u.drop_first() =~= e);
    } else {
        assert(u[0] == e[0]);
        assert(u.drop_first() =~= e.drop_first().insert(p - 1, x));
        if e[0].0 != k {
            lemma_seq_get_insert(e.drop_first(), p - 1, x, k);
        }
    }
}

/// The contribution ledger.
pub struct Contributions {
    pub entries: Vec<(u32, u32)>,
}

impl View for Contributions {
    type V = Seq<(u32, u32)>;

    open spec fn view(&self) -> Seq<(u32, u32)> {
        self.entries@
    }
}

impl Contributions {
    pub fn new() -> (c: Contributions)
        ensures
            c@ =~= Seq::<(u32, u32)>::empty(),
            contrib_wf(c@),
    {
        Contributions { entries: Vec::new() }
    }

    /// The number of contributions recorded for date `day`; 0 when none are.
    pub fn get(&self, day: u32) -> (r: u32)
        ensures
            r == seq_get(self@, day as int),
    {
        let n = self.entries.len();
        let mut i: usize = 0;
        while i < n
            invariant
                n == self.entries.len(),
                0 <= i <= n,
                forall|j: int| 0 <= j < i ==> (#[trigger] self.entries@[j].0) != day,
            decreases n - i,
        {
            if self.entries[i].0 == day {
                proof {
                    lemma_seq_get_skip(self@, day as int, i as int);
                    assert(self@.skip(i as int)[0] == self@[i as int]);
                }
                return self.entries[i].1;
            }
            i += 1;
        }
        proof {
            lemma_seq_get_skip(self@, day as int, n as int);
            assert(self@.skip(n as int).len() == 0);
        }
        0
    }

    /// Records one more contribution for date `day`, creating the entry when
    /// it is absent. The count saturates at `u32::MAX`; every other date is
    /// untouched.
    pub fn increment(&mut self, day: u32)
        requires
            contrib_wf(old(self)@),
            valid_key(day as int),
        ensures
            contrib_wf(final(self)@),
            seq_get(final(self)@, day as int) == sat_inc(seq_get(old(self)@, day as int)),
            forall|k: int| k != day ==> seq_get(final(self)@, k) == seq_get(old(self)@, k),
    {
        let n = self.entries.len();
        let mut i: usize = 0;
        while i < n && self.entries[i].0 < day
            invariant
                n == self.entries.len(),
                0 <= i <= n,
                forall|j: int| 0 <= j < i ==> (#[trigger] self.entries@[j].0) < day,
            decreases n - i,
        {
            i += 1;
        }
        let ghost e0 = self@;
        if i < n && self.entries[i].0 == day {
            let old_v = self.entries[i].1;
            let new_v = if old_v < u32::MAX {
                old_v + 1
            } else {
                old_v
            };
            self.entries.set(i, (day, new_v));
            proof {
                let e1 = self@;
                assert(e1 =~= e0.update(i as int, (e0[i as int].0, new_v)));
                // the old count is what a lookup of `day` found
                lemma_seq_get_skip(e0, day as int, i as int);
                assert(e0.skip(i as int)[0] == e0[i as int]);
                assert(seq_get(e0, day as int) == old_v);
                // the new count is what a lookup now finds
                lemma_seq_get_skip(e1, day as int, i as int);
                assert(e1.skip(i as int)[0] == e1[i as int]);
                assert(seq_get(e1, day as int) == new_v);
                assert forall|k: int| k != day implies seq_get(e1, k) == seq_get(e0, k) by {
                    lemma_seq_get_update(e0, i as int, new_v, k);
                }
                assert(contrib_wf(e1));
            }
        } else {
            // every stored key differs from `day`: smaller before `i`,
            // larger from `i` on
            proof {
                assert forall|j: int| 0 <= j < e0.len() implies (#[trigger] e0[j].0) != day by {
                    if j >= i {
                        assert(e0[i as int].0 <= e0[j].0);
                    }
                }
                lemma_seq_get_skip(e0, day as int, e0.len() as int);
                assert(seq_get(e0, day as int) == 0);
            }
            self.entries.insert(i, (day, 1));
            proof {
                let e1 = self@;
                assert(e1 =~= e0.insert(i as int, (day, 1u32)));
                lemma_seq_get_skip(e1, day as int, i as int);
                assert(e1.skip(i as int)[0] == (day, 1u32));
                assert(seq_get(e1, day as int) == 1);
                assert forall|k: int| k != day implies seq_get(e1, k) == seq_get(e0, k) by {
                    lemma_seq_get_insert(e0, i as int, (day, 1u32), k);
                }
                assert forall|p: int, q: int| 0 <= p < q < e1.len() implies e1[p].0 < e1[q].0 by {
                    if p < i && q == i {
                    } else if p == i && q > i {
                        assert(e1[q] == e0[q - 1]);
                        assert(e0[i as int].0 > day);
                        assert(e0[i as int].0 <= e0[q - 1].0);
                    } else if p < i && q > i {
                        assert(e1[p] == e0[p] && e1[q] == e0[q - 1]);
                    } else if p > i && q > i {
                        assert(e1[p] == e0[p - 1] && e1[q] == e0[q - 1]);
                    }
                }
                assert(contrib_wf(e1));
            }
        }
    }
}

/// Pairwise order between neighbours carries to any two positions.
proof fn lemma_sorted_from_adjacent(e: Seq<(u32, u32)>, i: int, j: int)
    requires
        forall|t: int| 0 <= t < e.len() - 1 ==> (#[trigger] e[t].0) < e[t + 1].0,
        0 <= i < j < e.len(),
    ensures
        e[i].0 < e[j].0,
    decreases j - i,
{
    if i + 1 < j {
        lemma_sorted_from_adjacent(e, i, j - 1);
    }
}

impl Contributions {
    /// Runtime check of the ledger invariant.
    pub fn check_wf(&self) -> (b: bool)
        ensures
            b == contrib_wf(self@),
    {
        let n = self.entries.len();
        let mut i: usize = 0;
        while i < n
            invariant
                n == self.entries.len(),
                0 <= i <= n,
                forall|t: int| 0 <= t < i ==> valid_key(#[trigger] self.entries@[t].0 as int),
                forall|t: int| 0 <= t < i && t < n - 1 ==> (#[trigger] self.entries@[t].0)
                    < self.entries@[t + 1].0,
            decreases n - i,
        {
            if !crate::date::is_valid_key(self.entries[i].0) {
                return false;
            }
            if i + 1 < n && self.entries[i].0 >= self.entries[i + 1].0 {
                return false;
            }
            i += 1;
        }
        proof {
            assert forall|p: int, q: int| 0 <= p < q < self.entries@.len() implies self.entries@[p].0
                < self.entries@[q].0 by {
                lemma_sorted_from_adjacent(self.entries@, p, q);
            }
        }
        true
    }
}

} // verus!
