//! The append-only session history log: one completed session per line.

use vstd::prelude::*;

use crate::modes::{mode_display, Mode};
use crate::numfmt::{enc_dec, pow10, push_digits};

verus! {

/// Lines joined back into log text, one newline after each line.
pub open spec fn join_nl(lines: Seq<Seq<u8>>) -> Seq<u8>
    decreases lines.len(),
{
    if lines.len() == 0 {
        Seq::empty()
    } else {
        lines[0] + seq![10u8] + join_nl(lines.drop_first())
    }
}

pub open spec fn views(vs: Seq<Vec<u8>>) -> Seq<Seq<u8>> {
    vs.map_values(|v: Vec<u8>| v@)
}

/// The log text a split must account for: the content itself, with the
/// final newline supplied when the file lacks one.
pub open spec fn normalized(content: Seq<u8>) -> Seq<u8> {
    if content.len() > 0 && content.last() != 10u8 {
        content + seq![10u8]
    } else {
        content
    }
}

proof fn lemma_join_push(ls: Seq<Seq<u8>>, x: Seq<u8>)
    ensures
        join_nl(ls.push(x)) == join_nl(ls) + (x + seq![10u8]),
    decreases ls.len(),
{
    let p = ls.push(x);
    if ls.len() == 0 {
        assert(p.drop_first() =~= Seq::<Seq<u8>>::empty());
        assert(join_nl(Seq::<Seq<u8>>::empty()) == Seq::<u8>::empty());
        assert(p[0] == x);
        assert(join_nl(p) =~= join_nl(ls) + (x + seq![10u8]));
    } else {
        assert(p[0] == ls[0]);
        assert(p.drop_first() =~= ls.drop_first().push(x));
        lemma_join_push(ls.drop_first(), x);
        assert(join_nl(p) =~= join_nl(ls) + (x + seq![10u8]));
    }
}

proof fn lemma_join_last(ls: Seq<Seq<u8>>)
    ensures
        ls.len() > 0 ==> join_nl(ls).len() > 0 && join_nl(ls).last() == 10u8,
    decreases ls.len(),
{
    if ls.len() > 0 {
        lemma_join_last(ls.drop_first());
        if ls.drop_first().len() == 0 {
            assert(join_nl(ls.drop_first()) == Seq::<u8>::empty());
            assert(join_nl(ls) =~= ls[0] + seq![10u8]);
        }
        assert(join_nl(ls).last() == 10u8);
    }
}

/// Splits the log into its lines. No returned line holds a newline, and
/// joining them with newlines restores the text, up to the final newline a
/// truncated file may be missing.
pub fn split_history(content: &Vec<u8>) -> (lines: Vec<Vec<u8>>)
    ensures
        forall|t: int| 0 <= t < lines@.len() ==> !(#[trigger] views(lines@)[t]).contains(10u8),
        join_nl(views(lines@)) == normalized(content@),
{
    let len = content.len();
    let mut lines: Vec<Vec<u8>> = Vec::new();
    let mut cur: Vec<u8> = Vec::new();
    let mut i: usize = 0;
    proof {
        assert(views(lines@) =~= Seq::<Seq<u8>>::empty());
        assert(join_nl(views(lines@)) + cur@ =~= content@.take(0));
    }
    while i < len
        invariant
            len == content@.len(),
            0 <= i <= len,
            !cur@.contains(10u8),
            forall|t: int| 0 <= t < lines@.len() ==> !(#[trigger] views(lines@)[t]).contains(10u8),
            join_nl(views(lines@)) + cur@ == content@.take(i as int),
        decreases len - i,
    {
        let b = content[i];
        if b == 10 {
            let ghost pre = views(lines@);
            let full = cur;
            cur = Vec::new();
            lines.push(full);
            proof {
                assert(views(lines@) =~= pre.push(full@));
                lemma_join_push(pre, full@);
                assert(content@.take(i + 1) =~= content@.take(i as int).push(10u8));
                assert(join_nl(views(lines@)) + cur@ =~= content@.take(i + 1));
                assert forall|t: int| 0 <= t < lines@.len() implies !(#[trigger] views(
                    lines@,
                )[t]).contains(10u8) by {
                    if t < pre.len() {
                        assert(views(lines@)[t] == pre[t]);
                    }
                }
            }
        } else {
            cur.push(b);
            proof {
                assert(content@.take(i + 1) =~= content@.take(i as int).push(b));
                assert(join_nl(views(lines@)) + cur@ =~= content@.take(i + 1));
            }
        }
        i += 1;
    }
    proof {
        assert(content@.take(len as int) =~= content@);
    }
    if cur.len() > 0 {
        let ghost pre = views(lines@);
        proof {
            // the tail after the last newline is the file's unterminated
            // final line, so the content does not end in a newline
            assert(content@.len() > 0);
            assert(content@.last() == cur@.last());
            lemma_join_push(pre, cur@);
        }
        let ghost curv = cur@;
        lines.push(cur);
        proof {
            assert(views(lines@) =~= pre.push(curv));
            if curv.last() == 10 {
                assert(curv[curv.len() - 1] == 10);
                assert(curv.contains(10u8));
            }
            assert(join_nl(views(lines@)) =~= normalized(content@));
            assert forall|t: int| 0 <= t < lines@.len() implies !(#[trigger] views(
                lines@,
            )[t]).contains(10u8) by {
                if t < pre.len() {
                    assert(views(lines@)[t] == pre[t]);
                }
            }
        }
    } else {
        proof {
            // the content is fully accounted for by whole lines, so it is
            // empty or newline-terminated
            lemma_join_last(views(lines@));
            assert(join_nl(views(lines@)) + cur@ =~= join_nl(views(lines@)));
            assert(join_nl(views(lines@)) == normalized(content@));
        }
    }
    lines
}

/// The most recent `limit` lines, newest first.
pub fn recent_of_lines(lines: Vec<Vec<u8>>, limit: usize) -> (r: Vec<Vec<u8>>)
    ensures
        views(r@) == (if limit < lines@.len() {
            views(lines@).reverse().take(limit as int)
        } else {
            views(lines@).reverse()
        }),
{
    let ghost ls0 = views(lines@);
    let ghost n = lines@.len();
    let mut lines = lines;
    let mut r: Vec<Vec<u8>> = Vec::new();
    while r.len() < limit && lines.len() > 0
        invariant
            n == ls0.len(),
            lines@.len() + r@.len() == n,
            r@.len() <= limit,
            views(lines@) =~= ls0.take(n - r@.len() as int),
            views(r@) =~= ls0.reverse().take(r@.len() as int),
        decreases lines@.len(),
    {
        let ghost lpre = lines@;
        let ghost kpre = r@.len() as int;
        let x = match lines.pop() {
            Some(x) => x,
            None => {
                proof {
                    assert(false);
                }
                return r;
            },
        };
        r.push(x);
        proof {
            assert(x@ == views(lpre)[lpre.len() - 1]);
            assert(views(lpre)[lpre.len() - 1] == ls0.take(n - kpre)[lpre.len() - 1]);
            assert(x@ == ls0[n - 1 - kpre]);
            assert(ls0.reverse()[kpre] == ls0[n - 1 - kpre]);
            assert(views(lines@) =~= ls0.take(n - r@.len() as int));
            assert(views(r@) =~= ls0.reverse().take(r@.len() as int));
        }
    }
    proof {
        if r@.len() < limit {
            assert(lines@.len() == 0);
            assert(r@.len() == n);
            assert(ls0.reverse().take(n as int) =~= ls0.reverse());
        } else {
            assert(r@.len() == limit);
            if !(limit < n) {
                assert(r@.len() == n);
                assert(ls0.reverse().take(n as int) =~= ls0.reverse());
            }
        }
    }
    r
}

/// Splits the log and returns the most recent `limit` entries, newest
/// first. An empty log yields an empty listing.
pub fn load_recent_history(content: &Vec<u8>, limit: usize) -> (r: Vec<Vec<u8>>)
    ensures
        exists|ls: Seq<Seq<u8>>|
            {
                &&& (forall|t: int| 0 <= t < ls.len() ==> !(#[trigger] ls[t]).contains(10u8))
                &&& join_nl(ls) == normalized(content@)
                &&& views(r@) == (if limit < ls.len() {
                    ls.reverse().take(limit as int)
                } else {
                    ls.reverse()
                })
            },
{
    let lines = split_history(content);
    let ghost ls = views(lines@);
    let r = recent_of_lines(lines, limit);
    proof {
        assert((forall|t: int| 0 <= t < ls.len() ==> !(#[trigger] ls[t]).contains(10u8))
            && join_nl(ls) == normalized(content@) && views(r@) == (if limit < ls.len() {
            ls.reverse().take(limit as int)
        } else {
            ls.reverse()
        }));
    }
    r
}

/// One history line: the timestamp, an em dash, and the ended mode's
/// display name.
pub open spec fn entry_display(
    y: int,
    mo: int,
    d: int,
    h: int,
    mi: int,
    s: int,
    m: Mode,
) -> Seq<u8> {
    enc_dec(y as nat, 4) + seq![45u8] + enc_dec(mo as nat, 2) + seq![45u8] + enc_dec(d as nat, 2)
        + seq![32u8] + enc_dec(h as nat, 2) + seq![58u8] + enc_dec(mi as nat, 2) + seq![58u8]
        + enc_dec(s as nat, 2) + seq![32u8, 226u8, 128u8, 148u8, 32u8] + mode_display(m)
}

/// Renders one history line, `YYYY-MM-DD HH:MM:SS` then the mode name.
pub fn format_history_entry(
    y: u32,
    mo: u32,
    d: u32,
    h: u32,
    mi: u32,
    s: u32,
    m: Mode,
) -> (v: Vec<u8>)
    requires
        y <= 9999,
        mo <= 99,
        d <= 99,
        h <= 99,
        mi <= 99,
        s <= 99,
    ensures
        v@ == entry_display(y as int, mo as int, d as int, h as int, mi as int, s as int, m),
{
    proof {
        reveal_with_fuel(pow10, 5);
        assert(pow10(4) == 10000 && pow10(2) == 100);
    }
    let mut v: Vec<u8> = Vec::new();
    push_digits(&mut v, y as u64, 4);
    v.push(45);
    push_digits(&mut v, mo as u64, 2);
    v.push(45);
    push_digits(&mut v, d as u64, 2);
    v.push(32);
    push_digits(&mut v, h as u64, 2);
    v.push(58);
    push_digits(&mut v, mi as u64, 2);
    v.push(58);
    push_digits(&mut v, s as u64, 2);
    v.push(32);
    v.push(226);
    v.push(128);
    v.push(148);
    v.push(32);
    let mut name = crate::modes::mode_display_bytes(m);
    v.append(&mut name);
    proof {
        assert(v@ =~= entry_display(y as int, mo as int, d as int, h as int, mi as int, s as int, m));
    }
    v
}

} // verus!
