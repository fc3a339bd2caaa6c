//! The persisted state file.
//!
//! The state is kept as one line of JSON-shaped text with a fixed field
//! order and fixed-width, zero-padded numeric fields, for example:
//!
//! `{"is_running":false,"mode":"Work","remaining":1500,"work_sessions":0000000000,"contributions":{"2024-01-15":0000000002}}`
//!
//! Contribution entries are keyed by `YYYY-MM-DD` date strings and written
//! in strictly ascending date order, which makes the encoding canonical.
//! `dec_state` is the exact grammar of the format: the decoder returns
//! precisely what it derives, and a well-formed state survives a round trip
//! unchanged, which `lemma_state_round_trip` proves.

use vstd::prelude::*;

use crate::contrib::{contrib_wf, Contributions};
use crate::date::{is_valid_key, key_d, key_m, key_y, valid_key};
use crate::modes::{duration_spec, mode_tag, Mode};
use crate::numfmt::{
    all_digits, dec_val, enc_dec, lemma_dec_enc_dec, lemma_dec_val_bound, lemma_enc_dec_len,
    parse_digits, pow10, push_digits,
};
use crate::timer::PomodoroState;

verus! {

// --- the fixed literals of the format ---

pub open spec fn lit_header() -> Seq<u8> {
    // `{"is_running":`
    seq![123u8, 34, 105, 115, 95, 114, 117, 110, 110, 105, 110, 103, 34, 58]
}

pub open spec fn lit_mode() -> Seq<u8> {
    // `,"mode":"`
    seq![44u8, 34, 109, 111, 100, 101, 34, 58, 34]
}

pub open spec fn lit_remaining() -> Seq<u8> {
    // `","remaining":`
    seq![34u8, 44, 34, 114, 101, 109, 97, 105, 110, 105, 110, 103, 34, 58]
}

pub open spec fn lit_sessions() -> Seq<u8> {
    // `,"work_sessions":`
    seq![44u8, 34, 119, 111, 114, 107, 95, 115, 101, 115, 115, 105, 111, 110, 115, 34, 58]
}

pub open spec fn lit_contrib() -> Seq<u8> {
    // `,"contributions":{`
    seq![44u8, 34, 99, 111, 110, 116, 114, 105, 98, 117, 116, 105, 111, 110, 115, 34, 58, 123]
}

pub open spec fn lit_true() -> Seq<u8> {
    seq![116u8, 114, 117, 101]
}

pub open spec fn lit_false() -> Seq<u8> {
    seq![102u8, 97, 108, 115, 101]
}

// --- the mathematical image of a state ---

/// A state reduced to plain mathematical values.
pub ghost struct StateModel {
    pub is_running: bool,
    pub mode: Mode,
    pub remaining: u32,
    pub work_sessions: u32,
    pub entries: Seq<(u32, u32)>,
}

pub open spec fn model_wf(m: StateModel) -> bool {
    &&& m.remaining <= duration_spec(m.mode)
    &&& (m.is_running ==> m.remaining > 0)
    &&& contrib_wf(m.entries)
}

pub open spec fn state_model(s: PomodoroState) -> StateModel {
    StateModel {
        is_running: s.is_running,
        mode: s.mode,
        remaining: s.remaining,
        work_sessions: s.work_sessions,
        entries: s.contributions@,
    }
}

// --- encoding ---

pub open spec fn enc_bool(b: bool) -> Seq<u8> {
    if b {
        lit_true()
    } else {
        lit_false()
    }
}

/// One contribution entry, `"YYYY-MM-DD":CCCCCCCCCC`.
pub open spec fn enc_entry_bytes(e: (u32, u32)) -> Seq<u8> {
    seq![34u8] + enc_dec(key_y(e.0 as int) as nat, 4) + seq![45u8] + enc_dec(
        key_m(e.0 as int) as nat,
        2,
    ) + seq![45u8] + enc_dec(key_d(e.0 as int) as nat, 2) + seq![34u8, 58u8] + enc_dec(e.1 as nat, 10)
}

/// The entries joined by commas, in stored order.
pub open spec fn enc_entries_bytes(es: Seq<(u32, u32)>) -> Seq<u8>
    decreases es.len(),
{
    if es.len() == 0 {
        Seq::empty()
    } else if es.len() == 1 {
        enc_entry_bytes(es[0])
    } else {
        enc_entry_bytes(es[0]) + (seq![44u8] + enc_entries_bytes(es.drop_first()))
    }
}

/// The full encoding of a state.
pub open spec fn enc_state(m: StateModel) -> Seq<u8> {
    lit_header() + (enc_bool(m.is_running) + (lit_mode() + (mode_tag(m.mode) + (lit_remaining() + (
    enc_dec(m.remaining as nat, 4) + (lit_sessions() + (enc_dec(m.work_sessions as nat, 10) + (
    lit_contrib() + (enc_entries_bytes(m.entries) + (seq![125u8] + seq![125u8]))))))))))
}

// --- the grammar, as a total spec decoder ---

/// Strips `lit` off the front of `s`, or nothing when it is not there.
pub open spec fn dec_lit(s: Seq<u8>, lit: Seq<u8>) -> Option<Seq<u8>> {
    if lit.len() <= s.len() && s.take(lit.len() as int) == lit {
        Some(s.skip(lit.len() as int))
    } else {
        None
    }
}

/// Reads exactly `w` decimal digits off the front of `s`.
pub open spec fn dec_digits(s: Seq<u8>, w: nat) -> Option<(nat, Seq<u8>)> {
    if w <= s.len() && all_digits(s.take(w as int)) {
        Some((dec_val(s.take(w as int)), s.skip(w as int)))
    } else {
        None
    }
}

pub open spec fn dec_bool(s: Seq<u8>) -> Option<(bool, Seq<u8>)> {
    match dec_lit(s, lit_true()) {
        Some(r) => Some((true, r)),
        None => match dec_lit(s, lit_false()) {
            Some(r) => Some((false, r)),
            None => None,
        },
    }
}

pub open spec fn dec_mode(s: Seq<u8>) -> Option<(Mode, Seq<u8>)> {
    match dec_lit(s, mode_tag(Mode::Work)) {
        Some(r) => Some((Mode::Work, r)),
        None => match dec_lit(s, mode_tag(Mode::Short)) {
            Some(r) => Some((Mode::Short, r)),
            None => match dec_lit(s, mode_tag(Mode::Long)) {
                Some(r) => Some((Mode::Long, r)),
                None => None,
            },
        },
    }
}

/// Reads one `"YYYY-MM-DD":CCCCCCCCCC` entry off the front of `s`.
pub open spec fn dec_entry(s: Seq<u8>) -> Option<((u32, u32), Seq<u8>)> {
    if s.len() >= 23 && s[0] == 34 && s[5] == 45 && s[8] == 45 && s[11] == 34 && s[12] == 58
        && all_digits(s.subrange(1, 5)) && all_digits(s.subrange(6, 8)) && all_digits(
        s.subrange(9, 11),
    ) && all_digits(s.subrange(13, 23)) {
        let y = dec_val(s.subrange(1, 5));
        let m = dec_val(s.subrange(6, 8));
        let d = dec_val(s.subrange(9, 11));
        let c = dec_val(s.subrange(13, 23));
        if c <= u32::MAX {
            Some((((y * 10000 + m * 100 + d) as u32, c as u32), s.skip(23)))
        } else {
            None
        }
    } else {
        None
    }
}

/// An entry key must exceed the previous one, so stored order is strictly
/// ascending.
pub open spec fn key_gt(lo: Option<u32>, k: u32) -> bool {
    match lo {
        None => true,
        Some(p) => p < k,
    }
}

/// Reads the entry list and the closing brace of the contributions object.
pub open spec fn dec_entries(s: Seq<u8>, lo: Option<u32>) -> Option<(Seq<(u32, u32)>, Seq<u8>)>
    decreases s.len(),
{
    match dec_lit(s, seq![125u8]) {
        Some(r) => Some((Seq::empty(), r)),
        None => match dec_entry(s) {
            None => None,
            Some(((k, v), r1)) => {
                if !(key_gt(lo, k) && valid_key(k as int)) {
                    None
                } else {
                    match dec_lit(r1, seq![44u8]) {
                        Some(r2) => match dec_entries(r2, Some(k)) {
                            Some((rest, r3)) => Some((seq![(k, v)] + rest, r3)),
                            None => None,
                        },
                        None => match dec_lit(r1, seq![125u8]) {
                            Some(r2) => Some((seq![(k, v)], r2)),
                            None => None,
                        },
                    }
                }
            },
        },
    }
}

/// The exact grammar of the state file: `Some` precisely on well-formed
/// encodings, with nothing after the final brace.
pub open spec fn dec_state(s: Seq<u8>) -> Option<StateModel> {
    match dec_lit(s, lit_header()) {
        None => None,
        Some(r1) => match dec_bool(r1) {
            None => None,
            Some((b, r2)) => match dec_lit(r2, lit_mode()) {
                None => None,
                Some(r3) => match dec_mode(r3) {
                    None => None,
                    Some((md, r4)) => match dec_lit(r4, lit_remaining()) {
                        None => None,
                        Some(r5) => match dec_digits(r5, 4) {
                            None => None,
                            Some((rem, r6)) => match dec_lit(r6, lit_sessions()) {
                                None => None,
                                Some(r7) => match dec_digits(r7, 10) {
                                    None => None,
                                    Some((ws, r8)) => match dec_lit(r8, lit_contrib()) {
                                        None => None,
                                        Some(r9) => match dec_entries(r9, None) {
                                            None => None,
                                            Some((es, r10)) => match dec_lit(r10, seq![125u8]) {
                                                None => None,
                                                Some(r11) => {
                                                    if r11.len() == 0 && rem
                                                        <= duration_spec(md) && (b ==> rem > 0)
                                                        && ws <= u32::MAX {
                                                        Some(
                                                            StateModel {
                                                                is_running: b,
                                                                mode: md,
                                                                remaining: rem as u32,
                                                                work_sessions: ws as u32,
                                                                entries: es,
                                                            },
                                                        )
                                                    } else {
                                                        None
                                                    }
                                                },
                                            },
                                        },
                                    },
                                },
                            },
                        },
                    },
                },
            },
        },
    }
}

// --- round-trip lemmas ---

proof fn lemma_dec_lit_hit(lit: Seq<u8>, rest: Seq<u8>)
    ensures
        dec_lit(lit + rest, lit) == Some(rest),
{
    let s = lit + rest;
    assert(s.take(lit.len() as int) =~= lit);
    assert(s.skip(lit.len() as int) =~= rest);
}

proof fn lemma_dec_lit_miss(s: Seq<u8>, lit: Seq<u8>)
    requires
        lit.len() > 0,
        s.len() > 0,
        s[0] != lit[0],
    ensures
        dec_lit(s, lit) is None,
{
    if lit.len() <= s.len() && s.take(lit.len() as int) == lit {
        assert(s.take(lit.len() as int)[0] == s[0]);
        assert(false);
    }
}

proof fn lemma_dec_digits_hit(n: nat, w: nat, rest: Seq<u8>)
    requires
        n < pow10(w),
    ensures
        dec_digits(enc_dec(n, w) + rest, w) == Some((n, rest)),
{
    let e = enc_dec(n, w);
    lemma_enc_dec_len(n, w);
    let s = e + rest;
    assert(s.take(w as int) =~= e);
    assert(s.skip(w as int) =~= rest);
    lemma_dec_enc_dec(n, w);
}

proof fn lemma_dec_bool_hit(b: bool, rest: Seq<u8>)
    ensures
        dec_bool(enc_bool(b) + rest) == Some((b, rest)),
{
    if b {
        lemma_dec_lit_hit(lit_true(), rest);
    } else {
        let s = lit_false() + rest;
        assert(s[0] == 102);
        lemma_dec_lit_miss(s, lit_true());
        lemma_dec_lit_hit(lit_false(), rest);
    }
}

proof fn lemma_dec_mode_hit(m: Mode, rest: Seq<u8>)
    ensures
        dec_mode(mode_tag(m) + rest) == Some((m, rest)),
{
    let s = mode_tag(m) + rest;
    match m {
        Mode::Work => {
            lemma_dec_lit_hit(mode_tag(Mode::Work), rest);
        },
        Mode::Short => {
            assert(s[0] == 83);
            lemma_dec_lit_miss(s, mode_tag(Mode::Work));
            lemma_dec_lit_hit(mode_tag(Mode::Short), rest);
        },
        Mode::Long => {
            assert(s[0] == 76);
            lemma_dec_lit_miss(s, mode_tag(Mode::Work));
            lemma_dec_lit_miss(s, mode_tag(Mode::Short));
            lemma_dec_lit_hit(mode_tag(Mode::Long), rest);
        },
    }
}

proof fn lemma_dec_entry_hit(e: (u32, u32), rest: Seq<u8>)
    requires
        valid_key(e.0 as int),
    ensures
        dec_entry(enc_entry_bytes(e) + rest) == Some((e, rest)),
{
    let k = e.0 as int;
    let y = key_y(k);
    let m = key_m(k);
    let d = key_d(k);
    let yb = enc_dec(y as nat, 4);
    let mb = enc_dec(m as nat, 2);
    let db = enc_dec(d as nat, 2);
    let cb = enc_dec(e.1 as nat, 10);
    lemma_enc_dec_len(y as nat, 4);
    lemma_enc_dec_len(m as nat, 2);
    lemma_enc_dec_len(d as nat, 2);
    lemma_enc_dec_len(e.1 as nat, 10);
    let ee = enc_entry_bytes(e);
    assert(ee.len() == 23);
    let s = ee + rest;
    assert(s[0] == 34 && s[5] == 45 && s[8] == 45 && s[11] == 34 && s[12] == 58);
    assert(s.subrange(1, 5) =~= yb);
    assert(s.subrange(6, 8) =~= mb);
    assert(s.subrange(9, 11) =~= db);
    assert(s.subrange(13, 23) =~= cb);
    assert(s.skip(23) =~= rest);
    reveal_with_fuel(pow10, 11);
    assert(pow10(4) == 10000 && pow10(2) == 100 && pow10(10) == 10000000000);
    lemma_dec_enc_dec(y as nat, 4);
    lemma_dec_enc_dec(m as nat, 2);
    lemma_dec_enc_dec(d as nat, 2);
    lemma_dec_enc_dec(e.1 as nat, 10);
    crate::date::lemma_pack_unpack_inv(k);
    assert(y * 10000 + m * 100 + d == k);
}

#[verifier::rlimit(100)]
proof fn lemma_dec_entries_hit(es: Seq<(u32, u32)>, lo: Option<u32>, rest: Seq<u8>)
    requires
        contrib_wf(es),
        forall|i: int| 0 <= i < es.len() ==> key_gt(lo, #[trigger] es[i].0),
    ensures
        dec_entries(enc_entries_bytes(es) + (seq![125u8] + rest), lo) == Some((es, rest)),
    decreases es.len(),
{
    let s = enc_entries_bytes(es) + (seq![125u8] + rest);
    if es.len() == 0 {
        assert(s =~= seq![125u8] + rest);
        lemma_dec_lit_hit(seq![125u8], rest);
    } else if es.len() == 1 {
        let tail = seq![125u8] + rest;
        assert(s =~= enc_entry_bytes(es[0]) + tail);
        assert(enc_entry_bytes(es[0])[0] == 34);
        assert(s[0] == 34);
        lemma_dec_lit_miss(s, seq![125u8]);
        lemma_dec_entry_hit(es[0], tail);
        assert(tail[0] == 125);
        lemma_dec_lit_miss(tail, seq![44u8]);
        lemma_dec_lit_hit(seq![125u8], rest);
        assert(seq![es[0]] =~= es);
    } else {
        let dropped = es.drop_first();
        let tail = seq![44u8] + (enc_entries_bytes(dropped) + (seq![125u8] + rest));
        assert(s =~= enc_entry_bytes(es[0]) + tail);
        assert(s[0] == 34);
        lemma_dec_lit_miss(s, seq![125u8]);
        lemma_dec_entry_hit(es[0], tail);
        lemma_dec_lit_hit(seq![44u8], enc_entries_bytes(dropped) + (seq![125u8] + rest));
        assert forall|i: int| 0 <= i < dropped.len() implies key_gt(
            Some(es[0].0),
            #[trigger] dropped[i].0,
        ) by {
            assert(dropped[i] == es[i + 1]);
            assert(es[0].0 < es[i + 1].0);
        }
        lemma_dec_entries_hit(dropped, Some(es[0].0), rest);
        assert(seq![es[0]] + dropped =~= es);
    }
}

/// A well-formed state, written out and read back, comes back unchanged:
/// the decoder inverts the encoder, field for field, contributions included.
pub proof fn lemma_state_round_trip(m: StateModel)
    requires
        model_wf(m),
    ensures
        dec_state(enc_state(m)) == Some(m),
{
    reveal_with_fuel(pow10, 11);
    assert(pow10(4) == 10000 && pow10(10) == 10000000000);
    let t10 = enc_entries_bytes(m.entries) + (seq![125u8] + seq![125u8]);
    let t9 = lit_contrib() + t10;
    let t8 = enc_dec(m.work_sessions as nat, 10) + t9;
    let t7 = lit_sessions() + t8;
    let t6 = enc_dec(m.remaining as nat, 4) + t7;
    let t5 = lit_remaining() + t6;
    let t4 = mode_tag(m.mode) + t5;
    let t3 = lit_mode() + t4;
    let t2 = enc_bool(m.is_running) + t3;
    let s = enc_state(m);
    assert(s =~= lit_header() + t2);
    lemma_dec_lit_hit(lit_header(), t2);
    lemma_dec_bool_hit(m.is_running, t3);
    lemma_dec_lit_hit(lit_mode(), t4);
    lemma_dec_mode_hit(m.mode, t5);
    lemma_dec_lit_hit(lit_remaining(), t6);
    lemma_dec_digits_hit(m.remaining as nat, 4, t7);
    lemma_dec_lit_hit(lit_sessions(), t8);
    lemma_dec_digits_hit(m.work_sessions as nat, 10, t9);
    lemma_dec_lit_hit(lit_contrib(), t10);
    assert(forall|i: int| 0 <= i < m.entries.len() ==> key_gt(None, #[trigger] m.entries[i].0));
    lemma_dec_entries_hit(m.entries, None, seq![125u8]);
    lemma_dec_lit_hit(seq![125u8], Seq::empty());
    assert(seq![125u8] =~= seq![125u8] + Seq::<u8>::empty());
}


fn lit_header_vec() -> (v: Vec<u8>)
    ensures
        v@ == lit_header(),
{
    let mut v: Vec<u8> = Vec::new();
    v.push(123);
    v.push(34);
    v.push(105);
    v.push(115);
    v.push(95);
    v.push(114);
    v.push(117);
    v.push(110);
    v.push(110);
    v.push(105);
    v.push(110);
    v.push(103);
    v.push(34);
    v.push(58);
    proof {
        assert(v@ =~= lit_header());
    }
    v
}

fn lit_mode_vec() -> (v: Vec<u8>)
    ensures
        v@ == lit_mode(),
{
    let mut v: Vec<u8> = Vec::new();
    v.push(44);
    v.push(34);
    v.push(109);
    v.push(111);
    v.push(100);
    v.push(101);
    v.push(34);
    v.push(58);
    v.push(34);
    proof {
        assert(v@ =~= lit_mode());
    }
    v
}

fn lit_remaining_vec() -> (v: Vec<u8>)
    ensures
        v@ == lit_remaining(),
{
    let mut v: Vec<u8> = Vec::new();
    v.push(34);
    v.push(44);
    v.push(34);
    v.push(114);
    v.push(101);
    v.push(109);
    v.push(97);
    v.push(105);
    v.push(110);
    v.push(105);
    v.push(110);
    v.push(103);
    v.push(34);
    v.push(58);
    proof {
        assert(v@ =~= lit_remaining());
    }
    v
}

fn lit_sessions_vec() -> (v: Vec<u8>)
    ensures
        v@ == lit_sessions(),
{
    let mut v: Vec<u8> = Vec::new();
    v.push(44);
    v.push(34);
    v.push(119);
    v.push(111);
    v.push(114);
    v.push(107);
    v.push(95);
    v.push(115);
    v.push(101);
    v.push(115);
    v.push(115);
    v.push(105);
    v.push(111);
    v.push(110);
    v.push(115);
    v.push(34);
    v.push(58);
    proof {
        assert(v@ =~= lit_sessions());
    }
    v
}

fn lit_contrib_vec() -> (v: Vec<u8>)
    ensures
        v@ == lit_contrib(),
{
    let mut v: Vec<u8> = Vec::new();
    v.push(44);
    v.push(34);
    v.push(99);
    v.push(111);
    v.push(110);
    v.push(116);
    v.push(114);
    v.push(105);
    v.push(98);
    v.push(117);
    v.push(116);
    v.push(105);
    v.push(111);
    v.push(110);
    v.push(115);
    v.push(34);
    v.push(58);
    v.push(123);
    proof {
        assert(v@ =~= lit_contrib());
    }
    v
}

fn lit_true_vec() -> (v: Vec<u8>)
    ensures
        v@ == lit_true(),
{
    let mut v: Vec<u8> = Vec::new();
    v.push(116);
    v.push(114);
    v.push(117);
    v.push(101);
    proof {
        assert(v@ =~= lit_true());
    }
    v
}

fn lit_false_vec() -> (v: Vec<u8>)
    ensures
        v@ == lit_false(),
{
    let mut v: Vec<u8> = Vec::new();
    v.push(102);
    v.push(97);
    v.push(108);
    v.push(115);
    v.push(101);
    proof {
        assert(v@ =~= lit_false());
    }
    v
}

fn mode_tag_vec(m: Mode) -> (v: Vec<u8>)
    ensures
        v@ == mode_tag(m),
{
    let mut v: Vec<u8> = Vec::new();
    match m {
        Mode::Work => {
            v.push(87);
            v.push(111);
            v.push(114);
            v.push(107);
        }
        Mode::Short => {
            v.push(83);
            v.push(104);
            v.push(111);
            v.push(114);
            v.push(116);
        }
        Mode::Long => {
            v.push(76);
            v.push(111);
            v.push(110);
            v.push(103);
        }
    }
    proof {
        assert(v@ =~= mode_tag(m));
    }
    v
}

// --- executable encoder ---

/// `enc_entries_bytes` grows entry by entry from the left.
proof fn lemma_enc_entries_push(a: Seq<(u32, u32)>, x: (u32, u32))
    requires
        a.len() >= 1,
    ensures
        enc_entries_bytes(a.push(x)) == enc_entries_bytes(a) + seq![44u8] + enc_entry_bytes(x),
    decreases a.len(),
{
    let p = a.push(x);
    if a.len() == 1 {
        assert(p.drop_first() =~= seq![x]);
        assert(p[0] == a[0]);
        assert(enc_entries_bytes(seq![x]) == enc_entry_bytes(x));
        assert(enc_entries_bytes(p) == enc_entry_bytes(a[0]) + (seq![44u8] + enc_entry_bytes(x)));
        assert(enc_entry_bytes(a[0]) + (seq![44u8] + enc_entry_bytes(x)) =~= enc_entries_bytes(a)
            + seq![44u8] + enc_entry_bytes(x));
    } else {
        assert(p.drop_first() =~= a.drop_first().push(x));
        lemma_enc_entries_push(a.drop_first(), x);
        assert(p[0] == a[0]);
        let a0 = enc_entry_bytes(a[0]);
        let adrop = enc_entries_bytes(a.drop_first());
        let xx = enc_entry_bytes(x);
        assert(enc_entries_bytes(p) == a0 + (seq![44u8] + (adrop + seq![44u8] + xx)));
        assert(enc_entries_bytes(a) == a0 + (seq![44u8] + adrop));
        assert(a0 + (seq![44u8] + (adrop + seq![44u8] + xx)) =~= (a0 + (seq![44u8] + adrop))
            + seq![44u8] + xx);
    }
}

fn push_entry(out: &mut Vec<u8>, e: (u32, u32))
    requires
        valid_key(e.0 as int),
    ensures
        final(out)@ == old(out)@ + enc_entry_bytes(e),
{
    proof {
        reveal_with_fuel(pow10, 11);
        assert(pow10(4) == 10000 && pow10(2) == 100 && pow10(10) == 10000000000);
    }
    let k = e.0;
    let y = k / 10000;
    let m = (k / 100) % 100;
    let d = k % 100;
    out.push(34);
    push_digits(out, y as u64, 4);
    out.push(45);
    push_digits(out, m as u64, 2);
    out.push(45);
    push_digits(out, d as u64, 2);
    out.push(34);
    out.push(58);
    push_digits(out, e.1 as u64, 10);
    proof {
        assert(out@ =~= old(out)@ + enc_entry_bytes(e));
    }
}

/// Writes the state out in the canonical form that `dec_state` reads back.
#[verifier::rlimit(100)]
pub fn encode_state(s: &PomodoroState) -> (out: Vec<u8>)
    requires
        s.wf(),
    ensures
        out@ == enc_state(state_model(*s)),
{
    proof {
        reveal_with_fuel(pow10, 11);
        assert(pow10(4) == 10000 && pow10(10) == 10000000000);
    }
    let ghost md = state_model(*s);
    let mut out: Vec<u8> = Vec::new();
    let mut piece = lit_header_vec();
    out.append(&mut piece);
    let mut piece = if s.is_running {
        lit_true_vec()
    } else {
        lit_false_vec()
    };
    out.append(&mut piece);
    let mut piece = lit_mode_vec();
    out.append(&mut piece);
    let mut piece = mode_tag_vec(s.mode);
    out.append(&mut piece);
    let mut piece = lit_remaining_vec();
    out.append(&mut piece);
    push_digits(&mut out, s.remaining as u64, 4);
    let mut piece = lit_sessions_vec();
    out.append(&mut piece);
    push_digits(&mut out, s.work_sessions as u64, 10);
    let mut piece = lit_contrib_vec();
    out.append(&mut piece);
    let ghost base = out@;
    let ghost es = s.contributions@;
    let n = s.contributions.entries.len();
    let mut idx: usize = 0;
    while idx < n
        invariant
            n == es.len(),
            es == s.contributions@,
            contrib_wf(es),
            0 <= idx <= n,
            out@ == base + enc_entries_bytes(es.take(idx as int)),
        decreases n - idx,
    {
        let e = s.contributions.entries[idx];
        if idx == 0 {
            push_entry(&mut out, e);
            proof {
                assert(es.take(1)[0] == es[0]);
                assert(enc_entries_bytes(es.take(1)) == enc_entry_bytes(es[0]));
            }
        } else {
            out.push(44);
            push_entry(&mut out, e);
            proof {
                lemma_enc_entries_push(es.take(idx as int), es[idx as int]);
                assert(es.take(idx as int).push(es[idx as int]) =~= es.take(idx + 1));
                assert(out@ =~= base + enc_entries_bytes(es.take(idx + 1)));
            }
        }
        idx += 1;
    }
    out.push(125);
    out.push(125);
    proof {
        assert(es.take(n as int) =~= es);
        assert(out@ =~= enc_state(md));
    }
    out
}

// --- executable decoder ---

fn eat_lit(bytes: &Vec<u8>, i: usize, lit: &Vec<u8>) -> (r: Option<usize>)
    requires
        i <= bytes@.len(),
    ensures
        match r {
            Some(j) => {
                &&& j == i + lit@.len()
                &&& j <= bytes@.len()
                &&& dec_lit(bytes@.skip(i as int), lit@) == Some(bytes@.skip(j as int))
            },
            None => dec_lit(bytes@.skip(i as int), lit@) is None,
        },
{
    let len = bytes.len();
    let l = lit.len();
    if l > len - i {
        return None;
    }
    let mut t: usize = 0;
    while t < l
        invariant
            i + l <= len,
            len == bytes@.len(),
            l == lit@.len(),
            0 <= t <= l,
            forall|q: int| 0 <= q < t ==> bytes@[i + q] == lit@[q],
        decreases l - t,
    {
        if bytes[i + t] != lit[t] {
            proof {
                let s = bytes@.skip(i as int);
                if dec_lit(s, lit@) is Some {
                    assert(s.take(l as int)[t as int] == s[t as int]);
                    assert(false);
                }
            }
            return None;
        }
        t += 1;
    }
    proof {
        let s = bytes@.skip(i as int);
        assert(s.take(l as int) =~= lit@);
        assert(s.skip(l as int) =~= bytes@.skip((i + l) as int));
    }
    Some(i + l)
}

fn parse_entry(bytes: &Vec<u8>, i: usize) -> (r: Option<(u32, u32, usize)>)
    requires
        i <= bytes@.len(),
    ensures
        match r {
            Some((k, v, j)) => {
                &&& j == i + 23
                &&& j <= bytes@.len()
                &&& dec_entry(bytes@.skip(i as int)) == Some(((k, v), bytes@.skip(j as int)))
            },
            None => dec_entry(bytes@.skip(i as int)) is None,
        },
{
    proof {
        reveal_with_fuel(pow10, 11);
        assert(pow10(4) == 10000 && pow10(2) == 100 && pow10(10) == 10000000000);
    }
    let ghost s = bytes@.skip(i as int);
    let len = bytes.len();
    if len - i < 23 {
        return None;
    }
    if bytes[i] != 34 || bytes[i + 5] != 45 || bytes[i + 8] != 45 || bytes[i + 11] != 34 || bytes[i
        + 12] != 58 {
        return None;
    }
    proof {
        assert(s.subrange(1, 5) =~= bytes@.subrange(i + 1, i + 5));
        assert(s.subrange(6, 8) =~= bytes@.subrange(i + 6, i + 8));
        assert(s.subrange(9, 11) =~= bytes@.subrange(i + 9, i + 11));
        assert(s.subrange(13, 23) =~= bytes@.subrange(i + 13, i + 23));
    }
    let y = match parse_digits(bytes, i + 1, 4) {
        Some(n) => n,
        None => {
            return None;
        },
    };
    let m = match parse_digits(bytes, i + 6, 2) {
        Some(n) => n,
        None => {
            return None;
        },
    };
    let d = match parse_digits(bytes, i + 9, 2) {
        Some(n) => n,
        None => {
            return None;
        },
    };
    let c = match parse_digits(bytes, i + 13, 10) {
        Some(n) => n,
        None => {
            return None;
        },
    };
    if c > 0xffff_ffff {
        return None;
    }
    proof {
        lemma_dec_val_bound(s.subrange(1, 5));
        lemma_dec_val_bound(s.subrange(6, 8));
        lemma_dec_val_bound(s.subrange(9, 11));
        assert(s.skip(23) =~= bytes@.skip((i + 23) as int));
    }
    let k = (y * 10000 + m * 100 + d) as u32;
    Some((k, c as u32, i + 23))
}

fn parse_entries(bytes: &Vec<u8>, i: usize, lo: Option<u32>) -> (r: Option<(Vec<(u32, u32)>, usize)>)
    requires
        i <= bytes@.len(),
    ensures
        match r {
            Some((es, j)) => {
                &&& j <= bytes@.len()
                &&& dec_entries(bytes@.skip(i as int), lo) == Some((es@, bytes@.skip(j as int)))
            },
            None => dec_entries(bytes@.skip(i as int), lo) is None,
        },
    decreases bytes@.len() - i,
{
    let ghost s = bytes@.skip(i as int);
    let len = bytes.len();
    if i < len && bytes[i] == 125 {
        proof {
            assert(s.take(1) =~= seq![125u8]);
            assert(s.skip(1) =~= bytes@.skip((i + 1) as int));
        }
        let es: Vec<(u32, u32)> = Vec::new();
        proof {
            assert(es@ =~= Seq::<(u32, u32)>::empty());
        }
        return Some((es, i + 1));
    }
    proof {
        if dec_lit(s, seq![125u8]) is Some {
            assert(s.take(1)[0] == s[0]);
            assert(false);
        }
    }
    let (k, v, j1) = match parse_entry(bytes, i) {
        Some(t) => t,
        None => {
            return None;
        },
    };
    let ok = match lo {
        None => true,
        Some(p) => p < k,
    };
    if !ok || !is_valid_key(k) {
        return None;
    }
    let ghost r1 = bytes@.skip(j1 as int);
    if j1 < len && bytes[j1] == 44 {
        proof {
            assert(r1.take(1) =~= seq![44u8]);
            assert(r1.skip(1) =~= bytes@.skip((j1 + 1) as int));
        }
        match parse_entries(bytes, j1 + 1, Some(k)) {
            Some((mut rest, j3)) => {
                rest.insert(0, (k, v));
                proof {
                    assert(rest@ =~= seq![(k, v)] + rest@.skip(1));
                }
                return Some((rest, j3));
            },
            None => {
                return None;
            },
        }
    }
    proof {
        if dec_lit(r1, seq![44u8]) is Some {
            assert(r1.take(1)[0] == r1[0]);
            assert(false);
        }
    }
    if j1 < len && bytes[j1] == 125 {
        proof {
            assert(r1.take(1) =~= seq![125u8]);
            assert(r1.skip(1) =~= bytes@.skip((j1 + 1) as int));
        }
        let mut es: Vec<(u32, u32)> = Vec::new();
        es.push((k, v));
        proof {
            assert(es@ =~= seq![(k, v)]);
        }
        return Some((es, j1 + 1));
    }
    proof {
        if dec_lit(r1, seq![125u8]) is Some {
            assert(r1.take(1)[0] == r1[0]);
            assert(false);
        }
    }
    None
}

/// Whatever a successful read of the entry list returns is a well-formed
/// ledger whose keys all exceed the bound.
proof fn lemma_dec_entries_wf(s: Seq<u8>, lo: Option<u32>)
    ensures
        (dec_entries(s, lo) matches Some(p) ==> contrib_wf(p.0) && (forall|i: int|
            0 <= i < p.0.len() ==> key_gt(lo, #[trigger] p.0[i].0))),
    decreases s.len(),
{
    if dec_lit(s, seq![125u8]) is Some {
    } else {
        match dec_entry(s) {
            None => {},
            Some(((k, v), r1)) => {
                if key_gt(lo, k) && valid_key(k as int) {
                    match dec_lit(r1, seq![44u8]) {
                        Some(r2) => {
                            lemma_dec_entries_wf(r2, Some(k));
                            match dec_entries(r2, Some(k)) {
                                Some((rest, r3)) => {
                                    let es = seq![(k, v)] + rest;
                                    assert forall|a: int, b: int| 0 <= a < b < es.len() implies
                                        es[a].0 < es[b].0 by {
                                        if a == 0 {
                                            assert(es[b] == rest[b - 1]);
                                            assert(key_gt(Some(k), rest[b - 1].0));
                                        } else {
                                            assert(es[a] == rest[a - 1] && es[b] == rest[b - 1]);
                                        }
                                    }
                                    assert forall|a: int| 0 <= a < es.len() implies valid_key(
                                        #[trigger] es[a].0 as int,
                                    ) by {
                                        if a > 0 {
                                            assert(es[a] == rest[a - 1]);
                                        }
                                    }
                                    assert forall|a: int| 0 <= a < es.len() implies key_gt(
                                        lo,
                                        #[trigger] es[a].0,
                                    ) by {
                                        if a > 0 {
                                            assert(es[a] == rest[a - 1]);
                                            assert(key_gt(Some(k), rest[a - 1].0));
                                        }
                                    }
                                },
                                None => {},
                            }
                        },
                        None => {},
                    }
                }
            },
        }
    }
}

fn eat_digits(bytes: &Vec<u8>, i: usize, w: usize) -> (r: Option<(u64, usize)>)
    requires
        w <= 10,
        i <= bytes@.len(),
    ensures
        match r {
            Some(p) => {
                &&& p.1 == i + w
                &&& p.1 <= bytes@.len()
                &&& dec_digits(bytes@.skip(i as int), w as nat) == Some(
                    (p.0 as nat, bytes@.skip(p.1 as int)),
                )
                &&& p.0 < pow10(w as nat)
            },
            None => dec_digits(bytes@.skip(i as int), w as nat) is None,
        },
{
    let ghost s = bytes@.skip(i as int);
    let len = bytes.len();
    match parse_digits(bytes, i, w) {
        Some(n) => {
            proof {
                assert(i + w <= len);
                assert(s.take(w as int) =~= bytes@.subrange(i as int, i + w));
                assert(s.skip(w as int) =~= bytes@.skip((i + w) as int));
                lemma_dec_val_bound(s.take(w as int));
            }
            Some((n, i + w))
        },
        None => {
            proof {
                if dec_digits(s, w as nat) is Some {
                    assert(s.take(w as int) =~= bytes@.subrange(i as int, i + w));
                }
            }
            None
        },
    }
}

/// Reads a state file back. Returns exactly what the grammar `dec_state`
/// derives, and only well-formed states.
#[verifier::rlimit(100)]
pub fn decode_state(bytes: &Vec<u8>) -> (r: Option<PomodoroState>)
    ensures
        match r {
            Some(st) => st.wf() && dec_state(bytes@) == Some(state_model(st)),
            None => dec_state(bytes@) is None,
        },
{
    proof {
        assert(bytes@.skip(0) =~= bytes@);
        reveal_with_fuel(pow10, 11);
        assert(pow10(4) == 10000 && pow10(10) == 10000000000);
    }
    let hdr = lit_header_vec();
    let i1 = match eat_lit(bytes, 0, &hdr) {
        Some(j) => j,
        None => {
            return None;
        },
    };
    let tv = lit_true_vec();
    let fv = lit_false_vec();
    let (bval, i2) = match eat_lit(bytes, i1, &tv) {
        Some(j) => (true, j),
        None => match eat_lit(bytes, i1, &fv) {
            Some(j) => (false, j),
            None => {
                return None;
            },
        },
    };
    let lm = lit_mode_vec();
    let i3 = match eat_lit(bytes, i2, &lm) {
        Some(j) => j,
        None => {
            return None;
        },
    };
    let wt = mode_tag_vec(Mode::Work);
    let st_ = mode_tag_vec(Mode::Short);
    let lt = mode_tag_vec(Mode::Long);
    let (md, i4) = match eat_lit(bytes, i3, &wt) {
        Some(j) => (Mode::Work, j),
        None => match eat_lit(bytes, i3, &st_) {
            Some(j) => (Mode::Short, j),
            None => match eat_lit(bytes, i3, &lt) {
                Some(j) => (Mode::Long, j),
                None => {
                    return None;
                },
            },
        },
    };
    let lr = lit_remaining_vec();
    let i5 = match eat_lit(bytes, i4, &lr) {
        Some(j) => j,
        None => {
            return None;
        },
    };
    let (rem, i6) = match eat_digits(bytes, i5, 4) {
        Some(p) => p,
        None => {
            return None;
        },
    };
    let ls = lit_sessions_vec();
    let i7 = match eat_lit(bytes, i6, &ls) {
        Some(j) => j,
        None => {
            return None;
        },
    };
    let (ws, i8) = match eat_digits(bytes, i7, 10) {
        Some(p) => p,
        None => {
            return None;
        },
    };
    let lc = lit_contrib_vec();
    let i9 = match eat_lit(bytes, i8, &lc) {
        Some(j) => j,
        None => {
            return None;
        },
    };
    let (es, i10) = match parse_entries(bytes, i9, None) {
        Some(t) => t,
        None => {
            return None;
        },
    };
    let ghost r10 = bytes@.skip(i10 as int);
    let len = bytes.len();
    if !(i10 < len && bytes[i10] == 125) {
        proof {
            if dec_lit(r10, seq![125u8]) is Some {
                assert(r10.take(1)[0] == r10[0]);
                assert(false);
            }
        }
        return None;
    }
    proof {
        assert(r10.take(1) =~= seq![125u8]);
        assert(r10.skip(1) =~= bytes@.skip((i10 + 1) as int));
    }
    let i11 = i10 + 1;
    if i11 != len {
        return None;
    }
    if ws > 0xffff_ffff {
        return None;
    }
    let remu = rem as u32;
    let dur = crate::modes::duration_of(md);
    if remu > dur {
        return None;
    }
    if bval && remu == 0 {
        return None;
    }
    proof {
        lemma_dec_entries_wf(bytes@.skip(i9 as int), None);
    }
    let st = PomodoroState {
        is_running: bval,
        mode: md,
        remaining: remu,
        work_sessions: ws as u32,
        contributions: Contributions { entries: es },
    };
    Some(st)
}

/// The startup policy: a present, well-formed state file is honored; a
/// missing or corrupted one falls back to the fresh default state.
pub fn load_state(content: Option<Vec<u8>>) -> (st: PomodoroState)
    ensures
        st.wf(),
        (match content {
            Some(b) => (match dec_state(b@) {
                Some(m) => state_model(st) == m,
                None => st.is_fresh(),
            }),
            None => st.is_fresh(),
        }),
{
    match content {
        None => PomodoroState::new(),
        Some(b) => match decode_state(&b) {
            Some(st) => st,
            None => PomodoroState::new(),
        },
    }
}

} // verus!
