//! The three timer phases and their fixed durations.

use vstd::prelude::*;

verus! {

/// A countdown phase: a work session, a short break, or a long break.
#[derive(Clone, Copy, PartialEq, Eq, Structural, Debug)]
pub enum Mode {
    Work,
    Short,
    Long,
}

pub const WORK_SECONDS: u32 = 1500;
pub const SHORT_BREAK_SECONDS: u32 = 300;
pub const LONG_BREAK_SECONDS: u32 = 900;

/// Total countdown length of a phase, in seconds.
pub open spec fn duration_spec(m: Mode) -> u32 {
    match m {
        Mode::Work => WORK_SECONDS,
        Mode::Short => SHORT_BREAK_SECONDS,
        Mode::Long => LONG_BREAK_SECONDS,
    }
}

pub fn duration_of(m: Mode) -> (r: u32)
    ensures
        r == duration_spec(m),
{
    match m {
        Mode::Work => WORK_SECONDS,
        Mode::Short => SHORT_BREAK_SECONDS,
        Mode::Long => LONG_BREAK_SECONDS,
    }
}

/// The short tag that names a mode in the persisted state file.
pub open spec fn mode_tag(m: Mode) -> Seq<u8> {
    match m {
        Mode::Work => seq![87, 111, 114, 107],
        Mode::Short => seq![83, 104, 111, 114, 116],
        Mode::Long => seq![76, 111, 110, 103],
    }
}

/// The human-readable name of a mode, as shown in history entries.
pub open spec fn mode_display(m: Mode) -> Seq<u8> {
    match m {
        Mode::Work => seq![87, 111, 114, 107],
        Mode::Short => seq![83, 104, 111, 114, 116, 32, 66, 114, 101, 97, 107],
        Mode::Long => seq![76, 111, 110, 103, 32, 66, 114, 101, 97, 107],
    }
}

/// UTF-8 bytes of the human-readable mode name.
pub fn mode_display_bytes(m: Mode) -> (v: Vec<u8>)
    ensures
        v@ == mode_display(m),
{
    let mut v: Vec<u8> = Vec::new();
    match m {
        Mode::Work => {
            v.push(87);
            v.push(111);
            v.push(114);
            v.push(107);
        }
        Mode::Short => {
            v.push(83);
            v.push(104);
            v.push(111);
            v.push(114);
            v.push(116);
            v.push(32);
            v.push(66);
            v.push(114);
            v.push(101);
            v.push(97);
            v.push(107);
        }
        Mode::Long => {
            v.push(76);
            v.push(111);
            v.push(110);
            v.push(103);
            v.push(32);
            v.push(66);
            v.push(114);
            v.push(101);
            v.push(97);
            v.push(107);
        }
    }
    proof {
        assert(v@ =~= mode_display(m));
    }
    v
}

} // verus!
