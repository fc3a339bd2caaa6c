//! The timer state machine: mode cycling, the one-second tick, and session
//! completion.

use vstd::prelude::*;

use crate::contrib::{contrib_wf, sat_inc, seq_get, Contributions};
use crate::date::valid_key;
use crate::modes::{duration_of, duration_spec, Mode, WORK_SECONDS};

verus! {

/// The whole mutable state of the timer.
pub struct PomodoroState {
    pub is_running: bool,
    pub mode: Mode,
    pub remaining: u32,
    pub work_sessions: u32,
    pub contributions: Contributions,
}

impl PomodoroState {
    /// The countdown never exceeds the mode's duration, a countdown that ran
    /// out is paused, and the ledger is well formed.
    pub open spec fn wf(self) -> bool {
        &&& self.remaining <= duration_spec(self.mode)
        &&& (self.is_running ==> self.remaining > 0)
        &&& contrib_wf(self.contributions@)
    }

    /// The fresh default state: paused at the start of a work session, with
    /// nothing recorded.
    pub open spec fn is_fresh(self) -> bool {
        &&& self.is_running == false
        &&& self.mode == Mode::Work
        &&& self.remaining == WORK_SECONDS
        &&& self.work_sessions == 0
        &&& self.contributions@ == Seq::<(u32, u32)>::empty()
    }

    pub fn new() -> (s: PomodoroState)
        ensures
            s.wf(),
            s.is_fresh(),
    {
        PomodoroState {
            is_running: false,
            mode: Mode::Work,
            remaining: WORK_SECONDS,
            work_sessions: 0,
            contributions: Contributions::new(),
        }
    }

    /// Starts the countdown: a no-op when already running, and — so that a
    /// countdown that ran out stays paused until it is reset — when no time
    /// remains.
    pub fn start(&mut self)
        requires
            old(self).wf(),
        ensures
            final(self).wf(),
            old(self).remaining > 0 ==> *final(self) == (PomodoroState {
                is_running: true,
                ..*old(self)
            }),
            old(self).remaining == 0 ==> *final(self) == *old(self),
    {
        if self.remaining > 0 {
            self.is_running = true;
        }
    }

    /// Pauses the countdown. A no-op when already paused.
    pub fn pause(&mut self)
        requires
            old(self).wf(),
        ensures
            final(self).wf(),
            *final(self) == (PomodoroState { is_running: false, ..*old(self) }),
    {
        self.is_running = false;
    }

    /// Abandons any partial progress: paused, in `mode`, with the full
    /// duration ahead. Session counts and contributions are untouched.
    pub fn reset(&mut self, mode: Mode)
        requires
            old(self).wf(),
        ensures
            final(self).wf(),
            *final(self) == (PomodoroState {
                is_running: false,
                mode: mode,
                remaining: duration_spec(mode),
                ..*old(self)
            }),
    {
        self.is_running = false;
        self.mode = mode;
        self.remaining = duration_of(mode);
    }

    /// What completing a phase does to the state, whether the countdown ran
    /// out or the phase was skipped: a finished work session bumps the session
    /// count and today's contribution and is followed by a break — a long one
    /// after every fourth session — while a finished break only leads back to
    /// work. Either way the timer is left paused at the next phase's full
    /// duration.
    pub open spec fn complete_post(pre: PomodoroState, post: PomodoroState, today: u32) -> bool {
        &&& post.is_running == false
        &&& post.remaining == duration_spec(post.mode)
        &&& (pre.mode == Mode::Work ==> {
            &&& post.work_sessions == sat_inc(pre.work_sessions)
            &&& post.mode == (if post.work_sessions % 4 == 0 {
                Mode::Long
            } else {
                Mode::Short
            })
            &&& seq_get(post.contributions@, today as int) == sat_inc(
                seq_get(pre.contributions@, today as int),
            )
            &&& forall|k: int|
                k != today ==> seq_get(post.contributions@, k) == seq_get(
                    pre.contributions@,
                    k,
                )
        })
        &&& (pre.mode != Mode::Work ==> {
            &&& post.mode == Mode::Work
            &&& post.work_sessions == pre.work_sessions
            &&& post.contributions@ == pre.contributions@
        })
    }

    /// Finishes the current phase — by natural expiry or by an explicit skip —
    /// and moves to the next one. Returns the mode that just ended.
    pub fn complete(&mut self, today: u32) -> (ended: Mode)
        requires
            old(self).wf(),
            valid_key(today as int),
        ensures
            final(self).wf(),
            ended == old(self).mode,
            Self::complete_post(*old(self), *final(self), today),
    {
        let ended = self.mode;
        if ended == Mode::Work {
            self.work_sessions = if self.work_sessions < u32::MAX {
                self.work_sessions + 1
            } else {
                self.work_sessions
            };
            self.contributions.increment(today);
            if self.work_sessions % 4 == 0 {
                self.reset(Mode::Long);
            } else {
                self.reset(Mode::Short);
            }
        } else {
            self.reset(Mode::Work);
        }
        ended
    }

    /// One second of countdown. Does nothing while paused; while running it
    /// decrements the remaining time and, when that reaches zero, completes
    /// the phase. Returns whether a phase completed.
    pub fn tick(&mut self, today: u32) -> (completed: bool)
        requires
            old(self).wf(),
            valid_key(today as int),
        ensures
            final(self).wf(),
            completed == (old(self).is_running && old(self).remaining == 1),
            !old(self).is_running ==> *final(self) == *old(self),
            (old(self).is_running && old(self).remaining > 1) ==> *final(self) == (PomodoroState {
                remaining: (old(self).remaining - 1) as u32,
                ..*old(self)
            }),
            completed ==> Self::complete_post(*old(self), *final(self), today),
    {
        if self.is_running {
            if self.remaining > 1 {
                self.remaining = self.remaining - 1;
                false
            } else {
                self.remaining = 0;
                self.is_running = false;
                self.complete(today);
                true
            }
        } else {
            false
        }
    }

    /// Runtime check of the state invariant, for callers outside the
    /// verified core.
    pub fn check_wf(&self) -> (b: bool)
        ensures
            b == self.wf(),
    {
        if self.remaining > duration_of(self.mode) {
            return false;
        }
        if self.is_running && self.remaining == 0 {
            return false;
        }
        self.contributions.check_wf()
    }
}

/// A finished work session advances the session count by exactly one and is
/// followed by a long break precisely after every fourth session, as long
/// as the count sits below its u32 saturation ceiling.
pub proof fn lemma_work_completion_mode(pre: PomodoroState, post: PomodoroState, today: u32)
    requires
        pre.mode == Mode::Work,
        pre.work_sessions < u32::MAX,
        PomodoroState::complete_post(pre, post, today),
    ensures
        post.work_sessions == pre.work_sessions + 1,
        post.mode == (if (pre.work_sessions + 1) % 4 == 0 {
            Mode::Long
        } else {
            Mode::Short
        }),
{
}

/// A finished work session counts exactly once toward the day it ends on —
/// the entry is created at one when absent — as long as the day's count
/// sits below its u32 saturation ceiling. Every other day is untouched.
pub proof fn lemma_work_completion_contribution(
    pre: PomodoroState,
    post: PomodoroState,
    today: u32,
)
    requires
        pre.mode == Mode::Work,
        seq_get(pre.contributions@, today as int) < u32::MAX,
        PomodoroState::complete_post(pre, post, today),
    ensures
        seq_get(post.contributions@, today as int) == seq_get(pre.contributions@, today as int)
            + 1,
        forall|k: int| k != today ==> seq_get(post.contributions@, k) == seq_get(
            pre.contributions@,
            k,
        ),
{
}

} // verus!
