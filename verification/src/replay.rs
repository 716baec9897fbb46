//! Procedures that talk to hardware, as functions of the replies so far.
//!
//! A procedure asks for one action after another and decides by the replies.
//! It is written as a function of the replies that have come in: run again with
//! one more reply, it takes the same path and goes one action further. Whoever
//! drives it performs the action that it asks for, appends the reply and runs it
//! once more, until it gives a result.
//!
//! Every reply is a number: a flag counts as set unless it is zero, a byte is the
//! low eight bits, and the reply to an action that has none is not looked at.

use vstd::prelude::*;

verus! {

/// How a run of a procedure ends, with the replies that there are.
pub enum Run<A, T> {
    /// The replies are used up: this action comes next.
    Wants(A),
    /// A result, and the number of replies that it took.
    Gives(T, int),
}

/// What a procedure tells whoever drives it.
pub enum Step<A, T> {
    /// Perform this, append the reply and run the procedure again.
    Ask(A),
    /// The procedure has come to its end.
    Done(T),
}

/// Asking for `a` where `pos` replies have been used.
pub open spec fn asked<A>(replies: Seq<u64>, pos: int, a: A) -> Run<A, u64> {
    if pos < replies.len() {
        Run::Gives(replies[pos], pos + 1)
    } else {
        Run::Wants(a)
    }
}

/// `run`, and what `next` makes of its result from there on.
pub open spec fn follow<A, T, U>(run: Run<A, T>, next: spec_fn(T, int) -> Run<A, U>) -> Run<A, U> {
    match run {
        Run::Wants(a) => Run::Wants(a),
        Run::Gives(v, pos) => next(v, pos),
    }
}

/// A reply that stands for yes or no.
pub open spec fn is_set(reply: u64) -> bool {
    reply != 0
}

/// A reply that stands for a byte.
pub open spec fn low_byte(reply: u64) -> u8 {
    (reply % 256) as u8
}

/// What the driver of a procedure is told at the end of a run.
pub open spec fn told<A, T>(run: Run<A, T>) -> Step<A, T> {
    match run {
        Run::Wants(a) => Step::Ask(a),
        Run::Gives(v, _) => Step::Done(v),
    }
}

/// The replies, and how far a run has come in them.
pub struct Link<A> {
    pub replies: Vec<u64>,
    pub used: usize,
    /// The action that the run stopped at.
    pub wanted: Option<A>,
}

impl<A> Link<A> {
    pub open spec fn inv(self) -> bool {
        self.used <= self.replies@.len()
    }

    /// From `self` on, a part of the procedure has come to `after` and handed back
    /// `r`, which is nothing where the replies gave out, and this is what `run`
    /// says.
    pub open spec fn went<T>(self, after: Self, r: Option<T>, run: Run<A, T>) -> bool {
        &&& after.inv()
        &&& after.replies == self.replies
        &&& match run {
            Run::Wants(a) => r is None && after.wanted == Some(a),
            Run::Gives(v, pos) => r == Some(v) && after.used == pos,
        }
    }

    /// A run from the start.
    pub fn start(replies: Vec<u64>) -> (r: Self)
        ensures
            r.inv(),
            r.replies == replies,
            r.used == 0,
    {
        Link { replies, used: 0, wanted: None }
    }

    /// Asks for an action: the reply, if it is there.
    pub fn ask(&mut self, a: A) -> (r: Option<u64>)
        requires
            old(self).inv(),
        ensures
            old(self).went(*final(self), r, asked(old(self).replies@, old(self).used as int, a)),
    {
        if self.used < self.replies.len() {
            let reply: u64 = self.replies[self.used];
            self.used = self.used + 1;
            Some(reply)
        } else {
            self.wanted = Some(a);
            None
        }
    }

    /// Asks for an action that is answered by yes or no.
    pub fn ask_flag(&mut self, a: A) -> (r: Option<bool>)
        requires
            old(self).inv(),
        ensures
            old(self).went(
                *final(self),
                r,
                match asked(old(self).replies@, old(self).used as int, a) {
                    Run::Wants(w) => Run::Wants(w),
                    Run::Gives(v, pos) => Run::Gives(is_set(v), pos),
                },
            ),
    {
        match self.ask(a) {
            Some(v) => Some(v != 0),
            None => None,
        }
    }

    /// Asks for an action that is answered by a byte.
    pub fn ask_byte(&mut self, a: A) -> (r: Option<u8>)
        requires
            old(self).inv(),
        ensures
            old(self).went(
                *final(self),
                r,
                match asked(old(self).replies@, old(self).used as int, a) {
                    Run::Wants(w) => Run::Wants(w),
                    Run::Gives(v, pos) => Run::Gives(low_byte(v), pos),
                },
            ),
    {
        match self.ask(a) {
            Some(v) => Some((v % 256) as u8),
            None => None,
        }
    }

    /// What to tell the driver at the end of a run.
    pub fn finish<T>(self, r: Option<T>) -> (s: Step<A, T>)
        requires
            r is None ==> self.wanted is Some,
        ensures
            s == (match r {
                Some(v) => Step::Done(v),
                None => Step::Ask(self.wanted->0),
            }),
    {
        match r {
            Some(v) => Step::Done(v),
            None => match self.wanted {
                Some(a) => Step::Ask(a),
                None => {
                    assert(false);
                    vstd::pervasive::unreached()
                },
            },
        }
    }
}

} // verus!
