//! The word that a broadcast channel waits on.
//!
//! One sender, several receivers. The word counts the receivers that still have to handle
//! the message and carries a generation bit, which flips with every message so that no
//! receiver takes the same one twice. Sleeping on the word and keeping the message happen
//! elsewhere; what each side does with the word is decided here.

use std::sync::atomic::{AtomicBool, AtomicU32, Ordering};

use vstd::prelude::*;

verus! {

/// How many receivers have not handled the message of `word`.
pub open spec fn outstanding(word: u32) -> int {
    word as int % 0x8000_0000
}

/// The generation of the message of `word`.
pub open spec fn generation(word: u32) -> bool {
    word >= 0x8000_0000
}

/// The word for `remaining` receivers and a generation.
pub fn pack(remaining: u32, generation: bool) -> (w: u32)
    requires
        remaining < 0x8000_0000,
    ensures
        outstanding(w) == remaining,
        self::generation(w) == generation,
{
    if generation {
        remaining + 0x8000_0000
    } else {
        remaining
    }
}

/// The parts of a word.
pub fn unpack(word: u32) -> (r: (u32, bool))
    ensures
        r.0 == outstanding(word),
        r.1 == generation(word),
{
    (word % 0x8000_0000, word >= 0x8000_0000)
}

/// The word that announces a new message to `receivers` receivers.
pub fn announce(word: u32, receivers: u32) -> (w: u32)
    requires
        receivers < 0x8000_0000,
    ensures
        outstanding(w) == receivers,
        generation(w) == !generation(word),
{
    let (_, g) = unpack(word);
    pack(receivers, !g)
}

/// What a receiver does on seeing the word.
#[derive(Clone, Copy, Debug, PartialEq, Eq, Structural)]
pub enum Step {
    /// The channel is shut down.
    Exit,
    /// There is a message it has not handled.
    Take,
    /// Nothing yet.
    Wait,
}

/// The step of a receiver that expects generation `expected`: it leaves when it is told to, and
/// takes a message that lies ready in the generation it expects.
pub open spec fn step_for(word: u32, exit: bool, ready: bool, expected: bool) -> Step {
    if exit {
        Step::Exit
    } else if ready && generation(word) == expected {
        Step::Take
    } else {
        Step::Wait
    }
}

/// What a receiver that expects generation `expected` does on seeing the word.
pub fn receive(word: u32, exit: bool, ready: bool, expected: bool) -> (s: Step)
    ensures
        s == step_for(word, exit, ready, expected),
{
    if exit {
        Step::Exit
    } else if ready && unpack(word).1 == expected {
        Step::Take
    } else {
        Step::Wait
    }
}

/// Whether the receiver that has just counted itself off `word` was the last and has to
/// wake the sender.
pub fn last_one(word: u32) -> (r: bool)
    ensures
        r == (outstanding(word) == 1),
{
    unpack(word).0 == 1
}

/// Whether the sender may free the message.
pub fn all_done(word: u32) -> (r: bool)
    ensures
        r == (outstanding(word) == 0),
{
    unpack(word).0 == 0
}

/// A receiver that has counted itself off lowers the count by one and leaves the
/// generation.
pub proof fn law_counting_off_keeps_the_generation(word: u32)
    requires
        outstanding(word) > 0,
    ensures
        outstanding((word - 1) as u32) == outstanding(word) - 1,
        generation((word - 1) as u32) == generation(word),
{
}

/// A receiver that has taken a message and flipped what it expects does not take it again,
/// and takes the next one.
pub proof fn law_no_message_is_taken_twice(word: u32, next: u32, expected: bool)
    requires
        generation(word) == expected,
        generation(next) == !generation(word),
    ensures
        generation(word) != !expected,
        generation(next) == !expected,
{
}

/// Wakes every thread that sleeps on the word, by [`atomic_wait::wake_all`]. Nothing is
/// claimed of it: it changes no value, and which threads sleep is not known here.
#[verifier::external_body]
fn wake_sleepers(word: &AtomicU32) {
    atomic_wait::wake_all(word);
}

/// What the two sides of a channel share beside the message.
pub struct Signal {
    pub word: AtomicU32,
    pub ready: AtomicBool,
    pub exit: AtomicBool,
    pub receivers: u32,
}

impl Signal {
    /// The count of receivers leaves room for the generation bit.
    pub open spec fn wf(self) -> bool {
        self.receivers < 0x8000_0000
    }

    /// No message yet.
    pub fn new(receivers: u32) -> (s: Signal)
        requires
            receivers < 0x8000_0000,
        ensures
            s.wf(),
            s.receivers == receivers,
    {
        Signal {
            word: AtomicU32::new(pack(0, false)),
            ready: AtomicBool::new(false),
            exit: AtomicBool::new(false),
            receivers,
        }
    }

    /// Announces the message that now lies ready, and wakes the receivers. The word it
    /// stored comes back.
    pub fn send(&self) -> (w: u32)
        requires
            self.wf(),
        ensures
            outstanding(w) == self.receivers,
    {
        self.ready.store(true, Ordering::Release);
        let w: u32 = announce(self.word.load(Ordering::Relaxed), self.receivers);
        self.word.store(w, Ordering::Release);
        wake_sleepers(&self.word);
        w
    }

    /// Whether every receiver has handled the message, and the word that says so: the one to
    /// sleep on otherwise.
    pub fn poll_done(&self) -> (r: (bool, u32))
        ensures
            r.0 == (outstanding(r.1) == 0),
    {
        let w: u32 = self.word.load(Ordering::Acquire);
        let done = all_done(w);
        if done {
            self.ready.store(false, Ordering::Release);
        }
        (done, w)
    }

    /// What a receiver that expects generation `expected` is to do, and the word it saw. Whether
    /// it was told to leave, and whether a message lies ready, is read beside the word.
    pub fn poll(&self, expected: bool) -> (r: (Step, u32))
        ensures
            exists|exit: bool, ready: bool| r.0 == #[trigger] step_for(r.1, exit, ready, expected),
    {
        let w: u32 = self.word.load(Ordering::Acquire);
        let exit = self.exit.load(Ordering::Acquire);
        let ready = self.ready.load(Ordering::Acquire);
        let r = (receive(w, exit, ready, expected), w);
        assert(r.0 == step_for(r.1, exit, ready, expected));
        r
    }

    /// Counts a receiver off. The last one wakes the sender; whether it was comes back with
    /// the word before.
    pub fn count_off(&self) -> (r: (bool, u32))
        ensures
            r.0 == (outstanding(r.1) == 1),
    {
        let w: u32 = self.word.fetch_sub(1, Ordering::Release);
        if last_one(w) {
            wake_sleepers(&self.word);
            (true, w)
        } else {
            (false, w)
        }
    }

    /// Tells every receiver to leave, and wakes them.
    pub fn wake(&self) {
        self.exit.store(true, Ordering::Release);
        wake_sleepers(&self.word);
    }
}

} // verus!
