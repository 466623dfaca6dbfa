//! Where the random words of a trial come from.

use rand::rngs::ThreadRng;
use vstd::prelude::*;

verus! {

#[verifier::external_type_specification]
#[verifier::external_body]
pub struct ExThreadRng(ThreadRng);

/// A supply of uniformly random 64-bit words, owned by one worker.
///
/// Nothing is assumed of the words it yields; `drawn` records them, in
/// order, so that a trial can be stated over exactly what it drew.
pub trait WordSource {
    /// Every word yielded so far, oldest first.
    ///
    /// A verified source must give its own record: with this default no
    /// `next_word` meets its contract.
    open spec fn drawn(&self) -> Seq<u64> {
        Seq::empty()
    }

    fn next_word(&mut self) -> (r: u64)
        ensures
            final(self).drawn() == old(self).drawn().push(r),
    ;
}

/// Relies on `rand::thread_rng`: a handle on the generator of the calling thread.
#[verifier::external_body]
fn thread_generator() -> ThreadRng {
    rand::thread_rng()
}

/// Relies on `rand::Rng::gen::<u64>`: a uniformly random word.
#[verifier::external_body]
fn draw_word(rng: &mut ThreadRng) -> u64 {
    rand::Rng::gen::<u64>(rng)
}

/// Random words from the generator of the thread that created it.
pub struct ThreadSource {
    rng: ThreadRng,
    history: Ghost<Seq<u64>>,
}

impl ThreadSource {
    pub fn new() -> (r: ThreadSource)
        ensures
            r.drawn() == Seq::<u64>::empty(),
    {
        ThreadSource { rng: thread_generator(), history: Ghost(Seq::empty()) }
    }
}

impl WordSource for ThreadSource {
    closed spec fn drawn(&self) -> Seq<u64> {
        self.history@
    }

    fn next_word(&mut self) -> (r: u64) {
        let w = draw_word(&mut self.rng);
        self.history = Ghost(self.history@.push(w));
        w
    }
}

} // verus!
