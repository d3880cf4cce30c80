//! The source of randomness: uniform integer draws from the `rand` crate's
//! thread-local generator. Nothing in this module is proved; the contracts
//! below state what the walk relies on.

use rand::Rng;
use vstd::prelude::*;

verus! {

/// `rand::rngs::ThreadRng`, a handle to the generator of the current
/// thread. Its state is hidden from the verifier.
#[verifier::external_type_specification]
#[verifier::external_body]
pub struct ExThreadRng(rand::rngs::ThreadRng);

/// `rand::thread_rng` hands out the thread's generator. Nothing is claimed
/// about it.
pub assume_specification[ rand::thread_rng ]() -> (rng: rand::rngs::ThreadRng);

/// `Rng::gen_range` on the half-open range `0..bound`. The claim is the one
/// its documentation makes: the value lies in the range. The call panics on
/// an empty range, which `bound > 0` rules out.
#[verifier::external_body]
fn gen_below(rng: &mut rand::rngs::ThreadRng, bound: u128) -> (draw: u128)
    requires
        bound > 0,
    ensures
        draw < bound,
{
    rng.gen_range(0..bound)
}

/// A stream of uniform draws, together with a record of the numbers it has
/// handed out. The record exists for the proofs only: it lets a contract say
/// how many numbers a function took from the stream and what it did with
/// each of them.
pub struct RandomSource {
    rng: rand::rngs::ThreadRng,
    drawn: Ghost<Seq<u128>>,
}

impl RandomSource {
    /// The numbers handed out so far, oldest first.
    pub closed spec fn drawn(&self) -> Seq<u128> {
        self.drawn@
    }

    /// A source backed by the generator of the current thread. It has not
    /// handed out any number yet.
    pub fn new() -> (source: RandomSource)
        ensures
            source.drawn() == Seq::<u128>::empty(),
    {
        RandomSource { rng: rand::thread_rng(), drawn: Ghost(Seq::empty()) }
    }

    /// One draw, uniform over `0..bound`. The number is added to the record
    /// of what the source has handed out.
    pub fn below(&mut self, bound: u128) -> (draw: u128)
        requires
            bound > 0,
        ensures
            draw < bound,
            final(self).drawn() == old(self).drawn().push(draw),
    {
        let draw = gen_below(&mut self.rng, bound);
        proof {
            self.drawn@ = self.drawn@.push(draw);
        }
        draw
    }
}

} // verus!
