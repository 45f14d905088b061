//! The seedable random capability that drives branching decisions.
//!
//! The generator consumes raw 64-bit draws through the `RandomSource` trait
//! and records every draw it makes in a ghost history, so that the generated
//! graph can be stated as a pure function of the drawn values.  `StdRandom`
//! backs the trait with rand's standard generator; `ScriptRandom` replays a
//! fixed script — its draws are pinned to the script in its contract, so
//! scripted runs are reproducible by proof, not just by test.

use vstd::prelude::*;

verus! {

/// The value of a script at an index: past its end a scripted source keeps
/// returning zero.
pub open spec fn script_at(script: Seq<u64>, i: int) -> u64 {
    if 0 <= i < script.len() {
        script[i]
    } else {
        0
    }
}

/// A source of raw 64-bit draws.  `taken()` is the ghost record of every
/// value handed out so far, oldest first.  A source that declares itself
/// `scripted()` pins each draw in advance: the value at record index `i` is
/// `script_at(script(), i)`, and the script never changes.
pub trait RandomSource {
    spec fn taken(&self) -> Seq<u64>;

    /// Whether this source replays a fixed script.
    spec fn scripted(&self) -> bool;

    /// The script a scripted source replays; meaningless otherwise.
    spec fn script(&self) -> Seq<u64>;

    /// Produce the next raw draw and append it to the record.
    fn next_raw(&mut self) -> (r: u64)
        ensures
            final(self).taken() == old(self).taken().push(r),
            old(self).scripted() ==> final(self).scripted() && final(self).script() == old(
                self,
            ).script() && r == script_at(old(self).script(), old(self).taken().len() as int),
    ;
}

/// The whole record of a scripted source agrees with its script.
pub open spec fn replays_script<R: RandomSource>(r: &R) -> bool {
    forall|i: int| 0 <= i < r.taken().len() ==> #[trigger] r.taken()[i] == script_at(r.script(), i)
}

/// One recorded draw extends the agreement between record and script.
pub proof fn lemma_replay_step<R: RandomSource>(pre: &R, post: &R, r: u64)
    requires
        replays_script(pre),
        post.taken() == pre.taken().push(r),
        post.script() == pre.script(),
        r == script_at(pre.script(), pre.taken().len() as int),
    ensures
        replays_script(post),
{
    assert forall|i: int| 0 <= i < post.taken().len() implies #[trigger] post.taken()[i]
        == script_at(post.script(), i) by {
        if i < pre.taken().len() {
            assert(post.taken()[i] == pre.taken()[i]);
        } else {
            assert(post.taken()[i] == r);
        }
    }
}

#[verifier::external_type_specification]
#[verifier::external_body]
/// Declares rand's `StdRng` so that it can be held in a field; the state is
/// opaque and nothing is assumed of it.
pub struct ExStdRng(rand::rngs::StdRng);

/// Relies on rand's `StdRng::seed_from_u64` (the `SeedableRng` trait): builds
/// generator state from a seed, deterministically per rand's documentation.
/// Nothing is assumed about the opaque state.
#[verifier::external_body]
fn seed_std_rng(seed: u64) -> rand::rngs::StdRng {
    <rand::rngs::StdRng as rand::SeedableRng>::seed_from_u64(seed)
}

/// Relies on rand's `RngCore::next_u64` for `StdRng`: yields the generator's
/// next value.  No property of the value is assumed.
#[verifier::external_body]
fn next_std_u64(rng: &mut rand::rngs::StdRng) -> u64 {
    rand::RngCore::next_u64(rng)
}

/// A random source backed by rand's standard generator.  Nothing is pinned
/// about the values it draws; properties of a generated graph are stated
/// over its record of draws.
pub struct StdRandom {
    rng: rand::rngs::StdRng,
    history: Ghost<Seq<u64>>,
}

impl StdRandom {
    /// Seed a fresh source; its record starts empty.
    pub fn from_seed(seed: u64) -> (s: StdRandom)
        ensures
            s.taken() == Seq::<u64>::empty(),
    {
        StdRandom { rng: seed_std_rng(seed), history: Ghost(Seq::empty()) }
    }
}

impl RandomSource for StdRandom {
    closed spec fn taken(&self) -> Seq<u64> {
        self.history@
    }

    closed spec fn scripted(&self) -> bool {
        false
    }

    closed spec fn script(&self) -> Seq<u64> {
        Seq::empty()
    }

    fn next_raw(&mut self) -> (r: u64) {
        let r = next_std_u64(&mut self.rng);
        self.history = Ghost(self.history@.push(r));
        r
    }
}

/// A random source that replays a fixed script of draws; once the script is
/// exhausted it keeps returning zero.
pub struct ScriptRandom {
    script: Vec<u64>,
    cursor: usize,
    history: Ghost<Seq<u64>>,
}

impl ScriptRandom {
    /// The cursor tracks the record until the script runs out, then rests at
    /// its end.
    #[verifier::type_invariant]
    spec fn wf(&self) -> bool {
        if self.history@.len() < self.script@.len() {
            self.cursor as int == self.history@.len() as int
        } else {
            self.cursor as int >= self.script@.len() as int
        }
    }

    /// Wrap a script; the record starts empty.
    pub fn from_script(script: Vec<u64>) -> (s: ScriptRandom)
        ensures
            s.taken() == Seq::<u64>::empty(),
            s.scripted(),
            s.script() == script@,
    {
        ScriptRandom { script, cursor: 0, history: Ghost(Seq::empty()) }
    }
}

impl RandomSource for ScriptRandom {
    closed spec fn taken(&self) -> Seq<u64> {
        self.history@
    }

    closed spec fn scripted(&self) -> bool {
        true
    }

    closed spec fn script(&self) -> Seq<u64> {
        self.script@
    }

    fn next_raw(&mut self) -> (r: u64) {
        proof {
            use_type_invariant(&*self);
        }
        let mut tmp = ScriptRandom { script: Vec::new(), cursor: 0, history: Ghost(Seq::empty()) };
        core::mem::swap(self, &mut tmp);
        let ScriptRandom { script, cursor, history } = tmp;
        let (r, cursor2) = if cursor < script.len() {
            (script[cursor], cursor + 1)
        } else {
            (0u64, cursor)
        };
        *self = ScriptRandom { script, cursor: cursor2, history: Ghost(history@.push(r)) };
        r
    }
}

} // verus!
