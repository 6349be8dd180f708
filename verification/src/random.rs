//! Pseudo-random draws.

use rand::rngs::SmallRng;
use rand::{Rng, SeedableRng};
use vstd::prelude::*;

verus! {

/// The generator [`rand::rngs::SmallRng`], carried through as an opaque value.
#[verifier::external_type_specification]
#[verifier::external_body]
pub struct ExSmallRng(SmallRng);

/// Calls [`rand::SeedableRng::seed_from_u64`]: a generator set up from the
/// seed. Which draws follow from a seed is left open: the generator is
/// documented as not portable, and its algorithm differs between platforms.
#[verifier::external_body]
pub(crate) fn seeded(seed: u64) -> SmallRng {
    SmallRng::seed_from_u64(seed)
}

/// Calls [`rand::Rng::random_range`] on `0..bound` with a copy of the generator,
/// and gives back the moved generator with the number: whatever is drawn lies
/// below the bound. The call panics on an empty range, so the bound is not zero.
/// Which number comes out, and how the generator moves on, is left open.
#[verifier::external_body]
pub(crate) fn draw_index(rng: &SmallRng, bound: usize) -> (r: (SmallRng, usize))
    requires
        bound > 0,
    ensures
        r.1 < bound,
{
    let mut next = rng.clone();
    let value = next.random_range(0..bound);
    (next, value)
}

/// Calls [`rand::Rng::random`] for a `bool` with a copy of the generator, and
/// gives back the moved generator with the coin. Which of the two comes out, and
/// how the generator moves on, is left open.
#[verifier::external_body]
pub(crate) fn draw_bool(rng: &SmallRng) -> (SmallRng, bool) {
    let mut next = rng.clone();
    let heads = next.random();
    (next, heads)
}

/// Calls [`rand::Rng::random`] for a `u64` with a copy of the generator, and
/// gives back the moved generator with the word. Which word comes out, and how
/// the generator moves on, is left open.
#[verifier::external_body]
pub(crate) fn draw_word(rng: &SmallRng) -> (SmallRng, u64) {
    let mut next = rng.clone();
    let word = next.random();
    (next, word)
}

/// One draw and what came of it.
pub enum Drawn {
    /// A number below the bound.
    Index { bound: int, value: int },
    /// The toss of a coin.
    Coin { heads: bool },
    /// A word.
    Word { word: u64 },
}

/// Whether two draws ask the generator for the same.
pub open spec fn same_request(x: Drawn, y: Drawn) -> bool {
    match x {
        Drawn::Index { bound, .. } => y is Index && y->bound == bound,
        Drawn::Coin { .. } => y is Coin,
        Drawn::Word { .. } => y is Word,
    }
}

/// Whether the draw `d` was made with the generator `a` and left it as `b`.
pub closed spec fn draws(a: SmallRng, d: Drawn, b: SmallRng) -> bool {
    match d {
        Drawn::Index { bound, value } => {
            &&& 0 < bound <= usize::MAX
            &&& 0 <= value < bound
            &&& call_ensures(draw_index, (&a, bound as usize), (b, value as usize))
        },
        Drawn::Coin { heads } => call_ensures(draw_bool, (&a,), (b, heads)),
        Drawn::Word { word } => call_ensures(draw_word, (&a,), (b, word)),
    }
}

/// Whether the log was drawn, one draw after the other, from a generator that
/// was set up from the seed; `states` are the generator before the first draw
/// and after each.
pub closed spec fn drawn_through(seed: u64, log: Seq<Drawn>, states: Seq<SmallRng>) -> bool {
    &&& states.len() == log.len() + 1
    &&& call_ensures(seeded, (seed,), states[0])
    &&& forall|i: int| 0 <= i < log.len() ==> draws(states[i], #[trigger] log[i], states[i + 1])
}

/// Whether the log was drawn from a generator that was set up from the seed.
pub open spec fn drawn_from(seed: u64, log: Seq<Drawn>) -> bool {
    exists|states: Seq<SmallRng>| drawn_through(seed, log, states)
}

/// Whether the generator answers alike whenever it is asked alike. The library
/// does not claim it; it is what a run must be given to be repeatable by its
/// seed.
pub closed spec fn repeatable() -> bool {
    &&& forall|seed: u64, x: SmallRng, y: SmallRng|
        #![trigger call_ensures(seeded, (seed,), x), call_ensures(seeded, (seed,), y)]
        call_ensures(seeded, (seed,), x) && call_ensures(seeded, (seed,), y) ==> x == y
    &&& forall|a: SmallRng, c: Drawn, d: Drawn, x: SmallRng, y: SmallRng|
        #![trigger draws(a, c, x), draws(a, d, y)]
        draws(a, c, x) && draws(a, d, y) && same_request(c, d) ==> c == d && x == y
}

/// Every entry of a log is a call of the generator: an index with its bound was
/// asked for with that bound and lies below it, a coin and a word were asked for
/// as such, and the generator that a draw left behind is asked next.
pub(crate) proof fn law_log_entries_are_calls(
    seed: u64,
    log: Seq<Drawn>,
    states: Seq<SmallRng>,
    i: int,
)
    requires
        drawn_through(seed, log, states),
        0 <= i < log.len(),
    ensures
        states.len() == log.len() + 1,
        call_ensures(seeded, (seed,), states[0]),
        match log[i] {
            Drawn::Index { bound, value } => {
                &&& 0 <= value < bound <= usize::MAX
                &&& call_ensures(
                    draw_index,
                    (&states[i], bound as usize),
                    (states[i + 1], value as usize),
                )
            },
            Drawn::Coin { heads } => call_ensures(
                draw_bool,
                (&states[i],),
                (states[i + 1], heads),
            ),
            Drawn::Word { word } => call_ensures(draw_word, (&states[i],), (states[i + 1], word)),
        },
{
    assert(draws(states[i], log[i], states[i + 1]));
}

proof fn lemma_states_agree(
    seed: u64,
    x: Seq<Drawn>,
    y: Seq<Drawn>,
    xs: Seq<SmallRng>,
    ys: Seq<SmallRng>,
    k: int,
)
    requires
        repeatable(),
        drawn_through(seed, x, xs),
        drawn_through(seed, y, ys),
        0 <= k <= x.len(),
        k <= y.len(),
        forall|i: int| 0 <= i < k ==> #[trigger] x[i] == y[i],
    ensures
        xs[k] == ys[k],
    decreases k,
{
    if k > 0 {
        lemma_states_agree(seed, x, y, xs, ys, k - 1);
        assert(x[k - 1] == y[k - 1]);
        assert(draws(xs[k - 1], x[k - 1], xs[k - 1 + 1]));
        assert(draws(ys[k - 1], y[k - 1], ys[k - 1 + 1]));
    }
}

/// With a generator that answers alike whenever it is asked alike, two logs from
/// one seed that agree so far agree in the next draw too, where both ask for the
/// same.
pub proof fn lemma_next_draw(seed: u64, x: Seq<Drawn>, y: Seq<Drawn>, k: int)
    requires
        repeatable(),
        drawn_from(seed, x),
        drawn_from(seed, y),
        0 <= k < x.len(),
        k < y.len(),
        forall|i: int| 0 <= i < k ==> #[trigger] x[i] == y[i],
        same_request(x[k], y[k]),
    ensures
        x[k] == y[k],
{
    let xs = choose|states: Seq<SmallRng>| drawn_through(seed, x, states);
    let ys = choose|states: Seq<SmallRng>| drawn_through(seed, y, states);
    lemma_states_agree(seed, x, y, xs, ys, k);
    assert(draws(xs[k], x[k], xs[k + 1]));
    assert(draws(ys[k], y[k], ys[k + 1]));
}

proof fn lemma_drawn_push(
    seed: u64,
    log: Seq<Drawn>,
    states: Seq<SmallRng>,
    d: Drawn,
    next: SmallRng,
)
    requires
        drawn_through(seed, log, states),
        draws(states.last(), d, next),
    ensures
        drawn_through(seed, log.push(d), states.push(next)),
{
    let l = log.push(d);
    let s = states.push(next);
    assert(s[0] == states[0]);
    assert forall|i: int| 0 <= i < l.len() implies draws(s[i], #[trigger] l[i], s[i + 1]) by {
        if i < log.len() {
            assert(l[i] == log[i]);
            assert(s[i] == states[i] && s[i + 1] == states[i + 1]);
        } else {
            assert(s[i] == states.last());
        }
    }
}

/// A generator with, in ghost state, the seed that it was set up from, the log
/// of all that was drawn from it, and its states in between.
pub struct Source {
    rng: SmallRng,
    seed: Ghost<u64>,
    log: Ghost<Seq<Drawn>>,
    states: Ghost<Seq<SmallRng>>,
}

impl Source {
    /// The log was drawn from the seed and left the generator as it is.
    #[verifier::type_invariant]
    spec fn true_log(self) -> bool {
        &&& drawn_through(self.seed@, self.log@, self.states@)
        &&& self.states@.last() == self.rng
    }

    /// The seed that the generator was set up from.
    pub closed spec fn seed(self) -> u64 {
        self.seed@
    }

    /// All that was drawn, in order.
    pub closed spec fn log(self) -> Seq<Drawn> {
        self.log@
    }

    /// A source with a generator set up from the seed.
    pub fn seeded(seed: u64) -> (r: Source)
        ensures
            r.seed() == seed,
            r.log() == Seq::<Drawn>::empty(),
            drawn_from(r.seed(), r.log()),
    {
        let rng = seeded(seed);
        let ghost states = seq![rng];
        assert(call_ensures(seeded, (seed,), rng));
        assert(drawn_through(seed, Seq::<Drawn>::empty(), states));
        Source { rng, seed: Ghost(seed), log: Ghost(Seq::empty()), states: Ghost(states) }
    }

    /// Tells that the log was drawn from a generator that was set up from the
    /// seed.
    pub(crate) fn vouch(&self)
        ensures
            drawn_from(self.seed(), self.log()),
    {
        proof {
            use_type_invariant(self);
        }
    }

    /// Draws a number below the bound.
    pub fn index(&mut self, bound: usize) -> (r: usize)
        requires
            bound > 0,
        ensures
            r < bound,
            final(self).seed() == old(self).seed(),
            final(self).log() == old(self).log().push(
                (Drawn::Index { bound: bound as int, value: r as int }),
            ),
            drawn_from(final(self).seed(), final(self).log()),
    {
        let (rng, r) = draw_index(&self.rng, bound);
        assert(call_ensures(draw_index, (&self.rng, bound), (rng, r)));
        self.note(rng, Ghost(Drawn::Index { bound: bound as int, value: r as int }));
        r
    }

    /// Tosses a coin.
    pub fn coin(&mut self) -> (r: bool)
        ensures
            final(self).seed() == old(self).seed(),
            final(self).log() == old(self).log().push((Drawn::Coin { heads: r })),
            drawn_from(final(self).seed(), final(self).log()),
    {
        let (rng, r) = draw_bool(&self.rng);
        assert(call_ensures(draw_bool, (&self.rng,), (rng, r)));
        self.note(rng, Ghost(Drawn::Coin { heads: r }));
        r
    }

    /// Draws a word.
    pub fn word(&mut self) -> (r: u64)
        ensures
            final(self).seed() == old(self).seed(),
            final(self).log() == old(self).log().push((Drawn::Word { word: r })),
            drawn_from(final(self).seed(), final(self).log()),
    {
        let (rng, r) = draw_word(&self.rng);
        assert(call_ensures(draw_word, (&self.rng,), (rng, r)));
        self.note(rng, Ghost(Drawn::Word { word: r }));
        r
    }

    /// Moves on to the generator that a draw left behind, and writes the draw to
    /// the log.
    fn note(&mut self, rng: SmallRng, Ghost(d): Ghost<Drawn>)
        requires
            draws(old(self).rng, d, rng),
        ensures
            final(self).seed() == old(self).seed(),
            final(self).log() == old(self).log().push(d),
            drawn_from(final(self).seed(), final(self).log()),
    {
        proof {
            use_type_invariant(&*self);
        }
        let ghost seed = self.seed@;
        let ghost log = self.log@.push(d);
        let ghost states = self.states@.push(rng);
        proof {
            lemma_drawn_push(seed, self.log@, self.states@, d, rng);
        }
        *self = Source { rng, seed: Ghost(seed), log: Ghost(log), states: Ghost(states) };
        assert(drawn_through(seed, log, states));
    }
}

} // verus!
