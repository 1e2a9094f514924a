//! Deterministic sampling, and keeping the candidate that explains the most.
//!
//! Estimates that must tolerate gross errors are made from minimal samples and
//! scored by how much of the data they explain. Sampling is deterministic: a
//! calibration that changes between identical runs cannot be checked against
//! itself.

use vstd::prelude::*;

verus! {

// ---------------------------------------------------------------------------
// Sampling
// ---------------------------------------------------------------------------

/// A xorshift generator of 64 bits.
#[derive(Debug, Clone, Copy, PartialEq, Eq, Structural)]
pub struct Xorshift64 {
    pub state: u64,
}

/// The state after one step.
pub open spec fn step(x: u64) -> u64 {
    let a = x ^ (x << 13u64);
    let b = a ^ (a >> 7u64);
    b ^ (b << 17u64)
}

/// The state after `n` steps.
pub open spec fn steps(x: u64, n: nat) -> u64
    decreases n,
{
    if n == 0 {
        x
    } else {
        step(steps(x, (n - 1) as nat))
    }
}

/// What a state chooses of `n` things.
pub open spec fn choice(state: u64, n: int) -> int {
    state as int % n
}

/// Two states that step to one are the same, so the generator runs through a
/// cycle and never gets stuck; in particular only zero steps to zero.
pub proof fn steps_are_reversible(x: u64, y: u64)
    requires
        step(x) == step(y),
    ensures
        x == y,
{
    let (a, c) = (x ^ (x << 13u64), y ^ (y << 13u64));
    let (b, d) = (a ^ (a >> 7u64), c ^ (c >> 7u64));
    assert(b == d) by (bit_vector)
        requires
            b ^ (b << 17u64) == d ^ (d << 17u64),
    ;
    assert(a == c) by (bit_vector)
        requires
            a ^ (a >> 7u64) == c ^ (c >> 7u64),
    ;
    assert(x == y) by (bit_vector)
        requires
            x ^ (x << 13u64) == y ^ (y << 13u64),
    ;
}

/// From any state but zero the generator never reaches zero.
pub proof fn sampling_never_runs_dry(x: u64, n: nat)
    requires
        x != 0,
    ensures
        steps(x, n) != 0,
    decreases n,
{
    if n > 0 {
        sampling_never_runs_dry(x, (n - 1) as nat);
        assert(step(0) == 0) by {
            let z: u64 = 0;
            assert(z ^ (z << 13u64) == 0) by (bit_vector)
                requires
                    z == 0,
            ;
            assert(z ^ (z >> 7u64) == 0) by (bit_vector)
                requires
                    z == 0,
            ;
            assert(z ^ (z << 17u64) == 0) by (bit_vector)
                requires
                    z == 0,
            ;
        }
        if steps(x, n) == 0 {
            steps_are_reversible(steps(x, (n - 1) as nat), 0);
        }
    }
}

impl Xorshift64 {
    /// The next value.
    pub fn next(&mut self) -> (r: u64)
        ensures
            r == step(old(self).state),
            final(self).state == r,
    {
        let mut x: u64 = self.state;
        x = x ^ (x << 13u64);
        x = x ^ (x >> 7u64);
        x = x ^ (x << 17u64);
        self.state = x;
        x
    }

    /// A value below `n`; zero, without a step, where there is none.
    pub fn below(&mut self, n: usize) -> (r: usize)
        ensures
            n == 0 ==> r == 0 && final(self).state == old(self).state,
            n > 0 ==> final(self).state == step(old(self).state) && r == choice(
                final(self).state,
                n as int,
            ) && r < n,
    {
        if n == 0 {
            0
        } else {
            let x: u64 = self.next();
            (x % n as u64) as usize
        }
    }
}

// ---------------------------------------------------------------------------
// Support
// ---------------------------------------------------------------------------

/// A candidate and what it explains.
#[derive(Debug)]
pub struct Supported<S> {
    pub candidate: S,
    pub support: Vec<usize>,
}

/// The candidate that explains the most so far.
#[derive(Debug)]
pub struct Consensus<S> {
    pub best: Option<Supported<S>>,
}

/// The indices among the first `n` that are flagged.
pub open spec fn flagged(flags: Seq<bool>, n: nat) -> Seq<usize>
    decreases n,
{
    if n == 0 {
        Seq::empty()
    } else {
        let rest = flagged(flags, (n - 1) as nat);
        if flags[n - 1] {
            rest.push((n - 1) as usize)
        } else {
            rest
        }
    }
}

/// What is explained, in increasing order.
pub fn explained(flags: &Vec<bool>) -> (out: Vec<usize>)
    ensures
        out@ == flagged(flags@, flags@.len()),
{
    let mut out: Vec<usize> = Vec::new();
    let mut i: usize = 0;
    while i < flags.len()
        invariant
            i <= flags@.len(),
            out@ == flagged(flags@, i as nat),
        decreases flags@.len() - i,
    {
        if flags[i] {
            out.push(i);
        }
        i += 1;
    }
    out
}

/// Exactly the flagged indices are listed, in increasing order.
pub proof fn flagged_are_listed(flags: Seq<bool>, n: nat)
    requires
        n <= flags.len() <= usize::MAX,
    ensures
        flagged(flags, n).len() <= n,
        forall|i: int, j: int|
            0 <= i < j < flagged(flags, n).len() ==> flagged(flags, n)[i] < flagged(flags, n)[j],
        forall|k: int|
            0 <= k < flagged(flags, n).len() ==> (#[trigger] flagged(flags, n)[k]) < n
                && flags[flagged(flags, n)[k] as int],
        forall|x: int|
            0 <= x < n && #[trigger] flags[x] ==> flagged(flags, n).contains(x as usize),
    decreases n,
{
    if n > 0 {
        flagged_are_listed(flags, (n - 1) as nat);
        let rest = flagged(flags, (n - 1) as nat);
        let all = flagged(flags, n);
        assert forall|x: int| 0 <= x < n && #[trigger] flags[x] implies all.contains(x as usize) by {
            if x < n - 1 {
                let k = choose|k: int| 0 <= k < rest.len() && rest[k] == x as usize;
                assert(all[k] == x as usize);
            } else {
                assert(all[all.len() - 1] == x as usize);
            }
        }
    }
}

/// The place of the winner among the first `n` offers, given how much each
/// explains.
pub open spec fn winner(sizes: Seq<nat>, n: nat) -> Option<int>
    decreases n,
{
    if n == 0 {
        None
    } else {
        match winner(sizes, (n - 1) as nat) {
            Some(w) if sizes[n - 1] <= sizes[w] => Some(w),
            _ => Some(n - 1),
        }
    }
}

/// The winner is the first of the offers that explain the most.
pub proof fn the_winner_is_the_first_largest(sizes: Seq<nat>, n: nat)
    requires
        n <= sizes.len(),
    ensures
        winner(sizes, n) is Some <==> n > 0,
        winner(sizes, n) matches Some(w) ==> 0 <= w < n && (forall|k: int|
            0 <= k < w ==> #[trigger] sizes[k] < sizes[w]) && (forall|k: int|
            w <= k < n ==> #[trigger] sizes[k] <= sizes[w]),
    decreases n,
{
    if n > 0 {
        the_winner_is_the_first_largest(sizes, (n - 1) as nat);
    }
}

impl<S> Consensus<S> {
    /// The best of the first `n` offers is kept.
    pub open spec fn holds(self, offers: Seq<(S, Seq<usize>)>) -> bool {
        let sizes = offers.map_values(|o: (S, Seq<usize>)| o.1.len());
        match (self.best, winner(sizes, offers.len())) {
            (Some(b), Some(w)) => b.candidate == offers[w].0 && b.support@ == offers[w].1,
            (None, None) => true,
            _ => false,
        }
    }

    pub fn new() -> (r: Self)
        ensures
            r.best is None,
            r.holds(Seq::empty()),
    {
        Consensus { best: None }
    }

    /// Keeps the candidate if it explains more than any before it.
    pub fn offer(&mut self, candidate: S, support: Vec<usize>)
        ensures
            match old(self).best {
                Some(b) if support@.len() <= b.support@.len() => final(self).best == old(self).best,
                _ => final(self).best matches Some(b) && b.candidate == candidate && b.support
                    == support,
            },
    {
        let better = match &self.best {
            Some(b) => support.len() > b.support.len(),
            None => true,
        };
        if better {
            self.best = Some(Supported { candidate, support });
        }
    }
}

/// An offer that is made to what holds the best of others leaves the best of
/// all of them.
pub proof fn the_best_offer_is_kept<S>(
    before: Consensus<S>,
    after: Consensus<S>,
    offers: Seq<(S, Seq<usize>)>,
    candidate: S,
    support: Seq<usize>,
)
    requires
        before.holds(offers),
        match before.best {
            Some(b) if support.len() <= b.support@.len() => after.best == before.best,
            _ => after.best matches Some(b) && b.candidate == candidate && b.support@ == support,
        },
    ensures
        after.holds(offers.push((candidate, support))),
{
    let more = offers.push((candidate, support));
    let sizes = offers.map_values(|o: (S, Seq<usize>)| o.1.len());
    let grown = more.map_values(|o: (S, Seq<usize>)| o.1.len());
    assert(grown =~= sizes.push(support.len()));
    lemma_winner_prefix(sizes, support.len(), offers.len());
    the_winner_is_the_first_largest(sizes, offers.len());
}

proof fn lemma_winner_prefix(sizes: Seq<nat>, last: nat, n: nat)
    requires
        n <= sizes.len(),
    ensures
        winner(sizes.push(last), n) == winner(sizes, n),
    decreases n,
{
    if n > 0 {
        lemma_winner_prefix(sizes, last, (n - 1) as nat);
        the_winner_is_the_first_largest(sizes, (n - 1) as nat);
    }
}

/// A step is three rounds of adding to the state, bit by bit and without
/// carry, a multiple or a part of itself: 2^13 times it, a 2^7th of it, and
/// 2^17 times it, as far as 64 bits hold it.
pub proof fn a_step_mixes_three_times(x: u64)
    ensures
        ({
            let a = x ^ ((x % 0x8_0000_0000_0000u64) * 0x2000) as u64;
            let b = a ^ (a / 0x80);
            step(x) == b ^ ((b % 0x8000_0000_0000u64) * 0x2_0000) as u64
        }),
{
    let a = x ^ (x << 13u64);
    let b = a ^ (a >> 7u64);
    assert((x << 13u64) == ((x % 0x8_0000_0000_0000u64) * 0x2000) as u64) by (bit_vector);
    assert((a >> 7u64) == a / 0x80) by (bit_vector);
    assert((b << 17u64) == ((b % 0x8000_0000_0000u64) * 0x2_0000) as u64) by (bit_vector);
}

/// A choice is one of the things, and states that differ by their number choose
/// alike.
pub proof fn choices_are_among_the_things(state: u64, other: u64, n: int)
    requires
        n > 0,
        other == state + n,
    ensures
        0 <= choice(state, n) < n,
        choice(state, n) == choice(other, n),
        state < n ==> choice(state, n) == state,
{
    vstd::arithmetic::div_mod::lemma_mod_add_multiples_vanish(state as int, n);
    if state < n {
        vstd::arithmetic::div_mod::lemma_small_mod(state as nat, n as nat);
    }
}

} // verus!
