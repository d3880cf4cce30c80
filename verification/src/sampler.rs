//! The weighted step sampler: the weight of each of the four edges around
//! a point, and the choice of one of them by a single uniform draw.
//!
//! Weights are fixed-point numbers with 32 fractional bits, held in `u128`:
//! the value `ONE` stands for 1.0. A reinforcement strength is a `u64` in
//! the same format, so strengths from 0 up to (but not including) 2^32 can
//! be expressed in steps of 2^-32.

use crate::lattice::{edge_key, EdgeKey, LatticePoint};
use crate::ledger::{Ledger, LedgerView};
use crate::random::RandomSource;
use vstd::prelude::*;

verus! {

/// The fixed-point representation of 1.0, the weight of an edge that is
/// not reinforced.
pub const ONE: u128 = 0x1_0000_0000;

/// Weight of an edge crossed `count` times: 1.0 while the walk is still in
/// its unbiased phase, and `1.0 + strength * count` afterwards.
pub open spec fn weight_of(count: nat, strength: nat, reinforcing: bool) -> nat {
    if reinforcing {
        ONE as nat + strength * count
    } else {
        ONE as nat
    }
}

/// Weights of the four edges from `position` to its neighbours, in
/// enumeration order, at step `step_index` of a walk whose reinforcement
/// starts at step `delay`.
pub open spec fn weights_around(
    position: LatticePoint,
    ledger: LedgerView,
    step_index: nat,
    delay: nat,
    strength: nat,
) -> Seq<nat> {
    Seq::new(
        4,
        |i: int|
            weight_of(
                ledger.count(EdgeKey::between(position, position.spec_neighbors()[i])),
                strength,
                step_index >= delay,
            ),
    )
}

/// Four executable weights as numbers.
pub open spec fn weights_view(weights: [u128; 4]) -> Seq<nat> {
    Seq::new(4, |i: int| weights@[i] as nat)
}

/// Sum of four weights.
pub open spec fn total_of(weights: Seq<nat>) -> nat {
    weights[0] + weights[1] + weights[2] + weights[3]
}

/// Roulette-wheel selection: the first index whose cumulative weight is at
/// least `draw`, and index 0 if `draw` exceeds the total.
pub open spec fn selected(weights: Seq<nat>, draw: nat) -> int {
    if draw <= weights[0] {
        0
    } else if draw <= weights[0] + weights[1] {
        1
    } else if draw <= weights[0] + weights[1] + weights[2] {
        2
    } else if draw <= weights[0] + weights[1] + weights[2] + weights[3] {
        3
    } else {
        0
    }
}

/// The neighbour of `position` that `draw` selects when the edges around
/// `position` are weighted by their counts in `ledger`.
pub open spec fn chosen(
    position: LatticePoint,
    ledger: LedgerView,
    step_index: nat,
    delay: nat,
    strength: nat,
    draw: nat,
) -> LatticePoint {
    position.spec_neighbors()[selected(
        weights_around(position, ledger, step_index, delay, strength),
        draw,
    )]
}

/// The weight of one edge.
pub fn edge_weight(count: u32, strength: u64, reinforcing: bool) -> (weight: u128)
    ensures
        weight == weight_of(count as nat, strength as nat, reinforcing),
        ONE <= weight < 0x2_0000_0000_0000_0000_0000_0000,
{
    if reinforcing {
        let s: u128 = strength as u128;
        let c: u128 = count as u128;
        assert(s * c <= 0xffff_ffff_ffff_ffff * 0xffff_ffff) by (nonlinear_arith)
            requires
                0 <= s <= 0xffff_ffff_ffff_ffff,
                0 <= c <= 0xffff_ffff,
        ;
        ONE + s * c
    } else {
        ONE
    }
}

/// The weights of the four edges around `position`, in the order `+x`,
/// `-x`, `+y`, `-y`. Each is at least `ONE`, so no neighbour is ever
/// excluded.
pub fn neighbor_weights(
    position: LatticePoint,
    ledger: &Ledger,
    step_index: usize,
    delay: usize,
    strength: u64,
) -> (weights: [u128; 4])
    requires
        position.interior(),
    ensures
        weights_view(weights) == weights_around(
            position,
            ledger@,
            step_index as nat,
            delay as nat,
            strength as nat,
        ),
        forall|i: int|
            0 <= i < 4 ==> ONE <= #[trigger] weights@[i] < 0x2_0000_0000_0000_0000_0000_0000,
        total_of(weights_view(weights)) <= u128::MAX,
{
    let around = position.neighbors();
    let reinforcing = step_index >= delay;
    let w0 = edge_weight(ledger.count(&edge_key(position, around[0])), strength, reinforcing);
    let w1 = edge_weight(ledger.count(&edge_key(position, around[1])), strength, reinforcing);
    let w2 = edge_weight(ledger.count(&edge_key(position, around[2])), strength, reinforcing);
    let w3 = edge_weight(ledger.count(&edge_key(position, around[3])), strength, reinforcing);
    let weights = [w0, w1, w2, w3];
    assert(weights@[0] == w0 && weights@[1] == w1 && weights@[2] == w2 && weights@[3] == w3);
    assert(weights_view(weights) =~= weights_around(
        position,
        ledger@,
        step_index as nat,
        delay as nat,
        strength as nat,
    ));
    weights
}

/// The sum of the four weights: the exclusive upper end of the range from
/// which the draw for this step is taken.
pub fn total_weight(weights: &[u128; 4]) -> (total: u128)
    requires
        total_of(weights_view(*weights)) <= u128::MAX,
    ensures
        total == total_of(weights_view(*weights)),
{
    weights[0] + weights[1] + weights[2] + weights[3]
}

/// Roulette-wheel selection over four weights. The weights are added up in
/// order, and the first index at which the running sum reaches `draw` is
/// chosen. A draw above the total chooses index 0.
pub fn select(weights: &[u128; 4], draw: u128) -> (choice: usize)
    requires
        total_of(weights_view(*weights)) <= u128::MAX,
    ensures
        choice == selected(weights_view(*weights), draw as nat),
        choice < 4,
{
    let mut choice: usize = 0;
    let mut acc: u128 = 0;
    let mut i: usize = 0;
    while i < 4
        invariant_except_break
            i <= 4,
            choice == 0,
            acc == if i == 0 {
                0
            } else if i == 1 {
                weights@[0] as int
            } else if i == 2 {
                weights@[0] + weights@[1]
            } else if i == 3 {
                weights@[0] + weights@[1] + weights@[2]
            } else {
                weights@[0] + weights@[1] + weights@[2] + weights@[3]
            },
            i >= 1 ==> draw > weights@[0],
            i >= 2 ==> draw > weights@[0] + weights@[1],
            i >= 3 ==> draw > weights@[0] + weights@[1] + weights@[2],
            i >= 4 ==> draw > weights@[0] + weights@[1] + weights@[2] + weights@[3],
        invariant
            weights@.len() == 4,
            total_of(weights_view(*weights)) <= u128::MAX,
        ensures
            choice == selected(weights_view(*weights), draw as nat),
            choice < 4,
        decreases 4 - i,
    {
        acc = acc + weights[i];
        if draw <= acc {
            choice = i;
            break ;
        }
        i = i + 1;
    }
    choice
}

/// The neighbour of `position` that `draw` selects under `weights`.
pub fn choose_neighbor(position: LatticePoint, weights: &[u128; 4], draw: u128) -> (next:
    LatticePoint)
    requires
        position.interior(),
        total_of(weights_view(*weights)) <= u128::MAX,
    ensures
        next == position.spec_neighbors()[selected(weights_view(*weights), draw as nat)],
        position.adjacent(next),
{
    let around = position.neighbors();
    around[select(weights, draw)]
}

/// Draws the next position of a reinforced walk.
///
/// The four edges around `position` are weighted by their counts in
/// `ledger`, one number is drawn uniformly below the sum of the weights,
/// and the neighbour that the number selects is returned. Exactly one draw
/// is taken from `source`: the last entry of its record after the call.
pub fn sample_next(
    position: LatticePoint,
    ledger: &Ledger,
    step_index: usize,
    delay: usize,
    strength: u64,
    source: &mut RandomSource,
) -> (next: LatticePoint)
    requires
        position.interior(),
    ensures
        position.adjacent(next),
        exists|i: int| 0 <= i < 4 && next == position.spec_neighbors()[i],
        final(source).drawn().len() == old(source).drawn().len() + 1,
        final(source).drawn() == old(source).drawn().push(final(source).drawn().last()),
        final(source).drawn().last() < total_of(
            weights_around(position, ledger@, step_index as nat, delay as nat, strength as nat),
        ),
        next == chosen(
            position,
            ledger@,
            step_index as nat,
            delay as nat,
            strength as nat,
            final(source).drawn().last() as nat,
        ),
{
    let weights = neighbor_weights(position, ledger, step_index, delay, strength);
    let total = total_weight(&weights);
    assert(total >= weights@[0]);
    let draw = source.below(total);
    choose_neighbor(position, &weights, draw)
}

/// A higher count gives a strictly higher weight once reinforcement is on
/// and the strength is positive.
pub proof fn lemma_weight_strictly_increasing(lower: nat, higher: nat, strength: nat)
    requires
        strength > 0,
        lower < higher,
    ensures
        weight_of(lower, strength, true) < weight_of(higher, strength, true),
{
    assert(strength * lower < strength * higher) by (nonlinear_arith)
        requires
            strength > 0,
            lower < higher,
    ;
}

/// While no edge around the walker has been crossed, all four weights are
/// exactly 1.0, whatever the strength and the delay. In particular the first
/// step of a walk is unbiased even if reinforcement starts at step 0.
pub proof fn lemma_unvisited_weights_equal(
    position: LatticePoint,
    ledger: LedgerView,
    step_index: nat,
    delay: nat,
    strength: nat,
)
    requires
        forall|i: int|
            0 <= i < 4 ==> ledger.count(
                EdgeKey::between(position, #[trigger] position.spec_neighbors()[i]),
            ) == 0,
    ensures
        forall|i: int|
            0 <= i < 4 ==> #[trigger] weights_around(
                position,
                ledger,
                step_index,
                delay,
                strength,
            )[i] == ONE,
{
    assert forall|i: int| 0 <= i < 4 implies #[trigger] weights_around(
        position,
        ledger,
        step_index,
        delay,
        strength,
    )[i] == ONE by {
        assert(ledger.count(EdgeKey::between(position, position.spec_neighbors()[i])) == 0);
        assert(strength * 0 == 0) by (nonlinear_arith);
    }
}

/// The first step of any walk is unbiased: from a fresh ledger all four
/// weights are 1.0, also when `delay` is zero.
pub proof fn lemma_first_step_uniform(
    position: LatticePoint,
    memory: nat,
    delay: nat,
    strength: nat,
)
    ensures
        forall|i: int|
            0 <= i < 4 ==> #[trigger] weights_around(
                position,
                LedgerView::fresh(memory),
                0,
                delay,
                strength,
            )[i] == ONE,
{
    lemma_unvisited_weights_equal(position, LedgerView::fresh(memory), 0, delay, strength);
}

} // verus!
