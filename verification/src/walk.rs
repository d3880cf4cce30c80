//! Walks that record their trajectory: the plain walk and the
//! edge-reinforced walk.

use crate::lattice::{edge_key, Direction, EdgeKey, LatticePoint};
use crate::ledger::{lemma_recorded_counts, Ledger, LedgerView};
use crate::random::RandomSource;
use crate::sampler::{
    choose_neighbor, chosen, neighbor_weights, sample_next, total_of, weights_around,
};
use vstd::prelude::*;

verus! {

/// The largest number of steps a walk may take: positions are `i32` pairs,
/// and a walk of this many steps cannot leave their range.
pub const MAX_STEPS: usize = 0x7fff_ffff;

/// A trajectory that starts at the origin and moves to an adjacent point
/// with every step.
pub open spec fn is_walk(path: Seq<LatticePoint>) -> bool {
    &&& path.len() > 0
    &&& path[0] == LatticePoint::spec_origin()
    &&& forall|i: int| 0 <= i && i + 1 < path.len() ==> (#[trigger] path[i]).adjacent(path[i + 1])
}

/// Position of a plain walk after the first `k` moves of `dirs`.
pub open spec fn position_after(dirs: Seq<Direction>, k: int) -> LatticePoint
    decreases k,
{
    if k <= 0 {
        LatticePoint::spec_origin()
    } else {
        position_after(dirs, k - 1).moved(dirs[k - 1])
    }
}

/// The points a plain walk visits when it moves along `dirs`.
pub open spec fn path_along(dirs: Seq<Direction>) -> Seq<LatticePoint> {
    Seq::new(dirs.len() + 1, |k: int| position_after(dirs, k))
}

/// Where a reinforced walk stands and what its ledger holds.
pub struct WalkState {
    pub position: LatticePoint,
    pub ledger: LedgerView,
}

/// State of a reinforced walk after its first `k` steps, when step `i`
/// uses the number `draws[i]`: each step selects a neighbour by the
/// current weights and records the edge it crosses.
pub open spec fn state_after(
    draws: Seq<u128>,
    k: int,
    strength: nat,
    delay: nat,
    memory: nat,
) -> WalkState
    decreases k,
{
    if k <= 0 {
        WalkState { position: LatticePoint::spec_origin(), ledger: LedgerView::fresh(memory) }
    } else {
        let before = state_after(draws, k - 1, strength, delay, memory);
        let next = chosen(
            before.position,
            before.ledger,
            (k - 1) as nat,
            delay,
            strength,
            draws[k - 1] as nat,
        );
        WalkState {
            position: next,
            ledger: before.ledger.recorded(EdgeKey::between(before.position, next)),
        }
    }
}

/// The points a reinforced walk visits when its steps use `draws`.
pub open spec fn reinforced_path(
    draws: Seq<u128>,
    strength: nat,
    delay: nat,
    memory: nat,
) -> Seq<LatticePoint> {
    Seq::new(draws.len() + 1, |k: int| state_after(draws, k, strength, delay, memory).position)
}

/// The moves that drawn numbers name: 0 is `+x`, 1 is `-x`, 2 is `+y`, and
/// every other number is `-y`.
pub open spec fn moves_of(draws: Seq<u128>) -> Seq<Direction> {
    Seq::new(draws.len(), |i: int| Direction::at(draws[i] as int))
}

/// Sum of the four weights around a reinforced walk before its step `i`:
/// the range from which the number for that step is drawn.
pub open spec fn total_at(draws: Seq<u128>, i: int, strength: nat, delay: nat, memory: nat) -> nat {
    let state = state_after(draws, i, strength, delay, memory);
    total_of(weights_around(state.position, state.ledger, i as nat, delay, strength))
}

/// Where a plain walk stands after `k` moves depends on its first `k`
/// moves only.
pub proof fn lemma_position_prefix(a: Seq<Direction>, b: Seq<Direction>, k: int)
    requires
        0 <= k <= a.len(),
        k <= b.len(),
        forall|i: int| 0 <= i < k ==> a[i] == b[i],
    ensures
        position_after(a, k) == position_after(b, k),
    decreases k,
{
    if k > 0 {
        lemma_position_prefix(a, b, k - 1);
    }
}

/// The state of a reinforced walk after `k` steps depends on the numbers
/// of its first `k` steps only.
pub proof fn lemma_state_prefix(
    a: Seq<u128>,
    b: Seq<u128>,
    k: int,
    strength: nat,
    delay: nat,
    memory: nat,
)
    requires
        0 <= k <= a.len(),
        k <= b.len(),
        forall|i: int| 0 <= i < k ==> a[i] == b[i],
    ensures
        state_after(a, k, strength, delay, memory) == state_after(b, k, strength, delay, memory),
    decreases k,
{
    if k > 0 {
        lemma_state_prefix(a, b, k - 1, strength, delay, memory);
    }
}

/// The trajectory of a walk: the `x` and the `y` coordinates of the points
/// it visited, in order, the starting point included.
pub struct WalkResult {
    x: Vec<i32>,
    y: Vec<i32>,
}

/// The points whose coordinates are listed in `xs` and `ys`.
pub open spec fn path_of(xs: Seq<i32>, ys: Seq<i32>) -> Seq<LatticePoint>
    recommends
        xs.len() == ys.len(),
{
    Seq::new(xs.len(), |i: int| LatticePoint { x: xs[i], y: ys[i] })
}

impl View for WalkResult {
    type V = Seq<LatticePoint>;

    closed spec fn view(&self) -> Seq<LatticePoint> {
        path_of(self.x@, self.y@)
    }
}

/// Appends `point` to a trajectory held as two coordinate lists.
fn push_point(xs: &mut Vec<i32>, ys: &mut Vec<i32>, point: LatticePoint)
    requires
        old(xs)@.len() == old(ys)@.len(),
    ensures
        final(xs)@ == old(xs)@.push(point.x),
        final(ys)@ == old(ys)@.push(point.y),
        path_of(final(xs)@, final(ys)@) == path_of(old(xs)@, old(ys)@).push(point),
{
    xs.push(point.x);
    ys.push(point.y);
    assert(path_of(xs@, ys@) =~= path_of(old(xs)@, old(ys)@).push(point));
}

impl WalkResult {
    #[verifier::type_invariant]
    spec fn same_length(&self) -> bool {
        self.x@.len() == self.y@.len()
    }

    /// A trajectory without any point.
    pub fn new() -> (walk: WalkResult)
        ensures
            walk@.len() == 0,
    {
        WalkResult { x: Vec::new(), y: Vec::new() }
    }

    /// The `x` coordinates of the visited points.
    pub fn x(&self) -> (xs: &Vec<i32>)
        ensures
            xs@.len() == self@.len(),
            forall|i: int| 0 <= i < xs@.len() ==> #[trigger] xs@[i] == self@[i].x,
    {
        &self.x
    }

    /// The `y` coordinates of the visited points.
    pub fn y(&self) -> (ys: &Vec<i32>)
        ensures
            ys@.len() == self@.len(),
            forall|i: int| 0 <= i < ys@.len() ==> #[trigger] ys@[i] == self@[i].y,
    {
        proof {
            use_type_invariant(self);
        }
        &self.y
    }
}

/// A plain random walk of `steps` steps from the origin. Every step moves
/// one unit in a direction drawn uniformly from the four.
pub fn random_walk(steps: usize) -> (walk: WalkResult)
    requires
        steps <= MAX_STEPS,
    ensures
        walk@.len() == steps + 1,
        walk@[0] == LatticePoint::spec_origin(),
        forall|i: int| 0 <= i < steps ==> (#[trigger] walk@[i]).adjacent(walk@[i + 1]),
        is_walk(walk@),
{
    let mut source = RandomSource::new();
    let mut xs: Vec<i32> = Vec::with_capacity(steps + 1);
    let mut ys: Vec<i32> = Vec::with_capacity(steps + 1);
    let mut position = LatticePoint::origin();
    push_point(&mut xs, &mut ys, position);
    let mut taken: usize = 0;
    while taken < steps
        invariant
            taken <= steps <= MAX_STEPS,
            position.within(taken as int),
            xs@.len() == taken + 1,
            ys@.len() == taken + 1,
            path_of(xs@, ys@)[taken as int] == position,
            is_walk(path_of(xs@, ys@)),
        decreases steps - taken,
    {
        let draw = source.below(4);
        let direction = Direction::from_index(draw as usize);
        position = position.step(direction);
        push_point(&mut xs, &mut ys, position);
        taken = taken + 1;
    }
    WalkResult { x: xs, y: ys }
}

/// An edge-reinforced random walk of `steps` steps from the origin.
///
/// From step `delay` on, an edge that counts `c` traversals is chosen with
/// weight `1.0 + strength * c`, where `strength` is a fixed-point number
/// with 32 fractional bits; before that every edge has weight 1.0. The
/// ledger remembers the last `memory` traversals, or all of them if
/// `memory` is zero.
pub fn erw_walk(steps: usize, strength: u64, delay: usize, memory: usize) -> (walk: WalkResult)
    requires
        steps <= MAX_STEPS,
    ensures
        walk@.len() == steps + 1,
        walk@[0] == LatticePoint::spec_origin(),
        forall|i: int| 0 <= i < steps ==> (#[trigger] walk@[i]).adjacent(walk@[i + 1]),
        is_walk(walk@),
{
    let mut source = RandomSource::new();
    let mut xs: Vec<i32> = Vec::with_capacity(steps + 1);
    let mut ys: Vec<i32> = Vec::with_capacity(steps + 1);
    let mut position = LatticePoint::origin();
    push_point(&mut xs, &mut ys, position);
    let mut ledger = Ledger::new(memory);
    let mut taken: usize = 0;
    while taken < steps
        invariant
            taken <= steps <= MAX_STEPS,
            position.within(taken as int),
            xs@.len() == taken + 1,
            ys@.len() == taken + 1,
            path_of(xs@, ys@)[taken as int] == position,
            is_walk(path_of(xs@, ys@)),
            ledger@.wf(),
            forall|key: EdgeKey| #[trigger] ledger@.count(key) <= taken,
        decreases steps - taken,
    {
        let next = sample_next(position, &ledger, taken, delay, strength, &mut source);
        let key = edge_key(position, next);
        let ghost before = ledger@;
        ledger.record_traversal(key);
        proof {
            assert forall|other: EdgeKey| #[trigger] ledger@.count(other) <= taken + 1 by {
                lemma_recorded_counts(before, key, other);
                assert(before.count(other) <= taken);
            }
        }
        position = next;
        push_point(&mut xs, &mut ys, position);
        taken = taken + 1;
    }
    WalkResult { x: xs, y: ys }
}

/// The plain walk replayed along the given moves: the trajectory is the
/// origin followed by the point reached after each move.
pub fn replay_random_walk(dirs: &Vec<Direction>) -> (walk: WalkResult)
    requires
        dirs@.len() <= MAX_STEPS,
    ensures
        walk@ == path_along(dirs@),
        is_walk(walk@),
{
    let mut xs: Vec<i32> = Vec::with_capacity(dirs.len() + 1);
    let mut ys: Vec<i32> = Vec::with_capacity(dirs.len() + 1);
    let mut position = LatticePoint::origin();
    push_point(&mut xs, &mut ys, position);
    let mut taken: usize = 0;
    while taken < dirs.len()
        invariant
            taken <= dirs@.len() <= MAX_STEPS,
            position == position_after(dirs@, taken as int),
            position.within(taken as int),
            xs@.len() == taken + 1,
            ys@.len() == taken + 1,
            forall|k: int|
                0 <= k <= taken ==> #[trigger] path_of(xs@, ys@)[k] == position_after(dirs@, k),
            is_walk(path_of(xs@, ys@)),
        decreases dirs@.len() - taken,
    {
        position = position.step(dirs[taken]);
        push_point(&mut xs, &mut ys, position);
        taken = taken + 1;
    }
    assert(path_of(xs@, ys@) =~= path_along(dirs@));
    WalkResult { x: xs, y: ys }
}

/// The reinforced walk replayed, step `i` using the number `draws[i]`
/// where a live walk would draw one.
pub fn replay_erw_walk(draws: &Vec<u128>, strength: u64, delay: usize, memory: usize) -> (walk:
    WalkResult)
    requires
        draws@.len() <= MAX_STEPS,
    ensures
        walk@ == reinforced_path(draws@, strength as nat, delay as nat, memory as nat),
        is_walk(walk@),
{
    let mut xs: Vec<i32> = Vec::with_capacity(draws.len() + 1);
    let mut ys: Vec<i32> = Vec::with_capacity(draws.len() + 1);
    let mut position = LatticePoint::origin();
    push_point(&mut xs, &mut ys, position);
    let mut ledger = Ledger::new(memory);
    let mut taken: usize = 0;
    while taken < draws.len()
        invariant
            taken <= draws@.len() <= MAX_STEPS,
            state_after(draws@, taken as int, strength as nat, delay as nat, memory as nat)
                == (WalkState { position, ledger: ledger@ }),
            position.within(taken as int),
            ledger@.wf(),
            forall|key: EdgeKey| #[trigger] ledger@.count(key) <= taken,
            xs@.len() == taken + 1,
            ys@.len() == taken + 1,
            forall|k: int|
                0 <= k <= taken ==> #[trigger] path_of(xs@, ys@)[k] == state_after(
                    draws@,
                    k,
                    strength as nat,
                    delay as nat,
                    memory as nat,
                ).position,
            is_walk(path_of(xs@, ys@)),
        decreases draws@.len() - taken,
    {
        let weights = neighbor_weights(position, &ledger, taken, delay, strength);
        let next = choose_neighbor(position, &weights, draws[taken]);
        let key = edge_key(position, next);
        let ghost before = ledger@;
        ledger.record_traversal(key);
        proof {
            assert forall|other: EdgeKey| #[trigger] ledger@.count(other) <= taken + 1 by {
                lemma_recorded_counts(before, key, other);
                assert(before.count(other) <= taken);
            }
        }
        position = next;
        push_point(&mut xs, &mut ys, position);
        taken = taken + 1;
    }
    assert(path_of(xs@, ys@) =~= reinforced_path(
        draws@,
        strength as nat,
        delay as nat,
        memory as nat,
    ));
    WalkResult { x: xs, y: ys }
}

} // verus!
