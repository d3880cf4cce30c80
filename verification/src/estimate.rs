//! First-return times and their Monte Carlo totals.
//!
//! A trial walks from the origin until it is back there or its step budget
//! is spent. Its recorded time is the number of steps taken on return, and
//! the whole budget if the walk did not return: an observation censored at
//! the budget. An estimator adds up the recorded times of its trials; the
//! mean return time is that total divided by the number of trials.

use crate::lattice::{edge_key, Direction, EdgeKey, LatticePoint};
use crate::ledger::{lemma_recorded_counts, Ledger};
use crate::random::RandomSource;
use crate::sampler::{
    choose_neighbor, chosen, neighbor_weights, sample_next, total_of, weights_around,
};
use crate::walk::{
    lemma_position_prefix, lemma_state_prefix, moves_of, path_along, position_after,
    reinforced_path, state_after, total_at, WalkState, MAX_STEPS,
};
use vstd::prelude::*;

verus! {

/// Why an estimator refused its arguments.
#[derive(Clone, Copy, Debug, PartialEq, Eq, Structural)]
pub enum EstimateError {
    /// No trial was asked for, so there is nothing to take a mean of.
    InvalidArgument,
}

/// Recorded time of a trial that has taken `taken` steps along `path`
/// without returning: the index of the next visit to the origin, or the
/// last index of `path` if there is none.
pub open spec fn return_time_from(path: Seq<LatticePoint>, taken: int) -> int
    decreases path.len() - taken,
{
    if taken + 1 >= path.len() {
        path.len() - 1
    } else if path[taken + 1] == LatticePoint::spec_origin() {
        taken + 1
    } else {
        return_time_from(path, taken + 1)
    }
}

/// Recorded time of a trial that visits `path`: the number of steps to the
/// first return to the origin, or the number of steps of the whole path if
/// it never returns.
pub open spec fn return_time_of(path: Seq<LatticePoint>) -> int {
    return_time_from(path, 0)
}

/// What a trial with a budget of `steps` steps can record: the budget
/// itself, or an even number of steps from 2 up, since a walk needs an even
/// number of unit moves to come back to where it started.
pub open spec fn possible_return_time(time: int, steps: int) -> bool {
    time == steps || (2 <= time < steps && time % 2 == 0)
}

/// A move changes exactly one coordinate by one, so it flips the parity of
/// the coordinate sum and stays within one more unit of the origin.
proof fn lemma_move_parity(from: LatticePoint, to: LatticePoint, taken: int)
    requires
        from.adjacent(to),
        from.within(taken),
        (from.x + from.y + taken) % 2 == 0,
    ensures
        to.within(taken + 1),
        (to.x + to.y + taken + 1) % 2 == 0,
{
}

/// The recorded time of `path` is the first index from 1 on at which the
/// path is at the origin, and the last index if there is no such index.
pub proof fn lemma_return_time_is_first(path: Seq<LatticePoint>, taken: int)
    requires
        path.len() > 0,
        0 <= taken < path.len(),
    ensures
        taken <= return_time_from(path, taken) < path.len(),
        taken + 1 < path.len() ==> taken < return_time_from(path, taken),
        forall|k: int|
            taken < k < return_time_from(path, taken) ==> #[trigger] path[k]
                != LatticePoint::spec_origin(),
        return_time_from(path, taken) < path.len() - 1 ==> path[return_time_from(path, taken)]
            == LatticePoint::spec_origin(),
    decreases path.len() - taken,
{
    if taken + 1 < path.len() && path[taken + 1] != LatticePoint::spec_origin() {
        lemma_return_time_is_first(path, taken + 1);
    }
}

/// Censoring: a trial that is not back at the origin after any of its
/// steps records exactly its budget.
pub proof fn lemma_censored_at_budget(path: Seq<LatticePoint>)
    requires
        path.len() > 0,
        forall|k: int| 1 <= k < path.len() ==> #[trigger] path[k] != LatticePoint::spec_origin(),
    ensures
        return_time_of(path) == path.len() - 1,
{
    lemma_return_time_is_first(path, 0);
}

/// Replays one trial of the plain walk along the given moves. The budget of
/// the trial is the number of moves; the result is the number of moves
/// after which the walk is first back at the origin, or the budget if it
/// never is.
pub fn return_time(dirs: &Vec<Direction>) -> (time: usize)
    requires
        dirs@.len() <= MAX_STEPS,
    ensures
        time == return_time_of(path_along(dirs@)),
        possible_return_time(time as int, dirs@.len() as int),
{
    let ghost path = path_along(dirs@);
    let mut position = LatticePoint::origin();
    let mut taken: usize = 0;
    while taken < dirs.len()
        invariant
            taken <= dirs@.len() <= MAX_STEPS,
            path == path_along(dirs@),
            position == position_after(dirs@, taken as int),
            position.within(taken as int),
            (position.x + position.y + taken) % 2 == 0,
            return_time_of(path) == return_time_from(path, taken as int),
        decreases dirs@.len() - taken,
    {
        let next = position.step(dirs[taken]);
        proof {
            lemma_move_parity(position, next, taken as int);
        }
        position = next;
        taken = taken + 1;
        assert(path[taken as int] == position);
        if position.x == 0 && position.y == 0 {
            return taken;
        }
    }
    taken
}

/// Replays one trial of the reinforced walk, step `i` using the number
/// `draws[i]` where a live trial would draw one. The budget of the trial is
/// the number of draws.
pub fn erw_return_time(draws: &Vec<u128>, strength: u64, delay: usize, memory: usize) -> (time:
    usize)
    requires
        draws@.len() <= MAX_STEPS,
    ensures
        time == return_time_of(
            reinforced_path(draws@, strength as nat, delay as nat, memory as nat),
        ),
        possible_return_time(time as int, draws@.len() as int),
{
    let ghost path = reinforced_path(draws@, strength as nat, delay as nat, memory as nat);
    let mut position = LatticePoint::origin();
    let mut ledger = Ledger::new(memory);
    let mut taken: usize = 0;
    while taken < draws.len()
        invariant
            taken <= draws@.len() <= MAX_STEPS,
            path == reinforced_path(draws@, strength as nat, delay as nat, memory as nat),
            state_after(draws@, taken as int, strength as nat, delay as nat, memory as nat)
                == (WalkState { position, ledger: ledger@ }),
            position.within(taken as int),
            (position.x + position.y + taken) % 2 == 0,
            ledger@.wf(),
            forall|key: EdgeKey| #[trigger] ledger@.count(key) <= taken,
            return_time_of(path) == return_time_from(path, taken as int),
        decreases draws@.len() - taken,
    {
        let weights = neighbor_weights(position, &ledger, taken, delay, strength);
        let next = choose_neighbor(position, &weights, draws[taken]);
        let key = edge_key(position, next);
        let ghost before = ledger@;
        ledger.record_traversal(key);
        proof {
            assert forall|other: EdgeKey| #[trigger] ledger@.count(other) <= taken + 1 by {
                lemma_recorded_counts(before, key, other);
                assert(before.count(other) <= taken);
            }
            lemma_move_parity(position, next, taken as int);
        }
        position = next;
        taken = taken + 1;
        assert(path[taken as int] == position);
        if position.x == 0 && position.y == 0 {
            return taken;
        }
    }
    taken
}

/// Sum of the entries of `times`.
pub open spec fn sum_of(times: Seq<int>) -> int
    decreases times.len(),
{
    if times.len() == 0 {
        0
    } else {
        sum_of(times.drop_last()) + times.last()
    }
}

/// Number of entries in all of `runs` together.
pub open spec fn total_len<T>(runs: Seq<Vec<T>>) -> int
    decreases runs.len(),
{
    if runs.len() == 0 {
        0
    } else {
        total_len(runs.drop_last()) + runs.last()@.len()
    }
}

/// Sum of the recorded times of plain trials replayed along `runs`.
pub open spec fn total_return_time(runs: Seq<Vec<Direction>>) -> int
    decreases runs.len(),
{
    if runs.len() == 0 {
        0
    } else {
        total_return_time(runs.drop_last()) + return_time_of(path_along(runs.last()@))
    }
}

/// Sum of the recorded times of reinforced trials replayed with `runs`.
pub open spec fn total_erw_return_time(
    runs: Seq<Vec<u128>>,
    strength: nat,
    delay: nat,
    memory: nat,
) -> int
    decreases runs.len(),
{
    if runs.len() == 0 {
        0
    } else {
        total_erw_return_time(runs.drop_last(), strength, delay, memory) + return_time_of(
            reinforced_path(runs.last()@, strength, delay, memory),
        )
    }
}

/// A prefix of `runs` holds no more entries than all of `runs`.
proof fn lemma_total_len_prefix<T>(runs: Seq<Vec<T>>, n: int)
    requires
        0 <= n <= runs.len(),
    ensures
        0 <= total_len(runs.take(n)) <= total_len(runs),
    decreases runs.len() - n,
{
    if n == runs.len() {
        assert(runs.take(n) =~= runs);
        lemma_total_len_nonnegative(runs);
    } else {
        lemma_total_len_prefix(runs, n + 1);
        assert(runs.take(n + 1).drop_last() =~= runs.take(n));
        lemma_total_len_nonnegative(runs.take(n));
    }
}

proof fn lemma_total_len_nonnegative<T>(runs: Seq<Vec<T>>)
    ensures
        0 <= total_len(runs),
    decreases runs.len(),
{
    if runs.len() > 0 {
        lemma_total_len_nonnegative(runs.drop_last());
    }
}

/// The numbers that a source handed out between two moments, given its
/// record at each.
pub open spec fn drawn_since(before: Seq<u128>, after: Seq<u128>) -> Seq<u128> {
    after.skip(before.len() as int)
}

/// What a live trial of the plain walk does with the numbers `taken` from
/// its source. It takes one number below 4 per step and moves as the number
/// says. It stops on its first return to the origin, or when `steps` steps
/// are done, and records the number of steps it took.
pub open spec fn plain_trial(taken: Seq<u128>, steps: int, time: int) -> bool {
    let path = path_along(moves_of(taken));
    &&& taken.len() == time
    &&& forall|i: int| 0 <= i < taken.len() ==> #[trigger] taken[i] < 4
    &&& time == return_time_of(path)
    &&& time < steps ==> path[time] == LatticePoint::spec_origin()
    &&& possible_return_time(time, steps)
}

/// What a live trial of the reinforced walk does with the numbers `taken`
/// from its source. It takes one number per step, below the sum of the
/// weights around it at that step, and moves to the neighbour the number
/// selects. It stops on its first return to the origin, or when `steps`
/// steps are done, and records the number of steps it took.
pub open spec fn reinforced_trial(
    taken: Seq<u128>,
    steps: int,
    time: int,
    strength: nat,
    delay: nat,
    memory: nat,
) -> bool {
    let path = reinforced_path(taken, strength, delay, memory);
    &&& taken.len() == time
    &&& forall|i: int|
        0 <= i < taken.len() ==> (#[trigger] taken[i]) < total_at(
            taken,
            i,
            strength,
            delay,
            memory,
        )
    &&& time == return_time_of(path)
    &&& time < steps ==> path[time] == LatticePoint::spec_origin()
    &&& possible_return_time(time, steps)
}

/// A path that is away from the origin at every point between its ends
/// records its full length.
pub proof fn lemma_no_early_return(path: Seq<LatticePoint>)
    requires
        path.len() > 0,
        forall|k: int|
            1 <= k < path.len() - 1 ==> #[trigger] path[k] != LatticePoint::spec_origin(),
    ensures
        return_time_of(path) == path.len() - 1,
{
    lemma_return_time_is_first(path, 0);
}

/// One live trial of the plain walk with a budget of `steps` steps. The
/// numbers it takes from `source` are the ones added to the record of
/// `source` during the call.
fn random_return_time(steps: usize, source: &mut RandomSource) -> (time: usize)
    requires
        steps <= MAX_STEPS,
    ensures
        final(source).drawn() == old(source).drawn() + drawn_since(
            old(source).drawn(),
            final(source).drawn(),
        ),
        plain_trial(
            drawn_since(old(source).drawn(), final(source).drawn()),
            steps as int,
            time as int,
        ),
{
    let ghost start = source.drawn();
    let ghost mut draws: Seq<u128> = Seq::empty();
    let mut position = LatticePoint::origin();
    let mut taken: usize = 0;
    proof {
        assert(start + draws =~= start);
    }
    while taken < steps
        invariant
            taken <= steps <= MAX_STEPS,
            start == old(source).drawn(),
            source.drawn() == start + draws,
            draws.len() == taken,
            forall|i: int| 0 <= i < draws.len() ==> #[trigger] draws[i] < 4,
            position == position_after(moves_of(draws), taken as int),
            forall|k: int|
                1 <= k <= taken ==> #[trigger] position_after(moves_of(draws), k)
                    != LatticePoint::spec_origin(),
            position.within(taken as int),
            (position.x + position.y + taken) % 2 == 0,
        decreases steps - taken,
    {
        let draw = source.below(4);
        let next = position.step(Direction::from_index(draw as usize));
        proof {
            let longer = draws.push(draw);
            assert(start + longer =~= (start + draws).push(draw));
            assert forall|k: int| 0 <= k <= taken implies #[trigger] position_after(
                moves_of(longer),
                k,
            ) == position_after(moves_of(draws), k) by {
                lemma_position_prefix(moves_of(longer), moves_of(draws), k);
            }
            assert(position_after(moves_of(longer), taken as int) == position);
            assert(moves_of(longer)[taken as int] == Direction::at(draw as int));
            assert(position_after(moves_of(longer), taken + 1) == next);
            lemma_move_parity(position, next, taken as int);
            draws = longer;
        }
        position = next;
        taken = taken + 1;
        if position.x == 0 && position.y == 0 {
            proof {
                let path = path_along(moves_of(draws));
                assert(drawn_since(start, source.drawn()) =~= draws);
                assert forall|k: int| 1 <= k < path.len() - 1 implies #[trigger] path[k]
                    != LatticePoint::spec_origin() by {
                    assert(position_after(moves_of(draws), k) != LatticePoint::spec_origin());
                }
                lemma_no_early_return(path);
                assert(path[taken as int] == position);
            }
            return taken;
        }
    }
    proof {
        let path = path_along(moves_of(draws));
        assert(drawn_since(start, source.drawn()) =~= draws);
        assert forall|k: int| 1 <= k < path.len() - 1 implies #[trigger] path[k]
            != LatticePoint::spec_origin() by {
            assert(position_after(moves_of(draws), k) != LatticePoint::spec_origin());
        }
        lemma_no_early_return(path);
    }
    taken
}

/// A live reinforced trial that has taken the numbers `draws` and may go
/// on: each number was below the sum of the weights at its step, and the
/// walk was away from the origin after each step but perhaps the last.
#[verifier::opaque]
spec fn trial_so_far(draws: Seq<u128>, strength: nat, delay: nat, memory: nat) -> bool {
    &&& forall|i: int|
        0 <= i < draws.len() ==> (#[trigger] draws[i]) < total_at(
            draws,
            i,
            strength,
            delay,
            memory,
        )
    &&& forall|k: int|
        1 <= k < draws.len() ==> (#[trigger] state_after(
            draws,
            k,
            strength,
            delay,
            memory,
        )).position != LatticePoint::spec_origin()
}

/// A trial that has not started yet.
proof fn lemma_trial_start(strength: nat, delay: nat, memory: nat)
    ensures
        trial_so_far(Seq::<u128>::empty(), strength, delay, memory),
{
    reveal(trial_so_far);
}

/// One more step of a live reinforced trial: the walk whose steps so far
/// used `draws` stands away from the origin and takes `draw`.
proof fn lemma_trial_step(
    draws: Seq<u128>,
    draw: u128,
    state: WalkState,
    next: WalkState,
    strength: nat,
    delay: nat,
    memory: nat,
)
    requires
        trial_so_far(draws, strength, delay, memory),
        state_after(draws, draws.len() as int, strength, delay, memory) == state,
        draws.len() > 0 ==> state.position != LatticePoint::spec_origin(),
        draw < total_of(
            weights_around(state.position, state.ledger, draws.len(), delay, strength),
        ),
        next.position == chosen(
            state.position,
            state.ledger,
            draws.len(),
            delay,
            strength,
            draw as nat,
        ),
        next.ledger == state.ledger.recorded(EdgeKey::between(state.position, next.position)),
    ensures
        trial_so_far(draws.push(draw), strength, delay, memory),
        state_after(draws.push(draw), draws.len() as int + 1, strength, delay, memory) == next,
{
    reveal(trial_so_far);
    let longer = draws.push(draw);
    assert forall|k: int| 0 <= k <= draws.len() implies #[trigger] state_after(
        longer,
        k,
        strength,
        delay,
        memory,
    ) == state_after(draws, k, strength, delay, memory) by {
        lemma_state_prefix(longer, draws, k, strength, delay, memory);
    }
    assert(state_after(longer, draws.len() as int, strength, delay, memory) == state);
    assert(longer[draws.len() as int] == draw);
    assert forall|i: int| 0 <= i < longer.len() implies (#[trigger] longer[i]) < total_at(
        longer,
        i,
        strength,
        delay,
        memory,
    ) by {
        assert(state_after(longer, i, strength, delay, memory) == state_after(
            draws,
            i,
            strength,
            delay,
            memory,
        ));
        if i < draws.len() {
            assert(longer[i] == draws[i]);
            assert(draws[i] < total_at(draws, i, strength, delay, memory));
        }
    }
    assert forall|k: int| 1 <= k < longer.len() implies (#[trigger] state_after(
        longer,
        k,
        strength,
        delay,
        memory,
    )).position != LatticePoint::spec_origin() by {
        assert(state_after(longer, k, strength, delay, memory) == state_after(
            draws,
            k,
            strength,
            delay,
            memory,
        ));
    }
}

/// The end of a live reinforced trial: it stopped at the origin, or with
/// its budget spent.
proof fn lemma_trial_end(
    draws: Seq<u128>,
    steps: int,
    last: LatticePoint,
    strength: nat,
    delay: nat,
    memory: nat,
)
    requires
        trial_so_far(draws, strength, delay, memory),
        state_after(draws, draws.len() as int, strength, delay, memory).position == last,
        possible_return_time(draws.len() as int, steps),
        draws.len() < steps ==> last == LatticePoint::spec_origin(),
    ensures
        reinforced_trial(draws, steps, draws.len() as int, strength, delay, memory),
{
    reveal(trial_so_far);
    let path = reinforced_path(draws, strength, delay, memory);
    assert forall|k: int| 1 <= k < path.len() - 1 implies #[trigger] path[k]
        != LatticePoint::spec_origin() by {
        assert(state_after(draws, k, strength, delay, memory).position
            != LatticePoint::spec_origin());
    }
    lemma_no_early_return(path);
}

/// One live trial of the reinforced walk with a budget of `steps` steps.
/// The numbers it takes from `source` are the ones added to the record of
/// `source` during the call.
fn random_erw_return_time(
    steps: usize,
    strength: u64,
    delay: usize,
    memory: usize,
    source: &mut RandomSource,
) -> (time: usize)
    requires
        steps <= MAX_STEPS,
    ensures
        final(source).drawn() == old(source).drawn() + drawn_since(
            old(source).drawn(),
            final(source).drawn(),
        ),
        reinforced_trial(
            drawn_since(old(source).drawn(), final(source).drawn()),
            steps as int,
            time as int,
            strength as nat,
            delay as nat,
            memory as nat,
        ),
{
    let ghost start = source.drawn();
    let ghost mut draws: Seq<u128> = Seq::empty();
    let mut position = LatticePoint::origin();
    let mut ledger = Ledger::new(memory);
    let mut taken: usize = 0;
    proof {
        assert(start + draws =~= start);
        lemma_trial_start(strength as nat, delay as nat, memory as nat);
    }
    while taken < steps
        invariant
            taken <= steps <= MAX_STEPS,
            start == old(source).drawn(),
            source.drawn() == start + draws,
            draws.len() == taken,
            trial_so_far(draws, strength as nat, delay as nat, memory as nat),
            state_after(draws, taken as int, strength as nat, delay as nat, memory as nat) == (
            WalkState { position, ledger: ledger@ }),
            taken > 0 ==> position != LatticePoint::spec_origin(),
            position.within(taken as int),
            (position.x + position.y + taken) % 2 == 0,
            ledger@.wf(),
            forall|key: EdgeKey| #[trigger] ledger@.count(key) <= taken,
        decreases steps - taken,
    {
        let next = sample_next(position, &ledger, taken, delay, strength, source);
        let key = edge_key(position, next);
        let ghost before = ledger@;
        ledger.record_traversal(key);
        proof {
            let draw = source.drawn().last();
            assert(start + draws.push(draw) =~= (start + draws).push(draw));
            lemma_trial_step(
                draws,
                draw,
                WalkState { position, ledger: before },
                WalkState { position: next, ledger: ledger@ },
                strength as nat,
                delay as nat,
                memory as nat,
            );
            assert forall|other: EdgeKey| #[trigger] ledger@.count(other) <= taken + 1 by {
                lemma_recorded_counts(before, key, other);
                assert(before.count(other) <= taken);
            }
            lemma_move_parity(position, next, taken as int);
            draws = draws.push(draw);
        }
        position = next;
        taken = taken + 1;
        if position.x == 0 && position.y == 0 {
            proof {
                assert(drawn_since(start, source.drawn()) =~= draws);
                lemma_trial_end(
                    draws,
                    steps as int,
                    position,
                    strength as nat,
                    delay as nat,
                    memory as nat,
                );
            }
            return taken;
        }
    }
    proof {
        assert(drawn_since(start, source.drawn()) =~= draws);
        lemma_trial_end(
            draws,
            steps as int,
            position,
            strength as nat,
            delay as nat,
            memory as nat,
        );
    }
    taken
}

/// Monte Carlo total of the first-return time of the plain walk: `trials`
/// independent trials of at most `steps` steps each, every trial recording
/// its return time or, if it did not return, `steps`. The estimate of the
/// mean return time is the total divided by `trials`.
///
/// Without a trial there is no mean, and the call is refused.
pub fn monte_carlo_et(trials: usize, steps: usize) -> (result: Result<u64, EstimateError>)
    requires
        steps <= MAX_STEPS,
        trials * steps <= u64::MAX,
    ensures
        match result {
            Ok(total) => {
                &&& trials > 0
                &&& total <= trials * steps
                &&& exists|times: Seq<int>|
                    {
                        &&& times.len() == trials
                        &&& forall|j: int|
                            0 <= j < trials ==> possible_return_time(
                                #[trigger] times[j],
                                steps as int,
                            )
                        &&& total == sum_of(times)
                    }
            },
            Err(e) => trials == 0 && e == EstimateError::InvalidArgument,
        },
{
    if trials == 0 {
        return Err(EstimateError::InvalidArgument);
    }
    let mut source = RandomSource::new();
    let mut total: u64 = 0;
    let ghost mut times: Seq<int> = Seq::empty();
    let mut done: usize = 0;
    while done < trials
        invariant
            done <= trials,
            steps <= MAX_STEPS,
            trials * steps <= u64::MAX,
            times.len() == done,
            forall|j: int| 0 <= j < done ==> possible_return_time(#[trigger] times[j], steps as int),
            total == sum_of(times),
            total <= done * steps,
        decreases trials - done,
    {
        let time = random_return_time(steps, &mut source);
        proof {
            assert(times.push(time as int).drop_last() =~= times);
            times = times.push(time as int);
            assert((done + 1) * steps == done * steps + steps) by (nonlinear_arith);
            assert((done + 1) * steps <= trials * steps) by (nonlinear_arith)
                requires
                    done + 1 <= trials,
                    0 <= steps,
            ;
        }
        total = total + time as u64;
        done = done + 1;
    }
    Ok(total)
}

/// Monte Carlo total of the first-return time of the edge-reinforced walk.
/// Every trial starts with a fresh ledger; `strength`, `delay` and `memory`
/// mean what they mean for a reinforced walk.
///
/// Without a trial there is no mean, and the call is refused.
pub fn monte_carlo_erw_et(
    trials: usize,
    steps: usize,
    strength: u64,
    delay: usize,
    memory: usize,
) -> (result: Result<u64, EstimateError>)
    requires
        steps <= MAX_STEPS,
        trials * steps <= u64::MAX,
    ensures
        match result {
            Ok(total) => {
                &&& trials > 0
                &&& total <= trials * steps
                &&& exists|times: Seq<int>|
                    {
                        &&& times.len() == trials
                        &&& forall|j: int|
                            0 <= j < trials ==> possible_return_time(
                                #[trigger] times[j],
                                steps as int,
                            )
                        &&& total == sum_of(times)
                    }
            },
            Err(e) => trials == 0 && e == EstimateError::InvalidArgument,
        },
{
    if trials == 0 {
        return Err(EstimateError::InvalidArgument);
    }
    let mut source = RandomSource::new();
    let mut total: u64 = 0;
    let ghost mut times: Seq<int> = Seq::empty();
    let mut done: usize = 0;
    while done < trials
        invariant
            done <= trials,
            steps <= MAX_STEPS,
            trials * steps <= u64::MAX,
            times.len() == done,
            forall|j: int| 0 <= j < done ==> possible_return_time(#[trigger] times[j], steps as int),
            total == sum_of(times),
            total <= done * steps,
        decreases trials - done,
    {
        let time = random_erw_return_time(steps, strength, delay, memory, &mut source);
        proof {
            assert(times.push(time as int).drop_last() =~= times);
            times = times.push(time as int);
            assert((done + 1) * steps == done * steps + steps) by (nonlinear_arith);
            assert((done + 1) * steps <= trials * steps) by (nonlinear_arith)
                requires
                    done + 1 <= trials,
                    0 <= steps,
            ;
        }
        total = total + time as u64;
        done = done + 1;
    }
    Ok(total)
}

/// The plain estimator replayed: trial `j` walks along `runs[j]`. The
/// result depends on nothing but `runs`.
pub fn replay_monte_carlo_et(runs: &Vec<Vec<Direction>>) -> (result: Result<u64, EstimateError>)
    requires
        forall|j: int| 0 <= j < runs@.len() ==> (#[trigger] runs@[j])@.len() <= MAX_STEPS,
        total_len(runs@) <= u64::MAX,
    ensures
        match result {
            Ok(total) => runs@.len() > 0 && total == total_return_time(runs@),
            Err(e) => runs@.len() == 0 && e == EstimateError::InvalidArgument,
        },
{
    if runs.len() == 0 {
        return Err(EstimateError::InvalidArgument);
    }
    let mut total: u64 = 0;
    let mut done: usize = 0;
    while done < runs.len()
        invariant
            done <= runs@.len(),
            forall|j: int| 0 <= j < runs@.len() ==> (#[trigger] runs@[j])@.len() <= MAX_STEPS,
            total_len(runs@) <= u64::MAX,
            total == total_return_time(runs@.take(done as int)),
            total <= total_len(runs@.take(done as int)),
        decreases runs@.len() - done,
    {
        let time = return_time(&runs[done]);
        proof {
            assert(runs@.take(done + 1).drop_last() =~= runs@.take(done as int));
            lemma_total_len_prefix(runs@, done + 1);
        }
        total = total + time as u64;
        done = done + 1;
    }
    assert(runs@.take(done as int) =~= runs@);
    Ok(total)
}

/// The reinforced estimator replayed: trial `j` uses the numbers
/// `runs[j]` in place of its draws. The result depends on nothing but the
/// arguments.
pub fn replay_monte_carlo_erw_et(
    runs: &Vec<Vec<u128>>,
    strength: u64,
    delay: usize,
    memory: usize,
) -> (result: Result<u64, EstimateError>)
    requires
        forall|j: int| 0 <= j < runs@.len() ==> (#[trigger] runs@[j])@.len() <= MAX_STEPS,
        total_len(runs@) <= u64::MAX,
    ensures
        match result {
            Ok(total) => runs@.len() > 0 && total == total_erw_return_time(
                runs@,
                strength as nat,
                delay as nat,
                memory as nat,
            ),
            Err(e) => runs@.len() == 0 && e == EstimateError::InvalidArgument,
        },
{
    if runs.len() == 0 {
        return Err(EstimateError::InvalidArgument);
    }
    let mut total: u64 = 0;
    let mut done: usize = 0;
    while done < runs.len()
        invariant
            done <= runs@.len(),
            forall|j: int| 0 <= j < runs@.len() ==> (#[trigger] runs@[j])@.len() <= MAX_STEPS,
            total_len(runs@) <= u64::MAX,
            total == total_erw_return_time(
                runs@.take(done as int),
                strength as nat,
                delay as nat,
                memory as nat,
            ),
            total <= total_len(runs@.take(done as int)),
        decreases runs@.len() - done,
    {
        let time = erw_return_time(&runs[done], strength, delay, memory);
        proof {
            assert(runs@.take(done + 1).drop_last() =~= runs@.take(done as int));
            lemma_total_len_prefix(runs@, done + 1);
        }
        total = total + time as u64;
        done = done + 1;
    }
    assert(runs@.take(done as int) =~= runs@);
    Ok(total)
}

} // verus!
