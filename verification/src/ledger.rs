//! The reinforcement ledger: how often each edge has been crossed, with an
//! optional window that forgets all but the most recent crossings.

use crate::lattice::EdgeKey;
use std::collections::HashMap;
use std::collections::VecDeque;
use vstd::prelude::*;

verus! {

/// Number of entries of `s` that equal `key`.
pub open spec fn occurrences(s: Seq<EdgeKey>, key: EdgeKey) -> nat
    decreases s.len(),
{
    if s.len() == 0 {
        0
    } else {
        occurrences(s.drop_last(), key) + if s.last() == key {
            1nat
        } else {
            0nat
        }
    }
}

/// One less, but never below zero.
pub open spec fn floor_dec(c: nat) -> nat {
    if c > 0 {
        (c - 1) as nat
    } else {
        0
    }
}

/// The last `memory` entries of `s`, or all of `s` if it has no more.
pub open spec fn window(s: Seq<EdgeKey>, memory: nat) -> Seq<EdgeKey> {
    if s.len() > memory {
        s.subrange(s.len() - memory, s.len() as int)
    } else {
        s
    }
}

/// What a ledger holds, as mathematics.
pub struct LedgerView {
    /// Traversal count of every edge that was ever recorded.
    pub counts: Map<EdgeKey, nat>,
    /// The remembered traversals, oldest first. Empty when memory is unbounded.
    pub history: Seq<EdgeKey>,
    /// Length of the memory window; zero means that nothing is ever forgotten.
    pub memory: nat,
}

impl LedgerView {
    /// A ledger in which no traversal has been recorded.
    pub open spec fn fresh(memory: nat) -> LedgerView {
        LedgerView { counts: Map::empty(), history: Seq::empty(), memory }
    }

    /// The count of `key`; an edge without an entry counts zero.
    pub open spec fn count(self, key: EdgeKey) -> nat {
        if self.counts.contains_key(key) {
            self.counts[key]
        } else {
            0
        }
    }

    /// With unbounded memory there is no history. With a window of `memory`
    /// traversals the history is no longer than that, and each count is the
    /// number of times its edge occurs in the history.
    pub open spec fn wf(self) -> bool {
        if self.memory == 0 {
            self.history.len() == 0
        } else {
            &&& self.history.len() <= self.memory
            &&& forall|key: EdgeKey| #[trigger] self.count(key) == occurrences(self.history, key)
        }
    }

    /// The ledger after one more traversal of `key`: the count of `key` goes
    /// up by one; with a bounded memory the traversal joins the history, and
    /// if the history then exceeds the window its oldest entry leaves and the
    /// count of that entry's edge goes down by one, but not below zero.
    pub open spec fn recorded(self, key: EdgeKey) -> LedgerView {
        let bumped = self.counts.insert(key, self.count(key) + 1);
        if self.memory == 0 {
            LedgerView { counts: bumped, history: self.history, memory: self.memory }
        } else {
            let longer = self.history.push(key);
            if longer.len() > self.memory {
                let oldest = longer[0];
                LedgerView {
                    counts: if bumped.contains_key(oldest) {
                        bumped.insert(oldest, floor_dec(bumped[oldest]))
                    } else {
                        bumped
                    },
                    history: longer.drop_first(),
                    memory: self.memory,
                }
            } else {
                LedgerView { counts: bumped, history: longer, memory: self.memory }
            }
        }
    }

    /// The ledger after the traversals `keys`, recorded in order.
    pub open spec fn recorded_all(self, keys: Seq<EdgeKey>) -> LedgerView
        decreases keys.len(),
    {
        if keys.len() == 0 {
            self
        } else {
            self.recorded_all(keys.drop_last()).recorded(keys.last())
        }
    }
}

/// Appending an entry raises the number of occurrences of that entry by one
/// and leaves the others.
pub proof fn lemma_occurrences_push(s: Seq<EdgeKey>, last: EdgeKey, key: EdgeKey)
    ensures
        occurrences(s.push(last), key) == occurrences(s, key) + if last == key {
            1nat
        } else {
            0nat
        },
{
    assert(s.push(last).drop_last() =~= s);
}

/// Dropping the first entry lowers the number of occurrences of that entry
/// by one and leaves the others.
pub proof fn lemma_occurrences_drop_first(s: Seq<EdgeKey>, key: EdgeKey)
    requires
        s.len() > 0,
    ensures
        occurrences(s, key) == occurrences(s.drop_first(), key) + if s[0] == key {
            1nat
        } else {
            0nat
        },
    decreases s.len(),
{
    if s.len() == 1 {
        assert(occurrences(s.drop_first(), key) == 0);
        assert(occurrences(s.drop_last(), key) == 0);
        assert(s.last() == s[0]);
    } else {
        lemma_occurrences_drop_first(s.drop_last(), key);
        assert(s.drop_first().drop_last() =~= s.drop_last().drop_first());
        assert(s.drop_first().last() == s.last());
        assert(s.drop_last()[0] == s[0]);
    }
}

/// An entry that does not occur has no occurrences, and the other way round.
pub proof fn lemma_occurrences_zero(s: Seq<EdgeKey>, key: EdgeKey)
    ensures
        occurrences(s, key) == 0 <==> !s.contains(key),
    decreases s.len(),
{
    if s.len() > 0 {
        lemma_occurrences_zero(s.drop_last(), key);
        if s.contains(key) {
            let i = choose|i: int| 0 <= i < s.len() && s[i] == key;
            if i < s.len() - 1 {
                assert(s.drop_last()[i] == key);
            }
        } else if s.drop_last().contains(key) {
            let i = choose|i: int| 0 <= i < s.drop_last().len() && s.drop_last()[i] == key;
            assert(s[i] == key);
        }
    }
}

/// Recording a traversal keeps a ledger well formed.
pub proof fn lemma_recorded_wf(l: LedgerView, key: EdgeKey)
    requires
        l.wf(),
    ensures
        l.recorded(key).wf(),
        l.recorded(key).memory == l.memory,
{
    if l.memory > 0 {
        let bumped = LedgerView {
            counts: l.counts.insert(key, l.count(key) + 1),
            history: l.history.push(key),
            memory: l.memory,
        };
        assert forall|k: EdgeKey| #[trigger] bumped.count(k) == occurrences(bumped.history, k) by {
            lemma_occurrences_push(l.history, key, k);
            assert(l.count(k) == occurrences(l.history, k));
        }
        if bumped.history.len() > l.memory {
            let oldest = bumped.history[0];
            let after = l.recorded(key);
            lemma_occurrences_drop_first(bumped.history, oldest);
            assert(bumped.count(oldest) == occurrences(bumped.history, oldest));
            assert(bumped.counts.contains_key(oldest));
            assert forall|k: EdgeKey| #[trigger] after.count(k) == occurrences(after.history, k) by {
                lemma_occurrences_drop_first(bumped.history, k);
                assert(bumped.count(k) == occurrences(bumped.history, k));
            }
        } else {
            assert(l.recorded(key) == bumped);
        }
    }
}

/// One traversal raises the count of its own edge by at most one and raises
/// no other count; it lowers any count by at most one.
pub proof fn lemma_recorded_counts(l: LedgerView, key: EdgeKey, other: EdgeKey)
    ensures
        l.recorded(key).count(other) <= l.count(other) + if other == key {
            1nat
        } else {
            0nat
        },
        l.count(other) <= l.recorded(key).count(other) + 1,
        l.memory == 0 ==> l.recorded(key).count(other) == l.count(other) + if other == key {
            1nat
        } else {
            0nat
        },
{
}

/// Recording any number of traversals keeps a ledger well formed.
pub proof fn lemma_recorded_all_wf(l: LedgerView, keys: Seq<EdgeKey>)
    requires
        l.wf(),
    ensures
        l.recorded_all(keys).wf(),
        l.recorded_all(keys).memory == l.memory,
    decreases keys.len(),
{
    if keys.len() > 0 {
        lemma_recorded_all_wf(l, keys.drop_last());
        lemma_recorded_wf(l.recorded_all(keys.drop_last()), keys.last());
    }
}

/// With a bounded memory, the history after any traversals is the window
/// over everything that was remembered before, followed by those traversals.
pub proof fn lemma_history_is_window(l: LedgerView, keys: Seq<EdgeKey>)
    requires
        l.wf(),
        l.memory > 0,
    ensures
        l.recorded_all(keys).history == window(l.history + keys, l.memory),
        l.recorded_all(keys).memory == l.memory,
    decreases keys.len(),
{
    if keys.len() == 0 {
        assert(l.history + keys =~= l.history);
    } else {
        let earlier = keys.drop_last();
        lemma_history_is_window(l, earlier);
        let all = l.history + earlier;
        assert(all.push(keys.last()) =~= l.history + keys);
        assert(l.recorded_all(keys).history =~= window(all.push(keys.last()), l.memory));
    }
}

/// Bounded memory forgets. Take a ledger with a window of `m` traversals,
/// cross `edge` once, and then cross `m` edges other than `edge`. The count
/// of `edge` is then zero, which is also what it would be had `edge` not
/// been crossed at all; if `edge` was not in the window to begin with, its
/// count is back to what it was before the crossing.
pub proof fn lemma_traversal_is_forgotten(l: LedgerView, edge: EdgeKey, others: Seq<EdgeKey>)
    requires
        l.wf(),
        l.memory > 0,
        others.len() == l.memory,
        forall|i: int| 0 <= i < others.len() ==> others[i] != edge,
    ensures
        l.recorded(edge).recorded_all(others).count(edge) == 0,
        l.recorded(edge).recorded_all(others).count(edge) == l.recorded_all(others).count(edge),
        !l.history.contains(edge) ==> l.recorded(edge).recorded_all(others).count(edge) == l.count(
            edge,
        ),
{
    let crossed = l.recorded(edge);
    lemma_recorded_wf(l, edge);
    lemma_recorded_all_wf(crossed, others);
    lemma_recorded_all_wf(l, others);
    lemma_history_is_window(crossed, others);
    lemma_history_is_window(l, others);
    assert(window(crossed.history + others, l.memory) =~= others);
    assert(window(l.history + others, l.memory) =~= others);
    lemma_occurrences_zero(others, edge);
    lemma_occurrences_zero(l.history, edge);
    assert(crossed.recorded_all(others).count(edge) == occurrences(others, edge));
    assert(l.recorded_all(others).count(edge) == occurrences(others, edge));
    assert(l.count(edge) == occurrences(l.history, edge));
}

/// Unbounded memory forgets nothing. After any traversals, the count of
/// every edge is what it was before plus the number of times the edge was
/// crossed since; so no count ever goes down, and in a ledger that started
/// empty an edge crossed `k` times counts exactly `k`, whatever else was
/// crossed in between.
pub proof fn lemma_unbounded_counts(l: LedgerView, keys: Seq<EdgeKey>, edge: EdgeKey)
    requires
        l.memory == 0,
    ensures
        l.recorded_all(keys).memory == 0,
        l.recorded_all(keys).count(edge) == l.count(edge) + occurrences(keys, edge),
        l.recorded_all(keys).count(edge) >= l.count(edge),
        LedgerView::fresh(0).recorded_all(keys).count(edge) == occurrences(keys, edge),
    decreases keys.len(),
{
    if keys.len() > 0 {
        lemma_unbounded_counts(l, keys.drop_last(), edge);
        lemma_unbounded_counts(LedgerView::fresh(0), keys.drop_last(), edge);
    }
}

/// A coordinate shifted into the range of a `u32`.
spec fn lifted(v: i32) -> int {
    v - i32::MIN
}

/// The four coordinates of a key written as the base-2^32 digits of one
/// number, under which the hash map files the key's count.
spec fn code_of(key: EdgeKey) -> int {
    ((lifted(key.low.x) * 0x1_0000_0000 + lifted(key.low.y)) * 0x1_0000_0000 + lifted(
        key.high.x,
    )) * 0x1_0000_0000 + lifted(key.high.y)
}

/// A number written as `high * 2^32 + low` with a digit `low` has only one
/// such writing.
proof fn lemma_digits_unique(high_a: int, low_a: int, high_b: int, low_b: int)
    requires
        0 <= low_a < 0x1_0000_0000,
        0 <= low_b < 0x1_0000_0000,
        high_a * 0x1_0000_0000 + low_a == high_b * 0x1_0000_0000 + low_b,
    ensures
        high_a == high_b,
        low_a == low_b,
{
}

proof fn lemma_code_injective(a: EdgeKey, b: EdgeKey)
    ensures
        code_of(a) == code_of(b) <==> a == b,
        0 <= code_of(a) <= u128::MAX,
{
    if code_of(a) == code_of(b) {
        let a2 = (lifted(a.low.x) * 0x1_0000_0000 + lifted(a.low.y)) * 0x1_0000_0000 + lifted(
            a.high.x,
        );
        let b2 = (lifted(b.low.x) * 0x1_0000_0000 + lifted(b.low.y)) * 0x1_0000_0000 + lifted(
            b.high.x,
        );
        lemma_digits_unique(a2, lifted(a.high.y), b2, lifted(b.high.y));
        let a1 = lifted(a.low.x) * 0x1_0000_0000 + lifted(a.low.y);
        let b1 = lifted(b.low.x) * 0x1_0000_0000 + lifted(b.low.y);
        lemma_digits_unique(a1, lifted(a.high.x), b1, lifted(b.high.x));
        lemma_digits_unique(lifted(a.low.x), lifted(a.low.y), lifted(b.low.x), lifted(b.low.y));
    }
}

fn lift(v: i32) -> (u: u128)
    ensures
        u == lifted(v),
        u < 0x1_0000_0000,
{
    let wide: i64 = v as i64 - i32::MIN as i64;
    wide as u128
}

fn pack(key: &EdgeKey) -> (code: u128)
    ensures
        code == code_of(*key),
{
    let a: u128 = lift(key.low.x);
    let b: u128 = lift(key.low.y);
    let c: u128 = lift(key.high.x);
    let d: u128 = lift(key.high.y);
    ((a * 0x1_0000_0000 + b) * 0x1_0000_0000 + c) * 0x1_0000_0000 + d
}

/// Traversal counts of the edges of one walk, together with the window of
/// traversals that are still remembered.
pub struct Ledger {
    counts: HashMap<u128, u32>,
    history: VecDeque<EdgeKey>,
    memory: usize,
}

impl View for Ledger {
    type V = LedgerView;

    closed spec fn view(&self) -> LedgerView {
        LedgerView {
            counts: Map::new(
                |key: EdgeKey| self.counts@.contains_key(code_of(key) as u128),
                |key: EdgeKey| self.counts@[code_of(key) as u128] as nat,
            ),
            history: self.history@,
            memory: self.memory as nat,
        }
    }
}

impl Ledger {
    /// An empty ledger that remembers the last `memory` traversals, or all
    /// of them if `memory` is zero.
    pub fn new(memory: usize) -> (ledger: Ledger)
        ensures
            ledger@ == LedgerView::fresh(memory as nat),
            ledger@.wf(),
    {
        let ledger = Ledger { counts: HashMap::new(), history: VecDeque::new(), memory };
        assert(ledger@.counts =~= Map::empty());
        assert(ledger@.history =~= Seq::empty());
        assert forall|key: EdgeKey| #[trigger]
            ledger@.count(key) == occurrences(ledger@.history, key) by {}
        ledger
    }

    /// The window length the ledger was made with.
    pub fn memory(&self) -> (memory: usize)
        ensures
            memory == self@.memory,
    {
        self.memory
    }

    /// Number of remembered traversals.
    pub fn history_len(&self) -> (len: usize)
        ensures
            len == self@.history.len(),
    {
        self.history.len()
    }

    /// How often `key` counts as crossed; zero for an edge never recorded.
    pub fn count(&self, key: &EdgeKey) -> (count: u32)
        ensures
            count == self@.count(*key),
    {
        let code = pack(key);
        match self.counts.get(&code) {
            Some(count) => *count,
            None => 0,
        }
    }

    /// Records one traversal of `key`.
    ///
    /// The count of `key` goes up by one. With a bounded memory the
    /// traversal also enters the history, and once the history is longer
    /// than the window its oldest entry is dropped and the count of that
    /// entry's edge is lowered by one, never below zero.
    pub fn record_traversal(&mut self, key: EdgeKey)
        requires
            old(self)@.wf(),
            old(self)@.count(key) < u32::MAX,
        ensures
            final(self)@ == old(self)@.recorded(key),
            final(self)@.wf(),
            final(self)@.memory == old(self)@.memory,
            old(self)@.memory == 0 ==> forall|k: EdgeKey|
                old(self)@.count(k) <= #[trigger] final(self)@.count(k),
    {
        let code = pack(&key);
        let before = match self.counts.get(&code) {
            Some(count) => *count,
            None => 0,
        };
        self.counts.insert(code, before + 1);
        let ghost bumped = old(self)@.counts.insert(key, old(self)@.count(key) + 1);
        proof {
            assert forall|k: EdgeKey| code_of(k) == code_of(key) <==> k == key by {
                lemma_code_injective(k, key);
            }
            assert(self@.counts =~= bumped);
        }
        if self.memory > 0 {
            self.history.push_back(key);
            if self.history.len() > self.memory {
                match self.history.pop_front() {
                    Some(oldest) => {
                        let oldest_code = pack(&oldest);
                        match self.counts.get(&oldest_code) {
                            Some(count) => {
                                let lowered = count.saturating_sub(1);
                                self.counts.insert(oldest_code, lowered);
                                proof {
                                    assert forall|k: EdgeKey|
                                        code_of(k) == code_of(oldest) <==> k == oldest by {
                                        lemma_code_injective(k, oldest);
                                    }
                                    assert(self@.counts =~= bumped.insert(
                                        oldest,
                                        floor_dec(bumped[oldest]),
                                    ));
                                }
                            },
                            None => {},
                        }
                    },
                    None => {},
                }
            }
        }
        proof {
            assert(self@.history =~= old(self)@.recorded(key).history);
            lemma_recorded_wf(old(self)@, key);
        }
    }
}

} // verus!
