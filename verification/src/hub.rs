//! The rendezvous hub: deposits wait for consumers and consumers wait for
//! deposits, key by key, each in order of arrival.
//!
//! The hub is a plain value. Whoever shares it between tasks keeps it behind
//! a lock and performs the hand-offs that `submit` and `acquire` return.

use crate::keyed;
use std::collections::VecDeque;
use vstd::prelude::*;

verus! {

/// A key under which values are deposited and withdrawn.
pub trait Key: View + Sized {
    /// Whether `self` and `other` are the same key.
    fn same(&self, other: &Self) -> (b: bool)
        ensures
            b == (self@ == other@),
    ;
}

/// A value that can tell whether anyone still listens for what becomes of
/// it. The answer may change from one call to the next.
pub trait IsValid {
    fn is_valid(&self) -> bool;
}

/// A deposit paired with the consumer that is to receive it.
pub struct Handoff<V, W> {
    pub value: V,
    pub waiter: W,
}

/// What is pending under one key: the deposits not yet delivered and the
/// consumers not yet served, both oldest first.
#[verifier::ext_equal]
pub struct Line<V, W> {
    pub values: Seq<V>,
    pub waiters: Seq<W>,
}

impl<V, W> Line<V, W> {
    /// The line with nothing pending.
    pub open spec fn empty() -> Line<V, W> {
        Line { values: Seq::empty(), waiters: Seq::empty() }
    }

    /// Whether nothing is pending.
    pub open spec fn is_empty(self) -> bool {
        self.values.len() == 0 && self.waiters.len() == 0
    }

    /// Whether deposits and consumers never wait at the same time.
    pub open spec fn settled(self) -> bool {
        self.values.len() == 0 || self.waiters.len() == 0
    }
}

/// The values of `values` that a sweep with the verdicts `live` leaves, in
/// their order. A value without a verdict stays.
pub open spec fn kept<T>(values: Seq<T>, live: Seq<bool>) -> Seq<T>
    decreases values.len(),
{
    if values.len() == 0 {
        Seq::empty()
    } else if values.len() <= live.len() && !live[values.len() - 1] {
        kept(values.drop_last(), live)
    } else {
        kept(values.drop_last(), live).push(values.last())
    }
}

/// Whether `after` is what some sweep leaves of `before`.
pub open spec fn sifted<T>(before: Seq<T>, after: Seq<T>) -> bool {
    exists|live: Seq<bool>| after == #[trigger] kept(before, live)
}

/// A sweep without verdicts leaves everything.
pub proof fn lemma_kept_without_verdicts<T>(values: Seq<T>)
    ensures
        kept(values, Seq::<bool>::empty()) == values,
        sifted(values, values),
    decreases values.len(),
{
    if values.len() > 0 {
        lemma_kept_without_verdicts(values.drop_last());
        assert(values.drop_last().push(values.last()) == values);
    }
    assert(kept(values, Seq::<bool>::empty()) == values);
}

/// A sweep never lengthens a queue.
pub proof fn lemma_kept_len<T>(values: Seq<T>, live: Seq<bool>)
    ensures
        kept(values, live).len() <= values.len(),
    decreases values.len(),
{
    if values.len() > 0 {
        lemma_kept_len(values.drop_last(), live);
    }
}

/// The positions `0..n`, in order.
pub open spec fn positions(n: nat) -> Seq<int> {
    Seq::new(n, |i: int| i)
}

/// Whether a sweep with the verdicts `live` evicts what stands at position
/// `i`.
pub open spec fn evicted_at(live: Seq<bool>, i: int) -> bool {
    0 <= i < live.len() && !live[i]
}

/// What a sweep leaves is what stood at the positions it leaves, in their
/// order; those positions ascend, lie within the queue, and none of them
/// is one the sweep evicts.
pub proof fn lemma_kept_positions<T>(values: Seq<T>, live: Seq<bool>)
    ensures
        kept(values, live) == kept(positions(values.len()), live).map_values(|i: int| values[i]),
        forall|m: int|
            0 <= m < kept(positions(values.len()), live).len() ==> {
                let at = #[trigger] kept(positions(values.len()), live)[m];
                0 <= at < values.len() && !evicted_at(live, at)
            },
        forall|m: int, n: int|
            0 <= m < n < kept(positions(values.len()), live).len() ==> kept(
                positions(values.len()),
                live,
            )[m] < kept(positions(values.len()), live)[n],
    decreases values.len(),
{
    let all = positions(values.len());
    if values.len() == 0 {
        assert(kept(values, live) == kept(all, live).map_values(|i: int| values[i]));
    } else {
        let rest = values.drop_last();
        let n = values.len() as int;
        lemma_kept_positions(rest, live);
        assert(all.drop_last() == positions(rest.len()));
        assert(all.last() == n - 1);
        let before = kept(positions(rest.len()), live);
        assert(before.map_values(|i: int| rest[i]) == before.map_values(|i: int| values[i])) by {
            assert forall|m: int| 0 <= m < before.len() implies rest[#[trigger] before[m]]
                == values[before[m]] by {}
        }
        if n <= live.len() && !live[n - 1] {
            assert(kept(all, live) == before);
        } else {
            assert(kept(all, live) == before.push(n - 1));
            assert(before.push(n - 1).map_values(|i: int| values[i]) == before.map_values(
                |i: int| values[i],
            ).push(values[n - 1]));
        }
    }
}

/// A deposit that a sweep evicts is not among those left: no position left
/// is its position.
pub proof fn lemma_evicted_is_gone<T>(values: Seq<T>, live: Seq<bool>, i: int)
    requires
        0 <= i < values.len(),
        evicted_at(live, i),
    ensures
        !kept(positions(values.len()), live).contains(i),
        kept(values, live).len() < values.len(),
{
    lemma_kept_positions(values, live);
    lemma_kept_count(values.len(), live, i);
    let left = kept(positions(values.len()), live);
    if left.contains(i) {
        let m = choose|m: int| 0 <= m < left.len() && left[m] == i;
        assert(!evicted_at(live, left[m]));
    }
}

proof fn lemma_kept_count(n: nat, live: Seq<bool>, i: int)
    requires
        0 <= i < n,
        evicted_at(live, i),
    ensures
        kept(positions(n), live).len() < n,
    decreases n,
{
    let all = positions(n);
    assert(all.drop_last() == positions((n - 1) as nat));
    lemma_kept_len(all.drop_last(), live);
    if i < n - 1 {
        lemma_kept_count((n - 1) as nat, live, i);
    }
}

/// The hub as a mathematical value: the pending line of each key that has
/// one.
#[verifier::ext_equal]
#[verifier::reject_recursive_types(I)]
pub struct Ledger<I, V, W> {
    pub lines: Map<I, Line<V, W>>,
}

impl<I, V, W> Ledger<I, V, W> {
    /// The ledger with nothing pending under any key.
    pub open spec fn empty() -> Ledger<I, V, W> {
        Ledger { lines: Map::empty() }
    }

    /// What is pending under `key`.
    pub open spec fn line(self, key: I) -> Line<V, W> {
        if self.lines.dom().contains(key) {
            self.lines[key]
        } else {
            Line::empty()
        }
    }

    /// The deposits waiting under `key`, oldest first.
    pub open spec fn queued(self, key: I) -> Seq<V> {
        self.line(key).values
    }

    /// The consumers waiting on `key`, oldest first.
    pub open spec fn waiting(self, key: I) -> Seq<W> {
        self.line(key).waiters
    }

    /// Whether every line recorded has something pending and is settled.
    pub open spec fn settled(self) -> bool {
        forall|key: I| #[trigger]
            self.lines.dom().contains(key) ==> !self.lines[key].is_empty()
                && self.lines[key].settled()
    }

    /// The ledger with `line` pending under `key` and all else as before.
    pub open spec fn with_line(self, key: I, line: Line<V, W>) -> Ledger<I, V, W> {
        if line.is_empty() {
            Ledger { lines: self.lines.remove(key) }
        } else {
            Ledger { lines: self.lines.insert(key, line) }
        }
    }

    /// The hand-off that a deposit of `value` under `key` brings about: to
    /// the consumer that has waited longest, if one waits.
    pub open spec fn submit_handoff(self, key: I, value: V) -> Option<Handoff<V, W>> {
        if self.waiting(key).len() > 0 {
            Some(Handoff { value, waiter: self.waiting(key).first() })
        } else {
            None
        }
    }

    /// The ledger after a deposit of `value` under `key`: the consumer
    /// served leaves, or else the value joins the back of the queue.
    pub open spec fn submit(self, key: I, value: V) -> Ledger<I, V, W> {
        let line = self.line(key);
        if line.waiters.len() > 0 {
            self.with_line(key, Line { values: line.values, waiters: line.waiters.drop_first() })
        } else {
            self.with_line(key, Line { values: line.values.push(value), waiters: line.waiters })
        }
    }

    /// The hand-off that a withdrawal by `waiter` on `key` brings about: of
    /// the deposit that has waited longest, if one waits.
    pub open spec fn acquire_handoff(self, key: I, waiter: W) -> Option<Handoff<V, W>> {
        if self.queued(key).len() > 0 {
            Some(Handoff { value: self.queued(key).first(), waiter })
        } else {
            None
        }
    }

    /// The ledger after a withdrawal by `waiter` on `key`: the deposit
    /// delivered leaves, or else the consumer joins the back of those
    /// waiting.
    pub open spec fn acquire(self, key: I, waiter: W) -> Ledger<I, V, W> {
        let line = self.line(key);
        if line.values.len() > 0 {
            self.with_line(key, Line { values: line.values.drop_first(), waiters: line.waiters })
        } else {
            self.with_line(key, Line { values: line.values, waiters: line.waiters.push(waiter) })
        }
    }

    /// Whether this ledger is what sweeps leave of `before`: the same
    /// consumers wait, and of the deposits under each key some are gone
    /// and the rest stand in their old order.
    pub open spec fn thinned_from(self, before: Ledger<I, V, W>) -> bool {
        forall|key: I|
            #![trigger self.line(key)]
            self.waiting(key) == before.waiting(key) && sifted(
                before.queued(key),
                self.queued(key),
            )
    }

    /// What is pending under `key` once `line` is recorded there is `line`;
    /// what is pending under any other key is as before.
    pub proof fn lemma_with_line(self, key: I, line: Line<V, W>, other: I)
        ensures
            self.with_line(key, line).line(key) == line,
            other != key ==> self.with_line(key, line).line(other) == self.line(other),
    {
        if line.is_empty() {
            assert(line.values == Seq::<V>::empty());
            assert(line.waiters == Seq::<W>::empty());
        }
    }

    /// Deposits and withdrawals keep a ledger settled.
    pub proof fn lemma_settled_kept(self, key: I, value: V, waiter: W, live: Seq<bool>)
        requires
            self.settled(),
        ensures
            self.submit(key, value).settled(),
            self.acquire(key, waiter).settled(),
            self.sweep(key, live).settled(),
    {
        assert(self.lines.dom().contains(key) ==> self.lines[key].settled());
        lemma_kept_len(self.line(key).values, live);
    }

    /// A deposit under a key on which nobody waits is handed to nobody and
    /// stands last in the queue of that key; a withdrawal that follows at
    /// once is handed the head of that queue. Where the queue was empty,
    /// that is the value just deposited.
    pub proof fn lemma_submit_then_acquire(self, key: I, value: V, waiter: W)
        requires
            self.waiting(key).len() == 0,
        ensures
            self.submit_handoff(key, value) is None,
            self.submit(key, value).queued(key) == self.queued(key).push(value),
            self.submit(key, value).acquire_handoff(key, waiter) == Some(
                Handoff { value: self.queued(key).push(value).first(), waiter },
            ),
            self.queued(key).len() == 0 ==> self.submit(key, value).acquire_handoff(key, waiter)
                == Some(Handoff { value, waiter }),
            self.queued(key).len() == 0 ==> self.submit(key, value).acquire(key, waiter).line(key)
                == self.line(key),
    {
        let line = self.line(key);
        let deposited = Line { values: line.values.push(value), waiters: line.waiters };
        self.lemma_with_line(key, deposited, key);
        if self.queued(key).len() == 0 {
            let after = self.submit(key, value);
            assert(deposited.values.drop_first() == line.values);
            after.lemma_with_line(key, Line { values: line.values, waiters: line.waiters }, key);
        }
    }

    /// Deposits under one key are delivered in the order in which they were
    /// made: of two deposits made one after the other under a key with
    /// nothing pending, the first withdrawal is handed the first and the
    /// second withdrawal the second.
    pub proof fn lemma_first_in_first_out(self, key: I, first: V, second: V, a: W, b: W)
        requires
            self.line(key).is_empty(),
        ensures
            self.submit(key, first).submit(key, second).queued(key) == seq![first, second],
            self.submit(key, first).submit(key, second).acquire_handoff(key, a) == Some(
                Handoff { value: first, waiter: a },
            ),
            self.submit(key, first).submit(key, second).acquire(key, a).acquire_handoff(key, b)
                == Some(Handoff { value: second, waiter: b }),
    {
        let one = self.submit(key, first);
        self.lemma_submit_then_acquire(key, first, a);
        assert(self.waiting(key) == Seq::<W>::empty());
        assert(one.waiting(key) == Seq::<W>::empty());
        one.lemma_submit_then_acquire(key, second, a);
        let two = one.submit(key, second);
        assert(two.queued(key) == seq![first, second]);
        two.lemma_acquire_takes_head(key, a);
        assert(seq![first, second].drop_first() == seq![second]);
    }

    /// Consumers waiting on one key are served in the order in which they
    /// came: of two that came one after the other to a key with nothing
    /// pending, the first deposit is handed to the first and the second
    /// deposit to the second.
    pub proof fn lemma_first_come_first_served(self, key: I, a: W, b: W, first: V, second: V)
        requires
            self.line(key).is_empty(),
        ensures
            self.acquire_handoff(key, a) is None,
            self.acquire(key, a).acquire_handoff(key, b) is None,
            self.acquire(key, a).acquire(key, b).waiting(key) == seq![a, b],
            self.acquire(key, a).acquire(key, b).submit_handoff(key, first) == Some(
                Handoff { value: first, waiter: a },
            ),
            self.acquire(key, a).acquire(key, b).submit(key, first).submit_handoff(key, second)
                == Some(Handoff { value: second, waiter: b }),
    {
        let line = self.line(key);
        let one = self.acquire(key, a);
        self.lemma_with_line(key, Line { values: line.values, waiters: line.waiters.push(a) }, key);
        let l1 = one.line(key);
        let two = one.acquire(key, b);
        one.lemma_with_line(key, Line { values: l1.values, waiters: l1.waiters.push(b) }, key);
        assert(two.waiting(key) == seq![a, b]);
        let l2 = two.line(key);
        two.lemma_with_line(
            key,
            Line { values: l2.values, waiters: l2.waiters.drop_first() },
            key,
        );
        assert(seq![a, b].drop_first() == seq![b]);
    }

    /// A withdrawal takes the head of the queue and nothing else: what it
    /// is handed leaves the queue, and the deposits behind it move up.
    pub proof fn lemma_acquire_takes_head(self, key: I, waiter: W)
        requires
            self.queued(key).len() > 0,
        ensures
            self.acquire_handoff(key, waiter) == Some(
                Handoff { value: self.queued(key).first(), waiter },
            ),
            self.acquire(key, waiter).queued(key) == self.queued(key).drop_first(),
            self.acquire(key, waiter).waiting(key) == self.waiting(key),
    {
        let line = self.line(key);
        self.lemma_with_line(
            key,
            Line { values: line.values.drop_first(), waiters: line.waiters },
            key,
        );
    }

    /// No deposit is delivered twice: two withdrawals on one key, one
    /// after the other, are handed what stood first and what stood second
    /// in the queue, and the second is handed nothing where only one
    /// deposit stood there.
    pub proof fn lemma_delivered_once(self, key: I, a: W, b: W)
        requires
            self.queued(key).len() > 0,
        ensures
            self.acquire_handoff(key, a) == Some(Handoff { value: self.queued(key)[0], waiter: a }),
            self.queued(key).len() > 1 ==> self.acquire(key, a).acquire_handoff(key, b) == Some(
                Handoff { value: self.queued(key)[1], waiter: b },
            ),
            self.queued(key).len() == 1 ==> self.acquire(key, a).acquire_handoff(key, b) is None,
    {
        self.lemma_acquire_takes_head(key, a);
    }

    /// A deposit that a sweep finds dead is evicted and never delivered:
    /// the queue left holds what stood at the positions the sweep leaves,
    /// in order, the dead deposit's position is none of them, and every
    /// later withdrawal is handed the head of what is left.
    pub proof fn lemma_dead_deposit_never_delivered(
        self,
        key: I,
        live: Seq<bool>,
        i: int,
        waiter: W,
    )
        requires
            0 <= i < self.queued(key).len(),
            evicted_at(live, i),
        ensures
            self.sweep(key, live).queued(key) == kept(self.queued(key), live),
            kept(self.queued(key), live) == kept(
                positions(self.queued(key).len()),
                live,
            ).map_values(|at: int| self.queued(key)[at]),
            !kept(positions(self.queued(key).len()), live).contains(i),
            self.sweep(key, live).acquire_handoff(key, waiter) == if kept(
                self.queued(key),
                live,
            ).len() > 0 {
                Some(Handoff { value: kept(self.queued(key), live).first(), waiter })
            } else {
                None
            },
    {
        let line = self.line(key);
        self.lemma_with_line(
            key,
            Line { values: kept(line.values, live), waiters: line.waiters },
            key,
        );
        lemma_kept_positions(self.queued(key), live);
        lemma_evicted_is_gone(self.queued(key), live, i);
    }

    /// Sweeping a key that no sweep has touched yet keeps a ledger among
    /// those that sweeps leave of `origin`.
    pub proof fn lemma_sweep_thins(self, origin: Ledger<I, V, W>, key: I, live: Seq<bool>)
        requires
            self.thinned_from(origin),
            self.line(key) == origin.line(key),
        ensures
            self.sweep(key, live).thinned_from(origin),
    {
        let after = self.sweep(key, live);
        assert forall|other: I|
            #![trigger after.line(other)]
            after.waiting(other) == origin.waiting(other) && sifted(
                origin.queued(other),
                after.queued(other),
            ) by {
            if other == key {
                assert(after.queued(key) == kept(origin.queued(key), live));
                assert(after.waiting(key) == origin.waiting(key));
            } else {
                assert(after.line(other) == self.line(other));
                assert(sifted(origin.queued(other), self.queued(other)));
            }
        }
    }

    /// The ledger after a sweep of the deposits under `key` with the
    /// verdicts `live`.
    pub open spec fn sweep(self, key: I, live: Seq<bool>) -> Ledger<I, V, W> {
        let line = self.line(key);
        self.with_line(key, Line { values: kept(line.values, live), waiters: line.waiters })
    }
}

struct Slot<K, V, W> {
    key: K,
    values: VecDeque<V>,
    waiters: VecDeque<W>,
}

impl<K: Key, V, W> Slot<K, V, W> {
    spec fn line(self) -> Line<V, W> {
        Line { values: self.values@, waiters: self.waiters@ }
    }
}

spec fn slot_key<K: Key, V, W>() -> spec_fn(Slot<K, V, W>) -> K::V {
    |slot: Slot<K, V, W>| slot.key@
}

spec fn slot_line<K: Key, V, W>() -> spec_fn(Slot<K, V, W>) -> Line<V, W> {
    |slot: Slot<K, V, W>| slot.line()
}

spec fn holds<K: Key, V, W>(slots: Seq<Slot<K, V, W>>, key: K::V) -> bool {
    keyed::holds(slots, slot_key(), key)
}

spec fn slot_of<K: Key, V, W>(slots: Seq<Slot<K, V, W>>, key: K::V) -> int {
    keyed::place(slots, slot_key(), key)
}

spec fn distinct<K: Key, V, W>(slots: Seq<Slot<K, V, W>>) -> bool {
    keyed::distinct(slots, slot_key())
}

spec fn lines_of<K: Key, V, W>(slots: Seq<Slot<K, V, W>>) -> Map<K::V, Line<V, W>> {
    keyed::table(slots, slot_key(), slot_line())
}

proof fn lemma_line_at<K: Key, V, W>(slots: Seq<Slot<K, V, W>>, i: int)
    requires
        distinct(slots),
        0 <= i < slots.len(),
    ensures
        holds(slots, slots[i].key@),
        slot_of(slots, slots[i].key@) == i,
        lines_of(slots)[slots[i].key@] == slots[i].line(),
{
    keyed::lemma_at(slots, slot_key(), slot_line(), i);
}

proof fn lemma_lines_update<K: Key, V, W>(
    slots: Seq<Slot<K, V, W>>,
    i: int,
    slot: Slot<K, V, W>,
)
    requires
        distinct(slots),
        0 <= i < slots.len(),
        slot.key@ == slots[i].key@,
    ensures
        distinct(slots.update(i, slot)),
        lines_of(slots.update(i, slot)) == lines_of(slots).insert(slot.key@, slot.line()),
{
    keyed::lemma_update(slots, slot_key(), slot_line(), i, slot);
}

proof fn lemma_lines_push<K: Key, V, W>(slots: Seq<Slot<K, V, W>>, slot: Slot<K, V, W>)
    requires
        distinct(slots),
        !holds(slots, slot.key@),
    ensures
        distinct(slots.push(slot)),
        lines_of(slots.push(slot)) == lines_of(slots).insert(slot.key@, slot.line()),
{
    keyed::lemma_push(slots, slot_key(), slot_line(), slot);
}

proof fn lemma_lines_remove<K: Key, V, W>(slots: Seq<Slot<K, V, W>>, i: int)
    requires
        distinct(slots),
        0 <= i < slots.len(),
    ensures
        distinct(slots.remove(i)),
        lines_of(slots.remove(i)) == lines_of(slots).remove(slots[i].key@),
{
    keyed::lemma_remove(slots, slot_key(), slot_line(), i);
}

/// Sweeps `values` with the verdicts `live`: a value whose verdict is
/// `false` is dropped, the others keep their order.
pub fn sift<T>(values: &mut VecDeque<T>, live: &Vec<bool>)
    ensures
        final(values)@ == kept(old(values)@, live@),
{
    let n = values.len();
    let mut i: usize = 0;
    proof {
        assert(values@ == old(values)@.skip(0) + kept(old(values)@.take(0), live@));
    }
    while i < n
        invariant
            i <= n,
            n == old(values)@.len(),
            values@ == old(values)@.skip(i as int) + kept(old(values)@.take(i as int), live@),
        decreases n - i,
    {
        let ghost before = values@;
        let ghost done = kept(old(values)@.take(i as int), live@);
        let value = values.pop_front().unwrap();
        proof {
            assert(old(values)@.take(i + 1).drop_last() == old(values)@.take(i as int));
            assert(old(values)@.take(i + 1).last() == value);
            assert(before.subrange(1, before.len() as int) == old(values)@.skip(i + 1) + done);
        }
        if i < live.len() && !live[i] {
        } else {
            values.push_back(value);
            proof {
                assert(values@ == old(values)@.skip(i + 1) + done.push(value));
            }
        }
        i += 1;
    }
    proof {
        assert(old(values)@.take(n as int) == old(values)@);
        assert(values@ == kept(old(values)@, live@));
    }
}

/// Whether `answer` is one that `value` may give when it is asked whether
/// it is still listened for. What a type states of its `is_valid` holds of
/// every such answer.
pub open spec fn answers<T: IsValid>(value: T, answer: bool) -> bool {
    call_ensures(T::is_valid, (&value,), answer)
}

/// Whether `live` holds one verdict for each of `values`, each an answer
/// of the value at its position.
pub open spec fn answered_in_turn<T: IsValid>(values: Seq<T>, live: Seq<bool>) -> bool {
    live.len() == values.len() && forall|i: int|
        0 <= i < values.len() ==> answers(values[i], #[trigger] live[i])
}

/// Whether `value` gives `answer`, and never the opposite, when it is asked
/// whether it is still listened for.
pub open spec fn always_answers<T: IsValid>(value: T, answer: bool) -> bool {
    forall|b: bool| #[trigger] answers(value, b) ==> b == answer
}

/// Whether `after` is what one pass of the sweep leaves of the queue
/// `before`: there were verdicts, one for each deposit and each the
/// deposit's own answer, and `after` is what `kept` leaves for them.
pub open spec fn swept<T: IsValid>(before: Seq<T>, after: Seq<T>) -> bool {
    exists|live: Seq<bool>| #[trigger]
        answered_in_turn(before, live) && after == kept(before, live)
}

/// A queue with nothing in it is swept to itself.
pub proof fn lemma_swept_empty<T: IsValid>(values: Seq<T>)
    requires
        values.len() == 0,
    ensures
        swept(values, values),
{
    let live = Seq::<bool>::empty();
    assert(answered_in_turn(values, live));
    assert(kept(values, live) == values);
}

/// A pass of the sweep evicts a deposit that can only answer that nobody
/// listens: the position it stood at is none of those left, and the queue
/// is shorter for it.
pub proof fn lemma_swept_drops_the_dead<T: IsValid>(before: Seq<T>, after: Seq<T>, i: int)
    requires
        swept(before, after),
        0 <= i < before.len(),
        always_answers(before[i], false),
    ensures
        exists|live: Seq<bool>|
            {
                &&& #[trigger] answered_in_turn(before, live)
                &&& evicted_at(live, i)
                &&& after == kept(before, live)
                &&& after == kept(positions(before.len()), live).map_values(|at: int| before[at])
                &&& !kept(positions(before.len()), live).contains(i)
            },
        after.len() < before.len(),
{
    let live = choose|live: Seq<bool>| #[trigger]
        answered_in_turn(before, live) && after == kept(before, live);
    assert(answers(before[i], live[i]));
    lemma_kept_positions(before, live);
    lemma_evicted_is_gone(before, live, i);
}

/// A pass of the sweep drops no deposit that can only answer that it is
/// listened for: where every deposit is of that kind, the queue stays as it
/// is.
pub proof fn lemma_swept_keeps_the_live<T: IsValid>(before: Seq<T>, after: Seq<T>)
    requires
        swept(before, after),
        forall|i: int| 0 <= i < before.len() ==> always_answers(#[trigger] before[i], true),
    ensures
        after == before,
{
    let live = choose|live: Seq<bool>| #[trigger]
        answered_in_turn(before, live) && after == kept(before, live);
    assert forall|i: int| 0 <= i < live.len() implies #[trigger] live[i] by {
        assert(always_answers(before[i], true));
        assert(answers(before[i], live[i]));
    }
    lemma_kept_all_live(before, live);
}

/// A sweep whose verdicts are all `true` leaves everything.
pub proof fn lemma_kept_all_live<T>(values: Seq<T>, live: Seq<bool>)
    requires
        forall|i: int| 0 <= i < live.len() ==> #[trigger] live[i],
    ensures
        kept(values, live) == values,
    decreases values.len(),
{
    if values.len() > 0 {
        lemma_kept_all_live(values.drop_last(), live);
        assert(values.drop_last().push(values.last()) == values);
    }
}

/// What a pass of the sweep leaves is what some sweep leaves.
pub proof fn lemma_swept_is_sifted<T: IsValid>(before: Seq<T>, after: Seq<T>)
    requires
        swept(before, after),
    ensures
        sifted(before, after),
{
    let live = choose|live: Seq<bool>| #[trigger]
        answered_in_turn(before, live) && after == kept(before, live);
    assert(after == kept(before, live));
}

/// Asks each of `values` in turn whether it is still listened for. Each
/// verdict is the answer of the value at its position.
pub fn probe<T: IsValid>(values: &VecDeque<T>) -> (live: Vec<bool>)
    ensures
        live@.len() == values@.len(),
        forall|i: int| 0 <= i < values@.len() ==> answers(values@[i], #[trigger] live@[i]),
        answered_in_turn(values@, live@),
{
    let mut live: Vec<bool> = Vec::new();
    let mut i: usize = 0;
    while i < values.len()
        invariant
            i <= values@.len(),
            live@.len() == i,
            forall|j: int| 0 <= j < i ==> answers(values@[j], #[trigger] live@[j]),
        decreases values@.len() - i,
    {
        let answer = values[i].is_valid();
        live.push(answer);
        i += 1;
    }
    live
}

/// The rendezvous hub, generic in its keys `K`, the values `V` deposited
/// and the handles `W` of the consumers that wait.
pub struct Hub<K, V, W> {
    slots: Vec<Slot<K, V, W>>,
}

impl<K: Key, V, W> View for Hub<K, V, W> {
    type V = Ledger<K::V, V, W>;

    closed spec fn view(&self) -> Ledger<K::V, V, W> {
        Ledger { lines: lines_of(self.slots@) }
    }
}

impl<K: Key, V, W> Hub<K, V, W> {
    /// The invariant of the representation. Every operation keeps it.
    pub closed spec fn wf(&self) -> bool {
        &&& distinct(self.slots@)
        &&& forall|i: int|
            0 <= i < self.slots@.len() ==> !(#[trigger] self.slots@[i]).line().is_empty()
                && self.slots@[i].line().settled()
    }

    /// In a well-formed hub, deposits and consumers never wait on one key
    /// at the same time, and no key is recorded with nothing pending.
    pub proof fn lemma_settled(&self)
        requires
            self.wf(),
        ensures
            self@.settled(),
    {
        assert forall|key: K::V| #[trigger]
            self@.lines.dom().contains(key) implies !self@.lines[key].is_empty()
            && self@.lines[key].settled() by {
            let j = slot_of(self.slots@, key);
            lemma_line_at(self.slots@, j);
        }
    }

    /// A hub with nothing pending.
    pub fn new() -> (r: Hub<K, V, W>)
        ensures
            r.wf(),
            r@ == Ledger::<K::V, V, W>::empty(),
    {
        let r = Hub { slots: Vec::new() };
        proof {
            assert(r@.lines =~= Map::<K::V, Line<V, W>>::empty());
        }
        r
    }

    fn find(&self, key: &K) -> (r: Option<usize>)
        ensures
            match r {
                Some(i) => i < self.slots@.len() && self.slots@[i as int].key@ == key@,
                None => !holds(self.slots@, key@),
            },
    {
        let mut i: usize = 0;
        while i < self.slots.len()
            invariant
                i <= self.slots@.len(),
                forall|j: int| 0 <= j < i ==> (#[trigger] self.slots@[j]).key@ != key@,
            decreases self.slots@.len() - i,
        {
            if self.slots[i].key.same(key) {
                return Some(i);
            }
            i += 1;
        }
        None
    }

    /// Deposits `value` under `key`. Where a consumer waits on `key`, the
    /// one that has waited longest is handed the value, which then never
    /// enters the queue; otherwise the value joins the back of the queue.
    pub fn submit(&mut self, key: K, value: V) -> (r: Option<Handoff<V, W>>)
        requires
            old(self).wf(),
        ensures
            final(self).wf(),
            final(self)@ == old(self)@.submit(key@, value),
            r == old(self)@.submit_handoff(key@, value),
    {
        match self.find(&key) {
            Some(i) => {
                proof {
                    lemma_line_at(self.slots@, i as int);
                }
                if self.slots[i].waiters.len() > 0 {
                    let waiter = self.slots[i].waiters.pop_front().unwrap();
                    proof {
                        lemma_lines_update(old(self).slots@, i as int, self.slots@[i as int]);
                        assert(self.slots@[i as int].line().waiters == old(
                            self,
                        ).slots@[i as int].line().waiters.drop_first());
                    }
                    if self.slots[i].waiters.len() == 0 {
                        let ghost before = self.slots@;
                        self.slots.remove(i);
                        proof {
                            lemma_lines_remove(before, i as int);
                            assert(self@.lines =~= old(self)@.submit(key@, value).lines);
                        }
                    } else {
                        proof {
                            assert(self@.lines =~= old(self)@.submit(key@, value).lines);
                        }
                    }
                    Some(Handoff { value, waiter })
                } else {
                    self.slots[i].values.push_back(value);
                    proof {
                        lemma_lines_update(old(self).slots@, i as int, self.slots@[i as int]);
                        assert(self@.lines =~= old(self)@.submit(key@, value).lines);
                    }
                    None
                }
            },
            None => {
                let mut values: VecDeque<V> = VecDeque::new();
                values.push_back(value);
                let slot = Slot { key, values, waiters: VecDeque::new() };
                proof {
                    lemma_lines_push(self.slots@, slot);
                }
                self.slots.push(slot);
                proof {
                    assert(self@.lines =~= old(self)@.submit(key@, value).lines);
                }
                None
            },
        }
    }

    /// Withdraws from `key` on behalf of `waiter`. Where a deposit waits
    /// under `key`, the one that has waited longest is handed to `waiter`
    /// and leaves the queue; otherwise `waiter` joins the back of the
    /// consumers waiting, to be served by a later deposit.
    pub fn acquire(&mut self, key: K, waiter: W) -> (r: Option<Handoff<V, W>>)
        requires
            old(self).wf(),
        ensures
            final(self).wf(),
            final(self)@ == old(self)@.acquire(key@, waiter),
            r == old(self)@.acquire_handoff(key@, waiter),
    {
        match self.find(&key) {
            Some(i) => {
                proof {
                    lemma_line_at(self.slots@, i as int);
                }
                if self.slots[i].values.len() > 0 {
                    let value = self.slots[i].values.pop_front().unwrap();
                    proof {
                        lemma_lines_update(old(self).slots@, i as int, self.slots@[i as int]);
                        assert(self.slots@[i as int].line().values == old(
                            self,
                        ).slots@[i as int].line().values.drop_first());
                    }
                    if self.slots[i].values.len() == 0 {
                        let ghost before = self.slots@;
                        self.slots.remove(i);
                        proof {
                            lemma_lines_remove(before, i as int);
                            assert(self@.lines =~= old(self)@.acquire(key@, waiter).lines);
                        }
                    } else {
                        proof {
                            assert(self@.lines =~= old(self)@.acquire(key@, waiter).lines);
                        }
                    }
                    Some(Handoff { value, waiter })
                } else {
                    self.slots[i].waiters.push_back(waiter);
                    proof {
                        lemma_lines_update(old(self).slots@, i as int, self.slots@[i as int]);
                        assert(self@.lines =~= old(self)@.acquire(key@, waiter).lines);
                    }
                    None
                }
            },
            None => {
                let mut waiters: VecDeque<W> = VecDeque::new();
                waiters.push_back(waiter);
                let slot = Slot { key, values: VecDeque::new(), waiters };
                proof {
                    lemma_lines_push(self.slots@, slot);
                }
                self.slots.push(slot);
                proof {
                    assert(self@.lines =~= old(self)@.acquire(key@, waiter).lines);
                }
                None
            },
        }
    }

    /// The number of deposits waiting under `key`.
    pub fn pending(&self, key: &K) -> (n: usize)
        requires
            self.wf(),
        ensures
            n == self@.queued(key@).len(),
    {
        match self.find(key) {
            Some(i) => {
                proof {
                    lemma_line_at(self.slots@, i as int);
                }
                self.slots[i].values.len()
            },
            None => 0,
        }
    }

    /// The number of consumers waiting on `key`.
    pub fn parked(&self, key: &K) -> (n: usize)
        requires
            self.wf(),
        ensures
            n == self@.waiting(key@).len(),
    {
        match self.find(key) {
            Some(i) => {
                proof {
                    lemma_line_at(self.slots@, i as int);
                }
                self.slots[i].waiters.len()
            },
            None => 0,
        }
    }

    fn sweep_slot(&mut self, i: usize, live: &Vec<bool>) -> (removed: bool)
        requires
            old(self).wf(),
            i < old(self).slots@.len(),
        ensures
            final(self).wf(),
            final(self)@ == old(self)@.sweep(old(self).slots@[i as int].key@, live@),
            removed ==> final(self).slots@ == old(self).slots@.remove(i as int),
            !removed ==> final(self).slots@.len() == old(self).slots@.len() && forall|j: int|
                0 <= j < final(self).slots@.len() ==> (#[trigger] final(self).slots@[j]).key@
                    == old(self).slots@[j].key@,
    {
        proof {
            lemma_line_at(self.slots@, i as int);
        }
        sift(&mut self.slots[i].values, live);
        proof {
            lemma_lines_update(old(self).slots@, i as int, self.slots@[i as int]);
            lemma_kept_len(old(self).slots@[i as int].values@, live@);
        }
        if self.slots[i].values.len() == 0 && self.slots[i].waiters.len() == 0 {
            let ghost before = self.slots@;
            self.slots.remove(i);
            proof {
                lemma_lines_remove(before, i as int);
                assert(before.remove(i as int) == old(self).slots@.remove(i as int));
                assert(self@.lines =~= old(self)@.sweep(
                    old(self).slots@[i as int].key@,
                    live@,
                ).lines);
            }
            true
        } else {
            proof {
                assert(self@.lines =~= old(self)@.sweep(
                    old(self).slots@[i as int].key@,
                    live@,
                ).lines);
            }
            false
        }
    }

    /// Sweeps the deposits waiting under `key` with the verdicts `live`,
    /// given oldest first: a deposit whose verdict is `false` is evicted.
    /// Nothing else changes.
    pub fn evict(&mut self, key: &K, live: &Vec<bool>)
        requires
            old(self).wf(),
        ensures
            final(self).wf(),
            final(self)@ == old(self)@.sweep(key@, live@),
    {
        match self.find(key) {
            Some(i) => {
                self.sweep_slot(i, live);
            },
            None => {
                proof {
                    assert(kept(Seq::<V>::empty(), live@) == Seq::<V>::empty());
                    assert(self@.lines =~= old(self)@.sweep(key@, live@).lines);
                }
            },
        }
    }

    /// Asks each deposit waiting under `key`, oldest first, whether it is
    /// still listened for. Each verdict is the answer of the deposit at its
    /// place in the queue.
    pub fn liveness(&self, key: &K) -> (live: Vec<bool>) where V: IsValid
        requires
            self.wf(),
        ensures
            live@.len() == self@.queued(key@).len(),
            forall|i: int|
                0 <= i < live@.len() ==> answers(self@.queued(key@)[i], #[trigger] live@[i]),
    {
        match self.find(key) {
            Some(i) => {
                proof {
                    lemma_line_at(self.slots@, i as int);
                }
                probe(&self.slots[i].values)
            },
            None => Vec::new(),
        }
    }

    /// One pass of the sweep over every key: each deposit is asked whether
    /// it is still listened for, and each queue is swept with the answers.
    /// What the deposits answer is theirs to say, so the contract speaks of
    /// the verdicts there were: one for each deposit, each the deposit's
    /// own answer, and under every key what is left is what `evict` leaves
    /// for them. The consumers that wait are left alone.
    pub fn garbage_collect(&mut self) where V: IsValid
        requires
            old(self).wf(),
        ensures
            final(self).wf(),
            final(self)@.thinned_from(old(self)@),
            forall|key: K::V|
                #![trigger final(self)@.line(key)]
                final(self)@.waiting(key) == old(self)@.waiting(key) && exists|live: Seq<bool>|
                    {
                        &&& live.len() == old(self)@.queued(key).len()
                        &&& forall|i: int|
                            0 <= i < live.len() ==> answers(
                                old(self)@.queued(key)[i],
                                #[trigger] live[i],
                            )
                        &&& final(self)@.queued(key) == kept(old(self)@.queued(key), live)
                    },
    {
        let mut i: usize = 0;
        proof {
            assert forall|key: K::V|
                #![trigger self@.line(key)]
                self@.waiting(key) == old(self)@.waiting(key) && sifted(
                    old(self)@.queued(key),
                    self@.queued(key),
                ) by {
                lemma_kept_without_verdicts(old(self)@.queued(key));
            }
        }
        while i < self.slots.len()
            invariant
                self.wf(),
                old(self).wf(),
                i <= self.slots@.len(),
                self@.thinned_from(old(self)@),
                forall|key: K::V|
                    #![trigger self@.line(key)]
                    self@.line(key) == old(self)@.line(key) || (self@.waiting(key) == old(
                        self,
                    )@.waiting(key) && swept(old(self)@.queued(key), self@.queued(key))),
                forall|j: int|
                    i <= j < self.slots@.len() ==> self@.line((#[trigger] self.slots@[j]).key@)
                        == old(self)@.line(self.slots@[j].key@),
                forall|j: int|
                    0 <= j < i ==> swept(
                        old(self)@.queued((#[trigger] self.slots@[j]).key@),
                        self@.queued(self.slots@[j].key@),
                    ),
            decreases self.slots@.len() - i,
        {
            let ghost before = *self;
            let ghost key = self.slots@[i as int].key@;
            proof {
                lemma_line_at(self.slots@, i as int);
            }
            let live = probe(&self.slots[i].values);
            let removed = self.sweep_slot(i, &live);
            proof {
                assert(before@.line(key) == old(self)@.line(key));
                before@.lemma_sweep_thins(old(self)@, key, live@);
                let line = before@.line(key);
                before@.lemma_with_line(
                    key,
                    Line { values: kept(line.values, live@), waiters: line.waiters },
                    key,
                );
                assert(answered_in_turn(old(self)@.queued(key), live@));
                assert(self@.queued(key) == kept(old(self)@.queued(key), live@));
                assert(swept(old(self)@.queued(key), self@.queued(key)));
                assert forall|other: K::V|
                    #![trigger self@.line(other)]
                    self@.line(other) == old(self)@.line(other) || (self@.waiting(other) == old(
                        self,
                    )@.waiting(other) && swept(
                        old(self)@.queued(other),
                        self@.queued(other),
                    )) by {
                    if other != key {
                        before@.lemma_with_line(
                            key,
                            Line { values: kept(line.values, live@), waiters: line.waiters },
                            other,
                        );
                        assert(self@.line(other) == before@.line(other));
                    }
                }
                let from = if removed { i as int } else { i + 1 };
                assert forall|j: int| from <= j < self.slots@.len() implies self@.line(
                    (#[trigger] self.slots@[j]).key@,
                ) == old(self)@.line(self.slots@[j].key@) by {
                    let j0 = if removed { j + 1 } else { j };
                    assert(self.slots@[j].key@ == before.slots@[j0].key@);
                    assert(before.slots@[i as int].key@ != before.slots@[j0].key@);
                    assert(self@.line(self.slots@[j].key@) == before@.line(before.slots@[j0].key@));
                }
                assert forall|j: int| 0 <= j < from implies swept(
                    old(self)@.queued((#[trigger] self.slots@[j]).key@),
                    self@.queued(self.slots@[j].key@),
                ) by {
                    if j < i {
                        assert(self.slots@[j].key@ == before.slots@[j].key@);
                        assert(before.slots@[j].key@ != before.slots@[i as int].key@);
                        assert(self@.line(self.slots@[j].key@) == before@.line(
                            before.slots@[j].key@,
                        ));
                    } else {
                        assert(self.slots@[j].key@ == key);
                    }
                }
            }
            if !removed {
                i += 1;
            }
        }
        proof {
            assert forall|key: K::V|
                #![trigger self@.line(key)]
                self@.waiting(key) == old(self)@.waiting(key) && exists|live: Seq<bool>|
                    {
                        &&& live.len() == old(self)@.queued(key).len()
                        &&& forall|i: int|
                            0 <= i < live.len() ==> answers(
                                old(self)@.queued(key)[i],
                                #[trigger] live[i],
                            )
                        &&& self@.queued(key) == kept(old(self)@.queued(key), live)
                    } by {
                if self@.line(key) == old(self)@.line(key) {
                    if holds(self.slots@, key) {
                        let j = slot_of(self.slots@, key);
                        assert(self.slots@[j].key@ == key);
                    } else {
                        lemma_swept_empty(old(self)@.queued(key));
                    }
                }
                assert(swept(old(self)@.queued(key), self@.queued(key)));
                let live = choose|live: Seq<bool>| #[trigger]
                    answered_in_turn(old(self)@.queued(key), live) && self@.queued(key) == kept(
                        old(self)@.queued(key),
                        live,
                    );
                assert(live.len() == old(self)@.queued(key).len());
            }
        }
    }
}

} // verus!
