//! Admission and emission of the items of a run: at most a fixed number of
//! resolver calls at once, and results written either in input order or as
//! soon as they are ready.
use vstd::prelude::*;

use crate::classify::Mode;

verus! {

/// Tracks the items of a run from their start to the emission of their lines.
///
/// Items are numbered from 0 in input order. Each admitted item counts
/// `cost` calls against `limit` until it completes. In input-order mode the
/// lines of completed items are held until every earlier line is out.
pub struct Dispatcher {
    limit: usize,
    cost: usize,
    preserve_order: bool,
    admitted: usize,
    in_flight: usize,
    next_emit: usize,
    held: Vec<Option<String>>,
    pending: Ghost<Set<nat>>,
    results: Ghost<Map<nat, Seq<char>>>,
    emitted: Ghost<Seq<nat>>,
}

/// The resolver calls that an item of `mode` counts against `limit`: both
/// families at once where the limit allows it, else one call at a time.
pub open spec fn cost_for(mode: Mode, limit: nat) -> nat {
    if mode == Mode::ForwardDual && limit >= 2 { 2 } else { 1 }
}

/// The resolver calls that each item counts against the limit.
pub fn item_cost(mode: Mode, limit: usize) -> (r: usize)
    ensures
        r == cost_for(mode, limit as nat),
{
    if mode == Mode::ForwardDual && limit >= 2 { 2 } else { 1 }
}

impl Dispatcher {
    pub closed spec fn limit_spec(&self) -> nat {
        self.limit as nat
    }

    pub closed spec fn cost_spec(&self) -> nat {
        self.cost as nat
    }

    pub closed spec fn keeps_order(&self) -> bool {
        self.preserve_order
    }

    /// The number of items admitted so far.
    pub closed spec fn admitted_count(&self) -> nat {
        self.admitted as nat
    }

    /// The items admitted and not yet completed.
    pub closed spec fn pending_items(&self) -> Set<nat> {
        self.pending@
    }

    /// The line of each completed item.
    pub closed spec fn results(&self) -> Map<nat, Seq<char>> {
        self.results@
    }

    /// The items whose lines were handed out, in the order they were.
    pub closed spec fn emitted(&self) -> Seq<nat> {
        self.emitted@
    }

    /// The lines handed out, in order.
    pub open spec fn emitted_lines(&self) -> Seq<Seq<char>> {
        self.emitted().map_values(|id: nat| self.results()[id])
    }

    /// The items started and not yet written out.
    pub open spec fn unwritten_count(&self) -> int {
        self.admitted_count() - self.emitted().len()
    }

    /// Whether one more item fits: its calls under the limit and, in
    /// input-order mode, its line among the lines that may wait their turn.
    pub open spec fn room_for_one(&self) -> bool {
        &&& (self.pending_items().len() + 1) * self.cost_spec() <= self.limit_spec()
        &&& self.keeps_order() ==> (self.unwritten_count() + 1) * self.cost_spec() <= self.limit_spec()
    }

    pub closed spec fn wf(&self) -> bool {
        &&& 1 <= self.cost <= self.limit
        &&& self.in_flight * self.cost <= self.limit
        &&& self.pending@.finite()
        &&& self.in_flight == self.pending@.len()
        &&& forall|id: nat| #[trigger] self.pending@.contains(id) ==> id < self.admitted
        &&& forall|id: nat| #[trigger] self.results@.contains_key(id)
            <==> (id < self.admitted && !self.pending@.contains(id))
        &&& self.emitted@.no_duplicates()
        &&& forall|k: int| 0 <= k < self.emitted@.len() ==> #[trigger] self.results@.contains_key(
            self.emitted@[k],
        )
        &&& if self.preserve_order {
            &&& self.next_emit <= self.admitted
            &&& self.held@.len() * self.cost <= self.limit
            &&& self.emitted@ == Seq::new(self.next_emit as nat, |i: int| i as nat)
            &&& self.held@.len() == self.admitted - self.next_emit
            &&& forall|k: int| 0 <= k < self.held@.len() ==> (#[trigger] self.held@[k] matches Some(
                l,
            ) <==> self.results@.contains_key((self.next_emit + k) as nat))
            &&& forall|k: int| 0 <= k < self.held@.len() ==> (#[trigger] self.held@[k] matches Some(
                l,
            ) ==> l@ == self.results@[(self.next_emit + k) as nat])
            &&& forall|id: nat| id < self.next_emit ==> #[trigger] self.results@.contains_key(id)
            &&& self.held@.len() > 0 ==> self.held@[0] is None
        } else {
            forall|id: nat| #[trigger] self.results@.contains_key(id) ==> self.emitted@.contains(id)
        }
    }

    /// A dispatcher with nothing admitted yet.
    pub fn new(limit: usize, cost: usize, preserve_order: bool) -> (r: Self)
        requires
            1 <= cost <= limit,
        ensures
            r.wf(),
            r.limit_spec() == limit,
            r.cost_spec() == cost,
            r.keeps_order() == preserve_order,
            r.admitted_count() == 0,
            r.pending_items() == Set::<nat>::empty(),
            r.results() == Map::<nat, Seq<char>>::empty(),
            r.emitted() == Seq::<nat>::empty(),
    {
        let r = Dispatcher {
            limit,
            cost,
            preserve_order,
            admitted: 0,
            in_flight: 0,
            next_emit: 0,
            held: Vec::new(),
            pending: Ghost(Set::empty()),
            results: Ghost(Map::empty()),
            emitted: Ghost(Seq::empty()),
        };
        assert(r.emitted@ =~= Seq::new(0, |i: int| i as nat));
        assert(r.pending@.len() == 0);
        assert(r.emitted@.no_duplicates());
        assert(r.held@.len() == 0);
        assert(0 * r.cost == 0) by (nonlinear_arith);
        r
    }

    /// Whether one more item fits under the limit.
    pub fn has_room(&self) -> (r: bool)
        requires
            self.wf(),
        ensures
            r == self.room_for_one(),
    {
        proof {
            assert((self.in_flight + 1) * self.cost == self.in_flight * self.cost + self.cost) by (nonlinear_arith);
            if self.preserve_order {
                let h = self.held@.len();
                assert((h + 1) * self.cost == h * self.cost + self.cost) by (nonlinear_arith);
            }
        }
        let calls_fit = self.cost <= self.limit - self.in_flight * self.cost;
        if self.preserve_order {
            calls_fit && self.cost <= self.limit - self.held.len() * self.cost
        } else {
            calls_fit
        }
    }

    /// Starts the next item and returns its number.
    pub fn start(&mut self) -> (id: usize)
        requires
            old(self).wf(),
            old(self).room_for_one(),
            old(self).admitted_count() < usize::MAX,
        ensures
            final(self).wf(),
            id == old(self).admitted_count(),
            final(self).admitted_count() == old(self).admitted_count() + 1,
            final(self).pending_items() == old(self).pending_items().insert(id as nat),
            final(self).results() == old(self).results(),
            final(self).emitted() == old(self).emitted(),
            final(self).limit_spec() == old(self).limit_spec(),
            final(self).cost_spec() == old(self).cost_spec(),
            final(self).keeps_order() == old(self).keeps_order(),
    {
        let id = self.admitted;
        proof {
            assert(!self.pending@.contains(id as nat));
            assert((self.in_flight + 1) * self.cost == self.in_flight * self.cost + self.cost) by (nonlinear_arith);
            assert(self.in_flight + 1 <= (self.in_flight + 1) * self.cost) by (nonlinear_arith)
                requires self.cost >= 1;
        }
        self.in_flight = self.in_flight + 1;
        self.admitted = self.admitted + 1;
        self.pending = Ghost(self.pending@.insert(id as nat));
        if self.preserve_order {
            proof {
                let h = self.held@.len();
                assert((h + 1) * self.cost == h * self.cost + self.cost) by (nonlinear_arith);
            }
            self.held.push(None);
            proof {
                let k = self.held@.len() - 1;
                assert(!self.results@.contains_key((self.next_emit + k) as nat));
            }
        }
        id
    }

    /// Records the line of item `id` and returns the lines that may now be
    /// written, in the order they must be.
    pub fn complete(&mut self, id: usize, line: String) -> (out: Vec<String>)
        requires
            old(self).wf(),
            old(self).pending_items().contains(id as nat),
        ensures
            final(self).wf(),
            final(self).admitted_count() == old(self).admitted_count(),
            final(self).pending_items() == old(self).pending_items().remove(id as nat),
            final(self).results() == old(self).results().insert(id as nat, line@),
            final(self).limit_spec() == old(self).limit_spec(),
            final(self).cost_spec() == old(self).cost_spec(),
            final(self).keeps_order() == old(self).keeps_order(),
            final(self).emitted().len() == old(self).emitted().len() + out@.len(),
            final(self).emitted().subrange(0, old(self).emitted().len() as int) == old(self).emitted(),
            forall|k: int| 0 <= k < out@.len() ==> (#[trigger] out@[k])@
                == final(self).results()[final(self).emitted()[old(self).emitted().len() + k]],
            !old(self).keeps_order() ==> final(self).emitted() == old(self).emitted().push(id as nat),
    {
        let ghost old_emitted = self.emitted@;
        proof {
            assert(self.in_flight >= 1);
            assert((self.in_flight - 1) * self.cost <= self.in_flight * self.cost) by (nonlinear_arith)
                requires self.in_flight >= 1;
        }
        self.in_flight = self.in_flight - 1;
        self.pending = Ghost(self.pending@.remove(id as nat));
        self.results = Ghost(self.results@.insert(id as nat, line@));
        let mut out: Vec<String> = Vec::new();
        if !self.preserve_order {
            proof {
                if old_emitted.contains(id as nat) {
                    let k = choose|k: int| 0 <= k < old_emitted.len() && old_emitted[k] == id as nat;
                    assert(old(self).results@.contains_key(old_emitted[k]));
                }
            }
            self.emitted = Ghost(self.emitted@.push(id as nat));
            out.push(line);
            proof {
                assert(self.emitted@.subrange(0, old_emitted.len() as int) =~= old_emitted);
                assert forall|nid: nat| #[trigger] self.results@.contains_key(nid) implies self.emitted@.contains(nid) by {
                    if nid != id {
                        let k = choose|k: int| 0 <= k < old_emitted.len() && old_emitted[k] == nid;
                        assert(self.emitted@[k] == nid);
                    } else {
                        assert(self.emitted@[old_emitted.len() as int] == nid);
                    }
                }
            }
            return out;
        }
        proof {
            if id < self.next_emit {
                assert(old(self).results@.contains_key(id as nat));
            }
        }
        let slot = id - self.next_emit;
        let ghost admitted_now = self.admitted;
        let ghost pending_now = self.pending@;
        let ghost results_now = self.results@;
        self.held.set(slot, Some(line));
        while self.held.len() > 0 && self.held[0].is_some()
            invariant
                self.preserve_order,
                self.admitted == admitted_now,
                self.pending@ == pending_now,
                self.results@ == results_now,
                self.limit == old(self).limit,
                self.cost == old(self).cost,
                1 <= self.cost <= self.limit,
                self.in_flight * self.cost <= self.limit,
                self.pending@.finite(),
                self.in_flight == self.pending@.len(),
                forall|nid: nat| #[trigger] self.pending@.contains(nid) ==> nid < self.admitted,
                forall|nid: nat| #[trigger] self.results@.contains_key(nid)
                    <==> (nid < self.admitted && !self.pending@.contains(nid)),
                self.next_emit <= self.admitted,
                self.emitted@ == Seq::new(self.next_emit as nat, |i: int| i as nat),
                self.held@.len() * self.cost <= self.limit,
                self.held@.len() == self.admitted - self.next_emit,
                forall|k: int| 0 <= k < self.held@.len() ==> (#[trigger] self.held@[k] matches Some(
                    l,
                ) <==> self.results@.contains_key((self.next_emit + k) as nat)),
                forall|k: int| 0 <= k < self.held@.len() ==> (#[trigger] self.held@[k] matches Some(
                    l,
                ) ==> l@ == self.results@[(self.next_emit + k) as nat]),
                forall|nid: nat| nid < self.next_emit ==> #[trigger] self.results@.contains_key(nid),
                old_emitted.len() <= self.emitted@.len(),
                self.emitted@.subrange(0, old_emitted.len() as int) == old_emitted,
                self.emitted@.len() == old_emitted.len() + out@.len(),
                forall|k: int| 0 <= k < out@.len() ==> (#[trigger] out@[k])@
                    == self.results@[self.emitted@[old_emitted.len() + k]],
            decreases self.held@.len(),
        {
            let ghost before = self.held@;
            proof {
                let h = self.held@.len();
                assert((h - 1) * self.cost <= h * self.cost) by (nonlinear_arith)
                    requires h >= 1;
            }
            let first = self.held.remove(0);
            let ghost n = self.next_emit as nat;
            match first {
                Some(l) => {
                    proof {
                        assert(l@ == self.results@[n]);
                        assert forall|k: int| 0 <= k < self.held@.len() implies self.held@[k] == before[k + 1] by {}
                    }
                    out.push(l);
                },
                None => {},
            }
            self.next_emit = self.next_emit + 1;
            self.emitted = Ghost(self.emitted@.push(n));
            proof {
                assert(self.emitted@ =~= Seq::new(self.next_emit as nat, |i: int| i as nat));
                assert(self.emitted@.subrange(0, old_emitted.len() as int) =~= old_emitted);
                assert forall|nid: nat| nid < self.next_emit implies #[trigger] self.results@.contains_key(nid) by {
                    if nid == n {
                        assert(before[0] is Some);
                    }
                }
            }
        }
        proof {
            assert forall|i: int, j: int| 0 <= i < self.emitted@.len() && 0 <= j < self.emitted@.len() && i != j
                implies self.emitted@[i] != self.emitted@[j] by {}
            assert forall|k: int| 0 <= k < self.emitted@.len() implies #[trigger] self.results@.contains_key(self.emitted@[k]) by {
                assert(self.emitted@[k] < self.next_emit);
            }
        }
        out
    }
}

/// The calls in flight never exceed the limit, and in input-order mode
/// neither do the lines that wait their turn, counted at the same cost.
pub proof fn lemma_calls_within_limit(d: &Dispatcher)
    requires
        d.wf(),
    ensures
        d.pending_items().len() * d.cost_spec() <= d.limit_spec(),
        d.keeps_order() ==> d.unwritten_count() * d.cost_spec() <= d.limit_spec(),
{
}

/// Once no item is pending, every started item has had its line written
/// exactly once, and no line was written for anything else.
pub proof fn lemma_every_item_written_once(d: &Dispatcher)
    requires
        d.wf(),
        d.pending_items().len() == 0,
    ensures
        forall|id: nat| id < d.admitted_count() ==> d.emitted().contains(id),
        d.emitted().no_duplicates(),
        forall|k: int| 0 <= k < d.emitted().len() ==> #[trigger] d.emitted()[k] < d.admitted_count(),
        d.emitted().len() == d.admitted_count(),
{
    d.pending@.lemma_len0_is_empty();
    assert forall|k: int| 0 <= k < d.emitted@.len() implies #[trigger] d.emitted@[k] < d.admitted as nat by {
        assert(d.results@.contains_key(d.emitted@[k]));
    }
    if d.preserve_order {
        if d.held@.len() > 0 {
            assert(d.results@.contains_key((d.next_emit + 0) as nat));
            assert(d.held@[0] is Some);
        }
        assert forall|id: nat| id < d.admitted_count() implies d.emitted().contains(id) by {
            assert(d.emitted@[id as int] == id);
        }
    } else {
        assert forall|id: nat| id < d.admitted as nat implies d.emitted@.contains(id) by {
            assert(d.results@.contains_key(id));
        }
        lemma_ids_cover_range(d.emitted@, d.admitted as nat);
    }
}

/// A sequence of distinct numbers below `n` that holds each of them has
/// length `n`.
proof fn lemma_ids_cover_range(s: Seq<nat>, n: nat)
    requires
        s.no_duplicates(),
        forall|k: int| 0 <= k < s.len() ==> #[trigger] s[k] < n,
        forall|id: nat| id < n ==> s.contains(id),
    ensures
        s.len() == n,
{
    let range = Set::new(|id: nat| id < n);
    assert(s.to_set() =~= range) by {
        assert forall|id: nat| range.contains(id) implies s.to_set().contains(id) by {}
        assert forall|id: nat| s.to_set().contains(id) implies range.contains(id) by {
            let k = choose|k: int| 0 <= k < s.len() && s[k] == id;
        }
    }
    s.unique_seq_to_set();
    lemma_nat_range_len(n);
}

proof fn lemma_nat_range_len(n: nat)
    ensures
        Set::new(|id: nat| id < n).finite(),
        Set::new(|id: nat| id < n).len() == n,
    decreases n,
{
    if n == 0 {
        assert(Set::new(|id: nat| id < n) =~= Set::<nat>::empty());
    } else {
        lemma_nat_range_len((n - 1) as nat);
        assert(Set::new(|id: nat| id < n) =~= Set::new(|id: nat| id < (n - 1) as nat).insert((n - 1) as nat));
    }
}

/// In input-order mode lines are written in input order, whatever the order
/// in which the items complete.
pub proof fn lemma_written_in_input_order(d: &Dispatcher)
    requires
        d.wf(),
        d.keeps_order(),
    ensures
        forall|k: int| 0 <= k < d.emitted().len() ==> #[trigger] d.emitted()[k] == k,
        forall|i: int, j: int| 0 <= i < j < d.emitted().len() ==> d.emitted()[i] < d.emitted()[j],
{
}

/// In input-order mode the output of a finished run depends only on the line
/// of each item: two runs with the same lines write the same text, however
/// their items were timed.
pub proof fn lemma_output_fixed_by_results(d1: &Dispatcher, d2: &Dispatcher)
    requires
        d1.wf(),
        d2.wf(),
        d1.keeps_order(),
        d2.keeps_order(),
        d1.pending_items().len() == 0,
        d2.pending_items().len() == 0,
        d1.admitted_count() == d2.admitted_count(),
        d1.results() == d2.results(),
    ensures
        d1.emitted_lines() == d2.emitted_lines(),
        d1.emitted_lines() == Seq::new(d1.admitted_count(), |i: int| d1.results()[i as nat]),
{
    lemma_every_item_written_once(d1);
    lemma_every_item_written_once(d2);
    assert(d1.emitted_lines() =~= Seq::new(d1.admitted_count(), |i: int| d1.results()[i as nat]));
    assert(d2.emitted_lines() =~= Seq::new(d2.admitted_count(), |i: int| d2.results()[i as nat]));
}

} // verus!
