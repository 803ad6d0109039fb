//! Round-based simulation: each worker in turn inspects every item it holds,
//! applies its rule and the overflow strategy, and throws the item on.
use crate::expression::{spec_transform, transform_fits};
use crate::grammar::MonkeyView;
use crate::parser::{views, Monkey};
use std::collections::VecDeque;
use vstd::prelude::*;

verus! {

/// How a transformed value is kept small.
#[derive(Clone, Copy, Debug, PartialEq, Eq, Structural)]
pub enum OverflowStrategy {
    /// Floor division by the given number.
    DivideAndFloor(u64),
    /// Remainder by the given number.
    ModuloBy(u64),
}

pub open spec fn strategy_ok(strategy: OverflowStrategy) -> bool {
    match strategy {
        OverflowStrategy::DivideAndFloor(k) => k > 0,
        OverflowStrategy::ModuloBy(l) => l > 0,
    }
}

pub open spec fn relieve(strategy: OverflowStrategy, v: u64) -> u64 {
    match strategy {
        OverflowStrategy::DivideAndFloor(k) => v / k,
        OverflowStrategy::ModuloBy(l) => v % l,
    }
}

impl OverflowStrategy {
    /// Applies the strategy to a freshly transformed value.
    pub fn apply(&self, v: u64) -> (r: u64)
        requires
            strategy_ok(*self),
        ensures
            r == relieve(*self, v),
    {
        match self {
            OverflowStrategy::DivideAndFloor(k) => v / *k,
            OverflowStrategy::ModuloBy(l) => v % *l,
        }
    }
}

/// The queues and activity counters of all workers.
pub struct SimState {
    pub queues: Seq<Seq<u64>>,
    pub activity: Seq<u64>,
}

/// Every divisor is positive and every target names a worker.
pub open spec fn well_formed(defs: Seq<MonkeyView>) -> bool {
    forall|i: int|
        0 <= i < defs.len() ==> {
            &&& #[trigger] defs[i].test > 0
            &&& defs[i].if_true < defs.len()
            &&& defs[i].if_false < defs.len()
        }
}

/// One queue and one counter for each worker.
pub open spec fn matches_defs(defs: Seq<MonkeyView>, st: SimState) -> bool {
    st.queues.len() == defs.len() && st.activity.len() == defs.len()
}

/// The worker that receives `w` from `m`.
pub open spec fn target(m: MonkeyView, w: u64) -> usize {
    if w % m.test == 0 {
        m.if_true
    } else {
        m.if_false
    }
}

/// The value that `m` passes on for item `x`, if it is a `u64`.
pub open spec fn inspect(m: MonkeyView, strategy: OverflowStrategy, x: u64) -> Option<u64> {
    if transform_fits(m.operation, x as int) {
        Some(relieve(strategy, spec_transform(m.operation, x as int) as u64))
    } else {
        None
    }
}

/// Worker `i` takes the item at the front of its own queue, inspects it and
/// throws the result to the back of its target's queue, which may be its
/// own. It goes on until its queue is empty when it looks again. It may
/// inspect at most `fuel` more items: the turn fails with `EndlessTurn` when
/// its queue is still not empty after that many, and with `Overflow` when a
/// value or its counter leaves the range of `u64`.
pub open spec fn drain(
    defs: Seq<MonkeyView>,
    strategy: OverflowStrategy,
    i: int,
    st: SimState,
    fuel: nat,
) -> Result<SimState, SimulationError>
    decreases fuel,
{
    let q = st.queues[i];
    if q.len() == 0 {
        Ok(st)
    } else if fuel == 0 {
        Err(SimulationError::EndlessTurn)
    } else {
        match inspect(defs[i], strategy, q[0]) {
            None => Err(SimulationError::Overflow),
            Some(w) => {
                if st.activity[i] == u64::MAX {
                    Err(SimulationError::Overflow)
                } else {
                    let t = target(defs[i], w) as int;
                    let popped = st.queues.update(i, q.drop_first());
                    let next = SimState {
                        queues: popped.update(t, popped[t].push(w)),
                        activity: st.activity.update(i, (st.activity[i] + 1) as u64),
                    };
                    drain(defs, strategy, i, next, (fuel - 1) as nat)
                }
            },
        }
    }
}

/// The turn of worker `i`, inspecting at most `limit` items.
pub open spec fn spec_turn(
    defs: Seq<MonkeyView>,
    strategy: OverflowStrategy,
    limit: nat,
    i: int,
    st: SimState,
) -> Result<SimState, SimulationError> {
    drain(defs, strategy, i, st, limit)
}

/// The turns of workers `i`, `i + 1`, ... to the last, in that order.
pub open spec fn spec_round_from(
    defs: Seq<MonkeyView>,
    strategy: OverflowStrategy,
    limit: nat,
    i: int,
    st: SimState,
) -> Result<SimState, SimulationError>
    decreases defs.len() - i,
{
    if i < 0 || i >= defs.len() {
        Ok(st)
    } else {
        match spec_turn(defs, strategy, limit, i, st) {
            Err(e) => Err(e),
            Ok(next) => spec_round_from(defs, strategy, limit, i + 1, next),
        }
    }
}

/// `n` rounds from `st`.
pub open spec fn spec_rounds(
    defs: Seq<MonkeyView>,
    strategy: OverflowStrategy,
    limit: nat,
    n: nat,
    st: SimState,
) -> Result<SimState, SimulationError>
    decreases n,
{
    if n == 0 {
        Ok(st)
    } else {
        match spec_rounds(defs, strategy, limit, (n - 1) as nat, st) {
            Err(e) => Err(e),
            Ok(s) => spec_round_from(defs, strategy, limit, 0, s),
        }
    }
}

/// Queues seeded with the starting items, counters at zero.
pub open spec fn initial_state(defs: Seq<MonkeyView>) -> SimState {
    SimState {
        queues: defs.map_values(|m: MonkeyView| m.items),
        activity: Seq::new(defs.len(), |i: int| 0u64),
    }
}

/// Why a run stopped.
#[derive(Clone, Copy, Debug, PartialEq, Eq, Structural)]
pub enum SimulationError {
    /// A value or an activity counter left the range of `u64`.
    Overflow,
    /// A worker inspected more items in one turn than the run allows, its
    /// queue still not empty.
    EndlessTurn,
}

/// The mutable state of a run.
pub struct Simulation {
    queues: Vec<VecDeque<u64>>,
    activity: Vec<u64>,
}

impl View for Simulation {
    type V = SimState;

    closed spec fn view(&self) -> SimState {
        SimState {
            queues: self.queues@.map_values(|q: VecDeque<u64>| q@),
            activity: self.activity@,
        }
    }
}

/// A failed run stays failed, with the same error, however many rounds follow.
pub proof fn lemma_failure_persists(
    defs: Seq<MonkeyView>,
    strategy: OverflowStrategy,
    limit: nat,
    a: nat,
    b: nat,
    st: SimState,
)
    requires
        a <= b,
        spec_rounds(defs, strategy, limit, a, st) is Err,
    ensures
        spec_rounds(defs, strategy, limit, b, st) == spec_rounds(defs, strategy, limit, a, st),
    decreases b - a,
{
    if a < b {
        lemma_failure_persists(defs, strategy, limit, a, (b - 1) as nat, st);
    }
}

impl Simulation {
    /// Queues seeded from the definitions' starting items, in order; counters at zero.
    pub fn new(defs: &Vec<Monkey>) -> (r: Simulation)
        ensures
            r@ == initial_state(views(defs@)),
    {
        let mut queues: Vec<VecDeque<u64>> = Vec::new();
        let mut activity: Vec<u64> = Vec::new();
        let mut i: usize = 0;
        while i < defs.len()
            invariant
                i <= defs@.len(),
                queues@.len() == i,
                activity@.len() == i,
                forall|k: int| 0 <= k < i ==> #[trigger] queues@[k]@ == defs@[k].items@,
                forall|k: int| 0 <= k < i ==> #[trigger] activity@[k] == 0,
            decreases defs@.len() - i,
        {
            let items = &defs[i].items;
            let mut q: VecDeque<u64> = VecDeque::new();
            let mut j: usize = 0;
            while j < items.len()
                invariant
                    j <= items@.len(),
                    q@ == items@.subrange(0, j as int),
                decreases items@.len() - j,
            {
                q.push_back(items[j]);
                j += 1;
                assert(q@ =~= items@.subrange(0, j as int));
            }
            assert(q@ =~= items@);
            queues.push(q);
            activity.push(0);
            i += 1;
        }
        let r = Simulation { queues, activity };
        assert(r@.queues =~= initial_state(views(defs@)).queues);
        assert(r@.activity =~= initial_state(views(defs@)).activity);
        r
    }

    /// The activity counters, one per worker.
    pub fn activity(&self) -> (r: Vec<u64>)
        ensures
            r@ == self@.activity,
    {
        let mut r: Vec<u64> = Vec::new();
        let mut i: usize = 0;
        while i < self.activity.len()
            invariant
                i <= self.activity@.len(),
                r@ == self.activity@.subrange(0, i as int),
            decreases self.activity@.len() - i,
        {
            r.push(self.activity[i]);
            i += 1;
            assert(r@ =~= self.activity@.subrange(0, i as int));
        }
        assert(r@ =~= self.activity@);
        r
    }

    /// The items that worker `i` holds, front first.
    pub fn queue(&self, i: usize) -> (r: Vec<u64>)
        requires
            i < self@.queues.len(),
        ensures
            r@ == self@.queues[i as int],
    {
        let q = &self.queues[i];
        let mut r: Vec<u64> = Vec::new();
        let mut j: usize = 0;
        while j < q.len()
            invariant
                j <= q@.len(),
                r@ == q@.subrange(0, j as int),
            decreases q@.len() - j,
        {
            r.push(q[j]);
            j += 1;
            assert(r@ =~= q@.subrange(0, j as int));
        }
        assert(r@ =~= q@);
        r
    }

    /// The turn of worker `i`, inspecting at most `limit` items.
    fn turn(&mut self, defs: &Vec<Monkey>, strategy: OverflowStrategy, limit: u64, i: usize) -> (r:
        Result<(), SimulationError>)
        requires
            well_formed(views(defs@)),
            matches_defs(views(defs@), old(self)@),
            i < defs@.len(),
            strategy_ok(strategy),
        ensures
            r is Ok ==> spec_turn(views(defs@), strategy, limit as nat, i as int, old(self)@) == Ok::<
                SimState,
                SimulationError,
            >(final(self)@),
            r matches Err(e) ==> spec_turn(views(defs@), strategy, limit as nat, i as int, old(self)@)
                == Err::<SimState, SimulationError>(e),
            matches_defs(views(defs@), final(self)@),
    {
        let ghost ds = views(defs@);
        let ghost start = self@;
        let m = &defs[i];
        assert(ds[i as int] == m@);
        let mut fuel = limit;
        loop
            invariant
                start == old(self)@,
                ds == views(defs@),
                well_formed(ds),
                i < defs@.len(),
                ds[i as int] == m@,
                strategy_ok(strategy),
                matches_defs(ds, self@),
                self.queues@.len() == defs@.len(),
                self.activity@.len() == defs@.len(),
                spec_turn(ds, strategy, limit as nat, i as int, start) == drain(
                    ds,
                    strategy,
                    i as int,
                    self@,
                    fuel as nat,
                ),
            decreases fuel,
        {
            let ghost before = self@;
            assert(before.queues[i as int] == self.queues@[i as int]@);
            if self.queues[i].len() == 0 {
                return Ok(());
            }
            if fuel == 0 {
                return Err(SimulationError::EndlessTurn);
            }
            let x = match self.queues[i].pop_front() {
                None => return Ok(()),
                Some(x) => x,
            };
            let v = match m.operation.transform(x) {
                None => return Err(SimulationError::Overflow),
                Some(v) => v,
            };
            let w = strategy.apply(v);
            let a = self.activity[i];
            if a == u64::MAX {
                return Err(SimulationError::Overflow);
            }
            self.activity.set(i, a + 1);
            let t = if w % m.test == 0 {
                m.if_true
            } else {
                m.if_false
            };
            let ghost popped = before.queues.update(i as int, before.queues[i as int].drop_first());
            assert(self@.queues =~= popped);
            self.queues[t].push_back(w);
            assert(self@.queues =~= popped.update(t as int, popped[t as int].push(w)));
            fuel = fuel - 1;
        }
    }

    /// One round: the turns of all workers in order, each inspecting at most
    /// `limit` items.
    pub fn round(&mut self, defs: &Vec<Monkey>, strategy: OverflowStrategy, limit: u64) -> (r:
        Result<(), SimulationError>)
        requires
            well_formed(views(defs@)),
            matches_defs(views(defs@), old(self)@),
            strategy_ok(strategy),
        ensures
            r is Ok ==> spec_round_from(views(defs@), strategy, limit as nat, 0, old(self)@) == Ok::<
                SimState,
                SimulationError,
            >(final(self)@),
            r matches Err(e) ==> spec_round_from(views(defs@), strategy, limit as nat, 0, old(self)@)
                == Err::<SimState, SimulationError>(e),
            matches_defs(views(defs@), final(self)@),
    {
        let ghost ds = views(defs@);
        let ghost start = self@;
        let mut i: usize = 0;
        while i < defs.len()
            invariant
                start == old(self)@,
                ds == views(defs@),
                i <= defs@.len(),
                well_formed(ds),
                strategy_ok(strategy),
                matches_defs(ds, self@),
                spec_round_from(ds, strategy, limit as nat, 0, start) == spec_round_from(
                    ds,
                    strategy,
                    limit as nat,
                    i as int,
                    self@,
                ),
            decreases defs@.len() - i,
        {
            match self.turn(defs, strategy, limit, i) {
                Err(e) => return Err(e),
                Ok(()) => {},
            }
            i += 1;
        }
        Ok(())
    }

    /// Runs `rounds` rounds, each turn inspecting at most `limit` items.
    pub fn run(&mut self, defs: &Vec<Monkey>, strategy: OverflowStrategy, rounds: u64, limit: u64) -> (r:
        Result<(), SimulationError>)
        requires
            well_formed(views(defs@)),
            matches_defs(views(defs@), old(self)@),
            strategy_ok(strategy),
        ensures
            r is Ok ==> spec_rounds(views(defs@), strategy, limit as nat, rounds as nat, old(self)@)
                == Ok::<SimState, SimulationError>(final(self)@),
            r matches Err(e) ==> spec_rounds(views(defs@), strategy, limit as nat, rounds as nat, old(self)@)
                == Err::<SimState, SimulationError>(e),
            matches_defs(views(defs@), final(self)@),
    {
        let ghost ds = views(defs@);
        let ghost start = self@;
        let mut k: u64 = 0;
        while k < rounds
            invariant
                start == old(self)@,
                ds == views(defs@),
                k <= rounds,
                well_formed(ds),
                strategy_ok(strategy),
                matches_defs(ds, self@),
                spec_rounds(ds, strategy, limit as nat, k as nat, start) == Ok::<SimState, SimulationError>(self@),
            decreases rounds - k,
        {
            match self.round(defs, strategy, limit) {
                Err(e) => {
                    proof {
                        lemma_failure_persists(ds, strategy, limit as nat, (k + 1) as nat, rounds as nat, start);
                    }
                    return Err(e);
                },
                Ok(()) => {},
            }
            k += 1;
        }
        Ok(())
    }
}

} // verus!
