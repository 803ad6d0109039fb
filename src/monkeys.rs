//! The whole computation: parse the definitions, run the simulation under a
//! strategy, and publish the business metric.
use crate::divisibility::{lcm_all, lcm_of, lemma_reduction_keeps_remainders};
use crate::engine::{
    initial_state, relieve, spec_rounds, strategy_ok, target, well_formed, OverflowStrategy,
    Simulation, SimulationError,
};
use crate::grammar::{spec_parse, MonkeyView, ParseError};
use crate::metric::{business, spec_business};
use crate::parser::{parse_monkeys, views, Monkey};
use vstd::prelude::*;
use vstd::string::StringSliceAdditionalSpecFns;

verus! {

/// Why no metric could be published.
#[derive(Clone, Copy, Debug, PartialEq, Eq, Structural)]
pub enum MonkeyError {
    /// The text does not follow the format.
    Parse(ParseError),
    /// A divisor is zero or a target names no worker.
    InvalidDefinitions,
    /// The strategy divides or reduces by zero.
    InvalidStrategy,
    /// A value, a counter or the common multiple left the range of `u64`.
    Overflow,
    /// A worker inspected more than `TURN_LIMIT` items in one turn.
    EndlessTurn,
}

/// The most items a worker may inspect in one turn. A turn only ends when the
/// worker's own queue is empty, and a worker that keeps throwing an item to
/// itself would never finish.
pub const TURN_LIMIT: u64 = 1_000_000;

/// Rounds of the divide-by-three run.
pub const FLOOR_ROUNDS: u64 = 20;

/// Rounds of the modulo run.
pub const MODULO_ROUNDS: u64 = 10000;

/// The divisors of all workers, in order.
pub open spec fn divisors(ds: Seq<MonkeyView>) -> Seq<u64> {
    ds.map_values(|m: MonkeyView| m.test)
}

/// The metric after `rounds` rounds from the seeded state.
#[verifier::opaque]
pub open spec fn spec_simulate(ds: Seq<MonkeyView>, strategy: OverflowStrategy, rounds: nat) -> Result<
    int,
    MonkeyError,
> {
    if !well_formed(ds) {
        Err(MonkeyError::InvalidDefinitions)
    } else if !strategy_ok(strategy) {
        Err(MonkeyError::InvalidStrategy)
    } else {
        match spec_rounds(ds, strategy, TURN_LIMIT as nat, rounds, initial_state(ds)) {
            Err(SimulationError::Overflow) => Err(MonkeyError::Overflow),
            Err(SimulationError::EndlessTurn) => Err(MonkeyError::EndlessTurn),
            Ok(st) => Ok(spec_business(st.activity)),
        }
    }
}

/// Both published numbers for a text: twenty rounds dividing by three, then
/// ten thousand rounds reducing by the least common multiple of the divisors.
pub open spec fn spec_day11(s: Seq<u8>) -> Result<(int, int), MonkeyError> {
    match spec_parse(s) {
        Err(e) => Err(MonkeyError::Parse(e)),
        Ok(ds) => match spec_simulate(
            ds,
            OverflowStrategy::DivideAndFloor(3),
            FLOOR_ROUNDS as nat,
        ) {
            Err(e) => Err(e),
            Ok(a) => {
                let l = lcm_all(divisors(ds));
                if l > u64::MAX {
                    Err(MonkeyError::Overflow)
                } else {
                    match spec_simulate(
                        ds,
                        OverflowStrategy::ModuloBy(l as u64),
                        MODULO_ROUNDS as nat,
                    ) {
                        Err(e) => Err(e),
                        Ok(b) => Ok((a, b)),
                    }
                }
            },
        },
    }
}

/// Reducing by the least common multiple of all divisors keeps the remainder
/// of any value by every divisor, and so never changes where a worker throws it.
pub proof fn lemma_modulo_keeps_routing(ds: Seq<MonkeyView>, x: u64, i: int)
    requires
        well_formed(ds),
        0 <= i < ds.len(),
        lcm_all(divisors(ds)) <= u64::MAX,
    ensures
        (x % (lcm_all(divisors(ds)) as u64)) % ds[i].test == x % ds[i].test,
        target(ds[i], relieve(OverflowStrategy::ModuloBy(lcm_all(divisors(ds)) as u64), x))
            == target(ds[i], x),
{
    let tests = divisors(ds);
    assert forall|j: int| 0 <= j < tests.len() implies #[trigger] tests[j] > 0 by {
        assert(ds[j].test > 0);
    }
    lemma_reduction_keeps_remainders(tests, x as int, i);
}

/// Zero rounds leave every activity counter at zero and every queue holding
/// its starting items in their original order.
pub proof fn lemma_zero_rounds(ds: Seq<MonkeyView>, strategy: OverflowStrategy, limit: nat)
    ensures
        spec_rounds(ds, strategy, limit, 0, initial_state(ds)) matches Ok(st) && {
            &&& st.activity.len() == ds.len()
            &&& st.queues.len() == ds.len()
            &&& forall|i: int| 0 <= i < ds.len() ==> #[trigger] st.activity[i] == 0
            &&& forall|i: int| 0 <= i < ds.len() ==> #[trigger] st.queues[i] == ds[i].items
        },
{
}

/// Tells whether every divisor is positive and every target names a worker.
pub fn check_definitions(defs: &Vec<Monkey>) -> (r: bool)
    ensures
        r == well_formed(views(defs@)),
{
    let n = defs.len();
    let mut i: usize = 0;
    while i < n
        invariant
            n == defs@.len(),
            i <= n,
            forall|k: int| 0 <= k < i ==> {
                &&& #[trigger] defs@[k].test > 0
                &&& defs@[k].if_true < n
                &&& defs@[k].if_false < n
            },
        decreases n - i,
    {
        let m = &defs[i];
        if m.test == 0 || m.if_true >= n || m.if_false >= n {
            proof {
                let ds = views(defs@);
                assert(ds.len() == n);
                assert(ds[i as int] == m@);
                assert(!(ds[i as int].test > 0 && ds[i as int].if_true < ds.len() && ds[i as int].if_false
                    < ds.len()));
                assert(!well_formed(ds));
            }
            return false;
        }
        i += 1;
    }
    assert forall|k: int| 0 <= k < views(defs@).len() implies {
        &&& #[trigger] views(defs@)[k].test > 0
        &&& views(defs@)[k].if_true < views(defs@).len()
        &&& views(defs@)[k].if_false < views(defs@).len()
    } by {
        assert(views(defs@)[k] == defs@[k]@);
    }
    true
}

/// Runs `rounds` rounds under `strategy` from the seeded state and returns
/// the product of the two largest activity counters.
pub fn monkey_business(defs: &Vec<Monkey>, strategy: OverflowStrategy, rounds: u64) -> (r: Result<
    u128,
    MonkeyError,
>)
    ensures
        match r {
            Ok(v) => spec_simulate(views(defs@), strategy, rounds as nat) == Ok::<int, MonkeyError>(v as int),
            Err(e) => spec_simulate(views(defs@), strategy, rounds as nat) == Err::<int, MonkeyError>(e),
        },
{
    reveal(spec_simulate);
    if !check_definitions(defs) {
        return Err(MonkeyError::InvalidDefinitions);
    }
    let valid = match strategy {
        OverflowStrategy::DivideAndFloor(k) => k > 0,
        OverflowStrategy::ModuloBy(l) => l > 0,
    };
    if !valid {
        return Err(MonkeyError::InvalidStrategy);
    }
    let mut sim = Simulation::new(defs);
    match sim.run(defs, strategy, rounds, TURN_LIMIT) {
        Err(SimulationError::Overflow) => Err(MonkeyError::Overflow),
        Err(SimulationError::EndlessTurn) => Err(MonkeyError::EndlessTurn),
        Ok(()) => {
            let activity = sim.activity();
            Ok(business(&activity))
        },
    }
}

/// The divisors of the workers, in order.
fn divisor_list(defs: &Vec<Monkey>) -> (r: Vec<u64>)
    ensures
        r@ == divisors(views(defs@)),
{
    let mut r: Vec<u64> = Vec::new();
    let mut i: usize = 0;
    while i < defs.len()
        invariant
            i <= defs@.len(),
            r@ == divisors(views(defs@)).subrange(0, i as int),
        decreases defs@.len() - i,
    {
        r.push(defs[i].test);
        i += 1;
        assert(r@ =~= divisors(views(defs@)).subrange(0, i as int));
    }
    assert(r@ =~= divisors(views(defs@)));
    r
}

/// Parses `text` and publishes the metric of both runs.
pub fn day11(text: &str) -> (r: Result<(u128, u128), MonkeyError>)
    ensures
        match r {
            Ok((a, b)) => spec_day11(text.spec_bytes()) == Ok::<(int, int), MonkeyError>(
                (a as int, b as int),
            ),
            Err(e) => spec_day11(text.spec_bytes()) == Err::<(int, int), MonkeyError>(e),
        },
{
    let defs = match parse_monkeys(text) {
        Err(e) => return Err(MonkeyError::Parse(e)),
        Ok(defs) => defs,
    };
    let a = match monkey_business(&defs, OverflowStrategy::DivideAndFloor(3), FLOOR_ROUNDS) {
        Err(e) => return Err(e),
        Ok(a) => a,
    };
    let ghost ds = views(defs@);
    assert(well_formed(ds)) by {
        reveal(spec_simulate);
    }
    let tests = divisor_list(&defs);
    assert forall|k: int| 0 <= k < tests@.len() implies #[trigger] tests@[k] > 0 by {
        assert(ds[k].test > 0);
    }
    let l = match lcm_of(&tests) {
        None => return Err(MonkeyError::Overflow),
        Some(l) => l,
    };
    let b = match monkey_business(&defs, OverflowStrategy::ModuloBy(l), MODULO_ROUNDS) {
        Err(e) => return Err(e),
        Ok(b) => b,
    };
    Ok((a, b))
}

} // verus!
