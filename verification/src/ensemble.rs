//! The ensemble driver: a burn-in phase that only moves the chain, and a
//! measuring phase that adds up the observables after every step.
//!
//! The driver hands back exact integer sums. Dividing them by the number of
//! samples, and taking the root of the mean squared magnetization, is left to
//! the caller.

use crate::grid::{lemma_observable_bounds, Grid};
use crate::system::{lemma_area_limit, System};
use crate::update::{
    lemma_step_observables, lemma_zero_temperature_descends, metropolis_step, step_outcome,
    UpdateRule,
};
use vstd::prelude::*;

verus! {

/// The running observables of a chain and their sums over the samples taken
/// so far.
pub struct Sums {
    /// The energy after the last step, as the reported changes give it.
    pub energy: int,
    /// The magnetization after the last step.
    pub magnetization: int,
    /// The sum of the energy over all samples.
    pub energy_sum: int,
    /// The sum of the squared magnetization over all samples.
    pub squared_magnetization_sum: int,
    /// The number of samples.
    pub samples: nat,
}

impl Sums {
    /// No sample yet, and the observables of the configuration from which
    /// the measurement starts.
    pub open spec fn start(energy: int, magnetization: int) -> Sums {
        Sums { energy, magnetization, energy_sum: 0, squared_magnetization_sum: 0, samples: 0 }
    }

    /// One more sample: the step's changes `(de, dm)` are added to the
    /// running observables, and these to the sums.
    pub open spec fn record(self, de: int, dm: int) -> Sums {
        Sums {
            energy: self.energy + de,
            magnetization: self.magnetization + dm,
            energy_sum: self.energy_sum + (self.energy + de),
            squared_magnetization_sum: self.squared_magnetization_sum + (self.magnetization + dm)
                * (self.magnetization + dm),
            samples: self.samples + 1,
        }
    }

    /// The sums after a sample for each of the changes, in their order.
    pub open spec fn after(self, changes: Seq<(int, int)>) -> Sums
        decreases changes.len(),
    {
        if changes.len() == 0 {
            self
        } else {
            self.after(changes.drop_last()).record(changes.last().0, changes.last().1)
        }
    }
}

/// The accumulator of a measurement. The sums are wider than the observables
/// that go into them.
pub struct Tally {
    energy: i64,
    magnetization: i32,
    energy_sum: i128,
    squared_magnetization_sum: i128,
    samples: u32,
}

impl View for Tally {
    type V = Sums;

    /// The running observables and the sums that the accumulator holds.
    closed spec fn view(&self) -> Sums {
        Sums {
            energy: self.energy as int,
            magnetization: self.magnetization as int,
            energy_sum: self.energy_sum as int,
            squared_magnetization_sum: self.squared_magnetization_sum as int,
            samples: self.samples as nat,
        }
    }
}

impl Tally {
    /// The sums are within what the number of samples allows, so that the
    /// next sample cannot overflow them.
    pub closed spec fn wf(&self) -> bool {
        &&& i32::MIN * (self.samples + 1) <= self.energy <= i32::MAX * (self.samples + 1)
        &&& i64::MIN * self.samples <= self.energy_sum <= i64::MAX * self.samples
        &&& 0 <= self.squared_magnetization_sum <= 0x4000_0000_0000_0000 * self.samples
    }

    /// Starts a measurement on a configuration with the given observables.
    pub fn start(energy: i32, magnetization: i32) -> (t: Tally)
        ensures
            t.wf(),
            t@ == Sums::start(energy as int, magnetization as int),
    {
        Tally {
            energy: energy as i64,
            magnetization,
            energy_sum: 0,
            squared_magnetization_sum: 0,
            samples: 0,
        }
    }

    /// Takes a sample after a step that has reported the changes
    /// `(de, dm)`.
    pub fn record(&mut self, de: i32, dm: i32)
        requires
            old(self).wf(),
            old(self)@.samples < u32::MAX,
            i32::MIN <= old(self)@.magnetization + dm <= i32::MAX,
        ensures
            final(self).wf(),
            final(self)@ == old(self)@.record(de as int, dm as int),
    {
        self.energy = self.energy + de as i64;
        self.magnetization = self.magnetization + dm;
        let m: i128 = self.magnetization as i128;
        assert(0 <= m * m <= 0x4000_0000_0000_0000) by (nonlinear_arith)
            requires
                -0x8000_0000 <= m <= 0x8000_0000,
        ;
        self.energy_sum = self.energy_sum + self.energy as i128;
        self.squared_magnetization_sum = self.squared_magnetization_sum + m * m;
        self.samples = self.samples + 1;
    }

    /// The energy after the last step, as the reported changes give it.
    pub fn energy(&self) -> (e: i64)
        ensures
            e == self@.energy,
    {
        self.energy
    }

    /// The magnetization after the last step.
    pub fn magnetization(&self) -> (m: i32)
        ensures
            m == self@.magnetization,
    {
        self.magnetization
    }

    /// The sum of the energy over all samples.
    pub fn energy_sum(&self) -> (sum: i128)
        ensures
            sum == self@.energy_sum,
    {
        self.energy_sum
    }

    /// The sum of the squared magnetization over all samples.
    pub fn squared_magnetization_sum(&self) -> (sum: i128)
        ensures
            sum == self@.squared_magnetization_sum,
    {
        self.squared_magnetization_sum
    }

    /// The number of samples.
    pub fn samples(&self) -> (n: u32)
        ensures
            n == self@.samples,
    {
        self.samples
    }
}

/// The number of steps that a count of `n` asks for: none where `n` is
/// negative.
pub open spec fn steps_of(n: i32) -> int {
    if n > 0 {
        n as int
    } else {
        0
    }
}

/// Whether `path` is a walk of the chain that reports `changes`: each grid
/// follows from the one before it by one step of the rule.
pub open spec fn is_chain(rule: UpdateRule, path: Seq<Grid>, changes: Seq<(int, int)>) -> bool {
    &&& path.len() == changes.len() + 1
    &&& forall|k: int|
        0 <= k < changes.len() ==> step_outcome(rule, path[k], path[k + 1], #[trigger] changes[k])
}

/// Whether the chain can walk from `g` to `g2` and report `changes` on the
/// way.
pub open spec fn run(rule: UpdateRule, g: Grid, g2: Grid, changes: Seq<(int, int)>) -> bool {
    exists|path: Seq<Grid>| #[trigger]
        is_chain(rule, path, changes) && path[0] == g && path.last() == g2
}

/// Whether the chain can walk from `g` to `g2` in `steps` steps.
pub open spec fn evolved(rule: UpdateRule, g: Grid, g2: Grid, steps: int) -> bool {
    exists|changes: Seq<(int, int)>| changes.len() == steps && #[trigger] run(rule, g, g2, changes)
}

/// Whether the chain can walk from `g` to `g2` in `steps` steps and sample
/// `sums` on the way, starting from the observables of `g`.
pub open spec fn averaged(rule: UpdateRule, g: Grid, g2: Grid, steps: int, sums: Sums) -> bool {
    exists|changes: Seq<(int, int)>|
        changes.len() == steps && #[trigger] run(rule, g, g2, changes) && sums == Sums::start(
            g.energy(),
            g.magnetization(),
        ).after(changes)
}

/// Whether burning in for `burn` steps from `g` and then measuring for
/// `steps` steps can end in `g2` with `sums`.
pub open spec fn sampled(
    rule: UpdateRule,
    g: Grid,
    g2: Grid,
    burn: int,
    steps: int,
    sums: Sums,
) -> bool {
    exists|mid: Grid| #[trigger] evolved(rule, g, mid, burn) && averaged(rule, mid, g2, steps, sums)
}

/// A walk extended by one step is a walk.
proof fn lemma_chain_push(
    rule: UpdateRule,
    path: Seq<Grid>,
    changes: Seq<(int, int)>,
    g2: Grid,
    r: (int, int),
)
    requires
        is_chain(rule, path, changes),
        step_outcome(rule, path.last(), g2, r),
    ensures
        is_chain(rule, path.push(g2), changes.push(r)),
{
    let path2 = path.push(g2);
    let changes2 = changes.push(r);
    assert forall|k: int| 0 <= k < changes2.len() implies step_outcome(
        rule,
        path2[k],
        path2[k + 1],
        #[trigger] changes2[k],
    ) by {
        if k < changes.len() {
            assert(changes2[k] == changes[k]);
            assert(path2[k] == path[k] && path2[k + 1] == path[k + 1]);
        }
    }
}

/// Evolves the system for `n` steps of the rule. Observables are not
/// tracked.
pub fn evolve(sys: &mut System, n: i32, rule: &UpdateRule)
    requires
        old(sys).wf(),
    ensures
        final(sys).wf(),
        evolved(*rule, old(sys)@, final(sys)@, steps_of(n)),
        final(sys)@.side() == old(sys)@.side(),
        n <= 0 ==> final(sys)@ == old(sys)@,
{
    let ghost mut path: Seq<Grid> = seq![sys@];
    let ghost mut changes: Seq<(int, int)> = Seq::empty();
    let mut k: i32 = 0;
    while k < n
        invariant
            sys.wf(),
            0 <= k <= steps_of(n),
            is_chain(*rule, path, changes),
            changes.len() == k,
            path[0] == old(sys)@,
            path.last() == sys@,
            sys@.side() == old(sys)@.side(),
            k == 0 ==> sys@ == old(sys)@,
        decreases n - k,
    {
        let r: (i32, i32) = metropolis_step(sys, rule);
        proof {
            lemma_chain_push(*rule, path, changes, sys@, (r.0 as int, r.1 as int));
            path = path.push(sys@);
            changes = changes.push((r.0 as int, r.1 as int));
        }
        k = k + 1;
    }
    assert(run(*rule, old(sys)@, sys@, changes));
}

/// Accumulates the energy and the squared magnetization of the system over
/// `n` steps of the rule: the observables are computed once in full, carried
/// along by the changes that each step reports, and added to the sums after
/// every step.
pub fn time_average(sys: &mut System, n: i32, rule: &UpdateRule) -> (tally: Tally)
    requires
        old(sys).wf(),
    ensures
        final(sys).wf(),
        tally.wf(),
        averaged(*rule, old(sys)@, final(sys)@, steps_of(n), tally@),
        final(sys)@.side() == old(sys)@.side(),
        tally@.samples == steps_of(n),
        tally@.magnetization == final(sys)@.magnetization(),
        old(sys)@.side() >= 2 ==> tally@.energy == final(sys)@.energy(),
{
    let mut tally: Tally = Tally::start(sys.evaluate_energy(), sys.magnetization());
    let ghost first = Sums::start(sys@.energy(), sys@.magnetization());
    let ghost mut path: Seq<Grid> = seq![sys@];
    let ghost mut changes: Seq<(int, int)> = Seq::empty();
    let mut k: i32 = 0;
    while k < n
        invariant
            sys.wf(),
            tally.wf(),
            0 <= k <= steps_of(n),
            is_chain(*rule, path, changes),
            changes.len() == k,
            path[0] == old(sys)@,
            path.last() == sys@,
            first == Sums::start(old(sys)@.energy(), old(sys)@.magnetization()),
            tally@ == first.after(changes),
            tally@.samples == k,
            tally@.magnetization == sys@.magnetization(),
            sys@.side() == old(sys)@.side(),
            sys@.side() >= 2 ==> tally@.energy == sys@.energy(),
        decreases n - k,
    {
        let ghost before = sys@;
        let r: (i32, i32) = metropolis_step(sys, rule);
        proof {
            let change = (r.0 as int, r.1 as int);
            lemma_step_observables(*rule, before, sys@, change);
            lemma_observable_bounds(sys@);
            lemma_area_limit(sys@.side() as int);
            lemma_chain_push(*rule, path, changes, sys@, change);
            assert(changes.push(change).drop_last() =~= changes);
            path = path.push(sys@);
            changes = changes.push(change);
        }
        tally.record(r.0, r.1);
        k = k + 1;
    }
    assert(run(*rule, old(sys)@, sys@, changes));
    tally
}

/// A Monte Carlo estimate after a burn-in phase: the chain is first evolved
/// for `n_evolve` steps, then the observables are accumulated over
/// `n_average` steps.
pub fn ensemble_average(
    sys: &mut System,
    rule: &UpdateRule,
    n_evolve: i32,
    n_average: i32,
) -> (tally: Tally)
    requires
        old(sys).wf(),
    ensures
        final(sys).wf(),
        tally.wf(),
        sampled(*rule, old(sys)@, final(sys)@, steps_of(n_evolve), steps_of(n_average), tally@),
        final(sys)@.side() == old(sys)@.side(),
        tally@.samples == steps_of(n_average),
        tally@.magnetization == final(sys)@.magnetization(),
        old(sys)@.side() >= 2 ==> tally@.energy == final(sys)@.energy(),
{
    evolve(sys, n_evolve, rule);
    let ghost mid = sys@;
    let tally = time_average(sys, n_average, rule);
    assert(evolved(*rule, old(sys)@, mid, steps_of(n_evolve)));
    tally
}

/// A walk without its last step is a walk.
proof fn lemma_chain_drop_last(rule: UpdateRule, path: Seq<Grid>, changes: Seq<(int, int)>)
    requires
        is_chain(rule, path, changes),
        changes.len() > 0,
    ensures
        is_chain(rule, path.drop_last(), changes.drop_last()),
        step_outcome(rule, path.drop_last().last(), path.last(), changes.last()),
{
    let path1 = path.drop_last();
    let changes1 = changes.drop_last();
    assert forall|k: int| 0 <= k < changes1.len() implies step_outcome(
        rule,
        path1[k],
        path1[k + 1],
        #[trigger] changes1[k],
    ) by {
        assert(changes1[k] == changes[k]);
        assert(path1[k] == path[k] && path1[k + 1] == path[k + 1]);
    }
    let last = changes.len() - 1;
    assert(step_outcome(rule, path[last], path[last + 1], changes[last]));
}

/// Incremental and full computation agree along a walk. The observables
/// that are carried along by the reported changes are those of the grid that
/// the walk has reached: the magnetization always, the energy on a grid of
/// side two or more.
pub proof fn lemma_running_observables(rule: UpdateRule, path: Seq<Grid>, changes: Seq<(int, int)>)
    requires
        is_chain(rule, path, changes),
        path[0].valid(),
    ensures
        path.last().valid(),
        path.last().side() == path[0].side(),
        Sums::start(path[0].energy(), path[0].magnetization()).after(changes).samples
            == changes.len(),
        Sums::start(path[0].energy(), path[0].magnetization()).after(changes).magnetization
            == path.last().magnetization(),
        path[0].side() >= 2 ==> Sums::start(path[0].energy(), path[0].magnetization()).after(
            changes,
        ).energy == path.last().energy(),
    decreases changes.len(),
{
    if changes.len() > 0 {
        lemma_chain_drop_last(rule, path, changes);
        lemma_running_observables(rule, path.drop_last(), changes.drop_last());
        lemma_step_observables(rule, path.drop_last().last(), path.last(), changes.last());
    }
}

/// At zero temperature a walk of the single-spin rule never climbs: the
/// energy at its end is at most the energy at its start.
pub proof fn lemma_zero_temperature_walk(
    rule: UpdateRule,
    path: Seq<Grid>,
    changes: Seq<(int, int)>,
)
    requires
        is_chain(rule, path, changes),
        path[0].valid(),
        rule matches UpdateRule::Local(acc) && acc.four == 0 && acc.eight == 0,
    ensures
        path.last().energy() <= path[0].energy(),
    decreases changes.len(),
{
    if changes.len() > 0 {
        lemma_chain_drop_last(rule, path, changes);
        lemma_zero_temperature_walk(rule, path.drop_last(), changes.drop_last());
        lemma_running_observables(rule, path.drop_last(), changes.drop_last());
        lemma_zero_temperature_descends(
            rule->Local_0,
            path.drop_last().last(),
            path.last(),
            changes.last(),
        );
    }
}

/// A walk of no steps ends where it starts.
pub proof fn lemma_no_steps(rule: UpdateRule, g: Grid, g2: Grid)
    requires
        evolved(rule, g, g2, 0),
    ensures
        g2 == g,
{
    let changes = choose|changes: Seq<(int, int)>|
        changes.len() == 0 && #[trigger] run(rule, g, g2, changes);
    let path = choose|path: Seq<Grid>| #[trigger]
        is_chain(rule, path, changes) && path[0] == g && path.last() == g2;
    assert(path.len() == 1);
}

} // verus!
