//! The two update rules of the Markov chain: the single-spin Metropolis flip
//! and the cluster flip.
//!
//! A probability is held as a threshold: its numerator over `UNIT`, rounded
//! up. A draw `d` with `0 <= d < UNIT` falls below the probability exactly
//! when `d` is less than the threshold.

use crate::grid::{
    is_spin, lemma_flip, lemma_flip_count, lemma_flip_energy, lemma_flip_magnetization,
    lemma_neighbors, lemma_observable_bounds, lemma_ring, lemma_single_site, Grid, Site,
};
use crate::random::UNIT;
use crate::system::{lemma_area_limit, System};
use std::collections::VecDeque;
use vstd::prelude::*;

verus! {

/// The acceptance thresholds of the single-spin rule at one temperature: for
/// a flip that costs an energy of 4 and for one that costs 8, the Boltzmann
/// factor of the cost as a threshold. A flip that costs nothing or lowers the
/// energy is always accepted.
#[derive(Clone, Copy, Debug, PartialEq, Eq)]
pub struct Acceptance {
    /// Threshold of a flip with cost 4.
    pub four: u64,
    /// Threshold of a flip with cost 8.
    pub eight: u64,
}

impl Acceptance {
    /// The threshold of a flip with cost `de`.
    pub open spec fn threshold(self, de: int) -> int {
        if de <= 0 {
            UNIT as int
        } else if de <= 4 {
            self.four as int
        } else {
            self.eight as int
        }
    }

    /// Whether a flip with cost `de` is accepted on the draw `draw`.
    pub open spec fn accepts(self, de: int, draw: int) -> bool {
        de <= 0 || draw < self.threshold(de)
    }

    /// Decides whether a flip with cost `de` is accepted on the draw `draw`.
    pub fn admits(&self, de: i32, draw: u64) -> (yes: bool)
        ensures
            yes == self.accepts(de as int, draw as int),
    {
        if de <= 0 {
            true
        } else if de <= 4 {
            draw < self.four
        } else {
            draw < self.eight
        }
    }
}

/// The rule by which the chain moves from one configuration to the next,
/// with the thresholds that the temperature gives it.
#[derive(Clone, Copy, Debug, PartialEq, Eq)]
pub enum UpdateRule {
    /// Propose the flip of one site and accept it by its Boltzmann factor.
    Local(Acceptance),
    /// Grow a cluster of like spins from one site, adding each like
    /// neighbour with the probability held as threshold, and flip it whole.
    Cluster(u64),
}

/// What the single-spin rule does at site `(i, j)` on the draw `draw`: the
/// grid it leaves and the changes `(dE, dM)` of energy and magnetization.
pub open spec fn local_move(g: Grid, i: int, j: int, draw: int, acc: Acceptance) -> (
    Grid,
    (int, int),
) {
    if acc.accepts(g.delta_energy(i, j), draw) {
        (g.flip(i, j), (g.delta_energy(i, j), -2 * g.spin(i, j)))
    } else {
        (g, (0, 0))
    }
}

/// Whether one step of the single-spin rule can take `g` to `g2` and report
/// the changes `r`: some site and some draw give that move.
pub open spec fn local_outcome(g: Grid, acc: Acceptance, g2: Grid, r: (int, int)) -> bool {
    exists|i: int, j: int, draw: int|
        g.contains(i, j) && 0 <= draw < UNIT && #[trigger] local_move(g, i, j, draw, acc) == (
            g2,
            r,
        )
}

/// Proposes the flip of the spin at `(i, j)` and decides it on `draw`. On
/// acceptance the spin is flipped and the changes `(dE, dM)` are returned; on
/// rejection the lattice stays as it is and `(0, 0)` is returned.
pub fn local_update(sys: &mut System, i: usize, j: usize, draw: u64, acc: &Acceptance) -> (r: (
    i32,
    i32,
))
    requires
        old(sys).wf(),
        old(sys)@.contains(i as int, j as int),
    ensures
        final(sys).wf(),
        (final(sys)@, (r.0 as int, r.1 as int)) == local_move(
            old(sys)@,
            i as int,
            j as int,
            draw as int,
            *acc,
        ),
{
    let de: i32 = sys.deltaE(i, j);
    if acc.admits(de, draw) {
        let s: i32 = sys.flip(i, j);
        (de, -(2 * s))
    } else {
        (0, 0)
    }
}

/// One step of the single-spin rule: picks a site at random and proposes to
/// flip it. A number is drawn for the decision only where the flip costs
/// energy.
pub fn local_step(sys: &mut System, acc: &Acceptance) -> (r: (i32, i32))
    requires
        old(sys).wf(),
    ensures
        final(sys).wf(),
        local_outcome(old(sys)@, *acc, final(sys)@, (r.0 as int, r.1 as int)),
        final(sys)@.side() == old(sys)@.side(),
        r.1 == final(sys)@.magnetization() - old(sys)@.magnetization(),
        old(sys)@.side() >= 2 ==> r.0 == final(sys)@.energy() - old(sys)@.energy(),
{
    let i: usize = sys.random_site();
    let j: usize = sys.random_site();
    let draw: u64 = if sys.deltaE(i, j) > 0 {
        sys.random_unit()
    } else {
        0
    };
    let r = local_update(sys, i, j, draw, acc);
    proof {
        lemma_local_observables(*acc, old(sys)@, sys@, (r.0 as int, r.1 as int));
    }
    r
}

/// What a step of the single-spin rule reports is what it has done.
pub proof fn lemma_local_observables(acc: Acceptance, g: Grid, g2: Grid, r: (int, int))
    requires
        g.valid(),
        local_outcome(g, acc, g2, r),
    ensures
        g2.valid(),
        g2.side() == g.side(),
        g2.magnetization() == g.magnetization() + r.1,
        g.side() >= 2 ==> g2.energy() == g.energy() + r.0,
{
    let (i, j, draw) = choose|i: int, j: int, draw: int|
        g.contains(i, j) && 0 <= draw < UNIT && #[trigger] local_move(g, i, j, draw, acc) == (
            g2,
            r,
        );
    if acc.accepts(g.delta_energy(i, j), draw) {
        lemma_flip(g, i, j);
        lemma_flip_magnetization(g, i, j);
        if g.side() >= 2 {
            lemma_flip_energy(g, i, j);
        }
    }
}

/// A pair of lattice indices as a site of the grid.
pub open spec fn as_site(p: (usize, usize)) -> Site {
    (p.0 as int, p.1 as int)
}

/// Whether `q` is one of the four periodic nearest neighbours of `p`.
pub open spec fn adjacent(g: Grid, p: Site, q: Site) -> bool {
    ||| q == (p.0, g.next(p.1))
    ||| q == (p.0, g.prev(p.1))
    ||| q == (g.next(p.0), p.1)
    ||| q == (g.prev(p.0), p.1)
}

/// Whether the site at position `k` of the sequence is a neighbour of a site
/// that stands before it.
pub open spec fn grown_from(g: Grid, sites: Seq<Site>, k: int) -> bool {
    exists|m: int| 0 <= m < k && #[trigger] adjacent(g, sites[m], sites[k])
}

/// Whether the sequence lists a cluster of `g` in the order of its growth:
/// distinct sites that hold the spin of the first one, the seed, each but the
/// seed a neighbour of one listed before it.
pub open spec fn is_cluster(g: Grid, sites: Seq<Site>) -> bool {
    &&& sites.len() >= 1
    &&& sites.no_duplicates()
    &&& g.all_within(sites)
    &&& forall|k: int|
        0 <= k < sites.len() ==> g.spin((#[trigger] sites[k]).0, sites[k].1) == g.spin(
            sites[0].0,
            sites[0].1,
        )
    &&& forall|k: int| 1 <= k < sites.len() ==> #[trigger] grown_from(g, sites, k)
}

/// What flipping the cluster `sites` does: the grid it leaves and the
/// changes `(dE, dM)`, where `dE` adds up the cost of each flip at its turn
/// and `dM` is minus twice the seed's spin for every site.
pub open spec fn cluster_move(g: Grid, sites: Seq<Site>) -> (Grid, (int, int)) {
    (
        g.flip_all(sites),
        (g.delta_along(sites), -2 * g.spin(sites[0].0, sites[0].1) * sites.len()),
    )
}

/// Whether the cluster is complete: every neighbour of one of its sites
/// that holds the seed's spin is a site of the cluster.
pub open spec fn is_closed(g: Grid, sites: Seq<Site>) -> bool {
    forall|k: int, q: Site|
        0 <= k < sites.len() && #[trigger] adjacent(g, sites[k], q) && g.spin(q.0, q.1) == g.spin(
            sites[0].0,
            sites[0].1,
        ) ==> sites.contains(q)
}

/// What the threshold `bond` says about the size of a cluster. With a
/// threshold of zero no neighbour is ever added, and the cluster is its seed.
/// With a threshold of the whole unit every like neighbour is added, and the
/// cluster is complete.
pub open spec fn cluster_extent(g: Grid, bond: u64, sites: Seq<Site>) -> bool {
    &&& bond == 0 ==> sites.len() == 1
    &&& bond >= UNIT ==> is_closed(g, sites)
}

/// Whether one step of the cluster rule can take `g` to `g2` and report the
/// changes `r`: some cluster of `g`, of an extent that the threshold allows,
/// gives that move.
pub open spec fn cluster_outcome(g: Grid, bond: u64, g2: Grid, r: (int, int)) -> bool {
    exists|sites: Seq<Site>|
        is_cluster(g, sites) && cluster_extent(g, bond, sites) && #[trigger] cluster_move(
            g,
            sites,
        ) == (g2, r)
}

/// The frontier `q` with the four neighbours of `(i, j)` added at its back:
/// right, left, below, above.
pub open spec fn with_neighbors(g: Grid, q: Seq<(usize, usize)>, i: usize, j: usize) -> Seq<
    (usize, usize),
> {
    q.push((i, g.next(j as int) as usize)).push((i, g.prev(j as int) as usize)).push(
        (g.next(i as int) as usize, j),
    ).push((g.prev(i as int) as usize, j))
}

/// Puts the four neighbours of `(i, j)` at the back of the frontier.
pub fn push_neighbors(sys: &System, i: usize, j: usize, queue: &mut VecDeque<(usize, usize)>)
    requires
        sys.wf(),
        sys@.contains(i as int, j as int),
    ensures
        final(queue)@ == with_neighbors(sys@, old(queue)@, i, j),
{
    queue.push_back((i, sys.nnplus(j)));
    queue.push_back((i, sys.nnminus(j)));
    queue.push_back((sys.nnplus(i), j));
    queue.push_back((sys.nnminus(i), j));
}

/// Takes the site `(i, j)` into the cluster: flips it, puts its neighbours on
/// the frontier, and returns the changes `(dE, dM)` that its flip causes.
pub fn absorb(sys: &mut System, frontier: &mut VecDeque<(usize, usize)>, i: usize, j: usize) -> (r:
    (i32, i32))
    requires
        old(sys).wf(),
        old(sys)@.contains(i as int, j as int),
    ensures
        final(sys).wf(),
        final(sys)@ == old(sys)@.flip(i as int, j as int),
        final(frontier)@ == with_neighbors(old(sys)@, old(frontier)@, i, j),
        r.0 == old(sys)@.delta_energy(i as int, j as int),
        r.1 == -2 * old(sys)@.spin(i as int, j as int),
{
    let de: i32 = sys.deltaE(i, j);
    let s: i32 = sys.flip(i, j);
    proof {
        lemma_flip(old(sys)@, i as int, j as int);
    }
    push_neighbors(sys, i, j, frontier);
    (de, -(2 * s))
}

/// Visits the candidate `(i, j)` from the frontier. If it still holds the
/// cluster's spin `s` and `draw` falls below the threshold `bond`, the site
/// is absorbed; otherwise nothing changes and `(0, 0)` is returned.
pub fn cluster_visit(
    sys: &mut System,
    frontier: &mut VecDeque<(usize, usize)>,
    s: i32,
    i: usize,
    j: usize,
    draw: u64,
    bond: u64,
) -> (r: (i32, i32))
    requires
        old(sys).wf(),
        old(sys)@.contains(i as int, j as int),
    ensures
        final(sys).wf(),
        old(sys)@.spin(i as int, j as int) == s && draw < bond ==> (final(sys)@ == old(
            sys,
        )@.flip(i as int, j as int) && final(frontier)@ == with_neighbors(
            old(sys)@,
            old(frontier)@,
            i,
            j,
        ) && r.0 == old(sys)@.delta_energy(i as int, j as int) && r.1 == -2 * s),
        !(old(sys)@.spin(i as int, j as int) == s && draw < bond) ==> (final(sys)@ == old(sys)@
            && final(frontier)@ == old(frontier)@ && r == (0i32, 0i32)),
{
    if sys.at(i, j) == s && draw < bond {
        absorb(sys, frontier, i, j)
    } else {
        (0, 0)
    }
}

/// Whether `cur` is the grid `g` with the cluster `sites` flipped, together
/// with what follows for its spins and observables: exactly the sites of the
/// cluster are negated, the population of the seed's spin has shrunk by the
/// size of the cluster, the magnetization has moved by the reported `dM`,
/// and, on a grid of side two or more, the energy by the reported `dE`.
pub open spec fn grown(g: Grid, cur: Grid, sites: Seq<Site>) -> bool {
    &&& is_cluster(g, sites)
    &&& cur == g.flip_all(sites)
    &&& cur.valid()
    &&& cur.side() == g.side()
    &&& forall|a: int, b: int|
        g.contains(a, b) ==> #[trigger] cur.spin(a, b) == if sites.contains((a, b)) {
            -g.spin(a, b)
        } else {
            g.spin(a, b)
        }
    &&& cur.count(g.spin(sites[0].0, sites[0].1)) == g.count(g.spin(sites[0].0, sites[0].1))
        - sites.len()
    &&& cur.magnetization() == g.magnetization() + cluster_move(g, sites).1.1
    &&& g.side() >= 2 ==> cur.energy() == g.energy() + cluster_move(g, sites).1.0
}

/// A flipped seed is a grown cluster of one site.
pub proof fn lemma_grown_seed(g: Grid, i: int, j: int)
    requires
        g.valid(),
        g.contains(i, j),
    ensures
        grown(g, g.flip(i, j), seq![(i, j)]),
{
    let sites: Seq<Site> = seq![(i, j)];
    let cur = g.flip(i, j);
    let s = g.spin(i, j);
    assert(sites.drop_last() =~= Seq::<Site>::empty());
    assert(g.flip_all(sites.drop_last()) == g);
    assert(g.delta_along(sites.drop_last()) == 0);
    assert(sites.last() == (i, j));
    assert(cur == g.flip_all(sites));
    lemma_flip(g, i, j);
    assert forall|a: int, b: int| g.contains(a, b) implies #[trigger] cur.spin(a, b)
        == if sites.contains((a, b)) {
        -g.spin(a, b)
    } else {
        g.spin(a, b)
    } by {
        if a == i && b == j {
            assert(sites[0] == (a, b));
        }
    }
    lemma_flip_magnetization(g, i, j);
    lemma_flip_count(g, i, j, s);
    assert(-2 * s * 1 == -2 * s) by (nonlinear_arith);
    if g.side() >= 2 {
        lemma_flip_energy(g, i, j);
    }
}

/// A grown cluster takes in a neighbour that still holds the seed's spin:
/// the site was not yet part of it, and flipping it gives the grown cluster
/// with that site at its end.
pub proof fn lemma_grown_step(g: Grid, cur: Grid, sites: Seq<Site>, a: int, b: int, m: int)
    requires
        g.valid(),
        grown(g, cur, sites),
        g.contains(a, b),
        cur.spin(a, b) == g.spin(sites[0].0, sites[0].1),
        0 <= m < sites.len(),
        adjacent(g, sites[m], (a, b)),
    ensures
        !sites.contains((a, b)),
        grown(g, cur.flip(a, b), sites.push((a, b))),
{
    let p: Site = (a, b);
    let s = g.spin(sites[0].0, sites[0].1);
    let len = sites.len() as int;
    assert(g.contains(sites[0].0, sites[0].1));
    assert(is_spin(s));
    if sites.contains(p) {
        let k = choose|k: int| 0 <= k < sites.len() && sites[k] == p;
        assert(g.spin(sites[k].0, sites[k].1) == s);
        assert(cur.spin(a, b) == -g.spin(a, b));
        assert(false);
    }
    assert(cur.spin(a, b) == g.spin(a, b));
    let sites2 = sites.push(p);
    let cur2 = cur.flip(a, b);
    assert(sites2.drop_last() =~= sites);
    assert(sites2.last() == p);
    assert(cur2 == g.flip_all(sites2));
    assert(sites2[0] == sites[0]);
    assert forall|x: int, y: int|
        0 <= x < sites2.len() && 0 <= y < sites2.len() && x != y implies sites2[x] != sites2[y] by {
        if x < len && y < len {
            assert(sites[x] != sites[y]);
        } else if x < len {
            assert(sites[x] == sites2[x]);
        } else {
            assert(sites[y] == sites2[y]);
        }
    }
    assert forall|k: int| 0 <= k < sites2.len() implies g.contains(
        (#[trigger] sites2[k]).0,
        sites2[k].1,
    ) && g.spin(sites2[k].0, sites2[k].1) == s by {
        if k < len {
            assert(sites2[k] == sites[k]);
        }
    }
    assert forall|k: int| 1 <= k < sites2.len() implies #[trigger] grown_from(g, sites2, k) by {
        if k < len {
            assert(grown_from(g, sites, k));
            let w = choose|w: int| 0 <= w < k && #[trigger] adjacent(g, sites[w], sites[k]);
            assert(adjacent(g, sites2[w], sites2[k]));
        } else {
            assert(adjacent(g, sites2[m], sites2[k]));
        }
    }
    assert(is_cluster(g, sites2));
    lemma_flip(cur, a, b);
    assert forall|x: int, y: int| g.contains(x, y) implies #[trigger] cur2.spin(x, y)
        == if sites2.contains((x, y)) {
        -g.spin(x, y)
    } else {
        g.spin(x, y)
    } by {
        if x == a && y == b {
            assert(sites2[len] == (x, y));
        } else {
            assert(cur2.spin(x, y) == cur.spin(x, y));
            if sites.contains((x, y)) {
                let k = choose|k: int| 0 <= k < sites.len() && sites[k] == (x, y);
                assert(sites2[k] == (x, y));
            }
            if sites2.contains((x, y)) {
                let k = choose|k: int| 0 <= k < sites2.len() && sites2[k] == (x, y);
                assert(k < len);
                assert(sites[k] == (x, y));
            }
        }
    }
    lemma_flip_magnetization(cur, a, b);
    lemma_flip_count(cur, a, b, s);
    assert(-2 * s * (len + 1) == -2 * s * len - 2 * s) by (nonlinear_arith);
    if g.side() >= 2 {
        lemma_flip_energy(cur, a, b);
    }
}

/// Flipping a cluster negates exactly its sites; the magnetization moves by
/// the `dM` of the move and, on a grid of side two or more, the energy by its
/// `dE`.
pub proof fn lemma_cluster_flip(g: Grid, sites: Seq<Site>)
    requires
        g.valid(),
        is_cluster(g, sites),
    ensures
        grown(g, g.flip_all(sites), sites),
    decreases sites.len(),
{
    if sites.len() == 1 {
        assert(sites =~= seq![(sites[0].0, sites[0].1)]);
        lemma_grown_seed(g, sites[0].0, sites[0].1);
        assert(sites.drop_last() =~= Seq::<Site>::empty());
    } else {
        let before = sites.drop_last();
        let k = sites.len() - 1;
        let p = sites[k];
        assert forall|x: int| 0 <= x < before.len() implies g.contains(
            (#[trigger] before[x]).0,
            before[x].1,
        ) && g.spin(before[x].0, before[x].1) == g.spin(before[0].0, before[0].1) by {
            assert(before[x] == sites[x]);
            assert(before[0] == sites[0]);
        }
        assert forall|x: int| 1 <= x < before.len() implies #[trigger] grown_from(g, before, x) by {
            assert(grown_from(g, sites, x));
            let w = choose|w: int| 0 <= w < x && #[trigger] adjacent(g, sites[w], sites[x]);
            assert(adjacent(g, before[w], before[x]));
        }
        assert(is_cluster(g, before));
        lemma_cluster_flip(g, before);
        let cur = g.flip_all(before);
        assert(grown_from(g, sites, k));
        let m = choose|m: int| 0 <= m < k && #[trigger] adjacent(g, sites[m], sites[k]);
        assert(before[m] == sites[m]);
        assert(!before.contains(p)) by {
            if before.contains(p) {
                let x = choose|x: int| 0 <= x < before.len() && before[x] == p;
                assert(sites[x] == sites[k]);
            }
        }
        assert(g.contains(p.0, p.1));
        assert(cur.spin(p.0, p.1) == g.spin(p.0, p.1));
        assert(before[0] == sites[0]);
        lemma_grown_step(g, cur, before, p.0, p.1, m);
        assert(before.push((p.0, p.1)) =~= sites);
    }
}

/// Whether the site `q` waits on the frontier.
pub open spec fn pending(waiting: Seq<(usize, usize)>, q: Site) -> bool {
    exists|x: int| 0 <= x < waiting.len() && as_site(#[trigger] waiting[x]) == q
}

/// Whether the cluster is complete but for the sites on the frontier: every
/// neighbour of one of its sites that holds the seed's spin is a site of the
/// cluster or waits on the frontier.
pub open spec fn closing(g: Grid, sites: Seq<Site>, waiting: Seq<(usize, usize)>) -> bool {
    forall|k: int, q: Site|
        0 <= k < sites.len() && #[trigger] adjacent(g, sites[k], q) && g.spin(q.0, q.1) == g.spin(
            sites[0].0,
            sites[0].1,
        ) ==> sites.contains(q) || pending(waiting, q)
}

/// The neighbours of `(i, j)` wait on a frontier to which they were added.
proof fn lemma_neighbors_pending(g: Grid, waiting: Seq<(usize, usize)>, i: usize, j: usize, q: Site)
    requires
        g.valid(),
        g.side() <= usize::MAX,
        g.contains(i as int, j as int),
        adjacent(g, (i as int, j as int), q),
    ensures
        pending(with_neighbors(g, waiting, i, j), q),
{
    let n = g.side() as int;
    lemma_ring(n, i as int);
    lemma_ring(n, j as int);
    let after = with_neighbors(g, waiting, i, j);
    let base = waiting.len() as int;
    if q == (i as int, g.next(j as int)) {
        assert(as_site(after[base]) == q);
    } else if q == (i as int, g.prev(j as int)) {
        assert(as_site(after[base + 1]) == q);
    } else if q == (g.next(i as int), j as int) {
        assert(as_site(after[base + 2]) == q);
    } else {
        assert(as_site(after[base + 3]) == q);
    }
}

/// A site that waits behind the front of the frontier still waits when the
/// front is taken off and neighbours are added at the back.
proof fn lemma_pending_kept(
    g: Grid,
    waiting: Seq<(usize, usize)>,
    i: usize,
    j: usize,
    q: Site,
)
    requires
        pending(waiting, q),
        as_site(waiting[0]) != q,
    ensures
        pending(waiting.subrange(1, waiting.len() as int), q),
        pending(with_neighbors(g, waiting.subrange(1, waiting.len() as int), i, j), q),
{
    let x = choose|x: int| 0 <= x < waiting.len() && as_site(#[trigger] waiting[x]) == q;
    let rest = waiting.subrange(1, waiting.len() as int);
    assert(as_site(rest[x - 1]) == q);
    let after = with_neighbors(g, rest, i, j);
    assert(as_site(after[x - 1]) == q);
}

/// The seed with its neighbours on the frontier is complete but for the
/// frontier.
proof fn lemma_closing_seed(g: Grid, i: usize, j: usize)
    requires
        g.valid(),
        g.side() <= usize::MAX,
        g.contains(i as int, j as int),
    ensures
        closing(
            g,
            seq![(i as int, j as int)],
            with_neighbors(g, Seq::<(usize, usize)>::empty(), i, j),
        ),
{
    let sites: Seq<Site> = seq![(i as int, j as int)];
    let waiting = with_neighbors(g, Seq::<(usize, usize)>::empty(), i, j);
    assert forall|k: int, q: Site|
        0 <= k < sites.len() && #[trigger] adjacent(g, sites[k], q) && g.spin(q.0, q.1) == g.spin(
            sites[0].0,
            sites[0].1,
        ) implies sites.contains(q) || pending(waiting, q) by {
        lemma_neighbors_pending(g, Seq::<(usize, usize)>::empty(), i, j, q);
    }
}

/// Taking the front of the frontier into the cluster, with its neighbours
/// put at the back, keeps the cluster complete but for the frontier.
proof fn lemma_closing_absorb(g: Grid, sites: Seq<Site>, waiting: Seq<(usize, usize)>)
    requires
        g.valid(),
        g.side() <= usize::MAX,
        sites.len() >= 1,
        waiting.len() >= 1,
        g.contains(waiting[0].0 as int, waiting[0].1 as int),
        closing(g, sites, waiting),
    ensures
        closing(
            g,
            sites.push(as_site(waiting[0])),
            with_neighbors(
                g,
                waiting.subrange(1, waiting.len() as int),
                waiting[0].0,
                waiting[0].1,
            ),
        ),
{
    let a = waiting[0].0;
    let b = waiting[0].1;
    let p = as_site(waiting[0]);
    let rest = waiting.subrange(1, waiting.len() as int);
    let sites2 = sites.push(p);
    let after = with_neighbors(g, rest, a, b);
    assert(sites2[0] == sites[0]);
    assert forall|k: int, q: Site|
        0 <= k < sites2.len() && #[trigger] adjacent(g, sites2[k], q) && g.spin(q.0, q.1) == g.spin(
            sites2[0].0,
            sites2[0].1,
        ) implies sites2.contains(q) || pending(after, q) by {
        if k < sites.len() {
            assert(sites2[k] == sites[k]);
            assert(adjacent(g, sites[k], q));
            if sites.contains(q) {
                let x = choose|x: int| 0 <= x < sites.len() && sites[x] == q;
                assert(sites2[x] == q);
            } else if q == p {
                assert(sites2[sites.len() as int] == q);
            } else {
                lemma_pending_kept(g, waiting, a, b, q);
            }
        } else {
            lemma_neighbors_pending(g, rest, a, b, q);
        }
    }
}

/// Dropping the front of the frontier keeps the cluster complete but for the
/// frontier where the front is a site of the cluster already or does not hold
/// the seed's spin.
proof fn lemma_closing_skip(g: Grid, sites: Seq<Site>, waiting: Seq<(usize, usize)>)
    requires
        sites.len() >= 1,
        waiting.len() >= 1,
        closing(g, sites, waiting),
        sites.contains(as_site(waiting[0])) || g.spin(waiting[0].0 as int, waiting[0].1 as int)
            != g.spin(sites[0].0, sites[0].1),
    ensures
        closing(g, sites, waiting.subrange(1, waiting.len() as int)),
{
    let rest = waiting.subrange(1, waiting.len() as int);
    assert forall|k: int, q: Site|
        0 <= k < sites.len() && #[trigger] adjacent(g, sites[k], q) && g.spin(q.0, q.1) == g.spin(
            sites[0].0,
            sites[0].1,
        ) implies sites.contains(q) || pending(rest, q) by {
        if !sites.contains(q) {
            lemma_pending_kept(g, waiting, 0, 0, q);
        }
    }
}

/// What the frontier holds: sites of the grid, each a neighbour of a site of
/// the cluster.
pub open spec fn reached(g: Grid, sites: Seq<Site>, q: (usize, usize), m: int) -> bool {
    &&& g.contains(q.0 as int, q.1 as int)
    &&& 0 <= m < sites.len()
    &&& adjacent(g, sites[m], as_site(q))
}

/// One step of the cluster rule. A seed is picked at random and flipped, and
/// its neighbours are put on the frontier. Then the candidates are taken from
/// the frontier in the order of their arrival: one that still holds the
/// seed's spin is absorbed with the probability that `bond` holds, until no
/// candidate is left. Returns the changes `(dE, dM)` of the whole cluster
/// flip.
pub fn cluster_step(sys: &mut System, bond: u64) -> (r: (i32, i32))
    requires
        old(sys).wf(),
    ensures
        final(sys).wf(),
        cluster_outcome(old(sys)@, bond, final(sys)@, (r.0 as int, r.1 as int)),
        final(sys)@.side() == old(sys)@.side(),
        r.1 == final(sys)@.magnetization() - old(sys)@.magnetization(),
        old(sys)@.side() >= 2 ==> r.0 == final(sys)@.energy() - old(sys)@.energy(),
{
    let i: usize = sys.random_site();
    let j: usize = sys.random_site();
    let ghost g = sys@;
    let s: i32 = sys.at(i, j);
    let mut frontier: VecDeque<(usize, usize)> = VecDeque::new();
    let seed: (i32, i32) = absorb(sys, &mut frontier, i, j);
    let mut de: i32 = seed.0;
    let mut dm: i32 = seed.1;
    let ghost mut sites: Seq<Site> = seq![(i as int, j as int)];
    let ghost mut origin: Seq<int> = seq![0int, 0int, 0int, 0int];
    proof {
        lemma_grown_seed(g, i as int, j as int);
        lemma_neighbors(g, i as int, j as int);
        lemma_area_limit(g.side() as int);
        lemma_observable_bounds(sys@);
        assert(sites.drop_last() =~= Seq::<Site>::empty());
        assert(g.delta_along(sites.drop_last()) == 0);
        assert(-2 * (s as int) * 1 == -2 * s) by (nonlinear_arith);
        lemma_closing_seed(g, i, j);
    }
    loop
        invariant
            sys.wf(),
            g.valid(),
            g.area() <= 536_848_900,
            is_spin(s as int),
            s == g.spin(sites[0].0, sites[0].1),
            grown(g, sys@, sites),
            de == cluster_move(g, sites).1.0,
            dm == cluster_move(g, sites).1.1,
            origin.len() == frontier@.len(),
            forall|k: int|
                0 <= k < frontier@.len() ==> reached(g, sites, #[trigger] frontier@[k], origin[k]),
            bond == 0 ==> sites.len() == 1,
            bond >= UNIT ==> closing(g, sites, frontier@),
            sys@.count(s as int) >= 0,
        ensures
            frontier@.len() == 0,
        decreases 4 * sys@.count(s as int) + frontier@.len(),
    {
        let ghost cur = sys@;
        let ghost waiting = frontier@;
        let candidate: Option<(usize, usize)> = frontier.pop_front();
        match candidate {
            None => {
                break ;
            },
            Some(site) => {
                let a: usize = site.0;
                let b: usize = site.1;
                let draw: u64 = if sys.at(a, b) == s {
                    sys.random_unit()
                } else {
                    0
                };
                let change: (i32, i32) = cluster_visit(sys, &mut frontier, s, a, b, draw, bond);
                proof {
                    let m = origin[0];
                    assert(reached(g, sites, waiting[0], m));
                    let rest = waiting.subrange(1, waiting.len() as int);
                    let rest_origin = origin.subrange(1, origin.len() as int);
                    assert forall|k: int| 0 <= k < rest.len() implies reached(
                        g,
                        sites,
                        #[trigger] rest[k],
                        rest_origin[k],
                    ) by {
                        assert(reached(g, sites, waiting[k + 1], origin[k + 1]));
                    }
                    if cur.spin(a as int, b as int) == s && draw < bond {
                        if bond >= UNIT {
                            lemma_closing_absorb(g, sites, waiting);
                        }
                        lemma_grown_step(g, cur, sites, a as int, b as int, m);
                        lemma_flip_count(cur, a as int, b as int, s as int);
                        lemma_neighbors(g, a as int, b as int);
                        lemma_observable_bounds(sys@);
                        lemma_observable_bounds(g);
                        let added = sites.len() as int;
                        let inner = sites;
                        if g.side() == 1 {
                            assert(g.contains(inner[0].0, inner[0].1));
                            assert(inner[0] == (a as int, b as int));
                            assert(inner.contains((a as int, b as int)));
                        }
                        sites = inner.push((a as int, b as int));
                        origin = rest_origin.push(added).push(added).push(added).push(added);
                        assert(sites.drop_last() =~= inner);
                        assert(sites[0] == inner[0]);
                        assert(cluster_move(g, sites).1.0 == de + change.0);
                        assert(cluster_move(g, sites).1.1 == dm + change.1) by {
                            assert(-2 * (s as int) * (added + 1) == -2 * (s as int) * added - 2 * s)
                                by (nonlinear_arith);
                        }
                        assert forall|k: int| 0 <= k < frontier@.len() implies reached(
                            g,
                            sites,
                            #[trigger] frontier@[k],
                            origin[k],
                        ) by {
                            if k < rest.len() {
                                assert(reached(g, inner, rest[k], rest_origin[k]));
                                assert(frontier@[k] == rest[k]);
                                assert(origin[k] == rest_origin[k]);
                                assert(sites[origin[k]] == inner[origin[k]]);
                            } else {
                                assert(origin[k] == added);
                                assert(sites[added] == (a as int, b as int));
                            }
                        }
                    } else {
                        if bond >= UNIT {
                            lemma_closing_skip(g, sites, waiting);
                        }
                        origin = rest_origin;
                    }
                }
                de = de + change.0;
                dm = dm + change.1;
            },
        }
    }
    proof {
        if bond >= UNIT {
            assert forall|k: int, q: Site|
                0 <= k < sites.len() && #[trigger] adjacent(g, sites[k], q) && g.spin(q.0, q.1)
                    == g.spin(sites[0].0, sites[0].1) implies sites.contains(q) by {
                assert(!pending(frontier@, q));
            }
        }
    }
    (de, dm)
}

/// Whether one step of the rule can take `g` to `g2` and report the changes
/// `r`.
pub open spec fn step_outcome(rule: UpdateRule, g: Grid, g2: Grid, r: (int, int)) -> bool {
    match rule {
        UpdateRule::Local(acc) => local_outcome(g, acc, g2, r),
        UpdateRule::Cluster(bond) => cluster_outcome(g, bond, g2, r),
    }
}

/// One step of the Markov chain by the given rule. Returns the changes
/// `(dE, dM)` of energy and magnetization that the step has caused.
pub fn metropolis_step(sys: &mut System, rule: &UpdateRule) -> (r: (i32, i32))
    requires
        old(sys).wf(),
    ensures
        final(sys).wf(),
        step_outcome(*rule, old(sys)@, final(sys)@, (r.0 as int, r.1 as int)),
        final(sys)@.side() == old(sys)@.side(),
        r.1 == final(sys)@.magnetization() - old(sys)@.magnetization(),
        old(sys)@.side() >= 2 ==> r.0 == final(sys)@.energy() - old(sys)@.energy(),
{
    match rule {
        UpdateRule::Local(acc) => local_step(sys, acc),
        UpdateRule::Cluster(bond) => cluster_step(sys, *bond),
    }
}

/// What a step reports is what it has done: the grid it leaves is valid and
/// of the same side, its magnetization has moved by the reported `dM`, and,
/// on a grid of side two or more, its energy by the reported `dE`.
pub proof fn lemma_step_observables(rule: UpdateRule, g: Grid, g2: Grid, r: (int, int))
    requires
        g.valid(),
        step_outcome(rule, g, g2, r),
    ensures
        g2.valid(),
        g2.side() == g.side(),
        g2.magnetization() == g.magnetization() + r.1,
        g.side() >= 2 ==> g2.energy() == g.energy() + r.0,
{
    match rule {
        UpdateRule::Local(acc) => {
            lemma_local_observables(acc, g, g2, r);
        },
        UpdateRule::Cluster(bond) => {
            let sites = choose|sites: Seq<Site>|
                is_cluster(g, sites) && cluster_extent(g, bond, sites) && #[trigger] cluster_move(
                    g,
                    sites,
                ) == (g2, r);
            lemma_cluster_flip(g, sites);
        },
    }
}

/// Every step of the cluster rule flips its seed: the magnetization changes
/// by at least two.
pub proof fn lemma_cluster_not_empty(g: Grid, bond: u64, g2: Grid, r: (int, int))
    requires
        g.valid(),
        cluster_outcome(g, bond, g2, r),
    ensures
        r.1 <= -2 || r.1 >= 2,
        g2 != g,
{
    let sites = choose|sites: Seq<Site>|
        is_cluster(g, sites) && cluster_extent(g, bond, sites) && #[trigger] cluster_move(
            g,
            sites,
        ) == (g2, r);
    let s = g.spin(sites[0].0, sites[0].1);
    let len = sites.len() as int;
    assert(g.contains(sites[0].0, sites[0].1));
    assert(is_spin(s));
    assert(-2 * s * len <= -2 || -2 * s * len >= 2) by (nonlinear_arith)
        requires
            is_spin(s),
            len >= 1,
    ;
    lemma_cluster_flip(g, sites);
}

/// A cluster is no larger than the population of its seed's spin, and so no
/// larger than the grid.
pub proof fn lemma_cluster_size(g: Grid, sites: Seq<Site>)
    requires
        g.valid(),
        is_cluster(g, sites),
    ensures
        1 <= sites.len() <= g.count(g.spin(sites[0].0, sites[0].1)) <= g.area(),
{
    lemma_cluster_flip(g, sites);
    lemma_observable_bounds(g);
    lemma_observable_bounds(g.flip_all(sites));
    assert(g.contains(sites[0].0, sites[0].1));
    assert(is_spin(g.spin(sites[0].0, sites[0].1)));
}

/// At zero temperature the thresholds of both costs are zero, and a step of
/// the single-spin rule never raises the energy.
pub proof fn lemma_zero_temperature_descends(acc: Acceptance, g: Grid, g2: Grid, r: (int, int))
    requires
        g.valid(),
        acc.four == 0,
        acc.eight == 0,
        local_outcome(g, acc, g2, r),
    ensures
        r.0 <= 0,
        g2.energy() <= g.energy(),
{
    let (i, j, draw) = choose|i: int, j: int, draw: int|
        g.contains(i, j) && 0 <= draw < UNIT && #[trigger] local_move(g, i, j, draw, acc) == (
            g2,
            r,
        );
    if acc.accepts(g.delta_energy(i, j), draw) {
        if g.side() >= 2 {
            lemma_flip_energy(g, i, j);
        } else {
            lemma_single_site(g);
        }
    }
}

/// At infinite temperature the thresholds of both costs are the whole unit,
/// and the single-spin rule accepts every proposal on every draw.
pub proof fn lemma_infinite_temperature_accepts(acc: Acceptance, g: Grid, i: int, j: int, draw: int)
    requires
        acc.four >= UNIT,
        acc.eight >= UNIT,
        0 <= draw < UNIT,
    ensures
        acc.accepts(g.delta_energy(i, j), draw),
        local_move(g, i, j, draw, acc).0 == g.flip(i, j),
{
}

/// A higher threshold accepts whatever a lower one accepts.
pub proof fn lemma_acceptance_monotone(low: Acceptance, high: Acceptance, de: int, draw: int)
    requires
        low.four <= high.four,
        low.eight <= high.eight,
        low.accepts(de, draw),
    ensures
        high.accepts(de, draw),
{
}

/// Every site of a cluster is a site of any complete cluster with the same
/// seed.
pub proof fn lemma_complete_cluster_covers(g: Grid, a: Seq<Site>, b: Seq<Site>, k: int)
    requires
        is_cluster(g, a),
        is_cluster(g, b),
        is_closed(g, b),
        a[0] == b[0],
        0 <= k < a.len(),
    ensures
        b.contains(a[k]),
    decreases k,
{
    if k == 0 {
        assert(b[0] == a[k]);
    } else {
        assert(grown_from(g, a, k));
        let m = choose|m: int| 0 <= m < k && #[trigger] adjacent(g, a[m], a[k]);
        lemma_complete_cluster_covers(g, a, b, m);
        let x = choose|x: int| 0 <= x < b.len() && b[x] == a[m];
        assert(adjacent(g, b[x], a[k]));
    }
}

/// With a threshold of the whole unit the seed decides the move. Two
/// complete clusters with the same seed hold the same sites, so flipping
/// either leaves the same grid and the same change of magnetization, and, on
/// a grid of side two or more, the same change of energy.
pub proof fn lemma_complete_cluster_unique(g: Grid, a: Seq<Site>, b: Seq<Site>)
    requires
        g.valid(),
        is_cluster(g, a),
        is_cluster(g, b),
        is_closed(g, a),
        is_closed(g, b),
        a[0] == b[0],
    ensures
        forall|p: Site| a.contains(p) <==> b.contains(p),
        cluster_move(g, a).0 == cluster_move(g, b).0,
        cluster_move(g, a).1.1 == cluster_move(g, b).1.1,
        g.side() >= 2 ==> cluster_move(g, a).1.0 == cluster_move(g, b).1.0,
{
    assert forall|p: Site| a.contains(p) <==> b.contains(p) by {
        if a.contains(p) {
            let k = choose|k: int| 0 <= k < a.len() && a[k] == p;
            lemma_complete_cluster_covers(g, a, b, k);
        }
        if b.contains(p) {
            let k = choose|k: int| 0 <= k < b.len() && b[k] == p;
            lemma_complete_cluster_covers(g, b, a, k);
        }
    }
    lemma_cluster_flip(g, a);
    lemma_cluster_flip(g, b);
    let ga = g.flip_all(a);
    let gb = g.flip_all(b);
    assert forall|i: int| 0 <= i < ga.side() implies #[trigger] ga.rows[i] =~= gb.rows[i] by {
        assert forall|j: int| 0 <= j < ga.side() implies ga.rows[i][j] == gb.rows[i][j] by {
            assert(ga.spin(i, j) == gb.spin(i, j));
        }
    }
    assert(ga.rows =~= gb.rows);
}

} // verus!
