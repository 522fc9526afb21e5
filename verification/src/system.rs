//! The lattice state: the spins of an `n` by `n` periodic square lattice,
//! the neighbour tables, and the random source that picks sites.

use crate::grid::{
    is_spin, lemma_bond_values, lemma_delta_energy_values, lemma_flip, lemma_neighbors, lemma_ring,
    lemma_uniform, next_index, prev_index, Grid,
};
use crate::random::{draw_u32, draw_u64, site_from_draw, unit_from_draw, UNIT};
use crate::sums::{lemma_rect_sum_bounds, lemma_row_sum_bounds, rect_sum, row_sum};
use rand::rngs::SmallRng;
use vstd::prelude::*;

verus! {

/// The largest side of a lattice. Up to this side the difference between the
/// energies of any two configurations fits in an `i32`.
pub const MAX_SIDE: usize = 23170;

/// The state of a two-dimensional Ising system: classical spins on a square
/// lattice with periodic boundaries, coupled to their nearest neighbours by a
/// ferromagnetic exchange of strength one.
pub struct System {
    /// The lattice is `n` by `n` sites.
    n: usize,
    /// The spins, row by row. Each is up (+1) or down (-1).
    sites: Vec<i32>,
    /// For each index, the next one on the ring.
    nnplus: Vec<usize>,
    /// For each index, the previous one on the ring.
    nnminus: Vec<usize>,
    /// The generator that picks sites and decides acceptance.
    rng: SmallRng,
}

/// The position of site `(i, j)` in row-major storage lies within the
/// storage of an `n` by `n` lattice.
proof fn lemma_cell_index(n: int, i: int, j: int)
    requires
        0 <= i < n,
        0 <= j < n,
    ensures
        0 <= i * n + j < n * n,
        n * i == i * n,
{
    assert(0 <= i * n && i * n + n <= n * n && n * i == i * n) by (nonlinear_arith)
        requires
            0 <= i < n,
    ;
}

/// Distinct sites have distinct positions in row-major storage.
proof fn lemma_cell_index_unique(n: int, i: int, j: int, a: int, b: int)
    requires
        0 <= i < n,
        0 <= j < n,
        0 <= a < n,
        0 <= b < n,
        i * n + j == a * n + b,
    ensures
        i == a,
        j == b,
{
    assert(i == a) by (nonlinear_arith)
        requires
            0 <= j < n,
            0 <= b < n,
            i * n + j == a * n + b,
    ;
}

/// The area of a lattice whose side is within the limit.
pub proof fn lemma_area_limit(n: int)
    requires
        0 <= n <= MAX_SIDE,
    ensures
        n * n <= 536_848_900,
{
    assert(n * n <= 23170 * 23170) by (nonlinear_arith)
        requires
            0 <= n <= 23170,
    ;
}

impl View for System {
    type V = Grid;

    /// The spin configuration that the lattice holds.
    closed spec fn view(&self) -> Grid {
        Grid {
            rows: Seq::new(
                self.n as nat,
                |i: int| Seq::new(self.n as nat, |j: int| self.sites@[i * self.n + j] as int),
            ),
        }
    }
}

impl System {
    /// The storage is consistent: the spins fill an `n` by `n` array, each is
    /// `+1` or `-1`, and the neighbour tables hold the ring's successor and
    /// predecessor of every index.
    pub closed spec fn inv(&self) -> bool {
        &&& 1 <= self.n <= MAX_SIDE
        &&& self.sites@.len() == self.n * self.n
        &&& self.nnplus@.len() == self.n
        &&& self.nnminus@.len() == self.n
        &&& forall|i: int|
            0 <= i < self.n ==> #[trigger] self.nnplus@[i] == next_index(self.n as int, i)
        &&& forall|i: int|
            0 <= i < self.n ==> #[trigger] self.nnminus@[i] == prev_index(self.n as int, i)
        &&& forall|k: int| 0 <= k < self.sites@.len() ==> is_spin(#[trigger] self.sites@[k] as int)
    }

    /// The lattice is well formed: its storage is consistent, and the
    /// configuration it holds is a valid grid whose side is within the limit.
    pub open spec fn wf(&self) -> bool {
        &&& self.inv()
        &&& self@.valid()
        &&& self@.side() <= MAX_SIDE
    }

    /// What consistent storage says about the view.
    proof fn lemma_view(&self)
        requires
            self.inv(),
        ensures
            self@.valid(),
            self@.side() == self.n,
            forall|i: int, j: int|
                0 <= i < self.n && 0 <= j < self.n ==> #[trigger] self@.spin(i, j)
                    == self.sites@[i * self.n + j],
    {
        let n = self.n as int;
        assert forall|i: int, j: int| 0 <= i < n && 0 <= j < n implies is_spin(
            #[trigger] self@.spin(i, j),
        ) && self@.spin(i, j) == self.sites@[i * n + j] by {
            lemma_cell_index(n, i, j);
        }
    }

    /// Creates an `n` by `n` lattice with every spin up, drawing its random
    /// numbers from `rng`.
    pub fn new(n: usize, rng: SmallRng) -> (sys: System)
        requires
            1 <= n <= MAX_SIDE,
        ensures
            sys.wf(),
            sys@ == Grid::uniform(n as nat, 1),
    {
        proof {
            lemma_area_limit(n as int);
        }
        let sites: Vec<i32> = vec![1i32; n * n];
        let mut nnplus: Vec<usize> = Vec::new();
        let mut nnminus: Vec<usize> = Vec::new();
        let mut i: usize = 0;
        while i < n
            invariant
                1 <= n <= MAX_SIDE,
                i <= n,
                nnplus@.len() == i,
                nnminus@.len() == i,
                forall|k: int| 0 <= k < i ==> #[trigger] nnplus@[k] == next_index(n as int, k),
                forall|k: int| 0 <= k < i ==> #[trigger] nnminus@[k] == prev_index(n as int, k),
            decreases n - i,
        {
            proof {
                lemma_ring(n as int, i as int);
            }
            nnplus.push((i + 1) % n);
            nnminus.push((n + i - 1) % n);
            i += 1;
        }
        let sys = System { n, sites, nnplus, nnminus, rng };
        proof {
            sys.lemma_view();
            lemma_uniform(n as nat, 1);
            let u = Grid::uniform(n as nat, 1);
            assert forall|a: int| 0 <= a < n implies #[trigger] sys@.rows[a] =~= u.rows[a] by {
                assert forall|b: int| 0 <= b < n implies sys@.rows[a][b] == u.rows[a][b] by {
                    lemma_cell_index(n as int, a, b);
                    assert(sys@.spin(a, b) == sys.sites@[a * n + b]);
                }
            }
            assert(sys@.rows =~= u.rows);
        }
        sys
    }

    /// The side length of the lattice.
    pub fn side(&self) -> (n: usize)
        requires
            self.wf(),
        ensures
            n == self@.side(),
            1 <= n <= MAX_SIDE,
    {
        proof {
            self.lemma_view();
        }
        self.n
    }

    /// The spin at `(i, j)`: up (+1) or down (-1). The indices are taken as
    /// they are; a neighbour's index comes from `nnplus` or `nnminus`.
    pub fn at(&self, i: usize, j: usize) -> (s: i32)
        requires
            self.wf(),
            self@.contains(i as int, j as int),
        ensures
            s == self@.spin(i as int, j as int),
            is_spin(s as int),
    {
        proof {
            self.lemma_view();
            lemma_cell_index(self.n as int, i as int, j as int);
            lemma_area_limit(self.n as int);
        }
        self.sites[j + self.n * i]
    }

    /// Flips the spin at `(i, j)` and returns the value it had before.
    pub fn flip(&mut self, i: usize, j: usize) -> (s: i32)
        requires
            old(self).wf(),
            old(self)@.contains(i as int, j as int),
        ensures
            final(self).wf(),
            final(self)@ == old(self)@.flip(i as int, j as int),
            s == old(self)@.spin(i as int, j as int),
            is_spin(s as int),
    {
        let s: i32 = self.at(i, j);
        proof {
            self.lemma_view();
            lemma_cell_index(self.n as int, i as int, j as int);
            lemma_area_limit(self.n as int);
        }
        self.sites[j + self.n * i] = -s;
        proof {
            let n = self.n as int;
            let before = old(self)@;
            let target = before.flip(i as int, j as int);
            assert(self.inv());
            self.lemma_view();
            lemma_flip(before, i as int, j as int);
            assert forall|a: int| 0 <= a < n implies #[trigger] self@.rows[a]
                =~= target.rows[a] by {
                assert forall|b: int| 0 <= b < n implies self@.rows[a][b] == target.rows[a][b] by {
                    lemma_cell_index(n, a, b);
                    assert(self@.spin(a, b) == self.sites@[a * n + b]);
                    assert(before.spin(a, b) == old(self).sites@[a * n + b]);
                    if a == i && b == j {
                        assert(target.spin(a, b) == -before.spin(a, b));
                    } else {
                        if a * n + b == i * n + j {
                            lemma_cell_index_unique(n, a, b, i as int, j as int);
                        }
                        assert(target.spin(a, b) == before.spin(a, b));
                    }
                }
            }
            assert(self@.rows =~= target.rows);
        }
        s
    }

    /// The index after `i`, wrapping from the last index to the first.
    pub fn nnplus(&self, i: usize) -> (k: usize)
        requires
            self.wf(),
            i < self@.side(),
        ensures
            k == self@.next(i as int),
            k < self@.side(),
    {
        proof {
            self.lemma_view();
            lemma_ring(self.n as int, i as int);
        }
        self.nnplus[i]
    }

    /// The index before `i`, wrapping from the first index to the last.
    pub fn nnminus(&self, i: usize) -> (k: usize)
        requires
            self.wf(),
            i < self@.side(),
        ensures
            k == self@.prev(i as int),
            k < self@.side(),
    {
        proof {
            self.lemma_view();
            lemma_ring(self.n as int, i as int);
        }
        self.nnminus[i]
    }

    /// The sum of the four nearest neighbours of `(i, j)`.
    pub fn sum_neighbors(&self, i: usize, j: usize) -> (sum: i32)
        requires
            self.wf(),
            self@.contains(i as int, j as int),
        ensures
            sum == self@.sum_of_neighbors(i as int, j as int),
            -4 <= sum <= 4,
    {
        proof {
            lemma_neighbors(self@, i as int, j as int);
        }
        let right: i32 = self.at(i, self.nnplus(j));
        let left: i32 = self.at(i, self.nnminus(j));
        let down: i32 = self.at(self.nnplus(i), j);
        let up: i32 = self.at(self.nnminus(i), j);
        right + left + down + up
    }

    /// The change in energy that flipping the spin at `(i, j)` alone would
    /// cause.
    #[allow(non_snake_case)]
    pub fn deltaE(&self, i: usize, j: usize) -> (de: i32)
        requires
            self.wf(),
            self@.contains(i as int, j as int),
        ensures
            de == self@.delta_energy(i as int, j as int),
            -8 <= de <= 8,
    {
        proof {
            lemma_delta_energy_values(self@, i as int, j as int);
        }
        let twice: i32 = 2 * self.at(i, j);
        let around: i32 = self.sum_neighbors(i, j);
        assert(-8 <= twice * around <= 8) by (nonlinear_arith)
            requires
                twice == 2 || twice == -2,
                -4 <= around <= 4,
        ;
        twice * around
    }

    /// The total energy of the lattice, computed afresh from all bonds.
    pub fn evaluate_energy(&self) -> (total: i32)
        requires
            self.wf(),
        ensures
            total == self@.energy(),
    {
        let n: usize = self.n;
        let ghost bonds = self@.bond_field();
        proof {
            self.lemma_view();
            lemma_area_limit(n as int);
            assert forall|a: int, b: int| 0 <= a < n && 0 <= b < n implies -2 <= #[trigger] bonds(
                a,
                b,
            ) <= 2 by {
                lemma_bond_values(self@, a, b);
            }
        }
        let mut total: i32 = 0;
        let mut i: usize = 0;
        while i < n
            invariant
                self.wf(),
                n == self@.side(),
                n * n <= 536_848_900,
                bonds == self@.bond_field(),
                forall|a: int, b: int|
                    0 <= a < n && 0 <= b < n ==> -2 <= #[trigger] bonds(a, b) <= 2,
                i <= n,
                total == rect_sum(bonds, i as int, n as int),
            decreases n - i,
        {
            let below: usize = self.nnplus(i);
            let mut j: usize = 0;
            while j < n
                invariant
                    self.wf(),
                    n == self@.side(),
                    n * n <= 536_848_900,
                    bonds == self@.bond_field(),
                    forall|a: int, b: int|
                        0 <= a < n && 0 <= b < n ==> -2 <= #[trigger] bonds(a, b) <= 2,
                    i < n,
                    j <= n,
                    below == self@.next(i as int),
                    below < n,
                    total == rect_sum(bonds, i as int, n as int) + row_sum(
                        bonds,
                        i as int,
                        j as int,
                    ),
                decreases n - j,
            {
                let here: i32 = self.at(i, j);
                let ahead: i32 = self.at(below, j) + self.at(i, self.nnplus(j));
                proof {
                    lemma_rect_sum_bounds(bonds, i as int, n as int, -2, 2);
                    lemma_row_sum_bounds(bonds, i as int, j as int, -2, 2);
                    assert(i * n + n <= n * n) by (nonlinear_arith)
                        requires
                            0 <= i < n,
                    ;
                    assert(here * ahead == -((-here) * ahead) && -2 <= here * ahead <= 2)
                        by (nonlinear_arith)
                        requires
                            here == 1 || here == -1,
                            -2 <= ahead <= 2,
                    ;
                    assert(bonds(i as int, j as int) == (-here) * ahead);
                }
                total -= here * ahead;
                j += 1;
            }
            i += 1;
        }
        total
    }

    /// The total magnetization of the lattice: the sum of all spins.
    pub fn magnetization(&self) -> (total: i32)
        requires
            self.wf(),
        ensures
            total == self@.magnetization(),
    {
        let n: usize = self.n;
        let ghost spins = self@.spin_field();
        proof {
            self.lemma_view();
            lemma_area_limit(n as int);
            assert forall|a: int, b: int| 0 <= a < n && 0 <= b < n implies -1 <= #[trigger] spins(
                a,
                b,
            ) <= 1 by {
                assert(is_spin(self@.spin(a, b)));
            }
        }
        let mut total: i32 = 0;
        let mut i: usize = 0;
        while i < n
            invariant
                self.wf(),
                n == self@.side(),
                n * n <= 536_848_900,
                spins == self@.spin_field(),
                forall|a: int, b: int|
                    0 <= a < n && 0 <= b < n ==> -1 <= #[trigger] spins(a, b) <= 1,
                i <= n,
                total == rect_sum(spins, i as int, n as int),
            decreases n - i,
        {
            let mut j: usize = 0;
            while j < n
                invariant
                    self.wf(),
                    n == self@.side(),
                    n * n <= 536_848_900,
                    spins == self@.spin_field(),
                    forall|a: int, b: int|
                        0 <= a < n && 0 <= b < n ==> -1 <= #[trigger] spins(a, b) <= 1,
                    i < n,
                    j <= n,
                    total == rect_sum(spins, i as int, n as int) + row_sum(
                        spins,
                        i as int,
                        j as int,
                    ),
                decreases n - j,
            {
                proof {
                    lemma_rect_sum_bounds(spins, i as int, n as int, -1, 1);
                    lemma_row_sum_bounds(spins, i as int, j as int, -1, 1);
                    assert(i * n + n <= n * n) by (nonlinear_arith)
                        requires
                            0 <= i < n,
                    ;
                }
                total += self.at(i, j);
                j += 1;
            }
            i += 1;
        }
        total
    }

    /// A random index along one dimension of the lattice. A random site is
    /// picked by drawing a row and a column.
    pub fn random_site(&mut self) -> (site: usize)
        requires
            old(self).wf(),
        ensures
            final(self).wf(),
            final(self)@ == old(self)@,
            site < final(self)@.side(),
    {
        proof {
            self.lemma_view();
        }
        let draw: u32 = draw_u32(&mut self.rng);
        site_from_draw(self.n, draw)
    }

    /// A random fraction of the unit interval, as its numerator over
    /// `UNIT`: the top 53 bits of a 64-bit draw.
    pub fn random_unit(&mut self) -> (numerator: u64)
        requires
            old(self).wf(),
        ensures
            final(self).wf(),
            final(self)@ == old(self)@,
            numerator < UNIT,
    {
        let draw: u64 = draw_u64(&mut self.rng);
        unit_from_draw(draw)
    }
}

} // verus!
