//! The mathematical model of a spin configuration.
//!
//! A [`Grid`] is a square array of spins with periodic boundaries. All
//! contracts of the executable lattice are stated over it: the observables
//! are sums over its sites, and an update is a sequence of single-site flips.

use crate::sums::{
    lemma_rect_sum_bounds, lemma_rect_sum_change, lemma_rect_sum_difference, rect_sum, Field,
};
use vstd::arithmetic::div_mod::{lemma_mod_add_multiples_vanish, lemma_mod_self_0, lemma_small_mod};
use vstd::prelude::*;

verus! {

/// A spin is `+1` or `-1`.
pub open spec fn is_spin(s: int) -> bool {
    s == 1 || s == -1
}

/// The index after `i` on a ring of `n` indices.
pub open spec fn next_index(n: int, i: int) -> int {
    (i + 1) % n
}

/// The index before `i` on a ring of `n` indices.
pub open spec fn prev_index(n: int, i: int) -> int {
    (i - 1 + n) % n
}

/// The two neighbour maps stay on the ring, wrap at its ends, and undo each
/// other. On a ring of two or more indices no index is its own neighbour.
pub proof fn lemma_ring(n: int, i: int)
    requires
        0 <= i < n,
    ensures
        next_index(n, i) == (if i + 1 < n { i + 1 } else { 0 }),
        prev_index(n, i) == (if i > 0 { i - 1 } else { n - 1 }),
        0 <= next_index(n, i) < n,
        0 <= prev_index(n, i) < n,
        next_index(n, prev_index(n, i)) == i,
        prev_index(n, next_index(n, i)) == i,
        n >= 2 ==> next_index(n, i) != i && prev_index(n, i) != i,
{
    lemma_ring_step(n, i);
    lemma_ring_step(n, next_index(n, i));
    lemma_ring_step(n, prev_index(n, i));
}

/// The neighbour maps written without the remainder.
proof fn lemma_ring_step(n: int, i: int)
    requires
        0 <= i < n,
    ensures
        next_index(n, i) == (if i + 1 < n { i + 1 } else { 0 }),
        prev_index(n, i) == (if i > 0 { i - 1 } else { n - 1 }),
{
    if i + 1 < n {
        lemma_small_mod((i + 1) as nat, n as nat);
    } else {
        lemma_mod_self_0(n);
    }
    if i > 0 {
        lemma_mod_add_multiples_vanish(i - 1, n);
        lemma_small_mod((i - 1) as nat, n as nat);
        assert(i - 1 + n == n + (i - 1));
    } else {
        lemma_small_mod((n - 1) as nat, n as nat);
    }
}

/// A square array of spins, row by row.
#[verifier::ext_equal]
pub struct Grid {
    pub rows: Seq<Seq<int>>,
}

impl Grid {
    /// The number of rows, which is also the number of columns.
    pub open spec fn side(self) -> nat {
        self.rows.len()
    }

    /// Whether `(i, j)` is a site of the grid.
    pub open spec fn contains(self, i: int, j: int) -> bool {
        0 <= i < self.side() && 0 <= j < self.side()
    }

    /// The spin at `(i, j)`.
    pub open spec fn spin(self, i: int, j: int) -> int {
        self.rows[i][j]
    }

    /// The grid is square, not empty, and every site holds a spin.
    pub open spec fn valid(self) -> bool {
        &&& self.side() >= 1
        &&& forall|i: int| 0 <= i < self.side() ==> (#[trigger] self.rows[i]).len() == self.side()
        &&& forall|i: int, j: int| self.contains(i, j) ==> is_spin(#[trigger] self.spin(i, j))
    }

    /// The grid of side `n` in which every spin is `s`.
    pub open spec fn uniform(n: nat, s: int) -> Grid {
        Grid { rows: Seq::new(n, |i: int| Seq::new(n, |j: int| s)) }
    }

    /// The row index below `i`, wrapping at the edge.
    pub open spec fn next(self, i: int) -> int {
        next_index(self.side() as int, i)
    }

    /// The row index above `i`, wrapping at the edge.
    pub open spec fn prev(self, i: int) -> int {
        prev_index(self.side() as int, i)
    }

    /// The grid with the spin at `(i, j)` negated.
    pub open spec fn flip(self, i: int, j: int) -> Grid {
        Grid { rows: self.rows.update(i, self.rows[i].update(j, -self.rows[i][j])) }
    }

    /// The sum of the four periodic nearest neighbours of `(i, j)`.
    pub open spec fn sum_of_neighbors(self, i: int, j: int) -> int {
        self.spin(i, self.next(j)) + self.spin(i, self.prev(j)) + self.spin(self.next(i), j)
            + self.spin(self.prev(i), j)
    }

    /// The energy cost of flipping the spin at `(i, j)` alone.
    pub open spec fn delta_energy(self, i: int, j: int) -> int {
        2 * self.spin(i, j) * self.sum_of_neighbors(i, j)
    }

    /// The energy of the two bonds that leave `(i, j)` in the plus
    /// directions.
    pub open spec fn bond(self, i: int, j: int) -> int {
        -self.spin(i, j) * (self.spin(self.next(i), j) + self.spin(i, self.next(j)))
    }

    /// The spins as a field.
    pub open spec fn spin_field(self) -> Field {
        |i: int, j: int| self.spin(i, j)
    }

    /// The bond energies as a field.
    pub open spec fn bond_field(self) -> Field {
        |i: int, j: int| self.bond(i, j)
    }

    /// The field that is 1 where the spin is `s` and 0 elsewhere.
    pub open spec fn indicator(self, s: int) -> Field {
        |i: int, j: int|
            if self.spin(i, j) == s {
                1int
            } else {
                0int
            }
    }

    /// The total energy: every bond counted once.
    pub open spec fn energy(self) -> int {
        rect_sum(self.bond_field(), self.side() as int, self.side() as int)
    }

    /// The total magnetization: the sum of all spins.
    pub open spec fn magnetization(self) -> int {
        rect_sum(self.spin_field(), self.side() as int, self.side() as int)
    }

    /// The number of sites whose spin is `s`.
    pub open spec fn count(self, s: int) -> int {
        rect_sum(self.indicator(s), self.side() as int, self.side() as int)
    }

    /// The number of sites.
    pub open spec fn area(self) -> int {
        (self.side() * self.side()) as int
    }
}

/// Flipping a site negates its spin and leaves every other site, and the
/// shape of the grid, as they were.
pub proof fn lemma_flip(g: Grid, i: int, j: int)
    requires
        g.valid(),
        g.contains(i, j),
    ensures
        g.flip(i, j).valid(),
        g.flip(i, j).side() == g.side(),
        g.flip(i, j).spin(i, j) == -g.spin(i, j),
        forall|a: int, b: int|
            g.contains(a, b) && !(a == i && b == j) ==> #[trigger] g.flip(i, j).spin(a, b)
                == g.spin(a, b),
{
    let g2 = g.flip(i, j);
    assert(g.rows[i].len() == g.side());
    assert forall|a: int| 0 <= a < g2.side() implies (#[trigger] g2.rows[a]).len()
        == g2.side() by {
        assert(g.rows[a].len() == g.side());
    }
    assert forall|a: int, b: int| g2.contains(a, b) implies is_spin(#[trigger] g2.spin(a, b)) by {
        assert(is_spin(g.spin(a, b)));
        assert(g.rows[a].len() == g.side());
    }
}

/// Flipping the same site twice gives back the grid.
pub proof fn lemma_flip_twice(g: Grid, i: int, j: int)
    requires
        g.valid(),
        g.contains(i, j),
    ensures
        g.flip(i, j).flip(i, j) == g,
{
    let g2 = g.flip(i, j);
    let g3 = g2.flip(i, j);
    assert(g.rows[i].len() == g.side());
    assert(g3.rows[i] =~= g.rows[i]);
    assert(g3.rows =~= g.rows);
}

/// Flipping a site changes the magnetization by minus twice its spin.
pub proof fn lemma_flip_magnetization(g: Grid, i: int, j: int)
    requires
        g.valid(),
        g.contains(i, j),
    ensures
        g.flip(i, j).magnetization() == g.magnetization() - 2 * g.spin(i, j),
{
    lemma_flip(g, i, j);
    let n = g.side() as int;
    let f = g.spin_field();
    let f2 = g.flip(i, j).spin_field();
    assert forall|a: int, b: int|
        0 <= a < n && 0 <= b < n && !(a == i && b == j) implies #[trigger] f(a, b) == f2(a, b) by {
        assert(g.flip(i, j).spin(a, b) == g.spin(a, b));
    }
    lemma_rect_sum_change(f, f2, n, n, i, j);
}

/// Flipping a site moves it from the population of its spin to the
/// population of the opposite spin.
pub proof fn lemma_flip_count(g: Grid, i: int, j: int, s: int)
    requires
        g.valid(),
        g.contains(i, j),
    ensures
        g.flip(i, j).count(s) == g.count(s) + (if g.spin(i, j) == s {
            -1int
        } else if g.spin(i, j) == -s {
            1int
        } else {
            0int
        }),
{
    lemma_flip(g, i, j);
    let n = g.side() as int;
    let f = g.indicator(s);
    let f2 = g.flip(i, j).indicator(s);
    assert forall|a: int, b: int|
        0 <= a < n && 0 <= b < n && !(a == i && b == j) implies #[trigger] f(a, b) == f2(a, b) by {
        assert(g.flip(i, j).spin(a, b) == g.spin(a, b));
    }
    lemma_rect_sum_change(f, f2, n, n, i, j);
}

/// The four neighbours of a site are sites, and their sum is one of
/// -4, -2, 0, 2, 4.
pub proof fn lemma_neighbors(g: Grid, i: int, j: int)
    requires
        g.valid(),
        g.contains(i, j),
    ensures
        g.contains(i, g.next(j)),
        g.contains(i, g.prev(j)),
        g.contains(g.next(i), j),
        g.contains(g.prev(i), j),
        -4 <= g.sum_of_neighbors(i, j) <= 4,
        g.sum_of_neighbors(i, j) % 2 == 0,
{
    let n = g.side() as int;
    lemma_ring(n, i);
    lemma_ring(n, j);
    assert(is_spin(g.spin(i, g.next(j))));
    assert(is_spin(g.spin(i, g.prev(j))));
    assert(is_spin(g.spin(g.next(i), j)));
    assert(is_spin(g.spin(g.prev(i), j)));
}

/// The cost of a single flip is one of -8, -4, 0, 4, 8.
pub proof fn lemma_delta_energy_values(g: Grid, i: int, j: int)
    requires
        g.valid(),
        g.contains(i, j),
    ensures
        -8 <= g.delta_energy(i, j) <= 8,
        g.delta_energy(i, j) % 4 == 0,
{
    lemma_neighbors(g, i, j);
    let s = g.spin(i, j);
    let x = g.sum_of_neighbors(i, j);
    assert(is_spin(s));
    assert(2 * s * x == if s == 1 { 2 * x } else { -2 * x }) by (nonlinear_arith)
        requires
            is_spin(s),
    ;
}

/// How the bond energy at `(a, b)` reacts to a flip at `(i, j)`: only the
/// flipped site and its two predecessors see a change.
proof fn lemma_flip_bond(g: Grid, i: int, j: int, a: int, b: int)
    requires
        g.valid(),
        g.side() >= 2,
        g.contains(i, j),
        g.contains(a, b),
    ensures
        g.flip(i, j).bond(a, b) - g.bond(a, b) == (if a == i && b == j {
            2 * g.spin(i, j) * (g.spin(g.next(i), j) + g.spin(i, g.next(j)))
        } else if a == g.prev(i) && b == j {
            2 * g.spin(i, j) * g.spin(g.prev(i), j)
        } else if a == i && b == g.prev(j) {
            2 * g.spin(i, j) * g.spin(i, g.prev(j))
        } else {
            0
        }),
{
    let n = g.side() as int;
    let g2 = g.flip(i, j);
    lemma_flip(g, i, j);
    lemma_ring(n, i);
    lemma_ring(n, j);
    lemma_ring(n, a);
    lemma_ring(n, b);
    let s = g.spin(i, j);
    let c = g.spin(a, b);
    let d = g.spin(g.next(a), b);
    let r = g.spin(a, g.next(b));
    assert(g.contains(g.next(a), b) && g.contains(a, g.next(b)));
    if a == i && b == j {
        assert(g2.spin(g.next(a), b) == d);
        assert(g2.spin(a, g.next(b)) == r);
        assert((-(-s)) * (d + r) - (-s) * (d + r) == 2 * s * (d + r)) by (nonlinear_arith);
    } else if a == g.prev(i) && b == j {
        assert(g2.spin(a, b) == c);
        assert(g2.spin(g.next(a), b) == -s);
        assert(g2.spin(a, g.next(b)) == r);
        assert((-c) * (-s + r) - (-c) * (s + r) == 2 * s * c) by (nonlinear_arith);
    } else if a == i && b == g.prev(j) {
        assert(g2.spin(a, b) == c);
        assert(g2.spin(g.next(a), b) == d);
        assert(g2.spin(a, g.next(b)) == -s);
        assert((-c) * (d + (-s)) - (-c) * (d + s) == 2 * s * c) by (nonlinear_arith);
    } else {
        assert(g2.spin(a, b) == c);
        assert(g2.spin(g.next(a), b) == d);
        assert(g2.spin(a, g.next(b)) == r);
    }
}

/// On a grid of side two or more, flipping a site changes the total energy
/// by exactly the cost that `delta_energy` gives for it.
pub proof fn lemma_flip_energy(g: Grid, i: int, j: int)
    requires
        g.valid(),
        g.side() >= 2,
        g.contains(i, j),
    ensures
        g.flip(i, j).energy() == g.energy() + g.delta_energy(i, j),
{
    let n = g.side() as int;
    let g2 = g.flip(i, j);
    let pi = g.prev(i);
    let pj = g.prev(j);
    lemma_flip(g, i, j);
    lemma_ring(n, i);
    lemma_ring(n, j);
    let f0 = g.bond_field();
    let f1: Field = |a: int, b: int|
        if a == i && b == j {
            g2.bond(a, b)
        } else {
            g.bond(a, b)
        };
    let f2: Field = |a: int, b: int|
        if (a == i && b == j) || (a == pi && b == j) {
            g2.bond(a, b)
        } else {
            g.bond(a, b)
        };
    let f3 = g2.bond_field();
    assert forall|a: int, b: int|
        0 <= a < n && 0 <= b < n && !(a == i && b == pj) implies #[trigger] f2(a, b)
            == f3(a, b) by {
        lemma_flip_bond(g, i, j, a, b);
    }
    lemma_rect_sum_change(f0, f1, n, n, i, j);
    lemma_rect_sum_change(f1, f2, n, n, pi, j);
    lemma_rect_sum_change(f2, f3, n, n, i, pj);
    lemma_flip_bond(g, i, j, i, j);
    lemma_flip_bond(g, i, j, pi, j);
    lemma_flip_bond(g, i, j, i, pj);
    let s = g.spin(i, j);
    let r = g.spin(i, g.next(j));
    let l = g.spin(i, pj);
    let d = g.spin(g.next(i), j);
    let u = g.spin(pi, j);
    assert(2 * s * (d + r) + 2 * s * u + 2 * s * l == 2 * s * (r + l + d + u))
        by (nonlinear_arith);
}

/// The grid of a single site is the exception. The site is its own
/// neighbour on all four sides: both its bonds are always satisfied, so the
/// energy is -2 whatever the spin, while `delta_energy` gives a cost of 8.
pub proof fn lemma_single_site(g: Grid)
    requires
        g.valid(),
        g.side() == 1,
    ensures
        g.energy() == -2,
        g.flip(0, 0).energy() == -2,
        g.delta_energy(0, 0) == 8,
{
    lemma_ring(1, 0);
    lemma_flip(g, 0, 0);
    let s = g.spin(0, 0);
    assert(is_spin(s));
    assert((-s) * (s + s) == -2 && (-(-s)) * (-s + -s) == -2 && 2 * s * (s + s + s + s) == 8)
        by (nonlinear_arith)
        requires
            is_spin(s),
    ;
    let e = g.bond_field();
    assert forall|i: int, j: int| 0 <= i < 1 && 0 <= j < 1 implies -2 <= #[trigger] e(i, j)
        <= -2 by {}
    lemma_rect_sum_bounds(e, 1, 1, -2, -2);
    let e2 = g.flip(0, 0).bond_field();
    assert forall|i: int, j: int| 0 <= i < 1 && 0 <= j < 1 implies -2 <= #[trigger] e2(i, j)
        <= -2 by {}
    lemma_rect_sum_bounds(e2, 1, 1, -2, -2);
}

/// On a grid of side two or more, the cost of flipping a site back is the
/// negative of the cost of flipping it.
pub proof fn lemma_flip_delta_energy(g: Grid, i: int, j: int)
    requires
        g.valid(),
        g.side() >= 2,
        g.contains(i, j),
    ensures
        g.flip(i, j).delta_energy(i, j) == -g.delta_energy(i, j),
{
    let n = g.side() as int;
    lemma_flip(g, i, j);
    lemma_ring(n, i);
    lemma_ring(n, j);
    let g2 = g.flip(i, j);
    assert(g2.sum_of_neighbors(i, j) == g.sum_of_neighbors(i, j));
    let s = g.spin(i, j);
    let x = g.sum_of_neighbors(i, j);
    assert(2 * (-s) * x == -(2 * s * x)) by (nonlinear_arith);
}

/// Flipping a site twice in a row changes nothing: the grid, and with it the
/// total energy and the magnetization, are what they were.
pub proof fn lemma_round_trip(g: Grid, i: int, j: int)
    requires
        g.valid(),
        g.contains(i, j),
    ensures
        g.flip(i, j).flip(i, j).energy() == g.energy(),
        g.flip(i, j).flip(i, j).magnetization() == g.magnetization(),
        g.side() >= 2 ==> g.delta_energy(i, j) + g.flip(i, j).delta_energy(i, j) == 0,
{
    lemma_flip_twice(g, i, j);
    if g.side() >= 2 {
        lemma_flip_delta_energy(g, i, j);
    }
}

/// The observables of a grid lie within the range that its area allows.
pub proof fn lemma_observable_bounds(g: Grid)
    requires
        g.valid(),
    ensures
        -2 * g.area() <= g.energy() <= 2 * g.area(),
        -g.area() <= g.magnetization() <= g.area(),
        0 <= g.count(1) <= g.area(),
        0 <= g.count(-1) <= g.area(),
{
    let n = g.side() as int;
    let e = g.bond_field();
    assert forall|i: int, j: int| 0 <= i < n && 0 <= j < n implies -2 <= #[trigger] e(i, j)
        <= 2 by {
        lemma_bond_values(g, i, j);
    }
    lemma_rect_sum_bounds(e, n, n, -2, 2);
    let m = g.spin_field();
    assert forall|i: int, j: int| 0 <= i < n && 0 <= j < n implies -1 <= #[trigger] m(i, j)
        <= 1 by {
        assert(is_spin(g.spin(i, j)));
    }
    lemma_rect_sum_bounds(m, n, n, -1, 1);
    lemma_rect_sum_bounds(g.indicator(1), n, n, 0, 1);
    lemma_rect_sum_bounds(g.indicator(-1), n, n, 0, 1);
}

/// The energy of the two bonds that leave a site lies between -2 and 2.
pub proof fn lemma_bond_values(g: Grid, i: int, j: int)
    requires
        g.valid(),
        g.contains(i, j),
    ensures
        -2 <= g.bond(i, j) <= 2,
{
    let n = g.side() as int;
    lemma_ring(n, i);
    lemma_ring(n, j);
    let s = g.spin(i, j);
    let d = g.spin(g.next(i), j);
    let r = g.spin(i, g.next(j));
    assert(is_spin(s) && is_spin(d) && is_spin(r));
    assert((-s) * (d + r) == if s == 1 { -(d + r) } else { d + r }) by (nonlinear_arith)
        requires
            is_spin(s),
    ;
}

/// The magnetization is the number of up spins minus the number of down
/// spins. The two populations make up the whole grid, so the magnetization
/// has the parity of the area.
pub proof fn lemma_magnetization_counts(g: Grid)
    requires
        g.valid(),
    ensures
        g.magnetization() == g.count(1) - g.count(-1),
        g.count(1) + g.count(-1) == g.area(),
        (g.magnetization() - g.area()) % 2 == 0,
{
    let n = g.side() as int;
    let up = g.indicator(1);
    let down = g.indicator(-1);
    let m = g.spin_field();
    let one: Field = |i: int, j: int| 1int;
    assert forall|i: int, j: int| 0 <= i < n && 0 <= j < n implies #[trigger] m(i, j) == up(i, j)
        - down(i, j) by {
        assert(is_spin(g.spin(i, j)));
    }
    lemma_rect_sum_difference(up, down, m, n, n);
    assert forall|i: int, j: int| 0 <= i < n && 0 <= j < n implies #[trigger] up(i, j) == one(i, j)
        - down(i, j) by {
        assert(is_spin(g.spin(i, j)));
    }
    lemma_rect_sum_difference(one, down, up, n, n);
    lemma_rect_sum_bounds(one, n, n, 1, 1);
}

/// The uniform grid is valid; all its bonds are satisfied, so its energy is
/// minus twice its area, and its magnetization is its area times the spin.
pub proof fn lemma_uniform(n: nat, s: int)
    requires
        n >= 1,
        is_spin(s),
    ensures
        Grid::uniform(n, s).valid(),
        Grid::uniform(n, s).side() == n,
        forall|i: int, j: int|
            0 <= i < n && 0 <= j < n ==> #[trigger] Grid::uniform(n, s).spin(i, j) == s,
        Grid::uniform(n, s).energy() == -2 * (n * n),
        Grid::uniform(n, s).magnetization() == s * (n * n),
{
    let g = Grid::uniform(n, s);
    let e = g.bond_field();
    assert forall|i: int, j: int| 0 <= i < n && 0 <= j < n implies -2 <= #[trigger] e(i, j)
        <= -2 by {
        lemma_ring(n as int, i);
        lemma_ring(n as int, j);
        assert((-s) * (s + s) == -2) by (nonlinear_arith)
            requires
                is_spin(s),
        ;
    }
    lemma_rect_sum_bounds(e, n as int, n as int, -2, -2);
    let m = g.spin_field();
    assert forall|i: int, j: int| 0 <= i < n && 0 <= j < n implies s <= #[trigger] m(i, j)
        <= s by {}
    lemma_rect_sum_bounds(m, n as int, n as int, s, s);
}

/// A site, as `(row, column)`.
pub type Site = (int, int);

impl Grid {
    /// Whether every site of the sequence is a site of the grid.
    pub open spec fn all_within(self, sites: Seq<Site>) -> bool {
        forall|k: int| 0 <= k < sites.len() ==> self.contains((#[trigger] sites[k]).0, sites[k].1)
    }

    /// The grid after flipping the sites of the sequence one after the
    /// other.
    pub open spec fn flip_all(self, sites: Seq<Site>) -> Grid
        decreases sites.len(),
    {
        if sites.len() == 0 {
            self
        } else {
            self.flip_all(sites.drop_last()).flip(sites.last().0, sites.last().1)
        }
    }

    /// The sum of the costs of the flips of the sequence, each taken on the
    /// grid as the flips before it have left it.
    pub open spec fn delta_along(self, sites: Seq<Site>) -> int
        decreases sites.len(),
    {
        if sites.len() == 0 {
            0
        } else {
            self.delta_along(sites.drop_last()) + self.flip_all(sites.drop_last()).delta_energy(
                sites.last().0,
                sites.last().1,
            )
        }
    }
}

/// A sequence of flips leaves a valid grid of the same side.
pub proof fn lemma_flip_all(g: Grid, sites: Seq<Site>)
    requires
        g.valid(),
        g.all_within(sites),
    ensures
        g.flip_all(sites).valid(),
        g.flip_all(sites).side() == g.side(),
    decreases sites.len(),
{
    if sites.len() > 0 {
        let before = sites.drop_last();
        assert forall|k: int| 0 <= k < before.len() implies g.contains(
            (#[trigger] before[k]).0,
            before[k].1,
        ) by {
            assert(before[k] == sites[k]);
        }
        lemma_flip_all(g, before);
        assert(g.contains(sites.last().0, sites.last().1)) by {
            assert(sites.last() == sites[sites.len() - 1]);
        }
        lemma_flip(g.flip_all(before), sites.last().0, sites.last().1);
    }
}

/// Incremental and full computation of the energy agree. On a grid of side
/// two or more, the energy after any sequence of flips is the energy before
/// it plus the sum of the costs that `delta_energy` gave for each flip.
pub proof fn lemma_energy_along(g: Grid, sites: Seq<Site>)
    requires
        g.valid(),
        g.side() >= 2,
        g.all_within(sites),
    ensures
        g.flip_all(sites).energy() == g.energy() + g.delta_along(sites),
    decreases sites.len(),
{
    if sites.len() > 0 {
        let before = sites.drop_last();
        assert forall|k: int| 0 <= k < before.len() implies g.contains(
            (#[trigger] before[k]).0,
            before[k].1,
        ) by {
            assert(before[k] == sites[k]);
        }
        lemma_energy_along(g, before);
        lemma_flip_all(g, before);
        assert(g.contains(sites.last().0, sites.last().1)) by {
            assert(sites.last() == sites[sites.len() - 1]);
        }
        lemma_flip_energy(g.flip_all(before), sites.last().0, sites.last().1);
    }
}

/// The same from a cold start: after any sequence of flips of the all-up
/// grid of side `n >= 2`, the energy is `-2 n^2` plus the sum of the costs of
/// the flips.
pub proof fn lemma_energy_from_cold_start(n: nat, sites: Seq<Site>)
    requires
        n >= 2,
        Grid::uniform(n, 1).all_within(sites),
    ensures
        Grid::uniform(n, 1).flip_all(sites).energy() == -2 * (n * n) + Grid::uniform(
            n,
            1,
        ).delta_along(sites),
{
    lemma_uniform(n, 1);
    lemma_energy_along(Grid::uniform(n, 1), sites);
}

} // verus!
