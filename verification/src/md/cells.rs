//! Cell list: bucket atoms by cell so the force loop only visits
//! candidates within one cell of each atom. Atoms are threaded through the
//! buckets as a head/next linked list (no per-cell allocation): `head[c]`
//! is the last atom of cell c and `next[i]` the previous atom of i's cell,
//! `EMPTY` ending a chain.

use vstd::prelude::*;
use vstd::arithmetic::div_mod::lemma_fundamental_div_mod_converse;

verus! {

/// Marks the end of a chain.
pub const EMPTY: usize = usize::MAX;

/// The last atom below k that sits in cell c, or EMPTY.
pub open spec fn last_in(cells: Seq<usize>, c: int, k: int) -> int
    decreases k,
{
    if k <= 0 {
        EMPTY as int
    } else if cells[k - 1] as int == c {
        k - 1
    } else {
        last_in(cells, c, k - 1)
    }
}

/// The atom reached from `p` after `k` steps along the chain.
pub open spec fn walk(next: Seq<usize>, p: int, k: nat) -> int
    decreases k,
{
    if k == 0 {
        p
    } else if 0 <= p < next.len() {
        walk(next, next[p] as int, (k - 1) as nat)
    } else {
        p
    }
}

/// The cell at column x, row y of an nx-wide grid.
pub open spec fn cell_at(nx: int, x: int, y: int) -> int {
    y * nx + x
}

/// Buckets of atoms over an nx by ny grid of cells.
pub struct CellList {
    pub nx: usize,
    pub ny: usize,
    pub head: Vec<usize>,
    pub next: Vec<usize>,
}

impl CellList {
    /// The chains list exactly the atoms of each cell, most recent first.
    pub open spec fn threads(&self, cells: Seq<usize>) -> bool {
        &&& self.head@.len() == self.nx * self.ny
        &&& self.next@.len() == cells.len()
        &&& forall|c: int| 0 <= c < self.nx * self.ny ==> #[trigger] self.head@[c] as int == last_in(cells, c, cells.len() as int)
        &&& forall|i: int| 0 <= i < cells.len() ==> #[trigger] self.next@[i] as int == last_in(cells, cells[i] as int, i)
    }

    /// Thread atom i into cell `cells[i]` for every atom, in order.
    pub fn from_cells(nx: usize, ny: usize, cells: &Vec<usize>) -> (r: Self)
        requires
            nx >= 1,
            ny >= 1,
            nx * ny <= usize::MAX,
            cells@.len() < usize::MAX,
            forall|i: int| 0 <= i < cells@.len() ==> #[trigger] cells@[i] < nx * ny,
        ensures
            r.nx == nx,
            r.ny == ny,
            r.threads(cells@),
    {
        let ncell = nx * ny;
        let mut head: Vec<usize> = Vec::with_capacity(ncell);
        let mut c: usize = 0;
        while c < ncell
            invariant
                c <= ncell,
                head@.len() == c,
                forall|j: int| 0 <= j < c ==> #[trigger] head@[j] == EMPTY,
            decreases ncell - c,
        {
            head.push(EMPTY);
            c += 1;
        }
        let mut next: Vec<usize> = Vec::with_capacity(cells.len());
        let mut i: usize = 0;
        while i < cells.len()
            invariant
                ncell == nx * ny,
                i <= cells@.len(),
                cells@.len() < usize::MAX,
                forall|j: int| 0 <= j < cells@.len() ==> #[trigger] cells@[j] < ncell,
                head@.len() == ncell,
                next@.len() == i,
                forall|cc: int| 0 <= cc < ncell ==> #[trigger] head@[cc] as int == last_in(cells@, cc, i as int),
                forall|j: int| 0 <= j < i ==> #[trigger] next@[j] as int == last_in(cells@, cells@[j] as int, j),
            decreases cells@.len() - i,
        {
            let cell = cells[i];
            next.push(head[cell]);
            head.set(cell, i);
            i += 1;
        }
        CellList { nx, ny, head, next }
    }
}

/// What last_in returns: EMPTY, or an atom of cell c below k, at least as
/// late as any atom of cell c below k.
pub proof fn lemma_last_in(cells: Seq<usize>, c: int, k: int, i: int)
    requires
        0 <= k <= cells.len(),
        0 <= i < k,
        cells[i] as int == c,
    ensures
        i <= last_in(cells, c, k) < k,
        cells[last_in(cells, c, k)] as int == c,
    decreases k,
{
    if cells[k - 1] as int != c {
        lemma_last_in(cells, c, k - 1, i);
    }
}

/// The chains partition the atoms: walking the chain of cell c from its
/// head passes only through atoms of c until it ends at EMPTY, and every
/// atom is reached by walking the chain of its own cell.
pub proof fn law_chain_reaches_every_atom(cl: &CellList, cells: Seq<usize>, c: int, i: int)
    requires
        cl.threads(cells),
        0 <= c < cl.nx * cl.ny,
        0 <= i < cells.len(),
        cells[i] < cl.nx * cl.ny,
        cells.len() < usize::MAX,
    ensures
        forall|k: nat|
            #![trigger walk(cl.next@, cl.head@[c] as int, k)]
            walk(cl.next@, cl.head@[c] as int, k) == EMPTY as int || (0 <= walk(cl.next@, cl.head@[c] as int, k)
                < cells.len() && cells[walk(cl.next@, cl.head@[c] as int, k)] as int == c),
        exists|k: nat| #[trigger] walk(cl.next@, cl.head@[cells[i] as int] as int, k) == i,
{
    let ci = cells[i] as int;
    lemma_last_in(cells, ci, cells.len() as int, i);
    lemma_walk_down(cl, cells, ci, cl.head@[ci] as int, i);
    assert forall|k: nat|
        #![trigger walk(cl.next@, cl.head@[c] as int, k)]
        walk(cl.next@, cl.head@[c] as int, k) == EMPTY as int || (0 <= walk(cl.next@, cl.head@[c] as int, k)
            < cells.len() && cells[walk(cl.next@, cl.head@[c] as int, k)] as int == c) by {
        lemma_walk_stays(cl, cells, c, cells.len() as int, k);
    }
}

/// A walk that starts at the last atom of cell c below m stays on atoms of
/// c until it reaches EMPTY.
proof fn lemma_walk_stays(cl: &CellList, cells: Seq<usize>, c: int, m: int, k: nat)
    requires
        cl.threads(cells),
        0 <= m <= cells.len(),
        cells.len() < usize::MAX,
    ensures
        walk(cl.next@, last_in(cells, c, m), k) == EMPTY as int || (0 <= walk(cl.next@, last_in(cells, c, m), k)
            < cells.len() && cells[walk(cl.next@, last_in(cells, c, m), k)] as int == c),
    decreases k,
{
    lemma_last_in_gap(cells, c, m);
    let p = last_in(cells, c, m);
    if k > 0 && p != EMPTY as int {
        assert(cl.next@[p] as int == last_in(cells, c, p));
        lemma_walk_stays(cl, cells, c, p, (k - 1) as nat);
    }
}

proof fn lemma_walk_down(cl: &CellList, cells: Seq<usize>, c: int, p: int, i: int)
    requires
        cl.threads(cells),
        0 <= i <= p < cells.len(),
        cells[p] as int == c,
        cells[i] as int == c,
    ensures
        exists|k: nat| #[trigger] walk(cl.next@, p, k) == i,
    decreases p - i,
{
    if p == i {
        assert(walk(cl.next@, p, 0) == i);
    } else {
        let q = cl.next@[p] as int;
        lemma_last_in(cells, c, p, i);
        lemma_walk_down(cl, cells, c, q, i);
        let k = choose|k: nat| #[trigger] walk(cl.next@, q, k) == i;
        assert(walk(cl.next@, p, k + 1) == walk(cl.next@, q, k));
    }
}

/// (c + d) mod m for a coordinate c < m and a step d in {-1, 0, 1}.
fn wrap_step(c: usize, d: i64, m: usize) -> (r: usize)
    requires
        c < m,
        d == -1 || d == 0 || d == 1,
    ensures
        r == (c + d) % (m as int),
        r < m,
{
    if d == -1 {
        if c == 0 {
            proof {
                lemma_fundamental_div_mod_converse(-1, m as int, -1, m - 1);
            }
            m - 1
        } else {
            proof {
                lemma_fundamental_div_mod_converse(c - 1, m as int, 0, c - 1);
            }
            c - 1
        }
    } else if d == 0 {
        proof {
            lemma_fundamental_div_mod_converse(c as int, m as int, 0, c as int);
        }
        c
    } else {
        if c + 1 == m {
            proof {
                lemma_fundamental_div_mod_converse(m as int, m as int, 1, 0);
            }
            0
        } else {
            proof {
                lemma_fundamental_div_mod_converse(c + 1, m as int, 0, c + 1);
            }
            c + 1
        }
    }
}

/// Whether v holds x.
fn holds(v: &Vec<usize>, x: usize) -> (r: bool)
    ensures
        r == v@.contains(x),
{
    let mut i: usize = 0;
    while i < v.len()
        invariant
            i <= v@.len(),
            forall|j: int| 0 <= j < i ==> v@[j] != x,
        decreases v@.len() - i,
    {
        if v[i] == x {
            return true;
        }
        i += 1;
    }
    false
}

/// The cell reached from (cx, cy) by the steps (dx, dy), wrapped at the
/// edges of the nx by ny grid.
pub open spec fn offset_cell(nx: int, ny: int, cx: int, cy: int, dx: int, dy: int) -> int {
    cell_at(nx, (cx + dx) % nx, (cy + dy) % ny)
}

/// v is the cell reached from (cx, cy) by one of the nine steps.
pub open spec fn is_neighbour_cell(nx: int, ny: int, cx: int, cy: int, v: int) -> bool {
    exists|dx: int, dy: int|
        #![trigger offset_cell(nx, ny, cx, cy, dx, dy)]
        unit_step(dx) && unit_step(dy) && v == offset_cell(nx, ny, cx, cy, dx, dy)
}

/// One of the nine steps.
pub open spec fn unit_step(d: int) -> bool {
    d == -1 || d == 0 || d == 1
}

/// The nine wrapped cells around (cx, cy) in search order: rows dy = -1,
/// 0, 1 and, within a row, dx = -1, 0, 1.
pub open spec fn candidate_cells(nx: int, ny: int, cx: int, cy: int) -> Seq<usize> {
    Seq::new(9, |t: int| offset_cell(nx, ny, cx, cy, t % 3 - 1, t / 3 - 1) as usize)
}

/// s with every repeat after the first occurrence dropped, order kept.
pub open spec fn first_occurrences(s: Seq<usize>) -> Seq<usize>
    decreases s.len(),
{
    if s.len() == 0 {
        s
    } else {
        let p = first_occurrences(s.drop_last());
        if p.contains(s.last()) {
            p
        } else {
            p.push(s.last())
        }
    }
}

impl CellList {
    /// The (up to) nine neighbour cells of (cx, cy), indices wrapped at the
    /// box edges and deduplicated when wrapping merges offsets (a two-cell
    /// wide box maps -1 and +1 onto the same cell).
    pub fn neighbour_cells(&self, cx: usize, cy: usize) -> (out: Vec<usize>)
        requires
            cx < self.nx,
            cy < self.ny,
            self.nx * self.ny <= usize::MAX,
        ensures
            out@ == first_occurrences(candidate_cells(self.nx as int, self.ny as int, cx as int, cy as int)),
            out@.no_duplicates(),
            out@.len() <= 9,
            forall|t: int| 0 <= t < out@.len() ==> is_neighbour_cell(self.nx as int, self.ny as int, cx as int, cy as int, #[trigger] out@[t] as int),
            forall|dx: int, dy: int| unit_step(dx) && unit_step(dy) ==> #[trigger] out@.contains(
                offset_cell(self.nx as int, self.ny as int, cx as int, cy as int, dx, dy) as usize),
    {
        let nx = self.nx;
        let ny = self.ny;
        let mut out: Vec<usize> = Vec::with_capacity(9);
        let mut dy: i64 = -1;
        while dy <= 1
            invariant
                nx == self.nx,
                ny == self.ny,
                cx < nx,
                cy < ny,
                nx * ny <= usize::MAX,
                -1 <= dy <= 2,
                out@ == first_occurrences(candidate_cells(nx as int, ny as int, cx as int, cy as int).take(3 * (dy + 1))),
                out@.no_duplicates(),
                out@.len() <= 3 * (dy + 1),
                forall|t: int| 0 <= t < out@.len() ==> is_neighbour_cell(nx as int, ny as int, cx as int, cy as int, #[trigger] out@[t] as int),
                forall|ddx: int, ddy: int| unit_step(ddx) && unit_step(ddy) && ddy < dy ==> #[trigger] out@.contains(
                    offset_cell(nx as int, ny as int, cx as int, cy as int, ddx, ddy) as usize),
            decreases 2 - dy,
        {
            let wy = wrap_step(cy, dy, ny);
            let mut dx: i64 = -1;
            while dx <= 1
                invariant
                    nx == self.nx,
                    ny == self.ny,
                    cx < nx,
                    cy < ny,
                    nx * ny <= usize::MAX,
                    -1 <= dy <= 1,
                    -1 <= dx <= 2,
                    out@ == first_occurrences(
                        candidate_cells(nx as int, ny as int, cx as int, cy as int).take(3 * (dy + 1) + (dx + 1)),
                    ),
                    wy == (cy + dy) % (ny as int),
                    wy < ny,
                    out@.no_duplicates(),
                    out@.len() <= 3 * (dy + 1) + (dx + 1),
                    forall|t: int| 0 <= t < out@.len() ==> is_neighbour_cell(nx as int, ny as int, cx as int, cy as int, #[trigger] out@[t] as int),
                    forall|ddx: int, ddy: int| unit_step(ddx) && unit_step(ddy) && (ddy < dy || (ddy == dy && ddx < dx)) ==> #[trigger] out@.contains(
                        offset_cell(nx as int, ny as int, cx as int, cy as int, ddx, ddy) as usize),
                decreases 2 - dx,
            {
                let wx = wrap_step(cx, dx, nx);
                proof {
                    assert(wy * nx + wx < nx * ny) by (nonlinear_arith)
                        requires
                            wx < nx,
                            wy < ny,
                    ;
                }
                let c = wy * nx + wx;
                let ghost before = out@;
                proof {
                    let cand = candidate_cells(nx as int, ny as int, cx as int, cy as int);
                    let k = 3 * (dy + 1) + (dx + 1);
                    vstd::arithmetic::div_mod::lemma_fundamental_div_mod_converse(k, 3, dy + 1, dx + 1);
                    assert(cand[k] == c);
                    assert(cand.take(k + 1).drop_last() =~= cand.take(k));
                    assert(cand.take(k + 1).last() == c);
                }
                if !holds(&out, c) {
                    out.push(c);
                    proof {
                        assert forall|a: int, b: int| 0 <= a < b < out@.len() implies out@[a] != out@[b] by {
                            if b == out@.len() - 1 {
                                if out@[a] == c {
                                    assert(before[a] == c);
                                }
                            } else {
                                assert(out@[a] == before[a] && out@[b] == before[b]);
                            }
                        }
                        assert forall|t: int| 0 <= t < out@.len() implies is_neighbour_cell(nx as int, ny as int, cx as int, cy as int, #[trigger] out@[t] as int) by {
                            if t == out@.len() - 1 {
                                assert(out@[t] as int == offset_cell(nx as int, ny as int, cx as int, cy as int, dx as int, dy as int));
                            } else {
                                assert(out@[t] == before[t]);
                            }
                        }
                    }
                }
                proof {
                    if !before.contains(c) {
                        assert(out@[out@.len() - 1] == c);
                    }
                    assert(out@.contains(c));
                    assert(c as int == offset_cell(nx as int, ny as int, cx as int, cy as int, dx as int, dy as int));
                    assert forall|ddx: int, ddy: int| unit_step(ddx) && unit_step(ddy) && (ddy < dy || (ddy == dy && ddx < dx + 1)) implies #[trigger] out@.contains(
                        offset_cell(nx as int, ny as int, cx as int, cy as int, ddx, ddy) as usize) by {
                        if ddy == dy && ddx == dx {
                        } else {
                            let v = offset_cell(nx as int, ny as int, cx as int, cy as int, ddx, ddy) as usize;
                            assert(before.contains(v));
                            let u = choose|u: int| 0 <= u < before.len() && before[u] == v;
                            assert(out@[u] == v);
                        }
                    }
                }
                dx += 1;
            }
            dy += 1;
        }
        proof {
            let cand = candidate_cells(nx as int, ny as int, cx as int, cy as int);
            assert(cand.take(9) =~= cand);
        }
        out
    }
}

/// Where one wrapped step from c lands: (c + d) mod m for c < m and d in
/// {-1, 0, 1}.
pub open spec fn step_to(c: int, d: int, m: int) -> int {
    if c + d < 0 {
        m - 1
    } else if c + d >= m {
        0
    } else {
        c + d
    }
}

proof fn lemma_step_mod(c: int, d: int, m: int)
    requires
        0 <= c < m,
        unit_step(d),
    ensures
        (c + d) % m == step_to(c, d, m),
        0 <= step_to(c, d, m) < m,
        step_to(step_to(c, d, m), -d, m) == c,
{
    if c + d < 0 {
        lemma_fundamental_div_mod_converse(c + d, m, -1, m - 1);
    } else if c + d >= m {
        lemma_fundamental_div_mod_converse(c + d, m, 1, 0);
    } else {
        lemma_fundamental_div_mod_converse(c + d, m, 0, c + d);
    }
}

/// A cell index names one column and one row.
proof fn lemma_cell_at_decodes(nx: int, x: int, y: int)
    requires
        1 <= nx,
        0 <= x < nx,
    ensures
        cell_at(nx, x, y) % nx == x,
        cell_at(nx, x, y) / nx == y,
{
    lemma_fundamental_div_mod_converse(cell_at(nx, x, y), nx, y, x);
}

proof fn lemma_neighbour_back(nx: int, ny: int, cx: int, cy: int, ex: int, ey: int)
    requires
        1 <= nx,
        1 <= ny,
        0 <= cx < nx,
        0 <= ex < nx,
        0 <= cy < ny,
        0 <= ey < ny,
        is_neighbour_cell(nx, ny, cx, cy, cell_at(nx, ex, ey)),
    ensures
        is_neighbour_cell(nx, ny, ex, ey, cell_at(nx, cx, cy)),
{
    let (dx, dy) = choose|dx: int, dy: int|
        #![trigger offset_cell(nx, ny, cx, cy, dx, dy)]
        unit_step(dx) && unit_step(dy) && cell_at(nx, ex, ey) == offset_cell(nx, ny, cx, cy, dx, dy);
    lemma_step_mod(cx, dx, nx);
    lemma_step_mod(cy, dy, ny);
    lemma_cell_at_decodes(nx, ex, ey);
    lemma_cell_at_decodes(nx, step_to(cx, dx, nx), step_to(cy, dy, ny));
    lemma_step_mod(ex, -dx, nx);
    lemma_step_mod(ey, -dy, ny);
    assert(offset_cell(nx, ny, ex, ey, -dx, -dy) == cell_at(nx, cx, cy));
}

/// Neighbourhood of cells is symmetric: (ex, ey) is among the nine cells
/// around (cx, cy) exactly when (cx, cy) is among the nine around (ex, ey).
pub proof fn law_neighbour_cells_symmetric(nx: int, ny: int, cx: int, cy: int, ex: int, ey: int)
    requires
        1 <= nx,
        1 <= ny,
        0 <= cx < nx,
        0 <= ex < nx,
        0 <= cy < ny,
        0 <= ey < ny,
    ensures
        is_neighbour_cell(nx, ny, cx, cy, cell_at(nx, ex, ey)) == is_neighbour_cell(
            nx,
            ny,
            ex,
            ey,
            cell_at(nx, cx, cy),
        ),
{
    if is_neighbour_cell(nx, ny, cx, cy, cell_at(nx, ex, ey)) {
        lemma_neighbour_back(nx, ny, cx, cy, ex, ey);
    }
    if is_neighbour_cell(nx, ny, ex, ey, cell_at(nx, cx, cy)) {
        lemma_neighbour_back(nx, ny, ex, ey, cx, cy);
    }
}

/// Atoms i and j sit in neighbouring cells of the nx-wide grid.
pub open spec fn near(nx: int, ny: int, cells: Seq<usize>, i: int, j: int) -> bool {
    is_neighbour_cell(nx, ny, (cells[i] as int) % nx, (cells[i] as int) / nx, cells[j] as int)
}

/// j is a partner that the search from atom i examines: a later atom in a
/// neighbouring cell.
pub open spec fn partner(nx: int, ny: int, cells: Seq<usize>, i: int, j: int) -> bool {
    i < j < cells.len() && near(nx, ny, cells, i, j)
}

/// The pair search meets every pair of distinct atoms in neighbouring cells
/// exactly once, from the lower index, and no other pair.
pub proof fn law_each_pair_once(nx: int, ny: int, cells: Seq<usize>, i: int, j: int)
    requires
        1 <= nx,
        1 <= ny,
        forall|k: int| 0 <= k < cells.len() ==> #[trigger] cells[k] < nx * ny,
        0 <= i < cells.len(),
        0 <= j < cells.len(),
        i != j,
    ensures
        partner(nx, ny, cells, i, j) || partner(nx, ny, cells, j, i) <==> near(nx, ny, cells, i, j),
        !(partner(nx, ny, cells, i, j) && partner(nx, ny, cells, j, i)),
{
    let ci = cells[i] as int;
    let cj = cells[j] as int;
    lemma_decode_cell(nx, ny, ci);
    lemma_decode_cell(nx, ny, cj);
    law_neighbour_cells_symmetric(nx, ny, ci % nx, ci / nx, cj % nx, cj / nx);
}

/// A cell index below nx * ny is the cell at its column and row.
proof fn lemma_decode_cell(nx: int, ny: int, c: int)
    requires
        1 <= nx,
        1 <= ny,
        0 <= c < nx * ny,
    ensures
        0 <= c % nx < nx,
        0 <= c / nx < ny,
        c == cell_at(nx, c % nx, c / nx),
{
    vstd::arithmetic::div_mod::lemma_fundamental_div_mod(c, nx);
    vstd::arithmetic::div_mod::lemma_div_pos_is_pos(c, nx);
    vstd::arithmetic::div_mod::lemma_div_is_ordered(c, nx * ny - 1, nx);
    vstd::arithmetic::div_mod::lemma_mod_pos_bound(c, nx);
    assert((nx * ny - 1) / nx < ny) by {
        vstd::arithmetic::div_mod::lemma_div_multiples_vanish_fancy(ny - 1, nx - 1, nx);
        assert(nx * ny - 1 == nx * (ny - 1) + (nx - 1)) by (nonlinear_arith);
    }
    assert(c == cell_at(nx, c % nx, c / nx)) by (nonlinear_arith)
        requires
            c == nx * (c / nx) + c % nx,
    ;
}

/// last_in(c, k) is EMPTY when no atom below k sits in c; otherwise it sits
/// in c and no atom strictly between it and k does.
proof fn lemma_last_in_gap(cells: Seq<usize>, c: int, k: int)
    requires
        0 <= k <= cells.len(),
        cells.len() < usize::MAX,
    ensures
        last_in(cells, c, k) == EMPTY as int ==> forall|t: int| 0 <= t < k ==> #[trigger] cells[t] as int != c,
        last_in(cells, c, k) != EMPTY as int ==> {
            &&& 0 <= last_in(cells, c, k) < k
            &&& cells[last_in(cells, c, k)] as int == c
            &&& forall|t: int| last_in(cells, c, k) < t < k ==> #[trigger] cells[t] as int != c
        },
    decreases k,
{
    if k > 0 && cells[k - 1] as int != c {
        lemma_last_in_gap(cells, c, k - 1);
    }
}

/// A neighbour cell lies inside the grid.
proof fn lemma_neighbour_in_grid(nx: int, ny: int, cx: int, cy: int, v: int)
    requires
        1 <= nx,
        1 <= ny,
        0 <= cx < nx,
        0 <= cy < ny,
        is_neighbour_cell(nx, ny, cx, cy, v),
    ensures
        0 <= v < nx * ny,
{
    let (dx, dy) = choose|dx: int, dy: int|
        #![trigger offset_cell(nx, ny, cx, cy, dx, dy)]
        unit_step(dx) && unit_step(dy) && v == offset_cell(nx, ny, cx, cy, dx, dy);
    lemma_step_mod(cx, dx, nx);
    lemma_step_mod(cy, dy, ny);
    let x = step_to(cx, dx, nx);
    let y = step_to(cy, dy, ny);
    assert(0 <= y * nx + x < nx * ny) by (nonlinear_arith)
        requires
            0 <= x < nx,
            0 <= y < ny,
    ;
}

/// The atoms of cell c below m with an index above i, highest first: the
/// part of c's chain that the search from atom i keeps.
pub open spec fn chain_above(cells: Seq<usize>, c: int, i: int, m: int) -> Seq<usize>
    decreases m,
{
    if m <= 0 {
        Seq::empty()
    } else if cells[m - 1] as int == c && m - 1 > i {
        seq![(m - 1) as usize] + chain_above(cells, c, i, m - 1)
    } else {
        chain_above(cells, c, i, m - 1)
    }
}

/// The partners of atom i, cell by cell in the order of `nb`, each cell's
/// atoms highest first.
pub open spec fn partners_in_order(cells: Seq<usize>, nb: Seq<usize>, i: int) -> Seq<usize>
    decreases nb.len(),
{
    if nb.len() == 0 {
        Seq::empty()
    } else {
        partners_in_order(cells, nb.drop_last(), i) + chain_above(cells, nb.last() as int, i, cells.len() as int)
    }
}

/// One step down the chain: from last_in(c, m) the kept part is that atom
/// (when above i) followed by the kept part below it.
proof fn lemma_chain_above_step(cells: Seq<usize>, c: int, i: int, m: int)
    requires
        0 <= m <= cells.len(),
        cells.len() < usize::MAX,
    ensures
        last_in(cells, c, m) == EMPTY as int ==> chain_above(cells, c, i, m) == Seq::<usize>::empty(),
        last_in(cells, c, m) != EMPTY as int ==> chain_above(cells, c, i, m) == (if last_in(cells, c, m) > i {
            seq![last_in(cells, c, m) as usize]
        } else {
            Seq::<usize>::empty()
        }) + chain_above(cells, c, i, last_in(cells, c, m)),
    decreases m,
{
    if m > 0 {
        if cells[m - 1] as int == c {
            assert(last_in(cells, c, m) == m - 1);
            if m - 1 <= i {
                assert(Seq::<usize>::empty() + chain_above(cells, c, i, m - 1) =~= chain_above(cells, c, i, m - 1));
            }
        } else {
            lemma_chain_above_step(cells, c, i, m - 1);
        }
    }
}

impl CellList {
    /// The atoms that the force and energy sums pair with atom i: the later
    /// atoms of the (up to) nine cells around i's cell, each once.
    pub fn partners(&self, cells: &Vec<usize>, i: usize) -> (out: Vec<usize>)
        requires
            self.threads(cells@),
            self.nx >= 1,
            self.ny >= 1,
            self.nx * self.ny <= usize::MAX,
            cells@.len() < usize::MAX,
            forall|k: int| 0 <= k < cells@.len() ==> #[trigger] cells@[k] < self.nx * self.ny,
            i < cells@.len(),
        ensures
            out@.no_duplicates(),
            forall|u: int|
                0 <= u < out@.len() ==> partner(
                    self.nx as int,
                    self.ny as int,
                    cells@,
                    i as int,
                    #[trigger] out@[u] as int,
                ),
            forall|j: int|
                partner(self.nx as int, self.ny as int, cells@, i as int, j) ==> #[trigger] out@.contains(
                    j as usize,
                ),
            out@ == partners_in_order(
                cells@,
                first_occurrences(
                    candidate_cells(
                        self.nx as int,
                        self.ny as int,
                        cells@[i as int] as int % self.nx as int,
                        cells@[i as int] as int / self.nx as int,
                    ),
                ),
                i as int,
            ),
    {
        let nx = self.nx;
        let ny = self.ny;
        let n = cells.len();
        let ci = cells[i];
        let cx = ci % nx;
        let cy = ci / nx;
        proof {
            lemma_decode_cell(nx as int, ny as int, ci as int);
        }
        let nb = self.neighbour_cells(cx, cy);
        let mut out: Vec<usize> = Vec::new();
        let mut t: usize = 0;
        while t < nb.len()
            invariant
                nx == self.nx,
                ny == self.ny,
                n == cells@.len(),
                n < usize::MAX,
                nx >= 1,
                ny >= 1,
                cx < nx,
                cy < ny,
                i < n,
                self.threads(cells@),
                forall|k: int| 0 <= k < n ==> #[trigger] cells@[k] < nx * ny,
                nb@.no_duplicates(),
                forall|s: int|
                    0 <= s < nb@.len() ==> is_neighbour_cell(nx as int, ny as int, cx as int, cy as int, #[trigger] nb@[s] as int),
                t <= nb@.len(),
                out@ == partners_in_order(cells@, nb@.take(t as int), i as int),
                out@.no_duplicates(),
                forall|u: int|
                    0 <= u < out@.len() ==> i < #[trigger] out@[u] < n && nb@.take(t as int).contains(cells@[out@[u] as int]),
                forall|k: int|
                    i < k < n && nb@.take(t as int).contains(#[trigger] cells@[k]) ==> out@.contains(k as usize),
            decreases nb@.len() - t,
        {
            let c = nb[t];
            proof {
                lemma_neighbour_in_grid(nx as int, ny as int, cx as int, cy as int, c as int);
            }
            let ghost seen = nb@.take(t as int);
            proof {
                if seen.contains(c) {
                    let s = choose|s: int| 0 <= s < seen.len() && seen[s] == c;
                    assert(nb@[s] == nb@[t as int]);
                }
            }
            let mut j = self.head[c];
            let ghost mut m: int = n as int;
            let ghost base = out@;
            while j != EMPTY
                invariant
                    base == partners_in_order(cells@, seen, i as int),
                    out@ + chain_above(cells@, c as int, i as int, m) == base + chain_above(
                        cells@,
                        c as int,
                        i as int,
                        n as int,
                    ),
                    nx == self.nx,
                    ny == self.ny,
                    n == cells@.len(),
                    n < usize::MAX,
                    i < n,
                    c < nx * ny,
                    self.threads(cells@),
                    forall|k: int| 0 <= k < n ==> #[trigger] cells@[k] < nx * ny,
                    !seen.contains(c),
                    0 <= m <= n,
                    j as int == last_in(cells@, c as int, m),
                    out@.no_duplicates(),
                    forall|u: int|
                        0 <= u < out@.len() ==> i < #[trigger] out@[u] < n && (seen.contains(cells@[out@[u] as int]) || (
                        cells@[out@[u] as int] == c && out@[u] >= m)),
                    forall|k: int| i < k < n && seen.contains(#[trigger] cells@[k]) ==> out@.contains(k as usize),
                    forall|k: int| i < k < n && m <= k && #[trigger] cells@[k] == c ==> out@.contains(k as usize),
                decreases m,
            {
                proof {
                    lemma_last_in_gap(cells@, c as int, m);
                    lemma_chain_above_step(cells@, c as int, i as int, m);
                }
                let ghost before = out@;
                if j > i {
                    out.push(j);
                    proof {
                        assert forall|a: int, b: int| 0 <= a < b < out@.len() implies out@[a] != out@[b] by {
                            if b == out@.len() - 1 {
                                assert(out@[a] == before[a]);
                            } else {
                                assert(out@[a] == before[a] && out@[b] == before[b]);
                            }
                        }
                        assert(out@[out@.len() - 1] == j);
                    }
                }
                proof {
                    assert forall|k: int| i < k < n && j <= k && #[trigger] cells@[k] == c implies out@.contains(k as usize) by {
                        if k == j {
                            assert(out@[out@.len() - 1] == j);
                        } else {
                            assert(before.contains(k as usize));
                            let w = choose|w: int| 0 <= w < before.len() && before[w] == k as usize;
                            assert(out@[w] == before[w]);
                        }
                    }
                    assert forall|k: int| i < k < n && seen.contains(#[trigger] cells@[k]) implies out@.contains(k as usize) by {
                        assert(before.contains(k as usize));
                        let w = choose|w: int| 0 <= w < before.len() && before[w] == k as usize;
                        assert(out@[w] == before[w]);
                    }
                    assert forall|u: int| 0 <= u < out@.len() implies i < #[trigger] out@[u] < n && (seen.contains(cells@[out@[u] as int]) || (
                        cells@[out@[u] as int] == c && out@[u] >= j)) by {
                        if u < before.len() {
                            assert(out@[u] == before[u]);
                        }
                    }
                    if j > i {
                        assert(out@ + chain_above(cells@, c as int, i as int, j as int) =~= before + chain_above(
                            cells@,
                            c as int,
                            i as int,
                            m,
                        ));
                    } else {
                        assert(out@ + chain_above(cells@, c as int, i as int, j as int) =~= before + chain_above(
                            cells@,
                            c as int,
                            i as int,
                            m,
                        ));
                    }
                    m = j as int;
                }
                j = self.next[j];
            }
            proof {
                lemma_last_in_gap(cells@, c as int, m);
                lemma_chain_above_step(cells@, c as int, i as int, m);
                let next_seen = nb@.take(t + 1);
                assert(next_seen =~= seen.push(c));
                assert(next_seen.drop_last() =~= seen);
                assert(out@ =~= out@ + chain_above(cells@, c as int, i as int, m));
                assert(out@ == partners_in_order(cells@, next_seen, i as int));
                assert forall|u: int| 0 <= u < out@.len() implies i < #[trigger] out@[u] < n && next_seen.contains(cells@[out@[u] as int]) by {
                    if seen.contains(cells@[out@[u] as int]) {
                        let w = choose|w: int| 0 <= w < seen.len() && seen[w] == cells@[out@[u] as int];
                        assert(next_seen[w] == seen[w]);
                    } else {
                        assert(next_seen[t as int] == c);
                    }
                }
                assert forall|k: int| i < k < n && next_seen.contains(#[trigger] cells@[k]) implies out@.contains(k as usize) by {
                    let w = choose|w: int| 0 <= w < next_seen.len() && next_seen[w] == cells@[k];
                    if w < t {
                        assert(seen[w] == next_seen[w]);
                        assert(seen.contains(cells@[k]));
                    }
                }
            }
            t += 1;
        }
        proof {
            assert(nb@.take(nb@.len() as int) =~= nb@);
            assert(cells@[i as int] as int % nx as int == cx as int);
            assert(cells@[i as int] as int / nx as int == cy as int);
            assert forall|u: int| 0 <= u < out@.len() implies partner(nx as int, ny as int, cells@, i as int, #[trigger] out@[u] as int) by {
                let w = choose|w: int| 0 <= w < nb@.len() && nb@[w] == cells@[out@[u] as int];
                assert(is_neighbour_cell(nx as int, ny as int, cx as int, cy as int, nb@[w] as int));
            }
            assert forall|j: int| partner(nx as int, ny as int, cells@, i as int, j) implies #[trigger] out@.contains(j as usize) by {
                let (dx, dy) = choose|dx: int, dy: int|
                    #![trigger offset_cell(nx as int, ny as int, cx as int, cy as int, dx, dy)]
                    unit_step(dx) && unit_step(dy) && cells@[j] as int == offset_cell(nx as int, ny as int, cx as int, cy as int, dx, dy);
                assert(nb@.contains(offset_cell(nx as int, ny as int, cx as int, cy as int, dx, dy) as usize));
            }
        }
        out
    }
}

} // verus!
