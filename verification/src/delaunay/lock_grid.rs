//! A grid of locks over space.

use vstd::prelude::*;

verus! {

/// Most cells along one axis: the cell count must fit in `u32`.
pub const MAX_GDIM: u32 = 1625;

/// A grid of locks over space. Holding the locks of a set of cells gives the right
/// to change the tets that belong to those cells.
pub struct LockGrid {
    pub locks: Vec<bool>,
    pub gdim: u32,
}

/// Index of cell `c` in a grid with `g` cells along each axis.
pub open spec fn cell_index(g: int, c: (int, int, int)) -> int {
    (c.0 * g + c.1) * g + c.2
}

/// `c` is a cell of the grid.
pub open spec fn in_grid(g: int, c: (int, int, int)) -> bool {
    0 <= c.0 < g && 0 <= c.1 < g && 0 <= c.2 < g
}

/// Indices stay within the grid, and within `u32`.
pub proof fn cell_index_bounds(g: int, c: (int, int, int))
    requires
        in_grid(g, c),
        g <= MAX_GDIM,
    ensures
        0 <= c.0 * g,
        c.0 * g + c.1 <= u32::MAX,
        0 <= (c.0 * g + c.1) * g,
        0 <= cell_index(g, c) < g * g * g <= u32::MAX,
{
    let row = c.0 * g + c.1;
    assert(0 <= c.0 * g <= (g - 1) * g) by (nonlinear_arith)
        requires
            0 <= c.0 < g,
    ;
    assert((g - 1) * g + g == g * g) by (nonlinear_arith);
    assert(0 <= row < g * g);
    assert(0 <= row * g <= (g * g - 1) * g) by (nonlinear_arith)
        requires
            0 <= row < g * g,
            0 <= g,
    ;
    assert((g * g - 1) * g + g == g * g * g) by (nonlinear_arith);
    assert(g * g <= 1625 * 1625) by (nonlinear_arith)
        requires
            0 <= g <= 1625,
    ;
    assert(g * g * g <= 1625 * 1625 * 1625) by (nonlinear_arith)
        requires
            0 <= g <= 1625,
            0 <= g * g <= 1625 * 1625,
    ;
}

/// Cells are numbered in lexicographic order.
pub proof fn cell_index_is_monotone(g: int, a: (int, int, int), b: (int, int, int))
    requires
        in_grid(g, a),
        in_grid(g, b),
        a.0 < b.0 || (a.0 == b.0 && (a.1 < b.1 || (a.1 == b.1 && a.2 < b.2))),
    ensures
        cell_index(g, a) < cell_index(g, b),
{
    let ra = a.0 * g + a.1;
    let rb = b.0 * g + b.1;
    if a.0 < b.0 {
        assert(a.0 * g + g <= b.0 * g) by (nonlinear_arith)
            requires
                a.0 + 1 <= b.0,
                0 <= g,
        ;
    }
    if a.0 == b.0 && a.1 == b.1 {
        assert(ra == rb);
    } else {
        assert(ra < rb);
        assert(ra * g + g <= rb * g) by (nonlinear_arith)
            requires
                ra + 1 <= rb,
                0 <= g,
        ;
    }
}

/// Two cells with the same index are the same cell.
pub proof fn cell_index_is_injective(g: int, a: (int, int, int), b: (int, int, int))
    requires
        in_grid(g, a),
        in_grid(g, b),
        cell_index(g, a) == cell_index(g, b),
    ensures
        a == b,
{
    if a != b {
        if a.0 < b.0 || (a.0 == b.0 && (a.1 < b.1 || (a.1 == b.1 && a.2 < b.2))) {
            cell_index_is_monotone(g, a, b);
        } else {
            cell_index_is_monotone(g, b, a);
        }
    }
}

/// `i` is the index of a cell of the block around `center`.
pub open spec fn in_block(g: int, center: (u32, u32, u32), i: int) -> bool {
    exists|c: (int, int, int)|
        {
            &&& #[trigger] in_grid(g, c)
            &&& center.0 - 1 <= c.0 <= center.0 + 1
            &&& center.1 - 1 <= c.1 <= center.1 + 1
            &&& center.2 - 1 <= c.2 <= center.2 + 1
            &&& i == cell_index(g, c)
        }
}

/// `cells` lists the indices of the block around `center` once each, ascending.
pub open spec fn is_block(g: int, center: (u32, u32, u32), cells: Seq<usize>) -> bool {
    &&& forall|i: int, j: int| 0 <= i < j < cells.len() ==> cells[i] < cells[j]
    &&& forall|k: int| 0 <= k < cells.len() ==> in_block(g, center, #[trigger] cells[k] as int)
    &&& forall|i: int| #[trigger] in_block(g, center, i) ==> exists|k: int|
        0 <= k < cells.len() && #[trigger] cells[k] == i
}

impl LockGrid {
    pub open spec fn wf(&self) -> bool {
        &&& 0 < self.gdim <= MAX_GDIM
        &&& self.locks@.len() == self.gdim * self.gdim * self.gdim
    }

    /// A grid of `gdim` cells along each axis, none of them locked.
    pub fn new(gdim: u32) -> (r: LockGrid)
        requires
            0 < gdim <= MAX_GDIM,
        ensures
            r.wf(),
            r.gdim == gdim,
            forall|i: int| 0 <= i < r.locks@.len() ==> !#[trigger] r.locks@[i],
    {
        proof {
            cell_index_bounds(gdim as int, (0, 0, 0));
            assert(gdim * gdim <= gdim * gdim * gdim) by (nonlinear_arith)
                requires
                    0 < gdim,
            ;
        }
        let n: u32 = gdim * gdim * gdim;
        let mut locks: Vec<bool> = Vec::new();
        for i in 0..n
            invariant
                locks@.len() == i,
                forall|k: int| 0 <= k < i ==> !#[trigger] locks@[k],
        {
            locks.push(false);
        }
        LockGrid { locks, gdim }
    }

    pub fn idx(&self, c: (u32, u32, u32)) -> (i: usize)
        requires
            self.wf(),
            c.0 < self.gdim,
            c.1 < self.gdim,
            c.2 < self.gdim,
        ensures
            i == cell_index(self.gdim as int, (c.0 as int, c.1 as int, c.2 as int)),
            i < self.locks@.len(),
    {
        proof {
            cell_index_bounds(self.gdim as int, (c.0 as int, c.1 as int, c.2 as int));
        }
        ((c.0 * self.gdim + c.1) * self.gdim + c.2) as usize
    }

    /// Take the lock of `cell` if it is free.
    pub fn try_lock(&mut self, cell: usize) -> (r: bool)
        requires
            cell < old(self).locks@.len(),
        ensures
            final(self).gdim == old(self).gdim,
            r == !old(self).locks@[cell as int],
            final(self).locks@ == old(self).locks@.update(cell as int, true),
    {
        if self.locks[cell] {
            assert(self.locks@ =~= self.locks@.update(cell as int, true));
            false
        } else {
            self.locks.set(cell, true);
            true
        }
    }

    /// Give the lock of `cell` back.
    pub fn unlock(&mut self, cell: usize)
        requires
            cell < old(self).locks@.len(),
        ensures
            final(self).gdim == old(self).gdim,
            final(self).locks@ == old(self).locks@.update(cell as int, false),
    {
        self.locks.set(cell, false);
    }

    /// The indices of the 3x3x3 block around `c`, cut off at the border of the grid.
    pub fn block(&self, c: (u32, u32, u32)) -> (cells: Vec<usize>)
        requires
            self.wf(),
            c.0 < self.gdim,
            c.1 < self.gdim,
            c.2 < self.gdim,
        ensures
            is_block(self.gdim as int, c, cells@),
    {
        let g: u32 = self.gdim;
        let x0: u32 = if c.0 > 0 { c.0 - 1 } else { 0 };
        let x1: u32 = if c.0 + 1 < g { c.0 + 2 } else { g };
        let y0: u32 = if c.1 > 0 { c.1 - 1 } else { 0 };
        let y1: u32 = if c.1 + 1 < g { c.1 + 2 } else { g };
        let z0: u32 = if c.2 > 0 { c.2 - 1 } else { 0 };
        let z1: u32 = if c.2 + 1 < g { c.2 + 2 } else { g };
        let mut cells: Vec<usize> = Vec::new();
        let ghost mut coords: Seq<(int, int, int)> = Seq::empty();
        for x in x0..x1
            invariant
                self.wf(),
                g == self.gdim,
                x1 <= g,
                y0 <= y1 <= g,
                z0 <= z1 <= g,
                block_so_far(
                    g as int,
                    cells@,
                    coords,
                    (x0 as int, y0 as int, z0 as int),
                    (y1 as int, z1 as int),
                    (x as int, y0 as int, z0 as int),
                ),
        {
            for y in y0..y1
                invariant
                    self.wf(),
                    g == self.gdim,
                    x0 <= x < x1,
                    x1 <= g,
                    y0 <= y1 <= g,
                    z0 <= z1 <= g,
                    block_so_far(
                        g as int,
                        cells@,
                        coords,
                        (x0 as int, y0 as int, z0 as int),
                        (y1 as int, z1 as int),
                        (x as int, y as int, z0 as int),
                    ),
            {
                for z in z0..z1
                    invariant
                        self.wf(),
                        g == self.gdim,
                        x0 <= x < x1,
                        y0 <= y < y1,
                        x1 <= g,
                        y1 <= g,
                        z0 <= z1 <= g,
                        block_so_far(
                            g as int,
                            cells@,
                            coords,
                            (x0 as int, y0 as int, z0 as int),
                            (y1 as int, z1 as int),
                            (x as int, y as int, z as int),
                        ),
                {
                    let i: usize = self.idx((x, y, z));
                    let ghost c3 = (x as int, y as int, z as int);
                    let ghost before = cells@;
                    cells.push(i);
                    proof {
                        let old_coords = coords;
                        coords = coords.push(c3);
                        assert forall|k: int| 0 <= k < coords.len() - 1 implies #[trigger] cells@[k]
                            < cells@[coords.len() - 1] by {
                            let a = coords[k];
                            assert(old_coords[k] == a && before[k] == cells@[k]);
                            cell_index_is_monotone(g as int, a, c3);
                        }
                        assert forall|c: (int, int, int)|
                            visited_before(
                                c,
                                (x0 as int, y0 as int, z0 as int),
                                (y1 as int, z1 as int),
                                (x as int, y as int, z + 1),
                            ) implies #[trigger] coords.contains(c) by {
                            if c == c3 {
                                assert(coords[coords.len() - 1] == c);
                            } else {
                                assert(old_coords.contains(c));
                                let k = old_coords.index_of(c);
                                assert(coords[k] == c);
                            }
                        }
                    }
                }
            }
        }
        proof {
            assert forall|k: int| 0 <= k < cells@.len() implies in_block(
                g as int,
                c,
                #[trigger] cells@[k] as int,
            ) by {
                let a = coords[k];
                assert(in_grid(g as int, a));
            }
            assert forall|i: int| #[trigger] in_block(g as int, c, i) implies exists|k: int|
                0 <= k < cells@.len() && #[trigger] cells@[k] == i by {
                let a = choose|a: (int, int, int)|
                    {
                        &&& #[trigger] in_grid(g as int, a)
                        &&& c.0 - 1 <= a.0 <= c.0 + 1
                        &&& c.1 - 1 <= a.1 <= c.1 + 1
                        &&& c.2 - 1 <= a.2 <= c.2 + 1
                        &&& i == cell_index(g as int, a)
                    };
                assert(coords.contains(a));
                let k = coords.index_of(a);
                assert(cells@[k] == i);
            }
        }
        cells
    }
}

/// `c` comes before `next` when the block from `lo` is walked through.
spec fn visited_before(
    c: (int, int, int),
    lo: (int, int, int),
    hi: (int, int),
    next: (int, int, int),
) -> bool {
    &&& lo.0 <= c.0 && lo.1 <= c.1 < hi.0 && lo.2 <= c.2 < hi.1
    &&& c.0 < next.0 || (c.0 == next.0 && (c.1 < next.1 || (c.1 == next.1 && c.2 < next.2)))
}

spec fn block_so_far(
    g: int,
    cells: Seq<usize>,
    coords: Seq<(int, int, int)>,
    lo: (int, int, int),
    hi: (int, int),
    next: (int, int, int),
) -> bool {
    &&& cells.len() == coords.len()
    &&& forall|k: int|
        #![trigger coords[k]]
        #![trigger cells[k]]
        0 <= k < cells.len() ==> {
            &&& cells[k] == cell_index(g, coords[k])
            &&& in_grid(g, coords[k])
            &&& visited_before(coords[k], lo, hi, next)
        }
    &&& forall|i: int, j: int| 0 <= i < j < cells.len() ==> cells[i] < cells[j]
    &&& forall|c: (int, int, int)|
        visited_before(c, lo, hi, next) ==> #[trigger] coords.contains(c)
}

/// The cells of a block are those of the grid that are at most one away from its centre along each
/// axis.
pub proof fn blocks_hold_the_nearest_cells(g: int, center: (u32, u32, u32), c: (int, int, int))
    requires
        0 <= c.0 < g,
        0 <= c.1 < g,
        0 <= c.2 < g,
    ensures
        in_block(g, center, (c.0 * g + c.1) * g + c.2) <==> -1 <= c.0 - center.0 <= 1 && -1 <= c.1
            - center.1 <= 1 && -1 <= c.2 - center.2 <= 1,
{
    let i = cell_index(g, c);
    assert(in_grid(g, c));
    if in_block(g, center, i) {
        let d = choose|d: (int, int, int)|
            {
                &&& #[trigger] in_grid(g, d)
                &&& center.0 - 1 <= d.0 <= center.0 + 1
                &&& center.1 - 1 <= d.1 <= center.1 + 1
                &&& center.2 - 1 <= d.2 <= center.2 + 1
                &&& i == cell_index(g, d)
            };
        cell_index_is_injective(g, c, d);
    }
}

} // verus!
