//! Breadth-first flood fill over a grid, with a table of marks for the cells that earlier
//! fills have claimed.

use crate::connectivity::{
    adjacent, connected, is_closed, is_region, is_region_list, lemma_closed_set_holds_connected,
    lemma_connected_refl, lemma_connected_step, lemma_connected_sym, lemma_connected_trans,
    lemma_region_first, lemma_region_is_component,
};
use crate::matrix::{
    holds, in_grid, is_rectangular, scans_before, tile, tiles, Dimension, Grid, Matrix, Position,
};
use std::collections::VecDeque;
use vstd::prelude::*;

verus! {

/// The marks that a table holds, row by row.
pub open spec fn marks(table: &Vec<Vec<bool>>) -> Seq<Seq<bool>> {
    Seq::new(table@.len(), |i: int| table@[i]@)
}

/// `m` has a mark for every cell of `g` and no other.
pub open spec fn covers(m: Seq<Seq<bool>>, g: Grid) -> bool {
    &&& m.len() == g.len()
    &&& forall|i: int| 0 <= i < m.len() ==> (#[trigger] m[i]).len() == g[i].len()
}

/// The cell at `p` is marked.
pub open spec fn is_marked(m: Seq<Seq<bool>>, p: Position) -> bool {
    p.row < m.len() && p.col < m[p.row as int].len() && m[p.row as int][p.col as int]
}

/// The marked cells.
pub open spec fn marked_set(m: Seq<Seq<bool>>) -> Set<Position> {
    Set::new(|p: Position| is_marked(m, p))
}

/// How many cells of a row are not marked.
pub open spec fn unmarked_in_row(r: Seq<bool>) -> nat
    decreases r.len(),
{
    if r.len() == 0 {
        0
    } else {
        unmarked_in_row(r.drop_last()) + (if r.last() {
            0nat
        } else {
            1nat
        })
    }
}

/// How many cells are not marked.
pub open spec fn unmarked(m: Seq<Seq<bool>>) -> nat
    decreases m.len(),
{
    if m.len() == 0 {
        0
    } else {
        unmarked(m.drop_last()) + unmarked_in_row(m.last())
    }
}

/// Marking a cell of a row leaves one unmarked cell fewer.
proof fn lemma_mark_in_row(r: Seq<bool>, j: int)
    requires
        0 <= j < r.len(),
        !r[j],
    ensures
        unmarked_in_row(r.update(j, true)) + 1 == unmarked_in_row(r),
    decreases r.len(),
{
    let r2 = r.update(j, true);
    if j == r.len() - 1 {
        assert(r2.drop_last() =~= r.drop_last());
    } else {
        lemma_mark_in_row(r.drop_last(), j);
        assert(r2.drop_last() =~= r.drop_last().update(j, true));
    }
}

/// Marking a cell leaves one unmarked cell fewer.
proof fn lemma_mark(m: Seq<Seq<bool>>, i: int, j: int)
    requires
        0 <= i < m.len(),
        0 <= j < m[i].len(),
        !m[i][j],
    ensures
        unmarked(m.update(i, m[i].update(j, true))) + 1 == unmarked(m),
    decreases m.len(),
{
    let m2 = m.update(i, m[i].update(j, true));
    if i == m.len() - 1 {
        assert(m2.drop_last() =~= m.drop_last());
        lemma_mark_in_row(m[i], j);
    } else {
        lemma_mark(m.drop_last(), i, j);
        assert(m2.drop_last() =~= m.drop_last().update(i, m[i].update(j, true)));
    }
}

/// A table of the given extent with no cell marked.
pub fn blank_table(dims: &Dimension) -> (table: Vec<Vec<bool>>)
    ensures
        marks(&table).len() == dims.rows,
        forall|i: int| 0 <= i < dims.rows ==> (#[trigger] marks(&table)[i]).len() == dims.cols,
        forall|p: Position| !is_marked(marks(&table), p),
{
    let mut table: Vec<Vec<bool>> = Vec::new();
    let mut i: usize = 0;
    while i < dims.rows
        invariant
            i <= dims.rows,
            table@.len() == i,
            forall|k: int| 0 <= k < i ==> (#[trigger] table@[k])@.len() == dims.cols,
            forall|k: int, c: int| 0 <= k < i && 0 <= c < dims.cols ==> !(#[trigger] table@[k]@[c]),
        decreases dims.rows - i,
    {
        let mut row: Vec<bool> = Vec::new();
        let mut j: usize = 0;
        while j < dims.cols
            invariant
                j <= dims.cols,
                row@.len() == j,
                forall|c: int| 0 <= c < j ==> !(#[trigger] row@[c]),
            decreases dims.cols - j,
        {
            row.push(false);
            j += 1;
        }
        table.push(row);
        i += 1;
    }
    table
}

/// Appends `candidate` to the queue if it is a cell that holds `value`.
fn push_if_holds(
    matrix: &Matrix,
    value: u8,
    candidate: Option<Position>,
    deque: &mut VecDeque<Position>,
)
    requires
        candidate matches Some(n) ==> in_grid(tiles(matrix), n),
    ensures
        final(deque)@ == (match candidate {
            Some(n) => if tile(tiles(matrix), n) == value {
                old(deque)@.push(n)
            } else {
                old(deque)@
            },
            None => old(deque)@,
        }),
{
    if let Some(n) = candidate {
        if matrix[n.row][n.col] == value {
            deque.push_back(n);
        }
    }
}

/// Collects the region of `seed`, breadth first, and marks its cells in `table`.
///
/// The table must hold whole regions only, and not the one of `seed`. The region comes
/// back with `seed` first and every cell once.
pub fn flood_fill(
    matrix: &Matrix,
    value: u8,
    dims: &Dimension,
    table: &mut Vec<Vec<bool>>,
    seed: Position,
) -> (region: Vec<Position>)
    requires
        is_rectangular(tiles(matrix)),
        dims.rows == tiles(matrix).len(),
        dims.cols == tiles(matrix)[0].len(),
        covers(marks(old(table)), tiles(matrix)),
        is_closed(tiles(matrix), value, marked_set(marks(old(table)))),
        holds(tiles(matrix), value, seed),
        !is_marked(marks(old(table)), seed),
    ensures
        covers(marks(final(table)), tiles(matrix)),
        is_closed(tiles(matrix), value, marked_set(marks(final(table)))),
        is_region(tiles(matrix), value, region@),
        region@[0] == seed,
        forall|p: Position|
            #![trigger is_marked(marks(final(table)), p)]
            #![trigger region@.contains(p)]
            is_marked(marks(final(table)), p) <==> is_marked(marks(old(table)), p)
                || region@.contains(p),
        forall|p: Position|
            #![trigger region@.contains(p)]
            region@.contains(p) ==> !is_marked(marks(old(table)), p),
{
    let ghost g = tiles(matrix);
    let ghost start = marks(table);
    let mut region: Vec<Position> = Vec::new();
    let mut deque: VecDeque<Position> = VecDeque::new();
    deque.push_back(seed);
    proof {
        lemma_connected_refl(g, value, seed);
        assert(deque@ =~= seq![seed]);
    }
    while deque.len() > 0
        invariant
            g == tiles(matrix),
            is_rectangular(g),
            dims.rows == g.len(),
            dims.cols == g[0].len(),
            covers(start, g),
            covers(marks(table), g),
            is_closed(g, value, marked_set(start)),
            holds(g, value, seed),
            !is_marked(start, seed),
            forall|p: Position|
                #![trigger is_marked(marks(table), p)]
                #![trigger region@.contains(p)]
                is_marked(marks(table), p) <==> is_marked(start, p) || region@.contains(p),
            region@.no_duplicates(),
            forall|p: Position|
                #![trigger region@.contains(p)]
                region@.contains(p) ==> !is_marked(start, p) && connected(g, value, seed, p),
            forall|k: int|
                0 <= k < deque@.len() ==> holds(g, value, #[trigger] deque@[k]) && connected(
                    g,
                    value,
                    seed,
                    deque@[k],
                ),
            forall|p: Position, q: Position|
                #![trigger region@.contains(p), adjacent(p, q)]
                region@.contains(p) && holds(g, value, q) && adjacent(p, q) ==> region@.contains(q)
                    || deque@.contains(q),
            region@.len() == 0 ==> deque@ =~= seq![seed],
            region@.len() > 0 ==> region@[0] == seed,
        decreases unmarked(marks(table)), deque@.len(),
    {
        let ghost queue_before = deque@;
        let ghost region_before = region@;
        let ghost marks_before = marks(table);
        let pos = match deque.pop_front() {
            Some(p) => p,
            None => {
                assert(false);
                seed
            },
        };
        let ghost rest = deque@;
        proof {
            assert(pos == queue_before[0]);
            assert(holds(g, value, pos) && connected(g, value, seed, pos));
            assert(marks_before[pos.row as int].len() == g[pos.row as int].len());
            assert forall|k: int| 0 <= k < rest.len() implies holds(g, value, #[trigger] rest[k])
                && connected(g, value, seed, rest[k]) by {
                assert(rest[k] == queue_before[k + 1]);
            }
            assert forall|q: Position| queue_before.contains(q) implies q == pos || rest.contains(
                q,
            ) by {
                let k = choose|k: int| 0 <= k < queue_before.len() && queue_before[k] == q;
                if k > 0 {
                    assert(rest[k - 1] == q);
                }
            }
            if is_marked(start, pos) {
                lemma_connected_sym(g, value, seed, pos);
                assert(marked_set(start).contains(pos));
                lemma_closed_set_holds_connected(g, value, marked_set(start), pos, seed);
                assert(marked_set(start).contains(seed));
            }
        }
        if !table[pos.row][pos.col] {
            region.push(pos);
            table[pos.row][pos.col] = true;
            proof {
                let r = pos.row as int;
                let c = pos.col as int;
                assert(marks(table) =~~= marks_before.update(r, marks_before[r].update(c, true)));
                lemma_mark(marks_before, r, c);
                assert(!region_before.contains(pos));
                assert forall|p: Position|
                    #![trigger region@.contains(p)]
                    region@.contains(p) <==> region_before.contains(p) || p == pos by {
                    vstd::seq_lib::lemma_seq_contains_after_push(region_before, pos, p);
                }
                assert forall|a: int, b: int|
                    0 <= a < region@.len() && 0 <= b < region@.len() && a != b implies region@[a]
                    != region@[b] by {
                    if a < region_before.len() {
                        assert(region_before.contains(region@[a]));
                    }
                    if b < region_before.len() {
                        assert(region_before.contains(region@[b]));
                    }
                }
                assert forall|p: Position|
                    #![trigger is_marked(marks(table), p)]
                    #![trigger region@.contains(p)]
                    is_marked(marks(table), p) <==> is_marked(start, p) || region@.contains(p) by {
                    assert(is_marked(marks(table), p) <==> is_marked(marks_before, p) || p == pos);
                }
                assert(covers(marks(table), g));
            }
            let above = pos.up(dims);
            let below = pos.down(dims);
            let left = pos.left(dims);
            let right = pos.right(dims);
            proof {
                assert(g[pos.row as int].len() == g[0].len());
                assert(above matches Some(n) ==> g[n.row as int].len() == g[0].len());
                assert(below matches Some(n) ==> g[n.row as int].len() == g[0].len());
            }
            push_if_holds(matrix, value, above, &mut deque);
            let ghost q1 = deque@;
            push_if_holds(matrix, value, below, &mut deque);
            let ghost q2 = deque@;
            push_if_holds(matrix, value, left, &mut deque);
            let ghost q3 = deque@;
            push_if_holds(matrix, value, right, &mut deque);
            proof {
                let q4 = deque@;
                assert forall|x: Position| q4.contains(x) <==> rest.contains(x) || (holds(
                    g,
                    value,
                    x,
                ) && adjacent(pos, x)) by {
                    if let Some(n) = above {
                        vstd::seq_lib::lemma_seq_contains_after_push(rest, n, x);
                    }
                    if let Some(n) = below {
                        vstd::seq_lib::lemma_seq_contains_after_push(q1, n, x);
                    }
                    if let Some(n) = left {
                        vstd::seq_lib::lemma_seq_contains_after_push(q2, n, x);
                    }
                    if let Some(n) = right {
                        vstd::seq_lib::lemma_seq_contains_after_push(q3, n, x);
                    }
                    if holds(g, value, x) && adjacent(pos, x) {
                        assert(above == Some(x) || below == Some(x) || left == Some(x) || right
                            == Some(x));
                    }
                }
                assert forall|k: int| 0 <= k < q4.len() implies holds(g, value, #[trigger] q4[k])
                    && connected(g, value, seed, q4[k]) by {
                    let x = q4[k];
                    assert(q4.contains(x));
                    if rest.contains(x) {
                        let w = choose|w: int| 0 <= w < rest.len() && rest[w] == x;
                        assert(connected(g, value, seed, rest[w]));
                    } else {
                        lemma_connected_step(g, value, pos, x);
                        lemma_connected_trans(g, value, seed, pos, x);
                    }
                }
                assert forall|p: Position, q: Position|
                    #![trigger region@.contains(p), adjacent(p, q)]
                    region@.contains(p) && holds(g, value, q) && adjacent(p, q) implies region@.contains(
                    q,
                ) || q4.contains(q) by {
                    if region_before.contains(p) {
                        assert(region_before.contains(q) || queue_before.contains(q));
                    }
                }
            }
        } else {
            proof {
                assert(is_marked(marks_before, pos));
                assert(region@.contains(pos));
                assert forall|p: Position, q: Position|
                    #![trigger region@.contains(p), adjacent(p, q)]
                    region@.contains(p) && holds(g, value, q) && adjacent(p, q) implies region@.contains(
                    q,
                ) || rest.contains(q) by {
                    assert(region_before.contains(q) || queue_before.contains(q));
                }
            }
        }
    }
    proof {
        reveal(is_region);
        assert(region@.len() > 0);
        let s = region@.to_set();
        assert(s.contains(seed)) by {
            assert(region@[0] == seed);
        }
        assert(is_closed(g, value, s)) by {
            assert forall|a: Position, b: Position|
                #![trigger s.contains(a), adjacent(a, b)]
                s.contains(a) && holds(g, value, b) && adjacent(a, b) implies s.contains(b) by {
                assert(region@.contains(a));
                assert(region@.contains(b) || deque@.contains(b));
            }
        }
        assert(region@[0] == seed);
        assert forall|p: Position| region@.contains(p) <==> connected(g, value, region@[0], p) by {
            if connected(g, value, seed, p) {
                lemma_closed_set_holds_connected(g, value, s, seed, p);
                assert(s.contains(p));
            }
        }
        let after = marked_set(marks(table));
        assert forall|a: Position, b: Position|
            #![trigger after.contains(a), adjacent(a, b)]
            after.contains(a) && holds(g, value, b) && adjacent(a, b) implies after.contains(b) by {
            if is_marked(start, a) {
                assert(marked_set(start).contains(a));
                assert(marked_set(start).contains(b));
            } else {
                assert(region@.contains(a));
                assert(region@.contains(b) || deque@.contains(b));
            }
        }
    }
    region
}

/// `p` lies before the cell at (`i`, `j`) when the grid is read row by row.
pub open spec fn scanned(p: Position, i: int, j: int) -> bool {
    p.row < i || (p.row == i && p.col < j)
}

/// What holds while the scan for regions stands before the cell at (`i`, `j`): the
/// marked cells are those of the regions found so far, every cell behind the scan that
/// holds `value` is among them, and the regions are whole and in scan order.
pub open spec fn scan_state(
    g: Grid,
    value: u8,
    m: Seq<Seq<bool>>,
    rs: Seq<Seq<Position>>,
    i: int,
    j: int,
) -> bool {
    &&& covers(m, g)
    &&& is_closed(g, value, marked_set(m))
    &&& forall|p: Position|
        #![trigger is_marked(m, p)]
        is_marked(m, p) ==> exists|k: int| 0 <= k < rs.len() && #[trigger] rs[k].contains(p)
    &&& forall|k: int, p: Position|
        0 <= k < rs.len() && #[trigger] rs[k].contains(p) ==> is_marked(m, p)
    &&& forall|p: Position|
        #![trigger holds(g, value, p)]
        holds(g, value, p) && scanned(p, i, j) ==> is_marked(m, p)
    &&& forall|k: int|
        0 <= k < rs.len() ==> is_region(g, value, #[trigger] rs[k]) && scanned(rs[k][0], i, j)
    &&& forall|k: int, p: Position|
        0 <= k < rs.len() && #[trigger] rs[k].contains(p) ==> p == rs[k][0] || scans_before(
            rs[k][0],
            p,
        )
    &&& forall|a: int, b: int|
        0 <= a < b < rs.len() ==> scans_before((#[trigger] rs[a])[0], (#[trigger] rs[b])[0])
}

/// The scan moves past a cell that starts no region.
pub proof fn lemma_scan_passes(
    g: Grid,
    value: u8,
    m: Seq<Seq<bool>>,
    rs: Seq<Seq<Position>>,
    i: int,
    j: int,
)
    requires
        scan_state(g, value, m, rs, i, j),
        0 <= i < g.len(),
        0 <= j < g[i].len(),
        g[i][j] != value || m[i][j],
    ensures
        scan_state(g, value, m, rs, i, j + 1),
{
    assert forall|p: Position|
        #![trigger holds(g, value, p)]
        holds(g, value, p) && scanned(p, i, j + 1) implies is_marked(m, p) by {
        if !scanned(p, i, j) {
            assert(p.row == i && p.col == j);
        }
    }
}

/// The scan takes in the region that a flood fill from the cell at (`i`, `j`) found.
pub proof fn lemma_scan_takes(
    g: Grid,
    value: u8,
    m: Seq<Seq<bool>>,
    m2: Seq<Seq<bool>>,
    rs: Seq<Seq<Position>>,
    region: Seq<Position>,
    i: int,
    j: int,
)
    requires
        scan_state(g, value, m, rs, i, j),
        0 <= i < g.len(),
        0 <= j < g[i].len(),
        covers(m2, g),
        is_closed(g, value, marked_set(m2)),
        is_region(g, value, region),
        region[0].row == i,
        region[0].col == j,
        forall|p: Position|
            #![trigger is_marked(m2, p)]
            #![trigger region.contains(p)]
            is_marked(m2, p) <==> is_marked(m, p) || region.contains(p),
        forall|p: Position| #![trigger region.contains(p)] region.contains(p) ==> !is_marked(m, p),
    ensures
        scan_state(g, value, m2, rs.push(region), i, j + 1),
{
    let rs2 = rs.push(region);
    let n = rs.len() as int;
    lemma_region_first(g, value, region);
    assert(rs2[n] == region);
    assert forall|k: int| 0 <= k < n implies #[trigger] rs2[k] == rs[k] by {}
    assert forall|p: Position|
        #![trigger is_marked(m2, p)]
        is_marked(m2, p) implies exists|k: int| 0 <= k < rs2.len() && #[trigger] rs2[k].contains(
        p,
    ) by {
        if is_marked(m, p) {
            let k = choose|k: int| 0 <= k < rs.len() && #[trigger] rs[k].contains(p);
            assert(rs2[k].contains(p));
        } else {
            assert(rs2[n].contains(p));
        }
    }
    assert forall|k: int, p: Position|
        0 <= k < rs2.len() && #[trigger] rs2[k].contains(p) implies is_marked(m2, p) by {
        if k < n {
            assert(rs[k].contains(p));
        }
    }
    assert forall|p: Position|
        #![trigger holds(g, value, p)]
        holds(g, value, p) && scanned(p, i, j + 1) implies is_marked(m2, p) by {
        if scanned(p, i, j) {
            assert(is_marked(m, p));
        } else {
            assert(p == region[0]);
            assert(region.contains(p));
        }
    }
    assert forall|k: int| 0 <= k < rs2.len() implies is_region(g, value, #[trigger] rs2[k])
        && scanned(rs2[k][0], i, j + 1) by {
        if k < n {
            assert(is_region(g, value, rs[k]) && scanned(rs[k][0], i, j));
        }
    }
    assert forall|k: int, p: Position|
        0 <= k < rs2.len() && #[trigger] rs2[k].contains(p) implies p == rs2[k][0] || scans_before(
        rs2[k][0],
        p,
    ) by {
        if k < n {
            assert(rs[k].contains(p));
        } else {
            // A cell of the new region that lay behind the scan would have been marked.
            assert(region.contains(p));
            lemma_region_is_component(g, value, region, p, p);
            if scanned(p, i, j) {
                assert(is_marked(m, p));
            }
        }
    }
    assert forall|a: int, b: int| 0 <= a < b < rs2.len() implies scans_before(
        (#[trigger] rs2[a])[0],
        (#[trigger] rs2[b])[0],
    ) by {
        if b < n {
            assert(scans_before(rs[a][0], rs[b][0]));
        } else {
            assert(is_region(g, value, rs[a]) && scanned(rs[a][0], i, j));
        }
    }
}

/// Once the scan is through, the regions found are the regions of the grid.
pub proof fn lemma_scan_done(g: Grid, value: u8, m: Seq<Seq<bool>>, rs: Seq<Seq<Position>>)
    requires
        scan_state(g, value, m, rs, g.len() as int, 0),
    ensures
        is_region_list(g, value, rs),
{
    assert forall|p: Position| holds(g, value, p) implies exists|k: int|
        0 <= k < rs.len() && #[trigger] rs[k].contains(p) by {
        assert(scanned(p, g.len() as int, 0));
        assert(is_marked(m, p));
    }
}

/// Before the scan starts, with no cell marked and no region found.
pub proof fn lemma_scan_starts(g: Grid, value: u8, m: Seq<Seq<bool>>)
    requires
        covers(m, g),
        forall|p: Position| !is_marked(m, p),
    ensures
        scan_state(g, value, m, Seq::<Seq<Position>>::empty(), 0, 0),
{
}

/// At the end of a row the scan stands before the next one.
pub proof fn lemma_scan_next_row(
    g: Grid,
    value: u8,
    m: Seq<Seq<bool>>,
    rs: Seq<Seq<Position>>,
    i: int,
)
    requires
        is_rectangular(g),
        0 <= i < g.len(),
        scan_state(g, value, m, rs, i, g[0].len() as int),
    ensures
        scan_state(g, value, m, rs, i + 1, 0),
{
    let j = g[0].len() as int;
    assert forall|p: Position|
        #![trigger holds(g, value, p)]
        holds(g, value, p) && scanned(p, i + 1, 0) implies is_marked(m, p) by {
        assert(g[p.row as int].len() == g[0].len());
        assert(scanned(p, i, j));
    }
    assert forall|k: int| 0 <= k < rs.len() implies is_region(g, value, #[trigger] rs[k])
        && scanned(rs[k][0], i + 1, 0) by {
        assert(is_region(g, value, rs[k]) && scanned(rs[k][0], i, j));
    }
}

} // verus!
