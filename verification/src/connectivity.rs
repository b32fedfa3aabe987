//! Four-way connection between cells that hold the same tile, and what it means for a
//! list of cell lists to be the regions of a grid.

use crate::matrix::{
    cell, holds, in_grid, is_addressable, is_contour, is_rectangular, scans_before, tile, Grid,
    Position,
};
use vstd::prelude::*;

verus! {

/// `p` and `q` share a side.
pub open spec fn adjacent(p: Position, q: Position) -> bool {
    ||| (p.row == q.row && p.col + 1 == q.col)
    ||| (p.row == q.row && q.col + 1 == p.col)
    ||| (p.col == q.col && p.row + 1 == q.row)
    ||| (p.col == q.col && q.row + 1 == p.row)
}

/// `path` is a walk over cells of `g` that hold `value`, each step to a cell that shares
/// a side with the one before.
pub open spec fn is_path(g: Grid, value: u8, path: Seq<Position>) -> bool {
    &&& path.len() > 0
    &&& forall|i: int| 0 <= i < path.len() ==> holds(g, value, #[trigger] path[i])
    &&& forall|i: int| 0 <= i < path.len() - 1 ==> adjacent(#[trigger] path[i], path[i + 1])
}

/// `path` is such a walk from `p` to `q`.
pub open spec fn joins(g: Grid, value: u8, path: Seq<Position>, p: Position, q: Position) -> bool {
    is_path(g, value, path) && path[0] == p && path[path.len() - 1] == q
}

/// Some walk over cells that hold `value` leads from `p` to `q`.
pub open spec fn connected(g: Grid, value: u8, p: Position, q: Position) -> bool {
    exists|path: Seq<Position>| #[trigger] joins(g, value, path, p, q)
}

/// The cells that `p` is connected to.
pub open spec fn component(g: Grid, value: u8, p: Position) -> Set<Position> {
    Set::new(|q: Position| connected(g, value, p, q))
}

/// How many cells the region of `p` has.
pub open spec fn region_size(g: Grid, value: u8, p: Position) -> nat {
    component(g, value, p).len()
}

/// In a rectangular grid that positions can address, a cell is a contour cell of `value`
/// exactly if it holds `value` and shares a side with a cell of the grid that holds
/// something else.
pub proof fn lemma_contour_touches_other_value(g: Grid, value: u8, p: Position)
    requires
        is_rectangular(g),
        is_addressable(g),
    ensures
        is_contour(g, value, p) <==> holds(g, value, p) && exists|q: Position|
            in_grid(g, q) && #[trigger] adjacent(p, q) && tile(g, q) != value,
{
    if holds(g, value, p) {
        let r = p.row as int;
        let c = p.col as int;
        assert(g[r].len() == g[0].len());
        if is_contour(g, value, p) {
            let q = if r > 0 && g[r - 1][c] != value {
                cell(r - 1, c)
            } else if r + 1 < g.len() && g[r + 1][c] != value {
                cell(r + 1, c)
            } else if c > 0 && g[r][c - 1] != value {
                cell(r, c - 1)
            } else {
                cell(r, c + 1)
            };
            assert(g[q.row as int].len() == g[0].len());
            assert(in_grid(g, q) && adjacent(p, q) && tile(g, q) != value);
        }
        if exists|q: Position| in_grid(g, q) && #[trigger] adjacent(p, q) && tile(g, q) != value {
            let q = choose|q: Position|
                in_grid(g, q) && #[trigger] adjacent(p, q) && tile(g, q) != value;
            assert(g[q.row as int].len() == g[0].len());
        }
    }
}

/// From a cell of `s`, a step to a cell that holds `value` never leaves `s`.
pub open spec fn is_closed(g: Grid, value: u8, s: Set<Position>) -> bool {
    forall|a: Position, b: Position|
        #![trigger s.contains(a), adjacent(a, b)]
        s.contains(a) && holds(g, value, b) && adjacent(a, b) ==> s.contains(b)
}

/// A cell that holds `value` is connected to itself.
pub proof fn lemma_connected_refl(g: Grid, value: u8, p: Position)
    requires
        holds(g, value, p),
    ensures
        connected(g, value, p, p),
{
    let path = seq![p];
    assert(joins(g, value, path, p, p));
}

/// Two cells that hold `value` and share a side are connected.
pub proof fn lemma_connected_step(g: Grid, value: u8, p: Position, q: Position)
    requires
        holds(g, value, p),
        holds(g, value, q),
        adjacent(p, q),
    ensures
        connected(g, value, p, q),
{
    let path = seq![p, q];
    assert(joins(g, value, path, p, q));
}

/// Connected cells lie in the grid and hold `value`.
pub proof fn lemma_connected_holds(g: Grid, value: u8, p: Position, q: Position)
    requires
        connected(g, value, p, q),
    ensures
        holds(g, value, p),
        holds(g, value, q),
{
    let path = choose|path: Seq<Position>| joins(g, value, path, p, q);
    assert(holds(g, value, path[0]));
    assert(holds(g, value, path[path.len() - 1]));
}

/// Connection goes both ways.
pub proof fn lemma_connected_sym(g: Grid, value: u8, p: Position, q: Position)
    requires
        connected(g, value, p, q),
    ensures
        connected(g, value, q, p),
{
    let path = choose|path: Seq<Position>| joins(g, value, path, p, q);
    let n = path.len() as int;
    let back = Seq::new(path.len(), |i: int| path[n - 1 - i]);
    assert forall|i: int| 0 <= i < back.len() implies holds(g, value, #[trigger] back[i]) by {
        assert(holds(g, value, path[n - 1 - i]));
    }
    assert forall|i: int| 0 <= i < back.len() - 1 implies adjacent(
        #[trigger] back[i],
        back[i + 1],
    ) by {
        assert(adjacent(path[n - 2 - i], path[n - 2 - i + 1]));
    }
    assert(joins(g, value, back, q, p));
}

/// Connection carries over a cell in between.
pub proof fn lemma_connected_trans(g: Grid, value: u8, p: Position, q: Position, r: Position)
    requires
        connected(g, value, p, q),
        connected(g, value, q, r),
    ensures
        connected(g, value, p, r),
{
    let a = choose|path: Seq<Position>| joins(g, value, path, p, q);
    let b = choose|path: Seq<Position>| joins(g, value, path, q, r);
    let n = a.len() as int;
    let path = Seq::new((a.len() + b.len() - 1) as nat, |i: int| if i < n { a[i] } else { b[i - n + 1] });
    assert forall|i: int| 0 <= i < path.len() implies holds(g, value, #[trigger] path[i]) by {
        if i < n {
            assert(holds(g, value, a[i]));
        } else {
            assert(holds(g, value, b[i - n + 1]));
        }
    }
    assert forall|i: int| 0 <= i < path.len() - 1 implies adjacent(
        #[trigger] path[i],
        path[i + 1],
    ) by {
        if i + 1 < n {
            assert(adjacent(a[i], a[i + 1]));
        } else if i + 1 == n {
            assert(a[n - 1] == b[0]);
            assert(adjacent(b[0], b[0int + 1]));
        } else {
            assert(adjacent(b[i - n + 1], b[i - n + 1 + 1]));
        }
    }
    assert(joins(g, value, path, p, r));
}

/// Connected cells have the same region.
pub proof fn lemma_connected_same_component(g: Grid, value: u8, p: Position, q: Position)
    requires
        connected(g, value, p, q),
    ensures
        component(g, value, p) == component(g, value, q),
{
    lemma_connected_sym(g, value, p, q);
    assert forall|x: Position| component(g, value, p).contains(x) <==> component(
        g,
        value,
        q,
    ).contains(x) by {
        if connected(g, value, p, x) {
            lemma_connected_trans(g, value, q, p, x);
        }
        if connected(g, value, q, x) {
            lemma_connected_trans(g, value, p, q, x);
        }
    }
    assert(component(g, value, p) =~= component(g, value, q));
}

/// A walk leads from its first cell to each of its cells.
pub proof fn lemma_path_prefix(g: Grid, value: u8, path: Seq<Position>, i: int)
    requires
        is_path(g, value, path),
        0 <= i < path.len(),
    ensures
        connected(g, value, path[0], path[i]),
{
    let head = path.subrange(0, i + 1);
    assert forall|k: int| 0 <= k < head.len() implies holds(g, value, #[trigger] head[k]) by {
        assert(holds(g, value, path[k]));
    }
    assert forall|k: int| 0 <= k < head.len() - 1 implies adjacent(#[trigger] head[k], head[k + 1]) by {
        assert(adjacent(path[k], path[k + 1]));
    }
    assert(joins(g, value, head, path[0], path[i]));
}

/// A walk in one grid is a walk in another grid in which its cells hold the value too.
pub proof fn lemma_path_carries_over(g: Grid, h: Grid, value: u8, other: u8, path: Seq<Position>)
    requires
        is_path(g, value, path),
        forall|i: int| 0 <= i < path.len() ==> holds(h, other, #[trigger] path[i]),
    ensures
        is_path(h, other, path),
{
    assert forall|i: int| 0 <= i < path.len() - 1 implies adjacent(#[trigger] path[i], path[i + 1]) by {
        assert(adjacent(path[i], path[i + 1]));
    }
}

/// A walk that starts inside a closed set stays inside it.
proof fn lemma_path_stays_inside(g: Grid, value: u8, s: Set<Position>, path: Seq<Position>, i: int)
    requires
        is_path(g, value, path),
        is_closed(g, value, s),
        s.contains(path[0]),
        0 <= i < path.len(),
    ensures
        s.contains(path[i]),
    decreases i,
{
    if i > 0 {
        lemma_path_stays_inside(g, value, s, path, i - 1);
        assert(adjacent(path[i - 1], path[i - 1 + 1]));
        assert(holds(g, value, path[i]));
    }
}

/// A closed set holds every cell that one of its cells is connected to.
pub proof fn lemma_closed_set_holds_connected(
    g: Grid,
    value: u8,
    s: Set<Position>,
    p: Position,
    q: Position,
)
    requires
        is_closed(g, value, s),
        s.contains(p),
        connected(g, value, p, q),
    ensures
        s.contains(q),
{
    let path = choose|path: Seq<Position>| joins(g, value, path, p, q);
    lemma_path_stays_inside(g, value, s, path, path.len() - 1);
}

/// The cells of a rectangular grid, row by row.
pub open spec fn cells_of(g: Grid) -> Seq<Position> {
    Seq::new(
        (g.len() * g[0].len()) as nat,
        |k: int| cell(k / (g[0].len() as int), k % (g[0].len() as int)),
    )
}

/// Every cell of a rectangular grid is among its cells as listed.
pub proof fn lemma_cell_is_listed(g: Grid, p: Position)
    requires
        is_rectangular(g),
        in_grid(g, p),
    ensures
        cells_of(g).contains(p),
{
    let rows = g.len() as int;
    let cols = g[0].len() as int;
    let r = p.row as int;
    let c = p.col as int;
    let k = r * cols + c;
    assert(g[r].len() == cols);
    assert(0 <= k < rows * cols) by (nonlinear_arith)
        requires
            0 <= r < rows,
            0 <= c < cols,
            k == r * cols + c,
    ;
    vstd::arithmetic::div_mod::lemma_fundamental_div_mod_converse(k, cols, r, c);
    assert(cells_of(g)[k] == p);
}

/// A region of a rectangular grid is finite: it has no more cells than the grid.
pub proof fn lemma_region_is_finite(g: Grid, value: u8, p: Position)
    requires
        is_rectangular(g),
    ensures
        component(g, value, p).finite(),
        region_size(g, value, p) <= g.len() * g[0].len(),
{
    let all = cells_of(g).to_set();
    let part = component(g, value, p);
    vstd::seq_lib::seq_to_set_is_finite(cells_of(g));
    assert forall|q: Position| part.contains(q) implies all.contains(q) by {
        lemma_connected_holds(g, value, p, q);
        lemma_cell_is_listed(g, q);
    }
    vstd::set_lib::lemma_len_subset(part, all);
    cells_of(g).lemma_cardinality_of_set();
}

/// A cell that is connected to three other cells has a region of four cells at least.
pub proof fn lemma_region_of_four(
    g: Grid,
    value: u8,
    p: Position,
    a: Position,
    b: Position,
    c: Position,
)
    requires
        is_rectangular(g),
        connected(g, value, p, a),
        connected(g, value, p, b),
        connected(g, value, p, c),
        p != a && p != b && p != c && a != b && a != c && b != c,
    ensures
        region_size(g, value, p) >= 4,
{
    broadcast use vstd::set::group_set_axioms;

    let four = Set::<Position>::empty().insert(p).insert(a).insert(b).insert(c);
    let part = component(g, value, p);
    lemma_connected_holds(g, value, p, a);
    lemma_connected_refl(g, value, p);
    lemma_region_is_finite(g, value, p);
    assert(four.len() == 4);
    assert(four.subset_of(part));
    vstd::set_lib::lemma_len_subset(four, part);
}

/// `r` lists one whole region, each cell once: the cells that its first cell is connected
/// to.
#[verifier::opaque]
pub open spec fn is_region(g: Grid, value: u8, r: Seq<Position>) -> bool {
    &&& r.len() > 0
    &&& r.no_duplicates()
    &&& holds(g, value, r[0])
    &&& forall|p: Position| r.contains(p) <==> connected(g, value, r[0], p)
}

/// `rs` lists the regions of `value` in `g`: every cell that holds `value` is in one of
/// them, each region starts with the cell of it that a row-by-row scan meets first, and
/// the regions come in the order in which the scan meets them.
pub open spec fn is_region_list(g: Grid, value: u8, rs: Seq<Seq<Position>>) -> bool {
    &&& forall|k: int| 0 <= k < rs.len() ==> is_region(g, value, #[trigger] rs[k])
    &&& forall|p: Position|
        holds(g, value, p) ==> exists|k: int| 0 <= k < rs.len() && #[trigger] rs[k].contains(p)
    &&& forall|k: int, p: Position|
        0 <= k < rs.len() && #[trigger] rs[k].contains(p) ==> p == rs[k][0] || scans_before(
            rs[k][0],
            p,
        )
    &&& forall|a: int, b: int|
        0 <= a < b < rs.len() ==> scans_before((#[trigger] rs[a])[0], (#[trigger] rs[b])[0])
}

/// The lists of `rs` split the cells that hold `value` into its regions: every list holds
/// only such cells, no cell is in two lists, every such cell is in one, two cells of one
/// list are connected, and two cells of different lists are not.
#[verifier::opaque]
pub open spec fn is_partition(g: Grid, value: u8, rs: Seq<Seq<Position>>) -> bool {
    &&& forall|k: int, p: Position|
        0 <= k < rs.len() && #[trigger] rs[k].contains(p) ==> holds(g, value, p)
    &&& forall|p: Position|
        holds(g, value, p) ==> exists|k: int| 0 <= k < rs.len() && #[trigger] rs[k].contains(p)
    &&& forall|a: int, b: int, p: Position|
        #![trigger rs[a].contains(p), rs[b].contains(p)]
        0 <= a < rs.len() && 0 <= b < rs.len() && rs[a].contains(p) && rs[b].contains(p) ==> a
            == b
    &&& forall|k: int, p: Position, q: Position|
        #![trigger rs[k].contains(p), rs[k].contains(q)]
        0 <= k < rs.len() && rs[k].contains(p) && rs[k].contains(q) ==> connected(g, value, p, q)
    &&& forall|a: int, b: int, p: Position, q: Position|
        #![trigger rs[a].contains(p), rs[b].contains(q)]
        0 <= a < rs.len() && 0 <= b < rs.len() && a != b && rs[a].contains(p) && rs[b].contains(
            q,
        ) ==> !connected(g, value, p, q)
}

/// A region has a first cell, which holds `value`, and lists no cell twice.
pub proof fn lemma_region_first(g: Grid, value: u8, r: Seq<Position>)
    requires
        is_region(g, value, r),
    ensures
        r.len() > 0,
        r.no_duplicates(),
        r.contains(r[0]),
        holds(g, value, r[0]),
{
    reveal(is_region);
}

/// Within a region, a cell is connected to exactly the cells of that region.
pub proof fn lemma_region_is_component(g: Grid, value: u8, r: Seq<Position>, p: Position, q: Position)
    requires
        is_region(g, value, r),
        r.contains(p),
    ensures
        r.contains(q) <==> connected(g, value, p, q),
        holds(g, value, p),
{
    reveal(is_region);
    assert(connected(g, value, r[0], p));
    lemma_connected_holds(g, value, r[0], p);
    lemma_connected_sym(g, value, r[0], p);
    if r.contains(q) {
        assert(connected(g, value, r[0], q));
        lemma_connected_trans(g, value, p, r[0], q);
    }
    if connected(g, value, p, q) {
        lemma_connected_trans(g, value, r[0], p, q);
    }
}

/// A list of a region has as many entries as the region of any of its cells has cells.
pub proof fn lemma_region_size(g: Grid, value: u8, r: Seq<Position>, p: Position)
    requires
        is_region(g, value, r),
        r.contains(p),
    ensures
        component(g, value, p) == r.to_set(),
        region_size(g, value, p) == r.len(),
{
    assert forall|q: Position| component(g, value, p).contains(q) <==> r.to_set().contains(q) by {
        lemma_region_is_component(g, value, r, p, q);
    }
    assert(component(g, value, p) =~= r.to_set());
    lemma_region_first(g, value, r);
    r.unique_seq_to_set();
}

/// No cell is in two regions of a region list.
pub proof fn lemma_regions_disjoint(
    g: Grid,
    value: u8,
    rs: Seq<Seq<Position>>,
    a: int,
    b: int,
    p: Position,
)
    requires
        is_region_list(g, value, rs),
        0 <= a < rs.len(),
        0 <= b < rs.len(),
        rs[a].contains(p),
        rs[b].contains(p),
    ensures
        a == b,
{
    if a != b {
        let (lo, hi) = if a < b {
            (a, b)
        } else {
            (b, a)
        };
        assert(is_region(g, value, rs[lo]) && is_region(g, value, rs[hi]));
        assert(scans_before(rs[lo][0], rs[hi][0]));
        // The first cell of the earlier region would lie in the later one as well.
        lemma_region_first(g, value, rs[lo]);
        lemma_region_is_component(g, value, rs[lo], rs[lo][0], p);
        lemma_connected_sym(g, value, rs[lo][0], p);
        lemma_region_is_component(g, value, rs[hi], p, rs[lo][0]);
        assert(rs[hi].contains(rs[lo][0]));
    }
}

/// A region list splits the cells that hold `value` into its regions.
pub proof fn lemma_region_list_is_partition(g: Grid, value: u8, rs: Seq<Seq<Position>>)
    requires
        is_region_list(g, value, rs),
    ensures
        is_partition(g, value, rs),
{
    reveal(is_partition);
    assert forall|k: int, p: Position| 0 <= k < rs.len() && #[trigger] rs[k].contains(p) implies holds(
        g,
        value,
        p,
    ) by {
        lemma_region_is_component(g, value, rs[k], p, p);
    }
    assert forall|a: int, b: int, p: Position|
        #![trigger rs[a].contains(p), rs[b].contains(p)]
        0 <= a < rs.len() && 0 <= b < rs.len() && rs[a].contains(p) && rs[b].contains(
            p,
        ) implies a == b by {
        lemma_regions_disjoint(g, value, rs, a, b, p);
    }
    assert forall|k: int, p: Position, q: Position|
        #![trigger rs[k].contains(p), rs[k].contains(q)]
        0 <= k < rs.len() && rs[k].contains(p) && rs[k].contains(q) implies connected(
        g,
        value,
        p,
        q,
    ) by {
        lemma_region_is_component(g, value, rs[k], p, q);
    }
    assert forall|a: int, b: int, p: Position, q: Position|
        #![trigger rs[a].contains(p), rs[b].contains(q)]
        0 <= a < rs.len() && 0 <= b < rs.len() && a != b && rs[a].contains(p) && rs[b].contains(
            q,
        ) implies !connected(g, value, p, q) by {
        if connected(g, value, p, q) {
            lemma_region_is_component(g, value, rs[a], p, q);
            lemma_regions_disjoint(g, value, rs, a, b, q);
        }
    }
}

/// The lists `a` and `b` start with the same cell and hold the same cells.
pub open spec fn same_region(a: Seq<Position>, b: Seq<Position>) -> bool {
    &&& a[0] == b[0]
    &&& forall|p: Position| a.contains(p) <==> b.contains(p)
}

/// Where two region lists agree on their first `k` regions, the next region of the
/// second does not start later in scan order than the next region of the first.
proof fn lemma_next_region_starts_no_later(
    g: Grid,
    value: u8,
    one: Seq<Seq<Position>>,
    two: Seq<Seq<Position>>,
    k: int,
)
    requires
        is_region_list(g, value, one),
        is_region_list(g, value, two),
        0 <= k < one.len(),
        k < two.len(),
        forall|j: int| 0 <= j < k ==> same_region(#[trigger] one[j], two[j]),
    ensures
        two[k][0] == one[k][0] || scans_before(two[k][0], one[k][0]),
{
    let seed = one[k][0];
    assert(is_region(g, value, one[k]));
    lemma_region_first(g, value, one[k]);
    let m = choose|m: int| 0 <= m < two.len() && #[trigger] two[m].contains(seed);
    if m < k {
        assert(same_region(one[m], two[m]));
        assert(one[m].contains(seed));
        lemma_regions_disjoint(g, value, one, m, k, seed);
    }
    assert(seed == two[m][0] || scans_before(two[m][0], seed));
    if m > k {
        assert(scans_before(two[k][0], two[m][0]));
    }
}

/// Two region lists of a grid agree on their first `n` regions.
proof fn lemma_region_lists_agree_so_far(
    g: Grid,
    value: u8,
    one: Seq<Seq<Position>>,
    two: Seq<Seq<Position>>,
    n: int,
)
    requires
        is_region_list(g, value, one),
        is_region_list(g, value, two),
        0 <= n <= one.len(),
        n <= two.len(),
    ensures
        forall|j: int| 0 <= j < n ==> same_region(#[trigger] one[j], two[j]),
    decreases n,
{
    if n > 0 {
        let k = n - 1;
        lemma_region_lists_agree_so_far(g, value, one, two, k);
        assert forall|j: int| 0 <= j < k implies same_region(#[trigger] two[j], one[j]) by {
            assert(same_region(one[j], two[j]));
        }
        lemma_next_region_starts_no_later(g, value, one, two, k);
        lemma_next_region_starts_no_later(g, value, two, one, k);
        assert(one[k][0] == two[k][0]);
        assert(is_region(g, value, one[k]) && is_region(g, value, two[k]));
        lemma_region_first(g, value, one[k]);
        lemma_region_first(g, value, two[k]);
        assert forall|p: Position| one[k].contains(p) <==> two[k].contains(p) by {
            lemma_region_is_component(g, value, one[k], one[k][0], p);
            lemma_region_is_component(g, value, two[k], two[k][0], p);
        }
    }
}

/// A grid has one region list, but for the order of the cells within a region: two
/// region lists have as many regions, and region by region they start with the same
/// cell and hold the same cells.
pub proof fn lemma_region_lists_agree(
    g: Grid,
    value: u8,
    one: Seq<Seq<Position>>,
    two: Seq<Seq<Position>>,
)
    requires
        is_region_list(g, value, one),
        is_region_list(g, value, two),
    ensures
        one.len() == two.len(),
        forall|k: int| 0 <= k < one.len() ==> same_region(#[trigger] one[k], two[k]),
{
    let n = if one.len() <= two.len() {
        one.len() as int
    } else {
        two.len() as int
    };
    lemma_region_lists_agree_so_far(g, value, one, two, n);
    if one.len() < two.len() {
        // The first cell of a further region would lie in one of the regions before it.
        let seed = two[n][0];
        assert(is_region(g, value, two[n]));
        lemma_region_first(g, value, two[n]);
        let m = choose|m: int| 0 <= m < one.len() && #[trigger] one[m].contains(seed);
        assert(same_region(one[m], two[m]));
        lemma_regions_disjoint(g, value, two, m, n, seed);
    }
    if two.len() < one.len() {
        let seed = one[n][0];
        assert(is_region(g, value, one[n]));
        lemma_region_first(g, value, one[n]);
        let m = choose|m: int| 0 <= m < two.len() && #[trigger] two[m].contains(seed);
        assert(same_region(one[m], two[m]));
        lemma_regions_disjoint(g, value, one, m, n, seed);
    }
}

} // verus!
