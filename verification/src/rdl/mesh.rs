//! Which grid points are neighbours, and the edges between them.

use crate::geom::Point;
use crate::rdl::grid::Grid;
use vstd::prelude::*;

verus! {

/// A position on the grid: the indices of its two tracks.
pub type Cell = (usize, usize);

/// The question about two points can be asked of any.
pub open spec fn total<F: Fn(Point, Point) -> bool>(f: F) -> bool {
    forall|a: Point, b: Point| #[trigger] f.requires((a, b))
}

/// The question's answers are those of a rule.
pub open spec fn follows<F: Fn(Point, Point) -> bool>(
    f: F,
    rule: spec_fn(Point, Point) -> bool,
) -> bool {
    forall|a: Point, b: Point, r: bool| #[trigger] f.ensures((a, b), r) ==> r == rule(a, b)
}

/// One cell where a condition holds, nothing otherwise.
pub open spec fn cell_if(cond: bool, i: int, j: int) -> Seq<Cell> {
    if cond {
        seq![(i as usize, j as usize)]
    } else {
        Seq::empty()
    }
}

/// The neighbours of a position: up, down, left and right, and then, where slanted edges are
/// allowed and both indices are even, the four diagonals.
#[verifier::opaque]
pub open spec fn around_cell(nx: int, ny: int, i: int, j: int, allow45: bool) -> Seq<Cell> {
    let straight = Seq::<Cell>::empty() + cell_if(j + 1 < ny, i, j + 1) + cell_if(
        j != 0,
        i,
        j - 1,
    ) + cell_if(i != 0, i - 1, j) + cell_if(i + 1 < nx, i + 1, j);
    if allow45 && i % 2 == 0 && j % 2 == 0 {
        straight + cell_if(i + 1 < nx && j + 1 < ny, i + 1, j + 1) + cell_if(
            i + 1 < nx && j != 0,
            i + 1,
            j - 1,
        ) + cell_if(i != 0 && j + 1 < ny, i - 1, j + 1) + cell_if(
            i != 0 && j != 0,
            i - 1,
            j - 1,
        )
    } else {
        straight
    }
}

/// The neighbours of grid position `(i, j)`, as index pairs.
///
/// Four orthogonal neighbours everywhere. With slanted routing allowed, four diagonals as well, but
/// only from positions where both indices are even: diagonals from every point would double back
/// on each other, so the diagonal mesh is half as dense as the orthogonal one.
pub fn neighbours(g: &Grid, i: usize, j: usize, allow45: bool) -> (out: Vec<Cell>)
    ensures
        out@ == around_cell(g.x.len() as int, g.y.len() as int, i as int, j as int, allow45),
{
    let nx: usize = g.x.len();
    let ny: usize = g.y.len();
    let up = ny > 0 && j < ny - 1;
    let right = nx > 0 && i < nx - 1;
    let mut out: Vec<Cell> = Vec::new();
    let ghost (x, y) = (i as int, j as int);
    let ghost mut done = out@;
    proof {
        reveal(around_cell);
    }
    if up {
        out.push((i, j + 1));
    }
    proof {
        done = extend(done, out@, cell_if(up, x, y + 1));
    }
    if j != 0 {
        out.push((i, j - 1));
    }
    proof {
        done = extend(done, out@, cell_if(j != 0, x, y - 1));
    }
    if i != 0 {
        out.push((i - 1, j));
    }
    proof {
        done = extend(done, out@, cell_if(i != 0, x - 1, y));
    }
    if right {
        out.push((i + 1, j));
    }
    proof {
        done = extend(done, out@, cell_if(right, x + 1, y));
    }
    if allow45 && i % 2 == 0 && j % 2 == 0 {
        if right && up {
            out.push((i + 1, j + 1));
        }
        proof {
            done = extend(done, out@, cell_if(right && up, x + 1, y + 1));
        }
        if right && j != 0 {
            out.push((i + 1, j - 1));
        }
        proof {
            done = extend(done, out@, cell_if(right && j != 0, x + 1, y - 1));
        }
        if i != 0 && up {
            out.push((i - 1, j + 1));
        }
        proof {
            done = extend(done, out@, cell_if(i != 0 && up, x - 1, y + 1));
        }
        if i != 0 && j != 0 {
            out.push((i - 1, j - 1));
        }
        proof {
            done = extend(done, out@, cell_if(i != 0 && j != 0, x - 1, y - 1));
        }
    }
    out
}

/// What is known of a list after a piece was added to it.
proof fn extend(before: Seq<Cell>, after: Seq<Cell>, piece: Seq<Cell>) -> (r: Seq<Cell>)
    requires
        after == before || after == before.push(piece[0]),
        after.len() == before.len() + piece.len(),
        piece.len() <= 1,
    ensures
        r == after,
        r == before + piece,
{
    assert(after =~= before + piece);
    after
}

/// The first position is visited before the second: x outer, y inner.
pub open spec fn earlier(a: Cell, b: Cell) -> bool {
    a.0 < b.0 || (a.0 == b.0 && a.1 < b.1)
}

/// The step from `a` to its neighbour `b` has not been met yet, from the other end.
pub open spec fn fresh(g: Grid, allow45: bool, a: Cell, b: Cell) -> bool {
    !(earlier(b, a) && around_cell(
        g.x.len() as int,
        g.y.len() as int,
        b.0 as int,
        b.1 as int,
        allow45,
    ).contains(a))
}

/// The point at a grid position.
pub open spec fn at(g: Grid, a: Cell) -> Point {
    (g.x@[a.0 as int], g.y@[a.1 as int])
}

/// The steps of `steps` out of `a` that have not been met yet and are not blocked, as pairs of
/// points.
pub open spec fn steps_out(
    g: Grid,
    allow45: bool,
    a: Cell,
    steps: Seq<Cell>,
    blocked: spec_fn(Point, Point) -> bool,
) -> Seq<(Point, Point)>
    decreases steps.len(),
{
    if steps.len() == 0 {
        Seq::empty()
    } else {
        let sofar = steps_out(g, allow45, a, steps.drop_last(), blocked);
        let b = steps.last();
        if fresh(g, allow45, a, b) && !blocked(at(g, a), at(g, b)) {
            sofar.push((at(g, a), at(g, b)))
        } else {
            sofar
        }
    }
}

/// The steps out of the first `n` positions.
pub open spec fn mesh_upto(
    g: Grid,
    allow45: bool,
    n: int,
    blocked: spec_fn(Point, Point) -> bool,
) -> Seq<(Point, Point)>
    decreases n,
{
    if n <= 0 {
        Seq::empty()
    } else {
        let ny = g.y.len() as int;
        let i = (n - 1) / ny;
        let j = (n - 1) % ny;
        mesh_upto(g, allow45, n - 1, blocked) + steps_out(
            g,
            allow45,
            (i as usize, j as usize),
            around_cell(g.x.len() as int, ny, i, j, allow45),
            blocked,
        )
    }
}

/// Every edge of the grid that is not blocked, once each, in the order the positions are
/// visited.
pub open spec fn mesh(g: Grid, allow45: bool, blocked: spec_fn(Point, Point) -> bool) -> Seq<
    (Point, Point),
> {
    mesh_upto(g, allow45, g.x.len() * g.y.len(), blocked)
}

/// Which neighbours a position has: those one step away, and, from an even position, those one
/// slanted step away.
pub proof fn lemma_neighbours(nx: int, ny: int, i: int, j: int, allow45: bool, b: Cell)
    requires
        0 <= i < nx <= usize::MAX,
        0 <= j < ny <= usize::MAX,
    ensures
        around_cell(nx, ny, i, j, allow45).contains(b) <==> {
            &&& b.0 < nx && b.1 < ny
            &&& -1 <= b.0 - i <= 1 && -1 <= b.1 - j <= 1
            &&& {
                ||| b.0 == i && b.1 != j
                ||| b.0 != i && b.1 == j
                ||| b.0 != i && b.1 != j && allow45 && i % 2 == 0 && j % 2 == 0
            }
        },
{
    reveal(around_cell);
    let p1 = cell_if(j + 1 < ny, i, j + 1);
    let p2 = cell_if(j != 0, i, j - 1);
    let p3 = cell_if(i != 0, i - 1, j);
    let p4 = cell_if(i + 1 < nx, i + 1, j);
    let p5 = cell_if(i + 1 < nx && j + 1 < ny, i + 1, j + 1);
    let p6 = cell_if(i + 1 < nx && j != 0, i + 1, j - 1);
    let p7 = cell_if(i != 0 && j + 1 < ny, i - 1, j + 1);
    let p8 = cell_if(i != 0 && j != 0, i - 1, j - 1);
    lemma_cell_if(j + 1 < ny, i, j + 1, b);
    lemma_cell_if(j != 0, i, j - 1, b);
    lemma_cell_if(i != 0, i - 1, j, b);
    lemma_cell_if(i + 1 < nx, i + 1, j, b);
    lemma_cell_if(i + 1 < nx && j + 1 < ny, i + 1, j + 1, b);
    lemma_cell_if(i + 1 < nx && j != 0, i + 1, j - 1, b);
    lemma_cell_if(i != 0 && j + 1 < ny, i - 1, j + 1, b);
    lemma_cell_if(i != 0 && j != 0, i - 1, j - 1, b);
    let p0 = Seq::<Cell>::empty();
    lemma_concat_contains(p0, p1, b);
    lemma_concat_contains(p0 + p1, p2, b);
    lemma_concat_contains(p0 + p1 + p2, p3, b);
    lemma_concat_contains(p0 + p1 + p2 + p3, p4, b);
    let straight = p0 + p1 + p2 + p3 + p4;
    if allow45 && i % 2 == 0 && j % 2 == 0 {
        lemma_concat_contains(straight, p5, b);
        lemma_concat_contains(straight + p5, p6, b);
        lemma_concat_contains(straight + p5 + p6, p7, b);
        lemma_concat_contains(straight + p5 + p6 + p7, p8, b);
    }
}

proof fn lemma_cell_if(cond: bool, i: int, j: int, b: Cell)
    requires
        cond ==> 0 <= i <= usize::MAX && 0 <= j <= usize::MAX,
    ensures
        cell_if(cond, i, j).contains(b) <==> cond && b.0 == i && b.1 == j,
{
    if cond {
        assert(cell_if(cond, i, j)[0] == (i as usize, j as usize));
    }
}

proof fn lemma_concat_contains<A>(a: Seq<A>, b: Seq<A>, x: A)
    ensures
        (a + b).contains(x) <==> a.contains(x) || b.contains(x),
{
    let c = a + b;
    if a.contains(x) {
        let k = choose|k: int| 0 <= k < a.len() && a[k] == x;
        assert(c[k] == x);
    }
    if b.contains(x) {
        let k = choose|k: int| 0 <= k < b.len() && b[k] == x;
        assert(c[a.len() + k] == x);
    }
    if c.contains(x) {
        let k = choose|k: int| 0 <= k < c.len() && c[k] == x;
        if k < a.len() {
            assert(a[k] == x);
        } else {
            assert(b[k - a.len()] == x);
        }
    }
}

/// Every edge in the grid, as point pairs, each counted once.
///
/// Counted by the unordered pair. Keeping only the pairs that run forwards through the grid looks
/// equivalent and is not: a diagonal is generated from even positions only, so `(2,0) - (1,1)` has
/// no counterpart generated from `(1,1)`, and dropping it silently deletes a quarter of the
/// diagonal mesh.
pub fn edges(g: &Grid, allow45: bool) -> (out: Vec<(Point, Point)>)
    ensures
        out@ == mesh(*g, allow45, |a: Point, b: Point| false),
{
    let never = |a: Point, b: Point| -> (r: bool)
        ensures
            !r,
        { false };
    let out = edges_clear(g, allow45, &never);
    assert(follows(never, |a: Point, b: Point| false));
    out
}

/// Every edge the router may actually use.
///
/// Vertices are not filtered: a grid point inside an obstruction stays in the graph, it simply has
/// no usable edges. Removing it too would renumber everything and change nothing.
pub fn edges_clear<F: Fn(Point, Point) -> bool>(
    g: &Grid,
    allow45: bool,
    obstructed: &F,
) -> (out: Vec<(Point, Point)>)
    requires
        total(*obstructed),
    ensures
        forall|rule: spec_fn(Point, Point) -> bool| #[trigger]
            follows(*obstructed, rule) ==> out@ == mesh(*g, allow45, rule),
{
    let ghost ny = g.y.len() as int;
    let mut out: Vec<(Point, Point)> = Vec::new();
    let mut i: usize = 0;
    while i < g.x.len()
        invariant
            i <= g.x.len(),
            ny == g.y.len(),
            total(*obstructed),
            forall|rule: spec_fn(Point, Point) -> bool| #[trigger]
                follows(*obstructed, rule) ==> out@ == mesh_upto(*g, allow45, i * ny, rule),
        decreases g.x.len() - i,
    {
        let mut j: usize = 0;
        while j < g.y.len()
            invariant
                i < g.x.len(),
                j <= g.y.len(),
                ny == g.y.len(),
                total(*obstructed),
                forall|rule: spec_fn(Point, Point) -> bool| #[trigger]
                    follows(*obstructed, rule) ==> out@ == mesh_upto(
                        *g,
                        allow45,
                        i * ny + j,
                        rule,
                    ),
            decreases g.y.len() - j,
        {
            let near = neighbours(g, i, j, allow45);
            let ghost before = out@;
            let mut k: usize = 0;
            while k < near.len()
                invariant
                    i < g.x.len(),
                    j < g.y.len(),
                    k <= near.len(),
                    near@ == around_cell(
                        g.x.len() as int,
                        g.y.len() as int,
                        i as int,
                        j as int,
                        allow45,
                    ),
                    total(*obstructed),
                    forall|rule: spec_fn(Point, Point) -> bool| #[trigger]
                        follows(*obstructed, rule) ==> out@ == before + steps_out(
                            *g,
                            allow45,
                            (i, j),
                            near@.take(k as int),
                            rule,
                        ),
                decreases near.len() - k,
            {
                let (ni, nj) = near[k];
                let ghost sofar = out@;
                proof {
                    let (nx, ny) = (g.x.len() as int, g.y.len() as int);
                    assert(near@.take(k + 1).drop_last() =~= near@.take(k as int));
                    assert(near@.contains((ni, nj)));
                    lemma_neighbours(nx, ny, i as int, j as int, allow45, (ni, nj));
                    lemma_neighbours(nx, ny, ni as int, nj as int, allow45, (i, j));
                }
                let slanted = ni != i && nj != j;
                if slanted || i < ni || (i == ni && j < nj) {
                    assert(fresh(*g, allow45, (i, j), (ni, nj)));
                    let a: Point = (g.x[i], g.y[j]);
                    let b: Point = (g.x[ni], g.y[nj]);
                    if !obstructed(a, b) {
                        out.push((a, b));
                    }
                }
                assert forall|rule: spec_fn(Point, Point) -> bool| #[trigger]
                    follows(*obstructed, rule) implies out@ == before + steps_out(
                    *g,
                    allow45,
                    (i, j),
                    near@.take(k + 1),
                    rule,
                ) by {
                    assert(sofar == before + steps_out(
                        *g,
                        allow45,
                        (i, j),
                        near@.take(k as int),
                        rule,
                    ));
                    assert(out@ =~= before + steps_out(
                        *g,
                        allow45,
                        (i, j),
                        near@.take(k + 1),
                        rule,
                    ));
                }
                k += 1;
            }
            proof {
                assert(near@.take(near@.len() as int) =~= near@);
                vstd::arithmetic::div_mod::lemma_fundamental_div_mod_converse(
                    i * ny + j,
                    ny,
                    i as int,
                    j as int,
                );
                assert(i * ny >= 0) by (nonlinear_arith)
                    requires
                        ny >= 0,
                ;
            }
            j += 1;
        }
        assert((i + 1) * ny == i * ny + ny) by (nonlinear_arith);
        i += 1;
    }
    out
}

/// Two neighbouring positions give one edge: it is taken from one of its ends and not from the
/// other.
pub proof fn law_each_edge_once(g: Grid, allow45: bool, a: Cell, b: Cell)
    requires
        a.0 < g.x.len() && a.1 < g.y.len(),
        b.0 < g.x.len() && b.1 < g.y.len(),
        ({
            let (nx, ny) = (g.x.len() as int, g.y.len() as int);
            around_cell(nx, ny, a.0 as int, a.1 as int, allow45).contains(b) || around_cell(
                nx,
                ny,
                b.0 as int,
                b.1 as int,
                allow45,
            ).contains(a)
        }),
    ensures
        ({
            let (nx, ny) = (g.x.len() as int, g.y.len() as int);
            let out = around_cell(nx, ny, a.0 as int, a.1 as int, allow45).contains(b) && fresh(
                g,
                allow45,
                a,
                b,
            );
            let back = around_cell(nx, ny, b.0 as int, b.1 as int, allow45).contains(a) && fresh(
                g,
                allow45,
                b,
                a,
            );
            out != back
        }),
{
    let (nx, ny) = (g.x.len() as int, g.y.len() as int);
    lemma_neighbours(nx, ny, a.0 as int, a.1 as int, allow45, b);
    lemma_neighbours(nx, ny, b.0 as int, b.1 as int, allow45, a);
}

/// No position lists a neighbour twice.
pub proof fn law_neighbours_distinct(nx: int, ny: int, i: int, j: int, allow45: bool)
    requires
        0 <= i < nx <= usize::MAX,
        0 <= j < ny <= usize::MAX,
    ensures
        around_cell(nx, ny, i, j, allow45).no_duplicates(),
{
    reveal(around_cell);
    let p0 = Seq::<Cell>::empty();
    let none = |b: Cell| false;
    let (p1, s1) = lemma_one_more(p0, none, j + 1 < ny, i, j + 1);
    let (p2, s2) = lemma_one_more(p1, s1, j != 0, i, j - 1);
    let (p3, s3) = lemma_one_more(p2, s2, i != 0, i - 1, j);
    let (p4, s4) = lemma_one_more(p3, s3, i + 1 < nx, i + 1, j);
    if allow45 && i % 2 == 0 && j % 2 == 0 {
        let (p5, s5) = lemma_one_more(p4, s4, i + 1 < nx && j + 1 < ny, i + 1, j + 1);
        let (p6, s6) = lemma_one_more(p5, s5, i + 1 < nx && j != 0, i + 1, j - 1);
        let (p7, s7) = lemma_one_more(p6, s6, i != 0 && j + 1 < ny, i - 1, j + 1);
        let (p8, s8) = lemma_one_more(p7, s7, i != 0 && j != 0, i - 1, j - 1);
    }
}

proof fn lemma_one_more(
    a: Seq<Cell>,
    seen: spec_fn(Cell) -> bool,
    cond: bool,
    i: int,
    j: int,
) -> (r: (Seq<Cell>, spec_fn(Cell) -> bool))
    requires
        a.no_duplicates(),
        forall|b: Cell| a.contains(b) ==> #[trigger] seen(b),
        cond ==> 0 <= i <= usize::MAX && 0 <= j <= usize::MAX,
        cond ==> !seen((i as usize, j as usize)),
    ensures
        r.0 == a + cell_if(cond, i, j),
        r.0.no_duplicates(),
        r.1 == (|b: Cell| seen(b) || (cond && b.0 == i && b.1 == j)),
        forall|b: Cell| r.0.contains(b) ==> #[trigger] (r.1)(b),
{
    let all = a + cell_if(cond, i, j);
    let met = |b: Cell| seen(b) || (cond && b.0 == i && b.1 == j);
    assert forall|b: Cell| all.contains(b) implies #[trigger] met(b) by {
        lemma_concat_contains(a, cell_if(cond, i, j), b);
        lemma_cell_if(cond, i, j, b);
    }
    if cond {
        assert(!a.contains((i as usize, j as usize)));
    }
    assert forall|m: int, n: int| 0 <= m < all.len() && 0 <= n < all.len() && m != n implies all[m]
        != all[n] by {
        if m < a.len() {
            assert(a.contains(a[m]));
        }
        if n < a.len() {
            assert(a.contains(a[n]));
        }
    }
    (all, met)
}

/// Two positions of the grid are next to each other: one step apart, straight, or, where slanted edges
/// are allowed, slanted and with one of the two at an even position both ways.
pub open spec fn adjacent(g: Grid, allow45: bool, a: Cell, b: Cell) -> bool {
    &&& a.0 < g.x.len() && a.1 < g.y.len() && b.0 < g.x.len() && b.1 < g.y.len()
    &&& a != b && -1 <= a.0 - b.0 <= 1 && -1 <= a.1 - b.1 <= 1
    &&& {
        ||| a.0 == b.0
        ||| a.1 == b.1
        ||| allow45 && ((a.0 % 2 == 0 && a.1 % 2 == 0) || (b.0 % 2 == 0 && b.1 % 2 == 0))
    }
}

/// The edge joins two positions that are next to each other.
pub open spec fn joins_cells(g: Grid, allow45: bool, e: (Point, Point), a: Cell, b: Cell) -> bool {
    adjacent(g, allow45, a, b) && e.0 == (g.x@[a.0 as int], g.y@[a.1 as int]) && e.1 == (
        g.x@[b.0 as int],
        g.y@[b.1 as int],
    )
}

proof fn lemma_steps_out(
    g: Grid,
    allow45: bool,
    a: Cell,
    steps: Seq<Cell>,
    blocked: spec_fn(Point, Point) -> bool,
    e: (Point, Point),
)
    ensures
        steps_out(g, allow45, a, steps, blocked).contains(e) <==> exists|b: Cell| #[trigger]
            steps.contains(b) && fresh(g, allow45, a, b) && !blocked(at(g, a), at(g, b)) && e == (
            at(g, a),
            at(g, b),
        ),
    decreases steps.len(),
{
    if steps.len() > 0 {
        let head = steps.drop_last();
        lemma_steps_out(g, allow45, a, head, blocked, e);
        let sofar = steps_out(g, allow45, a, head, blocked);
        let last = steps.last();
        assert(steps =~= head.push(last));
        crate::lists::lemma_push_contains(sofar, (at(g, a), at(g, last)), e);
        assert(steps[steps.len() - 1] == last);
        assert(steps.contains(last));
        if sofar.contains(e) {
            let b = choose|b: Cell| #[trigger]
                head.contains(b) && fresh(g, allow45, a, b) && !blocked(at(g, a), at(g, b)) && e == (
                at(g, a),
                at(g, b),
            );
            crate::lists::lemma_push_contains(head, last, b);
            assert(steps.contains(b));
        }
        if exists|b: Cell| #[trigger]
            steps.contains(b) && fresh(g, allow45, a, b) && !blocked(at(g, a), at(g, b)) && e == (
            at(g, a),
            at(g, b),
        ) {
            let b = choose|b: Cell| #[trigger]
                steps.contains(b) && fresh(g, allow45, a, b) && !blocked(at(g, a), at(g, b)) && e == (
                at(g, a),
                at(g, b),
            );
            crate::lists::lemma_push_contains(head, last, b);
        }
    }
}

/// The edges out of the position that is visited `k`-th.
pub open spec fn steps_at(
    g: Grid,
    allow45: bool,
    k: int,
    blocked: spec_fn(Point, Point) -> bool,
) -> Seq<(Point, Point)> {
    let ny = g.y.len() as int;
    let (i, j) = (k / ny, k % ny);
    steps_out(
        g,
        allow45,
        (i as usize, j as usize),
        around_cell(g.x.len() as int, ny, i, j, allow45),
        blocked,
    )
}

proof fn lemma_mesh_upto(
    g: Grid,
    allow45: bool,
    n: int,
    blocked: spec_fn(Point, Point) -> bool,
    e: (Point, Point),
)
    ensures
        mesh_upto(g, allow45, n, blocked).contains(e) <==> exists|k: int|
            0 <= k < n && #[trigger] steps_at(g, allow45, k, blocked).contains(e),
    decreases n,
{
    if n > 0 {
        lemma_mesh_upto(g, allow45, n - 1, blocked, e);
        let (head, last) = (
            mesh_upto(g, allow45, n - 1, blocked),
            steps_at(g, allow45, n - 1, blocked),
        );
        let all = head + last;
        assert(mesh_upto(g, allow45, n, blocked) == all);
        if head.contains(e) {
            let i = choose|i: int| 0 <= i < head.len() && head[i] == e;
            assert(all[i] == e);
        }
        if last.contains(e) {
            let i = choose|i: int| 0 <= i < last.len() && last[i] == e;
            assert(all[head.len() + i] == e);
        }
        if all.contains(e) {
            let i = choose|i: int| 0 <= i < all.len() && all[i] == e;
            if i < head.len() {
                assert(head[i] == e);
            } else {
                assert(last[i - head.len()] == e);
            }
        }
    }
}

/// An edge of the mesh joins two positions that are next to each other, and is not blocked.
pub proof fn law_mesh_joins_neighbours(
    g: Grid,
    allow45: bool,
    blocked: spec_fn(Point, Point) -> bool,
    e: (Point, Point),
)
    requires
        mesh(g, allow45, blocked).contains(e),
    ensures
        !blocked(e.0, e.1),
        exists|a: Cell, b: Cell| #[trigger] joins_cells(g, allow45, e, a, b),
{
    let (nx, ny) = (g.x.len() as int, g.y.len() as int);
    lemma_mesh_upto(g, allow45, nx * ny, blocked, e);
    let k = choose|k: int| 0 <= k < nx * ny && #[trigger] steps_at(g, allow45, k, blocked).contains(
        e,
    );
    lemma_position(nx, ny, k);
    let (i, j) = (k / ny, k % ny);
    let a: Cell = (i as usize, j as usize);
    let steps = around_cell(nx, ny, i, j, allow45);
    lemma_steps_out(g, allow45, a, steps, blocked, e);
    let b = choose|b: Cell| #[trigger]
        steps.contains(b) && fresh(g, allow45, a, b) && !blocked(at(g, a), at(g, b)) && e == (
        at(g, a),
        at(g, b),
    );
    lemma_neighbours(nx, ny, i, j, allow45, b);
    assert(joins_cells(g, allow45, e, a, b));
}

/// Where the `k`-th position stands.
proof fn lemma_position(nx: int, ny: int, k: int)
    requires
        0 <= ny,
        0 <= k < nx * ny,
    ensures
        0 <= k / ny < nx,
        0 <= k % ny < ny,
{
    assert(ny > 0) by (nonlinear_arith)
        requires
            0 <= ny,
            0 < nx * ny,
    ;
    vstd::arithmetic::div_mod::lemma_fundamental_div_mod(k, ny);
    vstd::arithmetic::div_mod::lemma_mod_bound(k, ny);
    vstd::arithmetic::div_mod::lemma_div_pos_is_pos(k, ny);
    let q = k / ny;
    assert(ny * q == q * ny) by (nonlinear_arith);
    assert(q < nx) by (nonlinear_arith)
        requires
            q * ny <= k,
            k < nx * ny,
            ny > 0,
    ;
}

/// Two positions that are next to each other have an edge in the mesh, taken from one end or the other,
/// unless it is blocked.
pub proof fn law_neighbours_are_joined(
    g: Grid,
    allow45: bool,
    blocked: spec_fn(Point, Point) -> bool,
    a: Cell,
    b: Cell,
)
    requires
        adjacent(g, allow45, a, b),
        !blocked(at(g, a), at(g, b)),
        !blocked(at(g, b), at(g, a)),
    ensures
        mesh(g, allow45, blocked).contains((at(g, a), at(g, b))) || mesh(
            g,
            allow45,
            blocked,
        ).contains((at(g, b), at(g, a))),
{
    let (nx, ny) = (g.x.len() as int, g.y.len() as int);
    lemma_neighbours(nx, ny, a.0 as int, a.1 as int, allow45, b);
    lemma_neighbours(nx, ny, b.0 as int, b.1 as int, allow45, a);
    law_each_edge_once(g, allow45, a, b);
    let out = around_cell(nx, ny, a.0 as int, a.1 as int, allow45).contains(b) && fresh(
        g,
        allow45,
        a,
        b,
    );
    let (c, d) = if out {
        (a, b)
    } else {
        (b, a)
    };
    let e = (at(g, c), at(g, d));
    let k = c.0 * ny + c.1;
    vstd::arithmetic::div_mod::lemma_fundamental_div_mod_converse(k, ny, c.0 as int, c.1 as int);
    assert(0 <= k < nx * ny) by (nonlinear_arith)
        requires
            0 <= c.0 <= nx - 1,
            0 <= c.1 < ny,
            k == c.0 * ny + c.1,
    ;
    let steps = around_cell(nx, ny, c.0 as int, c.1 as int, allow45);
    lemma_steps_out(g, allow45, c, steps, blocked, e);
    assert(steps.contains(d));
    assert(steps_at(g, allow45, k, blocked).contains(e));
    lemma_mesh_upto(g, allow45, nx * ny, blocked, e);
}

} // verus!
