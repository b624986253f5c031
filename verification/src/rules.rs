use vstd::prelude::*;

verus! {

/// A side of the game. The same value tags the occupant of a cell,
/// so `Option<Turn>` is the content of one grid position.
#[derive(Copy, Clone, Debug, PartialEq, Eq, Structural)]
pub enum Turn {
    White,
    Black,
}

/// The opposing side.
pub open spec fn other(t: Turn) -> Turn {
    match t {
        Turn::White => Turn::Black,
        Turn::Black => Turn::White,
    }
}

/// Row offset of compass direction `k` (eight directions, `0 <= k < 8`).
pub open spec fn dxs(k: int) -> int {
    if k == 0 || k == 1 || k == 2 {
        1
    } else if k == 3 || k == 7 {
        0
    } else if k == 4 || k == 5 || k == 6 {
        -1
    } else {
        0
    }
}

/// Column offset of compass direction `k`.
pub open spec fn dys(k: int) -> int {
    if k == 2 || k == 3 || k == 4 {
        1
    } else if k == 1 || k == 5 {
        0
    } else if k == 0 || k == 6 || k == 7 {
        -1
    } else {
        0
    }
}

/// Row coordinate reached after `m` steps from row `i` in direction `k`.
pub open spec fn rayx(i: int, k: int, m: int) -> int {
    i + m * dxs(k)
}

/// Column coordinate reached after `m` steps from column `j` in direction `k`.
pub open spec fn rayy(j: int, k: int, m: int) -> int {
    j + m * dys(k)
}

/// Whether coordinate `z` lies on a board of dimension `n`.
pub open spec fn in_range_spec(z: int, n: int) -> bool {
    0 <= z && z < n
}

/// The mathematical view of the grid storage: a sequence of rows.
pub open spec fn gview(s: Vec<Vec<Option<Turn>>>) -> Seq<Seq<Option<Turn>>> {
    s@.map_values(|row: Vec<Option<Turn>>| row@)
}

/// A square grid of dimension `n` whose rows all have length `n`.
pub open spec fn grid_wf(g: Seq<Seq<Option<Turn>>>, n: int) -> bool {
    &&& g.len() == n
    &&& forall|r: int| 0 <= r < n ==> (#[trigger] g[r]).len() == n
}

/// Placing a disc of side `t` at `(i, j)` captures a run of exactly `l`
/// opposing discs in direction `k`: the `l` cells adjacent along the ray are
/// all on the board and hold the opponent, and the next cell holds `t`.
pub open spec fn is_capture(
    g: Seq<Seq<Option<Turn>>>,
    n: int,
    t: Turn,
    i: int,
    j: int,
    k: int,
    l: int,
) -> bool {
    &&& 1 <= l
    &&& in_range_spec(rayx(i, k, l + 1), n)
    &&& in_range_spec(rayy(j, k, l + 1), n)
    &&& g[rayx(i, k, l + 1)][rayy(j, k, l + 1)] == Some(t)
    &&& forall|m: int|
        1 <= m <= l ==> in_range_spec(#[trigger] rayx(i, k, m), n) && in_range_spec(
            rayy(j, k, m),
            n,
        ) && g[rayx(i, k, m)][rayy(j, k, m)] == Some(other(t))
}

/// The number of opposing discs that a placement by `t` at `(i, j)` would
/// flip in direction `k`: the length of the captured run, or 0 when the run
/// ends at the edge or at an empty cell without meeting a disc of side `t`.
pub open spec fn dir_flips(g: Seq<Seq<Option<Turn>>>, n: int, t: Turn, i: int, j: int, k: int) -> nat {
    if exists|l: int| is_capture(g, n, t, i, j, k, l) {
        (choose|l: int| is_capture(g, n, t, i, j, k, l)) as nat
    } else {
        0
    }
}

/// The total flips over the first `k` of the eight directions.
pub open spec fn flips_upto(g: Seq<Seq<Option<Turn>>>, n: int, t: Turn, i: int, j: int, k: int) -> nat
    decreases k,
{
    if k <= 0 {
        0
    } else {
        flips_upto(g, n, t, i, j, k - 1) + dir_flips(g, n, t, i, j, k - 1)
    }
}

/// The capture count of cell `(i, j)` for side `t`: 0 on an occupied cell,
/// otherwise the total over all eight directions. A placement there is legal
/// exactly when this is positive.
pub open spec fn cell_flips(g: Seq<Seq<Option<Turn>>>, n: int, t: Turn, i: int, j: int) -> nat {
    if g[i][j] is Some {
        0
    } else {
        flips_upto(g, n, t, i, j, 8)
    }
}

/// Side `t` has at least one legal placement somewhere on the board.
pub open spec fn has_move(g: Seq<Seq<Option<Turn>>>, n: int, t: Turn) -> bool {
    exists|i: int, j: int|
        0 <= i < n && 0 <= j < n && #[trigger] cell_flips(g, n, t, i, j) > 0
}

/// Cell `(r, c)` lies on a captured run of the placement by `t` at `(i, j)`,
/// in one of the directions numbered below `k`.
pub open spec fn in_flip_upto(
    g: Seq<Seq<Option<Turn>>>,
    n: int,
    t: Turn,
    i: int,
    j: int,
    k: int,
    r: int,
    c: int,
) -> bool {
    exists|k2: int, m: int|
        0 <= k2 < k && 1 <= m <= dir_flips(g, n, t, i, j, k2) && r == #[trigger] rayx(i, k2, m)
            && c == rayy(j, k2, m)
}

/// The content of cell `(r, c)` after side `t` places at `(i, j)`: the placed
/// cell and every captured cell hold `t`, all other cells are unchanged.
pub open spec fn cell_after(
    g: Seq<Seq<Option<Turn>>>,
    n: int,
    t: Turn,
    i: int,
    j: int,
    r: int,
    c: int,
) -> Option<Turn> {
    if (r == i && c == j) || in_flip_upto(g, n, t, i, j, 8, r, c) {
        Some(t)
    } else {
        g[r][c]
    }
}

/// The whole grid after side `t` places at `(i, j)`.
pub open spec fn grid_after(g: Seq<Seq<Option<Turn>>>, n: int, t: Turn, i: int, j: int) -> Seq<
    Seq<Option<Turn>>,
> {
    Seq::new(n as nat, |r: int| Seq::new(n as nat, |c: int| cell_after(g, n, t, i, j, r, c)))
}

/// The content of cell `(x, y)` on a freshly constructed board of
/// half-dimension `n`: four central discs, two of each side on opposite
/// diagonals, every other cell empty.
pub open spec fn init_cell(n: int, x: int, y: int) -> Option<Turn> {
    if (x == n - 1 && y == n - 1) || (x == n && y == n) {
        Some(Turn::White)
    } else if (x == n - 1 && y == n) || (x == n && y == n - 1) {
        Some(Turn::Black)
    } else {
        None
    }
}

/// The number of cells among the first `upto` of `row` that hold a disc of
/// side `t`.
pub open spec fn row_count(row: Seq<Option<Turn>>, t: Turn, upto: int) -> nat
    decreases upto,
{
    if upto <= 0 {
        0
    } else {
        row_count(row, t, upto - 1) + if row[upto - 1] == Some(t) {
            1nat
        } else {
            0nat
        }
    }
}

/// The number of discs of side `t` in the first `rows` rows of `g`, each row
/// scanned over `n` columns.
pub open spec fn grid_count(g: Seq<Seq<Option<Turn>>>, t: Turn, n: int, rows: int) -> nat
    decreases rows,
{
    if rows <= 0 {
        0
    } else {
        grid_count(g, t, n, rows - 1) + row_count(g[rows - 1], t, n)
    }
}

/// The number of discs of side `t` on the whole board.
pub open spec fn piece_count(g: Seq<Seq<Option<Turn>>>, n: int, t: Turn) -> nat {
    grid_count(g, t, n, n)
}

/// The rendering symbol of one cell.
pub open spec fn cell_char(c: Option<Turn>) -> char {
    match c {
        None => '.',
        Some(Turn::White) => 'o',
        Some(Turn::Black) => '#',
    }
}

/// The cell that a rendering symbol stands for: the inverse of `cell_char`.
pub open spec fn cell_of_char(ch: char) -> Option<Turn> {
    if ch == 'o' {
        Some(Turn::White)
    } else if ch == '#' {
        Some(Turn::Black)
    } else {
        None
    }
}

/// A capture in a direction has exactly one length: the run is bounded by the
/// first disc of the mover's own side.
pub proof fn lemma_capture_unique(
    g: Seq<Seq<Option<Turn>>>,
    n: int,
    t: Turn,
    i: int,
    j: int,
    k: int,
    l1: int,
    l2: int,
)
    requires
        is_capture(g, n, t, i, j, k, l1),
        is_capture(g, n, t, i, j, k, l2),
    ensures
        l1 == l2,
{
    assert(other(t) != t);
    if l1 < l2 {
        assert(1 <= l1 + 1 <= l2);
        assert(g[rayx(i, k, l1 + 1)][rayy(j, k, l1 + 1)] == Some(other(t)));
    }
    if l2 < l1 {
        assert(1 <= l2 + 1 <= l1);
        assert(g[rayx(i, k, l2 + 1)][rayy(j, k, l2 + 1)] == Some(other(t)));
    }
}

/// A captured run fits on the board: together with the placed cell and the
/// terminating disc it occupies distinct cells along one line of the grid.
pub proof fn lemma_capture_bound(
    g: Seq<Seq<Option<Turn>>>,
    n: int,
    t: Turn,
    i: int,
    j: int,
    k: int,
    l: int,
)
    requires
        0 <= i < n,
        0 <= j < n,
        0 <= k < 8,
        is_capture(g, n, t, i, j, k, l),
    ensures
        l + 2 <= n,
{
    {
        assert(in_range_spec(rayx(i, k, l + 1), n));
        assert(in_range_spec(rayy(j, k, l + 1), n));
        assert(dxs(k) != 0 || dys(k) != 0);
        if dxs(k) == 1 {
            assert(i + (l + 1) * 1 < n) by (nonlinear_arith)
                requires
                    in_range_spec(rayx(i, k, l + 1), n),
                    dxs(k) == 1,
                    rayx(i, k, l + 1) == i + (l + 1) * dxs(k),
            ;
            assert(l + 2 <= n);
        } else if dxs(k) == -1 {
            assert(0 <= i + (l + 1) * -1) by (nonlinear_arith)
                requires
                    in_range_spec(rayx(i, k, l + 1), n),
                    dxs(k) == -1,
                    rayx(i, k, l + 1) == i + (l + 1) * dxs(k),
            ;
            assert(l + 1 <= i);
            assert(l + 2 <= n);
        } else if dys(k) == 1 {
            assert(j + (l + 1) * 1 < n) by (nonlinear_arith)
                requires
                    in_range_spec(rayy(j, k, l + 1), n),
                    dys(k) == 1,
                    rayy(j, k, l + 1) == j + (l + 1) * dys(k),
            ;
            assert(l + 2 <= n);
        } else {
            assert(dys(k) == -1);
            assert(0 <= j + (l + 1) * -1) by (nonlinear_arith)
                requires
                    in_range_spec(rayy(j, k, l + 1), n),
                    dys(k) == -1,
                    rayy(j, k, l + 1) == j + (l + 1) * dys(k),
            ;
            assert(l + 2 <= n);
        }
    }
}

/// A direction flips either nothing or a run that fits on the board.
pub proof fn lemma_dir_flips_bound(
    g: Seq<Seq<Option<Turn>>>,
    n: int,
    t: Turn,
    i: int,
    j: int,
    k: int,
)
    requires
        0 <= i < n,
        0 <= j < n,
        0 <= k < 8,
    ensures
        dir_flips(g, n, t, i, j, k) + 2 <= n || dir_flips(g, n, t, i, j, k) == 0,
{
    if dir_flips(g, n, t, i, j, k) > 0 {
        let l = choose|l: int| is_capture(g, n, t, i, j, k, l);
        assert(is_capture(g, n, t, i, j, k, l));
        lemma_capture_bound(g, n, t, i, j, k, l);
    }
}

/// A cell on a ray, one step or more from the origin, is not the origin: the
/// eight directions all move.
pub proof fn lemma_ray_off_origin(i: int, j: int, k: int, m: int)
    requires
        0 <= k < 8,
        1 <= m,
    ensures
        rayx(i, k, m) != i || rayy(j, k, m) != j,
{
    assert(dxs(k) != 0 || dys(k) != 0);
    if dxs(k) != 0 {
        assert(m * dxs(k) != 0) by (nonlinear_arith)
            requires
                m >= 1,
                dxs(k) == 1 || dxs(k) == -1,
        ;
    } else {
        assert(m * dys(k) != 0) by (nonlinear_arith)
            requires
                m >= 1,
                dys(k) == 1 || dys(k) == -1,
        ;
    }
}

/// Lying on a captured run of one of the first `k + 1` directions splits into
/// lying on one of the first `k`, or on the run of direction `k` itself.
pub proof fn lemma_in_flip_upto_step(
    g: Seq<Seq<Option<Turn>>>,
    n: int,
    t: Turn,
    i: int,
    j: int,
    k: int,
    r: int,
    c: int,
)
    requires
        0 <= k,
    ensures
        in_flip_upto(g, n, t, i, j, k + 1, r, c) <==> (in_flip_upto(g, n, t, i, j, k, r, c) || (
        exists|m: int|
            1 <= m <= dir_flips(g, n, t, i, j, k) && r == #[trigger] rayx(i, k, m) && c == rayy(
                j,
                k,
                m,
            ))),
{
    if in_flip_upto(g, n, t, i, j, k + 1, r, c) {
        let (k2, m) = choose|k2: int, m: int|
            0 <= k2 < k + 1 && 1 <= m <= dir_flips(g, n, t, i, j, k2) && r == #[trigger] rayx(
                i,
                k2,
                m,
            ) && c == rayy(j, k2, m);
        if k2 < k {
            assert(in_flip_upto(g, n, t, i, j, k, r, c));
        } else {
            assert(r == rayx(i, k, m) && c == rayy(j, k, m));
        }
    }
    if in_flip_upto(g, n, t, i, j, k, r, c) {
        let (k2, m) = choose|k2: int, m: int|
            0 <= k2 < k && 1 <= m <= dir_flips(g, n, t, i, j, k2) && r == #[trigger] rayx(i, k2, m)
                && c == rayy(j, k2, m);
        assert(0 <= k2 < k + 1 && 1 <= m <= dir_flips(g, n, t, i, j, k2) && r == rayx(i, k2, m)
            && c == rayy(j, k2, m));
        assert(in_flip_upto(g, n, t, i, j, k + 1, r, c));
    }
    if exists|m: int|
        1 <= m <= dir_flips(g, n, t, i, j, k) && r == #[trigger] rayx(i, k, m) && c == rayy(
            j,
            k,
            m,
        ) {
        let m = choose|m: int|
            1 <= m <= dir_flips(g, n, t, i, j, k) && r == #[trigger] rayx(i, k, m) && c == rayy(
                j,
                k,
                m,
            );
        assert(0 <= k < k + 1 && 1 <= m <= dir_flips(g, n, t, i, j, k) && r == rayx(i, k, m) && c
            == rayy(j, k, m));
        assert(in_flip_upto(g, n, t, i, j, k + 1, r, c));
    }
}

/// The total over the first `k` directions is bounded by `k` runs that each
/// fit on the board.
pub proof fn lemma_flips_upto_bound(
    g: Seq<Seq<Option<Turn>>>,
    n: int,
    t: Turn,
    i: int,
    j: int,
    k: int,
)
    requires
        0 <= i < n,
        0 <= j < n,
        0 <= k <= 8,
        2 <= n,
    ensures
        flips_upto(g, n, t, i, j, k) <= k * n,
    decreases k,
{
    if k > 0 {
        lemma_flips_upto_bound(g, n, t, i, j, k - 1);
        lemma_dir_flips_bound(g, n, t, i, j, k - 1);
        assert((k - 1) * n + n == k * n) by (nonlinear_arith);
        assert(dir_flips(g, n, t, i, j, k - 1) <= n);
    }
}

} // verus!
