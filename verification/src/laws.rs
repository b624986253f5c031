use vstd::prelude::*;

use crate::rules::{
    cell_char, cell_flips, cell_of_char, dir_flips, flips_upto, grid_after, grid_count, grid_wf,
    in_flip_upto, init_cell, is_capture, other, piece_count, rayx, rayy, row_count, Turn,
};

verus! {

/// A row none of whose cells holds a disc of side `t` counts zero for `t`.
proof fn lemma_row_count_none(row: Seq<Option<Turn>>, t: Turn, upto: int)
    requires
        forall|q: int| 0 <= q < upto ==> row[q] != Some(t),
    ensures
        row_count(row, t, upto) == 0,
    decreases upto,
{
    if upto > 0 {
        lemma_row_count_none(row, t, upto - 1);
    }
}

/// A row with a disc of side `t` in exactly one scanned cell counts one.
proof fn lemma_row_count_one(row: Seq<Option<Turn>>, t: Turn, upto: int, p: int)
    requires
        0 <= p < upto,
        row[p] == Some(t),
        forall|q: int| 0 <= q < upto && q != p ==> row[q] != Some(t),
    ensures
        row_count(row, t, upto) == 1,
    decreases upto,
{
    if upto - 1 == p {
        lemma_row_count_none(row, t, upto - 1);
    } else {
        lemma_row_count_one(row, t, upto - 1, p);
    }
}

/// Rows whose scanned cells are occupied in the same places hold the same
/// total number of discs, whatever the colors.
proof fn lemma_row_occupancy(row1: Seq<Option<Turn>>, row2: Seq<Option<Turn>>, upto: int)
    requires
        forall|q: int| 0 <= q < upto ==> ((#[trigger] row2[q]) is Some <==> row1[q] is Some),
    ensures
        row_count(row2, Turn::White, upto) + row_count(row2, Turn::Black, upto) == row_count(
            row1,
            Turn::White,
            upto,
        ) + row_count(row1, Turn::Black, upto),
    decreases upto,
{
    if upto > 0 {
        lemma_row_occupancy(row1, row2, upto - 1);
        assert((row2[upto - 1]) is Some <==> (row1[upto - 1]) is Some);
        if row1[upto - 1] is Some {
            assert(row1[upto - 1] == Some(Turn::White) || row1[upto - 1] == Some(Turn::Black));
            assert(row2[upto - 1] == Some(Turn::White) || row2[upto - 1] == Some(Turn::Black));
        }
    }
}

/// A row that gains a disc in exactly one cell, the other scanned cells
/// keeping their occupancy, holds one disc more in total.
proof fn lemma_row_occupancy_one_more(
    row1: Seq<Option<Turn>>,
    row2: Seq<Option<Turn>>,
    upto: int,
    p: int,
)
    requires
        0 <= p < upto,
        row1[p] is None,
        row2[p] is Some,
        forall|q: int| 0 <= q < upto && q != p ==> ((#[trigger] row2[q]) is Some <==> row1[q] is Some),
    ensures
        row_count(row2, Turn::White, upto) + row_count(row2, Turn::Black, upto) == row_count(
            row1,
            Turn::White,
            upto,
        ) + row_count(row1, Turn::Black, upto) + 1,
    decreases upto,
{
    if upto - 1 == p {
        lemma_row_occupancy(row1, row2, upto - 1);
        assert(row2[p] == Some(Turn::White) || row2[p] == Some(Turn::Black));
    } else {
        lemma_row_occupancy_one_more(row1, row2, upto - 1, p);
        assert((row2[upto - 1]) is Some <==> (row1[upto - 1]) is Some);
        if row1[upto - 1] is Some {
            assert(row1[upto - 1] == Some(Turn::White) || row1[upto - 1] == Some(Turn::Black));
            assert(row2[upto - 1] == Some(Turn::White) || row2[upto - 1] == Some(Turn::Black));
        }
    }
}

/// The first `rows` rows of the fresh board of half-dimension `n` hold no
/// disc of side `t` until row `n - 1`, one there, and a second in row `n`.
proof fn lemma_init_grid_count(g: Seq<Seq<Option<Turn>>>, n: int, t: Turn, rows: int)
    requires
        1 <= n,
        grid_wf(g, 2 * n),
        forall|x: int, y: int|
            0 <= x < 2 * n && 0 <= y < 2 * n ==> #[trigger] g[x][y] == init_cell(n, x, y),
        0 <= rows <= 2 * n,
    ensures
        grid_count(g, t, 2 * n, rows) == (if rows <= n - 1 {
            0int
        } else if rows == n {
            1int
        } else {
            2int
        }),
    decreases rows,
{
    if rows > 0 {
        lemma_init_grid_count(g, n, t, rows - 1);
        let x = rows - 1;
        if x == n - 1 {
            let p: int = if t == Turn::White {
                n - 1
            } else {
                n
            };
            lemma_row_count_one(g[x], t, 2 * n, p);
        } else if x == n {
            let p: int = if t == Turn::White {
                n
            } else {
                n - 1
            };
            lemma_row_count_one(g[x], t, 2 * n, p);
        } else {
            lemma_row_count_none(g[x], t, 2 * n);
        }
    }
}

/// Construction: a fresh board of half-dimension `n` holds exactly two discs
/// of each side.
pub proof fn lemma_new_counts(g: Seq<Seq<Option<Turn>>>, n: int)
    requires
        1 <= n,
        grid_wf(g, 2 * n),
        forall|x: int, y: int|
            0 <= x < 2 * n && 0 <= y < 2 * n ==> #[trigger] g[x][y] == init_cell(n, x, y),
    ensures
        piece_count(g, 2 * n, Turn::White) == 2,
        piece_count(g, 2 * n, Turn::Black) == 2,
{
    lemma_init_grid_count(g, n, Turn::White, 2 * n);
    lemma_init_grid_count(g, n, Turn::Black, 2 * n);
}

/// The total over the first `k` directions is positive exactly when one of
/// those directions captures.
proof fn lemma_flips_upto_pos(g: Seq<Seq<Option<Turn>>>, n: int, t: Turn, i: int, j: int, k: int)
    requires
        0 <= k,
    ensures
        flips_upto(g, n, t, i, j, k) > 0 <==> exists|k2: int|
            0 <= k2 < k && #[trigger] dir_flips(g, n, t, i, j, k2) > 0,
    decreases k,
{
    if k > 0 {
        lemma_flips_upto_pos(g, n, t, i, j, k - 1);
        if dir_flips(g, n, t, i, j, k - 1) > 0 {
            assert(exists|k2: int| 0 <= k2 < k && #[trigger] dir_flips(g, n, t, i, j, k2) > 0);
        } else if flips_upto(g, n, t, i, j, k) > 0 {
            let k2 = choose|k2: int|
                0 <= k2 < k - 1 && #[trigger] dir_flips(g, n, t, i, j, k2) > 0;
            assert(0 <= k2 < k && dir_flips(g, n, t, i, j, k2) > 0);
        }
        if exists|k2: int| 0 <= k2 < k && #[trigger] dir_flips(g, n, t, i, j, k2) > 0 {
            let k2 = choose|k2: int| 0 <= k2 < k && #[trigger] dir_flips(g, n, t, i, j, k2) > 0;
            if k2 < k - 1 {
                assert(flips_upto(g, n, t, i, j, k - 1) > 0);
            }
        }
    }
}

/// Legality: the capture count of a cell — the value that `cnt_reversable`
/// reports, and whose positivity is exactly the precondition of `put` — is
/// positive iff the cell is empty and some direction captures at least one
/// disc; on an occupied cell it is zero.
pub proof fn lemma_legality(g: Seq<Seq<Option<Turn>>>, n: int, t: Turn, i: int, j: int)
    requires
        0 <= i < n,
        0 <= j < n,
    ensures
        g[i][j] is Some ==> cell_flips(g, n, t, i, j) == 0,
        cell_flips(g, n, t, i, j) > 0 <==> (g[i][j] is None && exists|k: int|
            0 <= k < 8 && #[trigger] dir_flips(g, n, t, i, j, k) > 0),
{
    lemma_flips_upto_pos(g, n, t, i, j, 8);
}

/// A captured cell was occupied before the placement: flipping changes a
/// disc's color, never its presence.
proof fn lemma_flip_occupied(g: Seq<Seq<Option<Turn>>>, n: int, t: Turn, i: int, j: int, r: int, c: int)
    requires
        in_flip_upto(g, n, t, i, j, 8, r, c),
    ensures
        g[r][c] is Some,
{
    let (k2, m) = choose|k2: int, m: int|
        0 <= k2 < 8 && 1 <= m <= dir_flips(g, n, t, i, j, k2) && r == #[trigger] rayx(i, k2, m)
            && c == rayy(j, k2, m);
    let l = choose|l: int| is_capture(g, n, t, i, j, k2, l);
    assert(is_capture(g, n, t, i, j, k2, l));
    assert(l == dir_flips(g, n, t, i, j, k2));
    assert(g[rayx(i, k2, m)][rayy(j, k2, m)] == Some(other(t)));
}

/// The running total of discs over the first `rows` rows grows by exactly one
/// between a grid and the same grid with one cell newly occupied and every
/// other cell's occupancy unchanged.
proof fn lemma_grid_conservation(
    g1: Seq<Seq<Option<Turn>>>,
    g2: Seq<Seq<Option<Turn>>>,
    n: int,
    i: int,
    j: int,
    rows: int,
)
    requires
        grid_wf(g1, n),
        grid_wf(g2, n),
        0 <= i < n,
        0 <= j < n,
        0 <= rows <= n,
        g1[i][j] is None,
        g2[i][j] is Some,
        forall|r: int, c: int|
            0 <= r < n && 0 <= c < n && !(r == i && c == j) ==> ((#[trigger] g2[r][c]) is Some
                <==> g1[r][c] is Some),
    ensures
        grid_count(g2, Turn::White, n, rows) + grid_count(g2, Turn::Black, n, rows) == grid_count(
            g1,
            Turn::White,
            n,
            rows,
        ) + grid_count(g1, Turn::Black, n, rows) + (if i < rows {
            1int
        } else {
            0int
        }),
    decreases rows,
{
    if rows > 0 {
        lemma_grid_conservation(g1, g2, n, i, j, rows - 1);
        let r = rows - 1;
        if r == i {
            lemma_row_occupancy_one_more(g1[r], g2[r], n, j);
        } else {
            lemma_row_occupancy(g1[r], g2[r], n);
        }
    }
}

/// Conservation: a legal placement adds exactly one disc to the board, for
/// the two sides together; captured discs change owner but stay on the board.
pub proof fn lemma_conservation(g: Seq<Seq<Option<Turn>>>, n: int, t: Turn, i: int, j: int)
    requires
        grid_wf(g, n),
        0 <= i < n,
        0 <= j < n,
        cell_flips(g, n, t, i, j) > 0,
    ensures
        piece_count(grid_after(g, n, t, i, j), n, Turn::White) + piece_count(
            grid_after(g, n, t, i, j),
            n,
            Turn::Black,
        ) == piece_count(g, n, Turn::White) + piece_count(g, n, Turn::Black) + 1,
{
    let g2 = grid_after(g, n, t, i, j);
    assert(grid_wf(g2, n)) by {
        assert(g2.len() == n);
        assert forall|r: int| 0 <= r < n implies (#[trigger] g2[r]).len() == n by {}
    }
    assert(g[i][j] is None);
    assert(g2[i][j] is Some);
    assert forall|r: int, c: int|
        0 <= r < n && 0 <= c < n && !(r == i && c == j) implies ((#[trigger] g2[r][c]) is Some
        <==> g[r][c] is Some) by {
        if in_flip_upto(g, n, t, i, j, 8, r, c) {
            lemma_flip_occupied(g, n, t, i, j, r, c);
        }
    }
    lemma_grid_conservation(g, g2, n, i, j, n);
}

/// Two matrices whose entries are both pinned pointwise by one function of
/// the cell coordinates are equal: a query whose contract pins every entry
/// has exactly one possible result, so repeating it changes nothing.
pub proof fn lemma_matrix_deterministic<A>(
    n: int,
    f: spec_fn(int, int) -> A,
    v1: Seq<Seq<A>>,
    v2: Seq<Seq<A>>,
)
    requires
        v1.len() == n,
        v2.len() == n,
        forall|r: int| 0 <= r < n ==> (#[trigger] v1[r]).len() == n,
        forall|r: int| 0 <= r < n ==> (#[trigger] v2[r]).len() == n,
        forall|r: int, c: int| 0 <= r < n && 0 <= c < n ==> #[trigger] v1[r][c] == f(r, c),
        forall|r: int, c: int| 0 <= r < n && 0 <= c < n ==> #[trigger] v2[r][c] == f(r, c),
    ensures
        v1 =~~= v2,
{
}

/// Idempotence of the capture-count query: any two results that meet
/// `cnt_reversable`'s contract on one board agree.
pub proof fn lemma_counts_deterministic(
    g: Seq<Seq<Option<Turn>>>,
    n: int,
    t: Turn,
    v1: Seq<Seq<usize>>,
    v2: Seq<Seq<usize>>,
)
    requires
        v1.len() == n,
        v2.len() == n,
        forall|r: int| 0 <= r < n ==> (#[trigger] v1[r]).len() == n,
        forall|r: int| 0 <= r < n ==> (#[trigger] v2[r]).len() == n,
        forall|r: int, c: int|
            0 <= r < n && 0 <= c < n ==> #[trigger] v1[r][c] == cell_flips(g, n, t, r, c),
        forall|r: int, c: int|
            0 <= r < n && 0 <= c < n ==> #[trigger] v2[r][c] == cell_flips(g, n, t, r, c),
    ensures
        v1 =~~= v2,
{
    lemma_matrix_deterministic(
        n,
        |r: int, c: int| cell_flips(g, n, t, r, c) as usize,
        v1,
        v2,
    );
}

/// Idempotence of the rendering query: any two results that meet
/// `show_board`'s contract on one board agree.
pub proof fn lemma_render_deterministic(
    g: Seq<Seq<Option<Turn>>>,
    n: int,
    v1: Seq<Seq<char>>,
    v2: Seq<Seq<char>>,
)
    requires
        v1.len() == n,
        v2.len() == n,
        forall|r: int| 0 <= r < n ==> (#[trigger] v1[r]).len() == n,
        forall|r: int| 0 <= r < n ==> (#[trigger] v2[r]).len() == n,
        forall|r: int, c: int|
            0 <= r < n && 0 <= c < n ==> #[trigger] v1[r][c] == cell_char(g[r][c]),
        forall|r: int, c: int|
            0 <= r < n && 0 <= c < n ==> #[trigger] v2[r][c] == cell_char(g[r][c]),
    ensures
        v1 =~~= v2,
{
    lemma_matrix_deterministic(n, |r: int, c: int| cell_char(g[r][c]), v1, v2);
}

/// The matrix of rendering symbols of a grid: what `show_board` returns.
pub open spec fn chars_of_grid(g: Seq<Seq<Option<Turn>>>) -> Seq<Seq<char>> {
    Seq::new(g.len(), |r: int| Seq::new(g[r].len(), |c: int| cell_char(g[r][c])))
}

/// The grid read back from a matrix of rendering symbols.
pub open spec fn grid_of_chars(v: Seq<Seq<char>>) -> Seq<Seq<Option<Turn>>> {
    Seq::new(v.len(), |r: int| Seq::new(v[r].len(), |c: int| cell_of_char(v[r][c])))
}

/// Round trip: the rendered matrix determines the grid exactly, so together
/// with the side to move it suffices to recompute every capture count — no
/// state beyond the grid contents and the side to move influences legality.
pub proof fn lemma_render_round_trip(g: Seq<Seq<Option<Turn>>>, n: int)
    requires
        grid_wf(g, n),
    ensures
        grid_of_chars(chars_of_grid(g)) == g,
{
    assert forall|r: int| 0 <= r < n implies grid_of_chars(chars_of_grid(g))[r] =~= g[r] by {
        assert forall|c: int| 0 <= c < n implies grid_of_chars(chars_of_grid(g))[r][c]
            == g[r][c] by {
            assert(cell_of_char(cell_char(g[r][c])) == g[r][c]);
        }
    }
    assert(grid_of_chars(chars_of_grid(g)) =~~= g);
}

} // verus!
