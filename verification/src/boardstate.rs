use vstd::prelude::*;

use crate::rules::{
    cell_char, cell_flips, dir_flips, dxs, dys, flips_upto, grid_after, grid_count, grid_wf, gview,
    has_move,
    in_flip_upto, in_range_spec, init_cell, is_capture, lemma_capture_bound, lemma_capture_unique,
    lemma_dir_flips_bound, lemma_in_flip_upto_step, lemma_ray_off_origin,
    lemma_flips_upto_bound, other, piece_count, rayx, rayy, row_count, Turn,
};

verus! {

/// The rendering symbol of a white disc.
pub const WHITE: char = 'o';

/// The rendering symbol of a black disc.
pub const BLACK: char = '#';

/// The rendering symbol of an empty cell.
pub const NO_PIECE: char = '.';

/// The board of the game: a square grid of cells together with the side whose
/// turn it is to move.
#[derive(Debug)]
pub struct BoardState {
    size: usize,
    state: Vec<Vec<Option<Turn>>>,
    turn: Turn,
}

impl BoardState {
    /// The mathematical view of the grid.
    pub closed spec fn grid(&self) -> Seq<Seq<Option<Turn>>> {
        gview(self.state)
    }

    /// The dimension of the board, as a mathematical integer.
    pub closed spec fn spec_size(&self) -> int {
        self.size as int
    }

    /// The side to move.
    pub closed spec fn spec_turn(&self) -> Turn {
        self.turn
    }

    /// Well-formedness: the grid is square of the stored dimension, and the
    /// dimension is even, at least 2, and small enough that every coordinate
    /// computation and every count fits its machine integer.
    pub closed spec fn wf(&self) -> bool {
        &&& grid_wf(self.grid(), self.spec_size())
        &&& 2 <= self.size
        &&& self.size <= 65534
        &&& self.size % 2 == 0
    }

    /// Build a fresh board of half-dimension `n` (so the grid is `2n` by
    /// `2n`), with the four central cells occupied as two diagonal pairs and
    /// the given starting side to move.
    pub fn new(n: usize, white_turn: bool) -> (r: BoardState)
        requires
            1 <= n <= 32767,
        ensures
            r.wf(),
            r.spec_size() == 2 * n,
            r.spec_turn() == (if white_turn {
                Turn::White
            } else {
                Turn::Black
            }),
            forall|x: int, y: int|
                0 <= x < 2 * n && 0 <= y < 2 * n ==> r.grid()[x][y] == init_cell(n as int, x, y),
            piece_count(r.grid(), 2 * n, Turn::White) == 2,
            piece_count(r.grid(), 2 * n, Turn::Black) == 2,
    {
        let size = 2 * n;
        let mut s: Vec<Vec<Option<Turn>>> = Vec::new();
        while s.len() < size
            invariant
                size == 2 * n,
                n <= 32767,
                s@.len() <= size,
                forall|x: int|
                    0 <= x < s@.len() ==> (#[trigger] s@[x])@.len() == size && forall|y: int|
                        0 <= y < size ==> s@[x]@[y] is None,
            decreases size - s@.len(),
        {
            let mut row: Vec<Option<Turn>> = Vec::new();
            while row.len() < size
                invariant
                    row@.len() <= size,
                    forall|y: int| 0 <= y < row@.len() ==> row@[y] is None,
                decreases size - row@.len(),
            {
                row.push(None);
            }
            s.push(row);
        }
        s[n - 1][n - 1] = Some(Turn::White);
        s[n - 1][n] = Some(Turn::Black);
        s[n][n - 1] = Some(Turn::Black);
        s[n][n] = Some(Turn::White);
        proof {
            let g = gview(s);
            assert(g.len() == 2 * n);
            assert forall|x: int| 0 <= x < 2 * n implies (#[trigger] g[x]).len() == 2 * n by {
                assert(g[x] == s@[x]@);
            }
            assert forall|x: int, y: int| 0 <= x < 2 * n && 0 <= y < 2 * n implies #[trigger] g[x][y]
                == init_cell(n as int, x, y) by {
                assert(g[x] == s@[x]@);
            }
            assert(grid_wf(g, 2 * n));
            crate::laws::lemma_new_counts(g, n as int);
        }
        BoardState {
            size,
            state: s,
            turn: if white_turn {
                Turn::White
            } else {
                Turn::Black
            },
        }
    }

    /// The dimension of the board.
    pub fn get_size(&self) -> (r: usize)
        ensures
            r == self.spec_size(),
    {
        self.size
    }

    /// The rendering symbol of a white disc.
    pub fn white_piece() -> (r: char)
        ensures
            r == cell_char(Some(Turn::White)),
    {
        WHITE
    }

    /// The rendering symbol of a black disc.
    pub fn black_piece() -> (r: char)
        ensures
            r == cell_char(Some(Turn::Black)),
    {
        BLACK
    }

    /// The rendering symbol of the side to move.
    pub fn which_turn(&self) -> (r: char)
        ensures
            r == cell_char(Some(self.spec_turn())),
    {
        match self.turn {
            Turn::Black => BLACK,
            Turn::White => WHITE,
        }
    }

    /// Whether it is white's turn.
    pub fn is_it_white_turn(&self) -> (r: bool)
        ensures
            r == (self.spec_turn() == Turn::White),
    {
        self.turn == Turn::White
    }

    /// The board as a matrix of rendering symbols: a copy that shares no
    /// storage with the board itself.
    pub fn show_board(&self) -> (v: Vec<Vec<char>>)
        requires
            self.wf(),
        ensures
            v@.len() == self.spec_size(),
            forall|r: int|
                0 <= r < self.spec_size() ==> (#[trigger] v@[r])@.len() == self.spec_size(),
            forall|r: int, c: int|
                0 <= r < self.spec_size() && 0 <= c < self.spec_size() ==> v@[r]@[c] == cell_char(
                    self.grid()[r][c],
                ),
    {
        let n = self.size;
        let ghost g = self.grid();
        let mut v: Vec<Vec<char>> = Vec::new();
        let mut i: usize = 0;
        while i < n
            invariant
                self.wf(),
                n == self.spec_size(),
                g == self.grid(),
                i <= n,
                v@.len() == i,
                forall|r: int| 0 <= r < i ==> (#[trigger] v@[r])@.len() == n,
                forall|r: int, c: int|
                    0 <= r < i && 0 <= c < n ==> v@[r]@[c] == cell_char(g[r][c]),
            decreases n - i,
        {
            let mut row: Vec<char> = Vec::new();
            let mut j: usize = 0;
            proof {
                assert(g[i as int] == self.state@[i as int]@);
                assert(g[i as int].len() == n as int);
            }
            while j < n
                invariant
                    self.wf(),
                    n == self.spec_size(),
                    g == self.grid(),
                    i < n,
                    j <= n,
                    g[i as int] == self.state@[i as int]@,
                    g[i as int].len() == n as int,
                    row@.len() == j,
                    forall|c: int| 0 <= c < j ==> row@[c] == cell_char(g[i as int][c]),
                decreases n - j,
            {
                let ch = match self.state[i][j] {
                    None => NO_PIECE,
                    Some(Turn::Black) => BLACK,
                    Some(Turn::White) => WHITE,
                };
                row.push(ch);
                j += 1;
            }
            v.push(row);
            i += 1;
        }
        v
    }

    /// The number of discs of each side on the board, each paired with its
    /// rendering symbol: white first, black second.
    pub fn count_pieces(&self) -> (r: ((char, usize), (char, usize)))
        requires
            self.wf(),
        ensures
            r.0.0 == cell_char(Some(Turn::White)),
            r.1.0 == cell_char(Some(Turn::Black)),
            r.0.1 == piece_count(self.grid(), self.spec_size(), Turn::White),
            r.1.1 == piece_count(self.grid(), self.spec_size(), Turn::Black),
    {
        let mut white_count: usize = 0;
        let mut black_count: usize = 0;
        let n = self.size;
        let ghost g = self.grid();
        let mut i: usize = 0;
        while i < n
            invariant
                self.wf(),
                n == self.spec_size(),
                g == self.grid(),
                i <= n,
                white_count == grid_count(g, Turn::White, n as int, i as int),
                black_count == grid_count(g, Turn::Black, n as int, i as int),
                white_count + black_count <= i * n,
            decreases n - i,
        {
            let mut j: usize = 0;
            proof {
                assert(g[i as int] == self.state@[i as int]@);
                assert(g[i as int].len() == n as int);
                assert(i * n + n == (i + 1) * n) by (nonlinear_arith);
                assert(i * n <= (n - 1) * n && (n - 1) * n + n <= n * n && n * n <= 65534 * 65534)
                    by (nonlinear_arith)
                    requires
                        0 <= i < n <= 65534,
                ;
            }
            while j < n
                invariant
                    self.wf(),
                    n == self.spec_size(),
                    g == self.grid(),
                    i < n,
                    j <= n,
                    g[i as int] == self.state@[i as int]@,
                    g[i as int].len() == n as int,
                    i * n + n <= 65534 * 65534,
                    white_count == grid_count(g, Turn::White, n as int, i as int) + row_count(
                        g[i as int],
                        Turn::White,
                        j as int,
                    ),
                    black_count == grid_count(g, Turn::Black, n as int, i as int) + row_count(
                        g[i as int],
                        Turn::Black,
                        j as int,
                    ),
                    white_count + black_count <= i * n + j,
                decreases n - j,
            {
                if let Some(t) = &self.state[i][j] {
                    match t {
                        Turn::White => {
                            white_count += 1;
                        },
                        Turn::Black => {
                            black_count += 1;
                        },
                    }
                }
                j += 1;
            }
            i += 1;
        }
        ((WHITE, white_count), (BLACK, black_count))
    }

    /// The capture counts: for every cell, the number of opposing discs that
    /// the side to move would flip by placing there; 0 on occupied cells. A
    /// placement at a cell is legal exactly when its count is positive.
    pub fn cnt_reversable(&self) -> (v: Vec<Vec<usize>>)
        requires
            self.wf(),
        ensures
            v@.len() == self.spec_size(),
            forall|r: int|
                0 <= r < self.spec_size() ==> (#[trigger] v@[r])@.len() == self.spec_size(),
            forall|r: int, c: int|
                0 <= r < self.spec_size() && 0 <= c < self.spec_size() ==> v@[r]@[c] == cell_flips(
                    self.grid(),
                    self.spec_size(),
                    self.spec_turn(),
                    r,
                    c,
                ),
    {
        let n = self.size;
        let t = self.turn;
        let ghost g = self.grid();
        let mut v: Vec<Vec<usize>> = Vec::new();
        let mut i: usize = 0;
        while i < n
            invariant
                self.wf(),
                n == self.spec_size(),
                t == self.spec_turn(),
                g == self.grid(),
                i <= n,
                v@.len() == i,
                forall|r: int| 0 <= r < i ==> (#[trigger] v@[r])@.len() == n,
                forall|r: int, c: int|
                    0 <= r < i && 0 <= c < n ==> v@[r]@[c] == cell_flips(g, n as int, t, r, c),
            decreases n - i,
        {
            let mut row: Vec<usize> = Vec::new();
            let mut j: usize = 0;
            proof {
                assert(g[i as int] == self.state@[i as int]@);
                assert(g[i as int].len() == n as int);
            }
            while j < n
                invariant
                    self.wf(),
                    n == self.spec_size(),
                    t == self.spec_turn(),
                    g == self.grid(),
                    i < n,
                    j <= n,
                    g[i as int] == self.state@[i as int]@,
                    g[i as int].len() == n as int,
                    row@.len() == j,
                    forall|c: int|
                        0 <= c < j ==> row@[c] == cell_flips(g, n as int, t, i as int, c),
                decreases n - j,
            {
                let mut cnt: usize = 0;
                if self.state[i][j].is_some() {
                    proof {
                        assert(cell_flips(g, n as int, t, i as int, j as int) == 0);
                    }
                } else {
                    let mut k: usize = 0;
                    while k < 8
                        invariant
                            self.wf(),
                            n == self.spec_size(),
                            t == self.spec_turn(),
                            g == self.grid(),
                            i < n,
                            j < n,
                            k <= 8,
                            cnt == flips_upto(g, n as int, t, i as int, j as int, k as int),
                            cnt <= k * n,
                        decreases 8 - k,
                    {
                        proof {
                            assert(k * n + n == (k + 1) * n) by (nonlinear_arith);
                            assert(k * n <= 8 * 65534) by (nonlinear_arith)
                                requires
                                    0 <= k < 8,
                                    0 <= n <= 65534,
                            ;
                            lemma_dir_flips_bound(g, n as int, t, i as int, j as int, k as int);
                        }
                        let r = dir_run(&self.state, n, t, i, j, k);
                        cnt += r;
                        k += 1;
                    }
                    proof {
                        assert(g[i as int][j as int] is None);
                        assert(cnt == cell_flips(g, n as int, t, i as int, j as int));
                    }
                }
                row.push(cnt);
                j += 1;
            }
            v.push(row);
            i += 1;
        }
        v
    }

    /// Whether the side to move has at least one legal placement.
    pub fn puttable(&self) -> (r: bool)
        requires
            self.wf(),
        ensures
            r == has_move(self.grid(), self.spec_size(), self.spec_turn()),
    {
        let n = self.size;
        let ghost g = self.grid();
        let ghost t = self.spec_turn();
        let vec = self.cnt_reversable();
        let mut flag: bool = false;
        let mut i: usize = 0;
        while i < n
            invariant
                n == self.spec_size(),
                g == self.grid(),
                t == self.spec_turn(),
                i <= n,
                vec@.len() == n,
                forall|r: int| 0 <= r < n ==> (#[trigger] vec@[r])@.len() == n,
                forall|r: int, c: int|
                    0 <= r < n && 0 <= c < n ==> vec@[r]@[c] == cell_flips(g, n as int, t, r, c),
                flag ==> has_move(g, n as int, t),
                !flag ==> forall|r: int, c: int|
                    0 <= r < i && 0 <= c < n ==> #[trigger] cell_flips(g, n as int, t, r, c) == 0,
            decreases n - i,
        {
            let mut j: usize = 0;
            while j < n
                invariant
                    n == self.spec_size(),
                    g == self.grid(),
                    t == self.spec_turn(),
                    i < n,
                    j <= n,
                    vec@.len() == n,
                    forall|r: int| 0 <= r < n ==> (#[trigger] vec@[r])@.len() == n,
                    forall|r: int, c: int|
                        0 <= r < n && 0 <= c < n ==> vec@[r]@[c] == cell_flips(
                            g,
                            n as int,
                            t,
                            r,
                            c,
                        ),
                    flag ==> has_move(g, n as int, t),
                    !flag ==> forall|r: int, c: int|
                        0 <= r < i && 0 <= c < n ==> #[trigger] cell_flips(g, n as int, t, r, c)
                            == 0,
                    !flag ==> forall|c: int|
                        0 <= c < j ==> #[trigger] cell_flips(g, n as int, t, i as int, c) == 0,
                decreases n - j,
            {
                if vec[i][j] > 0 {
                    proof {
                        assert(cell_flips(g, n as int, t, i as int, j as int) > 0);
                    }
                    flag = true;
                }
                j += 1;
            }
            i += 1;
        }
        proof {
            if !flag {
                assert forall|r: int, c: int|
                    0 <= r < n && 0 <= c < n ==> #[trigger] cell_flips(g, n as int, t, r, c)
                        == 0 by {}
            }
        }
        flag
    }

    /// Place a disc of the side to move at `(i, j)`, flip every captured run,
    /// and resolve the turn: the move passes to the opponent when the
    /// opponent has a legal placement; otherwise it stays with the mover
    /// (the opponent's turn is silently skipped) when the mover has one; and
    /// when neither side has one the game is over and the result is `false`.
    pub fn put(&mut self, i: usize, j: usize) -> (r: bool)
        requires
            old(self).wf(),
            i < old(self).spec_size(),
            j < old(self).spec_size(),
            cell_flips(
                old(self).grid(),
                old(self).spec_size(),
                old(self).spec_turn(),
                i as int,
                j as int,
            ) > 0,
        ensures
            final(self).wf(),
            final(self).spec_size() == old(self).spec_size(),
            final(self).grid() == grid_after(
                old(self).grid(),
                old(self).spec_size(),
                old(self).spec_turn(),
                i as int,
                j as int,
            ),
            ({
                let n = old(self).spec_size();
                let me = old(self).spec_turn();
                let opp = other(me);
                let g2 = grid_after(old(self).grid(), n, me, i as int, j as int);
                &&& (has_move(g2, n, opp) ==> final(self).spec_turn() == opp && r)
                &&& (!has_move(g2, n, opp) && has_move(g2, n, me) ==> final(self).spec_turn() == me
                    && r)
                &&& (!has_move(g2, n, opp) && !has_move(g2, n, me) ==> final(self).spec_turn()
                    == me && !r)
            }),
    {
        let n = self.size;
        let t = self.turn;
        let ghost g0 = self.grid();
        let mut runs: Vec<usize> = Vec::new();
        let mut k: usize = 0;
        while k < 8
            invariant
                self == old(self),
                self.wf(),
                n == self.spec_size(),
                t == self.spec_turn(),
                g0 == self.grid(),
                i < n,
                j < n,
                k <= 8,
                runs@.len() == k,
                forall|k2: int|
                    0 <= k2 < k ==> (#[trigger] runs@[k2]) == dir_flips(
                        g0,
                        n as int,
                        t,
                        i as int,
                        j as int,
                        k2,
                    ),
            decreases 8 - k,
        {
            let d = dir_run(&self.state, n, t, i, j, k);
            runs.push(d);
            k += 1;
        }
        self.state[i][j] = Some(t);
        proof {
            assert(self.state@.len() == n);
            assert forall|x: int| 0 <= x < n implies (#[trigger] gview(self.state)[x]).len()
                == n as int by {
                assert(gview(self.state)[x] == self.state@[x]@);
                if x != i as int {
                    assert(self.state@[x]@ == g0[x]);
                } else {
                    assert(self.state@[x]@ == g0[x].update(j as int, Some(t)));
                }
            }
            assert(grid_wf(gview(self.state), n as int));
            assert forall|x: int, y: int| 0 <= x < n && 0 <= y < n implies #[trigger] gview(
                self.state,
            )[x][y] == (if (x == i && y == j) || in_flip_upto(
                g0,
                n as int,
                t,
                i as int,
                j as int,
                0,
                x,
                y,
            ) {
                Some(t)
            } else {
                g0[x][y]
            }) by {
                assert(gview(self.state)[x] == self.state@[x]@);
                assert(!in_flip_upto(g0, n as int, t, i as int, j as int, 0, x, y));
            }
        }
        let mut k: usize = 0;
        while k < 8
            invariant
                self.size == n,
                self.turn == t,
                2 <= n <= 65534,
                n % 2 == 0,
                grid_wf(gview(self.state), n as int),
                self.state@.len() == n,
                i < n,
                j < n,
                k <= 8,
                runs@.len() == 8,
                forall|k2: int|
                    0 <= k2 < 8 ==> (#[trigger] runs@[k2]) == dir_flips(
                        g0,
                        n as int,
                        t,
                        i as int,
                        j as int,
                        k2,
                    ),
                forall|x: int, y: int|
                    0 <= x < n && 0 <= y < n ==> #[trigger] gview(self.state)[x][y] == (if (x == i
                        && y == j) || in_flip_upto(
                        g0,
                        n as int,
                        t,
                        i as int,
                        j as int,
                        k as int,
                        x,
                        y,
                    ) {
                        Some(t)
                    } else {
                        g0[x][y]
                    }),
            decreases 8 - k,
        {
            let ghost ki = k as int;
            let l = runs[k];
            let dxv = dx(k);
            let dyv = dy(k);
            proof {
                if l > 0 {
                    let lc = choose|lc: int|
                        is_capture(g0, n as int, t, i as int, j as int, ki, lc);
                    assert(is_capture(g0, n as int, t, i as int, j as int, ki, lc));
                    assert(lc == l);
                    lemma_capture_bound(g0, n as int, t, i as int, j as int, ki, l as int);
                }
            }
            let mut m: usize = 1;
            while m <= l
                invariant
                    self.size == n,
                    self.turn == t,
                    2 <= n <= 65534,
                    grid_wf(gview(self.state), n as int),
                    self.state@.len() == n,
                    i < n,
                    j < n,
                    k < 8,
                    ki == k as int,
                    dxv as int == dxs(ki),
                    dyv as int == dys(ki),
                    1 <= m <= l + 1,
                    l > 0 ==> l + 2 <= n,
                    l == dir_flips(g0, n as int, t, i as int, j as int, ki),
                    l > 0 ==> is_capture(g0, n as int, t, i as int, j as int, ki, l as int),
                    forall|x: int, y: int|
                        0 <= x < n && 0 <= y < n ==> #[trigger] gview(self.state)[x][y] == (if (x
                            == i && y == j) || in_flip_upto(
                            g0,
                            n as int,
                            t,
                            i as int,
                            j as int,
                            ki,
                            x,
                            y,
                        ) || (exists|m2: int|
                            1 <= m2 < m && x == #[trigger] rayx(i as int, ki, m2) && y == rayy(
                                j as int,
                                ki,
                                m2,
                            )) {
                            Some(t)
                        } else {
                            g0[x][y]
                        }),
                decreases l + 1 - m,
            {
                proof {
                    assert(in_range_spec(rayx(i as int, ki, m as int), n as int) && in_range_spec(
                        rayy(j as int, ki, m as int),
                        n as int,
                    ));
                    assert(-65534 <= (m as int) * (dxv as int) <= 65534) by (nonlinear_arith)
                        requires
                            0 <= m as int <= 65534,
                            -1 <= dxv as int <= 1,
                    ;
                    assert(-65534 <= (m as int) * (dyv as int) <= 65534) by (nonlinear_arith)
                        requires
                            0 <= m as int <= 65534,
                            -1 <= dyv as int <= 1,
                    ;
                }
                let x = i as i32 + (m as i32) * dxv;
                let y = j as i32 + (m as i32) * dyv;
                proof {
                    assert(x as int == rayx(i as int, ki, m as int));
                    assert(y as int == rayy(j as int, ki, m as int));
                }
                let xu = x as usize;
                let yu = y as usize;
                let ghost pre = gview(self.state);
                proof {
                    assert(pre[xu as int] == self.state@[xu as int]@);
                    assert(pre[xu as int].len() == n as int);
                }
                self.state[xu][yu] = Some(t);
                proof {
                    assert(self.state@.len() == n);
                    assert forall|x2: int| 0 <= x2 < n implies (#[trigger] gview(
                        self.state,
                    )[x2]).len() == n as int by {
                        assert(gview(self.state)[x2] == self.state@[x2]@);
                        if x2 != xu as int {
                            assert(self.state@[x2]@ == pre[x2]);
                        } else {
                            assert(self.state@[x2]@ == pre[x2].update(yu as int, Some(t)));
                        }
                    }
                    assert(grid_wf(gview(self.state), n as int));
                    lemma_ray_off_origin(i as int, j as int, ki, m as int);
                    assert forall|x2: int, y2: int| 0 <= x2 < n && 0 <= y2 < n implies #[trigger] gview(
                        self.state,
                    )[x2][y2] == (if (x2 == i && y2 == j) || in_flip_upto(
                        g0,
                        n as int,
                        t,
                        i as int,
                        j as int,
                        ki,
                        x2,
                        y2,
                    ) || (exists|m2: int|
                        1 <= m2 < m + 1 && x2 == #[trigger] rayx(i as int, ki, m2) && y2 == rayy(
                            j as int,
                            ki,
                            m2,
                        )) {
                        Some(t)
                    } else {
                        g0[x2][y2]
                    }) by {
                        assert(gview(self.state)[x2] == self.state@[x2]@);
                        if x2 == xu as int && y2 == yu as int {
                            assert(gview(self.state)[x2][y2] == Some(t));
                            assert(x2 == rayx(i as int, ki, m as int) && y2 == rayy(
                                j as int,
                                ki,
                                m as int,
                            ));
                        } else {
                            assert(gview(self.state)[x2][y2] == pre[x2][y2]);
                            if exists|m2: int|
                                1 <= m2 < m + 1 && x2 == #[trigger] rayx(i as int, ki, m2) && y2
                                    == rayy(j as int, ki, m2) {
                                let m2 = choose|m2: int|
                                    1 <= m2 < m + 1 && x2 == #[trigger] rayx(i as int, ki, m2)
                                        && y2 == rayy(j as int, ki, m2);
                                assert(m2 < m);
                            }
                        }
                    }
                }
                m += 1;
            }
            proof {
                assert forall|x: int, y: int| 0 <= x < n && 0 <= y < n implies #[trigger] gview(
                    self.state,
                )[x][y] == (if (x == i && y == j) || in_flip_upto(
                    g0,
                    n as int,
                    t,
                    i as int,
                    j as int,
                    ki + 1,
                    x,
                    y,
                ) {
                    Some(t)
                } else {
                    g0[x][y]
                }) by {
                    lemma_in_flip_upto_step(g0, n as int, t, i as int, j as int, ki, x, y);
                }
            }
            k += 1;
        }
        proof {
            assert(gview(self.state) =~~= grid_after(g0, n as int, t, i as int, j as int));
        }
        self.turn = if self.turn == Turn::White {
            Turn::Black
        } else {
            Turn::White
        };
        proof {
            assert(self.turn == other(t));
        }
        if self.puttable() {
            return true;
        }
        self.turn = if self.turn == Turn::White {
            Turn::Black
        } else {
            Turn::White
        };
        proof {
            assert(self.turn == t);
        }
        if self.puttable() {
            true
        } else {
            false
        }
    }

    /// Whether coordinate `z` lies on a board of dimension `n`.
    pub fn in_range(z: i32, n: usize) -> (r: bool)
        requires
            n <= 65534,
        ensures
            r == in_range_spec(z as int, n as int),
    {
        z >= 0 && z < n as i32
    }
}

/// Walk direction `k` from cell `(i, j)` and return the length of the
/// captured run for side `t`, or 0 when the run ends at the edge or at an
/// empty cell without meeting a disc of side `t`.
fn dir_run(s: &Vec<Vec<Option<Turn>>>, n: usize, t: Turn, i: usize, j: usize, k: usize) -> (r:
    usize)
    requires
        grid_wf(gview(*s), n as int),
        2 <= n <= 65534,
        i < n,
        j < n,
        k < 8,
    ensures
        r == dir_flips(gview(*s), n as int, t, i as int, j as int, k as int),
        r + 2 <= n || r == 0,
{
    let ghost g = gview(*s);
    let ghost ki = k as int;
    let dxv = dx(k);
    let dyv = dy(k);
    proof {
        assert(rayx(i as int, ki, 1) == i + dxs(ki)) by (nonlinear_arith)
            requires
                rayx(i as int, ki, 1) == i + 1 * dxs(ki),
        ;
        assert(rayy(j as int, ki, 1) == j + dys(ki)) by (nonlinear_arith)
            requires
                rayy(j as int, ki, 1) == j + 1 * dys(ki),
        ;
    }
    let x0 = i as i32 + dxv;
    let y0 = j as i32 + dyv;
    if !BoardState::in_range(x0, n) || !BoardState::in_range(y0, n) {
        proof {
            assert forall|l: int| !is_capture(g, n as int, t, i as int, j as int, ki, l) by {
                if is_capture(g, n as int, t, i as int, j as int, ki, l) {
                    assert(in_range_spec(rayx(i as int, ki, 1), n as int));
                    assert(in_range_spec(rayy(j as int, ki, 1), n as int));
                }
            }
        }
        return 0;
    }
    let x0u = x0 as usize;
    let y0u = y0 as usize;
    proof {
        assert(g.len() == s@.len());
        assert(g[x0u as int] == s@[x0u as int]@);
        assert(g[x0u as int].len() == n as int);
    }
    match s[x0u][y0u] {
        None => {
            proof {
                assert(g[x0u as int] == s@[x0u as int]@);
                assert forall|l: int| !is_capture(g, n as int, t, i as int, j as int, ki, l) by {
                    if is_capture(g, n as int, t, i as int, j as int, ki, l) {
                        assert(g[rayx(i as int, ki, 1)][rayy(j as int, ki, 1)] == Some(other(t)));
                    }
                }
            }
            0
        },
        Some(t0) => {
            if t0 == t {
                proof {
                    assert(g[x0u as int] == s@[x0u as int]@);
                    assert forall|l: int|
                        !is_capture(g, n as int, t, i as int, j as int, ki, l) by {
                        if is_capture(g, n as int, t, i as int, j as int, ki, l) {
                            assert(g[rayx(i as int, ki, 1)][rayy(j as int, ki, 1)] == Some(
                                other(t),
                            ));
                            assert(other(t) != t);
                        }
                    }
                }
                return 0;
            }
            proof {
                assert(g[x0u as int] == s@[x0u as int]@);
                assert(t0 == other(t));
            }
            let mut l: usize = 1;
            while l < n
                invariant
                    grid_wf(g, n as int),
                    g == gview(*s),
                    2 <= n <= 65534,
                    i < n,
                    j < n,
                    k < 8,
                    ki == k as int,
                    dxv as int == dxs(ki),
                    dyv as int == dys(ki),
                    x0 as int == i + dxs(ki),
                    y0 as int == j + dys(ki),
                    1 <= l <= n,
                    forall|m: int|
                        1 <= m <= l ==> in_range_spec(#[trigger] rayx(i as int, ki, m), n as int)
                            && in_range_spec(rayy(j as int, ki, m), n as int) && g[rayx(
                            i as int,
                            ki,
                            m,
                        )][rayy(j as int, ki, m)] == Some(other(t)),
                decreases n - l,
            {
                proof {
                    assert(-65534 <= (l as int) * (dxv as int) <= 65534) by (nonlinear_arith)
                        requires
                            0 <= l as int <= 65534,
                            -1 <= dxv as int <= 1,
                    ;
                    assert(-65534 <= (l as int) * (dyv as int) <= 65534) by (nonlinear_arith)
                        requires
                            0 <= l as int <= 65534,
                            -1 <= dyv as int <= 1,
                    ;
                    assert(rayx(i as int, ki, l + 1) == x0 + (l as int) * (dxv as int))
                        by (nonlinear_arith)
                        requires
                            rayx(i as int, ki, l + 1) == i + (l + 1) * dxs(ki),
                            x0 as int == i + dxs(ki),
                            dxv as int == dxs(ki),
                    ;
                    assert(rayy(j as int, ki, l + 1) == y0 + (l as int) * (dyv as int))
                        by (nonlinear_arith)
                        requires
                            rayy(j as int, ki, l + 1) == j + (l + 1) * dys(ki),
                            y0 as int == j + dys(ki),
                            dyv as int == dys(ki),
                    ;
                }
                let x = x0 + (l as i32) * dxv;
                let y = y0 + (l as i32) * dyv;
                if !BoardState::in_range(x, n) || !BoardState::in_range(y, n) {
                    proof {
                        assert forall|lc: int|
                            !is_capture(g, n as int, t, i as int, j as int, ki, lc) by {
                            if is_capture(g, n as int, t, i as int, j as int, ki, lc) {
                                if lc >= l + 1 {
                                    assert(in_range_spec(rayx(i as int, ki, l + 1), n as int)
                                        && in_range_spec(rayy(j as int, ki, l + 1), n as int));
                                } else if lc == l {
                                    assert(in_range_spec(rayx(i as int, ki, l + 1), n as int)
                                        && in_range_spec(rayy(j as int, ki, l + 1), n as int));
                                } else {
                                    assert(g[rayx(i as int, ki, lc + 1)][rayy(j as int, ki, lc + 1)]
                                        == Some(other(t)));
                                    assert(other(t) != t);
                                }
                            }
                        }
                    }
                    return 0;
                }
                let xu = x as usize;
                let yu = y as usize;
                proof {
                    assert(g[xu as int] == s@[xu as int]@);
                }
                match s[xu][yu] {
                    None => {
                        proof {
                            assert forall|lc: int|
                                !is_capture(g, n as int, t, i as int, j as int, ki, lc) by {
                                if is_capture(g, n as int, t, i as int, j as int, ki, lc) {
                                    if lc >= l + 1 {
                                        assert(g[rayx(i as int, ki, l + 1)][rayy(
                                            j as int,
                                            ki,
                                            l + 1,
                                        )] == Some(other(t)));
                                    } else if lc == l {
                                        assert(g[rayx(i as int, ki, l + 1)][rayy(
                                            j as int,
                                            ki,
                                            l + 1,
                                        )] == Some(t));
                                    } else {
                                        assert(g[rayx(i as int, ki, lc + 1)][rayy(
                                            j as int,
                                            ki,
                                            lc + 1,
                                        )] == Some(other(t)));
                                        assert(other(t) != t);
                                    }
                                }
                            }
                        }
                        return 0;
                    },
                    Some(t2) => {
                        if t2 == t {
                            proof {
                                assert(is_capture(g, n as int, t, i as int, j as int, ki, l as int));
                                let lc = choose|lc: int|
                                    is_capture(g, n as int, t, i as int, j as int, ki, lc);
                                lemma_capture_unique(
                                    g,
                                    n as int,
                                    t,
                                    i as int,
                                    j as int,
                                    ki,
                                    lc,
                                    l as int,
                                );
                                lemma_capture_bound(
                                    g,
                                    n as int,
                                    t,
                                    i as int,
                                    j as int,
                                    ki,
                                    l as int,
                                );
                            }
                            return l;
                        }
                        proof {
                            assert(t2 == other(t));
                        }
                        l = l + 1;
                    },
                }
            }
            proof {
                assert forall|lc: int| !is_capture(g, n as int, t, i as int, j as int, ki, lc) by {
                    if is_capture(g, n as int, t, i as int, j as int, ki, lc) {
                        lemma_capture_bound(g, n as int, t, i as int, j as int, ki, lc);
                        assert(1 <= lc + 1 <= l);
                        assert(g[rayx(i as int, ki, lc + 1)][rayy(j as int, ki, lc + 1)] == Some(
                            other(t),
                        ));
                        assert(other(t) != t);
                    }
                }
            }
            0
        },
    }
}

/// Row offset of compass direction `n`.
pub fn dx(n: usize) -> (r: i32)
    ensures
        r as int == dxs(n as int),
{
    match n {
        0 | 1 | 2 => 1,
        3 | 7 => 0,
        4 | 5 | 6 => -1,
        _ => 0,
    }
}

/// Column offset of compass direction `n`.
pub fn dy(n: usize) -> (r: i32)
    ensures
        r as int == dys(n as int),
{
    match n {
        2 | 3 | 4 => 1,
        1 | 5 => 0,
        0 | 6 | 7 => -1,
        _ => 0,
    }
}

} // verus!
