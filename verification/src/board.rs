//! A rectangular grid of small integer cell values (0 means empty), stored
//! row-major in a flat vector, together with the line geometry used for
//! win detection: the length of a run of equal cells scanned in a fixed
//! direction from a starting cell.

use vstd::prelude::*;
use vstd::string::StringExecFns;

verus! {

/// The character printed for a single-digit cell value.
pub open spec fn digit_char(v: usize) -> char {
    if v == 0 {
        '0'
    } else if v == 1 {
        '1'
    } else if v == 2 {
        '2'
    } else if v == 3 {
        '3'
    } else if v == 4 {
        '4'
    } else if v == 5 {
        '5'
    } else if v == 6 {
        '6'
    } else if v == 7 {
        '7'
    } else if v == 8 {
        '8'
    } else {
        '9'
    }
}

/// The one-character text of a single-digit cell value.
fn digit_str(v: usize) -> (s: &'static str)
    requires
        v <= 9,
    ensures
        s@ == seq![digit_char(v)],
{
    proof {
        reveal_strlit("0");
        reveal_strlit("1");
        reveal_strlit("2");
        reveal_strlit("3");
        reveal_strlit("4");
        reveal_strlit("5");
        reveal_strlit("6");
        reveal_strlit("7");
        reveal_strlit("8");
        reveal_strlit("9");
    }
    let s = match v {
        0 => "0",
        1 => "1",
        2 => "2",
        3 => "3",
        4 => "4",
        5 => "5",
        6 => "6",
        7 => "7",
        8 => "8",
        _ => "9",
    };
    proof {
        assert(s@ =~= seq![digit_char(v)]);
    }
    s
}

/// A grid with `i` rows and `j` columns; the cell at row `r`, column `c`
/// sits at index `r * j + c` of `board`.
#[derive(Clone)]
pub struct Board {
    pub board: Vec<usize>,
    pub i: usize,
    pub j: usize,
}

impl View for Board {
    type V = Seq<usize>;

    open spec fn view(&self) -> Seq<usize> {
        self.board@
    }
}

impl Board {
    /// Number of rows.
    pub open spec fn rows(&self) -> int {
        self.i as int
    }

    /// Number of columns.
    pub open spec fn cols(&self) -> int {
        self.j as int
    }

    /// The storage really is an `i` by `j` grid with at least one cell.
    pub open spec fn wf(&self) -> bool {
        &&& self.board@.len() == self.i * self.j
        &&& 1 <= self.i
        &&& 1 <= self.j
    }

    pub open spec fn in_bounds(&self, r: int, c: int) -> bool {
        0 <= r < self.rows() && 0 <= c < self.cols()
    }

    /// The value stored at row `r`, column `c`.
    pub open spec fn cell(&self, r: int, c: int) -> usize {
        self.board@[r * self.cols() + c]
    }

    /// A row-major position is in range of the storage.
    proof fn lemma_pos_in_range(&self, r: int, c: int)
        requires
            self.wf(),
            self.in_bounds(r, c),
        ensures
            0 <= r * self.cols() + c < self.board@.len(),
    {
        assert(r * self.cols() + c < self.rows() * self.cols()) by (nonlinear_arith)
            requires
                0 <= r < self.rows(),
                0 <= c < self.cols(),
        ;
        assert(self.rows() * self.cols() == self.board@.len());
    }

    /// Distinct coordinates map to distinct row-major positions.
    proof fn lemma_pos_injective(&self, r1: int, c1: int, r2: int, c2: int)
        requires
            self.wf(),
            self.in_bounds(r1, c1),
            self.in_bounds(r2, c2),
            r1 * self.cols() + c1 == r2 * self.cols() + c2,
        ensures
            r1 == r2 && c1 == c2,
    {
        assert(r1 == r2 && c1 == c2) by (nonlinear_arith)
            requires
                0 <= c1 < self.cols(),
                0 <= c2 < self.cols(),
                r1 * self.cols() + c1 == r2 * self.cols() + c2,
        ;
    }

    fn ij_to_pos(&self, i: usize, j: usize) -> (pos: usize)
        requires
            self.wf(),
            self.in_bounds(i as int, j as int),
        ensures
            pos == i * self.cols() + j,
            pos < self.board@.len(),
    {
        let n = self.board.len();
        proof {
            self.lemma_pos_in_range(i as int, j as int);
            assert(n == self.board@.len());
        }
        i * self.j + j
    }

    /// Allocates an `i` by `j` grid with every cell empty. Degenerate grids
    /// with zero rows or zero columns are ruled out by precondition.
    pub fn new(i: usize, j: usize) -> (b: Board)
        requires
            1 <= i,
            1 <= j,
            i * j <= usize::MAX,
        ensures
            b.wf(),
            b.rows() == i,
            b.cols() == j,
            forall|r: int, c: int| b.in_bounds(r, c) ==> b.cell(r, c) == 0,
    {
        let b = Board { board: vec![0; i * j], i, j };
        proof {
            assert forall|r: int, c: int| b.in_bounds(r, c) implies b.cell(r, c) == 0 by {
                b.lemma_pos_in_range(r, c);
            }
        }
        b
    }

    /// Reads the cell at flat position `i`.
    pub fn get(&self, i: usize) -> (v: usize)
        requires
            i < self@.len(),
        ensures
            v == self@[i as int],
    {
        self.board[i]
    }

    /// Reads the cell at row `i`, column `j`.
    pub fn get_ij(&self, i: usize, j: usize) -> (v: usize)
        requires
            self.wf(),
            self.in_bounds(i as int, j as int),
        ensures
            v == self.cell(i as int, j as int),
    {
        let pos = self.ij_to_pos(i, j);
        self.board[pos]
    }

    pub fn get_i(&self) -> (r: usize)
        ensures
            r == self.rows(),
    {
        self.i
    }

    pub fn get_j(&self) -> (r: usize)
        ensures
            r == self.cols(),
    {
        self.j
    }

    pub fn len(&self) -> (n: usize)
        ensures
            n == self@.len(),
    {
        self.board.len()
    }

    /// A copy of the full grid contents, row-major.
    pub fn get_board(&self) -> (v: Vec<usize>)
        ensures
            v@ == self@,
    {
        self.board.clone()
    }

    /// Writes `p` at row `i`, column `j`; every other cell keeps its value.
    pub fn put_ij(&mut self, i: usize, j: usize, p: usize)
        requires
            old(self).wf(),
            old(self).in_bounds(i as int, j as int),
        ensures
            final(self).wf(),
            final(self).rows() == old(self).rows(),
            final(self).cols() == old(self).cols(),
            final(self)@ == old(self)@.update(i as int * old(self).cols() + j as int, p),
            final(self).cell(i as int, j as int) == p,
            forall|r: int, c: int|
                old(self).in_bounds(r, c) && !(r == i as int && c == j as int)
                    ==> final(self).cell(r, c) == old(self).cell(r, c),
    {
        let pos = self.ij_to_pos(i, j);
        self.board[pos] = p;
        proof {
            assert forall|r: int, c: int|
                old(self).in_bounds(r, c) && !(r == i as int && c == j as int)
                    implies final(self).cell(r, c) == old(self).cell(r, c) by {
                old(self).lemma_pos_in_range(r, c);
                if r * old(self).cols() + c == i as int * old(self).cols() + j as int {
                    old(self).lemma_pos_injective(r, c, i as int, j as int);
                }
            }
        }
    }

    /// How many steps a scan from (r, c) in direction (dr, dc) can take
    /// before it leaves the grid; the termination measure of run scans.
    pub open spec fn dist_to_edge(&self, r: int, c: int, dr: int, dc: int) -> int {
        if dr > 0 {
            self.rows() - 1 - r
        } else if dr < 0 {
            r
        } else if dc > 0 {
            self.cols() - 1 - c
        } else {
            c
        }
    }

    /// Length of the run of cells equal to `p`, counting (r, c) itself and
    /// scanning forward in direction (dr, dc) only, stopping at a grid
    /// boundary or at the first value mismatch.
    pub open spec fn run_len_from(&self, p: usize, r: int, c: int, dr: int, dc: int) -> int
        decreases self.dist_to_edge(r, c, dr, dc)
            when self.in_bounds(r, c) && (dr != 0 || dc != 0)
    {
        if !self.in_bounds(r + dr, c + dc) || self.cell(r + dr, c + dc) != p {
            1
        } else {
            1 + self.run_len_from(p, r + dr, c + dc, dr, dc)
        }
    }

    /// Length of the run of cells sharing the value at (r, c), scanning
    /// from (r, c) in direction (dr, dc).
    pub open spec fn run_len(&self, r: int, c: int, dr: int, dc: int) -> int {
        self.run_len_from(self.cell(r, c), r, c, dr, dc)
    }

    /// Total length of the run of equal cells through (r, c) along the axis
    /// (dr, dc): the forward and the backward scan both count the start
    /// cell, so their sum counts it twice.
    pub open spec fn axis_run(&self, r: int, c: int, dr: int, dc: int) -> int {
        self.run_len(r, c, dr, dc) + self.run_len(r, c, -dr, -dc) - 1
    }

    /// A run is never empty and never longer than the walk to the edge.
    proof fn lemma_run_len_from_bounds(&self, p: usize, r: int, c: int, dr: int, dc: int)
        requires
            self.wf(),
            self.in_bounds(r, c),
            dr != 0 || dc != 0,
        ensures
            1 <= self.run_len_from(p, r, c, dr, dc)
                <= self.dist_to_edge(r, c, dr, dc) + 1,
        decreases self.dist_to_edge(r, c, dr, dc),
    {
        if self.in_bounds(r + dr, c + dc) && self.cell(r + dr, c + dc) == p {
            self.lemma_run_len_from_bounds(p, r + dr, c + dc, dr, dc);
        }
    }

    /// The cell `t` steps from (r, c) along (dr, dc) is inside the grid and
    /// holds the value `p`.
    pub open spec fn run_covers(&self, p: usize, r: int, c: int, dr: int, dc: int, t: int) -> bool {
        self.in_bounds(r + t * dr, c + t * dc) && self.cell(r + t * dr, c + t * dc) == p
    }

    /// Stepping once and then `t - 1` times lands on the same cell as
    /// stepping `t` times.
    proof fn lemma_run_covers_shift(&self, p: usize, r: int, c: int, dr: int, dc: int, t: int)
        ensures
            self.run_covers(p, r, c, dr, dc, t)
                == self.run_covers(p, r + dr, c + dc, dr, dc, t - 1),
    {
        assert(r + dr + (t - 1) * dr == r + t * dr && c + dc + (t - 1) * dc == c + t * dc)
            by (nonlinear_arith);
    }

    /// Scanning with the direction and the offset both negated lands on the
    /// same cell.
    proof fn lemma_run_covers_negate(&self, p: usize, r: int, c: int, dr: int, dc: int, t: int)
        ensures
            self.run_covers(p, r, c, dr, dc, t) == self.run_covers(p, r, c, -dr, -dc, -t),
    {
        assert(r + (-t) * (-dr) == r + t * dr && c + (-t) * (-dc) == c + t * dc)
            by (nonlinear_arith);
    }

    /// Every cell a forward scan counts matches the start cell, and the scan
    /// stops exactly where the grid ends or the value changes.
    proof fn lemma_run_len_from_props(&self, p: usize, r: int, c: int, dr: int, dc: int)
        requires
            self.wf(),
            self.in_bounds(r, c),
            dr != 0 || dc != 0,
            self.cell(r, c) == p,
        ensures
            forall|t: int|
                0 <= t < self.run_len_from(p, r, c, dr, dc)
                    ==> #[trigger] self.run_covers(p, r, c, dr, dc, t),
            !self.run_covers(p, r, c, dr, dc, self.run_len_from(p, r, c, dr, dc)),
        decreases self.dist_to_edge(r, c, dr, dc),
    {
        self.lemma_run_len_from_bounds(p, r, c, dr, dc);
        let n = self.run_len_from(p, r, c, dr, dc);
        if !self.in_bounds(r + dr, c + dc) || self.cell(r + dr, c + dc) != p {
            assert(n == 1);
            assert forall|t: int| 0 <= t < n implies #[trigger] self.run_covers(
                p, r, c, dr, dc, t) by {
                assert(t == 0);
                assert(r + 0 * dr == r && c + 0 * dc == c) by (nonlinear_arith);
            }
            assert(r + 1 * dr == r + dr && c + 1 * dc == c + dc) by (nonlinear_arith);
        } else {
            self.lemma_run_len_from_props(p, r + dr, c + dc, dr, dc);
            let m = self.run_len_from(p, r + dr, c + dc, dr, dc);
            assert(n == 1 + m);
            assert forall|t: int| 0 <= t < n implies #[trigger] self.run_covers(
                p, r, c, dr, dc, t) by {
                if t == 0 {
                    assert(r + 0 * dr == r && c + 0 * dc == c) by (nonlinear_arith);
                } else {
                    assert(self.run_covers(p, r + dr, c + dc, dr, dc, t - 1));
                    self.lemma_run_covers_shift(p, r, c, dr, dc, t);
                }
            }
            self.lemma_run_covers_shift(p, r, c, dr, dc, n);
            assert(!self.run_covers(p, r + dr, c + dc, dr, dc, m));
        }
    }

    /// Law: a forward and a backward run-length scan along one axis measure,
    /// together, the whole run of equal cells through the start cell. With
    /// `f` the forward and `b` the backward count (each counting the start
    /// cell once), the cells at offsets `1 - b ..= f - 1` along the axis all
    /// match the start cell, the run extends no further on either side, and
    /// `axis_run`, the total, is `f + b - 1`.
    pub proof fn lemma_axis_run_symmetry(&self, r: int, c: int, dr: int, dc: int)
        requires
            self.wf(),
            self.in_bounds(r, c),
            dr != 0 || dc != 0,
        ensures
            ({
                let p = self.cell(r, c);
                let f = self.run_len(r, c, dr, dc);
                let b = self.run_len(r, c, -dr, -dc);
                &&& self.axis_run(r, c, dr, dc) == f + b - 1
                &&& 1 <= f && 1 <= b
                &&& forall|t: int|
                    1 - b <= t <= f - 1 ==> #[trigger] self.run_covers(p, r, c, dr, dc, t)
                &&& !self.run_covers(p, r, c, dr, dc, f)
                &&& !self.run_covers(p, r, c, dr, dc, -b)
            }),
    {
        let p = self.cell(r, c);
        let f = self.run_len(r, c, dr, dc);
        let b = self.run_len(r, c, -dr, -dc);
        self.lemma_run_len_from_bounds(p, r, c, dr, dc);
        self.lemma_run_len_from_bounds(p, r, c, -dr, -dc);
        self.lemma_run_len_from_props(p, r, c, dr, dc);
        self.lemma_run_len_from_props(p, r, c, -dr, -dc);
        assert forall|t: int| 1 - b <= t <= f - 1 implies #[trigger] self.run_covers(
            p, r, c, dr, dc, t) by {
            if t >= 0 {
                assert(self.run_covers(p, r, c, dr, dc, t));
            } else {
                assert(self.run_covers(p, r, c, -dr, -dc, -t));
                self.lemma_run_covers_negate(p, r, c, dr, dc, t);
            }
        }
        self.lemma_run_covers_negate(p, r, c, dr, dc, -b);
        assert(!self.run_covers(p, r, c, -dr, -dc, b));
    }

    /// Counts the consecutive cells sharing the start cell's value, scanning
    /// from (i, j) in direction (dir_i, dir_j) only, the start cell
    /// included; stops at a grid boundary or at the first mismatch.
    pub fn run_length(&self, i: isize, j: isize, dir_i: isize, dir_j: isize) -> (n: isize)
        requires
            self.wf(),
            self.in_bounds(i as int, j as int),
            dir_i != 0 || dir_j != 0,
            self.rows() <= isize::MAX,
            self.cols() <= isize::MAX,
            self.rows() - 1 + dir_i <= isize::MAX,
            self.cols() - 1 + dir_j <= isize::MAX,
        ensures
            n == self.run_len(i as int, j as int, dir_i as int, dir_j as int),
            1 <= n,
    {
        let ghost di = dir_i as int;
        let ghost dj = dir_j as int;
        let p = self.get_ij(i as usize, j as usize);
        let mut ii = i;
        let mut jj = j;
        let mut n: isize = 1;
        let max_i = (self.get_i() - 1) as isize;
        let max_j = (self.get_j() - 1) as isize;
        loop
            invariant
                self.wf(),
                dir_i != 0 || dir_j != 0,
                di == dir_i as int && dj == dir_j as int,
                self.rows() <= isize::MAX,
                self.cols() <= isize::MAX,
                self.rows() - 1 + dir_i <= isize::MAX,
                self.cols() - 1 + dir_j <= isize::MAX,
                self.in_bounds(i as int, j as int),
                max_i == self.rows() - 1,
                max_j == self.cols() - 1,
                self.in_bounds(ii as int, jj as int),
                1 <= n,
                n - 1 <= self.dist_to_edge(i as int, j as int, di, dj)
                    - self.dist_to_edge(ii as int, jj as int, di, dj),
                self.run_len(i as int, j as int, di, dj)
                    == n - 1 + self.run_len_from(p, ii as int, jj as int, di, dj),
            ensures
                self.run_len_from(p, ii as int, jj as int, di, dj) == 1,
            decreases self.dist_to_edge(ii as int, jj as int, di, dj),
        {
            let next_i = ii + dir_i;
            if next_i < 0 || next_i > max_i {
                break;
            }
            let next_j = jj + dir_j;
            if next_j < 0 || next_j > max_j {
                break;
            }
            if self.get_ij(next_i as usize, next_j as usize) != p {
                break;
            }
            proof {
                let dist0 = self.dist_to_edge(i as int, j as int, di, dj);
                let dcur = self.dist_to_edge(ii as int, jj as int, di, dj);
                let dnext = self.dist_to_edge(ii as int + di, jj as int + dj, di, dj);
                assert(0 <= dnext);
                assert(dnext < dcur);
                assert(dist0 <= isize::MAX - 1);
            }
            ii = next_i;
            jj = next_j;
            n += 1;
        }
        n
    }

    /// Length of the vertical run of equal cells through (i, j): the upward
    /// and the downward scan summed, the start cell counted once.
    pub fn longest_col(&self, i: usize, j: usize) -> (n: usize)
        requires
            self.wf(),
            self.in_bounds(i as int, j as int),
            self.rows() <= isize::MAX,
            self.cols() <= isize::MAX,
        ensures
            n == self.axis_run(i as int, j as int, 1, 0),
            1 <= n,
    {
        self.axis_length(i, j, 1, 0)
    }

    /// Length of the horizontal run of equal cells through (i, j).
    pub fn longest_row(&self, i: usize, j: usize) -> (n: usize)
        requires
            self.wf(),
            self.in_bounds(i as int, j as int),
            self.rows() <= isize::MAX,
            self.cols() <= isize::MAX,
        ensures
            n == self.axis_run(i as int, j as int, 0, 1),
            1 <= n,
    {
        self.axis_length(i, j, 0, 1)
    }

    /// Length of the run of equal cells through (i, j) along the diagonal
    /// that goes down-right (and up-left).
    pub fn longest_diag_1(&self, i: usize, j: usize) -> (n: usize)
        requires
            self.wf(),
            self.in_bounds(i as int, j as int),
            self.rows() <= isize::MAX,
            self.cols() <= isize::MAX,
        ensures
            n == self.axis_run(i as int, j as int, 1, 1),
            1 <= n,
    {
        self.axis_length(i, j, 1, 1)
    }

    /// Length of the run of equal cells through (i, j) along the diagonal
    /// that goes down-left (and up-right).
    pub fn longest_diag_2(&self, i: usize, j: usize) -> (n: usize)
        requires
            self.wf(),
            self.in_bounds(i as int, j as int),
            self.rows() <= isize::MAX,
            self.cols() <= isize::MAX,
        ensures
            n == self.axis_run(i as int, j as int, 1, -1),
            1 <= n,
    {
        self.axis_length(i, j, 1, -1)
    }

    /// The run-length primitive applied twice, forward and backward along
    /// one axis; the start cell is counted by both scans, so one count is
    /// taken back out.
    fn axis_length(&self, i: usize, j: usize, dir_i: isize, dir_j: isize) -> (n: usize)
        requires
            self.wf(),
            self.in_bounds(i as int, j as int),
            dir_i == 0 || dir_i == 1,
            -1 <= dir_j <= 1,
            dir_i != 0 || dir_j != 0,
            self.rows() <= isize::MAX,
            self.cols() <= isize::MAX,
        ensures
            n == self.axis_run(i as int, j as int, dir_i as int, dir_j as int),
            1 <= n,
    {
        let ghost di = dir_i as int;
        let ghost dj = dir_j as int;
        proof {
            let p = self.cell(i as int, j as int);
            self.lemma_run_len_from_bounds(p, i as int, j as int, di, dj);
            self.lemma_run_len_from_bounds(p, i as int, j as int, -di, -dj);
        }
        let fwd = self.run_length(i as isize, j as isize, dir_i, dir_j);
        let back = self.run_length(i as isize, j as isize, -dir_i, -dir_j);
        (fwd - 1 + back) as usize
    }

    /// The characters of row `r`: one decimal digit per cell, then a newline.
    pub open spec fn row_chars(&self, r: int) -> Seq<char> {
        Seq::new(self.cols() as nat, |c: int| digit_char(self.cell(r, c))).push('\n')
    }

    /// The display text of the first `r` rows.
    pub open spec fn display_upto(&self, r: int) -> Seq<char>
        decreases r,
    {
        if r <= 0 {
            Seq::empty()
        } else {
            self.display_upto(r - 1) + self.row_chars(r - 1)
        }
    }

    /// The full display text: one line per row, one decimal digit per cell,
    /// a newline after every row.
    pub open spec fn display(&self) -> Seq<char> {
        self.display_upto(self.rows())
    }

    /// Renders the grid row-major, each cell as one decimal digit (0 means
    /// empty), one line per row. Defined for the single-digit cell values
    /// that the game domains store.
    pub fn to_string(&self) -> (s: String)
        requires
            self.wf(),
            forall|r: int, c: int| self.in_bounds(r, c) ==> #[trigger] self.cell(r, c) <= 9,
        ensures
            s@ == self.display(),
    {
        let mut s = String::new();
        let ni = self.i;
        let nj = self.j;
        proof {
            assert(s@ =~= self.display_upto(0));
        }
        for ii in 0..ni
            invariant
                self.wf(),
                ni == self.rows(),
                nj == self.cols(),
                forall|r: int, c: int| self.in_bounds(r, c) ==> #[trigger] self.cell(r, c) <= 9,
                s@ == self.display_upto(ii as int),
        {
            for jj in 0..nj
                invariant
                    self.wf(),
                    ni == self.rows(),
                    nj == self.cols(),
                    ii < ni,
                    forall|r: int, c: int|
                        self.in_bounds(r, c) ==> #[trigger] self.cell(r, c) <= 9,
                    s@ == self.display_upto(ii as int)
                        + Seq::new(jj as nat, |c: int| digit_char(self.cell(ii as int, c))),
            {
                let v = self.get_ij(ii, jj);
                let d = digit_str(v);
                s.append(d);
                proof {
                    assert(s@ =~= self.display_upto(ii as int)
                        + Seq::new((jj + 1) as nat, |c: int| digit_char(self.cell(ii as int, c))));
                }
            }
            s.append("\n");
            proof {
                reveal_strlit("\n");
                assert(self.row_chars(ii as int) =~= Seq::new(
                    nj as nat,
                    |c: int| digit_char(self.cell(ii as int, c)),
                ) + "\n"@);
                assert(s@ =~= self.display_upto(ii as int + 1));
            }
        }
        s
    }

    /// Zeroes every cell in place; the dimensions stay the same.
    pub fn reset(&mut self)
        ensures
            final(self).rows() == old(self).rows(),
            final(self).cols() == old(self).cols(),
            final(self)@.len() == old(self)@.len(),
            forall|k: int| 0 <= k < final(self)@.len() ==> final(self)@[k] == 0,
    {
        let n = self.board.len();
        for i in 0..n
            invariant
                n == self.board@.len(),
                self.i == old(self).i,
                self.j == old(self).j,
                forall|k: int| 0 <= k < i ==> self.board@[k] == 0,
        {
            self.board[i] = 0;
        }
    }
}

} // verus!
