//! The Connect-Four domain: a 6-row, 7-column grid; agents 1 and 2
//! alternate dropping a marker into a column; the marker falls to the
//! lowest empty cell of that column; four in a row along any axis wins.

use vstd::prelude::*;
use crate::board::Board;
use crate::domain::Domain;
use crate::domain::sat_add;

verus! {

/// How many cells of a sequence are zero; the number of empty cells of a
/// grid, and the engine's termination measure for this domain.
pub open spec fn count_zeros(s: Seq<usize>) -> nat
    decreases s.len(),
{
    if s.len() == 0 {
        0
    } else {
        (if s[0] == 0 {
            1nat
        } else {
            0
        }) + count_zeros(s.drop_first())
    }
}

/// Filling a zero entry lowers the zero count by exactly one.
proof fn lemma_count_zeros_update(s: Seq<usize>, k: int, v: usize)
    requires
        0 <= k < s.len(),
        s[k] == 0,
        v != 0,
    ensures
        count_zeros(s.update(k, v)) + 1 == count_zeros(s),
    decreases s.len(),
{
    if k == 0 {
        assert(s.update(0, v).drop_first() =~= s.drop_first());
    } else {
        assert(s.update(k, v).drop_first() =~= s.drop_first().update(k - 1, v));
        lemma_count_zeros_update(s.drop_first(), k - 1, v);
    }
}

/// A Connect-Four game in progress: the grid and whose turn it is.
#[derive(Clone)]
pub struct Connect4 {
    pub board: Board,
    pub player: usize,
}

impl Connect4 {
    /// Cells hold 0 (empty) or the marker of agent 1 or 2.
    pub open spec fn cells_valid(&self) -> bool {
        forall|r: int, c: int|
            self.board.in_bounds(r, c) ==> #[trigger] self.board.cell(r, c) <= 2
    }

    /// Gravity: a marker rests on the bottom row or on another marker, so
    /// no occupied cell has an empty cell directly below it.
    pub open spec fn gravity_ok(&self) -> bool {
        forall|r: int, c: int|
            self.board.in_bounds(r, c) && r < self.board.rows() - 1 && #[trigger] self.board.cell(
                r,
                c,
            ) != 0 ==> self.board.cell(r + 1, c) != 0
    }

    /// What every reachable state satisfies: a well-formed 6 by 7 grid, the
    /// turn with agent 1 or 2, cell values in range, gravity respected.
    pub open spec fn wf(&self) -> bool {
        &&& self.board.wf()
        &&& self.board.rows() == 6
        &&& self.board.cols() == 7
        &&& (self.player == 1 || self.player == 2)
        &&& self.cells_valid()
        &&& self.gravity_ok()
    }

    /// The agent who moves after `p`.
    pub open spec fn next_player(p: usize) -> usize {
        if p == 1 {
            2
        } else {
            1
        }
    }

    /// Whether the cell at (r, c) takes part in four in a row: it is
    /// occupied and the run of equal cells through it along one of the four
    /// axes — vertical, horizontal, either diagonal — has length at least 4.
    pub open spec fn winning_at(&self, r: int, c: int) -> bool {
        &&& self.board.cell(r, c) != 0
        &&& {
            ||| self.board.axis_run(r, c, 1, 0) >= 4
            ||| self.board.axis_run(r, c, 0, 1) >= 4
            ||| self.board.axis_run(r, c, 1, 1) >= 4
            ||| self.board.axis_run(r, c, 1, -1) >= 4
        }
    }

    /// Whether any cell of the grid takes part in four in a row.
    pub open spec fn has_win(&self) -> bool {
        exists|r: int, c: int| self.board.in_bounds(r, c) && #[trigger] self.winning_at(r, c)
    }

    /// The highest row index at or below `r` whose cell in column `c` is
    /// empty; row 0 if none is.
    pub open spec fn drop_row_rec(&self, c: int, r: int) -> int
        decreases r,
    {
        if r <= 0 {
            0
        } else if self.board.cell(r, c) == 0 {
            r
        } else {
            self.drop_row_rec(c, r - 1)
        }
    }

    /// The row a marker dropped into column `c` lands in: the lowest empty
    /// row of the column (row indices grow downward).
    pub open spec fn drop_row(&self, c: int) -> int {
        self.drop_row_rec(c, self.board.rows() - 1)
    }

    /// The actions open in the columns left of `n`: one per column whose
    /// top cell is empty, in increasing column order, each carrying the
    /// agent whose turn it is.
    pub open spec fn open_actions_upto(&self, n: int) -> Seq<(usize, usize)>
        decreases n,
    {
        if n <= 0 {
            Seq::empty()
        } else if self.board.cell(0, n - 1) == 0 {
            self.open_actions_upto(n - 1).push((self.player, (n - 1) as usize))
        } else {
            self.open_actions_upto(n - 1)
        }
    }

    /// What `get_actions` returns: nothing once some cell completes four in
    /// a row, else one action per open column.
    pub open spec fn actions_spec(&self) -> Seq<(usize, usize)> {
        if self.has_win() {
            Seq::empty()
        } else {
            self.open_actions_upto(self.board.cols())
        }
    }

    /// A fresh game: an empty 6 by 7 grid, agent 1 to move.
    pub fn new() -> (g: Connect4)
        ensures
            g.wf(),
            g.player == 1,
            forall|r: int, c: int| g.board.in_bounds(r, c) ==> #[trigger] g.board.cell(r, c) == 0,
            g.board.rows() == 6,
            g.board.cols() == 7,
    {
        Connect4 { board: Board::new(6, 7), player: 1 }
    }

    /// The agent whose turn it is.
    pub fn player(&self) -> (p: usize)
        ensures
            p == self.player,
    {
        self.player
    }

    /// The board rendered as text, one line per row, one digit per cell.
    pub fn to_string(&self) -> (s: String)
        requires
            self.wf(),
        ensures
            s@ == self.board.display(),
    {
        self.board.to_string()
    }

    /// Hands the turn to the other agent; the board is untouched.
    fn switch_players(&mut self)
        requires
            old(self).player == 1 || old(self).player == 2,
        ensures
            final(self).player == Self::next_player(old(self).player),
            final(self).board == old(self).board,
    {
        self.player += 1;
        if self.player == 3 {
            self.player = 1;
        }
    }

    /// Whether the marker at (i, j), if any, takes part in four in a row.
    fn winning_point(&self, i: usize, j: usize) -> (w: bool)
        requires
            self.wf(),
            self.board.in_bounds(i as int, j as int),
        ensures
            w == self.winning_at(i as int, j as int),
    {
        if self.board.get_ij(i, j) == 0 {
            return false;
        }
        if self.board.longest_col(i, j) >= 4 {
            return true;
        }
        if self.board.longest_diag_1(i, j) >= 4 {
            return true;
        }
        if self.board.longest_diag_2(i, j) >= 4 {
            return true;
        }
        if self.board.longest_row(i, j) >= 4 {
            return true;
        }
        false
    }

    /// Under gravity a filled cell has filled cells all the way down.
    proof fn lemma_filled_below(&self, c: int, r: int, r2: int)
        requires
            self.wf(),
            0 <= c < 7,
            0 <= r <= r2 <= 5,
            self.board.cell(r, c) != 0,
        ensures
            self.board.cell(r2, c) != 0,
        decreases r2 - r,
    {
        if r2 > r {
            assert(self.board.cell(r + 1, c) != 0);
            self.lemma_filled_below(c, r + 1, r2);
        }
    }

    /// Under gravity, the drop row is the row whose cell is empty while the
    /// cell below it (if any) is filled.
    proof fn lemma_drop_row_char(&self, c: int, i: int, r: int)
        requires
            self.wf(),
            0 <= c < 7,
            0 <= i <= r <= 5,
            forall|r2: int| 0 <= r2 <= i ==> #[trigger] self.board.cell(r2, c) == 0,
            i == 5 || self.board.cell(i + 1, c) != 0,
        ensures
            self.drop_row_rec(c, r) == i,
        decreases r,
    {
        if r > i {
            self.lemma_filled_below(c, i + 1, r);
            self.lemma_drop_row_char(c, i, r - 1);
        }
    }

    /// Each open-column action carries the agent whose turn it is and a
    /// column whose top cell is empty.
    pub proof fn lemma_open_actions_props(&self, n: int)
        requires
            0 <= n <= 7,
        ensures
            forall|k: int|
                0 <= k < self.open_actions_upto(n).len()
                    ==> ((#[trigger] self.open_actions_upto(n)[k]).0 == self.player
                        && self.open_actions_upto(n)[k].1 < n
                        && self.board.cell(0, self.open_actions_upto(n)[k].1 as int) == 0),
        decreases n,
    {
        if n > 0 {
            self.lemma_open_actions_props(n - 1);
            let prev = self.open_actions_upto(n - 1);
            let cur = self.open_actions_upto(n);
            assert forall|k: int|
                0 <= k < cur.len() implies ((#[trigger] cur[k]).0 == self.player && cur[k].1 < n
                && self.board.cell(0, cur[k].1 as int) == 0) by {
                if k < prev.len() {
                    assert(cur[k] == prev[k]);
                }
            }
        }
    }

    /// No column left of `n` is open exactly when every one of them has a
    /// filled top cell.
    proof fn lemma_open_actions_empty(&self, n: int)
        requires
            0 <= n,
        ensures
            self.open_actions_upto(n).len() == 0 <==> (forall|c: int|
                0 <= c < n ==> #[trigger] self.board.cell(0, c) != 0),
        decreases n,
    {
        if n > 0 {
            self.lemma_open_actions_empty(n - 1);
        }
    }
}

/// Law: gravity holds in every reachable state — each column's markers form
/// one contiguous block resting on the bottom row, so below an occupied
/// cell every cell of the column is occupied. The state invariant `wf`
/// carries this through every `act`, `new` and `reset`.
pub proof fn lemma_gravity_invariant(g: Connect4, c: int, r1: int, r2: int)
    requires
        g.wf(),
        0 <= c < 7,
        0 <= r1 <= r2 <= 5,
        g.board.cell(r1, c) != 0,
    ensures
        g.board.cell(r2, c) != 0,
{
    g.lemma_filled_below(c, r1, r2);
}

/// Law: the turn strictly alternates — after every successful act the other
/// of the two agents is to move, whichever agent placed the marker.
pub proof fn lemma_turn_alternation(
    pre: Connect4,
    post: Connect4,
    action: (usize, usize),
    events: Seq<(usize, i64)>,
)
    requires
        pre.wf(),
        Connect4::act_post(pre, post, action, events),
    ensures
        post.player == Connect4::next_player(pre.player),
        post.player != pre.player,
        post.player == 1 || post.player == 2,
{
}

/// A sequence of zeros counts all its entries.
proof fn lemma_count_zeros_all_zero(s: Seq<usize>)
    requires
        forall|k: int| 0 <= k < s.len() ==> s[k] == 0,
    ensures
        count_zeros(s) == s.len(),
    decreases s.len(),
{
    if s.len() > 0 {
        lemma_count_zeros_all_zero(s.drop_first());
    }
}

/// Law: an episode of Connect Four lasts at most one ply per cell. Right
/// after a reset the engine's measure — the number of empty cells — is the
/// grid's 42 cells, and every act shrinks it, so a trajectory never holds
/// more than 42 plies.
pub proof fn lemma_reset_measure(pre: Connect4, post: Connect4)
    requires
        pre.wf(),
        Connect4::reset_post(pre, post),
    ensures
        post.measure() == 42,
{
    lemma_count_zeros_all_zero(post.board@);
}

/// Law: a Connect-Four episode holds at most 42 plies, one per cell of the
/// 6 by 7 grid: the engine's measure starts at 42 after the reset and every
/// recorded ply shrinks it.
pub proof fn lemma_episode_bounded(
    pre: Connect4,
    post: Connect4,
    data: Seq<(Vec<usize>, (usize, usize), Vec<(usize, i64)>)>,
)
    requires
        pre.wf(),
        crate::domain::episode_of::<Connect4>(pre, post, data),
    ensures
        data.len() <= 42,
{
    let chain = choose|c: Seq<Connect4>|
        #[trigger] crate::domain::episode_linked::<Connect4>(c, pre, post, data);
    lemma_reset_measure(pre, chain[0]);
}

/// Law: the action set of a reachable state is empty exactly when the game
/// is over — some cell takes part in four in a row along one of the four
/// axes, or every column is full.
pub proof fn lemma_actions_empty_iff_terminal(g: Connect4)
    requires
        g.wf(),
    ensures
        g.actions_spec().len() == 0 <==> (g.has_win() || (forall|c: int|
            0 <= c < 7 ==> #[trigger] g.board.cell(0, c) != 0)),
{
    if !g.has_win() {
        g.lemma_open_actions_empty(7);
    }
}

/// Law: resetting twice in a row is the same as resetting once. A reset
/// fixes every observable part of the state — all cells empty, dimensions
/// kept, agent 1 to move — so a second reset changes nothing.
pub proof fn lemma_reset_idempotent(g0: Connect4, g1: Connect4, g2: Connect4)
    requires
        Connect4::reset_post(g0, g1),
        Connect4::reset_post(g1, g2),
    ensures
        g2.board@ == g1.board@,
        g2.board.rows() == g1.board.rows(),
        g2.board.cols() == g1.board.cols(),
        g2.player == g1.player,
{
    assert(g2.board@ =~= g1.board@);
}

impl Domain for Connect4 {
    type Action = (usize, usize);

    type State = Vec<usize>;

    open spec fn inv(&self) -> bool {
        self.wf()
    }

    /// A legal action names one of the two agents and a column with room.
    /// The mover need not be the agent whose turn it is: `act` takes the
    /// marker from the action itself, so out-of-turn placements are
    /// accepted; only a full column is a fatal misuse.
    open spec fn action_ok(&self, action: (usize, usize)) -> bool {
        &&& (action.0 == 1 || action.0 == 2)
        &&& (action.1 as int) < self.board.cols()
        &&& self.board.cell(0, action.1 as int) == 0
    }

    /// Every ply fills one cell, so the number of empty cells bounds the
    /// number of plies left.
    open spec fn measure(&self) -> nat {
        count_zeros(self.board@)
    }

    open spec fn agents_spec() -> Seq<usize> {
        seq![1usize, 2usize]
    }

    open spec fn radd_spec(a: i64, b: i64) -> i64 {
        sat_add(a, b)
    }

    /// One gravity drop: the marker lands in the lowest empty row of the
    /// chosen column, every other cell keeps its value, the turn advances
    /// from the agent whose turn it was to the other, and the reward events
    /// are (winner +1, loser -1) if the drop completed four in a row, else
    /// none.
    open spec fn act_post(
        pre: Connect4,
        post: Connect4,
        action: (usize, usize),
        events: Seq<(usize, i64)>,
    ) -> bool {
        let c = action.1 as int;
        let r = pre.drop_row(c);
        &&& post.board.rows() == pre.board.rows()
        &&& post.board.cols() == pre.board.cols()
        &&& post.board.cell(r, c) == action.0
        &&& forall|r2: int, c2: int|
            pre.board.in_bounds(r2, c2) && !(r2 == r && c2 == c)
                ==> #[trigger] post.board.cell(r2, c2) == pre.board.cell(r2, c2)
        &&& post.player == Self::next_player(pre.player)
        &&& events == if post.winning_at(r, c) {
            seq![(action.0, 1i64), (Self::next_player(action.0), (-1) as i64)]
        } else {
            Seq::<(usize, i64)>::empty()
        }
    }

    open spec fn actions_post(&self, actions: Seq<(usize, usize)>) -> bool {
        actions == self.actions_spec()
    }

    /// The state handed out is the grid's contents, row-major.
    open spec fn state_post(&self, state: Vec<usize>) -> bool {
        state@ == self.board@
    }

    /// A reset leaves every cell empty, the dimensions unchanged, and
    /// agent 1 to move.
    open spec fn reset_post(pre: Connect4, post: Connect4) -> bool {
        &&& post.board.rows() == pre.board.rows()
        &&& post.board.cols() == pre.board.cols()
        &&& post.board@.len() == pre.board@.len()
        &&& (forall|k: int| 0 <= k < post.board@.len() ==> post.board@[k] == 0)
        &&& post.player == 1
    }

    fn clone_action(action: &(usize, usize)) -> (r: (usize, usize)) {
        *action
    }

    fn act(&mut self, action: (usize, usize)) -> (events: Vec<(usize, i64)>) {
        let (player, column) = action;
        let mut rewards: Vec<(usize, i64)> = Vec::new();
        // find the lowest empty cell of the column
        let mut i: usize = 0;
        loop
            invariant
                self == old(self),
                self.wf(),
                player == action.0,
                column == action.1,
                self.action_ok(action),
                i < 6,
                forall|r: int| 0 <= r <= i ==> #[trigger] self.board.cell(r, column as int) == 0,
            ensures
                self == old(self),
                i < 6,
                forall|r: int| 0 <= r <= i ==> #[trigger] self.board.cell(r, column as int) == 0,
                i == 5 || self.board.cell(i as int + 1, column as int) != 0,
            decreases 6 - i,
        {
            if self.board.get_ij(i, column) == 0 && (i == self.board.get_i() - 1
                || self.board.get_ij(i + 1, column) != 0) {
                break;
            }
            i += 1;
        }
        proof {
            self.lemma_drop_row_char(column as int, i as int, 5);
            assert(self.drop_row(column as int) == i as int);
        }
        let ghost pre = *self;
        // place the marker there and hand the turn over
        self.board.put_ij(i, column, player);
        self.switch_players();
        proof {
            assert(self.board@ == pre.board@.update(
                i as int * pre.board.cols() + column as int,
                player,
            ));
            // the placed marker is in range and everything else is unchanged
            assert forall|r2: int, c2: int|
                self.board.in_bounds(r2, c2) implies #[trigger] self.board.cell(r2, c2) <= 2 by {
                if !(r2 == i as int && c2 == column as int) {
                    assert(self.board.cell(r2, c2) == pre.board.cell(r2, c2));
                }
            }
            // the marker rests on the floor or on a filled cell, and nothing
            // sat on the cell it fills, so gravity still holds
            assert forall|r2: int, c2: int|
                self.board.in_bounds(r2, c2) && r2 < self.board.rows() - 1
                    && #[trigger] self.board.cell(r2, c2) != 0 implies self.board.cell(
                r2 + 1,
                c2,
            ) != 0 by {
                if r2 == i as int && c2 == column as int {
                    assert(self.board.cell(r2 + 1, c2) == pre.board.cell(r2 + 1, c2));
                } else {
                    assert(self.board.cell(r2, c2) == pre.board.cell(r2, c2));
                    assert(pre.board.cell(r2 + 1, c2) != 0);
                    if !(r2 + 1 == i as int && c2 == column as int) {
                        assert(self.board.cell(r2 + 1, c2) == pre.board.cell(r2 + 1, c2));
                    }
                }
            }
            assert(self.wf());
            // one empty cell fewer: the episode measure shrinks
            let pos = i as int * pre.board.cols() + column as int;
            assert(pos == i as int * 7 + column as int);
            assert(0 <= pos < pre.board@.len());
            assert(pre.board@[pos] == pre.board.cell(i as int, column as int));
            lemma_count_zeros_update(pre.board@, pos, player);
            assert(self.measure() < pre.measure());
        }
        // reward events only when the drop completed four in a row
        let other_player = if player == 1 {
            2
        } else {
            1
        };
        if self.winning_point(i, column) {
            rewards.push((player, 1i64));
            rewards.push((other_player, -1i64));
            proof {
                assert(rewards@ =~= seq![(player, 1i64), (other_player, (-1) as i64)]);
            }
        } else {
            proof {
                assert(rewards@ =~= Seq::<(usize, i64)>::empty());
            }
        }
        rewards
    }

    fn get_actions(&self) -> (actions: Vec<(usize, usize)>) {
        let mut actions: Vec<(usize, usize)> = Vec::new();
        let ni = self.board.get_i();
        let nj = self.board.get_j();
        // any completed four-in-a-row anywhere ends the game
        for i in 0..ni
            invariant
                self.wf(),
                ni == 6,
                nj == 7,
                actions@ == Seq::<(usize, usize)>::empty(),
                forall|r: int, c: int|
                    0 <= r < i && 0 <= c < 7 ==> !(#[trigger] self.winning_at(r, c)),
        {
            for j in 0..nj
                invariant
                    self.wf(),
                    ni == 6,
                    nj == 7,
                    i < 6,
                    actions@ == Seq::<(usize, usize)>::empty(),
                    forall|r: int, c: int|
                        0 <= r < i && 0 <= c < 7 ==> !(#[trigger] self.winning_at(r, c)),
                    forall|c: int| 0 <= c < j ==> !(#[trigger] self.winning_at(i as int, c)),
            {
                if self.winning_point(i, j) {
                    proof {
                        assert(self.has_win());
                    }
                    return actions;
                }
            }
        }
        proof {
            assert(!self.has_win());
        }
        // one action per column with room for one more marker
        for j in 0..nj
            invariant
                self.wf(),
                nj == 7,
                !self.has_win(),
                actions@ == self.open_actions_upto(j as int),
        {
            if self.board.get_ij(0, j) == 0 {
                actions.push((self.player, j));
            }
        }
        proof {
            self.lemma_open_actions_props(7);
        }
        actions
    }

    fn get_agents(&self) -> (agents: Vec<usize>) {
        let mut agents: Vec<usize> = Vec::new();
        agents.push(1);
        agents.push(2);
        proof {
            assert(agents@ =~= seq![1usize, 2usize]);
        }
        agents
    }

    fn get_state(&self) -> (state: Vec<usize>) {
        self.board.get_board()
    }

    /// Scalar addition of rewards, clamped at the ends of the range.
    fn reward_add(&self, r1: &i64, r2: &i64) -> (r: i64) {
        if *r2 >= 0 {
            if *r1 > i64::MAX - *r2 {
                i64::MAX
            } else {
                *r1 + *r2
            }
        } else {
            if *r1 < i64::MIN - *r2 {
                i64::MIN
            } else {
                *r1 + *r2
            }
        }
    }

    fn reset(&mut self) {
        self.board.reset();
        self.player = 1;
        proof {
            assert forall|r: int, c: int|
                self.board.in_bounds(r, c) implies #[trigger] self.board.cell(r, c) == 0 by {
                let pos = r * self.board.cols() + c;
                assert(pos == r * 7 + c);
                assert(0 <= pos < self.board@.len());
            }
            assert(self.wf());
        }
    }
}

} // verus!
