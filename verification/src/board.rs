//! The game board: a rows x cols grid of spaces, an append-only move
//! history, a canonical integer key for the grid contents, and win/tie
//! detection.

use vstd::prelude::*;
use vstd::arithmetic::power::{
    pow, lemma_pow_adds, lemma_pow_increases, lemma_pow_positive, lemma_pow0, lemma_pow1,
};
use vstd::string::StringExecFns;

verus! {

/// One of the two sides of a game.
#[derive(Debug, PartialEq, Eq, Structural, Copy, Clone)]
pub enum Player {
    X,
    O,
}

/// The contents of a single cell of the grid.
#[derive(Debug, PartialEq, Eq, Structural, Copy, Clone)]
pub enum Space {
    Empty,
    Player(Player),
}

impl Space {
    /// The one-character rendering of a space.
    pub fn to_str(&self) -> (r: &str)
        ensures
            r@ == self.char_seq(),
    {
        proof {
            reveal_strlit("X");
            reveal_strlit("O");
            reveal_strlit("-");
        }
        match self {
            Space::Player(Player::X) => "X",
            Space::Player(Player::O) => "O",
            Space::Empty => "-",
        }
    }

    /// The characters `to_str` renders this space as.
    pub open spec fn char_seq(self) -> Seq<char> {
        match self {
            Space::Player(Player::X) => seq!['X'],
            Space::Player(Player::O) => seq!['O'],
            Space::Empty => seq!['-'],
        }
    }

    /// The digit a space contributes to the board key.
    pub open spec fn key_value(self) -> u64 {
        match self {
            Space::Player(Player::X) => 2,
            Space::Player(Player::O) => 1,
            Space::Empty => 0,
        }
    }
}

/// The outcome of a finished game.
#[derive(Debug, PartialEq, Eq, Structural, Clone, Copy)]
pub enum GameResult {
    Winner(Player),
    Tie,
}

pub type BoardState = Vec<Space>;

/// One entry of the move history: the key of the grid as it stood
/// *before* the move, the space that was placed, and the flat cell index
/// it was placed at.
#[derive(Debug, PartialEq, Eq, Structural, Clone, Copy)]
pub struct Move {
    pub key: u64,
    pub space: Space,
    pub index: usize,
}

pub struct Board {
    pub rows: usize,
    pub cols: usize,
    pub spaces: BoardState,
    pub moves: Vec<Move>,
}

impl Board {
    /// The number of cells of the grid; also the base of the key encoding.
    pub open spec fn size(self) -> int {
        self.rows * self.cols
    }

    /// The canonical key of the current grid.
    pub open spec fn spec_key(self) -> int {
        key_spec(self.spaces@, self.size())
    }

    /// Every recorded move was made on an empty cell of the grid it found,
    /// carries that grid's key, and the grid is the result of replaying
    /// the whole history from an empty board.
    pub open spec fn history_wf(self) -> bool {
        &&& forall|i: int|
            0 <= i < self.moves@.len() ==> #[trigger] move_ok(self.moves@, i, self.size())
        &&& self.spaces@ == replay(self.moves@, self.size())
    }

    /// A board as produced by `new` and mutated only through `set` /
    /// `set_by_index`.
    pub open spec fn wf(self) -> bool {
        &&& self.grid_wf()
        &&& self.history_wf()
    }

    /// Shape of the grid alone. The size cap keeps every key representable
    /// in a `u64`, and a grid of fewer than three cells cannot encode its
    /// three distinct space values injectively in base `size`.
    pub open spec fn grid_wf(self) -> bool {
        &&& 1 <= self.rows
        &&& 1 <= self.cols
        &&& 3 <= self.size() <= 16
        &&& self.spaces@.len() == self.size()
    }

    /// Creates a board with every cell empty and no recorded moves.
    pub fn new(rows: usize, cols: usize) -> (r: Board)
        requires
            1 <= rows,
            1 <= cols,
            3 <= rows * cols <= 16,
        ensures
            r.wf(),
            r.rows == rows,
            r.cols == cols,
            r.spaces@ == empty_grid((rows * cols) as int),
            r.moves@ =~= Seq::<Move>::empty(),
    {
        let mut spaces: Vec<Space> = Vec::new();
        let size = rows * cols;
        for _i in 0..size
            invariant
                spaces@.len() == _i,
                forall|j: int| 0 <= j < _i ==> spaces@[j] == Space::Empty,
        {
            spaces.push(Space::Empty);
        }
        proof {
            assert(spaces@ =~= empty_grid((rows * cols) as int));
        }
        Board { rows, cols, spaces, moves: Vec::new() }
    }

    /// The canonical key of the current grid, as a single integer.
    /// Two grids of the same shape share a key only if they are equal
    /// (see `lemma_key_injective`), and repeated calls on an unchanged
    /// board return the same key.
    pub fn key_as_u64(&self) -> (r: u64)
        requires
            self.grid_wf(),
        ensures
            r as int == self.spec_key(),
    {
        let base: u64 = (self.rows * self.cols) as u64;
        let len = self.spaces.len();
        let mut total: u64 = 0;
        let mut place: u64 = 1;
        proof {
            lemma_pow0(base as int);
            assert(self.spaces@.take(0) =~= Seq::<Space>::empty());
        }
        for i in 0..len
            invariant
                self.grid_wf(),
                len == self.spaces@.len(),
                base == self.size(),
                3 <= base <= 16,
                total as int == key_spec(self.spaces@.take(i as int), base as int),
                i < len ==> place as int == pow(base as int, i as nat),
        {
            let v: u64 = match self.spaces[i] {
                Space::Player(Player::X) => 2,
                Space::Player(Player::O) => 1,
                Space::Empty => 0,
            };
            proof {
                let prefix = self.spaces@.take(i as int);
                let next = self.spaces@.take(i + 1 as int);
                assert(next.drop_last() =~= prefix);
                assert(next.last() == self.spaces@[i as int]);
                assert(key_spec(next, base as int) == total + v * place);
                lemma_key_spec_bound(next, base as int);
                lemma_pow_increases(base as nat, (i + 1) as nat, len as nat);
                lemma_pow_base_mono(base as int, 16, len as nat);
                lemma_pow_increases(16, len as nat, 16);
                lemma_pow16_values();
                if i + 1 < len {
                    lemma_pow_adds(base as int, i as nat, 1);
                    lemma_pow1(base as int);
                    lemma_pow_increases(base as nat, (i + 1) as nat, (len - 1) as nat);
                    lemma_pow_base_mono(base as int, 16, (len - 1) as nat);
                    lemma_pow_increases(16, (len - 1) as nat, 15);
                }
            }
            if v > 0 {
                total = total + v * place;
            }
            if i + 1 < len {
                place = place * base;
            }
        }
        proof {
            assert(self.spaces@.take(len as int) =~= self.spaces@);
        }
        total
    }

    /// The grid rendered as one symbol per cell, in flat index order.
    pub fn key_as_string(&self) -> (r: String)
        ensures
            r@ == key_string_spec(self.spaces@),
    {
        let mut result = String::new();
        let len = self.spaces.len();
        for i in 0..len
            invariant
                len == self.spaces@.len(),
                result@ == key_string_spec(self.spaces@.take(i as int)),
        {
            let piece = self.spaces[i].to_str();
            result.append(piece);
            proof {
                let next = self.spaces@.take(i + 1 as int);
                assert(next.drop_last() =~= self.spaces@.take(i as int));
                assert(next.last() == self.spaces@[i as int]);
            }
        }
        proof {
            assert(self.spaces@.take(len as int) =~= self.spaces@);
        }
        result
    }

    /// The flat indices of the cells that are currently empty, in
    /// increasing order.
    pub fn get_available_spaces(&self) -> (r: Vec<usize>)
        ensures
            r@ == available_of(self.spaces@),
            forall|i: int|
                0 <= i < self.spaces@.len() ==> (self.spaces@[i] == Space::Empty <==> r@.contains(
                    i as usize,
                )),
            forall|j: int|
                0 <= j < r@.len() ==> (#[trigger] r@[j] as int) < self.spaces@.len()
                    && self.spaces@[r@[j] as int] == Space::Empty,
            forall|j1: int, j2: int| 0 <= j1 < j2 < r@.len() ==> r@[j1] < r@[j2],
    {
        let mut result: Vec<usize> = Vec::new();
        let len = self.spaces.len();
        for i in 0..len
            invariant
                len == self.spaces@.len(),
                result@ == available_of(self.spaces@.take(i as int)),
        {
            proof {
                let next = self.spaces@.take(i + 1 as int);
                assert(next.drop_last() =~= self.spaces@.take(i as int));
                assert(next.last() == self.spaces@[i as int]);
            }
            if self.spaces[i] == Space::Empty {
                result.push(i);
            }
        }
        proof {
            assert(self.spaces@.take(len as int) =~= self.spaces@);
            lemma_available_of_props(self.spaces@);
        }
        result
    }

    /// Whether any cell is still empty.
    pub fn moves_available(&self) -> (r: bool)
        ensures
            r == has_empty(self.spaces@),
    {
        let len = self.spaces.len();
        for i in 0..len
            invariant
                len == self.spaces@.len(),
                forall|k: int| 0 <= k < i ==> self.spaces@[k] != Space::Empty,
        {
            if self.spaces[i] == Space::Empty {
                return true;
            }
        }
        false
    }

    /// Places `space` at the given flat index. Fails, leaving the board
    /// exactly as it was, if the index is out of range or the cell is
    /// already occupied; otherwise records the pre-move key, the space and
    /// the index in the move history and then writes the cell.
    pub fn set_by_index(&mut self, index: usize, space: Space) -> (r: Result<(), ()>)
        requires
            old(self).grid_wf(),
        ensures
            final(self).rows == old(self).rows,
            final(self).cols == old(self).cols,
            final(self).grid_wf(),
            r is Ok <==> ((index as int) < old(self).spaces@.len() && old(self).spaces@[index as int]
                == Space::Empty),
            r is Ok ==> final(self).spaces@ == old(self).spaces@.update(index as int, space),
            r is Ok ==> final(self).moves@ == old(self).moves@.push(
                (Move { key: old(self).spec_key() as u64, space, index }),
            ),
            r is Err ==> *final(self) == *old(self),
            old(self).wf() ==> final(self).wf(),
    {
        if index < self.spaces.len() {
            if self.spaces[index] == Space::Empty {
                let key = self.key_as_u64();
                proof {
                    lemma_key_spec_bound(self.spaces@, self.size());
                }
                self.moves.push(Move { index, key, space });
                self.spaces.set(index, space);
                proof {
                    if old(self).wf() {
                        lemma_set_preserves_wf(*old(self), *self, index, space, key);
                    }
                }
                Ok(())
            } else {
                Err(())
            }
        } else {
            Err(())
        }
    }

    /// Places `space` at (row, col), the row-major equivalent of
    /// `set_by_index`. Out-of-range coordinates fail like an occupied
    /// cell does.
    pub fn set(&mut self, row: usize, col: usize, space: Space) -> (r: Result<(), ()>)
        requires
            old(self).grid_wf(),
        ensures
            final(self).rows == old(self).rows,
            final(self).cols == old(self).cols,
            final(self).grid_wf(),
            r is Ok <==> ((row as int) < old(self).rows && (col as int) < old(self).cols && old(
                self,
            ).spaces@[row * old(self).cols + col] == Space::Empty),
            r is Ok ==> final(self).spaces@ == old(self).spaces@.update(
                row * old(self).cols + col,
                space,
            ),
            r is Ok ==> final(self).moves@ == old(self).moves@.push(
                (Move {
                    key: old(self).spec_key() as u64,
                    space,
                    index: (row * old(self).cols + col) as usize,
                }),
            ),
            r is Err ==> *final(self) == *old(self),
            old(self).wf() ==> final(self).wf(),
    {
        if row >= self.rows || col >= self.cols {
            return Err(());
        }
        proof {
            assert(row * self.cols + col < self.rows * self.cols) by (nonlinear_arith)
                requires
                    (row as int) < self.rows,
                    (col as int) < self.cols,
                    self.rows >= 1,
                    self.cols >= 1,
            {}
        }
        let index = row * self.cols + col;
        self.set_by_index(index, space)
    }
}

/// The grid obtained by replaying a move history onto an empty grid;
/// a move whose index misses the grid is ignored (a well-formed history
/// has none).
pub open spec fn replay(moves: Seq<Move>, size: int) -> Seq<Space>
    decreases moves.len(),
{
    if moves.len() == 0 {
        empty_grid(size)
    } else if (moves.last().index as int) < size {
        replay(moves.drop_last(), size).update(
            moves.last().index as int,
            moves.last().space,
        )
    } else {
        replay(moves.drop_last(), size)
    }
}

/// Replaying any history onto an empty grid keeps the grid's size.
pub proof fn lemma_replay_len(moves: Seq<Move>, size: int)
    requires
        size >= 0,
    ensures
        replay(moves, size).len() == size,
    decreases moves.len(),
{
    if moves.len() > 0 {
        lemma_replay_len(moves.drop_last(), size);
    }
}

/// Along a history of piece placements, each move lowers the empty count
/// of the replayed grid by exactly one.
proof fn lemma_replay_count(board: Board, i: int)
    requires
        board.wf(),
        0 <= i < board.moves@.len(),
        board.moves@[i].space != Space::Empty,
    ensures
        count_empty(replay(board.moves@.take(i + 1), board.size())) == count_empty(
            replay(board.moves@.take(i), board.size()),
        ) - 1,
{
    let n = board.size();
    let pre = replay(board.moves@.take(i), n);
    let nxt = board.moves@.take(i + 1);
    assert(move_ok(board.moves@, i, n));
    lemma_replay_len(board.moves@.take(i), n);
    assert(nxt.drop_last() =~= board.moves@.take(i));
    assert(nxt.last() == board.moves@[i]);
    assert(replay(nxt, n) == pre.update(board.moves@[i].index as int, board.moves@[i].space));
    lemma_count_empty_update(pre, board.moves@[i].index as int, board.moves@[i].space);
}

/// In one game no grid repeats: every placement leaves strictly fewer
/// empty cells, so the recorded pre-move keys are pairwise distinct.
pub proof fn lemma_game_keys_distinct(board: Board, i1: int, i2: int)
    requires
        board.wf(),
        0 <= i1 < i2 < board.moves@.len(),
        forall|i: int| 0 <= i < board.moves@.len() ==> (#[trigger] board.moves@[i]).space
            != Space::Empty,
    ensures
        board.moves@[i1].key != board.moves@[i2].key,
{
    let n = board.size();
    lemma_replay_count_chain(board, i1, i2);
    let pre1 = replay(board.moves@.take(i1), n);
    let pre2 = replay(board.moves@.take(i2), n);
    assert(count_empty(pre2) < count_empty(pre1));
    assert(move_ok(board.moves@, i1, n));
    assert(move_ok(board.moves@, i2, n));
    if board.moves@[i1].key == board.moves@[i2].key {
        lemma_replay_len(board.moves@.take(i1), n);
        lemma_replay_len(board.moves@.take(i2), n);
        lemma_key_injective(pre1, pre2, n);
        assert(false);
    }
}

/// The empty count drops by one per move over any span of the history.
proof fn lemma_replay_count_chain(board: Board, i1: int, i2: int)
    requires
        board.wf(),
        0 <= i1 <= i2 <= board.moves@.len(),
        forall|i: int| 0 <= i < board.moves@.len() ==> (#[trigger] board.moves@[i]).space
            != Space::Empty,
    ensures
        count_empty(replay(board.moves@.take(i2), board.size())) == count_empty(
            replay(board.moves@.take(i1), board.size()),
        ) - (i2 - i1),
    decreases i2 - i1,
{
    if i1 < i2 {
        lemma_replay_count_chain(board, i1, i2 - 1);
        lemma_replay_count(board, i2 - 1);
    }
}

/// A well-formed board's key fits in a `u64`.
pub proof fn lemma_key_fits_u64(b: Board)
    requires
        b.grid_wf(),
    ensures
        0 <= b.spec_key() < 0x10000000000000000,
{
    let n = b.size();
    lemma_key_spec_bound(b.spaces@, n);
    lemma_pow_base_mono(n, 16, b.spaces@.len() as nat);
    lemma_pow_increases(16, b.spaces@.len() as nat, 16);
    lemma_pow16_values();
}

/// The move at position `i` was legal for the grid the prefix before it
/// produces, and recorded that grid's key.
pub open spec fn move_ok(moves: Seq<Move>, i: int, size: int) -> bool {
    let pre = replay(moves.take(i), size);
    &&& (moves[i].index as int) < size
    &&& pre[moves[i].index as int] == Space::Empty
    &&& moves[i].key as int == key_spec(pre, size)
}

/// Whether some cell of the grid is empty.
pub open spec fn has_empty(s: Seq<Space>) -> bool {
    exists|i: int| 0 <= i < s.len() && s[i] == Space::Empty
}

/// How many cells of the grid are empty.
pub open spec fn count_empty(s: Seq<Space>) -> int
    decreases s.len(),
{
    if s.len() == 0 {
        0
    } else {
        count_empty(s.drop_last()) + if s.last() == Space::Empty {
            1int
        } else {
            0int
        }
    }
}

/// The empty count is non-negative, and positive exactly when some cell
/// is empty.
pub proof fn lemma_count_empty_pos(s: Seq<Space>)
    ensures
        count_empty(s) >= 0,
        has_empty(s) <==> count_empty(s) > 0,
    decreases s.len(),
{
    if s.len() > 0 {
        lemma_count_empty_pos(s.drop_last());
        if has_empty(s.drop_last()) {
            let i = choose|i: int| 0 <= i < s.len() - 1 && s.drop_last()[i] == Space::Empty;
            assert(s[i] == Space::Empty);
        }
        if s.last() == Space::Empty {
            assert(has_empty(s));
        }
        if has_empty(s) && s.last() != Space::Empty {
            let i = choose|i: int| 0 <= i < s.len() && s[i] == Space::Empty;
            assert(s.drop_last()[i] == Space::Empty);
            assert(has_empty(s.drop_last()));
        }
    }
}

/// Occupying an empty cell lowers the empty count by one.
pub proof fn lemma_count_empty_update(s: Seq<Space>, i: int, sp: Space)
    requires
        0 <= i < s.len(),
        s[i] == Space::Empty,
        sp != Space::Empty,
    ensures
        count_empty(s.update(i, sp)) == count_empty(s) - 1,
    decreases s.len(),
{
    let t = s.update(i, sp);
    if i == s.len() - 1 {
        assert(t.drop_last() =~= s.drop_last());
    } else {
        assert(t.drop_last() =~= s.drop_last().update(i, sp));
        lemma_count_empty_update(s.drop_last(), i, sp);
    }
}

/// The indices of the empty cells of a grid, in increasing order.
pub open spec fn available_of(s: Seq<Space>) -> Seq<usize>
    decreases s.len(),
{
    if s.len() == 0 {
        Seq::empty()
    } else if s.last() == Space::Empty {
        available_of(s.drop_last()).push((s.len() - 1) as usize)
    } else {
        available_of(s.drop_last())
    }
}

/// `available_of` holds exactly the indices of the empty cells, each once,
/// in increasing order.
pub proof fn lemma_available_of_props(s: Seq<Space>)
    requires
        s.len() <= usize::MAX,
    ensures
        forall|i: int|
            0 <= i < s.len() ==> (s[i] == Space::Empty <==> available_of(s).contains(i as usize)),
        forall|j: int|
            0 <= j < available_of(s).len() ==> (#[trigger] available_of(s)[j] as int) < s.len()
                && s[available_of(s)[j] as int] == Space::Empty,
        forall|j1: int, j2: int|
            0 <= j1 < j2 < available_of(s).len() ==> available_of(s)[j1] < available_of(s)[j2],
    decreases s.len(),
{
    if s.len() > 0 {
        lemma_available_of_props(s.drop_last());
        let prev = available_of(s.drop_last());
        let cur = available_of(s);
        if s.last() == Space::Empty {
            assert forall|j1: int, j2: int| 0 <= j1 < j2 < cur.len() implies cur[j1] < cur[j2] by {
                if j2 == cur.len() - 1 {
                    assert((cur[j1] as int) < s.len() - 1);
                }
            }
        }
        assert forall|i: int|
            0 <= i < s.len() implies (s[i] == Space::Empty <==> cur.contains(i as usize)) by {
            if i < s.len() - 1 {
                assert(s.drop_last()[i] == s[i]);
                if s[i] == Space::Empty {
                    let j = choose|j: int| 0 <= j < prev.len() && prev[j] == i as usize;
                    assert(cur[j] == i as usize);
                    assert(cur.contains(i as usize));
                } else {
                    if cur.contains(i as usize) {
                        let j = choose|j: int| 0 <= j < cur.len() && cur[j] == i as usize;
                        assert(j < prev.len());
                        assert(prev.contains(i as usize));
                    }
                }
            } else {
                if s.last() == Space::Empty {
                    assert(cur.last() == i as usize);
                    assert(cur.contains(i as usize));
                } else {
                    if cur.contains(i as usize) {
                        let j = choose|j: int| 0 <= j < cur.len() && cur[j] == i as usize;
                        assert((prev[j] as int) < s.len() - 1);
                    }
                }
            }
        }
    }
}

/// A successful `set_by_index` keeps the history invariant.
proof fn lemma_set_preserves_wf(pre: Board, post: Board, index: usize, space: Space, key: u64)
    requires
        pre.wf(),
        (index as int) < pre.spaces@.len(),
        pre.spaces@[index as int] == Space::Empty,
        key as int == pre.spec_key(),
        post.rows == pre.rows,
        post.cols == pre.cols,
        post.spaces@ == pre.spaces@.update(index as int, space),
        post.moves@ == pre.moves@.push((Move { index, key, space })),
    ensures
        post.wf(),
{
    let size = pre.size();
    let m = Move { index, key, space };
    let n = pre.moves@.len() as int;
    assert(post.moves@.drop_last() =~= pre.moves@);
    assert(post.spaces@ == replay(post.moves@, size));
    assert forall|i: int| 0 <= i < post.moves@.len() implies #[trigger] move_ok(
        post.moves@,
        i,
        size,
    ) by {
        if i < n {
            assert(post.moves@.take(i) =~= pre.moves@.take(i));
            assert(move_ok(pre.moves@, i, size));
            assert(post.moves@[i] == pre.moves@[i]);
        } else {
            assert(post.moves@.take(i) =~= pre.moves@);
            assert(post.moves@[i] == m);
        }
    }
}

/// The other side.
pub open spec fn opponent(p: Player) -> Player {
    match p {
        Player::X => Player::O,
        Player::O => Player::X,
    }
}

/// The cell in row `r`, column `c` of a row-major grid with `cols`
/// columns.
pub open spec fn cell_at(s: Seq<Space>, cols: int, r: int, c: int) -> Space {
    s[r * cols + c]
}

/// Row `r` is completely occupied by `p`.
pub open spec fn row_is(s: Seq<Space>, cols: int, r: int, p: Player) -> bool {
    forall|c: int| 0 <= c < cols ==> cell_at(s, cols, r, c) == Space::Player(p)
}

/// Column `c` is completely occupied by `p`.
pub open spec fn col_is(s: Seq<Space>, rows: int, cols: int, c: int, p: Player) -> bool {
    forall|r: int| 0 <= r < rows ==> cell_at(s, cols, r, c) == Space::Player(p)
}

/// The main diagonal of a square grid of side `n` is completely occupied
/// by `p`.
pub open spec fn main_diag_is(s: Seq<Space>, n: int, p: Player) -> bool {
    forall|i: int| 0 <= i < n ==> cell_at(s, n, i, i) == Space::Player(p)
}

/// The cell of the anti diagonal in row `i` of a square grid of side `n`.
pub open spec fn anti_cell(s: Seq<Space>, n: int, i: int) -> Space {
    s[i * n + (n - 1 - i)]
}

/// The anti diagonal of a square grid of side `n` is completely occupied
/// by `p`.
pub open spec fn anti_diag_is(s: Seq<Space>, n: int, p: Player) -> bool {
    forall|i: int| 0 <= i < n ==> anti_cell(s, n, i) == Space::Player(p)
}

/// The player, if any, who owns all of row `r`.
pub open spec fn row_winner(s: Seq<Space>, cols: int, r: int) -> Option<Player> {
    if row_is(s, cols, r, Player::X) {
        Some(Player::X)
    } else if row_is(s, cols, r, Player::O) {
        Some(Player::O)
    } else {
        None
    }
}

/// The player, if any, who owns all of column `c`.
pub open spec fn col_winner(s: Seq<Space>, rows: int, cols: int, c: int) -> Option<Player> {
    if col_is(s, rows, cols, c, Player::X) {
        Some(Player::X)
    } else if col_is(s, rows, cols, c, Player::O) {
        Some(Player::O)
    } else {
        None
    }
}

/// The player, if any, who owns the main diagonal.
pub open spec fn main_diag_winner(s: Seq<Space>, n: int) -> Option<Player> {
    if main_diag_is(s, n, Player::X) {
        Some(Player::X)
    } else if main_diag_is(s, n, Player::O) {
        Some(Player::O)
    } else {
        None
    }
}

/// The player, if any, who owns the anti diagonal.
pub open spec fn anti_diag_winner(s: Seq<Space>, n: int) -> Option<Player> {
    if anti_diag_is(s, n, Player::X) {
        Some(Player::X)
    } else if anti_diag_is(s, n, Player::O) {
        Some(Player::O)
    } else {
        None
    }
}

/// The winner of the first winning row at or after `r`, scanning upward.
pub open spec fn scan_rows(s: Seq<Space>, rows: int, cols: int, r: int) -> Option<Player>
    decreases rows - r,
{
    if r < 0 || r >= rows {
        None
    } else if row_winner(s, cols, r) is Some {
        row_winner(s, cols, r)
    } else {
        scan_rows(s, rows, cols, r + 1)
    }
}

/// The winner of the first winning column at or after `c`, scanning upward.
pub open spec fn scan_cols(s: Seq<Space>, rows: int, cols: int, c: int) -> Option<Player>
    decreases cols - c,
{
    if c < 0 || c >= cols {
        None
    } else if col_winner(s, rows, cols, c) is Some {
        col_winner(s, rows, cols, c)
    } else {
        scan_cols(s, rows, cols, c + 1)
    }
}

impl Board {
    /// The winner of a diagonal, considered only on square grids: the
    /// main diagonal first, then the anti diagonal.
    pub open spec fn diag_winner(self) -> Option<Player> {
        if self.rows == self.cols {
            match main_diag_winner(self.spaces@, self.rows as int) {
                Some(p) => Some(p),
                None => anti_diag_winner(self.spaces@, self.rows as int),
            }
        } else {
            None
        }
    }

    /// The outcome `determine_winner` reports: the first winning row, else
    /// the first winning column, else a winning diagonal, else a tie when
    /// the grid is full, else nothing.
    pub open spec fn winner_spec(self) -> Option<GameResult> {
        let s = self.spaces@;
        match scan_rows(s, self.rows as int, self.cols as int, 0) {
            Some(p) => Some(GameResult::Winner(p)),
            None => match scan_cols(s, self.rows as int, self.cols as int, 0) {
                Some(p) => Some(GameResult::Winner(p)),
                None => match self.diag_winner() {
                    Some(p) => Some(GameResult::Winner(p)),
                    None => if !has_empty(s) {
                        Some(GameResult::Tie)
                    } else {
                        None
                    },
                },
            },
        }
    }

    /// Reports the winner of row `row`, if the whole row is one player's.
    fn check_row(&self, row: usize) -> (w: Option<Player>)
        requires
            self.grid_wf(),
            (row as int) < self.rows,
        ensures
            w == row_winner(self.spaces@, self.cols as int, row as int),
    {
        proof {
            assert(row * self.cols < self.rows * self.cols) by (nonlinear_arith)
                requires
                    (row as int) < self.rows,
                    self.rows >= 1,
                    self.cols >= 1,
            {}
        }
        let start = row * self.cols;
        let first = self.spaces[start];
        match first {
            Space::Empty => {
                proof {
                    assert(cell_at(self.spaces@, self.cols as int, row as int, 0) == Space::Empty);
                }
                None
            },
            Space::Player(p) => {
                for c in 1..self.cols
                    invariant
                        self.grid_wf(),
                        (row as int) < self.rows,
                        start == row * self.cols,
                        first == self.spaces@[start as int],
                        first == Space::Player(p),
                        forall|cc: int|
                            0 <= cc < c ==> cell_at(self.spaces@, self.cols as int, row as int, cc)
                                == Space::Player(p),
                {
                    proof {
                        assert(row * self.cols + c < self.rows * self.cols) by (nonlinear_arith)
                            requires
                                (row as int) < self.rows,
                                0 <= (c as int) < self.cols,
                                self.rows >= 1,
                                self.cols >= 1,
                        {}
                    }
                    if self.spaces[start + c] != first {
                        proof {
                            assert(cell_at(self.spaces@, self.cols as int, row as int, c as int)
                                != Space::Player(p));
                            assert(cell_at(self.spaces@, self.cols as int, row as int, 0)
                                == Space::Player(p));
                        }
                        return None;
                    }
                    proof {
                        assert(cell_at(self.spaces@, self.cols as int, row as int, c as int)
                            == Space::Player(p));
                    }
                }
                proof {
                    assert(row_is(self.spaces@, self.cols as int, row as int, p));
                    assert(cell_at(self.spaces@, self.cols as int, row as int, 0) == Space::Player(
                        p,
                    ));
                }
                Some(p)
            },
        }
    }

    /// Reports the winner of column `col`, if the whole column is one
    /// player's.
    fn check_col(&self, col: usize) -> (w: Option<Player>)
        requires
            self.grid_wf(),
            (col as int) < self.cols,
        ensures
            w == col_winner(self.spaces@, self.rows as int, self.cols as int, col as int),
    {
        proof {
            assert(col < self.rows * self.cols) by (nonlinear_arith)
                requires
                    (col as int) < self.cols,
                    self.rows >= 1,
                    self.cols >= 1,
            {}
        }
        let first = self.spaces[col];
        match first {
            Space::Empty => {
                proof {
                    assert(cell_at(self.spaces@, self.cols as int, 0, col as int) == Space::Empty);
                }
                None
            },
            Space::Player(p) => {
                for r in 1..self.rows
                    invariant
                        self.grid_wf(),
                        (col as int) < self.cols,
                        first == self.spaces@[col as int],
                        first == Space::Player(p),
                        forall|rr: int|
                            0 <= rr < r ==> cell_at(self.spaces@, self.cols as int, rr, col as int)
                                == Space::Player(p),
                {
                    proof {
                        assert(r * self.cols + col < self.rows * self.cols) by (nonlinear_arith)
                            requires
                                (col as int) < self.cols,
                                0 <= (r as int) < self.rows,
                                self.rows >= 1,
                                self.cols >= 1,
                        {}
                    }
                    if self.spaces[r * self.cols + col] != first {
                        proof {
                            assert(cell_at(self.spaces@, self.cols as int, r as int, col as int)
                                != Space::Player(p));
                            assert(cell_at(self.spaces@, self.cols as int, 0, col as int)
                                == Space::Player(p));
                        }
                        return None;
                    }
                    proof {
                        assert(cell_at(self.spaces@, self.cols as int, r as int, col as int)
                            == Space::Player(p));
                    }
                }
                proof {
                    assert(col_is(self.spaces@, self.rows as int, self.cols as int, col as int, p));
                    assert(cell_at(self.spaces@, self.cols as int, 0, col as int) == Space::Player(
                        p,
                    ));
                }
                Some(p)
            },
        }
    }

    /// Reports the owner of the main diagonal of a square grid, if any.
    fn check_main_diag(&self) -> (w: Option<Player>)
        requires
            self.grid_wf(),
            self.rows == self.cols,
        ensures
            w == main_diag_winner(self.spaces@, self.rows as int),
    {
        let first = self.spaces[0];
        match first {
            Space::Empty => {
                proof {
                    assert(cell_at(self.spaces@, self.rows as int, 0, 0) == Space::Empty);
                }
                None
            },
            Space::Player(p) => {
                for i in 1..self.rows
                    invariant
                        self.grid_wf(),
                        self.rows == self.cols,
                        first == self.spaces@[0],
                        first == Space::Player(p),
                        forall|j: int|
                            0 <= j < i ==> cell_at(self.spaces@, self.rows as int, j, j)
                                == Space::Player(p),
                {
                    proof {
                        assert(i * self.rows + i < self.rows * self.cols) by (nonlinear_arith)
                            requires
                                0 <= (i as int) < self.rows,
                                self.rows == self.cols,
                                self.rows >= 1,
                        {}
                    }
                    if self.spaces[i * self.rows + i] != first {
                        proof {
                            assert(cell_at(self.spaces@, self.rows as int, i as int, i as int)
                                != Space::Player(p));
                            assert(cell_at(self.spaces@, self.rows as int, 0, 0) == Space::Player(
                                p,
                            ));
                        }
                        return None;
                    }
                    proof {
                        assert(cell_at(self.spaces@, self.rows as int, i as int, i as int)
                            == Space::Player(p));
                    }
                }
                proof {
                    assert(main_diag_is(self.spaces@, self.rows as int, p));
                    assert(cell_at(self.spaces@, self.rows as int, 0, 0) == Space::Player(p));
                }
                Some(p)
            },
        }
    }

    /// Reports the owner of the anti diagonal of a square grid, if any.
    fn check_anti_diag(&self) -> (w: Option<Player>)
        requires
            self.grid_wf(),
            self.rows == self.cols,
        ensures
            w == anti_diag_winner(self.spaces@, self.rows as int),
    {
        let n = self.rows;
        proof {
            assert(n - 1 < self.rows * self.cols) by (nonlinear_arith)
                requires
                    self.rows == self.cols,
                    self.rows >= 1,
                    n == self.rows,
            {}
        }
        let first = self.spaces[n - 1];
        match first {
            Space::Empty => {
                proof {
                    assert(anti_cell(self.spaces@, n as int, 0) == Space::Empty);
                }
                None
            },
            Space::Player(p) => {
                for i in 1..n
                    invariant
                        self.grid_wf(),
                        self.rows == self.cols,
                        n == self.rows,
                        first == self.spaces@[n - 1],
                        first == Space::Player(p),
                        forall|j: int|
                            0 <= j < i ==> anti_cell(self.spaces@, n as int, j) == Space::Player(
                                p,
                            ),
                {
                    proof {
                        assert(i * n + (n - 1 - i) < self.rows * self.cols) by (nonlinear_arith)
                            requires
                                0 <= (i as int) < n,
                                self.rows == self.cols,
                                n == self.rows,
                                self.rows >= 1,
                        {}
                    }
                    if self.spaces[i * n + (n - 1 - i)] != first {
                        proof {
                            assert(anti_cell(self.spaces@, n as int, i as int) != Space::Player(
                                p,
                            ));
                            assert(anti_cell(self.spaces@, n as int, 0) == Space::Player(p));
                        }
                        return None;
                    }
                    proof {
                        assert(anti_cell(self.spaces@, n as int, i as int) == Space::Player(p));
                    }
                }
                proof {
                    assert(anti_diag_is(self.spaces@, n as int, p));
                    assert(anti_cell(self.spaces@, n as int, 0) == Space::Player(p));
                }
                Some(p)
            },
        }
    }

    /// Determines the outcome: checks every row, then every column, then
    /// (on square grids) both diagonals; if no line is won and no cell is
    /// empty the game is a tie, and otherwise it is still running.
    pub fn determine_winner(&self) -> (r: Option<GameResult>)
        requires
            self.grid_wf(),
        ensures
            r == self.winner_spec(),
    {
        let rows = self.rows;
        let cols = self.cols;
        let s = Ghost(self.spaces@);
        for row in 0..rows
            invariant
                self.grid_wf(),
                rows == self.rows,
                cols == self.cols,
                s@ == self.spaces@,
                scan_rows(s@, rows as int, cols as int, 0) == scan_rows(
                    s@,
                    rows as int,
                    cols as int,
                    row as int,
                ),
        {
            let w = self.check_row(row);
            if let Some(p) = w {
                return Some(GameResult::Winner(p));
            }
        }
        proof {
            assert(scan_rows(s@, rows as int, cols as int, rows as int) is None);
        }
        for col in 0..cols
            invariant
                self.grid_wf(),
                rows == self.rows,
                cols == self.cols,
                s@ == self.spaces@,
                scan_rows(s@, rows as int, cols as int, 0) is None,
                scan_cols(s@, rows as int, cols as int, 0) == scan_cols(
                    s@,
                    rows as int,
                    cols as int,
                    col as int,
                ),
        {
            let w = self.check_col(col);
            if let Some(p) = w {
                return Some(GameResult::Winner(p));
            }
        }
        proof {
            assert(scan_cols(s@, rows as int, cols as int, cols as int) is None);
        }
        if rows == cols {
            let w = self.check_main_diag();
            if let Some(p) = w {
                return Some(GameResult::Winner(p));
            }
            let w2 = self.check_anti_diag();
            if let Some(p) = w2 {
                return Some(GameResult::Winner(p));
            }
        }
        if !self.moves_available() {
            return Some(GameResult::Tie);
        }
        None
    }
}

/// A grid's rendering has one character per cell.
pub proof fn lemma_key_string_len(s: Seq<Space>)
    ensures
        key_string_spec(s).len() == s.len(),
    decreases s.len(),
{
    if s.len() > 0 {
        lemma_key_string_len(s.drop_last());
    }
}

/// Distinct grids of the same size render to distinct strings: the
/// string form of the key is injective as well.
pub proof fn lemma_key_string_injective(s1: Seq<Space>, s2: Seq<Space>)
    requires
        s1.len() == s2.len(),
        key_string_spec(s1) == key_string_spec(s2),
    ensures
        s1 == s2,
    decreases s1.len(),
{
    if s1.len() == 0 {
        assert(s1 =~= s2);
    } else {
        let a1 = key_string_spec(s1.drop_last());
        let a2 = key_string_spec(s2.drop_last());
        lemma_key_string_len(s1.drop_last());
        lemma_key_string_len(s2.drop_last());
        assert(key_string_spec(s1)[s1.len() - 1] == s1.last().char_seq()[0]);
        assert(key_string_spec(s2)[s2.len() - 1] == s2.last().char_seq()[0]);
        assert(s1.last() == s2.last());
        assert(a1 =~= a2) by {
            assert forall|i: int| 0 <= i < a1.len() implies a1[i] == a2[i] by {
                assert(key_string_spec(s1)[i] == a1[i]);
                assert(key_string_spec(s2)[i] == a2[i]);
            }
        }
        lemma_key_string_injective(s1.drop_last(), s2.drop_last());
        assert(s1 =~= s1.drop_last().push(s1.last()));
        assert(s2 =~= s2.drop_last().push(s2.last()));
    }
}

/// `p` owns a complete line of the board: a row, a column, or (on a
/// square board) a diagonal.
pub open spec fn has_win(b: Board, p: Player) -> bool {
    ||| exists|r: int| 0 <= r < b.rows && row_is(b.spaces@, b.cols as int, r, p)
    ||| exists|c: int| 0 <= c < b.cols && col_is(b.spaces@, b.rows as int, b.cols as int, c, p)
    ||| (b.rows == b.cols && main_diag_is(b.spaces@, b.rows as int, p))
    ||| (b.rows == b.cols && anti_diag_is(b.spaces@, b.rows as int, p))
}

/// An empty row scan means no player owns a row in its range.
proof fn lemma_scan_rows_none_means(s: Seq<Space>, rows: int, cols: int, r0: int)
    requires
        0 <= r0,
        scan_rows(s, rows, cols, r0) is None,
    ensures
        forall|r: int, q: Player| r0 <= r < rows ==> !row_is(s, cols, r, q),
    decreases rows - r0,
{
    if !(r0 < 0 || r0 >= rows) {
        lemma_scan_rows_none_means(s, rows, cols, r0 + 1);
        assert forall|r: int, q: Player| r0 <= r < rows implies !row_is(s, cols, r, q) by {
            if r == r0 {
                assert(row_winner(s, cols, r0) is None);
            }
        }
    }
}

/// An empty column scan means no player owns a column in its range.
proof fn lemma_scan_cols_none_means(s: Seq<Space>, rows: int, cols: int, c0: int)
    requires
        0 <= c0,
        scan_cols(s, rows, cols, c0) is None,
    ensures
        forall|c: int, q: Player| c0 <= c < cols ==> !col_is(s, rows, cols, c, q),
    decreases cols - c0,
{
    if !(c0 < 0 || c0 >= cols) {
        lemma_scan_cols_none_means(s, rows, cols, c0 + 1);
        assert forall|c: int, q: Player| c0 <= c < cols implies !col_is(s, rows, cols, c, q) by {
            if c == c0 {
                assert(col_winner(s, rows, cols, c0) is None);
            }
        }
    }
}

/// A still-running game has no complete line at all.
pub proof fn lemma_winner_none_no_win(b: Board)
    requires
        b.grid_wf(),
        b.winner_spec() is None,
    ensures
        forall|p: Player| !has_win(b, p),
{
    let s = b.spaces@;
    let rows = b.rows as int;
    let cols = b.cols as int;
    lemma_scan_rows_none_means(s, rows, cols, 0);
    lemma_scan_cols_none_means(s, rows, cols, 0);
    assert forall|p: Player| !has_win(b, p) by {
        if b.rows == b.cols {
            assert(!main_diag_is(s, rows, p)) by {
                assert(main_diag_winner(s, rows) is None);
            }
            assert(!anti_diag_is(s, rows, p)) by {
                assert(anti_diag_winner(s, rows) is None);
            }
        }
    }
}

/// A reported winner really owns a complete line.
pub proof fn lemma_winner_some_has_win(b: Board)
    requires
        b.grid_wf(),
        b.winner_spec() matches Some(GameResult::Winner(q)),
    ensures
        b.winner_spec() matches Some(GameResult::Winner(q)) ==> has_win(b, q),
{
    let s = b.spaces@;
    let rows = b.rows as int;
    let cols = b.cols as int;
    if scan_rows(s, rows, cols, 0) is Some {
        lemma_scan_rows_gives_win(s, rows, cols, 0);
    } else if scan_cols(s, rows, cols, 0) is Some {
        lemma_scan_cols_gives_win(s, rows, cols, 0);
    }
}

/// Placing a piece for `p` cannot complete a line for the other side: any
/// line the opponent owns afterwards avoids the placed cell, so it was
/// already owned before.
pub proof fn lemma_move_keeps_other_winless(pre: Board, post: Board, index: int, p: Player)
    requires
        pre.grid_wf(),
        post.rows == pre.rows,
        post.cols == pre.cols,
        0 <= index < pre.spaces@.len(),
        post.spaces@ == pre.spaces@.update(index, Space::Player(p)),
        !has_win(pre, opponent(p)),
    ensures
        !has_win(post, opponent(p)),
{
    let q = opponent(p);
    let s = pre.spaces@;
    let t = post.spaces@;
    let rows = pre.rows as int;
    let cols = pre.cols as int;
    assert(Space::Player(p) != Space::Player(q));
    if has_win(post, q) {
        if exists|r: int| 0 <= r < rows && row_is(t, cols, r, q) {
            let r = choose|r: int| 0 <= r < rows && row_is(t, cols, r, q);
            assert(row_is(s, cols, r, q)) by {
                assert forall|c: int| 0 <= c < cols implies cell_at(s, cols, r, c)
                    == Space::Player(q) by {
                    assert(0 <= r * cols + c < rows * cols) by (nonlinear_arith)
                        requires
                            0 <= r < rows,
                            0 <= c < cols,
                    {}
                    assert(cell_at(t, cols, r, c) == Space::Player(q));
                    if r * cols + c == index {
                        assert(t[index] == Space::Player(p));
                        assert(false);
                    }
                }
            }
        } else if exists|c: int| 0 <= c < cols && col_is(t, rows, cols, c, q) {
            let c = choose|c: int| 0 <= c < cols && col_is(t, rows, cols, c, q);
            assert(col_is(s, rows, cols, c, q)) by {
                assert forall|r: int| 0 <= r < rows implies cell_at(s, cols, r, c)
                    == Space::Player(q) by {
                    assert(0 <= r * cols + c < rows * cols) by (nonlinear_arith)
                        requires
                            0 <= r < rows,
                            0 <= c < cols,
                    {}
                    assert(cell_at(t, cols, r, c) == Space::Player(q));
                    if r * cols + c == index {
                        assert(t[index] == Space::Player(p));
                        assert(false);
                    }
                }
            }
        } else if post.rows == post.cols && main_diag_is(t, rows, q) {
            assert(main_diag_is(s, rows, q)) by {
                assert forall|i: int| 0 <= i < rows implies cell_at(s, rows, i, i)
                    == Space::Player(q) by {
                    assert(0 <= i * rows + i < rows * cols) by (nonlinear_arith)
                        requires
                            0 <= i < rows,
                            rows == cols,
                    {}
                    assert(cell_at(t, rows, i, i) == Space::Player(q));
                    if i * rows + i == index {
                        assert(t[index] == Space::Player(p));
                        assert(false);
                    }
                }
            }
        } else {
            assert(post.rows == post.cols && anti_diag_is(t, rows, q));
            assert(anti_diag_is(s, rows, q)) by {
                assert forall|i: int| 0 <= i < rows implies anti_cell(s, rows, i)
                    == Space::Player(q) by {
                    assert(0 <= i * rows + (rows - 1 - i) < rows * cols) by (nonlinear_arith)
                        requires
                            0 <= i < rows,
                            rows == cols,
                    {}
                    assert(anti_cell(t, rows, i) == Space::Player(q));
                    if i * rows + (rows - 1 - i) == index {
                        assert(t[index] == Space::Player(p));
                        assert(false);
                    }
                }
            }
        }
        assert(has_win(pre, q));
    }
}

/// If the opponent of `p` owns no row at or after `r0`, the row scan
/// reports `p` when `p` owns such a row and nothing otherwise.
proof fn lemma_scan_rows_only(s: Seq<Space>, rows: int, cols: int, r0: int, p: Player)
    requires
        cols >= 1,
        0 <= r0,
        forall|r: int| r0 <= r < rows ==> !row_is(s, cols, r, opponent(p)),
    ensures
        (exists|r: int| r0 <= r < rows && row_is(s, cols, r, p)) ==> scan_rows(s, rows, cols, r0)
            == Some(p),
        !(exists|r: int| r0 <= r < rows && row_is(s, cols, r, p)) ==> scan_rows(s, rows, cols, r0)
            is None,
    decreases rows - r0,
{
    if r0 < rows {
        if row_is(s, cols, r0, p) {
            assert(cell_at(s, cols, r0, 0) == Space::Player(p));
        }
        lemma_scan_rows_only(s, rows, cols, r0 + 1, p);
        if exists|r: int| r0 + 1 <= r < rows && row_is(s, cols, r, p) {
            let rw = choose|r: int| r0 + 1 <= r < rows && row_is(s, cols, r, p);
            assert(r0 <= rw < rows && row_is(s, cols, rw, p));
        }
    }
}

/// The column counterpart of `lemma_scan_rows_only`.
proof fn lemma_scan_cols_only(s: Seq<Space>, rows: int, cols: int, c0: int, p: Player)
    requires
        rows >= 1,
        0 <= c0,
        forall|c: int| c0 <= c < cols ==> !col_is(s, rows, cols, c, opponent(p)),
    ensures
        (exists|c: int| c0 <= c < cols && col_is(s, rows, cols, c, p)) ==> scan_cols(
            s,
            rows,
            cols,
            c0,
        ) == Some(p),
        !(exists|c: int| c0 <= c < cols && col_is(s, rows, cols, c, p)) ==> scan_cols(
            s,
            rows,
            cols,
            c0,
        ) is None,
    decreases cols - c0,
{
    if c0 < cols {
        if col_is(s, rows, cols, c0, p) {
            assert(cell_at(s, cols, 0, c0) == Space::Player(p));
        }
        lemma_scan_cols_only(s, rows, cols, c0 + 1, p);
        if exists|c: int| c0 + 1 <= c < cols && col_is(s, rows, cols, c, p) {
            let cw = choose|c: int| c0 + 1 <= c < cols && col_is(s, rows, cols, c, p);
            assert(c0 <= cw < cols && col_is(s, rows, cols, cw, p));
        }
    }
}

/// Every complete line is detected: when `p` owns a line and the opponent
/// owns none, `determine_winner` reports the win for `p`, whichever of
/// the rows, columns or diagonals the line is.
pub proof fn lemma_line_win_detected(b: Board, p: Player)
    requires
        b.grid_wf(),
        has_win(b, p),
        !has_win(b, opponent(p)),
    ensures
        b.winner_spec() == Some(GameResult::Winner(p)),
{
    let s = b.spaces@;
    let rows = b.rows as int;
    let cols = b.cols as int;
    let q = opponent(p);
    assert(opponent(q) == p);
    lemma_scan_rows_only(s, rows, cols, 0, p);
    lemma_scan_cols_only(s, rows, cols, 0, p);
    if exists|r: int| 0 <= r < rows && row_is(s, cols, r, p) {
        assert(scan_rows(s, rows, cols, 0) == Some(p));
    } else {
        assert(scan_rows(s, rows, cols, 0) is None);
        if exists|c: int| 0 <= c < cols && col_is(s, rows, cols, c, p) {
            assert(scan_cols(s, rows, cols, 0) == Some(p));
        } else {
            assert(scan_cols(s, rows, cols, 0) is None);
            assert(b.rows == b.cols);
            if main_diag_is(s, rows, p) {
                assert(main_diag_winner(s, rows) == Some(p));
            } else {
                assert(main_diag_winner(s, rows) is None);
                assert(anti_diag_is(s, rows, p));
                assert(anti_diag_winner(s, rows) == Some(p));
            }
            assert(b.diag_winner() == Some(p));
        }
    }
}

/// `t` is the transpose of the `rows` x `cols` grid `s`: the cell in row
/// `r`, column `c` of `s` sits in row `c`, column `r` of `t`.
pub open spec fn is_transpose(s: Seq<Space>, t: Seq<Space>, rows: int, cols: int) -> bool {
    &&& t.len() == rows * cols
    &&& forall|r: int, c: int|
        0 <= r < rows && 0 <= c < cols ==> #[trigger] cell_at(t, rows, c, r) == cell_at(
            s,
            cols,
            r,
            c,
        )
}

/// Each row of the transpose is won exactly as the matching column of
/// the original, each column as the matching row, and the diagonals of a
/// square grid carry over in place.
proof fn lemma_transpose_lines(b1: Board, b2: Board)
    requires
        b1.grid_wf(),
        b2.grid_wf(),
        b2.rows == b1.cols,
        b2.cols == b1.rows,
        is_transpose(b1.spaces@, b2.spaces@, b1.rows as int, b1.cols as int),
    ensures
        forall|c: int, p: Player|
            0 <= c < b1.cols ==> #[trigger] row_is(b2.spaces@, b1.rows as int, c, p) == col_is(
                b1.spaces@,
                b1.rows as int,
                b1.cols as int,
                c,
                p,
            ),
        forall|r: int, p: Player|
            0 <= r < b1.rows ==> #[trigger] col_is(
                b2.spaces@,
                b1.cols as int,
                b1.rows as int,
                r,
                p,
            ) == row_is(b1.spaces@, b1.cols as int, r, p),
        b1.rows == b1.cols ==> forall|p: Player|
            #[trigger] main_diag_is(b2.spaces@, b1.rows as int, p) == main_diag_is(
                b1.spaces@,
                b1.rows as int,
                p,
            ),
        b1.rows == b1.cols ==> forall|p: Player|
            #[trigger] anti_diag_is(b2.spaces@, b1.rows as int, p) == anti_diag_is(
                b1.spaces@,
                b1.rows as int,
                p,
            ),
{
    let s = b1.spaces@;
    let t = b2.spaces@;
    let rows = b1.rows as int;
    let cols = b1.cols as int;
    assert forall|c: int, p: Player| 0 <= c < cols implies #[trigger] row_is(t, rows, c, p)
        == col_is(s, rows, cols, c, p) by {
        if row_is(t, rows, c, p) {
            assert forall|r: int| 0 <= r < rows implies cell_at(s, cols, r, c) == Space::Player(
                p,
            ) by {
                assert(cell_at(t, rows, c, r) == Space::Player(p));
            }
        }
        if col_is(s, rows, cols, c, p) {
            assert forall|r: int| 0 <= r < rows implies cell_at(t, rows, c, r) == Space::Player(
                p,
            ) by {
                assert(cell_at(s, cols, r, c) == Space::Player(p));
            }
        }
    }
    assert forall|r: int, p: Player| 0 <= r < rows implies #[trigger] col_is(t, cols, rows, r, p)
        == row_is(s, cols, r, p) by {
        if col_is(t, cols, rows, r, p) {
            assert forall|c: int| 0 <= c < cols implies cell_at(s, cols, r, c) == Space::Player(
                p,
            ) by {
                assert(cell_at(t, rows, c, r) == Space::Player(p));
            }
        }
        if row_is(s, cols, r, p) {
            assert forall|c: int| 0 <= c < cols implies cell_at(t, rows, c, r) == Space::Player(
                p,
            ) by {
                assert(cell_at(s, cols, r, c) == Space::Player(p));
            }
        }
    }
    if b1.rows == b1.cols {
        let n = rows;
        assert forall|p: Player| #[trigger] main_diag_is(t, n, p) == main_diag_is(s, n, p) by {
            if main_diag_is(t, n, p) {
                assert forall|i: int| 0 <= i < n implies cell_at(s, n, i, i) == Space::Player(
                    p,
                ) by {
                    assert(cell_at(t, n, i, i) == Space::Player(p));
                }
            }
            if main_diag_is(s, n, p) {
                assert forall|i: int| 0 <= i < n implies cell_at(t, n, i, i) == Space::Player(
                    p,
                ) by {
                    assert(cell_at(s, n, i, i) == Space::Player(p));
                }
            }
        }
        assert forall|p: Player| #[trigger] anti_diag_is(t, n, p) == anti_diag_is(s, n, p) by {
            if anti_diag_is(t, n, p) {
                assert forall|i: int| 0 <= i < n implies anti_cell(s, n, i) == Space::Player(
                    p,
                ) by {
                    assert(anti_cell(t, n, n - 1 - i) == Space::Player(p));
                    assert(anti_cell(t, n, n - 1 - i) == cell_at(t, n, n - 1 - i, i));
                    assert(cell_at(t, n, n - 1 - i, i) == cell_at(s, n, i, n - 1 - i));
                    assert(anti_cell(s, n, i) == cell_at(s, n, i, n - 1 - i));
                }
            }
            if anti_diag_is(s, n, p) {
                assert forall|i: int| 0 <= i < n implies anti_cell(t, n, i) == Space::Player(
                    p,
                ) by {
                    assert(anti_cell(s, n, n - 1 - i) == Space::Player(p));
                    assert(anti_cell(s, n, n - 1 - i) == cell_at(s, n, n - 1 - i, i));
                    assert(cell_at(t, n, i, n - 1 - i) == cell_at(s, n, n - 1 - i, i));
                    assert(anti_cell(t, n, i) == cell_at(t, n, i, n - 1 - i));
                }
            }
        }
    }
}

/// A winning row scan names a player who really owns such a row.
proof fn lemma_scan_rows_gives_win(s: Seq<Space>, rows: int, cols: int, r0: int)
    requires
        scan_rows(s, rows, cols, r0) is Some,
    ensures
        exists|r: int|
            r0 <= r < rows && row_is(s, cols, r, scan_rows(s, rows, cols, r0).unwrap()),
    decreases rows - r0,
{
    if !(r0 < 0 || r0 >= rows) {
        if row_winner(s, cols, r0) is Some {
            assert(row_is(s, cols, r0, scan_rows(s, rows, cols, r0).unwrap()));
        } else {
            lemma_scan_rows_gives_win(s, rows, cols, r0 + 1);
            let r = choose|r: int|
                r0 + 1 <= r < rows && #[trigger] row_is(
                    s,
                    cols,
                    r,
                    scan_rows(s, rows, cols, r0 + 1).unwrap(),
                );
            assert(r0 <= r < rows && row_is(s, cols, r, scan_rows(s, rows, cols, r0).unwrap()));
        }
    }
}

/// A winning column scan names a player who really owns such a column.
proof fn lemma_scan_cols_gives_win(s: Seq<Space>, rows: int, cols: int, c0: int)
    requires
        scan_cols(s, rows, cols, c0) is Some,
    ensures
        exists|c: int|
            c0 <= c < cols && col_is(s, rows, cols, c, scan_cols(s, rows, cols, c0).unwrap()),
    decreases cols - c0,
{
    if !(c0 < 0 || c0 >= cols) {
        if col_winner(s, rows, cols, c0) is Some {
            assert(col_is(s, rows, cols, c0, scan_cols(s, rows, cols, c0).unwrap()));
        } else {
            lemma_scan_cols_gives_win(s, rows, cols, c0 + 1);
            let c = choose|c: int|
                c0 + 1 <= c < cols && #[trigger] col_is(
                    s,
                    rows,
                    cols,
                    c,
                    scan_cols(s, rows, cols, c0 + 1).unwrap(),
                );
            assert(c0 <= c < cols && col_is(s, rows, cols, c, scan_cols(s, rows, cols, c0).unwrap()));
        }
    }
}

/// A full row and a full column cross, so they belong to the same player.
proof fn lemma_row_col_same_winner(
    s: Seq<Space>,
    rows: int,
    cols: int,
    r: int,
    c: int,
    p: Player,
    q: Player,
)
    requires
        0 <= r < rows,
        0 <= c < cols,
        row_is(s, cols, r, p),
        col_is(s, rows, cols, c, q),
    ensures
        p == q,
{
    assert(cell_at(s, cols, r, c) == Space::Player(p));
    assert(cell_at(s, cols, r, c) == Space::Player(q));
}

/// The transpose's column scan reproduces the original's row scan.
proof fn lemma_scan_transpose_rows(b1: Board, b2: Board, i: int)
    requires
        b1.grid_wf(),
        b2.grid_wf(),
        b2.rows == b1.cols,
        b2.cols == b1.rows,
        is_transpose(b1.spaces@, b2.spaces@, b1.rows as int, b1.cols as int),
    ensures
        scan_cols(b2.spaces@, b1.cols as int, b1.rows as int, i) == scan_rows(
            b1.spaces@,
            b1.rows as int,
            b1.cols as int,
            i,
        ),
    decreases b1.rows - i,
{
    let s = b1.spaces@;
    let t = b2.spaces@;
    let rows = b1.rows as int;
    let cols = b1.cols as int;
    lemma_transpose_lines(b1, b2);
    if !(i < 0 || i >= rows) {
        assert(col_is(t, cols, rows, i, Player::X) == row_is(s, cols, i, Player::X));
        assert(col_is(t, cols, rows, i, Player::O) == row_is(s, cols, i, Player::O));
        assert(col_winner(t, cols, rows, i) == row_winner(s, cols, i));
        lemma_scan_transpose_rows(b1, b2, i + 1);
    }
}

/// The transpose's row scan reproduces the original's column scan.
proof fn lemma_scan_transpose_cols(b1: Board, b2: Board, i: int)
    requires
        b1.grid_wf(),
        b2.grid_wf(),
        b2.rows == b1.cols,
        b2.cols == b1.rows,
        is_transpose(b1.spaces@, b2.spaces@, b1.rows as int, b1.cols as int),
    ensures
        scan_rows(b2.spaces@, b1.cols as int, b1.rows as int, i) == scan_cols(
            b1.spaces@,
            b1.rows as int,
            b1.cols as int,
            i,
        ),
    decreases b1.cols - i,
{
    let s = b1.spaces@;
    let t = b2.spaces@;
    let rows = b1.rows as int;
    let cols = b1.cols as int;
    lemma_transpose_lines(b1, b2);
    if !(i < 0 || i >= cols) {
        assert(row_is(t, rows, i, Player::X) == col_is(s, rows, cols, i, Player::X));
        assert(row_is(t, rows, i, Player::O) == col_is(s, rows, cols, i, Player::O));
        assert(row_winner(t, rows, i) == col_winner(s, rows, cols, i));
        lemma_scan_transpose_cols(b1, b2, i + 1);
    }
}

/// The reported outcome is symmetric under transposing the board: every
/// line win survives with rows and columns exchanged, diagonals carry
/// over in place, and fullness is unchanged, so `determine_winner` says
/// the same of a board and of its transpose.
pub proof fn lemma_winner_transpose(b1: Board, b2: Board)
    requires
        b1.grid_wf(),
        b2.grid_wf(),
        b2.rows == b1.cols,
        b2.cols == b1.rows,
        is_transpose(b1.spaces@, b2.spaces@, b1.rows as int, b1.cols as int),
    ensures
        b2.winner_spec() == b1.winner_spec(),
{
    let s = b1.spaces@;
    let t = b2.spaces@;
    let rows = b1.rows as int;
    let cols = b1.cols as int;
    lemma_transpose_lines(b1, b2);
    lemma_scan_transpose_rows(b1, b2, 0);
    lemma_scan_transpose_cols(b1, b2, 0);
    lemma_transpose_has_empty(s, t, rows, cols);
    let sr = scan_rows(s, rows, cols, 0);
    let sc = scan_cols(s, rows, cols, 0);
    if sr is Some && sc is Some {
        // a full row and a full column always cross, so both scans name
        // the same player and the order the boards check them in cannot
        // matter
        lemma_scan_rows_gives_win(s, rows, cols, 0);
        lemma_scan_cols_gives_win(s, rows, cols, 0);
        let r = choose|r: int| 0 <= r < rows && row_is(s, cols, r, sr.unwrap());
        let c = choose|c: int| 0 <= c < cols && col_is(s, rows, cols, c, sc.unwrap());
        lemma_row_col_same_winner(s, rows, cols, r, c, sr.unwrap(), sc.unwrap());
    }
    if b1.rows == b1.cols {
        assert(main_diag_winner(t, rows) == main_diag_winner(s, rows));
        assert(anti_diag_winner(t, rows) == anti_diag_winner(s, rows));
        assert(b2.diag_winner() == b1.diag_winner());
    }
}

/// A grid and its transpose have empty cells at matching positions.
proof fn lemma_transpose_has_empty(s: Seq<Space>, t: Seq<Space>, rows: int, cols: int)
    requires
        rows >= 1,
        cols >= 1,
        s.len() == rows * cols,
        is_transpose(s, t, rows, cols),
    ensures
        has_empty(t) == has_empty(s),
{
    if has_empty(s) {
        let k = choose|k: int| 0 <= k < s.len() && s[k] == Space::Empty;
        let r = k / cols;
        let c = k % cols;
        lemma_flat_split(k, rows, cols);
        assert(cell_at(s, cols, r, c) == Space::Empty);
        assert(cell_at(t, rows, c, r) == Space::Empty);
        assert(t[c * rows + r] == Space::Empty);
        assert(0 <= c * rows + r < rows * cols) by (nonlinear_arith)
            requires
                0 <= r < rows,
                0 <= c < cols,
        {}
        assert(has_empty(t));
    }
    if has_empty(t) {
        let k = choose|k: int| 0 <= k < t.len() && t[k] == Space::Empty;
        let c = k / rows;
        let r = k % rows;
        assert(t.len() == cols * rows) by (nonlinear_arith)
            requires
                t.len() == rows * cols,
        {}
        lemma_flat_split(k, cols, rows);
        assert(cell_at(t, rows, c, r) == Space::Empty);
        assert(cell_at(s, cols, r, c) == Space::Empty);
        assert(s[r * cols + c] == Space::Empty);
        assert(0 <= r * cols + c < rows * cols) by (nonlinear_arith)
            requires
                0 <= r < rows,
                0 <= c < cols,
        {}
        assert(has_empty(s));
    }
}

/// A flat index below `rows * cols` splits into a row below `rows` and a
/// column below `cols`.
proof fn lemma_flat_split(k: int, rows: int, cols: int)
    requires
        rows >= 1,
        cols >= 1,
        0 <= k < rows * cols,
    ensures
        k == (k / cols) * cols + k % cols,
        0 <= k / cols < rows,
        0 <= k % cols < cols,
{
    vstd::arithmetic::div_mod::lemma_fundamental_div_mod(k, cols);
    vstd::arithmetic::div_mod::lemma_mod_bound(k, cols);
    assert(k == (k / cols) * cols + k % cols) by (nonlinear_arith)
        requires
            k == cols * (k / cols) + k % cols,
    {}
    assert(0 <= k / cols < rows) by (nonlinear_arith)
        requires
            0 <= k < rows * cols,
            cols >= 1,
            k == (k / cols) * cols + k % cols,
            0 <= k % cols < cols,
    {}
}

/// Rendering of a whole grid: the concatenation of each cell's symbol.
pub open spec fn key_string_spec(s: Seq<Space>) -> Seq<char>
    decreases s.len(),
{
    if s.len() == 0 {
        Seq::empty()
    } else {
        key_string_spec(s.drop_last()) + s.last().char_seq()
    }
}

/// The all-empty grid of the given size.
pub open spec fn empty_grid(size: int) -> Seq<Space> {
    Seq::new(size as nat, |i: int| Space::Empty)
}

/// The canonical key of a grid: each cell contributes its digit times
/// `base` raised to the cell's flat index.
pub open spec fn key_spec(s: Seq<Space>, base: int) -> int
    decreases s.len(),
{
    if s.len() == 0 {
        0
    } else {
        key_spec(s.drop_last(), base) + s.last().key_value() * pow(base, (s.len() - 1) as nat)
    }
}

/// With a base of at least three (one more than the largest digit), a
/// grid's key is non-negative and below `base ^ len`.
pub proof fn lemma_key_spec_bound(s: Seq<Space>, base: int)
    requires
        base >= 3,
    ensures
        0 <= key_spec(s, base) < pow(base, s.len()),
    decreases s.len(),
{
    if s.len() == 0 {
        assert(pow(base, 0) == 1) by {
            lemma_pow0(base);
        }
    } else {
        let l = (s.len() - 1) as nat;
        lemma_key_spec_bound(s.drop_last(), base);
        lemma_pow_positive(base, l);
        assert(s.last().key_value() <= 2);
        assert(pow(base, l + 1) == pow(base, l) * base) by {
            lemma_pow_adds(base, l, 1);
            lemma_pow1(base);
        }
        assert(key_spec(s, base) < 3 * pow(base, l));
        assert(3 * pow(base, l) <= base * pow(base, l)) by (nonlinear_arith)
            requires
                base >= 3,
                pow(base, l) > 0,
        {}
    }
}

/// The two largest powers of the largest admissible base: the last place
/// value fits in a `u64`, and every key lies below `u64::MAX + 1`.
pub proof fn lemma_pow16_values()
    ensures
        pow(16, 15) == 0x1000000000000000,
        pow(16, 16) == 0x10000000000000000,
{
    reveal_with_fuel(pow, 17);
}

/// Larger bases give keys at least as large, power by power.
pub proof fn lemma_pow_base_mono(b1: int, b2: int, e: nat)
    requires
        1 <= b1 <= b2,
    ensures
        pow(b1, e) <= pow(b2, e),
    decreases e,
{
    reveal(pow);
    if e > 0 {
        lemma_pow_base_mono(b1, b2, (e - 1) as nat);
        lemma_pow_positive(b1, (e - 1) as nat);
        assert(pow(b1, e) == b1 * pow(b1, (e - 1) as nat));
        assert(pow(b2, e) == b2 * pow(b2, (e - 1) as nat));
        assert(b1 * pow(b1, (e - 1) as nat) <= b2 * pow(b2, (e - 1) as nat)) by (nonlinear_arith)
            requires
                1 <= b1 <= b2,
                0 < pow(b1, (e - 1) as nat) <= pow(b2, (e - 1) as nat),
        {}
    }
}

/// Distinct grids of the same size have distinct keys: the key encoding
/// is injective, so it is a faithful stand-in for the grid itself.
pub proof fn lemma_key_injective(s1: Seq<Space>, s2: Seq<Space>, base: int)
    requires
        base >= 3,
        s1.len() == s2.len(),
        key_spec(s1, base) == key_spec(s2, base),
    ensures
        s1 == s2,
    decreases s1.len(),
{
    if s1.len() == 0 {
        assert(s1 =~= s2);
    } else {
        let l = (s1.len() - 1) as nat;
        let p = pow(base, l);
        let k1 = key_spec(s1.drop_last(), base);
        let k2 = key_spec(s2.drop_last(), base);
        let v1 = s1.last().key_value() as int;
        let v2 = s2.last().key_value() as int;
        lemma_key_spec_bound(s1.drop_last(), base);
        lemma_key_spec_bound(s2.drop_last(), base);
        assert(v1 == v2) by (nonlinear_arith)
            requires
                k1 + v1 * p == k2 + v2 * p,
                0 <= k1 < p,
                0 <= k2 < p,
                0 <= v1 <= 2,
                0 <= v2 <= 2,
        {}
        assert(s1.last() == s2.last());
        lemma_key_injective(s1.drop_last(), s2.drop_last(), base);
        assert(s1 =~= s1.drop_last().push(s1.last()));
        assert(s2 =~= s2.drop_last().push(s2.last()));
    }
}

} // verus!
