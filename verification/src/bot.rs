//! The learning bot: a per-state table of cell weights, weighted random
//! move selection, and the credit-assignment rule that feeds game
//! outcomes back into the table.

use vstd::prelude::*;
use std::collections::HashMap;
use crate::board::{
    Board, GameResult, Move, Player, Space, has_empty, key_spec, lemma_key_fits_u64,
    lemma_key_injective, lemma_replay_len, move_ok, replay,
};
use crate::rng::{draw_in_range, fresh_rng};

verus! {

broadcast use vstd::std_specs::hash::group_hash_axioms;

/// The weight a freshly observed state assigns to each empty cell.
pub const DEFAULT_WEIGHT: i32 = 10;

pub type BotMemory = HashMap<u64, Vec<i32>>;

/// Construction-time settings of a bot; `None` picks the default boost.
pub struct BotConfig {
    pub player: Player,
    pub winning_move_boost: Option<i32>,
    pub win_boost: Option<i32>,
    pub loose_boost: Option<i32>,
    pub tie_boost: Option<i32>,
}

/// A weight-table learning agent for one side of the board.
pub struct Bot {
    pub memory: BotMemory,
    pub player: Player,
    pub winning_move_boost: i32,
    pub win_boost: i32,
    pub loose_boost: i32,
    pub tie_boost: i32,
}

/// Two bots with the same identity and boost settings; their memories
/// may differ.
pub open spec fn same_config(a: Bot, b: Bot) -> bool {
    &&& a.player == b.player
    &&& a.winning_move_boost == b.winning_move_boost
    &&& a.win_boost == b.win_boost
    &&& a.loose_boost == b.loose_boost
    &&& a.tie_boost == b.tie_boost
}

/// The weight table as a mathematical map from state key to weight
/// sequence.
pub open spec fn mem_model(m: Map<u64, Vec<i32>>) -> Map<u64, Seq<i32>> {
    Map::new(|k: u64| m.contains_key(k), |k: u64| m[k]@)
}

/// The default weight vector for a grid: `DEFAULT_WEIGHT` on every empty
/// cell, zero on every occupied one.
pub open spec fn default_weights(s: Seq<Space>) -> Seq<i32> {
    Seq::new(
        s.len(),
        |i: int|
            if s[i] == Space::Empty {
                DEFAULT_WEIGHT
            } else {
                0i32
            },
    )
}

/// Every weight in the vector is zero or below.
pub open spec fn all_nonpos(v: Seq<i32>) -> bool {
    forall|j: int| 0 <= j < v.len() ==> v[j] <= 0
}

/// Addition on weights, saturating at the `i32` limits.
pub open spec fn sat_add_spec(a: int, b: int) -> int {
    if a + b > i32::MAX {
        i32::MAX as int
    } else if a + b < i32::MIN {
        i32::MIN as int
    } else {
        a + b
    }
}

/// The signed sum of the weights from index `i` on.
pub open spec fn weight_sum(w: Seq<i32>, i: int) -> int
    decreases w.len() - i,
{
    if i < 0 || i >= w.len() {
        0
    } else {
        w[i] + weight_sum(w, i + 1)
    }
}

/// The cell the weighted walk picks for a given draw, starting at index
/// `i`: the first cell whose weight is positive and at least the draw
/// left, where passing any cell consumes the magnitude of its weight.
pub open spec fn select_spec(w: Seq<i32>, draw: int, i: int) -> Option<usize>
    decreases w.len() - i,
{
    if i < 0 || i >= w.len() {
        None
    } else if w[i] > 0 && draw <= w[i] {
        Some(i as usize)
    } else {
        select_spec(
            w,
            if w[i] >= 0 {
                draw - w[i]
            } else {
                draw + w[i]
            },
            i + 1,
        )
    }
}

/// A selected cell lies in range and carries a positive weight.
pub proof fn lemma_select_in_range(w: Seq<i32>, draw: int, i: int)
    requires
        w.len() <= usize::MAX,
        select_spec(w, draw, i) is Some,
    ensures
        ({
            let k = select_spec(w, draw, i).unwrap();
            &&& i <= k < w.len()
            &&& w[k as int] > 0
        }),
    decreases w.len() - i,
{
    if !(i < 0 || i >= w.len()) {
        if !(w[i] > 0 && draw <= w[i]) {
            lemma_select_in_range(
                w,
                if w[i] >= 0 {
                    draw - w[i]
                } else {
                    draw + w[i]
                },
                i + 1,
            );
        }
    }
}

/// With only non-positive weights ahead, the walk selects nothing.
pub proof fn lemma_select_none(w: Seq<i32>, draw: int, i: int)
    requires
        forall|j: int| i <= j < w.len() ==> w[j] <= 0,
    ensures
        select_spec(w, draw, i) is None,
    decreases w.len() - i,
{
    if !(i < 0 || i >= w.len()) {
        lemma_select_none(
            w,
            if w[i] >= 0 {
                draw - w[i]
            } else {
                draw + w[i]
            },
            i + 1,
        );
    }
}

/// Non-positive weights sum to zero or below.
proof fn lemma_weight_sum_nonpos(w: Seq<i32>, i: int)
    requires
        forall|j: int| i <= j < w.len() ==> w[j] <= 0,
    ensures
        weight_sum(w, i) <= 0,
    decreases w.len() - i,
{
    if !(i < 0 || i >= w.len()) {
        lemma_weight_sum_nonpos(w, i + 1);
    }
}

/// As long as the draw does not exceed the remaining signed weight sum
/// (or 1, whichever is larger), the walk finds a cell whenever any
/// remaining weight is positive.
pub proof fn lemma_select_finds_positive(w: Seq<i32>, draw: int, i: int)
    requires
        0 <= i,
        exists|j: int| i <= j < w.len() && w[j] > 0,
        draw <= if weight_sum(w, i) > 1 {
            weight_sum(w, i)
        } else {
            1
        },
    ensures
        select_spec(w, draw, i) is Some,
    decreases w.len() - i,
{
    let v = w[i] as int;
    let rest = weight_sum(w, i + 1);
    assert(weight_sum(w, i) == v + rest);
    if v > 0 && draw <= v {
        // selected right here
    } else if v > 0 {
        // draw > v >= 1, so the cap was the sum itself and some later
        // weight must be positive
        if forall|j: int| i + 1 <= j < w.len() ==> w[j] <= 0 {
            lemma_weight_sum_nonpos(w, i + 1);
            assert(false);
        }
        lemma_select_finds_positive(w, draw - v, i + 1);
    } else {
        let j = choose|j: int| i <= j < w.len() && w[j] > 0;
        assert(i + 1 <= j < w.len() && w[j] > 0);
        lemma_select_finds_positive(
            w,
            if v >= 0 {
                draw - v
            } else {
                draw + v
            },
            i + 1,
        );
    }
}

impl Bot {
    /// A bot with an empty memory; absent boosts take the defaults.
    pub fn new(config: BotConfig) -> (r: Bot)
        ensures
            r.memory@ == Map::<u64, Vec<i32>>::empty(),
            r.player == config.player,
            r.winning_move_boost == (match config.winning_move_boost {
                Some(v) => v,
                None => 1000i32,
            }),
            r.win_boost == (match config.win_boost {
                Some(v) => v,
                None => 3i32,
            }),
            r.loose_boost == (match config.loose_boost {
                Some(v) => v,
                None => -1i32,
            }),
            r.tie_boost == (match config.tie_boost {
                Some(v) => v,
                None => 0i32,
            }),
    {
        Bot {
            memory: HashMap::new(),
            player: config.player,
            winning_move_boost: config.winning_move_boost.unwrap_or(1000),
            win_boost: config.win_boost.unwrap_or(3),
            loose_boost: config.loose_boost.unwrap_or(-1),
            tie_boost: config.tie_boost.unwrap_or(0),
        }
    }

    /// The weight vector a bot assigns to a state it has never seen:
    /// the default weight for every empty cell, zero elsewhere.
    pub fn get_default_moves(board: &Board) -> (r: Vec<i32>)
        ensures
            r@ == default_weights(board.spaces@),
    {
        let mut spaces: Vec<i32> = Vec::new();
        let len = board.spaces.len();
        for i in 0..len
            invariant
                len == board.spaces@.len(),
                spaces@.len() == i,
                forall|j: int| 0 <= j < i ==> spaces@[j] == default_weights(board.spaces@)[j],
        {
            if board.spaces[i] == Space::Empty {
                spaces.push(DEFAULT_WEIGHT);
            } else {
                spaces.push(0);
            }
        }
        proof {
            assert(spaces@ =~= default_weights(board.spaces@));
        }
        spaces
    }
}

/// Adds two weights, saturating at the `i32` limits instead of wrapping.
fn sat_add(a: i32, b: i32) -> (r: i32)
    ensures
        r as int == sat_add_spec(a as int, b as int),
{
    let s: i64 = a as i64 + b as i64;
    if s > i32::MAX as i64 {
        i32::MAX
    } else if s < i32::MIN as i64 {
        i32::MIN
    } else {
        s as i32
    }
}

/// Whether every weight of the vector is zero or below.
fn all_nonpositive(v: &Vec<i32>) -> (r: bool)
    ensures
        r == all_nonpos(v@),
{
    let len = v.len();
    for i in 0..len
        invariant
            len == v@.len(),
            forall|j: int| 0 <= j < i ==> v@[j] <= 0,
    {
        if v[i] > 0 {
            return false;
        }
    }
    true
}

/// Walks the weight vector with the given draw and returns the first cell
/// whose positive weight absorbs it. Selection is deterministic in the
/// draw, so a fixed draw makes move choice reproducible.
pub fn select_move(weights: &Vec<i32>, draw: i128) -> (r: Option<usize>)
    requires
        -0x40000000000000000000000000000000 <= draw <= 0x40000000000000000000000000000000,
    ensures
        r == select_spec(weights@, draw as int, 0),
{
    let mut draw_left = draw;
    let len = weights.len();
    for i in 0..len
        invariant
            len == weights@.len(),
            select_spec(weights@, draw as int, 0) == select_spec(
                weights@,
                draw_left as int,
                i as int,
            ),
            -0x40000000000000000000000000000000 - (i as i128) * 0x80000000
                <= draw_left <= 0x40000000000000000000000000000000 + (i as i128) * 0x80000000,
            i <= 0xffffffffffffffff,
    {
        let val = weights[i];
        if val > 0 && draw_left <= val as i128 {
            return Some(i);
        }
        proof {
            assert((i as i128) * 0x80000000 + 0x80000000 == ((i + 1) as i128) * 0x80000000)
                by (nonlinear_arith)
            {}
            assert(((i + 1) as i128) * 0x80000000 <= 0x8000000000000000_0000000000000000)
                by (nonlinear_arith)
                requires
                    0 <= i <= 0xffffffffffffffff,
            {}
        }
        draw_left = if val >= 0 {
            draw_left - val as i128
        } else {
            draw_left + val as i128
        };
    }
    None
}

impl Bot {
    /// Picks a move for the current board: looks the state's weight
    /// vector up (installing the default vector on first sight), draws a
    /// number up to the vector's total weight from the thread generator,
    /// and walks the vector with it. Returns `None` exactly when no
    /// weight in the vector is positive — for a fresh state that means
    /// the board has no empty cell. With a faithful table and room on the
    /// board, a move is always found and always names an empty cell.
    pub fn determine_move(&mut self, board: &Board) -> (r: Option<usize>)
        requires
            board.grid_wf(),
        ensures
            final(self).player == old(self).player,
            final(self).winning_move_boost == old(self).winning_move_boost,
            final(self).win_boost == old(self).win_boost,
            final(self).loose_boost == old(self).loose_boost,
            final(self).tie_boost == old(self).tie_boost,
            ({
                let k = board.spec_key() as u64;
                let entry = if old(self).memory@.contains_key(k) {
                    old(self).memory@[k]@
                } else {
                    default_weights(board.spaces@)
                };
                &&& final(self).memory@ == old(self).memory@.insert(k, final(self).memory@[k])
                &&& final(self).memory@.contains_key(k)
                &&& final(self).memory@[k]@ == entry
                &&& (r is None <==> all_nonpos(entry))
                &&& (r matches Some(idx) ==> (idx as int) < entry.len() && entry[idx as int] > 0)
            }),
            (mem_wf(mem_model(old(self).memory@), board.size()) && has_empty(board.spaces@)) ==> {
                &&& r is Some
                &&& mem_wf(mem_model(final(self).memory@), board.size())
                &&& (r matches Some(idx) ==> (idx as int) < board.spaces@.len()
                    && board.spaces@[idx as int] == Space::Empty)
            },
    {
        let ghost pre = *old(self);
        let ghost n = board.size();
        let ghost sound = mem_wf(mem_model(pre.memory@), n) && has_empty(board.spaces@);
        let key = board.key_as_u64();
        if !self.memory.contains_key(&key) {
            let defaults = Bot::get_default_moves(board);
            self.memory.insert(key, defaults);
        }
        proof {
            assert(self.memory@ =~= old(self).memory@.insert(key, self.memory@[key]));
        }
        let memory = self.memory.get(&key).unwrap();
        let ghost entry = memory@;

        let mut total: i128 = 0;
        let len = memory.len();
        proof {
            lemma_weight_sum_split(memory@, 0, 0);
        }
        for i in 0..len
            invariant
                len == memory@.len(),
                len <= 0xffffffffffffffff,
                total as int == weight_sum(memory@, 0) - weight_sum(memory@, i as int),
                -(i as i128) * 0x80000000 <= total <= (i as i128) * 0x80000000,
        {
            proof {
                assert((i as i128) * 0x80000000 + 0x80000000 == ((i + 1) as i128) * 0x80000000)
                    by (nonlinear_arith)
                {}
                assert(((i + 1) as i128) * 0x80000000 <= 0x8000000000000000_0000000000000000)
                    by (nonlinear_arith)
                    requires
                        0 <= i <= 0xffffffffffffffff,
                {}
                lemma_weight_sum_split(memory@, i as int, i + 1 as int);
            }
            total = total + memory[i] as i128;
        }
        proof {
            assert(weight_sum(memory@, len as int) == 0);
            assert((len as i128) * 0x80000000 <= 0x80000000_00000000_00000000)
                by (nonlinear_arith)
                requires
                    0 <= len <= 0xffffffffffffffff,
            {}
        }

        let draw: i128 = if total > 1 {
            let mut rng = fresh_rng();
            draw_in_range(&mut rng, 0, total)
        } else {
            1
        };

        let result = select_move(memory, draw);
        proof {
            if result is Some {
                lemma_select_in_range(entry, draw as int, 0);
            } else {
                if exists|j: int| 0 <= j < entry.len() && entry[j] > 0 {
                    lemma_select_finds_positive(entry, draw as int, 0);
                    assert(false);
                }
            }
            if all_nonpos(entry) {
                lemma_select_none(entry, draw as int, 0);
            }
            if sound {
                lemma_key_fits_u64(*board);
                let k = (board.spec_key() as u64);
                assert(mem_model(self.memory@) =~= mem_model(pre.memory@).insert(k, entry));
                if pre.memory@.contains_key(k) {
                    // a faithful entry's positive weights sit on cells
                    // that are empty on this very board, by injectivity
                    // of the key
                    assert(mem_model(pre.memory@).contains_key(k));
                    assert(entry_wf(entry, k, n));
                    let s0 = choose|s: Seq<Space>| #[trigger] entry_witness(s, entry, k, n);
                    lemma_key_injective(s0, board.spaces@, n);
                    assert(s0 == board.spaces@);
                    assert(forall|j: int|
                        0 <= j < entry.len() && entry[j] > 0 ==> board.spaces@[j]
                            == Space::Empty);
                } else {
                    let e = choose|i: int|
                        0 <= i < board.spaces@.len() && board.spaces@[i] == Space::Empty;
                    assert(entry[e] == DEFAULT_WEIGHT);
                    assert(forall|j: int|
                        0 <= j < entry.len() && entry[j] > 0 ==> board.spaces@[j]
                            == Space::Empty);
                }
                assert(!all_nonpos(entry));
                assert(mem_wf(mem_model(self.memory@), n)) by {
                    assert forall|k2: u64| #[trigger]
                        mem_model(self.memory@).contains_key(k2) implies entry_wf(
                        mem_model(self.memory@)[k2],
                        k2,
                        n,
                    ) by {
                        if k2 == k {
                            if !pre.memory@.contains_key(k) {
                                assert(entry_witness(board.spaces@, entry, k, n));
                                let e = choose|i: int|
                                    0 <= i < board.spaces@.len() && board.spaces@[i]
                                        == Space::Empty;
                                assert(entry[e] == DEFAULT_WEIGHT);
                            }
                        } else {
                            assert(mem_model(pre.memory@).contains_key(k2));
                        }
                    }
                }
            }
        }
        result
    }
}

impl Bot {
    /// The weight the record at position `i` (of `max_moves`) ends up
    /// with after the game's outcome is applied to its old weight `w`:
    /// wins boost the weight (the decisive final move far more), ties add
    /// the tie boost, and losses apply the loss boost clamped at zero —
    /// except the move that let the opponent in, whose weight is zeroed.
    pub open spec fn new_weight(self, w: int, i: int, max_moves: int, result: GameResult) -> int {
        if result == GameResult::Winner(self.player) {
            if i == max_moves - 1 {
                sat_add_spec(w, self.winning_move_boost as int)
            } else {
                sat_add_spec(w, self.win_boost as int)
            }
        } else if result == GameResult::Tie {
            sat_add_spec(w, self.tie_boost as int)
        } else if i == max_moves - 2 {
            0
        } else {
            let l = sat_add_spec(w, self.loose_boost as int);
            if l < 0 {
                0
            } else {
                l
            }
        }
    }

    /// How one recorded move changes the weight table: moves of other
    /// players change nothing; otherwise the state's vector (created
    /// zero-filled at the board's size when absent, extended when too
    /// short) is updated at the move's cell, and a vector left with no
    /// positive weight is dropped so the state starts over from the
    /// defaults on its next visit.
    pub open spec fn learn_step(
        self,
        mem: Map<u64, Seq<i32>>,
        m: Move,
        i: int,
        max_moves: int,
        result: GameResult,
        n: int,
    ) -> Map<u64, Seq<i32>> {
        if m.space != Space::Player(self.player) {
            mem
        } else {
            let v0 = if mem.contains_key(m.key) {
                mem[m.key]
            } else {
                Seq::new(n as nat, |j: int| 0i32)
            };
            let v1 = if (m.index as int) < v0.len() {
                v0
            } else {
                v0 + Seq::new((m.index + 1 - v0.len()) as nat, |j: int| 0i32)
            };
            let v2 = v1.update(
                m.index as int,
                self.new_weight(v1[m.index as int] as int, i, max_moves, result) as i32,
            );
            if all_nonpos(v2) {
                mem.remove(m.key)
            } else {
                mem.insert(m.key, v2)
            }
        }
    }

    /// The weight table after the first `i` recorded moves of a finished
    /// game have been applied in order.
    pub open spec fn learn_upto(
        self,
        mem: Map<u64, Seq<i32>>,
        moves: Seq<Move>,
        i: int,
        result: GameResult,
        n: int,
    ) -> Map<u64, Seq<i32>>
        decreases i,
    {
        if i <= 0 {
            mem
        } else {
            self.learn_step(
                self.learn_upto(mem, moves, i - 1, result, n),
                moves[i - 1],
                i - 1,
                moves.len() as int,
                result,
                n,
            )
        }
    }

    /// Feeds a finished game back into the table: every recorded move of
    /// this bot's player is credited or blamed according to the outcome,
    /// in history order.
    pub fn learn(&mut self, board: &Board, game_result: GameResult)
        ensures
            final(self).player == old(self).player,
            final(self).winning_move_boost == old(self).winning_move_boost,
            final(self).win_boost == old(self).win_boost,
            final(self).loose_boost == old(self).loose_boost,
            final(self).tie_boost == old(self).tie_boost,
            mem_model(final(self).memory@) == old(self).learn_upto(
                mem_model(old(self).memory@),
                board.moves@,
                board.moves@.len() as int,
                game_result,
                board.spaces@.len() as int,
            ),
    {
        let ghost cfg = *old(self);
        let ghost orig = mem_model(old(self).memory@);
        let max_moves = board.moves.len();
        let n = board.spaces.len();
        let did_win: bool = match game_result {
            GameResult::Winner(res) => self.player == res,
            GameResult::Tie => false,
        };
        let is_tie: bool = match game_result {
            GameResult::Winner(_) => false,
            GameResult::Tie => true,
        };
        for i in 0..max_moves
            invariant
                *self == (Bot { memory: self.memory, ..cfg }),
                max_moves == board.moves@.len(),
                n == board.spaces@.len(),
                did_win == (game_result == GameResult::Winner(cfg.player)),
                is_tie == (game_result == GameResult::Tie),
                mem_model(self.memory@) == cfg.learn_upto(
                    orig,
                    board.moves@,
                    i as int,
                    game_result,
                    n as int,
                ),
        {
            let m = board.moves[i];
            let ghost pre_mem = mem_model(self.memory@);
            if m.space == Space::Player(self.player) {
                let mut entry: Vec<i32> = match self.memory.remove(&m.key) {
                    Some(v) => v,
                    None => zero_weights(n),
                };
                let ghost v0 = entry@;
                proof {
                    if pre_mem.contains_key(m.key) {
                        assert(v0 == pre_mem[m.key]);
                    }
                }
                while entry.len() <= m.index
                    invariant
                        v0.len() <= entry@.len(),
                        entry@.len() <= m.index + 1 || entry@ == v0,
                        entry@ == v0 + Seq::new((entry@.len() - v0.len()) as nat, |j: int| 0i32),
                    decreases m.index + 1 - entry@.len(),
                {
                    proof {
                        let ext = Seq::new((entry@.len() + 1 - v0.len()) as nat, |j: int| 0i32);
                        assert(entry@.push(0i32) =~= v0 + ext);
                    }
                    entry.push(0);
                }
                let ghost v1 = entry@;
                proof {
                    if (m.index as int) < v0.len() {
                        assert(v1 =~= v0);
                    }
                }
                let cur = entry[m.index];
                let new_w: i32 = if did_win {
                    if i + 1 == max_moves {
                        sat_add(cur, self.winning_move_boost)
                    } else {
                        sat_add(cur, self.win_boost)
                    }
                } else if is_tie {
                    sat_add(cur, self.tie_boost)
                } else if max_moves >= 2 && i == max_moves - 2 {
                    0
                } else {
                    let l = sat_add(cur, self.loose_boost);
                    if l < 0 {
                        0
                    } else {
                        l
                    }
                };
                proof {
                    assert(new_w as int == cfg.new_weight(
                        v1[m.index as int] as int,
                        i as int,
                        max_moves as int,
                        game_result,
                    ));
                }
                entry.set(m.index, new_w);
                let keep = !all_nonpositive(&entry);
                let ghost v2 = entry@;
                if keep {
                    self.memory.insert(m.key, entry);
                }
                proof {
                    let stepped = cfg.learn_step(
                        pre_mem,
                        m,
                        i as int,
                        max_moves as int,
                        game_result,
                        n as int,
                    );
                    assert(mem_model(self.memory@) =~= stepped);
                }
            }
            proof {
                assert(cfg.learn_upto(orig, board.moves@, i + 1 as int, game_result, n as int)
                    == cfg.learn_step(
                    cfg.learn_upto(orig, board.moves@, i as int, game_result, n as int),
                    board.moves@[i as int],
                    i as int,
                    max_moves as int,
                    game_result,
                    n as int,
                ));
            }
        }
    }
}

/// `s` is the grid that the key `k` encodes, and the weight vector `v`
/// is positive only on cells that are empty in it.
pub open spec fn entry_witness(s: Seq<Space>, v: Seq<i32>, k: u64, n: int) -> bool {
    &&& s.len() == n
    &&& key_spec(s, n) == k as int
    &&& forall|j: int| 0 <= j < v.len() && v[j] > 0 ==> s[j] == Space::Empty
}

/// A weight vector stored under key `k` is faithful to the state that
/// key encodes: one weight per cell, positive weights only on cells that
/// are empty in that state, and at least one positive weight.
pub open spec fn entry_wf(v: Seq<i32>, k: u64, n: int) -> bool {
    &&& v.len() == n
    &&& exists|s: Seq<Space>| #[trigger] entry_witness(s, v, k, n)
    &&& exists|j: int| 0 <= j < v.len() && v[j] > 0
}

/// Every entry of the weight table is faithful to the state its key
/// encodes. This holds of a fresh table, is kept by `determine_move` and
/// `learn`, and rules a stalled or illegal move out (see `train::play`).
pub open spec fn mem_wf(mem: Map<u64, Seq<i32>>, n: int) -> bool {
    forall|k: u64| #[trigger] mem.contains_key(k) ==> entry_wf(mem[k], k, n)
}

/// One learning step keeps the table faithful: the updated cell was empty
/// in the grid the move's key encodes, and a vector left with no positive
/// weight is dropped rather than kept.
proof fn lemma_learn_step_preserves(
    cfg: Bot,
    mem: Map<u64, Seq<i32>>,
    board: Board,
    i: int,
    result: GameResult,
)
    requires
        board.wf(),
        0 <= i < board.moves@.len(),
        mem_wf(mem, board.size()),
    ensures
        mem_wf(
            cfg.learn_step(
                mem,
                board.moves@[i],
                i,
                board.moves@.len() as int,
                result,
                board.spaces@.len() as int,
            ),
            board.size(),
        ),
{
    let n = board.size();
    let m = board.moves@[i];
    let stepped = cfg.learn_step(mem, m, i, board.moves@.len() as int, result, n);
    if m.space == Space::Player(cfg.player) {
        assert(move_ok(board.moves@, i, n));
        let pre = replay(board.moves@.take(i), n);
        lemma_replay_len(board.moves@.take(i), n);
        let v0 = if mem.contains_key(m.key) {
            mem[m.key]
        } else {
            Seq::new(n as nat, |j: int| 0i32)
        };
        if mem.contains_key(m.key) {
            let s0 = choose|s: Seq<Space>| #[trigger] entry_witness(s, v0, m.key, n);
            lemma_key_injective(s0, pre, n);
            assert(s0 == pre);
        }
        assert(v0.len() == n);
        let v1 = v0;
        assert((m.index as int) < v0.len());
        let w2 = cfg.new_weight(v1[m.index as int] as int, i, board.moves@.len() as int, result);
        let v2 = v1.update(m.index as int, w2 as i32);
        assert(entry_witness(pre, v2, m.key, n)) by {
            assert forall|j: int| 0 <= j < v2.len() && v2[j] > 0 implies pre[j]
                == Space::Empty by {
                if j != m.index as int {
                    assert(v2[j] == v0[j]);
                }
            }
        }
        if !all_nonpos(v2) {
            assert(stepped == mem.insert(m.key, v2));
            let jw = choose|j: int| 0 <= j < v2.len() && v2[j] > 0;
            assert forall|k: u64| #[trigger] stepped.contains_key(k) implies entry_wf(
                stepped[k],
                k,
                n,
            ) by {
                if k != m.key {
                    assert(mem.contains_key(k));
                }
            }
        } else {
            assert(stepped == mem.remove(m.key));
            assert forall|k: u64| #[trigger] stepped.contains_key(k) implies entry_wf(
                stepped[k],
                k,
                n,
            ) by {
                assert(mem.contains_key(k));
            }
        }
    }
}

/// Learning from a finished game keeps the table faithful, however many
/// of the game's moves have been applied.
pub proof fn lemma_learn_preserves_mem_wf(
    cfg: Bot,
    mem: Map<u64, Seq<i32>>,
    board: Board,
    i: int,
    result: GameResult,
)
    requires
        board.wf(),
        0 <= i <= board.moves@.len(),
        mem_wf(mem, board.size()),
    ensures
        mem_wf(
            cfg.learn_upto(mem, board.moves@, i, result, board.spaces@.len() as int),
            board.size(),
        ),
    decreases i,
{
    if i > 0 {
        lemma_learn_preserves_mem_wf(cfg, mem, board, i - 1, result);
        lemma_learn_step_preserves(
            cfg,
            cfg.learn_upto(mem, board.moves@, i - 1, result, board.spaces@.len() as int),
            board,
            i - 1,
            result,
        );
    }
}

/// How move selection alone may change a weight table: every entry it
/// already had is untouched, and anything new is the default vector of
/// exactly the grid its key encodes. Learning is the only other way a
/// table changes.
pub open spec fn visited_only(m0: Map<u64, Seq<i32>>, m1: Map<u64, Seq<i32>>, n: int) -> bool {
    &&& forall|k: u64| #[trigger] m0.contains_key(k) ==> m1.contains_key(k) && m1[k] == m0[k]
    &&& forall|k: u64| #[trigger]
        m1.contains_key(k) ==> m0.contains_key(k) || (exists|s: Seq<Space>|
            s.len() == n && key_spec(s, n) == k as int && m1[k] == default_weights(s))
}

/// Visits compose: two visit-only changes in a row are one.
pub proof fn lemma_visited_only_trans(
    m0: Map<u64, Seq<i32>>,
    m1: Map<u64, Seq<i32>>,
    m2: Map<u64, Seq<i32>>,
    n: int,
)
    requires
        visited_only(m0, m1, n),
        visited_only(m1, m2, n),
    ensures
        visited_only(m0, m2, n),
{
    assert forall|k: u64| #[trigger]
        m2.contains_key(k) implies m0.contains_key(k) || (exists|s: Seq<Space>|
        s.len() == n && key_spec(s, n) == k as int && m2[k] == default_weights(s)) by {
        if !m0.contains_key(k) {
            if m1.contains_key(k) {
                let s = choose|s: Seq<Space>|
                    s.len() == n && key_spec(s, n) == k as int && m1[k] == default_weights(s);
                assert(m2[k] == m1[k]);
                assert(s.len() == n && key_spec(s, n) == k as int && m2[k] == default_weights(s));
            }
        }
    }
}

/// What `learn` produces depends only on the bot's identity and boosts,
/// not on the table it carries alongside them.
pub proof fn lemma_learn_upto_config(
    a: Bot,
    b: Bot,
    mem: Map<u64, Seq<i32>>,
    moves: Seq<Move>,
    i: int,
    result: GameResult,
    n: int,
)
    requires
        same_config(a, b),
    ensures
        a.learn_upto(mem, moves, i, result, n) == b.learn_upto(mem, moves, i, result, n),
    decreases i,
{
    if i > 0 {
        lemma_learn_upto_config(a, b, mem, moves, i - 1, result, n);
        let prev = a.learn_upto(mem, moves, i - 1, result, n);
        let m = moves[i - 1];
        if m.space == Space::Player(a.player) {
            let v0 = if prev.contains_key(m.key) {
                prev[m.key]
            } else {
                Seq::new(n as nat, |j: int| 0i32)
            };
            let v1 = if (m.index as int) < v0.len() {
                v0
            } else {
                v0 + Seq::new((m.index + 1 - v0.len()) as nat, |j: int| 0i32)
            };
            assert(a.new_weight(v1[m.index as int] as int, i - 1, moves.len() as int, result)
                == b.new_weight(v1[m.index as int] as int, i - 1, moves.len() as int, result));
        }
    }
}

/// Whether processing move `m` changes the entry stored under key `k`.
pub open spec fn touches(cfg: Bot, m: Move, k: u64) -> bool {
    m.space == Space::Player(cfg.player) && m.key == k
}

/// The weight a table holds for a move's cell before any learning, zero
/// when the state or the cell is not present.
pub open spec fn weight_before(mem: Map<u64, Seq<i32>>, m: Move) -> int {
    if mem.contains_key(m.key) {
        if (m.index as int) < mem[m.key].len() {
            mem[m.key][m.index as int] as int
        } else {
            0
        }
    } else {
        0
    }
}

/// Learning steps that do not touch a key leave its entry alone.
proof fn lemma_untouched_prefix(
    cfg: Bot,
    mem: Map<u64, Seq<i32>>,
    moves: Seq<Move>,
    i: int,
    result: GameResult,
    n: int,
    k: u64,
)
    requires
        0 <= i <= moves.len(),
        forall|j: int| 0 <= j < i ==> !touches(cfg, #[trigger] moves[j], k),
    ensures
        cfg.learn_upto(mem, moves, i, result, n).contains_key(k) == mem.contains_key(k),
        mem.contains_key(k) ==> cfg.learn_upto(mem, moves, i, result, n)[k] == mem[k],
    decreases i,
{
    if i > 0 {
        lemma_untouched_prefix(cfg, mem, moves, i - 1, result, n, k);
        assert(!touches(cfg, moves[i - 1], k));
    }
}

/// The entry under a key is what its last touching step left there, once
/// the remaining steps touch other keys.
proof fn lemma_untouched_suffix(
    cfg: Bot,
    mem: Map<u64, Seq<i32>>,
    moves: Seq<Move>,
    i: int,
    l: int,
    result: GameResult,
    n: int,
    k: u64,
)
    requires
        0 <= i <= l <= moves.len(),
        forall|j: int| i <= j < l ==> !touches(cfg, #[trigger] moves[j], k),
    ensures
        cfg.learn_upto(mem, moves, l, result, n).contains_key(k) == cfg.learn_upto(
            mem,
            moves,
            i,
            result,
            n,
        ).contains_key(k),
        cfg.learn_upto(mem, moves, i, result, n).contains_key(k) ==> cfg.learn_upto(
            mem,
            moves,
            l,
            result,
            n,
        )[k] == cfg.learn_upto(mem, moves, i, result, n)[k],
    decreases l - i,
{
    if i < l {
        lemma_untouched_suffix(cfg, mem, moves, i, l - 1, result, n, k);
        assert(!touches(cfg, moves[l - 1], k));
    }
}

/// After a win, the decisive final move is reinforced by exactly the
/// winning-move boost, and every earlier move of the winner in that game
/// by exactly the ordinary win boost — strictly less. Keys are assumed
/// well-sized and weights far enough from the `i32` limits that no
/// addition saturates.
pub proof fn lemma_win_credits_decisive_move(
    cfg: Bot,
    mem: Map<u64, Seq<i32>>,
    board: Board,
    result: GameResult,
)
    requires
        board.wf(),
        result == GameResult::Winner(cfg.player),
        board.moves@.len() >= 1,
        board.moves@.last().space == Space::Player(cfg.player),
        forall|i: int|
            0 <= i < board.moves@.len() ==> (#[trigger] board.moves@[i]).space != Space::Empty,
        0 < cfg.win_boost < cfg.winning_move_boost,
        forall|k: u64| #[trigger] mem.contains_key(k) ==> mem[k].len() == board.size(),
        forall|i: int|
            0 <= i < board.moves@.len() ==> 0 <= weight_before(mem, #[trigger] board.moves@[i])
                && weight_before(mem, board.moves@[i]) + cfg.winning_move_boost <= i32::MAX,
    ensures
        ({
            let t = cfg.learn_upto(
                mem,
                board.moves@,
                board.moves@.len() as int,
                result,
                board.spaces@.len() as int,
            );
            let last = board.moves@.last();
            &&& t.contains_key(last.key)
            &&& t[last.key][last.index as int] == weight_before(mem, last)
                + cfg.winning_move_boost
            &&& forall|i: int|
                0 <= i < board.moves@.len() - 1 && (#[trigger] board.moves@[i]).space
                    == Space::Player(cfg.player) ==> t.contains_key(board.moves@[i].key)
                    && t[board.moves@[i].key][board.moves@[i].index as int] == weight_before(
                    mem,
                    board.moves@[i],
                ) + cfg.win_boost
            &&& forall|i: int|
                0 <= i < board.moves@.len() - 1 && (#[trigger] board.moves@[i]).space
                    == Space::Player(cfg.player) ==> t[last.key][last.index as int]
                    - weight_before(mem, last) > t[board.moves@[i].key][board.moves@[i].index as int]
                    - weight_before(mem, board.moves@[i])
        }),
{
    let moves = board.moves@;
    let l = moves.len() as int;
    let n = board.size();
    let t = cfg.learn_upto(mem, moves, l, result, n);
    assert(board.spaces@.len() as int == n);
    assert forall|i: int|
        0 <= i < l && (#[trigger] moves[i]).space == Space::Player(cfg.player) implies ({
        let boost = if i == l - 1 {
            cfg.winning_move_boost
        } else {
            cfg.win_boost
        };
        &&& t.contains_key(moves[i].key)
        &&& t[moves[i].key][moves[i].index as int] == weight_before(mem, moves[i]) + boost
    }) by {
        let k = moves[i].key;
        assert(crate::board::move_ok(moves, i, n));
        assert forall|j: int| 0 <= j < i implies !touches(cfg, #[trigger] moves[j], k) by {
            if moves[j].space == Space::Player(cfg.player) {
                crate::board::lemma_game_keys_distinct(board, j, i);
            }
        }
        lemma_untouched_prefix(cfg, mem, moves, i, result, n, k);
        let pre = cfg.learn_upto(mem, moves, i, result, n);
        let v0 = if pre.contains_key(k) {
            pre[k]
        } else {
            Seq::new(n as nat, |j: int| 0i32)
        };
        assert(v0.len() == n);
        assert((moves[i].index as int) < n);
        let w0 = weight_before(mem, moves[i]);
        assert(v0[moves[i].index as int] as int == w0);
        let boost = if i == l - 1 {
            cfg.winning_move_boost
        } else {
            cfg.win_boost
        };
        let w1 = cfg.new_weight(w0, i, l, result);
        assert(w1 == sat_add_spec(w0, boost as int));
        assert(w1 == w0 + boost);
        let v2 = v0.update(moves[i].index as int, w1 as i32);
        assert(v2[moves[i].index as int] > 0);
        assert(!all_nonpos(v2));
        let after = cfg.learn_upto(mem, moves, i + 1, result, n);
        assert(after == cfg.learn_step(pre, moves[i], i, l, result, n));
        assert(after.contains_key(k) && after[k] == v2);
        assert forall|j: int| i + 1 <= j < l implies !touches(cfg, #[trigger] moves[j], k) by {
            if moves[j].space == Space::Player(cfg.player) {
                crate::board::lemma_game_keys_distinct(board, i, j);
            }
        }
        lemma_untouched_suffix(cfg, mem, moves, i + 1, l, result, n, k);
    }
    assert(moves[l - 1] == moves.last());
}

/// After a loss, the losing bot's move immediately preceding the
/// opponent's winning reply is blamed outright: if its state is still in
/// the table, the weight of that cell is exactly zero (and the state is
/// gone only when the whole vector fell to zero or below, the
/// anti-starvation case).
pub proof fn lemma_loss_blames_fatal_move(
    cfg: Bot,
    mem: Map<u64, Seq<i32>>,
    board: Board,
    result: GameResult,
)
    requires
        board.wf(),
        result matches GameResult::Winner(p) && p != cfg.player,
        board.moves@.len() >= 2,
        board.moves@[board.moves@.len() - 2].space == Space::Player(cfg.player),
        board.moves@.last().space != Space::Player(cfg.player),
        forall|k: u64| #[trigger] mem.contains_key(k) ==> mem[k].len() == board.size(),
    ensures
        ({
            let t = cfg.learn_upto(
                mem,
                board.moves@,
                board.moves@.len() as int,
                result,
                board.spaces@.len() as int,
            );
            let blamed = board.moves@[board.moves@.len() - 2];
            t.contains_key(blamed.key) ==> t[blamed.key][blamed.index as int] == 0
        }),
{
    let moves = board.moves@;
    let l = moves.len() as int;
    let n = board.size();
    let i = l - 2;
    let blamed = moves[i];
    let k = blamed.key;
    assert(crate::board::move_ok(moves, i, n));
    let pre = cfg.learn_upto(mem, moves, i, result, n);
    let v0 = if pre.contains_key(k) {
        pre[k]
    } else {
        Seq::new(n as nat, |j: int| 0i32)
    };
    assert forall|j: int| 0 <= j < moves.len() implies (#[trigger] moves[j]).index < n by {
        assert(crate::board::move_ok(moves, j, n));
    }
    lemma_entry_lens(cfg, mem, moves, i, result, n);
    assert(v0.len() == n);
    assert((blamed.index as int) < n);
    assert(cfg.new_weight(v0[blamed.index as int] as int, i, l, result) == 0);
    let v2 = v0.update(blamed.index as int, 0i32);
    let after = cfg.learn_upto(mem, moves, i + 1, result, n);
    assert(after == cfg.learn_step(pre, moves[i], i, l, result, n));
    if !all_nonpos(v2) {
        assert(after.contains_key(k) && after[k] == v2);
    }
    assert(!touches(cfg, moves[l - 1], k));
    lemma_untouched_suffix(cfg, mem, moves, i + 1, l, result, n, k);
}

/// Learning keeps every stored entry at the size of its board's grid.
proof fn lemma_entry_lens(
    cfg: Bot,
    mem: Map<u64, Seq<i32>>,
    moves: Seq<Move>,
    i: int,
    result: GameResult,
    n: int,
)
    requires
        0 <= i <= moves.len(),
        forall|j: int| 0 <= j < moves.len() ==> (#[trigger] moves[j]).index < n,
        forall|k: u64| #[trigger] mem.contains_key(k) ==> mem[k].len() == n,
    ensures
        forall|k: u64| #[trigger]
            cfg.learn_upto(mem, moves, i, result, n).contains_key(k) ==> cfg.learn_upto(
                mem,
                moves,
                i,
                result,
                n,
            )[k].len() == n,
    decreases i,
{
    if i > 0 {
        lemma_entry_lens(cfg, mem, moves, i - 1, result, n);
        let pre = cfg.learn_upto(mem, moves, i - 1, result, n);
        let t = cfg.learn_upto(mem, moves, i, result, n);
        let m = moves[i - 1];
        assert forall|k: u64| #[trigger] t.contains_key(k) implies t[k].len() == n by {
            if touches(cfg, m, k) {
                if t.contains_key(k) {
                    let v0 = if pre.contains_key(k) {
                        pre[k]
                    } else {
                        Seq::new(n as nat, |j: int| 0i32)
                    };
                    assert(v0.len() == n);
                    assert((m.index as int) < v0.len());
                }
            } else {
                assert(pre.contains_key(k) && pre[k] == t[k]);
            }
        }
    }
}

/// The anti-starvation rule: learning never leaves a state whose every
/// weight is zero or below in the table — such a vector is dropped, so
/// the next `determine_move` on that state reads the freshly installed
/// default vector (the default weight on every currently empty cell).
pub proof fn lemma_anti_starvation(
    cfg: Bot,
    mem: Map<u64, Seq<i32>>,
    moves: Seq<Move>,
    i: int,
    result: GameResult,
    n: int,
)
    requires
        0 <= i <= moves.len(),
        forall|k: u64| #[trigger]
            mem.contains_key(k) ==> (exists|j: int| 0 <= j < mem[k].len() && mem[k][j] > 0),
    ensures
        forall|k: u64| #[trigger]
            cfg.learn_upto(mem, moves, i, result, n).contains_key(k) ==> (exists|j: int|
                0 <= j < cfg.learn_upto(mem, moves, i, result, n)[k].len() && cfg.learn_upto(
                    mem,
                    moves,
                    i,
                    result,
                    n,
                )[k][j] > 0),
    decreases i,
{
    if i > 0 {
        lemma_anti_starvation(cfg, mem, moves, i - 1, result, n);
        let pre = cfg.learn_upto(mem, moves, i - 1, result, n);
        let t = cfg.learn_upto(mem, moves, i, result, n);
        let m = moves[i - 1];
        assert forall|k: u64| #[trigger] t.contains_key(k) implies (exists|j: int|
            0 <= j < t[k].len() && t[k][j] > 0) by {
            if touches(cfg, m, k) {
                if t.contains_key(k) {
                    assert(!all_nonpos(t[k]));
                    let j = choose|j: int| 0 <= j < t[k].len() && t[k][j] > 0;
                    assert(t[k][j] > 0);
                }
            } else {
                assert(pre.contains_key(k) && pre[k] == t[k]);
            }
        }
    }
}

/// A vector of `n` zero weights.
fn zero_weights(n: usize) -> (r: Vec<i32>)
    ensures
        r@ == Seq::new(n as nat, |j: int| 0i32),
{
    let mut v: Vec<i32> = Vec::new();
    for i in 0..n
        invariant
            v@.len() == i,
            forall|j: int| 0 <= j < i ==> v@[j] == 0i32,
    {
        v.push(0);
    }
    proof {
        assert(v@ =~= Seq::new(n as nat, |j: int| 0i32));
    }
    v
}

/// Splitting a weight sum at any cut: the sum from `i` equals the slice
/// between `i` and `j` plus the sum from `j`.
proof fn lemma_weight_sum_split(w: Seq<i32>, i: int, j: int)
    requires
        0 <= i <= j <= w.len(),
    ensures
        weight_sum(w, i) - weight_sum(w, j) == weight_sum_range(w, i, j),
    decreases j - i,
{
    if i < j {
        lemma_weight_sum_split(w, i + 1, j);
    }
}

/// The signed sum of the weights in `[i, j)`.
pub open spec fn weight_sum_range(w: Seq<i32>, i: int, j: int) -> int
    decreases j - i,
{
    if i >= j {
        0
    } else {
        w[i] + weight_sum_range(w, i + 1, j)
    }
}

} // verus!
