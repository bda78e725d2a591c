//! The orchestrator: plays one game of self-play to completion, feeding
//! the outcome back into both bots, and runs long training sessions of
//! such games.

use vstd::prelude::*;
use crate::board::{
    Board, GameResult, Move, Player, Space, count_empty, empty_grid, has_empty,
    lemma_count_empty_pos, lemma_count_empty_update, lemma_key_fits_u64,
    lemma_move_keeps_other_winless, lemma_winner_none_no_win, lemma_winner_some_has_win, opponent,
};
use crate::bot::{
    Bot, all_nonpos, default_weights, lemma_learn_preserves_mem_wf, lemma_learn_upto_config,
    lemma_visited_only_trans, mem_model, mem_wf, same_config, visited_only,
};

verus! {

/// The conditions under which a game can never abort: both bots' weight
/// tables are faithful to the states their keys encode, each bot sits on
/// its own side, and the board still has room.
pub open spec fn game_sound(board: Board, player_x: Bot, player_o: Bot) -> bool {
    &&& mem_wf(mem_model(player_x.memory@), board.size())
    &&& mem_wf(mem_model(player_o.memory@), board.size())
    &&& player_x.player == Player::X
    &&& player_o.player == Player::O
    &&& has_empty(board.spaces@)
}

/// Whose turn it is after `k` moves of a game: X opens and turns
/// alternate strictly.
pub open spec fn side_to_move(k: int) -> Player {
    if k % 2 == 0 {
        Player::X
    } else {
        Player::O
    }
}

/// One turn: the bot picks a cell and it is placed for `p`. Fails —
/// leaving the board untouched — when the bot finds no positive weight or
/// names an occupied cell; with a faithful table and room on the board
/// neither can happen. Either way the bot's table changes only by the
/// visit to the current state.
fn one_turn(board: &mut Board, bot: &mut Bot, p: Player) -> (r: Result<(), ()>)
    requires
        old(board).wf(),
    ensures
        final(board).wf(),
        final(board).rows == old(board).rows,
        final(board).cols == old(board).cols,
        same_config(*final(bot), *old(bot)),
        visited_only(
            mem_model(old(bot).memory@),
            mem_model(final(bot).memory@),
            old(board).size(),
        ),
        r is Err ==> *final(board) == *old(board),
        // an abort pins the defect: the visited entry either has no
        // positive weight at all, or a positive weight on a cell that is
        // not empty
        r is Err ==> ({
            let k = (old(board).spec_key() as u64);
            let m1 = mem_model(final(bot).memory@);
            &&& m1.contains_key(k)
            &&& (all_nonpos(m1[k]) || (exists|j: int|
                0 <= j < m1[k].len() && m1[k][j] > 0 && !(0 <= j < old(board).spaces@.len()
                    && old(board).spaces@[j] == Space::Empty)))
        }),
        r is Ok ==> count_empty(final(board).spaces@) == count_empty(old(board).spaces@) - 1,
        r is Ok ==> final(board).moves@.len() == old(board).moves@.len() + 1,
        r is Ok ==> final(board).moves@.take(old(board).moves@.len() as int) == old(
            board,
        ).moves@,
        r is Ok ==> final(board).moves@.last().space == Space::Player(p),
        r is Ok ==> (exists|idx: int|
            0 <= idx < old(board).spaces@.len() && final(board).spaces@ == old(
                board,
            ).spaces@.update(idx, Space::Player(p))),
        (mem_wf(mem_model(old(bot).memory@), old(board).size()) && has_empty(
            old(board).spaces@,
        )) ==> (r is Ok && mem_wf(mem_model(final(bot).memory@), old(board).size())),
        // and conversely, a stored entry with no positive weight for the
        // current state forces the failure
        (mem_model(old(bot).memory@).contains_key((old(board).spec_key() as u64)) && all_nonpos(
            mem_model(old(bot).memory@)[(old(board).spec_key() as u64)],
        )) ==> r is Err,
{
    let ghost pre_bot = *bot;
    let ghost pre_board = *board;
    let ghost n = old(board).size();
    let ghost sound = mem_wf(mem_model(pre_bot.memory@), n) && has_empty(pre_board.spaces@);
    let mv = bot.determine_move(board);
    proof {
        lemma_key_fits_u64(*board);
        let k = (board.spec_key() as u64);
        let entry = if pre_bot.memory@.contains_key(k) {
            pre_bot.memory@[k]@
        } else {
            default_weights(board.spaces@)
        };
        assert(mem_model(bot.memory@) =~= mem_model(pre_bot.memory@).insert(k, entry));
        assert(visited_only(mem_model(pre_bot.memory@), mem_model(bot.memory@), n)) by {
            if !pre_bot.memory@.contains_key(k) {
                assert(board.spaces@.len() == n);
                assert(board.spec_key() == k as int);
            }
        }
    }
    match mv {
        Some(index) => {
            let ghost before_set = *board;
            let res = board.set_by_index(index, Space::Player(p));
            match res {
                Ok(_) => {
                    proof {
                        lemma_count_empty_update(
                            before_set.spaces@,
                            index as int,
                            Space::Player(p),
                        );
                        assert(board.moves@.take(pre_board.moves@.len() as int)
                            =~= pre_board.moves@);
                        assert(0 <= (index as int) < pre_board.spaces@.len() && board.spaces@
                            == pre_board.spaces@.update(index as int, Space::Player(p)));
                    }
                    Ok(())
                },
                Err(_) => {
                    proof {
                        assert(!sound);
                        let k = (pre_board.spec_key() as u64);
                        let m1 = mem_model(bot.memory@);
                        assert(0 <= (index as int) < m1[k].len() && m1[k][index as int] > 0 && !(
                        0 <= (index as int) < pre_board.spaces@.len()
                            && pre_board.spaces@[index as int] == Space::Empty));
                    }
                    Err(())
                },
            }
        },
        None => {
            proof {
                assert(!sound);
                let k = (pre_board.spec_key() as u64);
                assert(all_nonpos(mem_model(bot.memory@)[k]));
            }
            Err(())
        },
    }
}


/// Plays one game to completion on the given board. X moves first and
/// turns alternate strictly — the appended history records show exactly
/// that — and after every move the board is checked. On a win or tie both
/// bots learn from the finished board before the outcome is returned. A
/// bot that cannot move (or names an occupied cell) aborts the game with
/// its identity and a defective table entry as the witness, leaving both
/// tables only visited, never taught; under `game_sound` an abort cannot
/// happen.
pub fn play(board: &mut Board, player_x: &mut Bot, player_o: &mut Bot) -> (r: Result<
    GameResult,
    Player,
>)
    requires
        old(board).wf(),
    ensures
        final(board).wf(),
        final(board).rows == old(board).rows,
        final(board).cols == old(board).cols,
        same_config(*final(player_x), *old(player_x)),
        same_config(*final(player_o), *old(player_o)),
        r matches Ok(res) ==> final(board).winner_spec() == Some(res),
        // the history grows in place, X first, strictly alternating
        final(board).moves@.len() >= old(board).moves@.len(),
        final(board).moves@.take(old(board).moves@.len() as int) == old(board).moves@,
        forall|i: int|
            old(board).moves@.len() <= i < final(board).moves@.len()
                ==> (#[trigger] final(board).moves@[i]).space == Space::Player(
                side_to_move(i - old(board).moves@.len()),
            ),
        r is Ok ==> final(board).moves@.len() > old(board).moves@.len(),
        // from a still-running board, a win's decisive move is the
        // winner's own
        (match r {
            Ok(GameResult::Winner(p)) => old(board).winner_spec() is None
                ==> final(board).moves@.last().space == Space::Player(p),
            _ => true,
        }),
        // on success each bot learned from the finished board, applied to
        // its table as it stood after the game's visits
        r matches Ok(res) ==> (exists|mx: Map<u64, Seq<i32>>|
            visited_only(mem_model(old(player_x).memory@), mx, old(board).size()) && mem_model(
                final(player_x).memory@,
            ) == old(player_x).learn_upto(
                mx,
                final(board).moves@,
                final(board).moves@.len() as int,
                res,
                final(board).spaces@.len() as int,
            )),
        r matches Ok(res) ==> (exists|mo: Map<u64, Seq<i32>>|
            visited_only(mem_model(old(player_o).memory@), mo, old(board).size()) && mem_model(
                final(player_o).memory@,
            ) == old(player_o).learn_upto(
                mo,
                final(board).moves@,
                final(board).moves@.len() as int,
                res,
                final(board).spaces@.len() as int,
            )),
        // an abort reports the bot whose turn it was and pins the defect:
        // the visited entry for the current state either has no positive
        // weight at all, or a positive weight on a cell that is not empty
        (match r {
            Err(p) => ({
                let k = (final(board).spec_key() as u64);
                let m1 = if p == Player::X {
                    mem_model(final(player_x).memory@)
                } else {
                    mem_model(final(player_o).memory@)
                };
                &&& p == side_to_move(final(board).moves@.len() - old(board).moves@.len())
                &&& m1.contains_key(k)
                &&& (all_nonpos(m1[k]) || (exists|j: int|
                    0 <= j < m1[k].len() && m1[k][j] > 0 && !(0 <= j
                        < final(board).spaces@.len() && final(board).spaces@[j]
                        == Space::Empty)))
            }),
            _ => true,
        }),
        // a table that claims no viable move for the opening state stalls
        // the game at once
        (mem_model(old(player_x).memory@).contains_key((old(board).spec_key() as u64))
            && all_nonpos(
            mem_model(old(player_x).memory@)[(old(board).spec_key() as u64)],
        )) ==> r == Err::<GameResult, Player>(Player::X),
        // on an abort nothing was learned: the tables were only visited
        r is Err ==> visited_only(
            mem_model(old(player_x).memory@),
            mem_model(final(player_x).memory@),
            old(board).size(),
        ) && visited_only(
            mem_model(old(player_o).memory@),
            mem_model(final(player_o).memory@),
            old(board).size(),
        ),
        game_sound(*old(board), *old(player_x), *old(player_o)) ==> (r is Ok && mem_wf(
            mem_model(final(player_x).memory@),
            final(board).size(),
        ) && mem_wf(mem_model(final(player_o).memory@), final(board).size())),
{
    let mut current_player: Player = Player::X;
    let ghost hyp = game_sound(*old(board), *old(player_x), *old(player_o));
    let ghost stall = mem_model(old(player_x).memory@).contains_key(
        (old(board).spec_key() as u64),
    ) && all_nonpos(mem_model(old(player_x).memory@)[(old(board).spec_key() as u64)]);
    let ghost n = old(board).size();
    let ghost orig_x = mem_model(old(player_x).memory@);
    let ghost orig_o = mem_model(old(player_o).memory@);
    let ghost base = old(board).moves@.len() as int;
    proof {
        lemma_count_empty_pos(board.spaces@);
        assert(board.moves@.take(base) =~= old(board).moves@);
    }
    loop
        invariant
            board.wf(),
            board.rows == old(board).rows,
            board.cols == old(board).cols,
            n == old(board).size(),
            base == old(board).moves@.len() as int,
            orig_x == mem_model(old(player_x).memory@),
            orig_o == mem_model(old(player_o).memory@),
            same_config(*player_x, *old(player_x)),
            same_config(*player_o, *old(player_o)),
            board.moves@.len() >= base,
            board.moves@.take(base) == old(board).moves@,
            forall|i: int|
                base <= i < board.moves@.len() ==> (#[trigger] board.moves@[i]).space
                    == Space::Player(side_to_move(i - base)),
            current_player == side_to_move(board.moves@.len() - base),
            visited_only(orig_x, mem_model(player_x.memory@), n),
            visited_only(orig_o, mem_model(player_o.memory@), n),
            old(board).winner_spec() is None ==> board.winner_spec() is None,
            hyp == game_sound(*old(board), *old(player_x), *old(player_o)),
            stall == (mem_model(old(player_x).memory@).contains_key(
                (old(board).spec_key() as u64),
            ) && all_nonpos(mem_model(old(player_x).memory@)[(old(board).spec_key() as u64)])),
            stall ==> *board == *old(board) && mem_model(player_x.memory@) == orig_x
                && current_player == Player::X,
            hyp ==> mem_wf(mem_model(player_x.memory@), board.size()) && mem_wf(
                mem_model(player_o.memory@),
                board.size(),
            ) && has_empty(board.spaces@),
            count_empty(board.spaces@) >= 0,
        decreases count_empty(board.spaces@),
    {
        let ghost pre_count = count_empty(board.spaces@);
        let ghost pre_board = *board;
        let ghost pre_x_model = mem_model(player_x.memory@);
        let ghost pre_o_model = mem_model(player_o.memory@);
        let ghost mover = current_player;
        let turn = if current_player == Player::X {
            one_turn(board, player_x, Player::X)
        } else {
            one_turn(board, player_o, Player::O)
        };
        proof {
            if current_player == Player::X {
                lemma_visited_only_trans(orig_x, pre_x_model, mem_model(player_x.memory@), n);
            } else {
                lemma_visited_only_trans(orig_o, pre_o_model, mem_model(player_o.memory@), n);
            }
        }
        if turn.is_err() {
            proof {
                if hyp {
                    assert(false);
                }
            }
            return Err(current_player);
        }
        proof {
            if stall {
                assert(false);
            }
        }
        proof {
            // the appended record continues the strict alternation
            assert(board.moves@.take(base) =~= pre_board.moves@.take(base));
            assert(board.moves@[board.moves@.len() - 1].space == Space::Player(mover));
            assert forall|i: int|
                base <= i < board.moves@.len() implies (#[trigger] board.moves@[i]).space
                == Space::Player(side_to_move(i - base)) by {
                if i < board.moves@.len() - 1 {
                    assert(board.moves@[i] == pre_board.moves@[i]);
                }
            }
        }
        current_player = if current_player == Player::X {
            Player::O
        } else {
            Player::X
        };
        if let Some(result) = board.determine_winner() {
            proof {
                if pre_board.winner_spec() is None {
                    // the mover cannot have completed a line for the
                    // other side, so a reported winner is the mover
                    lemma_winner_none_no_win(pre_board);
                    let idx = choose|idx: int|
                        0 <= idx < pre_board.spaces@.len() && board.spaces@
                            == pre_board.spaces@.update(idx, Space::Player(mover));
                    lemma_move_keeps_other_winless(pre_board, *board, idx, mover);
                    match result {
                        GameResult::Winner(q) => {
                            lemma_winner_some_has_win(*board);
                            assert(q != opponent(mover));
                            assert(q == mover);
                        },
                        GameResult::Tie => {},
                    }
                }
            }
            let ghost cfg_x = *player_x;
            let ghost pre_x = mem_model(player_x.memory@);
            let ghost cfg_o = *player_o;
            player_x.learn(board, result);
            let ghost pre_o = mem_model(player_o.memory@);
            player_o.learn(board, result);
            proof {
                let l = board.moves@.len() as int;
                let bn = board.spaces@.len() as int;
                lemma_learn_upto_config(cfg_x, *old(player_x), pre_x, board.moves@, l, result, bn);
                lemma_learn_upto_config(cfg_o, *old(player_o), pre_o, board.moves@, l, result, bn);
                assert(visited_only(mem_model(old(player_x).memory@), pre_x, old(board).size()));
                assert(mem_model(player_x.memory@) == old(player_x).learn_upto(
                    pre_x,
                    board.moves@,
                    board.moves@.len() as int,
                    result,
                    board.spaces@.len() as int,
                ));
                assert(visited_only(mem_model(old(player_o).memory@), pre_o, old(board).size()));
                assert(mem_model(player_o.memory@) == old(player_o).learn_upto(
                    pre_o,
                    board.moves@,
                    board.moves@.len() as int,
                    result,
                    board.spaces@.len() as int,
                ));
                if hyp {
                    lemma_learn_preserves_mem_wf(cfg_x, pre_x, *board, l, result);
                    lemma_learn_preserves_mem_wf(cfg_o, pre_o, *board, l, result);
                }
            }
            return Ok(result);
        }
        proof {
            assert(has_empty(board.spaces@));
            lemma_count_empty_pos(board.spaces@);
            assert(count_empty(board.spaces@) == pre_count - 1);
        }
    }
}

/// What a training session counted: one tally per finished game, plus
/// the games a stalled bot aborted.
#[derive(Debug, PartialEq, Eq, Structural, Clone, Copy)]
pub struct TrainStats {
    pub x_wins: u32,
    pub o_wins: u32,
    pub ties: u32,
    pub stalled: u32,
}

/// One training game's effect on a bot's table: some states are visited
/// (installing their defaults), then the outcome of some finished history
/// is folded in — an aborted game folds in the empty history, a no-op.
pub open spec fn game_step(
    cfg: Bot,
    m0: Map<u64, Seq<i32>>,
    m1: Map<u64, Seq<i32>>,
    n: int,
) -> bool {
    exists|mv: Map<u64, Seq<i32>>, moves: Seq<Move>, res: GameResult|
        #![trigger cfg.learn_upto(mv, moves, moves.len() as int, res, n)]
        visited_only(m0, mv, n) && m1 == cfg.learn_upto(mv, moves, moves.len() as int, res, n)
}

/// A table is reached from another by a training session of `games`
/// games, and in no other way: each game visits states and then learns.
pub open spec fn trained_from(
    cfg: Bot,
    m0: Map<u64, Seq<i32>>,
    m1: Map<u64, Seq<i32>>,
    n: int,
    games: int,
) -> bool
    decreases games,
{
    if games <= 0 {
        m1 == m0
    } else {
        exists|mid: Map<u64, Seq<i32>>|
            trained_from(cfg, m0, mid, n, games - 1) && #[trigger] game_step(cfg, mid, m1, n)
    }
}

/// Runs `game_count` training games of self-play, resetting the board to
/// empty between games (and after the last) and leaving both bots'
/// memories updated in place — each changed exactly by its games' visits
/// and learning. The tallies always account for every game, and under
/// `game_sound` no game is ever lost to a stalled bot.
pub fn train(board: &mut Board, player_x: &mut Bot, player_o: &mut Bot, game_count: u32) -> (r:
    TrainStats)
    requires
        old(board).wf(),
    ensures
        final(board).wf(),
        final(board).rows == old(board).rows,
        final(board).cols == old(board).cols,
        same_config(*final(player_x), *old(player_x)),
        same_config(*final(player_o), *old(player_o)),
        r.x_wins + r.o_wins + r.ties + r.stalled == game_count,
        game_count > 0 ==> final(board).spaces@ == empty_grid(old(board).size())
            && final(board).moves@.len() == 0,
        trained_from(
            *old(player_x),
            mem_model(old(player_x).memory@),
            mem_model(final(player_x).memory@),
            old(board).size(),
            game_count as int,
        ),
        trained_from(
            *old(player_o),
            mem_model(old(player_o).memory@),
            mem_model(final(player_o).memory@),
            old(board).size(),
            game_count as int,
        ),
        game_sound(*old(board), *old(player_x), *old(player_o)) ==> (r.stalled == 0 && mem_wf(
            mem_model(final(player_x).memory@),
            final(board).size(),
        ) && mem_wf(mem_model(final(player_o).memory@), final(board).size())),
{
    let mut stats = TrainStats { x_wins: 0, o_wins: 0, ties: 0, stalled: 0 };
    let ghost hyp = game_sound(*old(board), *old(player_x), *old(player_o));
    let ghost n = old(board).size();
    let ghost orig_x = mem_model(old(player_x).memory@);
    let ghost orig_o = mem_model(old(player_o).memory@);
    let rows = board.rows;
    let cols = board.cols;
    for g in 0..game_count
        invariant
            board.wf(),
            board.rows == rows,
            board.cols == cols,
            rows == old(board).rows,
            cols == old(board).cols,
            n == old(board).size(),
            orig_x == mem_model(old(player_x).memory@),
            orig_o == mem_model(old(player_o).memory@),
            same_config(*player_x, *old(player_x)),
            same_config(*player_o, *old(player_o)),
            g > 0 ==> board.spaces@ == empty_grid(n) && board.moves@.len() == 0,
            trained_from(*old(player_x), orig_x, mem_model(player_x.memory@), n, g as int),
            trained_from(*old(player_o), orig_o, mem_model(player_o.memory@), n, g as int),
            hyp == game_sound(*old(board), *old(player_x), *old(player_o)),
            hyp ==> mem_wf(mem_model(player_x.memory@), board.size()) && mem_wf(
                mem_model(player_o.memory@),
                board.size(),
            ) && has_empty(board.spaces@) && stats.stalled == 0,
            stats.x_wins as int + stats.o_wins as int + stats.ties as int + stats.stalled as int
                == g as int,
    {
        let ghost pre_board = *board;
        let ghost pre_x = *player_x;
        let ghost pre_o = *player_o;
        let res = play(board, player_x, player_o);
        proof {
            lemma_game_step(
                pre_x,
                *old(player_x),
                *player_x,
                pre_board,
                *board,
                res,
                n,
            );
            lemma_game_step(
                pre_o,
                *old(player_o),
                *player_o,
                pre_board,
                *board,
                res,
                n,
            );
        }
        match res {
            Ok(GameResult::Winner(Player::X)) => {
                stats.x_wins = stats.x_wins + 1;
            },
            Ok(GameResult::Winner(Player::O)) => {
                stats.o_wins = stats.o_wins + 1;
            },
            Ok(GameResult::Tie) => {
                stats.ties = stats.ties + 1;
            },
            Err(_) => {
                proof {
                    if hyp {
                        assert(game_sound(pre_board, pre_x, pre_o));
                        assert(false);
                    }
                }
                stats.stalled = stats.stalled + 1;
            },
        }
        *board = Board::new(rows, cols);
        proof {
            assert(board.spaces@[0] == Space::Empty);
            assert(has_empty(board.spaces@));
        }
    }
    stats
}

/// One `play` call amounts to one `game_step` for each bot: its ensures
/// name the visited table and the finished history the learning folded
/// in (or, on an abort, only the visits — the empty history's no-op).
proof fn lemma_game_step(
    pre_bot: Bot,
    cfg: Bot,
    post_bot: Bot,
    pre_board: Board,
    post_board: Board,
    res: Result<GameResult, Player>,
    n: int,
)
    requires
        same_config(pre_bot, cfg),
        n == pre_board.size(),
        post_board.spaces@.len() == n,
        res matches Ok(result) ==> (exists|mv: Map<u64, Seq<i32>>|
            visited_only(mem_model(pre_bot.memory@), mv, n) && mem_model(post_bot.memory@)
                == pre_bot.learn_upto(
                mv,
                post_board.moves@,
                post_board.moves@.len() as int,
                result,
                post_board.spaces@.len() as int,
            )),
        res is Err ==> visited_only(mem_model(pre_bot.memory@), mem_model(post_bot.memory@), n),
    ensures
        game_step(cfg, mem_model(pre_bot.memory@), mem_model(post_bot.memory@), n),
{
    let m0 = mem_model(pre_bot.memory@);
    let m1 = mem_model(post_bot.memory@);
    match res {
        Ok(result) => {
            let mv = choose|mv: Map<u64, Seq<i32>>|
                visited_only(m0, mv, n) && m1 == pre_bot.learn_upto(
                    mv,
                    post_board.moves@,
                    post_board.moves@.len() as int,
                    result,
                    post_board.spaces@.len() as int,
                );
            lemma_learn_upto_config(
                pre_bot,
                cfg,
                mv,
                post_board.moves@,
                post_board.moves@.len() as int,
                result,
                n,
            );
            assert(m1 == cfg.learn_upto(
                mv,
                post_board.moves@,
                post_board.moves@.len() as int,
                result,
                n,
            ));
        },
        Err(_) => {
            let moves = Seq::<Move>::empty();
            assert(m1 == cfg.learn_upto(m1, moves, moves.len() as int, GameResult::Tie, n));
        },
    }
}

} // verus!
