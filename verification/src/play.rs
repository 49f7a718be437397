//! Moves that a search recommends, and games between two players who search
//! before each move.

use crate::mcts::is_legal_line;
use crate::mcts::is_playout;
use crate::mcts::mover;
use crate::mcts::position_after;
use crate::mcts::ranks_of;
use crate::mcts::ranks_visited;
use crate::mcts::GeneralGame;
use crate::mcts::Node;
use rand::rngs::ThreadRng;
use vstd::prelude::*;

verus! {

/// Whether `tree` can come of a new node with `board` and `player` by `steps`
/// growth steps with `rollouts` playouts each, when the visited children are
/// ranked as `ranks` allows.
pub open spec fn is_search_tree<T: GeneralGame>(
    board: T,
    player: i8,
    steps: nat,
    rollouts: u64,
    ranks: spec_fn((u64, u64, u64), u64) -> bool,
    tree: Node<T>,
) -> bool
    decreases steps,
{
    if steps == 0 {
        tree.is_leaf_of(board, player)
    } else {
        exists|before: Node<T>, wins: (u64, u64)|
            {
                &&& is_search_tree(board, player, (steps - 1) as nat, rollouts, ranks, before)
                &&& #[trigger] before.grows_to(tree, rollouts, ranks, wins)
            }
    }
}

/// Whether a search of `steps` growth steps at `board` can recommend the move
/// `index` to `player`: the move of the most visited child of the root.
pub open spec fn is_search_move<T: GeneralGame>(
    board: T,
    player: i8,
    steps: nat,
    rollouts: u64,
    ranks: spec_fn((u64, u64, u64), u64) -> bool,
    index: usize,
) -> bool {
    exists|tree: Node<T>, child: usize|
        {
            &&& is_search_tree(board, player, steps, rollouts, ranks, tree)
            &&& #[trigger] tree.is_most_visited(Some(child))
            &&& child < board.legal_moves().len()
            &&& index == board.legal_moves()[child as int]
        }
}

/// What `player` has of `both`, which holds a number for player `1` and
/// then one for player `-1`.
pub open spec fn share_of(both: (usize, usize), player: int) -> usize {
    if player == 1 {
        both.0
    } else {
        both.1
    }
}

/// Whether each move of `line`, a game from `start` that player `1` begins,
/// is one that the search of the player who makes it can recommend, when
/// the players search with `evals` growth steps of `rollouts` playouts.
pub open spec fn is_searched_line<T: GeneralGame>(
    start: T,
    line: Seq<usize>,
    evals: (usize, usize),
    rollouts: (usize, usize),
    ranks: spec_fn((u64, u64, u64), u64) -> bool,
) -> bool
    decreases line.len(),
{
    line.len() == 0 || {
        let player = mover(1, line.len() - 1);
        &&& is_searched_line(start, line.drop_last(), evals, rollouts, ranks)
        &&& is_search_move(
            position_after(start, 1, line.drop_last()),
            player as i8,
            share_of(evals, player) as nat,
            share_of(rollouts, player) as u64,
            ranks,
            line.last(),
        )
    }
}

/// Grows a new tree from `board`, at which `player` is to move, by `evals`
/// growth steps with `rollouts` playouts each, and returns the move of its
/// most visited child: `None` where the tree has no children, which is so
/// without a growth step, at a decided position and where no move is left.
pub fn search_move<T: GeneralGame, F: Fn(u64, u64, u64) -> u64>(
    board: &T,
    player: i8,
    evals: usize,
    rollouts: usize,
    rng: &mut ThreadRng,
    score: &F,
) -> (choice: Option<usize>)
    requires
        player == 1 || player == -1,
        evals * rollouts <= u64::MAX,
        ranks_visited(score),
    ensures
        choice is None <==> evals == 0 || board.outcome() != 0 || board.legal_moves().len() == 0,
        choice matches Some(index) ==> {
            &&& board.legal_moves().contains(index)
            &&& is_search_move(
                *board,
                player,
                evals as nat,
                rollouts as u64,
                ranks_of(score),
                index,
            )
        },
{
    let mut node = Node::new(board.clone(), player);
    proof {
        board.lemma_clone_is_equal(&node.board);
    }
    let mut done: usize = 0;
    while done < evals
        invariant
            done <= evals,
            evals * rollouts <= u64::MAX,
            ranks_visited(score),
            node.well_formed(),
            node.visits == done * rollouts,
            is_search_tree(*board, player, done as nat, rollouts as u64, ranks_of(score), node),
        decreases evals - done,
    {
        proof {
            assert((done + 1) * rollouts <= evals * rollouts) by (nonlinear_arith)
                requires
                    done + 1 <= evals,
                    0 <= rollouts,
            ;
            assert((done + 1) * rollouts == done * rollouts + rollouts) by (nonlinear_arith);
        }
        node.propagate(rollouts as u64, rng, score);
        done += 1;
    }
    proof {
        lemma_search_tree_root(
            *board,
            player,
            evals as nat,
            rollouts as u64,
            ranks_of(score),
            node,
        );
    }
    match node.get_most_visited_child() {
        None => None,
        Some(child) => {
            let available = board.get_available();
            let index = available[child];
            Some(index)
        },
    }
}

/// The root of a search tree holds the position and the player that the
/// search began with, and is expanded after the first growth step unless the
/// position is decided.
pub proof fn lemma_search_tree_root<T: GeneralGame>(
    board: T,
    player: i8,
    steps: nat,
    rollouts: u64,
    ranks: spec_fn((u64, u64, u64), u64) -> bool,
    tree: Node<T>,
)
    requires
        player == 1 || player == -1,
        is_search_tree(board, player, steps, rollouts, ranks, tree),
    ensures
        tree.well_formed(),
        tree.board == board,
        tree.player == player,
        steps == 0 ==> tree.children@.len() == 0,
        steps > 0 && board.outcome() == 0 ==> tree.created_children,
    decreases steps,
{
    if steps > 0 {
        let (before, wins) = choose|before: Node<T>, wins: (u64, u64)|
            {
                &&& is_search_tree(board, player, (steps - 1) as nat, rollouts, ranks, before)
                &&& #[trigger] before.grows_to(tree, rollouts, ranks, wins)
            };
        lemma_search_tree_root(board, player, (steps - 1) as nat, rollouts, ranks, before);
        before.lemma_growth_keeps_invariant(tree, rollouts, ranks, wins);
    }
}

/// Plays a game from `start`, which player `1` begins, to its end and
/// returns its result. Before each move the player to move searches, with
/// `bot1_evals` growth steps of `bot1_rollouts` playouts for player `1` and
/// `bot2_evals` growth steps of `bot2_rollouts` playouts for player `-1`, and
/// makes the move that the search recommends.
pub fn simulate_game<T: GeneralGame, F: Fn(u64, u64, u64) -> u64>(
    start: T,
    bot1_evals: usize,
    bot2_evals: usize,
    bot1_rollouts: usize,
    bot2_rollouts: usize,
    rng: &mut ThreadRng,
    score: &F,
) -> (result: i8)
    requires
        bot1_evals >= 1,
        bot2_evals >= 1,
        bot1_evals * bot1_rollouts <= u64::MAX,
        bot2_evals * bot2_rollouts <= u64::MAX,
        ranks_visited(score),
    ensures
        result == 1 || result == 0 || result == -1,
        exists|line: Seq<usize>|
            {
                &&& #[trigger] is_playout(start, 1, line, result as int)
                &&& is_searched_line(
                    start,
                    line,
                    (bot1_evals, bot2_evals),
                    (bot1_rollouts, bot2_rollouts),
                    ranks_of(score),
                )
            },
{
    let ghost mut line: Seq<usize> = Seq::empty();
    let mut board = start;
    let mut player: i8 = 1;

    loop
        invariant
            bot1_evals >= 1,
            bot2_evals >= 1,
            bot1_evals * bot1_rollouts <= u64::MAX,
            bot2_evals * bot2_rollouts <= u64::MAX,
            ranks_visited(score),
            is_legal_line(start, 1, line),
            is_searched_line(
                start,
                line,
                (bot1_evals, bot2_evals),
                (bot1_rollouts, bot2_rollouts),
                ranks_of(score),
            ),
            board == position_after(start, 1, line),
            player == mover(1, line.len() as int),
        decreases board.moves_left(),
    {
        let score_here = board.get_score();
        if score_here != 0 {
            proof {
                board.lemma_outcome_range();
                assert(is_playout(start, 1, line, score_here as int));
            }
            return score_here;
        }
        let max_evals = if player == 1 {
            bot1_evals
        } else {
            bot2_evals
        };
        let rollouts = if player == 1 {
            bot1_rollouts
        } else {
            bot2_rollouts
        };
        let best_move = match search_move(&board, player, max_evals, rollouts, rng, score) {
            Some(index) => index,
            None => {
                proof {
                    assert(is_playout(start, 1, line, 0));
                }
                return 0;
            },
        };
        proof {
            let longer = line.push(best_move);
            assert(longer.drop_last() == line);
            line = longer;
        }
        board.update(best_move, player);
        player = -player;
    }
}

} // verus!
