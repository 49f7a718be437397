//! The search tree: nodes, expansion, random playouts, selection and the
//! growth step that ties them together.

use crate::listing::indices_where;
use crate::listing::lemma_indices_where_members;
use crate::random::pick_from_iter;
use crate::random::pick_from_slice;
use rand::rngs::ThreadRng;
use vstd::prelude::*;

verus! {

/// A position of a game in which the players `1` and `-1` move in turn, and
/// what the search needs to know of it.
pub trait GeneralGame: Clone {
    /// `1` or `-1` once that player has won, `0` while nobody has.
    spec fn outcome(&self) -> int;

    /// The moves that can be made here, in the order in which
    /// `get_available` lists them.
    spec fn legal_moves(&self) -> Seq<usize>;

    /// The position after `player` has made the move `index`.
    spec fn after_move(&self, index: usize, player: i8) -> Self;

    /// A bound on the number of moves that can still be made.
    spec fn moves_left(&self) -> nat;

    /// No other outcome than a win of either player, or none, exists.
    proof fn lemma_outcome_range(&self)
        ensures
            self.outcome() == 1 || self.outcome() == 0 || self.outcome() == -1,
    ;

    /// A legal move uses up one of the moves that are left.
    proof fn lemma_move_uses_up(&self, index: usize, player: i8)
        requires
            self.legal_moves().contains(index),
            player == 1 || player == -1,
        ensures
            self.after_move(index, player).moves_left() < self.moves_left(),
    ;

    /// A clone is the position itself.
    proof fn lemma_clone_is_equal(&self, copy: &Self)
        requires
            cloned::<Self>(*self, *copy),
        ensures
            *copy == *self,
    ;

    /// Makes the legal move `index` for `player`, which uses up one of the
    /// moves that are left.
    fn update(&mut self, index: usize, player: i8)
        requires
            old(self).legal_moves().contains(index),
            player == 1 || player == -1,
        ensures
            *final(self) == old(self).after_move(index, player),
            final(self).moves_left() < old(self).moves_left(),
    ;

    /// The winner, or `0` while there is none.
    fn get_score(&self) -> (score: i8)
        ensures
            score == self.outcome(),
    ;

    /// The legal moves.
    fn get_available(&self) -> (available: Vec<usize>)
        ensures
            available@ == self.legal_moves(),
    ;
}

/// The player who makes the move number `ply` of a line that `first` begins.
pub open spec fn mover(first: i8, ply: int) -> int {
    if ply % 2 == 0 {
        first as int
    } else {
        -first
    }
}

/// The position reached from `board` when the moves `line` are made in turn,
/// `first` making the first of them.
pub open spec fn position_after<T: GeneralGame>(board: T, first: i8, line: Seq<usize>) -> T
    decreases line.len(),
{
    if line.len() == 0 {
        board
    } else {
        position_after(board, first, line.drop_last()).after_move(
            line.last(),
            mover(first, line.len() - 1) as i8,
        )
    }
}

/// Whether each move of `line` is made in an undecided position and is legal
/// there.
pub open spec fn is_legal_line<T: GeneralGame>(board: T, first: i8, line: Seq<usize>) -> bool
    decreases line.len(),
{
    line.len() == 0 || {
        let before = position_after(board, first, line.drop_last());
        &&& is_legal_line(board, first, line.drop_last())
        &&& before.outcome() == 0
        &&& before.legal_moves().contains(line.last())
    }
}

/// Whether `line` is a complete game from `board` that ends with `result`: it
/// is played until a player has won, who is the result, or until no move is
/// left, which is a draw with result `0`.
pub open spec fn is_playout<T: GeneralGame>(
    board: T,
    first: i8,
    line: Seq<usize>,
    result: int,
) -> bool {
    let end = position_after(board, first, line);
    &&& is_legal_line(board, first, line)
    &&& if end.outcome() != 0 {
        result == end.outcome()
    } else {
        end.legal_moves().len() == 0 && result == 0
    }
}

/// Whether some complete game from `board`, which `first` begins, ends with
/// `result`.
pub open spec fn is_playout_result<T: GeneralGame>(board: T, first: i8, result: int) -> bool {
    exists|line: Seq<usize>| is_playout(board, first, line, result)
}

/// A game is no longer than the moves that are left where it starts: each
/// of its moves uses up one of them.
pub proof fn lemma_line_length<T: GeneralGame>(board: T, first: i8, line: Seq<usize>)
    requires
        first == 1 || first == -1,
        is_legal_line(board, first, line),
    ensures
        line.len() + position_after(board, first, line).moves_left() <= board.moves_left(),
    decreases line.len(),
{
    if line.len() > 0 {
        lemma_line_length(board, first, line.drop_last());
        position_after(board, first, line.drop_last()).lemma_move_uses_up(
            line.last(),
            mover(first, line.len() - 1) as i8,
        );
    }
}

/// A complete game ends with a win of either player or with a draw.
pub proof fn lemma_playout_result_range<T: GeneralGame>(board: T, first: i8, result: int)
    requires
        is_playout_result(board, first, result),
    ensures
        result == 1 || result == 0 || result == -1,
{
    let line = choose|line: Seq<usize>| is_playout(board, first, line, result);
    position_after(board, first, line).lemma_outcome_range();
}

/// Whether `keys[index]` is a largest of the keys, and the first that large.
pub open spec fn is_first_max(keys: Seq<u64>, index: int) -> bool {
    &&& 0 <= index < keys.len()
    &&& forall|j: int| 0 <= j < keys.len() ==> keys[j] <= keys[index]
    &&& forall|j: int| 0 <= j < index ==> keys[j] < keys[index]
}

/// The index of the first of the largest keys.
pub fn first_maximum(keys: &Vec<u64>) -> (index: usize)
    requires
        keys@.len() > 0,
    ensures
        is_first_max(keys@, index as int),
{
    let mut best: usize = 0;
    let mut i: usize = 1;
    while i < keys.len()
        invariant
            1 <= i <= keys@.len(),
            is_first_max(keys@.subrange(0, i as int), best as int),
        decreases keys.len() - i,
    {
        if keys[i] > keys[best] {
            best = i;
        }
        i += 1;
    }
    proof {
        assert(keys@.subrange(0, i as int) == keys@);
    }
    best
}

/// Only one index is that of the first of the largest keys.
pub proof fn lemma_first_max_unique(keys: Seq<u64>, a: int, b: int)
    requires
        is_first_max(keys, a),
        is_first_max(keys, b),
    ensures
        a == b,
{
    if a != b {
        // both keys are largest, and the one that comes first is unequalled before the other
        assert(keys[a] <= keys[b] <= keys[a]);
    }
}

/// The share of `wins`, the wins of player `1` and of player `-1`, that is
/// credited to a node at which `player` is to move: the wins of the other
/// player, who moved into it.
pub open spec fn credited(player: i8, wins: (u64, u64)) -> int {
    if player == -1 {
        wins.0 as int
    } else if player == 1 {
        wins.1 as int
    } else {
        0
    }
}

/// Whether `wins` can be the wins of player `1` and of player `-1` in
/// `rollouts` complete games from `board` that `first` begins: each counted
/// result is the result of such a game.
pub open spec fn is_tally<T: GeneralGame>(
    board: T,
    first: i8,
    rollouts: u64,
    wins: (u64, u64),
) -> bool {
    &&& wins.0 + wins.1 <= rollouts
    &&& (wins.0 > 0 ==> is_playout_result(board, first, 1))
    &&& (wins.1 > 0 ==> is_playout_result(board, first, -1))
    &&& (wins.0 + wins.1 < rollouts ==> is_playout_result(board, first, 0))
}

/// Whether `score` can be asked for the rank of every visited child.
pub open spec fn ranks_visited<F: Fn(u64, u64, u64) -> u64>(score: &F) -> bool {
    forall|wins: u64, visits: u64, parent_visits: u64|
        visits > 0 ==> call_requires(score, (wins, visits, parent_visits))
}

/// The ranks that `score` can give: whether it can answer `rank` when it is
/// asked with `stats`, the wins and the visits of a child and the visits of
/// its parent.
pub open spec fn ranks_of<F: Fn(u64, u64, u64) -> u64>(score: &F) -> spec_fn(
    (u64, u64, u64),
    u64,
) -> bool {
    |stats: (u64, u64, u64), rank: u64| call_ensures(score, stats, rank)
}

/// Whether `ranks` allows one rank at most for the same wins, visits and
/// parent's visits, as the ranks of a score do that computes its answer
/// from what it is asked with.
pub open spec fn is_single_valued(ranks: spec_fn((u64, u64, u64), u64) -> bool) -> bool {
    forall|stats: (u64, u64, u64), a: u64, b: u64|
        #[trigger] ranks(stats, a) && #[trigger] ranks(stats, b) ==> a == b
}

/// One position of the search tree, seen by the player who is to move there.
#[derive(Debug, PartialEq)]
pub struct Node<T: GeneralGame> {
    pub board: T,
    /// The player to move at `board`: `1` or `-1`.
    pub player: i8,
    /// The playouts that have passed through this node.
    pub visits: u64,
    /// Those of them that the player who moved into this node has won.
    pub wins: u64,
    /// One child per legal move, in the order of the moves, once expanded.
    pub children: Vec<Node<T>>,
    /// Whether the children have been made.
    pub created_children: bool,
}

impl<T: GeneralGame> Node<T> {
    /// The node that `new` makes of `board` and `player`.
    pub open spec fn is_leaf_of(&self, board: T, player: i8) -> bool {
        &&& self.board == board
        &&& self.player == player
        &&& self.visits == 0
        &&& self.wins == 0
        &&& self.children@.len() == 0
        &&& !self.created_children
    }

    /// The invariant of a search tree, at this node and at every node below:
    /// what holds of a new node and is kept by every growth step.
    pub open spec fn well_formed(&self) -> bool
        decreases self,
    {
        &&& (self.player == 1 || self.player == -1)
        &&& self.wins <= self.visits
        &&& (!self.created_children ==> self.children@.len() == 0)
        &&& (self.visits > 0 ==> self.created_children || self.board.outcome() != 0)
        &&& (self.created_children && self.board.outcome() != 0 ==> self.children@.len() == 0)
        &&& (self.created_children && self.board.outcome() == 0 ==> self.children@.len()
            == self.board.legal_moves().len())
        &&& forall|i: int|
            0 <= i < self.children@.len() ==> {
                &&& (#[trigger] self.children[i]).well_formed()
                &&& self.children[i].player == -self.player
                &&& self.children[i].board == self.board.after_move(
                    self.board.legal_moves()[i],
                    self.player,
                )
            }
        &&& Self::visits_in(self.children@) <= self.visits
    }

    /// The visits of `children` taken together.
    pub open spec fn visits_in(children: Seq<Node<T>>) -> int
        decreases children.len(),
    {
        if children.len() == 0 {
            0
        } else {
            Self::visits_in(children.drop_last()) + children.last().visits
        }
    }

    /// No child has more visits than all children together.
    pub proof fn lemma_visits_in_bounds(children: Seq<Node<T>>, index: int)
        requires
            0 <= index < children.len(),
        ensures
            children[index].visits <= Self::visits_in(children),
        decreases children.len(),
    {
        Self::lemma_visits_in_not_negative(children.drop_last());
        if index < children.len() - 1 {
            Self::lemma_visits_in_bounds(children.drop_last(), index);
        }
    }

    /// Children have no fewer than no visits together.
    pub proof fn lemma_visits_in_not_negative(children: Seq<Node<T>>)
        ensures
            0 <= Self::visits_in(children),
        decreases children.len(),
    {
        if children.len() > 0 {
            Self::lemma_visits_in_not_negative(children.drop_last());
        }
    }

    /// Unvisited children have no visits together.
    pub proof fn lemma_visits_in_none(children: Seq<Node<T>>)
        requires
            forall|i: int| 0 <= i < children.len() ==> (#[trigger] children[i]).visits == 0,
        ensures
            Self::visits_in(children) == 0,
        decreases children.len(),
    {
        if children.len() > 0 {
            Self::lemma_visits_in_none(children.drop_last());
        }
    }

    /// Where one child is replaced, the visits of all children change by
    /// what that child's visits change.
    pub proof fn lemma_visits_in_update(children: Seq<Node<T>>, index: int, child: Node<T>)
        requires
            0 <= index < children.len(),
        ensures
            Self::visits_in(children.update(index, child)) == Self::visits_in(children)
                - children[index].visits + child.visits,
        decreases children.len(),
    {
        let changed = children.update(index, child);
        if index < children.len() - 1 {
            Self::lemma_visits_in_update(children.drop_last(), index, child);
            assert(changed.drop_last() == children.drop_last().update(index, child));
        } else {
            assert(changed.drop_last() == children.drop_last());
        }
    }

    /// A node that has neither been visited nor expanded.
    pub fn new(board: T, player: i8) -> (node: Node<T>)
        ensures
            node.is_leaf_of(board, player),
            player == 1 || player == -1 ==> node.well_formed(),
    {
        Node { board, player, visits: 0, wins: 0, children: Vec::new(), created_children: false }
    }

    /// The children that expanding a node with `board` and `player` makes:
    /// one unvisited leaf per legal move, in the order of the moves, with
    /// the other player to move.
    pub open spec fn is_expansion(children: Seq<Node<T>>, board: T, player: i8) -> bool {
        &&& children.len() == board.legal_moves().len()
        &&& forall|i: int|
            0 <= i < children.len() ==> (#[trigger] children[i]).is_leaf_of(
                board.after_move(board.legal_moves()[i], player),
                (-player) as i8,
            )
    }

    /// Plays one game from this node's position to its end, each move
    /// picked at random among the legal ones, and returns its result.
    pub fn rollout(&self, rng: &mut ThreadRng) -> (result: i8)
        requires
            self.player == 1 || self.player == -1,
        ensures
            is_playout_result(self.board, self.player, result as int),
            result == 1 || result == 0 || result == -1,
    {
        let mut current_board = self.board.clone();
        let mut current_player = self.player;
        let ghost mut line: Seq<usize> = Seq::empty();
        proof {
            self.board.lemma_clone_is_equal(&current_board);
        }
        loop
            invariant
                self.player == 1 || self.player == -1,
                is_legal_line(self.board, self.player, line),
                current_board == position_after(self.board, self.player, line),
                current_player == mover(self.player, line.len() as int),
            decreases current_board.moves_left(),
        {
            let score = current_board.get_score();
            if score != 0 {
                proof {
                    current_board.lemma_outcome_range();
                    assert(is_playout(self.board, self.player, line, score as int));
                }
                return score;
            }
            let available = current_board.get_available();
            if available.len() == 0 {
                proof {
                    assert(is_playout(self.board, self.player, line, 0));
                }
                return 0;
            }
            let index = pick_from_slice(&available, rng).unwrap();
            current_board.update(index, current_player);
            current_player = -current_player;
            proof {
                let longer = line.push(index);
                assert(longer.drop_last() == line);
                line = longer;
            }
        }
    }

    /// Expands the node, which happens once: a node that is expanded
    /// already is left as it is. Else the node is marked as expanded and,
    /// unless a player has won, gets one new leaf per legal move behind the
    /// children that it holds.
    pub fn create_children(&mut self)
        requires
            old(self).player == 1 || old(self).player == -1,
        ensures
            old(self).created_children ==> *final(self) == *old(self),
            !old(self).created_children ==> {
                &&& final(self).board == old(self).board
                &&& final(self).player == old(self).player
                &&& final(self).visits == old(self).visits
                &&& final(self).wins == old(self).wins
                &&& final(self).created_children
            },
            !old(self).created_children && old(self).board.outcome() != 0
                ==> final(self).children@ == old(self).children@,
            !old(self).created_children && old(self).board.outcome() == 0 ==> {
                let kept = old(self).children@.len() as int;
                &&& final(self).children@.len() == kept + old(self).board.legal_moves().len()
                &&& final(self).children@.subrange(0, kept) == old(self).children@
                &&& Self::is_expansion(
                    final(self).children@.subrange(kept, final(self).children@.len() as int),
                    old(self).board,
                    old(self).player,
                )
            },
            old(self).well_formed() ==> final(self).well_formed(),
    {
        if self.created_children {
            return;
        }
        self.created_children = true;

        // If someone already won, there is no point in creating children
        if self.board.get_score() != 0 {
            return;
        }
        let available = self.board.get_available();
        let ghost kept = self.children@.len() as int;
        let mut k: usize = 0;
        while k < available.len()
            invariant
                k <= available.len(),
                available@ == self.board.legal_moves(),
                self.board == old(self).board,
                self.player == old(self).player,
                self.player == 1 || self.player == -1,
                self.visits == old(self).visits,
                self.wins == old(self).wins,
                self.created_children,
                kept == old(self).children@.len(),
                self.children@.len() == kept + k,
                self.children@.subrange(0, kept) == old(self).children@,
                forall|i: int|
                    0 <= i < k ==> (#[trigger] self.children@[kept + i]).is_leaf_of(
                        self.board.after_move(available@[i], self.player),
                        (-self.player) as i8,
                    ),
            decreases available.len() - k,
        {
            let index = available[k];
            let mut child = Node::new(self.board.clone(), -self.player);
            proof {
                self.board.lemma_clone_is_equal(&child.board);
            }
            child.board.update(index, self.player);
            self.children.push(child);
            k += 1;
        }
        proof {
            let made = self.children@.subrange(kept, self.children@.len() as int);
            assert forall|i: int| 0 <= i < made.len() implies (#[trigger] made[i]).is_leaf_of(
                self.board.after_move(self.board.legal_moves()[i], self.player),
                (-self.player) as i8,
            ) by {
                assert(made[i] == self.children@[kept + i]);
            }
            if old(self).well_formed() {
                assert forall|i: int| 0 <= i < self.children@.len() implies {
                    &&& (#[trigger] self.children[i]).well_formed()
                    &&& self.children[i].player == -self.player
                    &&& self.children[i].board == self.board.after_move(
                        self.board.legal_moves()[i],
                        self.player,
                    )
                    &&& self.children[i].visits == 0
                } by {
                    assert(self.children[i] == self.children@[kept + i]);
                    Self::lemma_visits_in_none(self.children[i].children@);
                }
                Self::lemma_visits_in_none(self.children@);
            }
        }
    }

    /// The visit counts of the children, in their order.
    pub open spec fn child_visits(&self) -> Seq<u64> {
        Seq::new(self.children@.len(), |i: int| self.children[i].visits)
    }

    /// Whether one of `children` has not been visited yet.
    pub open spec fn has_unvisited(children: Seq<Node<T>>) -> bool {
        exists|i: int| 0 <= i < children.len() && (#[trigger] children[i]).visits == 0
    }

    /// Whether `rank` can be the rank of this node among the children of a
    /// node with `parent_visits` visits: none while it is unvisited, and
    /// else one that `ranks` allows for its wins and visits.
    pub open spec fn may_rank(
        &self,
        parent_visits: u64,
        ranks: spec_fn((u64, u64, u64), u64) -> bool,
        rank: Option<u64>,
    ) -> bool {
        match rank {
            None => self.visits == 0,
            Some(key) => self.visits != 0 && ranks((self.wins, self.visits, parent_visits), key),
        }
    }

    /// Whether `keys` are ranks that `ranks` allows for the `children` of a
    /// node with `parent_visits` visits, each for its child's wins and
    /// visits.
    pub open spec fn is_ranking(
        children: Seq<Node<T>>,
        parent_visits: u64,
        ranks: spec_fn((u64, u64, u64), u64) -> bool,
        keys: Seq<u64>,
    ) -> bool {
        &&& keys.len() == children.len()
        &&& forall|i: int|
            0 <= i < keys.len() ==> ranks(
                (children[i].wins, children[i].visits, parent_visits),
                #[trigger] keys[i],
            )
    }

    /// The selection policy: whether `choice` may be selected among the
    /// `children` of a node with `parent_visits` visits.
    ///
    /// Without children there is no choice. While a child is unvisited the
    /// choice is any child that is not expanded, or none where all are.
    /// Otherwise it is the first child of the highest rank.
    pub open spec fn may_select(
        children: Seq<Node<T>>,
        parent_visits: u64,
        ranks: spec_fn((u64, u64, u64), u64) -> bool,
        choice: Option<usize>,
    ) -> bool {
        if children.len() == 0 {
            choice is None
        } else if Self::has_unvisited(children) {
            match choice {
                None => forall|i: int|
                    0 <= i < children.len() ==> (#[trigger] children[i]).created_children,
                Some(index) => index < children.len() && !children[index as int].created_children,
            }
        } else {
            match choice {
                None => false,
                Some(index) => exists|keys: Seq<u64>| #[trigger]
                    Self::is_ranking(children, parent_visits, ranks, keys) && is_first_max(
                        keys,
                        index as int,
                    ),
            }
        }
    }

    /// Whether `choice` is the first of the most visited children, or none
    /// where there is no child.
    pub open spec fn is_most_visited(&self, choice: Option<usize>) -> bool {
        match choice {
            None => self.children@.len() == 0,
            Some(index) => is_first_max(self.child_visits(), index as int),
        }
    }

    /// Whether one growth step with `rollouts` playouts can turn this node
    /// into `grown` and return `wins`, the wins of player `1` and of player
    /// `-1`, when the visited children are ranked as `ranks` allows.
    ///
    /// The step visits the node. At a decided position all playouts go to
    /// the winner. A node that is not expanded is expanded, and the playouts
    /// are complete games from its position. At an expanded node the step
    /// goes on in the selected child, if there is one, and returns what it
    /// returns there. The node is credited with the wins of the player who
    /// moved into it.
    pub open spec fn grows_to(
        &self,
        grown: Node<T>,
        rollouts: u64,
        ranks: spec_fn((u64, u64, u64), u64) -> bool,
        wins: (u64, u64),
    ) -> bool
        decreases self,
    {
        &&& grown.board == self.board
        &&& grown.player == self.player
        &&& grown.visits == self.visits + rollouts
        &&& grown.wins == self.wins + credited(self.player, wins)
        &&& if self.board.outcome() != 0 {
            &&& grown.created_children == self.created_children
            &&& grown.children@ == self.children@
            &&& wins == if self.board.outcome() == 1 {
                (rollouts, 0u64)
            } else {
                (0u64, rollouts)
            }
        } else if !self.created_children {
            let kept = self.children@.len() as int;
            &&& grown.created_children
            &&& grown.children@.len() == kept + self.board.legal_moves().len()
            &&& grown.children@.subrange(0, kept) == self.children@
            &&& Self::is_expansion(
                grown.children@.subrange(kept, grown.children@.len() as int),
                self.board,
                self.player,
            )
            &&& is_tally(self.board, self.player, rollouts, wins)
        } else {
            &&& grown.created_children
            &&& exists|choice: Option<usize>|
                {
                    &&& #[trigger] Self::may_select(self.children@, grown.visits, ranks, choice)
                    &&& match choice {
                        None => grown.children@ == self.children@ && wins == (0u64, 0u64),
                        Some(index) => {
                            &&& index < self.children@.len()
                            &&& grown.children@.len() == self.children@.len()
                            &&& self.children[index as int].grows_to(
                                grown.children[index as int],
                                rollouts,
                                ranks,
                                wins,
                            )
                            &&& forall|j: int|
                                0 <= j < self.children@.len() && j != index
                                    ==> #[trigger] grown.children[j] == self.children[j]
                        },
                    }
                }
        }
    }

    /// The children that are not expanded, in ascending order.
    pub fn unexpanded_children(&self) -> (indices: Vec<usize>)
        ensures
            indices@ == indices_where(
                self.children@.len(),
                |i: int| !self.children[i].created_children,
            ),
    {
        let ghost keep = |i: int| !self.children[i].created_children;
        let mut indices: Vec<usize> = Vec::new();
        let mut i: usize = 0;
        while i < self.children.len()
            invariant
                i <= self.children@.len(),
                keep == |i: int| !self.children[i].created_children,
                indices@ == indices_where(i as nat, keep),
            decreases self.children.len() - i,
        {
            if !self.children[i].created_children {
                indices.push(i);
            }
            i += 1;
        }
        indices
    }

    /// Whether a child has not been visited yet.
    pub fn has_unvisited_child(&self) -> (found: bool)
        ensures
            found == Self::has_unvisited(self.children@),
    {
        let mut i: usize = 0;
        while i < self.children.len()
            invariant
                i <= self.children@.len(),
                forall|j: int| 0 <= j < i ==> (#[trigger] self.children@[j]).visits != 0,
            decreases self.children.len() - i,
        {
            if self.children[i].visits == 0 {
                return true;
            }
            i += 1;
        }
        false
    }

    /// The rank of this node among the children of a node with
    /// `parent_visits` visits: `None` while it is unvisited, which ranks it
    /// above every visited node, and else what `score` makes of its wins,
    /// its visits and `parent_visits`.
    pub fn get_score<F: Fn(u64, u64, u64) -> u64>(&self, parent_visits: u64, score: &F) -> (rank:
        Option<u64>)
        requires
            ranks_visited(score),
        ensures
            self.may_rank(parent_visits, ranks_of(score), rank),
    {
        if self.visits == 0 {
            return None;
        }
        Some(score(self.wins, self.visits, parent_visits))
    }

    /// The rank that `score` gives each child, which must all be visited.
    pub fn rank_children<F: Fn(u64, u64, u64) -> u64>(&self, score: &F) -> (keys: Vec<u64>)
        requires
            ranks_visited(score),
            !Self::has_unvisited(self.children@),
        ensures
            Self::is_ranking(self.children@, self.visits, ranks_of(score), keys@),
    {
        let mut keys: Vec<u64> = Vec::new();
        let mut i: usize = 0;
        while i < self.children.len()
            invariant
                i <= self.children@.len(),
                ranks_visited(score),
                !Self::has_unvisited(self.children@),
                keys@.len() == i,
                forall|j: int|
                    0 <= j < i ==> ranks_of(score)(
                        (self.children@[j].wins, self.children@[j].visits, self.visits),
                        #[trigger] keys@[j],
                    ),
            decreases self.children.len() - i,
        {
            let rank = self.children[i].get_score(self.visits, score);
            keys.push(rank.unwrap());
            i += 1;
        }
        keys
    }

    /// Selects the child in which the search goes on: see `may_select`.
    pub fn get_child_with_highest_score<F: Fn(u64, u64, u64) -> u64>(
        &self,
        rng: &mut ThreadRng,
        score: &F,
    ) -> (choice: Option<usize>)
        requires
            ranks_visited(score),
        ensures
            Self::may_select(self.children@, self.visits, ranks_of(score), choice),
    {
        if self.children.len() == 0 {
            return None;
        }
        // while some children were not visited yet, select at random
        if self.has_unvisited_child() {
            let not_visited = self.unexpanded_children();
            proof {
                lemma_indices_where_members(
                    self.children@.len(),
                    |i: int| !self.children[i].created_children,
                );
                assert forall|i: int| 0 <= i < self.children@.len() && not_visited@.len()
                    == 0 implies (#[trigger] self.children@[i]).created_children by {
                    assert(!not_visited@.contains(i as usize));
                }
            }
            return pick_from_iter(not_visited, rng);
        }
        let keys = self.rank_children(score);
        let best = first_maximum(&keys);
        Some(best)
    }

    /// The visit counts of the children, in their order.
    pub fn get_child_visits(&self) -> (visits: Vec<u64>)
        ensures
            visits@ == self.child_visits(),
    {
        let mut visits: Vec<u64> = Vec::new();
        let mut i: usize = 0;
        while i < self.children.len()
            invariant
                i <= self.children@.len(),
                visits@ == self.child_visits().subrange(0, i as int),
            decreases self.children.len() - i,
        {
            visits.push(self.children[i].visits);
            i += 1;
        }
        visits
    }

    /// The child with the most visits, the first of them where several have
    /// as many; `None` where the node has no children.
    pub fn get_most_visited_child(&self) -> (choice: Option<usize>)
        ensures
            self.is_most_visited(choice),
    {
        if self.children.len() == 0 {
            return None;
        }
        let visits = self.get_child_visits();
        Some(first_maximum(&visits))
    }

    /// One growth step of the search, with `rollouts` playouts: see
    /// `grows_to`. Returns the wins of player `1` and of player `-1`.
    pub fn propagate<F: Fn(u64, u64, u64) -> u64>(
        &mut self,
        rollouts: u64,
        rng: &mut ThreadRng,
        score: &F,
    ) -> (wins: (u64, u64))
        requires
            old(self).well_formed(),
            old(self).visits + rollouts <= u64::MAX,
            ranks_visited(score),
        ensures
            old(self).grows_to(*final(self), rollouts, ranks_of(score), wins),
            final(self).well_formed(),
            wins.0 + wins.1 <= rollouts,
        decreases *old(self),
    {
        self.visits += rollouts;

        // if someone has already won, all playouts are theirs
        let score_here = self.board.get_score();
        proof {
            self.board.lemma_outcome_range();
        }
        if score_here != 0 {
            if score_here == 1 {
                if self.player == -1 {
                    self.wins += rollouts;
                }
                return (rollouts, 0);
            } else {
                if self.player == 1 {
                    self.wins += rollouts;
                }
                return (0, rollouts);
            }
        }
        let mut wins_1: u64 = 0;
        let mut wins_n1: u64 = 0;

        if !self.created_children {
            // expand, and play the playouts from here
            self.create_children();

            let mut n: u64 = 0;
            while n < rollouts
                invariant
                    n <= rollouts,
                    self.player == 1 || self.player == -1,
                    is_tally(self.board, self.player, n, (wins_1, wins_n1)),
                decreases rollouts - n,
            {
                let res = self.rollout(rng);

                if res == 1 {
                    wins_1 += 1;
                } else if res == -1 {
                    wins_n1 += 1;
                }
                n += 1;
            }
        } else {
            // go on in the child with the highest score
            let next = self.get_child_with_highest_score(rng, score);
            if let Some(next_node_index) = next {
                proof {
                    Self::lemma_visits_in_bounds(self.children@, next_node_index as int);
                }
                let (a, b) = self.children[next_node_index].propagate(rollouts, rng, score);
                wins_1 = a;
                wins_n1 = b;
            }
        }

        // credit the node
        if self.player == -1 {
            self.wins += wins_1;
        } else if self.player == 1 {
            self.wins += wins_n1;
        }
        proof {
            old(self).lemma_growth_keeps_invariant(
                *self,
                rollouts,
                ranks_of(score),
                (wins_1, wins_n1),
            );
        }
        (wins_1, wins_n1)
    }

    /// Whether `path`, which holds the index of a child at each step, leads
    /// from this node to a node of its tree.
    pub open spec fn has_path(&self, path: Seq<usize>) -> bool
        decreases path.len(),
    {
        path.len() == 0 || (path[0] < self.children@.len() && self.children[path[0] as int].has_path(
            path.drop_first(),
        ))
    }

    /// The node to which `path` leads from this node.
    pub open spec fn node_at(&self, path: Seq<usize>) -> Node<T>
        decreases path.len(),
    {
        if path.len() == 0 {
            *self
        } else {
            self.children[path[0] as int].node_at(path.drop_first())
        }
    }

    /// At every node of a well-formed tree the wins are no more than the
    /// visits, a node that is not expanded has no children, a node that is
    /// expanded at an undecided position has one child per legal move, a
    /// visited node is expanded or decided, and the children have no more
    /// visits together than the node.
    pub proof fn lemma_invariant_at_every_node(&self, path: Seq<usize>)
        requires
            self.well_formed(),
            self.has_path(path),
        ensures
            self.node_at(path).well_formed(),
            0 <= self.node_at(path).wins <= self.node_at(path).visits,
            !self.node_at(path).created_children ==> self.node_at(path).children@.len() == 0,
            self.node_at(path).visits > 0 ==> self.node_at(path).created_children
                || self.node_at(path).board.outcome() != 0,
            Self::visits_in(self.node_at(path).children@) <= self.node_at(path).visits,
            self.node_at(path).created_children && self.node_at(path).board.outcome() == 0
                ==> self.node_at(path).children@.len() == self.node_at(
                path,
            ).board.legal_moves().len(),
        decreases path.len(),
    {
        if path.len() > 0 {
            self.children[path[0] as int].lemma_invariant_at_every_node(path.drop_first());
        }
    }

    /// A growth step keeps a well-formed tree well-formed, and returns no
    /// more wins than it has played playouts.
    pub proof fn lemma_growth_keeps_invariant(
        &self,
        grown: Node<T>,
        rollouts: u64,
        ranks: spec_fn((u64, u64, u64), u64) -> bool,
        wins: (u64, u64),
    )
        requires
            self.well_formed(),
            self.grows_to(grown, rollouts, ranks, wins),
        ensures
            grown.well_formed(),
            wins.0 + wins.1 <= rollouts,
        decreases self,
    {
        self.board.lemma_outcome_range();
        if self.board.outcome() != 0 {
            // nothing changes below the node
        } else if !self.created_children {
            let made = grown.children@.subrange(0, grown.children@.len() as int);
            assert forall|i: int| 0 <= i < grown.children@.len() implies {
                &&& (#[trigger] grown.children[i]).well_formed()
                &&& grown.children[i].player == -grown.player
                &&& grown.children[i].board == grown.board.after_move(
                    grown.board.legal_moves()[i],
                    grown.player,
                )
                &&& grown.children[i].visits == 0
            } by {
                assert(grown.children[i] == made[i]);
                Self::lemma_visits_in_none(grown.children[i].children@);
            }
            Self::lemma_visits_in_none(grown.children@);
        } else {
            let choice = choose|choice: Option<usize>|
                {
                    &&& #[trigger] Self::may_select(self.children@, grown.visits, ranks, choice)
                    &&& match choice {
                        None => grown.children@ == self.children@ && wins == (0u64, 0u64),
                        Some(index) => {
                            &&& index < self.children@.len()
                            &&& grown.children@.len() == self.children@.len()
                            &&& self.children[index as int].grows_to(
                                grown.children[index as int],
                                rollouts,
                                ranks,
                                wins,
                            )
                            &&& forall|j: int|
                                0 <= j < self.children@.len() && j != index
                                    ==> #[trigger] grown.children[j] == self.children[j]
                        },
                    }
                };
            if let Some(index) = choice {
                self.children[index as int].lemma_growth_keeps_invariant(
                    grown.children[index as int],
                    rollouts,
                    ranks,
                    wins,
                );
                // one child has as many visits more as the node has
                Self::lemma_visits_in_update(
                    self.children@,
                    index as int,
                    grown.children[index as int],
                );
                assert(grown.children@ =~= self.children@.update(
                    index as int,
                    grown.children[index as int],
                ));
            }
        }
    }

    /// While a child is both unvisited and not expanded, the selection is a
    /// child that is not expanded: an expanded child has to wait.
    pub proof fn lemma_unexpanded_selected_first(
        children: Seq<Node<T>>,
        parent_visits: u64,
        ranks: spec_fn((u64, u64, u64), u64) -> bool,
        choice: Option<usize>,
    )
        requires
            Self::may_select(children, parent_visits, ranks, choice),
            exists|j: int|
                0 <= j < children.len() && (#[trigger] children[j]).visits == 0
                    && !children[j].created_children,
        ensures
            choice matches Some(index) && index < children.len()
                && !children[index as int].created_children,
    {
    }

    /// The tree has one answer to the question for its most visited child,
    /// however often it is asked.
    pub proof fn lemma_most_visited_unique(&self, first: Option<usize>, second: Option<usize>)
        requires
            self.is_most_visited(first),
            self.is_most_visited(second),
        ensures
            first == second,
    {
        if first is Some && second is Some {
            lemma_first_max_unique(self.child_visits(), first->0 as int, second->0 as int);
        }
    }
    /// A node has one rank, however often it is asked for, where the score
    /// gives one rank to the same wins and visits.
    pub proof fn lemma_rank_unique(
        &self,
        parent_visits: u64,
        ranks: spec_fn((u64, u64, u64), u64) -> bool,
        first: Option<u64>,
        second: Option<u64>,
    )
        requires
            is_single_valued(ranks),
            self.may_rank(parent_visits, ranks, first),
            self.may_rank(parent_visits, ranks, second),
        ensures
            first == second,
    {
    }

    /// Among children that are all visited one child is selected, however
    /// often the selection is made, where the score gives one rank to the
    /// same wins and visits.
    pub proof fn lemma_selection_unique(
        children: Seq<Node<T>>,
        parent_visits: u64,
        ranks: spec_fn((u64, u64, u64), u64) -> bool,
        first: Option<usize>,
        second: Option<usize>,
    )
        requires
            is_single_valued(ranks),
            !Self::has_unvisited(children),
            Self::may_select(children, parent_visits, ranks, first),
            Self::may_select(children, parent_visits, ranks, second),
        ensures
            first == second,
    {
        if children.len() > 0 {
            let keys = choose|keys: Seq<u64>| #[trigger]
                Self::is_ranking(children, parent_visits, ranks, keys) && is_first_max(
                    keys,
                    first->0 as int,
                );
            let others = choose|keys: Seq<u64>| #[trigger]
                Self::is_ranking(children, parent_visits, ranks, keys) && is_first_max(
                    keys,
                    second->0 as int,
                );
            assert(keys =~= others);
            lemma_first_max_unique(keys, first->0 as int, second->0 as int);
        }
    }
}

} // verus!
