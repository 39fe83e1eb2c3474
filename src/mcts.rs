use vstd::prelude::*;
use crate::board::{
    dropped, grid_of, is_legal, is_terminal_of, lemma_legal_moves_legal, lemma_legal_upto, legal_moves_of, opponent, other,
    well_shaped, Board, InvalidBoardShapeError,
};
use crate::rollout::simulate;

verus! {

/// A node of the search tree, held in the tree's arena by index.
pub struct SearchNode {
    /// The position at this node.
    pub board: Board,
    /// The player to move at this node (1 or 2).
    pub player: i32,
    /// How many simulations passed through this node.
    pub visits: u64,
    /// The sum of their outcomes, in half points for player 1.
    pub reward: u64,
    /// The index of the parent node; `None` at the root.
    pub parent: Option<usize>,
    /// The indices of the expanded children, in order of expansion.
    pub children: Vec<usize>,
    /// The legal moves not yet expanded; the last is expanded next.
    pub untried: Vec<usize>,
    /// The move that led here from the parent; `None` at the root.
    pub chosen_move: Option<usize>,
}

/// The statistics of one child as handed to a selection rule: visits and
/// reward in half points for player 1.
pub type ChildStats = (u64, u64);

/// Node `i` of the arena is consistent with the rest of it.
pub open spec fn node_ok(n: Seq<SearchNode>, i: int) -> bool {
    let x = n[i];
    &&& x.player == 1 || x.player == 2
    &&& x.reward <= 2 * x.visits
    &&& x.visits <= n[0].visits
    &&& forall|k: int| 0 <= k < x.untried@.len() ==> is_legal(x.board@, #[trigger] x.untried@[k] as int)
    &&& forall|k: int|
        0 <= k < x.children@.len() ==> i < #[trigger] x.children@[k] < n.len() && n[x.children@[k] as int].parent
            == Some(i as usize)
    &&& if i == 0 {
        x.parent.is_none()
    } else {
        &&& x.parent.is_some()
        &&& x.chosen_move.is_some()
        &&& x.parent.unwrap() < i
        &&& is_legal(n[x.parent.unwrap() as int].board@, x.chosen_move.unwrap() as int)
        &&& x.board@ == dropped(
            n[x.parent.unwrap() as int].board@,
            x.chosen_move.unwrap() as int,
            n[x.parent.unwrap() as int].player,
        )
        &&& x.player == other(n[x.parent.unwrap() as int].player)
    }
}

/// Every node of a non-empty arena is consistent with it.
pub open spec fn arena_ok(n: Seq<SearchNode>) -> bool {
    &&& n.len() >= 1
    &&& forall|i: int| 0 <= i < n.len() ==> #[trigger] node_ok(n, i)
}

/// `j` lies on the path from node `i` up to the root.
pub open spec fn on_path(n: Seq<SearchNode>, i: int, j: int) -> bool
    decreases i,
{
    if i == j {
        true
    } else if i <= 0 || i >= n.len() {
        false
    } else {
        match n[i].parent {
            Some(p) => if p < i { on_path(n, p as int, j) } else { false },
            None => false,
        }
    }
}

/// Two nodes agree on everything but their statistics.
pub open spec fn same_but_stats(a: SearchNode, b: SearchNode) -> bool {
    &&& a.board == b.board
    &&& a.player == b.player
    &&& a.parent == b.parent
    &&& a.children == b.children
    &&& a.untried == b.untried
    &&& a.chosen_move == b.chosen_move
}

/// Node `j` of `new` is node `j` of `old` with one more visit and `outcome`
/// more reward where `hit` holds, and unchanged elsewhere.
pub open spec fn stats_bumped(old: Seq<SearchNode>, new: Seq<SearchNode>, j: int, hit: bool, outcome: u64) -> bool {
    &&& same_but_stats(new[j], old[j])
    &&& new[j].visits == old[j].visits + if hit { 1int } else { 0int }
    &&& new[j].reward == old[j].reward + if hit { outcome as int } else { 0int }
}

/// `j` lies on the path from `leaf` to the root, below `cur`.
pub open spec fn passed(n: Seq<SearchNode>, leaf: int, cur: int, j: int) -> bool {
    on_path(n, leaf, j) && !on_path(n, cur, j)
}

/// The `k`-th root child has the most visits, and every later root child
/// fewer.
pub open spec fn most_visited(n: Seq<SearchNode>, k: int) -> bool {
    let ch = n[0].children@;
    &&& 0 <= k < ch.len()
    &&& forall|j: int| 0 <= j < ch.len() ==> #[trigger] n[ch[j] as int].visits <= n[ch[k] as int].visits
    &&& forall|j: int| k < j < ch.len() ==> #[trigger] n[ch[j] as int].visits < n[ch[k] as int].visits
}

/// `n` is `o` after node `cur` expanded its last untried move into the new
/// node `leaf`: the child holds the position after that move, with the other
/// player to move and no statistics; `cur` loses the move from its untried
/// list and gains `leaf` as its last child; every other node is unchanged.
pub open spec fn expanded_at(o: Seq<SearchNode>, n: Seq<SearchNode>, cur: int, leaf: int) -> bool {
    let x = o[cur];
    let m = x.untried@.last();
    &&& 0 <= cur < o.len()
    &&& x.untried@.len() > 0
    &&& leaf == o.len()
    &&& n.len() == o.len() + 1
    &&& n[leaf].parent == Some(cur as usize)
    &&& n[leaf].chosen_move == Some(m)
    &&& n[leaf].board@ == dropped(x.board@, m as int, x.player)
    &&& n[leaf].player == other(x.player)
    &&& n[leaf].visits == 0
    &&& n[leaf].reward == 0
    &&& n[leaf].children@.len() == 0
    &&& n[leaf].untried@ == legal_moves_of(n[leaf].board@)
    &&& n[cur].untried@ == x.untried@.drop_last()
    &&& n[cur].children@ == x.children@.push(leaf as usize)
    &&& n[cur].board == x.board
    &&& n[cur].player == x.player
    &&& n[cur].parent == x.parent
    &&& n[cur].chosen_move == x.chosen_move
    &&& n[cur].visits == x.visits
    &&& n[cur].reward == x.reward
    &&& forall|j: int| 0 <= j < o.len() && j != cur ==> #[trigger] n[j] == o[j]
}

/// `m` is the move of a most-visited root child of arena `n`.
pub open spec fn picks_most_visited(n: Seq<SearchNode>, m: Option<usize>) -> bool {
    exists|k: int| #[trigger] most_visited(n, k) && m == n[n[0].children@[k] as int].chosen_move
}

/// The first legal column of the board, if any.
pub open spec fn first_legal(b: Seq<i32>) -> Option<usize> {
    if legal_moves_of(b).len() > 0 {
        Some(legal_moves_of(b)[0])
    } else {
        None
    }
}

/// What a search of `sims` simulations from `b` reports: the first legal
/// move when it ran no simulation or the game is already over; otherwise the
/// move of a most-visited root child of a consistent tree whose root holds
/// `b` and was visited `sims` times.
pub open spec fn mcts_result(b: Seq<i32>, sims: nat, m: Option<usize>) -> bool {
    &&& (sims == 0 || is_terminal_of(b)) ==> m == first_legal(b)
    &&& (sims > 0 && !is_terminal_of(b)) ==> exists|n: Seq<SearchNode>|
        #[trigger] arena_ok(n) && n[0].board@ == b && n[0].visits == sims && picks_most_visited(n, m)
}

/// A search tree: an arena of nodes, the root at index 0, each child after
/// its parent.
pub struct SearchTree {
    pub nodes: Vec<SearchNode>,
}

proof fn lemma_on_path_below(n: Seq<SearchNode>, i: int, j: int)
    requires
        on_path(n, i, j),
    ensures
        j <= i,
    decreases i,
{
    if i != j {
        lemma_on_path_below(n, n[i].parent.unwrap() as int, j);
    }
}

proof fn lemma_on_path_step(n: Seq<SearchNode>, leaf: int, cur: int)
    requires
        on_path(n, leaf, cur),
        0 < cur < n.len(),
        n[cur].parent.is_some(),
        n[cur].parent.unwrap() < cur,
    ensures
        on_path(n, leaf, n[cur].parent.unwrap() as int),
    decreases leaf,
{
    let p = n[cur].parent.unwrap() as int;
    if leaf != cur {
        lemma_on_path_below(n, leaf, cur);
        lemma_on_path_step(n, n[leaf].parent.unwrap() as int, cur);
    } else {
        assert(on_path(n, p, p));
    }
}

proof fn lemma_root_on_path(n: Seq<SearchNode>, i: int)
    requires
        arena_ok(n),
        0 <= i < n.len(),
    ensures
        on_path(n, i, 0),
    decreases i,
{
    if i != 0 {
        assert(node_ok(n, i));
        lemma_root_on_path(n, n[i].parent.unwrap() as int);
    }
}

impl SearchTree {
    /// Every node is consistent with the arena.
    pub open spec fn wf(&self) -> bool {
        arena_ok(self.nodes@)
    }

    /// A tree of one unvisited root: the position `board` with `player` to move.
    pub fn new(board: Board, player: i32) -> (t: SearchTree)
        requires
            player == 1 || player == 2,
        ensures
            t.wf(),
            t.nodes@.len() == 1,
            t.nodes@[0].board == board,
            t.nodes@[0].player == player,
            t.nodes@[0].visits == 0,
            t.nodes@[0].reward == 0,
            t.nodes@[0].children@.len() == 0,
            t.nodes@[0].untried@ == legal_moves_of(board@),
            t.nodes@[0].parent.is_none(),
            t.nodes@[0].chosen_move.is_none(),
    {
        let untried = board.legal_moves();
        proof {
            lemma_legal_upto(board@, 7);
        }
        let root = SearchNode {
            board,
            player,
            visits: 0,
            reward: 0,
            parent: None,
            children: Vec::new(),
            untried,
            chosen_move: None,
        };
        let mut nodes: Vec<SearchNode> = Vec::new();
        nodes.push(root);
        let t = SearchTree { nodes };
        assert(node_ok(t.nodes@, 0));
        t
    }

    /// Adds one visit and `outcome` to every node on the path from `leaf` up
    /// to the root; the same outcome at every level, whoever moves there.
    pub fn backpropagate(&mut self, leaf: usize, outcome: u64)
        requires
            old(self).wf(),
            leaf < old(self).nodes@.len(),
            outcome <= 2,
            old(self).nodes@[0].visits < 0x4000_0000_0000_0000,
        ensures
            final(self).wf(),
            final(self).nodes@.len() == old(self).nodes@.len(),
            forall|j: int|
                0 <= j < old(self).nodes@.len() ==> #[trigger] stats_bumped(
                    old(self).nodes@,
                    final(self).nodes@,
                    j,
                    on_path(old(self).nodes@, leaf as int, j),
                    outcome,
                ),
            final(self).nodes@[0].visits == old(self).nodes@[0].visits + 1,
    {
        let ghost o = self.nodes@;
        proof {
            lemma_root_on_path(self.nodes@, leaf as int);
        }
        let mut cur: usize = leaf;
        loop
            invariant_except_break
                cur < o.len(),
                on_path(o, leaf as int, cur as int),
                forall|j: int|
                    0 <= j < o.len() ==> #[trigger] stats_bumped(
                        o,
                        self.nodes@,
                        j,
                        passed(o, leaf as int, cur as int, j),
                        outcome,
                    ),
            invariant
                self.nodes@.len() == o.len(),
                arena_ok(o),
                o[0].visits < 0x4000_0000_0000_0000,
                leaf < o.len(),
                outcome <= 2,
            ensures
                forall|j: int|
                    0 <= j < o.len() ==> #[trigger] stats_bumped(
                        o,
                        self.nodes@,
                        j,
                        on_path(o, leaf as int, j),
                        outcome,
                    ),
            decreases cur,
        {
            let ghost before = self.nodes@;
            assert(stats_bumped(o, before, cur as int, passed(o, leaf as int, cur as int, cur as int), outcome));
            assert(node_ok(o, cur as int));
            assert(o[cur as int].visits <= o[0].visits);
            let v = self.nodes[cur].visits + 1;
            let r = self.nodes[cur].reward + outcome;
            self.nodes[cur].visits = v;
            self.nodes[cur].reward = r;
            match self.nodes[cur].parent {
                Some(p) => {
                    proof {
                        assert(cur != 0);
                        assert forall|j: int| 0 <= j < o.len() implies #[trigger] stats_bumped(
                            o,
                            self.nodes@,
                            j,
                            passed(o, leaf as int, p as int, j),
                            outcome,
                        ) by {
                            assert(on_path(o, cur as int, j) == (j == cur || on_path(o, p as int, j)));
                            if j == cur as int {
                                if on_path(o, p as int, j) {
                                    lemma_on_path_below(o, p as int, j);
                                }
                            } else {
                                assert(stats_bumped(o, before, j, passed(o, leaf as int, cur as int, j), outcome));
                            }
                        }
                        lemma_on_path_step(o, leaf as int, cur as int);
                    }
                    cur = p;
                },
                None => {
                    proof {
                        assert(cur == 0);
                        assert forall|j: int| 0 <= j < o.len() implies #[trigger] stats_bumped(
                            o,
                            self.nodes@,
                            j,
                            on_path(o, leaf as int, j),
                            outcome,
                        ) by {
                            assert(on_path(o, 0, j) == (j == 0));
                            if j != 0 {
                                assert(stats_bumped(o, before, j, passed(o, leaf as int, cur as int, j), outcome));
                            }
                        }
                    }
                    break;
                },
            }
        }
        proof {
            let n = self.nodes@;
            assert(stats_bumped(o, n, 0, on_path(o, leaf as int, 0), outcome));
            assert forall|i: int| 0 <= i < n.len() implies #[trigger] node_ok(n, i) by {
                assert(node_ok(o, i));
                assert(stats_bumped(o, n, i, on_path(o, leaf as int, i), outcome));
                let x = n[i];
                assert forall|k: int| 0 <= k < x.children@.len() implies i < #[trigger] x.children@[k] < n.len()
                    && n[x.children@[k] as int].parent == Some(i as usize) by {
                    let c = x.children@[k] as int;
                    assert(o[i].children@[k] == x.children@[k]);
                    assert(stats_bumped(o, n, c, on_path(o, leaf as int, c), outcome));
                }
                if i != 0 {
                    let p = o[i].parent.unwrap() as int;
                    assert(stats_bumped(o, n, p, on_path(o, leaf as int, p), outcome));
                }
            }
        }
    }

    /// Adds a child of node `cur` for the last of its untried moves and
    /// returns the child's index.
    fn expand(&mut self, cur: usize) -> (leaf: usize)
        requires
            old(self).wf(),
            cur < old(self).nodes@.len(),
            old(self).nodes@[cur as int].untried@.len() > 0,
        ensures
            final(self).wf(),
            expanded_at(old(self).nodes@, final(self).nodes@, cur as int, leaf as int),
    {
        let ghost o = self.nodes@;
        let n = self.nodes.len();
        assert(node_ok(o, cur as int));
        let mv = match self.nodes[cur].untried.pop() {
            Some(m) => m,
            None => 0,
        };
        let ghost o1 = self.nodes@;
        assert(o[cur as int].untried@.last() == mv);
        let board = self.nodes[cur].board;
        let player = self.nodes[cur].player;
        let child_board = board.play(mv, player);
        let untried = child_board.legal_moves();
        proof {
            lemma_legal_upto(child_board@, 7);
        }
        let child = SearchNode {
            board: child_board,
            player: opponent(player),
            visits: 0,
            reward: 0,
            parent: Some(cur),
            children: Vec::new(),
            untried,
            chosen_move: Some(mv),
        };
        self.nodes.push(child);
        self.nodes[cur].children.push(n);
        proof {
            let m = self.nodes@;
            assert(o1[cur as int].untried@ == o[cur as int].untried@.drop_last());
            assert forall|j: int| 0 <= j < o.len() && j != cur implies #[trigger] m[j] == o[j] by {
                assert(o1[j] == o[j]);
            }
            assert forall|j: int| 0 <= j < o.len() implies #[trigger] m[j].visits == o[j].visits
                && m[j].reward == o[j].reward && m[j].board == o[j].board && m[j].player == o[j].player
                && m[j].parent == o[j].parent && m[j].chosen_move == o[j].chosen_move by {
                if j == cur as int {
                    assert(m[j].visits == o1[j].visits);
                }
            }
            assert forall|i: int| 0 <= i < m.len() implies #[trigger] node_ok(m, i) by {
                if i < n {
                    assert(node_ok(o, i));
                    assert(m[0].visits == o[0].visits);
                    let x = m[i];
                    if i == cur as int {
                        assert forall|k: int| 0 <= k < x.untried@.len() implies is_legal(x.board@, #[trigger] x.untried@[k] as int) by {
                            assert(x.untried@[k] == o[i].untried@[k]);
                        }
                        assert forall|k: int| 0 <= k < x.children@.len() implies i < #[trigger] x.children@[k] < m.len()
                            && m[x.children@[k] as int].parent == Some(i as usize) by {
                            if k < o[i].children@.len() {
                                assert(x.children@[k] == o[i].children@[k]);
                            }
                        }
                    } else {
                        assert(x == o[i]);
                        assert forall|k: int| 0 <= k < x.children@.len() implies i < #[trigger] x.children@[k] < m.len()
                            && m[x.children@[k] as int].parent == Some(i as usize) by {
                            assert(x.children@[k] == o[i].children@[k]);
                        }
                    }
                    if i != 0 {
                        let p = o[i].parent.unwrap() as int;
                        assert(m[p].board == o[p].board);
                    }
                }
            }
        }
        n
    }

    /// One descent: from the root, while the position is not over, expand an
    /// untried move if one is left (returning the new node), else go to the
    /// child that `select` picks from the node's visits and its children's
    /// statistics (the first child when its answer is out of range).
    pub fn select_and_expand<F: Fn(u64, Vec<ChildStats>) -> usize>(&mut self, select: &F) -> (leaf: usize)
        requires
            old(self).wf(),
            forall|v: u64, s: Vec<ChildStats>| select.requires((v, s)),
        ensures
            final(self).wf(),
            leaf < final(self).nodes@.len(),
            // The descent stopped at an existing node: the game is over there,
            // or it has neither untried moves nor children; nothing changed.
            (final(self).nodes@ == old(self).nodes@ && leaf < old(self).nodes@.len() && (is_terminal_of(
                old(self).nodes@[leaf as int].board@,
            ) || (old(self).nodes@[leaf as int].untried@.len() == 0
                && old(self).nodes@[leaf as int].children@.len() == 0)))
            // Or a node on the way, where the game is not over, expanded.
            || (exists|cur: int|
                #[trigger] expanded_at(old(self).nodes@, final(self).nodes@, cur, leaf as int)
                    && !is_terminal_of(old(self).nodes@[cur].board@)),
            is_terminal_of(old(self).nodes@[0].board@) ==> leaf == 0 && final(self).nodes@
                == old(self).nodes@,
            !is_terminal_of(old(self).nodes@[0].board@) && old(self).nodes@[0].untried@.len() > 0
                ==> expanded_at(old(self).nodes@, final(self).nodes@, 0, leaf as int),
    {
        let mut cur: usize = 0;
        while !self.nodes[cur].board.is_terminal()
            invariant
                self.wf(),
                self.nodes@ == old(self).nodes@,
                cur < self.nodes@.len(),
                cur == 0 || (!is_terminal_of(old(self).nodes@[0].board@) && old(self).nodes@[0].untried@.len()
                    == 0),
                forall|v: u64, s: Vec<ChildStats>| select.requires((v, s)),
            decreases self.nodes@.len() - cur,
        {
            if self.nodes[cur].untried.len() > 0 {
                return self.expand(cur);
            }
            let nc = self.nodes[cur].children.len();
            if nc == 0 {
                return cur;
            }
            let mut stats: Vec<ChildStats> = Vec::new();
            let mut k: usize = 0;
            assert(node_ok(self.nodes@, cur as int));
            while k < nc
                invariant
                    self.wf(),
                    cur < self.nodes@.len(),
                    nc == self.nodes@[cur as int].children@.len(),
                    k <= nc,
                decreases nc - k,
            {
                let c = self.nodes[cur].children[k];
                assert(node_ok(self.nodes@, cur as int));
                let node = &self.nodes[c];
                stats.push((node.visits, node.reward));
                k += 1;
            }
            let picked = select(self.nodes[cur].visits, stats);
            let idx: usize = if picked < nc { picked } else { 0 };
            cur = self.nodes[cur].children[idx];
        }
        cur
    }

    /// The move of the root child with the most visits (the last such child
    /// on a tie); `None` when the root has no children.
    pub fn best_move(&self) -> (m: Option<usize>)
        requires
            self.wf(),
        ensures
            m.is_some() <==> self.nodes@[0].children@.len() > 0,
            m.is_some() ==> is_legal(self.nodes@[0].board@, m.unwrap() as int),
            m.is_some() ==> picks_most_visited(self.nodes@, m),
    {
        let nc = self.nodes[0].children.len();
        if nc == 0 {
            return None;
        }
        assert(node_ok(self.nodes@, 0));
        let ghost ch = self.nodes@[0].children@;
        let mut best: usize = 0;
        let mut k: usize = 1;
        while k < nc
            invariant
                self.wf(),
                ch == self.nodes@[0].children@,
                nc == ch.len(),
                0 <= best < k <= nc,
                forall|j: int| 0 <= j < k ==> #[trigger] self.nodes@[ch[j] as int].visits <= self.nodes@[ch[best as int] as int].visits,
                forall|j: int| best < j < k ==> #[trigger] self.nodes@[ch[j] as int].visits < self.nodes@[ch[best as int] as int].visits,
            decreases nc - k,
        {
            assert(node_ok(self.nodes@, 0));
            let c = self.nodes[0].children[k];
            let b = self.nodes[0].children[best];
            if self.nodes[c].visits >= self.nodes[b].visits {
                best = k;
            }
            k += 1;
        }
        assert(node_ok(self.nodes@, 0));
        let c = self.nodes[0].children[best];
        assert(node_ok(self.nodes@, c as int));
        assert(most_visited(self.nodes@, best as int));
        self.nodes[c].chosen_move
    }
}


/// Monte Carlo tree search from `root` with player 1 to move: runs
/// `simulation_count` rounds of descent and expansion, random rollout and
/// backpropagation, then returns the move of the most visited root child, or
/// the first legal move if the root was never expanded; `None` when no move
/// is legal. `select` picks the child to descend into at a fully expanded
/// node.
pub fn mcts<F: Fn(u64, Vec<ChildStats>) -> usize>(root: &Board, simulation_count: usize, select: &F) -> (m: Option<usize>)
    requires
        simulation_count < 0x4000_0000_0000_0000,
        forall|v: u64, s: Vec<ChildStats>| select.requires((v, s)),
    ensures
        m.is_some() <==> legal_moves_of(root@).len() > 0,
        m.is_some() ==> is_legal(root@, m.unwrap() as int),
        mcts_result(root@, simulation_count as nat, m),
{
    let mut tree = SearchTree::new(*root, 1);
    let mut i: usize = 0;
    while i < simulation_count
        invariant
            tree.wf(),
            i <= simulation_count,
            simulation_count < 0x4000_0000_0000_0000,
            tree.nodes@[0].visits == i,
            tree.nodes@.len() <= i + 1,
            tree.nodes@[0].board == *root,
            forall|v: u64, s: Vec<ChildStats>| select.requires((v, s)),
            i == 0 ==> tree.nodes@[0].children@.len() == 0,
            is_terminal_of(root@) ==> tree.nodes@[0].children@.len() == 0,
            !is_terminal_of(root@) ==> tree.nodes@[0].untried@.len() + tree.nodes@[0].children@.len() > 0,
            i > 0 && !is_terminal_of(root@) ==> tree.nodes@[0].children@.len() > 0,
        decreases simulation_count - i,
    {
        let ghost t0 = tree.nodes@;
        let leaf = tree.select_and_expand(select);
        proof {
            let t1 = tree.nodes@;
            if !is_terminal_of(root@) && t0[0].untried@.len() == 0 && t1 != t0 {
                let cur = choose|cur: int| #[trigger] expanded_at(t0, t1, cur, leaf as int) && !is_terminal_of(t0[cur].board@);
                assert(cur != 0);
                assert(t1[0] == t0[0]);
            }
        }
        let board = tree.nodes[leaf].board;
        assert(node_ok(tree.nodes@, leaf as int));
        let o = simulate(&board, tree.nodes[leaf].player);
        let ghost before = tree.nodes@;
        tree.backpropagate(leaf, o);
        assert(stats_bumped(before, tree.nodes@, 0, on_path(before, leaf as int, 0), o));
        i += 1;
    }
    match tree.best_move() {
        Some(m) => {
            proof {
                lemma_legal_upto(root@, 7);
                assert(arena_ok(tree.nodes@));
            }
            Some(m)
        },
        None => {
            let legal = root.legal_moves();
            if legal.len() > 0 {
                proof {
                    lemma_legal_moves_legal(root@, 0);
                }
                Some(legal[0])
            } else {
                None
            }
        },
    }
}

/// The column (0 to 6) that Monte Carlo tree search picks for player 1 on a
/// board given as rows, top row first (see `mcts`); fails unless the board is
/// 6 x 7.
pub fn get_best_move_mcts<F: Fn(u64, Vec<ChildStats>) -> usize>(
    rows: &Vec<Vec<i32>>,
    simulation_count: usize,
    select: &F,
) -> (res: Result<Option<usize>, InvalidBoardShapeError>)
    requires
        simulation_count < 0x4000_0000_0000_0000,
        forall|v: u64, s: Vec<ChildStats>| select.requires((v, s)),
    ensures
        res.is_ok() <==> well_shaped(rows@),
        res.is_ok() ==> (res.unwrap().is_some() <==> legal_moves_of(grid_of(rows@)).len() > 0),
        res.is_ok() && res.unwrap().is_some() ==> is_legal(grid_of(rows@), res.unwrap().unwrap() as int),
        res.is_ok() ==> mcts_result(grid_of(rows@), simulation_count as nat, res.unwrap()),
{
    match Board::from_rows(rows) {
        Ok(b) => Ok(mcts(&b, simulation_count, select)),
        Err(e) => Err(e),
    }
}

} // verus!
