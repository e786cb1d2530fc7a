//! The self-play learner: exploration policy, greedy action selection, and
//! the episode loop that trains the value table against a uniformly random
//! opponent.

use vstd::prelude::*;

use crate::q_matrix::Q;
use crate::q_matrix::Q_SCALE;
use crate::q_matrix::code_of;
use crate::q_matrix::lemma_code_of_all_empty;
use crate::q_matrix::lemma_side_bound;
use crate::q_matrix::table_step;
use crate::q_store::no_entries;
use crate::q_store::no_states;
use crate::rng::random_below;
use crate::tic_tac_toe::Board;
use crate::tic_tac_toe::Piece;
use crate::tic_tac_toe::Player;
use crate::tic_tac_toe::lemma_count_uniform;

verus! {

/// The exploration rate is stored in units of one hundred-thousandth:
/// `EPS_ONE` stands for probability 1, and training lowers the rate by one
/// unit per episode. The rate may go below zero, which simply disables
/// exploration.
pub const EPS_ONE: i64 = 100000;

/// Terminal reward when the agent's own move ends the game (win or tie).
pub const WIN_REWARD: i64 = 100 * Q_SCALE;

/// Terminal reward when the opponent's move ends the game (loss or tie).
pub const LOSS_REWARD: i64 = -100 * Q_SCALE;

/// A learning agent: the current exploration rate and the owned value
/// table.
pub struct Agent {
    pub eps: i64,
    pub qlearner: Q,
}

/// The exploration rate after `k` decay steps from `e0`, never taken below
/// the representable minimum.
pub open spec fn decayed(e0: int, k: int) -> int {
    if e0 - k >= i64::MIN {
        e0 - k
    } else {
        i64::MIN as int
    }
}

/// The game is decided: a player has won, or the board is full (a tie).
pub open spec fn decided(b: Board) -> bool {
    b.wins(Player::X) || b.wins(Player::O) || b.full()
}

/// `mid` is `s` with the agent's X placed on the legal target cell.
pub open spec fn agent_moved(s: Board, a: (usize, usize), mid: Board) -> bool {
    &&& a.0 < s.n
    &&& a.1 < s.n
    &&& s.at(a.0 as int, a.1 as int) == Piece::Empty
    &&& mid.n == s.n
    &&& mid.cells@ == s.cells@.update(a.0 * s.n + a.1, Piece::X)
}

/// `post` is `mid` with the opponent's O placed on some legal cell.
pub open spec fn opponent_moved(mid: Board, c: (usize, usize), post: Board) -> bool {
    &&& c.0 < mid.n
    &&& c.1 < mid.n
    &&& mid.at(c.0 as int, c.1 as int) == Piece::Empty
    &&& post.n == mid.n
    &&& post.cells@ == mid.cells@.update(c.0 * mid.n + c.1, Piece::O)
}

/// One recorded round `(s, a, post, r)` of an episode: the agent places X
/// on a legal cell of `s`. If that move decides the game, the round ends
/// there and earns `WIN_REWARD`. Otherwise the opponent places O on some
/// legal cell, and the reward is `LOSS_REWARD` exactly if the opponent's
/// move decided the game, and zero otherwise.
pub open spec fn round_ok(n: int, e: (Board, (usize, usize), Board, i64)) -> bool {
    let s = e.0;
    let a = e.1;
    let post = e.2;
    let r = e.3;
    &&& s.wf()
    &&& s.n == n
    &&& post.wf()
    &&& post.n == n
    &&& exists|mid: Board|
        #[trigger] agent_moved(s, a, mid) && (if decided(mid) {
            post.cells@ == mid.cells@ && r == WIN_REWARD
        } else {
            (exists|c: (usize, usize)| #[trigger] opponent_moved(mid, c, post)) && r == (if decided(
                post,
            ) {
                LOSS_REWARD
            } else {
                0i64
            })
        })
}

/// A complete self-play episode on an `n`-sided board: it starts from the
/// all-empty board, each later round starts from the previous round's
/// outcome, rewards are zero until the final round, and the final round
/// carries the win or loss reward of the move that ended the game.
pub open spec fn is_episode(n: int, tr: Seq<(Board, (usize, usize), Board, i64)>) -> bool {
    &&& tr.len() >= 1
    &&& forall|i: int| 0 <= i < tr.len() ==> #[trigger] round_ok(n, tr[i])
    &&& forall|k: int| 0 <= k < tr[0].0.cells@.len() ==> tr[0].0.cells@[k] == Piece::Empty
    &&& forall|i: int|
        0 <= i < tr.len() - 1 ==> (#[trigger] tr[i]).3 == 0i64 && tr[i + 1].0.cells@
            == tr[i].2.cells@
    &&& (tr.last().3 == WIN_REWARD || tr.last().3 == LOSS_REWARD)
}

/// The table model after replaying every round of the trace through the
/// temporal-difference rule, in order.
pub open spec fn table_after_episode(
    m0: Map<(int, (int, int)), i64>,
    n: int,
    tr: Seq<(Board, (usize, usize), Board, i64)>,
) -> Map<(int, (int, int)), i64>
    decreases tr.len(),
{
    if tr.len() == 0 {
        m0
    } else {
        let e = tr.last();
        table_step(table_after_episode(m0, n, tr.drop_last()), n, e.0.cells@, e.1, e.2.cells@, e.3)
    }
}

/// The table model after a sequence of whole episodes, in order.
pub open spec fn table_after_episodes(
    m0: Map<(int, (int, int)), i64>,
    n: int,
    trs: Seq<Seq<(Board, (usize, usize), Board, i64)>>,
) -> Map<(int, (int, int)), i64>
    decreases trs.len(),
{
    if trs.len() == 0 {
        m0
    } else {
        table_after_episode(table_after_episodes(m0, n, trs.drop_last()), n, trs.last())
    }
}

/// True when `v` lists `a`.
fn contains_action(v: &Vec<(usize, usize)>, a: (usize, usize)) -> (r: bool)
    ensures
        r == v@.contains(a),
{
    let len = v.len();
    let mut i: usize = 0;
    while i < len
        invariant
            i <= len,
            len == v@.len(),
            forall|j: int| 0 <= j < i ==> v@[j] != a,
        decreases len - i,
    {
        let e = v[i];
        if e.0 == a.0 && e.1 == a.1 {
            assert(v@[i as int] == a);
            return true;
        }
        i = i + 1;
    }
    assert(!v@.contains(a));
    false
}

/// A uniformly random element of the non-empty list.
fn pick_random(v: &Vec<(usize, usize)>) -> (r: (usize, usize))
    requires
        v@.len() >= 1,
    ensures
        v@.contains(r),
{
    let len = v.len();
    let idx64 = random_below(len as u64);
    let idx = idx64 as usize;
    let r = v[idx];
    proof {
        assert(v@[idx as int] == r);
    }
    r
}

impl Agent {
    pub open spec fn wf(self) -> bool {
        self.qlearner.wf()
    }

    /// A fresh agent for boards of side `n`: full exploration and an empty
    /// table. Sides above 6 have a state space beyond a 64-bit count and
    /// are unsupported.
    pub fn new(n: usize) -> (a: Agent)
        requires
            1 <= n <= 6,
        ensures
            a.wf(),
            a.qlearner.n == n,
            a.eps == EPS_ONE,
            a.qlearner.entries() == no_entries(),
            a.qlearner.states() == no_states(),
    {
        Agent { eps: EPS_ONE, qlearner: Q::new(n) }
    }

    /// Choose a move among `valid_actions`: with probability given by the
    /// exploration rate a uniformly random one; otherwise the table's greedy
    /// action for `state`, falling back to a random valid action when the
    /// state has no recorded action. The greedy action of an explored state
    /// is one of its recorded actions, which under correct table use are
    /// legal moves in that state; should it nevertheless not be among
    /// `valid_actions`, a random valid action is chosen. With exploration
    /// disabled (a rate at or below zero) the choice is deterministic.
    pub fn get_action(&self, state: &Board, valid_actions: &Vec<(usize, usize)>) -> (action: (
        usize,
        usize,
    ))
        requires
            self.wf(),
            state.wf(),
            state.n == self.qlearner.n,
            valid_actions@.len() >= 1,
        ensures
            valid_actions@.contains(action),
            self.eps <= 0 ==> (match self.qlearner.best_action(*state).0 {
                Some(a) => valid_actions@.contains(a) ==> action == a,
                None => true,
            }),
    {
        let draw = random_below(EPS_ONE as u64);
        if (draw as i64) < self.eps {
            return pick_random(valid_actions);
        }
        let r = self.qlearner.max_action_for_state(state);
        match r.0 {
            Some(a) => {
                if contains_action(valid_actions, a) {
                    a
                } else {
                    pick_random(valid_actions)
                }
            },
            None => pick_random(valid_actions),
        }
    }

    /// Play one full self-play episode from an empty board, updating the
    /// table after each of the agent's moves: the reward is `WIN_REWARD` if
    /// the agent's move ended the game, `LOSS_REWARD` if the random
    /// opponent's answer ended it, and zero otherwise. Terminates because
    /// every move fills a cell. Whatever the random draws were, a complete
    /// episode trace exists (see `is_episode`): a legal game from the empty
    /// board, the agent as X and the opponent as O, with those rewards, and
    /// the new table is exactly the old one with the trace's rounds written
    /// through the temporal-difference rule in order. In particular the
    /// table only grows, and the empty board — state code zero — is always
    /// updated.
    pub fn learn_one_game(&mut self)
        requires
            old(self).wf(),
        ensures
            final(self).wf(),
            final(self).qlearner.n == old(self).qlearner.n,
            final(self).eps == old(self).eps,
            forall|k: (int, (int, int))|
                #[trigger] old(self).qlearner.entries().dom().contains(k) ==> final(self).qlearner.entries().dom().contains(k),
            forall|s: int|
                #[trigger] old(self).qlearner.states().contains(s) ==> final(self).qlearner.states().contains(s),
            final(self).qlearner.states().contains(0),
            exists|tr: Seq<(Board, (usize, usize), Board, i64)>|
                #[trigger] is_episode(old(self).qlearner.n as int, tr) && tr.len() <= old(
                    self,
                ).qlearner.n * old(self).qlearner.n && final(self).qlearner.entries()
                    == table_after_episode(
                    old(self).qlearner.entries(),
                    old(self).qlearner.n as int,
                    tr,
                ),
    {
        let ghost n0 = self.qlearner.n;
        let ghost eps0 = self.eps;
        let ghost entries0 = self.qlearner.entries();
        let ghost states0 = self.qlearner.states();
        let ghost mut tr: Seq<(Board, (usize, usize), Board, i64)> = Seq::empty();
        proof {
            lemma_side_bound(self.qlearner.n as int);
        }
        let n = self.qlearner.n;
        let mut game = Board::new(n);
        proof {
            assert(n * n >= 1) by (nonlinear_arith)
                requires
                    n >= 1,
            ;
        }
        let mut player = Player::X;
        let mut finished = false;
        while !finished
            invariant
                self.qlearner.wf(),
                self.qlearner.n == n0,
                self.eps == eps0,
                game.wf(),
                game.n == n0,
                finished || game.empty_count() >= 1,
                finished || player == Player::X,
                forall|k: (int, (int, int))|
                    #[trigger] entries0.dom().contains(k)
                        ==> self.qlearner.entries().dom().contains(k),
                forall|s: int|
                    #[trigger] states0.contains(s) ==> self.qlearner.states().contains(s),
                game.empty_count() < n0 * n0 ==> self.qlearner.states().contains(0),
                finished ==> self.qlearner.states().contains(0),
                self.qlearner.entries() == table_after_episode(entries0, n0 as int, tr),
                forall|i: int| 0 <= i < tr.len() ==> #[trigger] round_ok(n0 as int, tr[i]),
                forall|i: int|
                    0 <= i < tr.len() - 1 ==> (#[trigger] tr[i]).3 == 0i64 && tr[i + 1].0.cells@
                        == tr[i].2.cells@,
                tr.len() >= 1 ==> (forall|k: int|
                    0 <= k < tr[0].0.cells@.len() ==> tr[0].0.cells@[k] == Piece::Empty),
                !finished && tr.len() == 0 ==> (forall|k: int|
                    0 <= k < game.cells@.len() ==> game.cells@[k] == Piece::Empty),
                !finished && tr.len() >= 1 ==> tr.last().3 == 0i64 && game.cells@
                    == tr.last().2.cells@,
                finished ==> tr.len() >= 1 && (tr.last().3 == WIN_REWARD || tr.last().3
                    == LOSS_REWARD),
                tr.len() + game.empty_count() <= n0 * n0,
            decreases game.empty_count(),
        {
            let state = game.duplicate();
            proof {
                lemma_count_uniform(game.cells@, Piece::Empty);
                if game.empty_count() == n0 * n0 {
                    lemma_code_of_all_empty(state.cells@);
                }
                assert(code_of(state.cells@) == 0 || self.qlearner.states().contains(0));
            }
            let spots = game.get_empty_spots();
            let action = self.get_action(&state, &spots);
            proof {
                let t = choose|t: int| 0 <= t < spots@.len() && spots@[t] == action;
                assert(spots@[t].0 < game.n);
            }
            let winner = game.make_move(player, action.0, action.1);
            let ghost midb = game;
            proof {
                assert(agent_moved(state, action, midb));
            }
            player = player.next_player();
            if winner.is_some() {
                self.qlearner.update(&state, action, &game, WIN_REWARD);
                proof {
                    let e = (state, action, midb, WIN_REWARD);
                    assert(e.0 == state && e.1 == action && e.2 == midb && e.3 == WIN_REWARD);
                    assert(decided(midb));
                    assert(round_ok(n0 as int, e));
                    assert(tr.push(e).drop_last() =~= tr);
                    tr = tr.push(e);
                }
                finished = true;
            } else {
                proof {
                    assert(!decided(midb));
                    lemma_count_uniform(game.cells@, Piece::Empty);
                }
                let spots2 = game.get_empty_spots();
                let rand_action = pick_random(&spots2);
                proof {
                    let t2 = choose|t2: int| 0 <= t2 < spots2@.len() && spots2@[t2] == rand_action;
                    assert(spots2@[t2].0 < game.n);
                }
                let winner2 = game.make_move(player, rand_action.0, rand_action.1);
                let ghost postb = game;
                proof {
                    assert(opponent_moved(midb, rand_action, postb));
                }
                player = player.next_player();
                if winner2.is_some() {
                    self.qlearner.update(&state, action, &game, LOSS_REWARD);
                    proof {
                        let e = (state, action, postb, LOSS_REWARD);
                        assert(e.0 == state && e.1 == action && e.2 == postb && e.3 == LOSS_REWARD);
                        assert(decided(postb));
                        assert(round_ok(n0 as int, e));
                        assert(tr.push(e).drop_last() =~= tr);
                        tr = tr.push(e);
                    }
                    finished = true;
                } else {
                    self.qlearner.update(&state, action, &game, 0);
                    proof {
                        let e = (state, action, postb, 0i64);
                        assert(e.0 == state && e.1 == action && e.2 == postb && e.3 == 0i64);
                        assert(!decided(postb));
                        assert(round_ok(n0 as int, e));
                        assert(tr.push(e).drop_last() =~= tr);
                        tr = tr.push(e);
                        lemma_count_uniform(game.cells@, Piece::Empty);
                    }
                }
            }
        }
        proof {
            assert(is_episode(n0 as int, tr));
        }
    }

    /// Run `n_games` training episodes, lowering the exploration rate by
    /// one unit after each: a sequence of exactly `n_games` complete
    /// episode traces exists whose rounds, replayed in order, turn the old
    /// table into the new one. With at least one episode the table covers
    /// the empty board; with none it is untouched, and in every case it
    /// only grows.
    pub fn learn(&mut self, n_games: usize)
        requires
            old(self).wf(),
        ensures
            final(self).wf(),
            final(self).qlearner.n == old(self).qlearner.n,
            final(self).eps == decayed(old(self).eps as int, n_games as int),
            forall|k: (int, (int, int))|
                #[trigger] old(self).qlearner.entries().dom().contains(k) ==> final(self).qlearner.entries().dom().contains(k),
            forall|s: int|
                #[trigger] old(self).qlearner.states().contains(s) ==> final(self).qlearner.states().contains(s),
            n_games >= 1 ==> final(self).qlearner.states().contains(0),
            n_games == 0 ==> final(self).qlearner.entries() == old(self).qlearner.entries()
                && final(self).qlearner.states() == old(self).qlearner.states(),
            exists|trs: Seq<Seq<(Board, (usize, usize), Board, i64)>>|
                trs.len() == n_games && (forall|j: int|
                    0 <= j < trs.len() ==> is_episode(
                        old(self).qlearner.n as int,
                        #[trigger] trs[j],
                    )) && final(self).qlearner.entries() == table_after_episodes(
                    old(self).qlearner.entries(),
                    old(self).qlearner.n as int,
                    trs,
                ),
    {
        let ghost n0 = self.qlearner.n;
        let ghost eps0 = self.eps;
        let ghost entries0 = self.qlearner.entries();
        let ghost states0 = self.qlearner.states();
        let ghost mut trs: Seq<Seq<(Board, (usize, usize), Board, i64)>> = Seq::empty();
        let mut i: usize = 0;
        while i < n_games
            invariant
                self.qlearner.wf(),
                self.qlearner.n == n0,
                i <= n_games,
                self.eps == decayed(eps0 as int, i as int),
                forall|k: (int, (int, int))|
                    #[trigger] entries0.dom().contains(k)
                        ==> self.qlearner.entries().dom().contains(k),
                forall|s: int|
                    #[trigger] states0.contains(s) ==> self.qlearner.states().contains(s),
                i >= 1 ==> self.qlearner.states().contains(0),
                i == 0 ==> self.qlearner.entries() == entries0 && self.qlearner.states()
                    == states0,
                trs.len() == i,
                forall|j: int| 0 <= j < trs.len() ==> is_episode(n0 as int, #[trigger] trs[j]),
                self.qlearner.entries() == table_after_episodes(entries0, n0 as int, trs),
            decreases n_games - i,
        {
            let ghost pre = self.qlearner.entries();
            self.learn_one_game();
            proof {
                let tr = choose|tr: Seq<(Board, (usize, usize), Board, i64)>|
                    #[trigger] is_episode(n0 as int, tr) && self.qlearner.entries()
                        == table_after_episode(pre, n0 as int, tr);
                assert(trs.push(tr).drop_last() =~= trs);
                trs = trs.push(tr);
            }
            if self.eps > i64::MIN {
                self.eps = self.eps - 1;
            }
            i = i + 1;
        }
    }
}

} // verus!
