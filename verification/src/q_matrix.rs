//! The Q-table: a sparse mapping from (board state, action) to a learned
//! value estimate, with greedy action selection and the one-step tabular
//! temporal-difference update rule.
//!
//! Value estimates are fixed-point numbers: `Q_SCALE` represents 1.0, and
//! both the learning rate and the discount factor are one half, so an update
//! computes `value + (reward + next_max / 2 - value) / 2` with halving
//! rounded toward zero. Board states are keyed by their base-3 encoding,
//! which is proved injective, so distinct boards never share an entry.

use vstd::arithmetic::div_mod::lemma_fundamental_div_mod;
use vstd::arithmetic::div_mod::lemma_fundamental_div_mod_converse;
use vstd::arithmetic::div_mod::lemma_mod_pos_bound;
use vstd::prelude::*;
use vstd::set_lib::lemma_int_range;
use vstd::set_lib::lemma_len_subset;
use vstd::set_lib::set_int_range;

use crate::q_store::QStore;
use crate::q_store::no_entries;
use crate::q_store::no_states;
use crate::q_store::store_entries;
use crate::q_store::store_get;
use crate::q_store::store_new;
use crate::q_store::store_set;
use crate::q_store::store_state_count;
use crate::q_store::store_states;
use crate::tic_tac_toe::Board;
use crate::tic_tac_toe::Piece;
use crate::tic_tac_toe::lemma_flat_index_bounds;

verus! {

/// The fixed-point unit: this many stored units stand for a value of 1.0.
pub const Q_SCALE: i64 = 1048576;

/// Largest magnitude a reward handed to `update` may have (a value of 100).
pub const REWARD_MAX: i64 = 100 * Q_SCALE;

/// Every stored estimate stays within this magnitude (a value of 201): the
/// update rule contracts toward the rewards, which are at most 100 in
/// magnitude.
pub const Q_VALUE_BOUND: i64 = 201 * Q_SCALE;

/// Powers of three; the number of distinct boards with `k` cells.
pub open spec fn pow3(k: nat) -> nat
    decreases k,
{
    if k == 0 {
        1
    } else {
        3 * pow3((k - 1) as nat)
    }
}

pub proof fn lemma_pow3_pos(k: nat)
    ensures
        pow3(k) >= 1,
    decreases k,
{
    if k > 0 {
        lemma_pow3_pos((k - 1) as nat);
    }
}

pub proof fn lemma_pow3_mono(a: nat, b: nat)
    requires
        a <= b,
    ensures
        pow3(a) <= pow3(b),
    decreases b,
{
    if a < b {
        lemma_pow3_mono(a, (b - 1) as nat);
        lemma_pow3_pos((b - 1) as nat);
    }
}

/// Three to the 41st power no longer fits in 64 bits.
pub proof fn lemma_pow3_41_exceeds_u64()
    ensures
        pow3(41) > u64::MAX,
{
    assert(pow3(41) > u64::MAX) by {
        reveal_with_fuel(pow3, 42);
    }
}

/// A board whose state space fits in 64 bits has a small side: at most 40
/// cells, hence a side of at most 6.
pub proof fn lemma_side_bound(n: int)
    requires
        1 <= n,
        pow3((n * n) as nat) <= u64::MAX,
    ensures
        n <= 6,
        n * n <= 40,
{
    if n * n > 40 {
        lemma_pow3_mono(41, (n * n) as nat);
        lemma_pow3_41_exceeds_u64();
    }
    if n > 6 {
        assert(n * n >= 49) by (nonlinear_arith)
            requires
                n >= 7,
        ;
    }
}

/// Conversely, a side of at most 6 keeps the state space within 64 bits.
pub proof fn lemma_small_side_fits(n: int)
    requires
        1 <= n <= 6,
    ensures
        pow3((n * n) as nat) <= u64::MAX,
{
    assert(n * n <= 36) by (nonlinear_arith)
        requires
            1 <= n <= 6,
    ;
    lemma_pow3_mono((n * n) as nat, 36);
    assert(pow3(36) <= u64::MAX) by {
        reveal_with_fuel(pow3, 37);
    }
}

/// The base-3 digit of one cell.
pub open spec fn trit(p: Piece) -> int {
    match p {
        Piece::Empty => 0,
        Piece::X => 1,
        Piece::O => 2,
    }
}

fn piece_trit(p: Piece) -> (t: u64)
    ensures
        t == trit(p),
{
    match p {
        Piece::Empty => 0,
        Piece::X => 1,
        Piece::O => 2,
    }
}

/// The base-3 number whose digits are the cells, first cell most
/// significant.
pub open spec fn code_of(s: Seq<Piece>) -> int
    decreases s.len(),
{
    if s.len() == 0 {
        0
    } else {
        3 * code_of(s.drop_last()) + trit(s.last())
    }
}

pub proof fn lemma_code_of_push(s: Seq<Piece>, x: Piece)
    ensures
        code_of(s.push(x)) == 3 * code_of(s) + trit(x),
{
    assert(s.push(x).drop_last() =~= s);
    assert(s.push(x).last() == x);
}

/// The encoding of `k` cells lies below three to the `k`th power.
pub proof fn lemma_code_of_bounds(s: Seq<Piece>)
    ensures
        0 <= code_of(s) < pow3(s.len()),
    decreases s.len(),
{
    if s.len() > 0 {
        lemma_code_of_bounds(s.drop_last());
    }
}

/// Boards of one size are told apart by their encoding: the code determines
/// every cell.
pub proof fn lemma_code_of_injective(s1: Seq<Piece>, s2: Seq<Piece>)
    requires
        s1.len() == s2.len(),
        code_of(s1) == code_of(s2),
    ensures
        s1 == s2,
    decreases s1.len(),
{
    if s1.len() > 0 {
        assert(s1.last() == s2.last());
        lemma_code_of_injective(s1.drop_last(), s2.drop_last());
        assert forall|i: int| 0 <= i < s1.len() implies s1[i] == s2[i] by {
            if i < s1.len() - 1 {
                assert(s1.drop_last()[i] == s2.drop_last()[i]);
            }
        }
        assert(s1 =~= s2);
    } else {
        assert(s1 =~= s2);
    }
}

/// The board's state code as a machine integer.
pub fn board_code(b: &Board) -> (code: u64)
    requires
        b.wf(),
        pow3((b.n * b.n) as nat) <= u64::MAX,
    ensures
        code as int == code_of(b.cells@),
{
    let len = b.cells.len();
    let mut code: u64 = 0;
    let mut k: usize = 0;
    while k < len
        invariant
            b.wf(),
            len == b.cells@.len(),
            pow3((b.n * b.n) as nat) <= u64::MAX,
            k <= len,
            code as int == code_of(b.cells@.subrange(0, k as int)),
        decreases len - k,
    {
        proof {
            lemma_code_of_bounds(b.cells@.subrange(0, k as int));
            lemma_pow3_mono((k + 1) as nat, len as nat);
            assert(b.cells@.subrange(0, k as int + 1) =~= b.cells@.subrange(0, k as int).push(
                b.cells@[k as int],
            ));
            lemma_code_of_push(b.cells@.subrange(0, k as int), b.cells@[k as int]);
        }
        let t = piece_trit(b.cells[k]);
        code = code * 3 + t;
        k = k + 1;
    }
    proof {
        assert(b.cells@.subrange(0, len as int) =~= b.cells@);
    }
    code
}

/// Halving that rounds toward zero, as the fixed-point update uses.
pub open spec fn half_toward_zero(x: int) -> int {
    if x >= 0 {
        x / 2
    } else {
        -((-x) / 2)
    }
}

/// The one-step tabular temporal-difference update with learning rate one
/// half and discount one half: `value + (reward + next_max/2 - value) / 2`
/// in fixed-point arithmetic.
pub open spec fn td_update(value: int, reward: int, next_max: int) -> int {
    value + half_toward_zero(reward + half_toward_zero(next_max) - value)
}

pub proof fn lemma_half_toward_zero_bounds(x: int)
    ensures
        x >= 0 ==> x - 1 <= 2 * half_toward_zero(x) <= x,
        x < 0 ==> x <= 2 * half_toward_zero(x) <= x + 1,
{
}

fn half_i64(x: i64) -> (r: i64)
    requires
        i64::MIN < x,
    ensures
        r as int == half_toward_zero(x as int),
{
    if x >= 0 {
        ((x as u64) / 2) as i64
    } else {
        let m = ((-x) as u64) / 2;
        -(m as i64)
    }
}

fn td_step(value: i64, reward: i64, next_max: i64) -> (r: i64)
    requires
        -Q_VALUE_BOUND <= value <= Q_VALUE_BOUND,
        -Q_VALUE_BOUND <= next_max <= Q_VALUE_BOUND,
        -REWARD_MAX <= reward <= REWARD_MAX,
    ensures
        r as int == td_update(value as int, reward as int, next_max as int),
        -Q_VALUE_BOUND <= r <= Q_VALUE_BOUND,
{
    proof {
        lemma_half_toward_zero_bounds(next_max as int);
    }
    let hq = half_i64(next_max);
    let t = reward + hq - value;
    proof {
        lemma_half_toward_zero_bounds(t as int);
    }
    let ht = half_i64(t);
    value + ht
}

/// The table key of a board state (by its cells) and a (row, column)
/// action.
pub open spec fn key_for(scells: Seq<Piece>, action: (usize, usize)) -> (int, (int, int)) {
    (code_of(scells), (action.0 as int, action.1 as int))
}

/// Read a model map, with zero as the default for absent keys.
pub open spec fn q_read(m: Map<(int, (int, int)), i64>, key: (int, (int, int))) -> i64 {
    if m.dom().contains(key) {
        m[key]
    } else {
        0
    }
}

/// `Q::best_upto`, stated on a model map: the best recorded action for the
/// state with cells `scells` among the first `k` grid actions of an
/// `n`-sided board, in row-major order.
pub open spec fn best_upto_in(
    m: Map<(int, (int, int)), i64>,
    n: int,
    scells: Seq<Piece>,
    k: int,
) -> (Option<(usize, usize)>, i64)
    decreases k,
{
    if k <= 0 {
        (None::<(usize, usize)>, 0i64)
    } else {
        let prev = best_upto_in(m, n, scells, k - 1);
        let a = ((((k - 1) / n) as usize), (((k - 1) % n) as usize));
        if m.dom().contains(key_for(scells, a)) && (prev.0 is None || q_read(m, key_for(scells, a))
            > prev.1) {
            (Some(a), q_read(m, key_for(scells, a)))
        } else {
            prev
        }
    }
}

/// The greedy value of a state on a model map: the greatest recorded
/// estimate, or zero when nothing is recorded for it.
pub open spec fn max_q_in(m: Map<(int, (int, int)), i64>, n: int, scells: Seq<Piece>) -> i64 {
    best_upto_in(m, n, scells, n * n).1
}

/// The value the temporal-difference rule writes for the transition from
/// the state with cells `scells` via `action` to the state with cells
/// `nextcells` under `reward`, on the model map `m`.
pub open spec fn td_written(
    m: Map<(int, (int, int)), i64>,
    n: int,
    scells: Seq<Piece>,
    action: (usize, usize),
    nextcells: Seq<Piece>,
    reward: i64,
) -> i64 {
    td_update(
        q_read(m, key_for(scells, action)) as int,
        reward as int,
        max_q_in(m, n, nextcells) as int,
    ) as i64
}

/// The model map after one temporal-difference update.
pub open spec fn table_step(
    m: Map<(int, (int, int)), i64>,
    n: int,
    scells: Seq<Piece>,
    action: (usize, usize),
    nextcells: Seq<Piece>,
    reward: i64,
) -> Map<(int, (int, int)), i64> {
    m.insert(key_for(scells, action), td_written(m, n, scells, action, nextcells, reward))
}

/// The learner's value table. The mathematical model is the map `entries()`
/// from (state code, action) keys to stored values, together with the set
/// `states()` of state codes written at least once.
pub struct Q {
    pub n: usize,
    pub store: QStore,
}

impl Q {
    pub open spec fn entries(self) -> Map<(int, (int, int)), i64> {
        store_entries(self.store)
    }

    pub open spec fn states(self) -> Set<int> {
        store_states(self.store)
    }

    /// The table key of a board state and a (row, column) action.
    pub open spec fn key_of(state: Board, action: (usize, usize)) -> (int, (int, int)) {
        key_for(state.cells@, action)
    }

    /// The estimate recorded for the pair, or zero if it was never written.
    pub open spec fn q_at(self, state: Board, action: (usize, usize)) -> i64 {
        q_read(self.entries(), Q::key_of(state, action))
    }

    /// The table's invariant: the side is small enough to encode states in
    /// 64 bits, recorded keys are in-range grid actions of known states, all
    /// stored values are bounded, and a state is known exactly when some
    /// action of it was written.
    pub open spec fn wf(self) -> bool {
        &&& 1 <= self.n
        &&& pow3((self.n * self.n) as nat) <= u64::MAX
        &&& self.states().finite()
        &&& (forall|s: int|
            #[trigger] self.states().contains(s) ==> 0 <= s < pow3((self.n * self.n) as nat))
        &&& (forall|k: (int, (int, int))|
            #[trigger] self.entries().dom().contains(k) ==> self.states().contains(k.0) && 0
                <= k.1.0 < self.n && 0 <= k.1.1 < self.n && -Q_VALUE_BOUND <= self.entries()[k]
                <= Q_VALUE_BOUND)
        &&& (forall|s: int|
            #[trigger] self.states().contains(s) ==> exists|k: (int, (int, int))|
                #[trigger] self.entries().dom().contains(k) && k.0 == s)
    }

    /// An empty table for boards of side `n`. Sides above 6 have a state
    /// space beyond a 64-bit count and are unsupported.
    pub fn new(n: usize) -> (q: Q)
        requires
            1 <= n <= 6,
        ensures
            q.wf(),
            q.n == n,
            q.entries() == no_entries(),
            q.states() == no_states(),
    {
        proof {
            lemma_small_side_fits(n as int);
        }
        let store = store_new();
        Q { n, store }
    }

    /// Read the estimate for `(state, action)`; never written reads as zero
    /// and nothing is materialized.
    pub fn get(&self, state: &Board, action: (usize, usize)) -> (value: i64)
        requires
            self.wf(),
            state.wf(),
            state.n == self.n,
        ensures
            value == self.q_at(*state, action),
    {
        let code = board_code(state);
        let r = store_get(&self.store, code, (action.0 as u64, action.1 as u64));
        match r {
            Some(v) => v,
            None => 0,
        }
    }
    /// An estimate is recorded for this (state, action) pair.
    pub open spec fn recorded(self, state: Board, action: (usize, usize)) -> bool {
        self.entries().dom().contains(Q::key_of(state, action))
    }

    /// The best recorded action among the first `k` grid actions in
    /// row-major order: the recorded action with the strictly greatest
    /// stored value — negative values included — with ties keeping the
    /// earliest action; `(None, 0)` when none of them is recorded.
    pub open spec fn best_upto(self, state: Board, k: int) -> (Option<(usize, usize)>, i64) {
        best_upto_in(self.entries(), self.n as int, state.cells@, k)
    }

    /// The greedy choice for `state`: its recorded action with the greatest
    /// stored value, or `None` exactly when nothing is recorded for it.
    pub open spec fn best_action(self, state: Board) -> (Option<(usize, usize)>, i64) {
        self.best_upto(state, (self.n * self.n) as int)
    }

    /// The greedy choice's value: the greatest recorded estimate for the
    /// state, which may be negative; zero when nothing is recorded.
    pub open spec fn max_q(self, state: Board) -> i64 {
        self.best_action(state).1
    }

    proof fn lemma_best_upto_bounded(self, state: Board, k: int)
        requires
            self.wf(),
            0 <= k,
        ensures
            -Q_VALUE_BOUND <= self.best_upto(state, k).1 <= Q_VALUE_BOUND,
        decreases k,
    {
        if k > 0 {
            self.lemma_best_upto_bounded(state, k - 1);
        }
    }

    proof fn lemma_best_upto_props(self, state: Board, k: int)
        requires
            self.wf(),
            0 <= k <= self.n * self.n,
        ensures
            self.best_upto(state, k).0 matches Some(b) ==> b.0 < self.n && b.1 < self.n
                && self.recorded(state, b) && self.q_at(state, b) == self.best_upto(state, k).1,
            self.best_upto(state, k).0 is None ==> self.best_upto(state, k).1 == 0,
        decreases k,
    {
        if k > 0 {
            self.lemma_best_upto_props(state, k - 1);
            let n = self.n as int;
            lemma_fundamental_div_mod(k - 1, n);
            lemma_mod_pos_bound(k - 1, n);
            let qq = (k - 1) / n;
            if qq <= -1 {
                assert(n * qq <= -n) by (nonlinear_arith)
                    requires
                        n >= 1,
                        qq <= -1,
                ;
            }
            if qq >= n {
                assert(n * qq >= n * n) by (nonlinear_arith)
                    requires
                        n >= 1,
                        qq >= n,
                ;
            }
        }
    }

    proof fn lemma_best_upto_dominates(self, state: Board, k: int, m: int)
        requires
            0 <= k < m,
            self.recorded(
                state,
                (((k / (self.n as int)) as usize), ((k % (self.n as int)) as usize)),
            ),
        ensures
            self.best_upto(state, m).0 is Some,
            self.best_upto(state, m).1 >= self.q_at(
                state,
                (((k / (self.n as int)) as usize), ((k % (self.n as int)) as usize)),
            ),
        decreases m,
    {
        if m > k + 1 {
            self.lemma_best_upto_dominates(state, k, m - 1);
        }
    }

    /// The recorded action with the strictly greatest stored value for
    /// `state`, and that value; ties keep the earliest action in row-major
    /// order. `(None, 0)` exactly when the state has no recorded action.
    pub fn max_action_for_state(&self, state: &Board) -> (r: (Option<(usize, usize)>, i64))
        requires
            self.wf(),
            state.wf(),
            state.n == self.n,
        ensures
            r == self.best_action(*state),
    {
        proof {
            lemma_side_bound(self.n as int);
        }
        let code = board_code(state);
        let n = self.n;
        let total = n * n;
        let mut best: (Option<(usize, usize)>, i64) = (None, 0);
        let mut k: usize = 0;
        while k < total
            invariant
                self.wf(),
                state.wf(),
                state.n == n,
                n == self.n,
                1 <= n,
                total == n * n,
                k <= total,
                code as int == code_of(state.cells@),
                best == self.best_upto(*state, k as int),
            decreases total - k,
        {
            let a = (k / n, k % n);
            let stored = store_get(&self.store, code, (a.0 as u64, a.1 as u64));
            match stored {
                Some(v) => {
                    let take = match best.0 {
                        None => true,
                        Some(_) => v > best.1,
                    };
                    if take {
                        best = (Some(a), v);
                    }
                },
                None => {},
            }
            k = k + 1;
        }
        best
    }

    /// Apply the temporal-difference rule for the observed transition from
    /// `state` via `action` to `next_state` with the given reward, creating
    /// the entry if it is absent. Every other entry is untouched.
    pub fn update(&mut self, state: &Board, action: (usize, usize), next_state: &Board, reward: i64)
        requires
            old(self).wf(),
            state.wf(),
            state.n == old(self).n,
            next_state.wf(),
            next_state.n == old(self).n,
            action.0 < old(self).n,
            action.1 < old(self).n,
            -REWARD_MAX <= reward <= REWARD_MAX,
        ensures
            final(self).wf(),
            final(self).n == old(self).n,
            final(self).entries() == old(self).entries().insert(
                Q::key_of(*state, action),
                td_update(
                    old(self).q_at(*state, action) as int,
                    reward as int,
                    old(self).max_q(*next_state) as int,
                ) as i64,
            ),
            final(self).states() == old(self).states().insert(code_of(state.cells@)),
            final(self).q_at(*state, action) as int == td_update(
                old(self).q_at(*state, action) as int,
                reward as int,
                old(self).max_q(*next_state) as int,
            ),
    {
        let value = self.get(state, action);
        let r = self.max_action_for_state(next_state);
        let next_q = r.1;
        proof {
            self.lemma_best_upto_bounded(*next_state, (self.n * self.n) as int);
        }
        let new_value = td_step(value, reward, next_q);
        let code = board_code(state);
        proof {
            lemma_code_of_bounds(state.cells@);
        }
        store_set(&mut self.store, code, (action.0 as u64, action.1 as u64), new_value);
        proof {
            let key = Q::key_of(*state, action);
            assert(self.entries() =~= old(self).entries().insert(key, new_value));
            assert(self.states() =~= old(self).states().insert(code_of(state.cells@)));
            assert forall|s: int| #[trigger] self.states().contains(s) implies exists|
                k: (int, (int, int)),
            |
                #[trigger] self.entries().dom().contains(k) && k.0 == s by {
                if s == code_of(state.cells@) {
                    assert(self.entries().dom().contains(key) && key.0 == s);
                } else {
                    let k0 = choose|k0: (int, (int, int))|
                        #[trigger] old(self).entries().dom().contains(k0) && k0.0 == s;
                    assert(self.entries().dom().contains(k0));
                }
            }
        }
    }

    /// How many distinct board states have been written at least once.
    pub fn explored_states(&self) -> (r: usize)
        ensures
            r == self.states().len(),
    {
        store_state_count(&self.store)
    }

    /// The count of possible states, three to the power of the cell count,
    /// minus the explored-state count; nothing if the count of possible
    /// states is not representable.
    pub fn possible_minus_explored(&self) -> (r: Option<usize>)
        requires
            self.wf(),
        ensures
            (r is Some) <==> pow3((self.n * self.n) as nat) <= usize::MAX,
            r matches Some(v) ==> v == pow3((self.n * self.n) as nat) - self.states().len(),
    {
        proof {
            lemma_side_bound(self.n as int);
        }
        let n = self.n;
        let total = n * n;
        let mut acc: usize = 1;
        let mut k: usize = 0;
        while k < total
            invariant
                self.wf(),
                n == self.n,
                total == n * n,
                k <= total,
                acc == pow3(k as nat),
            decreases total - k,
        {
            if acc > usize::MAX / 3 {
                proof {
                    lemma_pow3_mono((k + 1) as nat, total as nat);
                }
                return None;
            }
            acc = acc * 3;
            k = k + 1;
        }
        let explored = store_state_count(&self.store);
        proof {
            let bound = pow3(total as nat) as int;
            lemma_int_range(0, bound);
            assert(self.states().subset_of(set_int_range(0, bound)));
            lemma_len_subset(self.states(), set_int_range(0, bound));
        }
        Some(acc - explored)
    }
}

/// A pair that was never written reads as zero.
pub proof fn lemma_unwritten_value_is_zero(q: Q, state: Board, action: (usize, usize))
    requires
        !q.entries().dom().contains(Q::key_of(state, action)),
    ensures
        q.q_at(state, action) == 0,
{
}

/// Reading a pair right after updating it gives back exactly the value the
/// temporal-difference formula produced from the table as it stood before.
pub proof fn lemma_update_round_trip(
    before: Q,
    after: Q,
    state: Board,
    action: (usize, usize),
    next_state: Board,
    reward: i64,
)
    requires
        after.entries() == before.entries().insert(
            Q::key_of(state, action),
            td_update(
                before.q_at(state, action) as int,
                reward as int,
                before.max_q(next_state) as int,
            ) as i64,
        ),
    ensures
        after.q_at(state, action) == td_update(
            before.q_at(state, action) as int,
            reward as int,
            before.max_q(next_state) as int,
        ) as i64,
{
}

/// Greedy selection really selects the recorded maximum: its value is never
/// below any recorded estimate for the state, a returned action is a
/// recorded grid action holding exactly that value, and no action comes
/// only with value zero.
pub proof fn lemma_best_action_is_greatest(q: Q, state: Board, a: (usize, usize))
    requires
        q.wf(),
    ensures
        a.0 < q.n && a.1 < q.n && q.recorded(state, a) ==> q.max_q(state) >= q.q_at(state, a),
        q.best_action(state).0 matches Some(b) ==> b.0 < q.n && b.1 < q.n && q.recorded(state, b)
            && q.q_at(state, b) == q.max_q(state),
        q.best_action(state).0 is None ==> q.max_q(state) == 0,
{
    let n = q.n as int;
    q.lemma_best_upto_props(state, n * n);
    if a.0 < q.n && a.1 < q.n && q.recorded(state, a) {
        let k = a.0 * n + a.1;
        lemma_flat_index_bounds(n, a.0 as int, a.1 as int);
        lemma_fundamental_div_mod_converse(k, n, a.0 as int, a.1 as int);
        assert((((k / n) as usize), ((k % n) as usize)) == a);
        q.lemma_best_upto_dominates(state, k, n * n);
    }
}

/// Greedy selection returns no action exactly when the state has no
/// recorded action: a single recorded estimate, however low, is found.
pub proof fn lemma_best_action_none_iff_unexplored(q: Q, state: Board)
    requires
        q.wf(),
    ensures
        (q.best_action(state).0 is None) <==> !q.states().contains(code_of(state.cells@)),
{
    let n = q.n as int;
    let code = code_of(state.cells@);
    if q.states().contains(code) {
        let k0 = choose|k0: (int, (int, int))|
            #[trigger] q.entries().dom().contains(k0) && k0.0 == code;
        let a = ((k0.1.0 as usize), (k0.1.1 as usize));
        assert(Q::key_of(state, a) == k0);
        let k = a.0 * n + a.1;
        lemma_flat_index_bounds(n, a.0 as int, a.1 as int);
        lemma_fundamental_div_mod_converse(k, n, a.0 as int, a.1 as int);
        assert((((k / n) as usize), ((k % n) as usize)) == a);
        q.lemma_best_upto_dominates(state, k, n * n);
    } else {
        lemma_unexplored_state_has_no_best_action(q, state);
    }
}

/// A state with no recorded action has no greedy choice: selection yields
/// `None` with value zero.
pub proof fn lemma_unexplored_state_has_no_best_action(q: Q, state: Board)
    requires
        q.wf(),
        !q.states().contains(code_of(state.cells@)),
    ensures
        q.best_action(state) == (None::<(usize, usize)>, 0i64),
{
    assert forall|a: (usize, usize)| !(#[trigger] q.recorded(state, a)) by {
        assert(!q.entries().dom().contains(Q::key_of(state, a)));
    }
    lemma_best_upto_none_recorded(q, state, (q.n * q.n) as int);
}

proof fn lemma_best_upto_none_recorded(q: Q, state: Board, k: int)
    requires
        forall|a: (usize, usize)| !(#[trigger] q.recorded(state, a)),
    ensures
        q.best_upto(state, k) == (None::<(usize, usize)>, 0i64),
    decreases k,
{
    if k > 0 {
        lemma_best_upto_none_recorded(q, state, k - 1);
        let n = q.n as int;
        let a = ((((k - 1) / n) as usize), (((k - 1) % n) as usize));
        assert(!q.recorded(state, a));
    }
}

/// The all-empty board encodes to zero.
pub proof fn lemma_code_of_all_empty(s: Seq<Piece>)
    requires
        forall|k: int| 0 <= k < s.len() ==> s[k] == Piece::Empty,
    ensures
        code_of(s) == 0,
    decreases s.len(),
{
    if s.len() > 0 {
        assert(forall|k: int| 0 <= k < s.len() - 1 ==> s.drop_last()[k] == s[k]);
        lemma_code_of_all_empty(s.drop_last());
    }
}

} // verus!
