//! Sparse storage for learned value estimates, backed by
//! `rustc_hash::FxHashMap`. Verus cannot model that map directly, so the
//! store is held behind an opaque struct; the two names below stand for its
//! contents, and the wrapper contracts state exactly what the rest of the
//! crate relies on.

use rustc_hash::FxHashMap;
use vstd::prelude::*;

verus! {

/// A two-level hash map from an encoded board state to the values stored for
/// that state's (row, column) actions.
#[verifier::external_body]
pub struct QStore {
    states: FxHashMap<u64, FxHashMap<(u64, u64), i64>>,
}

/// What the store holds: the value recorded for each present pair of an
/// encoded state and a (row, column) action.
pub uninterp spec fn store_entries(m: QStore) -> Map<(int, (int, int)), i64>;

/// The set of encoded states that have at least one recorded action value.
pub uninterp spec fn store_states(m: QStore) -> Set<int>;

/// The model of a store with nothing recorded.
pub open spec fn no_entries() -> Map<(int, (int, int)), i64> {
    Map::empty()
}

/// The state set of a store with nothing recorded.
pub open spec fn no_states() -> Set<int> {
    Set::empty()
}

/// Relies on `FxHashMap::default` (`HashMap::default`): a fresh map is empty.
#[verifier::external_body]
pub fn store_new() -> (m: QStore)
    ensures
        store_entries(m) == no_entries(),
        store_states(m) == no_states(),
{
    QStore { states: FxHashMap::default() }
}

/// Relies on `HashMap::get`: looking a key up returns the value stored under
/// exactly that key, or nothing. The two levels are read in turn.
#[verifier::external_body]
pub(crate) fn store_get(m: &QStore, state: u64, action: (u64, u64)) -> (r: Option<i64>)
    ensures
        r == (if store_entries(*m).dom().contains(
            (state as int, (action.0 as int, action.1 as int)),
        ) {
            Some(store_entries(*m)[(state as int, (action.0 as int, action.1 as int))])
        } else {
            None::<i64>
        }),
{
    match m.states.get(&state) {
        None => None,
        Some(actions) => actions.get(&action).copied(),
    }
}

/// Relies on `HashMap::get_mut` and `HashMap::insert`: the value under the
/// given pair is replaced (the state's inner map is created on first use),
/// every other pair is untouched, and the state joins the outer key set.
#[verifier::external_body]
pub(crate) fn store_set(m: &mut QStore, state: u64, action: (u64, u64), value: i64)
    ensures
        store_entries(*final(m)) == store_entries(*old(m)).insert(
            (state as int, (action.0 as int, action.1 as int)),
            value,
        ),
        store_states(*final(m)) == store_states(*old(m)).insert(state as int),
{
    match m.states.get_mut(&state) {
        None => {
            let mut actions = FxHashMap::default();
            actions.insert(action, value);
            m.states.insert(state, actions);
        },
        Some(actions) => {
            actions.insert(action, value);
        },
    }
}

/// Relies on `HashMap::len`: the number of outer keys, one per state that
/// has been written at least once.
#[verifier::external_body]
pub(crate) fn store_state_count(m: &QStore) -> (r: usize)
    ensures
        r == store_states(*m).len(),
{
    m.states.len()
}

} // verus!
