//! Exact selection of a heaviest subset under a weight limit and a
//! volume limit.
//!
//! Every candidate has a cost: its weight and its volume. A pair of
//! sums is reachable when some subset of the candidates has exactly
//! these sums. The selection goes to the reachable pair, within both
//! limits, of greatest weight and, among those, of greatest volume.

use crate::order::{
    order_views, summed_volume, summed_weight, DimensionLessOrder, DimensionLessOrderView,
};
use std::collections::BTreeMap;
use vstd::prelude::*;

verus! {

/// Whether some subset of the first `n` candidates weighs exactly
/// `weight` and takes up exactly `volume`.
pub open spec fn reachable(costs: Seq<(u64, u64)>, n: int, weight: int, volume: int) -> bool
    decreases n,
{
    if n <= 0 {
        weight == 0 && volume == 0
    } else {
        reachable(costs, n - 1, weight, volume) || reachable(
            costs,
            n - 1,
            weight - costs[n - 1].0,
            volume - costs[n - 1].1,
        )
    }
}

/// The subset of the first `n` candidates, as ascending indices, that
/// stands for a reachable pair of sums: the one that uses the latest
/// candidate only where the pair cannot be reached without it.
pub open spec fn chosen(costs: Seq<(u64, u64)>, n: int, weight: int, volume: int) -> Seq<int>
    decreases n,
{
    if n <= 0 {
        Seq::empty()
    } else if reachable(costs, n - 1, weight, volume) {
        chosen(costs, n - 1, weight, volume)
    } else {
        chosen(costs, n - 1, weight - costs[n - 1].0, volume - costs[n - 1].1).push(n - 1)
    }
}

/// Whether `(weight, volume)` is reachable within both limits.
pub open spec fn feasible(
    costs: Seq<(u64, u64)>,
    capacity_weight: int,
    capacity_volume: int,
    weight: int,
    volume: int,
) -> bool {
    reachable(costs, costs.len() as int, weight, volume) && weight <= capacity_weight && volume
        <= capacity_volume
}

/// Whether `(weight, volume)` is the best feasible pair: no feasible
/// pair weighs more, and none of the same weight takes up more volume.
pub open spec fn is_best(
    costs: Seq<(u64, u64)>,
    capacity_weight: int,
    capacity_volume: int,
    weight: int,
    volume: int,
) -> bool {
    feasible(costs, capacity_weight, capacity_volume, weight, volume) && forall|w: int, v: int|
        #[trigger] feasible(costs, capacity_weight, capacity_volume, w, v) ==> w < weight || (w
            == weight && v <= volume)
}

/// The summed weight of the candidates at the indices `picks`.
pub open spec fn picked_weight(costs: Seq<(u64, u64)>, picks: Seq<int>) -> int
    decreases picks.len(),
{
    if picks.len() == 0 {
        0
    } else {
        picked_weight(costs, picks.drop_last()) + costs[picks.last()].0
    }
}

/// The summed volume of the candidates at the indices `picks`.
pub open spec fn picked_volume(costs: Seq<(u64, u64)>, picks: Seq<int>) -> int
    decreases picks.len(),
{
    if picks.len() == 0 {
        0
    } else {
        picked_volume(costs, picks.drop_last()) + costs[picks.last()].1
    }
}

/// Whether `picks` names a subset of the first `n` candidates: indices
/// below `n`, in strictly ascending order.
pub open spec fn is_selection(picks: Seq<int>, n: int) -> bool {
    (forall|i: int| 0 <= i < picks.len() ==> 0 <= #[trigger] picks[i] < n) && forall|i: int, j: int|
        0 <= i < j < picks.len() ==> #[trigger] picks[i] < #[trigger] picks[j]
}

/// The subset that stands for a reachable pair of sums is a subset of
/// the candidates and has exactly these sums.
pub proof fn lemma_chosen_sums(costs: Seq<(u64, u64)>, n: int, weight: int, volume: int)
    requires
        0 <= n <= costs.len(),
        reachable(costs, n, weight, volume),
    ensures
        is_selection(chosen(costs, n, weight, volume), n),
        picked_weight(costs, chosen(costs, n, weight, volume)) == weight,
        picked_volume(costs, chosen(costs, n, weight, volume)) == volume,
    decreases n,
{
    if n > 0 {
        if reachable(costs, n - 1, weight, volume) {
            lemma_chosen_sums(costs, n - 1, weight, volume);
        } else {
            let w = weight - costs[n - 1].0;
            let v = volume - costs[n - 1].1;
            lemma_chosen_sums(costs, n - 1, w, v);
            let rest = chosen(costs, n - 1, w, v);
            assert(rest.push(n - 1).drop_last() =~= rest);
        }
    }
}

/// The sums of any subset of the first `n` candidates are reachable.
pub proof fn lemma_selection_reachable(costs: Seq<(u64, u64)>, n: int, picks: Seq<int>)
    requires
        0 <= n <= costs.len(),
        is_selection(picks, n),
    ensures
        reachable(costs, n, picked_weight(costs, picks), picked_volume(costs, picks)),
    decreases n,
{
    if n > 0 {
        if picks.len() > 0 && picks.last() == n - 1 {
            let rest = picks.drop_last();
            assert(is_selection(rest, n - 1)) by {
                assert forall|i: int| 0 <= i < rest.len() implies 0 <= #[trigger] rest[i] < n
                    - 1 by {
                    assert(rest[i] == picks[i]);
                    assert(picks[i] < picks[picks.len() - 1]);
                }
                assert forall|i: int, j: int| 0 <= i < j < rest.len() implies #[trigger] rest[i]
                    < #[trigger] rest[j] by {
                    assert(rest[i] == picks[i] && rest[j] == picks[j]);
                }
            }
            lemma_selection_reachable(costs, n - 1, rest);
        } else {
            assert(is_selection(picks, n - 1)) by {
                assert forall|i: int| 0 <= i < picks.len() implies 0 <= #[trigger] picks[i] < n
                    - 1 by {
                    if i < picks.len() - 1 {
                        assert(picks[i] < picks[picks.len() - 1]);
                    }
                }
            }
            lemma_selection_reachable(costs, n - 1, picks);
        }
    } else {
        assert(picks.len() == 0) by {
            if picks.len() > 0 {
                assert(0 <= picks[0] < n);
            }
        }
    }
}

/// The subset that stands for the best feasible pair keeps both
/// limits, and no subset of the candidates that keeps both limits
/// weighs more than it.
pub proof fn lemma_best_is_optimal(
    costs: Seq<(u64, u64)>,
    capacity_weight: int,
    capacity_volume: int,
    weight: int,
    volume: int,
    picks: Seq<int>,
)
    requires
        is_best(costs, capacity_weight, capacity_volume, weight, volume),
        is_selection(picks, costs.len() as int),
        picked_weight(costs, picks) <= capacity_weight,
        picked_volume(costs, picks) <= capacity_volume,
    ensures
        is_selection(chosen(costs, costs.len() as int, weight, volume), costs.len() as int),
        picked_weight(costs, chosen(costs, costs.len() as int, weight, volume)) == weight,
        picked_volume(costs, chosen(costs, costs.len() as int, weight, volume)) == volume,
        weight <= capacity_weight,
        volume <= capacity_volume,
        picked_weight(costs, picks) <= weight,
{
    lemma_chosen_sums(costs, costs.len() as int, weight, volume);
    lemma_selection_reachable(costs, costs.len() as int, picks);
    assert(feasible(
        costs,
        capacity_weight,
        capacity_volume,
        picked_weight(costs, picks),
        picked_volume(costs, picks),
    ));
}

/// There is at most one best feasible pair.
pub proof fn lemma_best_is_unique(
    costs: Seq<(u64, u64)>,
    capacity_weight: int,
    capacity_volume: int,
    first: (int, int),
    second: (int, int),
)
    requires
        is_best(costs, capacity_weight, capacity_volume, first.0, first.1),
        is_best(costs, capacity_weight, capacity_volume, second.0, second.1),
    ensures
        first == second,
{
}

/// The best feasible pair of sums.
pub open spec fn optimum(costs: Seq<(u64, u64)>, capacity_weight: int, capacity_volume: int) -> (
    int,
    int,
) {
    choose|p: (int, int)| is_best(costs, capacity_weight, capacity_volume, p.0, p.1)
}

/// The indices of the selected candidates: the subset that stands for
/// the best feasible pair.
pub open spec fn selection(
    costs: Seq<(u64, u64)>,
    capacity_weight: int,
    capacity_volume: int,
) -> Seq<int> {
    let best = optimum(costs, capacity_weight, capacity_volume);
    chosen(costs, costs.len() as int, best.0, best.1)
}

/// A reachable pair of sums with the subset that stands for it.
pub struct State {
    pub weight: u64,
    pub volume: u64,
    pub picks: Vec<usize>,
}

/// A list of indices as mathematical integers.
pub open spec fn picks_of(picks: Seq<usize>) -> Seq<int> {
    picks.map_values(|i: usize| i as int)
}

/// Whether the state stands for the pair `(weight, volume)`.
pub open spec fn key_is(state: State, weight: int, volume: int) -> bool {
    state.weight == weight && state.volume == volume
}

/// Whether some state of the list stands for `(weight, volume)`.
pub open spec fn has_state(states: Seq<State>, weight: int, volume: int) -> bool {
    exists|j: int| 0 <= j < states.len() && key_is(#[trigger] states[j], weight, volume)
}

/// A state is sound for the first `n` candidates: its pair is within
/// both limits and reachable, and its subset is the one that stands
/// for the pair.
pub open spec fn state_ok(
    state: State,
    costs: Seq<(u64, u64)>,
    n: int,
    capacity_weight: u64,
    capacity_volume: u64,
) -> bool {
    &&& state.weight <= capacity_weight
    &&& state.volume <= capacity_volume
    &&& reachable(costs, n, state.weight as int, state.volume as int)
    &&& picks_of(state.picks@) == chosen(costs, n, state.weight as int, state.volume as int)
    &&& forall|i: int| 0 <= i < state.picks@.len() ==> #[trigger] state.picks@[i] < n
}

/// Every state of the list is sound.
pub open spec fn states_ok(
    states: Seq<State>,
    costs: Seq<(u64, u64)>,
    n: int,
    capacity_weight: u64,
    capacity_volume: u64,
) -> bool {
    forall|j: int|
        0 <= j < states.len() ==> state_ok(
            #[trigger] states[j],
            costs,
            n,
            capacity_weight,
            capacity_volume,
        )
}

/// Every pair that the first `n` candidates reach within both limits
/// has a state.
pub open spec fn complete(
    states: Seq<State>,
    costs: Seq<(u64, u64)>,
    n: int,
    capacity_weight: u64,
    capacity_volume: u64,
) -> bool {
    forall|w: int, v: int|
        #[trigger] reachable(costs, n, w, v) && w <= capacity_weight && v <= capacity_volume
            ==> has_state(states, w, v)
}

/// A list keeps the pairs it has when a state is appended, and has the
/// pair of the appended state.
pub proof fn lemma_has_state_push(states: Seq<State>, state: State, weight: int, volume: int)
    ensures
        has_state(states, weight, volume) ==> has_state(states.push(state), weight, volume),
        has_state(states.push(state), state.weight as int, state.volume as int),
{
    let longer = states.push(state);
    if has_state(states, weight, volume) {
        let j = choose|j: int| 0 <= j < states.len() && key_is(#[trigger] states[j], weight, volume);
        assert(key_is(longer[j], weight, volume));
    }
    assert(key_is(longer[states.len() as int], state.weight as int, state.volume as int));
}

/// The key of a pair of sums in the index of states: pairs are
/// ordered by weight first, then by volume.
pub open spec fn key_of(weight: int, volume: int) -> int {
    weight * 0x1_0000_0000_0000_0000 + volume
}

/// Whether `index` is an index of the states: every state's key is in
/// it, and every key in it leads to the state that stands for it.
pub open spec fn indexes(index: Map<u128, usize>, states: Seq<State>) -> bool {
    &&& forall|j: int|
        0 <= j < states.len() ==> index.contains_key(
            key_of((#[trigger] states[j]).weight as int, states[j].volume as int) as u128,
        )
    &&& forall|k: u128| #[trigger]
        index.contains_key(k) ==> index[k] < states.len() && key_of(
            states[index[k] as int].weight as int,
            states[index[k] as int].volume as int,
        ) == k
}

/// A key is in the index exactly where a state stands for its pair.
pub proof fn lemma_index_finds(index: Map<u128, usize>, states: Seq<State>, weight: u64, volume: u64)
    requires
        indexes(index, states),
    ensures
        index.contains_key(key_of(weight as int, volume as int) as u128) == has_state(
            states,
            weight as int,
            volume as int,
        ),
{
    let key = key_of(weight as int, volume as int) as u128;
    if index.contains_key(key) {
        let j = index[key] as int;
        assert(key_is(states[j], weight as int, volume as int));
    }
    if has_state(states, weight as int, volume as int) {
        let j = choose|j: int|
            0 <= j < states.len() && key_is(#[trigger] states[j], weight as int, volume as int);
        assert(index.contains_key(key_of(states[j].weight as int, states[j].volume as int) as u128));
    }
}

/// Tests whether the key is in the index.
pub fn index_contains(index: &BTreeMap<u128, usize>, key: u128) -> (found: bool)
    ensures
        found == index@.contains_key(key),
{
    broadcast use vstd::laws_cmp::group_laws_cmp;
    broadcast use vstd::std_specs::btree::group_btree_axioms;

    index.contains_key(&key)
}

/// Enters the key with the position of its state.
pub fn index_insert(index: &mut BTreeMap<u128, usize>, key: u128, position: usize)
    ensures
        final(index)@ == old(index)@.insert(key, position),
{
    broadcast use vstd::laws_cmp::group_laws_cmp;
    broadcast use vstd::std_specs::btree::group_btree_axioms;

    index.insert(key, position);
}

/// The key of a pair of sums.
pub fn state_key(weight: u64, volume: u64) -> (key: u128)
    ensures
        key == key_of(weight as int, volume as int),
{
    (weight as u128) * 0x1_0000_0000_0000_0000 + (volume as u128)
}

/// A copy of a list of indices.
pub fn copy_picks(picks: &Vec<usize>) -> (r: Vec<usize>)
    ensures
        r@ == picks@,
{
    let mut r: Vec<usize> = Vec::new();
    let mut i: usize = 0;
    while i < picks.len()
        invariant
            i <= picks.len(),
            r@ == picks@.take(i as int),
        decreases picks.len() - i,
    {
        r.push(picks[i]);
        assert(r@ =~= picks@.take(i as int + 1));
        i = i + 1;
    }
    assert(picks@.take(i as int) =~= picks@);
    r
}

/// Finds the best feasible pair of sums and the subset that stands
/// for it.
///
/// The states start from the empty subset. Each candidate in turn is
/// added to every state known before it; a sum that keeps both limits
/// and has no state yet gets one, and a sum that has a state keeps it.
/// The states stand in the order in which they were found; an ordered
/// map from the key of each pair to the position of its state tells
/// whether a sum has a state.
/// Where sums rarely coincide the number of states can double with
/// every candidate, so callers bound the number of candidates.
pub fn best_selection(costs: &Vec<(u64, u64)>, capacity_weight: u64, capacity_volume: u64) -> (r: (
    u64,
    u64,
    Vec<usize>,
))
    ensures
        is_best(costs@, capacity_weight as int, capacity_volume as int, r.0 as int, r.1 as int),
        picks_of(r.2@) == chosen(costs@, costs@.len() as int, r.0 as int, r.1 as int),
        (r.0 as int, r.1 as int) == optimum(costs@, capacity_weight as int, capacity_volume as int),
        picks_of(r.2@) == selection(costs@, capacity_weight as int, capacity_volume as int),
        forall|i: int| 0 <= i < r.2@.len() ==> #[trigger] r.2@[i] < costs@.len(),
{
    let mut states: Vec<State> = Vec::new();
    let mut index: BTreeMap<u128, usize> = BTreeMap::new();
    states.push(State { weight: 0, volume: 0, picks: Vec::new() });
    index_insert(&mut index, state_key(0, 0), 0);
    proof {
        assert(picks_of(states@[0].picks@) =~= chosen(costs@, 0, 0, 0));
        assert forall|w: int, v: int| #[trigger]
            reachable(costs@, 0, w, v) && w <= capacity_weight && v
                <= capacity_volume implies has_state(states@, w, v) by {
            assert(key_is(states@[0], w, v));
        }
    }
    let mut k: usize = 0;
    while k < costs.len()
        invariant
            k <= costs.len(),
            states@.len() >= 1,
            indexes(index@, states@),
            states_ok(states@, costs@, k as int, capacity_weight, capacity_volume),
            complete(states@, costs@, k as int, capacity_weight, capacity_volume),
        decreases costs.len() - k,
    {
        let cost_weight: u64 = costs[k].0;
        let cost_volume: u64 = costs[k].1;
        let ghost known = states@;
        let count: usize = states.len();
        proof {
            assert forall|j: int| 0 <= j < states@.len() implies state_ok(
                #[trigger] states@[j],
                costs@,
                k as int + 1,
                capacity_weight,
                capacity_volume,
            ) by {
                assert(state_ok(states@[j], costs@, k as int, capacity_weight, capacity_volume));
            }
        }
        let mut j: usize = 0;
        while j < count
            invariant
                j <= count,
                k < costs.len(),
                count == known.len(),
                states@.len() >= count,
                indexes(index@, states@),
                cost_weight == costs@[k as int].0,
                cost_volume == costs@[k as int].1,
                forall|i: int| 0 <= i < count ==> #[trigger] states@[i] == known[i],
                states_ok(states@, costs@, k as int + 1, capacity_weight, capacity_volume),
                states_ok(known, costs@, k as int, capacity_weight, capacity_volume),
                complete(known, costs@, k as int, capacity_weight, capacity_volume),
                forall|w: int, v: int| has_state(known, w, v) ==> #[trigger] has_state(states@, w, v),
                forall|i: int|
                    0 <= i < j && (#[trigger] known[i]).weight + cost_weight <= capacity_weight
                        && known[i].volume + cost_volume <= capacity_volume ==> has_state(
                        states@,
                        known[i].weight + cost_weight,
                        known[i].volume + cost_volume,
                    ),
            decreases count - j,
        {
            let state_weight: u64 = states[j].weight;
            let state_volume: u64 = states[j].volume;
            assert(states@[j as int] == known[j as int]);
            assert(state_ok(known[j as int], costs@, k as int, capacity_weight, capacity_volume));
            if cost_weight <= capacity_weight - state_weight && cost_volume <= capacity_volume
                - state_volume {
                let new_weight: u64 = state_weight + cost_weight;
                let new_volume: u64 = state_volume + cost_volume;
                let key = state_key(new_weight, new_volume);
                proof {
                    lemma_index_finds(index@, states@, new_weight, new_volume);
                }
                if !index_contains(&index, key) {
                    let mut picks = copy_picks(&states[j].picks);
                    picks.push(k);
                    let ghost prior = states@;
                    let ghost prior_index = index@;
                    let state = State { weight: new_weight, volume: new_volume, picks };
                    let position: usize = states.len();
                    states.push(state);
                    index_insert(&mut index, key, position);
                    proof {
                        assert forall|i: int| 0 <= i < states@.len() implies index@.contains_key(
                            key_of((#[trigger] states@[i]).weight as int, states@[i].volume as int)
                                as u128,
                        ) by {
                            if i < prior.len() {
                                assert(states@[i] == prior[i]);
                            }
                        }
                        assert forall|q: u128| #[trigger] index@.contains_key(q) implies index@[q]
                            < states@.len() && key_of(
                            states@[index@[q] as int].weight as int,
                            states@[index@[q] as int].volume as int,
                        ) == q by {
                            if q != key {
                                assert(prior_index.contains_key(q));
                                assert(states@[index@[q] as int] == prior[prior_index[q] as int]);
                            }
                        }
                        assert(!has_state(known, new_weight as int, new_volume as int));
                        assert(!reachable(costs@, k as int, new_weight as int, new_volume as int));
                        assert(picks_of(state.picks@) =~= picks_of(known[j as int].picks@).push(
                            k as int,
                        ));
                        assert(state_ok(
                            state,
                            costs@,
                            k as int + 1,
                            capacity_weight,
                            capacity_volume,
                        ));
                        assert forall|i: int| 0 <= i < states@.len() implies state_ok(
                            #[trigger] states@[i],
                            costs@,
                            k as int + 1,
                            capacity_weight,
                            capacity_volume,
                        ) by {
                            if i < prior.len() {
                                assert(states@[i] == prior[i]);
                            }
                        }
                        assert forall|w: int, v: int| has_state(prior, w, v) implies #[trigger]
                            has_state(states@, w, v) by {
                            lemma_has_state_push(prior, state, w, v);
                        }
                        lemma_has_state_push(prior, state, 0, 0);
                    }
                }
            }
            j = j + 1;
        }
        proof {
            assert forall|w: int, v: int| #[trigger]
                reachable(costs@, k as int + 1, w, v) && w <= capacity_weight && v
                    <= capacity_volume implies has_state(states@, w, v) by {
                if reachable(costs@, k as int, w, v) {
                    assert(has_state(known, w, v));
                } else {
                    let pw = w - cost_weight;
                    let pv = v - cost_volume;
                    assert(reachable(costs@, k as int, pw, pv));
                    assert(has_state(known, pw, pv));
                    let i = choose|i: int|
                        0 <= i < known.len() && key_is(#[trigger] known[i], pw, pv);
                    assert(known[i].weight + cost_weight == w);
                    assert(known[i].volume + cost_volume == v);
                }
            }
        }
        k = k + 1;
    }
    let mut best: usize = 0;
    let mut j: usize = 1;
    while j < states.len()
        invariant
            best < states.len(),
            1 <= j <= states.len(),
            forall|i: int|
                0 <= i < j ==> (#[trigger] states@[i]).weight < states@[best as int].weight || (
                states@[i].weight == states@[best as int].weight && states@[i].volume
                    <= states@[best as int].volume),
        decreases states.len() - j,
    {
        if states[j].weight > states[best].weight || (states[j].weight == states[best].weight
            && states[j].volume > states[best].volume) {
            best = j;
        }
        j = j + 1;
    }
    let weight: u64 = states[best].weight;
    let volume: u64 = states[best].volume;
    let picks = copy_picks(&states[best].picks);
    proof {
        let n = costs@.len() as int;
        let cw = capacity_weight as int;
        let cv = capacity_volume as int;
        assert(state_ok(states@[best as int], costs@, n, capacity_weight, capacity_volume));
        assert forall|w: int, v: int| #[trigger] feasible(costs@, cw, cv, w, v) implies w < weight
            || (w == weight && v <= volume) by {
            assert(has_state(states@, w, v));
            let i = choose|i: int| 0 <= i < states@.len() && key_is(#[trigger] states@[i], w, v);
            assert(states@[i].weight == w);
        }
        assert(is_best(costs@, cw, cv, weight as int, volume as int));
        let other = optimum(costs@, cw, cv);
        assert(is_best(costs@, cw, cv, (weight as int, volume as int).0, (weight as int, volume as int).1));
        lemma_best_is_unique(costs@, cw, cv, other, (weight as int, volume as int));
    }
    (weight, volume, picks)
}

/// The candidates at the indices `picks`, in this order.
pub open spec fn picked(items: Seq<DimensionLessOrderView>, picks: Seq<int>) -> Seq<
    DimensionLessOrderView,
> {
    picks.map_values(|i: int| items[i])
}

/// The costs of the candidates where only weight counts.
pub open spec fn costs_by_weight(items: Seq<DimensionLessOrderView>) -> Seq<(u64, u64)> {
    items.map_values(|o: DimensionLessOrderView| (o.weight, 0u64))
}

/// The costs of the candidates where weight and volume count; an
/// unknown volume counts as none.
pub open spec fn costs_by_weight_and_volume(items: Seq<DimensionLessOrderView>) -> Seq<(u64, u64)> {
    items.map_values(|o: DimensionLessOrderView| (o.weight, o.volume_or_zero()))
}

/// A subset without its last index is a subset, and the last index is
/// one of the first `n`.
pub proof fn lemma_selection_drop_last(picks: Seq<int>, n: int)
    requires
        is_selection(picks, n),
        picks.len() > 0,
    ensures
        is_selection(picks.drop_last(), n),
        0 <= picks.last() < n,
{
    let rest = picks.drop_last();
    assert forall|i: int| 0 <= i < rest.len() implies 0 <= #[trigger] rest[i] < n by {
        assert(rest[i] == picks[i]);
    }
    assert forall|i: int, j: int| 0 <= i < j < rest.len() implies #[trigger] rest[i]
        < #[trigger] rest[j] by {
        assert(rest[i] == picks[i] && rest[j] == picks[j]);
    }
    assert(0 <= picks[picks.len() - 1] < n);
}

/// The selected candidates weigh, and take up, what the costs at
/// their indices add up to.
pub proof fn lemma_picked_sums(items: Seq<DimensionLessOrderView>, picks: Seq<int>)
    requires
        is_selection(picks, items.len() as int),
    ensures
        summed_weight(picked(items, picks), picks.len() as int) == picked_weight(
            costs_by_weight(items),
            picks,
        ),
        summed_weight(picked(items, picks), picks.len() as int) == picked_weight(
            costs_by_weight_and_volume(items),
            picks,
        ),
        summed_volume(picked(items, picks), picks.len() as int) == picked_volume(
            costs_by_weight_and_volume(items),
            picks,
        ),
    decreases picks.len(),
{
    if picks.len() > 0 {
        let rest = picks.drop_last();
        lemma_selection_drop_last(picks, items.len() as int);
        lemma_picked_sums(items, rest);
        lemma_summed_prefix(picked(items, rest), picked(items, picks), rest.len() as int);
        assert(0 <= picks[picks.len() - 1] < items.len());
    }
}

/// Where only weight counts, no subset takes up any volume.
pub proof fn lemma_no_volume(items: Seq<DimensionLessOrderView>, picks: Seq<int>)
    requires
        is_selection(picks, items.len() as int),
    ensures
        picked_volume(costs_by_weight(items), picks) == 0,
    decreases picks.len(),
{
    if picks.len() > 0 {
        let rest = picks.drop_last();
        lemma_selection_drop_last(picks, items.len() as int);
        lemma_no_volume(items, rest);
        assert(0 <= picks[picks.len() - 1] < items.len());
    }
}

/// The sums of the first `n` orders depend on these orders only.
pub proof fn lemma_summed_prefix(
    shorter: Seq<DimensionLessOrderView>,
    longer: Seq<DimensionLessOrderView>,
    n: int,
)
    requires
        0 <= n <= shorter.len(),
        shorter.len() <= longer.len(),
        forall|k: int| 0 <= k < shorter.len() ==> shorter[k] == longer[k],
    ensures
        summed_weight(shorter, n) == summed_weight(longer, n),
        summed_volume(shorter, n) == summed_volume(longer, n),
    decreases n,
{
    if n > 0 {
        lemma_summed_prefix(shorter, longer, n - 1);
    }
}

/// The selection keeps both limits, and no subset of the candidates
/// that keeps both limits weighs more than it.
pub proof fn lemma_selection_is_optimal(
    items: Seq<DimensionLessOrderView>,
    costs: Seq<(u64, u64)>,
    capacity_weight: int,
    capacity_volume: int,
)
    requires
        costs == costs_by_weight(items) || costs == costs_by_weight_and_volume(items),
        is_best(
            costs,
            capacity_weight,
            capacity_volume,
            optimum(costs, capacity_weight, capacity_volume).0,
            optimum(costs, capacity_weight, capacity_volume).1,
        ),
    ensures
        is_selection(selection(costs, capacity_weight, capacity_volume), items.len() as int),
        within_limits(
            picked(items, selection(costs, capacity_weight, capacity_volume)),
            costs == costs_by_weight_and_volume(items),
            capacity_weight,
            capacity_volume,
        ),
        forall|picks: Seq<int>|
            #[trigger] is_selection(picks, items.len() as int) && picked_weight(costs, picks)
                <= capacity_weight && picked_volume(costs, picks) <= capacity_volume
                ==> picked_weight(costs, picks) <= summed_weight(
                picked(items, selection(costs, capacity_weight, capacity_volume)),
                selection(costs, capacity_weight, capacity_volume).len() as int,
            ),
{
    let best = optimum(costs, capacity_weight, capacity_volume);
    let chose = selection(costs, capacity_weight, capacity_volume);
    lemma_chosen_sums(costs, costs.len() as int, best.0, best.1);
    lemma_picked_sums(items, chose);
    assert forall|picks: Seq<int>|
        #[trigger] is_selection(picks, items.len() as int) && picked_weight(costs, picks)
            <= capacity_weight && picked_volume(costs, picks)
            <= capacity_volume implies picked_weight(costs, picks) <= summed_weight(
        picked(items, chose),
        chose.len() as int,
    ) by {
        lemma_best_is_optimal(costs, capacity_weight, capacity_volume, best.0, best.1, picks);
    }
}

/// Whether the orders together keep the weight limit and, where
/// volume counts, the volume limit.
pub open spec fn within_limits(
    orders: Seq<DimensionLessOrderView>,
    volume_counts: bool,
    capacity_weight: int,
    capacity_volume: int,
) -> bool {
    summed_weight(orders, orders.len() as int) <= capacity_weight && (volume_counts
        ==> summed_volume(orders, orders.len() as int) <= capacity_volume)
}

/// Copies of the candidates at the indices `picks`, in this order.
pub fn collect_picked(items: &[DimensionLessOrder], picks: &Vec<usize>) -> (r: Vec<
    DimensionLessOrder,
>)
    requires
        forall|i: int| 0 <= i < picks@.len() ==> #[trigger] picks@[i] < items@.len(),
    ensures
        order_views(r@) == picked(order_views(items@), picks_of(picks@)),
{
    let mut r: Vec<DimensionLessOrder> = Vec::new();
    let mut i: usize = 0;
    while i < picks.len()
        invariant
            i <= picks.len(),
            r@.len() == i,
            forall|i: int| 0 <= i < picks@.len() ==> #[trigger] picks@[i] < items@.len(),
            forall|n: int| 0 <= n < i ==> (#[trigger] r@[n])@ == items@[picks@[n] as int]@,
        decreases picks.len() - i,
    {
        r.push(items[picks[i]].duplicate());
        i = i + 1;
    }
    assert(order_views(r@) =~= picked(order_views(items@), picks_of(picks@)));
    r
}

/// Selects, from `items`, a heaviest subset whose summed weight does
/// not exceed `capacity`.
///
/// The result holds copies of the selected candidates in the order in
/// which they stand in `items`. Among several heaviest subsets it is
/// the one that `chosen` names for the greatest reachable weight.
pub fn knapsack_1d_float(items: &[DimensionLessOrder], capacity: u64) -> (r: Vec<
    DimensionLessOrder,
>)
    ensures
        order_views(r@) == picked(
            order_views(items@),
            selection(costs_by_weight(order_views(items@)), capacity as int, 0),
        ),
        is_best(
            costs_by_weight(order_views(items@)),
            capacity as int,
            0,
            optimum(costs_by_weight(order_views(items@)), capacity as int, 0).0,
            optimum(costs_by_weight(order_views(items@)), capacity as int, 0).1,
        ),
        within_limits(order_views(r@), false, capacity as int, 0),
        forall|picks: Seq<int>|
            #[trigger] is_selection(picks, items@.len() as int) && picked_weight(
                costs_by_weight(order_views(items@)),
                picks,
            ) <= capacity ==> picked_weight(costs_by_weight(order_views(items@)), picks)
                <= summed_weight(order_views(r@), r@.len() as int),
{
    let mut costs: Vec<(u64, u64)> = Vec::new();
    let mut i: usize = 0;
    while i < items.len()
        invariant
            i <= items.len(),
            costs@ == costs_by_weight(order_views(items@)).take(i as int),
        decreases items.len() - i,
    {
        costs.push((items[i].weight, 0));
        assert(costs@ =~= costs_by_weight(order_views(items@)).take(i as int + 1));
        i = i + 1;
    }
    assert(costs@ =~= costs_by_weight(order_views(items@)));
    let best = best_selection(&costs, capacity, 0);
    proof {
        lemma_selection_is_optimal(order_views(items@), costs@, capacity as int, 0);
        assert forall|picks: Seq<int>| #[trigger]
            is_selection(picks, items@.len() as int) implies picked_volume(costs@, picks)
            == 0 by {
            lemma_no_volume(order_views(items@), picks);
        }
    }
    collect_picked(items, &best.2)
}

/// Selects, from `items`, a heaviest subset whose summed weight does
/// not exceed `capacity_weight` and whose summed volume does not
/// exceed `capacity_volume`. A candidate without a volume takes up
/// none.
///
/// The result holds copies of the selected candidates in the order in
/// which they stand in `items`. Among several heaviest subsets it is
/// one of greatest volume: the one that `chosen` names for the best
/// feasible pair of sums.
pub fn knapsack_2d_float(
    items: &[DimensionLessOrder],
    capacity_weight: u64,
    capacity_volume: u64,
) -> (r: Vec<DimensionLessOrder>)
    ensures
        order_views(r@) == picked(
            order_views(items@),
            selection(
                costs_by_weight_and_volume(order_views(items@)),
                capacity_weight as int,
                capacity_volume as int,
            ),
        ),
        is_best(
            costs_by_weight_and_volume(order_views(items@)),
            capacity_weight as int,
            capacity_volume as int,
            optimum(
                costs_by_weight_and_volume(order_views(items@)),
                capacity_weight as int,
                capacity_volume as int,
            ).0,
            optimum(
                costs_by_weight_and_volume(order_views(items@)),
                capacity_weight as int,
                capacity_volume as int,
            ).1,
        ),
        within_limits(order_views(r@), true, capacity_weight as int, capacity_volume as int),
        forall|picks: Seq<int>|
            #[trigger] is_selection(picks, items@.len() as int) && picked_weight(
                costs_by_weight_and_volume(order_views(items@)),
                picks,
            ) <= capacity_weight && picked_volume(
                costs_by_weight_and_volume(order_views(items@)),
                picks,
            ) <= capacity_volume ==> picked_weight(
                costs_by_weight_and_volume(order_views(items@)),
                picks,
            ) <= summed_weight(order_views(r@), r@.len() as int),
{
    let mut costs: Vec<(u64, u64)> = Vec::new();
    let mut i: usize = 0;
    while i < items.len()
        invariant
            i <= items.len(),
            costs@ == costs_by_weight_and_volume(order_views(items@)).take(i as int),
        decreases items.len() - i,
    {
        let item_volume: u64 = match items[i].volume {
            Some(v) => v,
            None => 0,
        };
        costs.push((items[i].weight, item_volume));
        assert(costs@ =~= costs_by_weight_and_volume(order_views(items@)).take(i as int + 1));
        i = i + 1;
    }
    assert(costs@ =~= costs_by_weight_and_volume(order_views(items@)));
    let best = best_selection(&costs, capacity_weight, capacity_volume);
    proof {
        lemma_selection_is_optimal(
            order_views(items@),
            costs@,
            capacity_weight as int,
            capacity_volume as int,
        );
    }
    collect_picked(items, &best.2)
}

} // verus!
