//! Laws of the container, stated over the model and proved once and for all:
//! what inserting guarantees to later lookups, how depth is limited, how
//! level-wide key uniqueness shows up in resolution, what removal cuts, and
//! how key enumeration and lookup agree.

use vstd::prelude::*;

verus! {

use crate::errors::LeveledHashMapError;
use crate::model::{
    child_step, descendants, inv, lemma_resolve_from_characterize, lemma_steps_imply_found,
    resolve, spec_insert, spec_remove, step_ok, target_entry, target_level, ChildMap, LevelMap,
    Resolution,
};

/// Round trip: whenever an insert succeeds — and the chain's own prefix
/// resolves, so the new entry is reachable through it — resolving the same
/// chain afterwards finds the entry, holding exactly the inserted value under
/// the chain's second-to-last element (or no parent at level 0).
proof fn lemma_round_trip_found<V>(
    pools: Seq<LevelMap<V>>,
    subs: Seq<ChildMap>,
    chain: Seq<u64>,
    value: V,
)
    requires
        inv(pools, subs),
        resolve(pools, chain, 0) is Found,
    ensures
        ({
            let eff = spec_insert(pools, subs, chain, value);
            let parent = if chain.len() >= 2 {
                Some(chain[chain.len() - 2])
            } else {
                None
            };
            &&& resolve(eff.pools, chain, 0) == (Resolution::Found { parent })
            &&& target_entry(eff.pools, chain, 0).1 == value
        }),
{
    let eff = spec_insert(pools, subs, chain, value);
    let n = chain.len() as int;
    let key = chain[n - 1];
    let parent = if n >= 2 {
        Some(chain[n - 2])
    } else {
        None
    };
    lemma_resolve_from_characterize(pools, chain, 0, 0);
    assert(step_ok(pools, chain, 0, n - 1));
    assert(parent == pools[n - 1][key].0);
    assert(eff.pools == pools.update(n - 1, pools[n - 1].insert(key, (parent, value))));
    assert forall|j: int| 0 <= j < n implies step_ok(eff.pools, chain, 0, j) by {
        assert(step_ok(pools, chain, 0, j));
    }
    lemma_steps_imply_found(eff.pools, chain, 0, 0);
}

proof fn lemma_round_trip_new_level<V>(
    pools: Seq<LevelMap<V>>,
    subs: Seq<ChildMap>,
    chain: Seq<u64>,
    value: V,
)
    requires
        inv(pools, subs),
        chain.len() == pools.len() + 1,
        resolve(pools, chain, 0) is TooMany,
        chain.len() >= 2 ==> resolve(pools, chain.drop_last(), 0) is Found && pools[chain.len()
            - 2].contains_key(chain[chain.len() - 2]),
    ensures
        ({
            let eff = spec_insert(pools, subs, chain, value);
            let parent = if chain.len() >= 2 {
                Some(chain[chain.len() - 2])
            } else {
                None
            };
            &&& resolve(eff.pools, chain, 0) == (Resolution::Found { parent })
            &&& target_entry(eff.pools, chain, 0).1 == value
        }),
{
    let eff = spec_insert(pools, subs, chain, value);
    let n = chain.len() as int;
    let key = chain[n - 1];
    if n == 1 {
        assert(step_ok(eff.pools, chain, 0, 0));
        lemma_steps_imply_found(eff.pools, chain, 0, 0);
    } else {
        lemma_resolve_from_characterize(pools, chain.drop_last(), 0, 0);
        assert(forall|j: int| 0 <= j < n - 1 ==> chain.drop_last()[j] == chain[j]);
        assert forall|j: int| 0 <= j < n implies step_ok(eff.pools, chain, 0, j) by {
            if j < n - 1 {
                assert(step_ok(pools, chain.drop_last(), 0, j));
                assert(eff.pools[j] == pools[j]);
                if j > 0 {
                    assert(eff.pools[j - 1] == pools[j - 1]);
                }
            }
        }
        lemma_steps_imply_found(eff.pools, chain, 0, 0);
    }
}

proof fn lemma_round_trip_new_leaf<V>(
    pools: Seq<LevelMap<V>>,
    subs: Seq<ChildMap>,
    chain: Seq<u64>,
    value: V,
)
    requires
        inv(pools, subs),
        chain.len() + 0 <= pools.len(),
        resolve(pools, chain, 0) matches Resolution::NotExist { level, .. } && level == chain.len()
            - 1,
    ensures
        ({
            let eff = spec_insert(pools, subs, chain, value);
            let parent = if chain.len() >= 2 {
                Some(chain[chain.len() - 2])
            } else {
                None
            };
            &&& resolve(eff.pools, chain, 0) == (Resolution::Found { parent })
            &&& target_entry(eff.pools, chain, 0).1 == value
        }),
{
    let eff = spec_insert(pools, subs, chain, value);
    let n = chain.len() as int;
    let key = chain[n - 1];
    lemma_resolve_from_characterize(pools, chain, 0, 0);
    assert forall|j: int| 0 <= j < n implies step_ok(eff.pools, chain, 0, j) by {
        if j < n - 1 {
            assert(step_ok(pools, chain, 0, j));
        }
    }
    lemma_steps_imply_found(eff.pools, chain, 0, 0);
}

#[verifier::rlimit(100)]
#[verifier::spinoff_prover]
pub proof fn lemma_insert_get_round_trip<V>(
    pools: Seq<LevelMap<V>>,
    subs: Seq<ChildMap>,
    chain: Seq<u64>,
    value: V,
)
    requires
        inv(pools, subs),
        spec_insert(pools, subs, chain, value).result is Ok,
        chain.len() >= 2 ==> resolve(pools, chain.drop_last(), 0) is Found,
    ensures
        ({
            let eff = spec_insert(pools, subs, chain, value);
            let parent = if chain.len() >= 2 {
                Some(chain[chain.len() - 2])
            } else {
                None
            };
            &&& resolve(eff.pools, chain, 0) == (Resolution::Found { parent })
            &&& target_entry(eff.pools, chain, 0).1 == value
        }),
{
    let n = chain.len() as int;
    assert(n >= 1);
    assert(n - 1 <= pools.len());
    match resolve(pools, chain, 0) {
        Resolution::Found { .. } => {
            lemma_round_trip_found(pools, subs, chain, value);
        },
        Resolution::TooMany => {
            if n <= pools.len() {
                lemma_resolve_from_characterize(pools, chain, 0, 0);
            }
            assert(n == pools.len() + 1);
            assert(n >= 2 ==> pools[n - 2].contains_key(chain[n - 2]));
            lemma_round_trip_new_level(pools, subs, chain, value);
        },
        Resolution::NotExist { level, .. } => {
            assert(level == n - 1);
            lemma_round_trip_new_leaf(pools, subs, chain, value);
        },
        _ => {
            assert(false);
        },
    }
}

/// Overwrite: inserting over an entry the chain already resolves to returns
/// exactly the previous value, and resolving the chain afterwards yields the
/// new one.
pub proof fn lemma_insert_overwrite<V>(
    pools: Seq<LevelMap<V>>,
    subs: Seq<ChildMap>,
    chain: Seq<u64>,
    v2: V,
)
    requires
        inv(pools, subs),
        resolve(pools, chain, 0) is Found,
    ensures
        ({
            let eff = spec_insert(pools, subs, chain, v2);
            &&& eff.result == Ok::<Option<V>, LeveledHashMapError>(
                Some(target_entry(pools, chain, 0).1),
            )
            &&& resolve(eff.pools, chain, 0) is Found
            &&& target_entry(eff.pools, chain, 0).1 == v2
        }),
{
    let n = chain.len() as int;
    lemma_resolve_from_characterize(pools, chain, 0, 0);
    assert(n - 1 <= pools.len());
    if n >= 2 {
        // A resolving chain's prefix resolves as well.
        assert(forall|j: int| 0 <= j < n - 1 ==> chain.drop_last()[j] == chain[j]);
        assert forall|j: int| 0 <= j < n - 1 implies step_ok(pools, chain.drop_last(), 0, j) by {
            assert(step_ok(pools, chain, 0, j));
        }
        lemma_steps_imply_found(pools, chain.drop_last(), 0, 0);
    }
    lemma_insert_get_round_trip(pools, subs, chain, v2);
}

/// Depth limit: a chain that would skip past the one-new-level allowance is
/// rejected as too long; a chain addressing exactly one level past the
/// deepest, whose parent entry exists, succeeds.
pub proof fn lemma_insert_depth_limit<V>(
    pools: Seq<LevelMap<V>>,
    subs: Seq<ChildMap>,
    chain: Seq<u64>,
    value: V,
)
    requires
        inv(pools, subs),
    ensures
        chain.len() > pools.len() + 1 ==> spec_insert(pools, subs, chain, value).result
            == Err::<Option<V>, LeveledHashMapError>(LeveledHashMapError::KeyTooMany),
        (chain.len() == pools.len() + 1 && (chain.len() >= 2 ==> pools[chain.len()
            - 2].contains_key(chain[chain.len() - 2]))) ==> spec_insert(
            pools,
            subs,
            chain,
            value,
        ).result == Ok::<Option<V>, LeveledHashMapError>(None),
{
    let n = chain.len() as int;
    if n == pools.len() + 1 && (n >= 2 ==> pools[n - 2].contains_key(chain[n - 2])) {
        assert(resolve(pools, chain, 0) is TooMany);
    }
}

/// Level-wide keys: an entry is found under its own level by a single-key
/// chain whatever its lineage, while a two-key chain naming a different
/// parent is rejected with the entry's recorded parent.
pub proof fn lemma_level_wide_lookup<V>(
    pools: Seq<LevelMap<V>>,
    subs: Seq<ChildMap>,
    x: u64,
    a: u64,
    b: u64,
    l: int,
)
    requires
        inv(pools, subs),
        1 <= l < pools.len(),
        pools[l].contains_key(x),
        pools[l][x].0 == Some(a),
        pools[l - 1].contains_key(b),
        b != a,
    ensures
        resolve(pools, seq![x], l) == (Resolution::Found { parent: Some(a) }),
        resolve(pools, seq![b, x], l - 1) == (Resolution::Incorrect {
            level: l,
            key: x,
            stored_parent: Some(a),
        }),
{
    assert(step_ok(pools, seq![x], l, 0));
    lemma_steps_imply_found(pools, seq![x], l, 0);
    let two = seq![b, x];
    assert(two[0] == b && two[1] == x && two.len() == 2);
    assert(crate::model::resolve_from(pools, two, l - 1, 1) == (Resolution::Incorrect {
        level: l,
        key: x,
        stored_parent: Some(a),
    }));
    assert(resolve(pools, two, l - 1) == (Resolution::Incorrect {
        level: l,
        key: x,
        stored_parent: Some(a),
    }));
}

/// Removal completeness: a successful removal returns, at each index `d`, a
/// fragment covering exactly the descendants at relative depth `d + 1` —
/// index 0 the direct children, index 1 the grandchildren — and afterwards
/// neither the entry nor any returned descendant exists on its level.
pub proof fn lemma_remove_completeness<V>(
    pools: Seq<LevelMap<V>>,
    subs: Seq<ChildMap>,
    chain: Seq<u64>,
    start: int,
)
    requires
        inv(pools, subs),
        0 <= start,
        resolve(pools, chain, start) is Found,
    ensures
        ({
            let eff = spec_remove(pools, subs, chain, start);
            let level = target_level(chain, start);
            let key = chain.last();
            &&& eff.result is Ok
            &&& ({
                let er = eff.result.unwrap();
                &&& forall|d: int|
                    0 <= d < er.2.len() ==> (#[trigger] er.2[d]).dom() == descendants(
                        subs,
                        level,
                        key,
                        (d + 1) as nat,
                    )
                &&& er.2.len() >= 1 ==> er.2[0].dom() == subs[level][key]
                &&& !eff.pools[level].contains_key(key)
                &&& forall|d: int, k2: u64|
                    0 <= d < er.2.len() && (#[trigger] er.2[d]).dom().contains(k2)
                        ==> !(#[trigger] eff.pools[level + 1 + d].contains_key(k2))
            })
        }),
{
    let eff = spec_remove(pools, subs, chain, start);
    let level = target_level(chain, start);
    let key = chain.last();
    lemma_resolve_from_characterize(pools, chain, start, 0);
    assert(step_ok(pools, chain, start, chain.len() - 1));
    assert(pools[level].contains_key(key));
    assert(subs[level].dom() == pools[level].dom());
    let er = eff.result.unwrap();
    assert forall|d: int| 0 <= d < er.2.len() implies (#[trigger] er.2[d]).dom() == descendants(
        subs,
        level,
        key,
        (d + 1) as nat,
    ) by {
        crate::model::lemma_descendants_step(pools, subs, level, key, d + 1);
        assert(er.2[d] == pools[level + 1 + d].restrict(
            descendants(subs, level, key, (d + 1) as nat),
        ));
        assert(er.2[d].dom() =~= descendants(subs, level, key, (d + 1) as nat));
    }
    assert(descendants(subs, level, key, 0) =~= set![key]);
    if er.2.len() >= 1 {
        assert(subs[level].contains_key(key));
        crate::model::lemma_child_step_extend(subs, level, Set::empty(), key);
        assert(child_step(subs, level, Set::empty()) =~= Set::<u64>::empty());
        assert(Set::empty().insert(key) =~= set![key]);
        assert(Set::<u64>::empty().union(subs[level][key]) =~= subs[level][key]);
        assert(descendants(subs, level, key, 1) == child_step(subs, level, set![key]));
        assert(descendants(subs, level, key, 1) == subs[level][key]);
    }
    assert(eff.pools[level] == pools[level].remove_keys(set![key]));
    assert forall|d: int, k2: u64|
        0 <= d < er.2.len() && (#[trigger] er.2[d]).dom().contains(k2) implies !(
    #[trigger] eff.pools[level + 1 + d].contains_key(k2)) by {
        crate::model::lemma_descendants_step(pools, subs, level, key, d + 1);
        assert(eff.pools[level + 1 + d] == pools[level + 1 + d].remove_keys(
            descendants(subs, level, key, (d + 1) as nat),
        ));
    }
}

/// Key enumeration agrees with lookup: a key is listed on a level exactly
/// when the single-key chain for it resolves there.
pub proof fn lemma_keys_domain<V>(pools: Seq<LevelMap<V>>, subs: Seq<ChildMap>, level: int)
    requires
        inv(pools, subs),
        0 <= level < pools.len(),
    ensures
        forall|k: u64|
            #[trigger] subs[level].contains_key(k) <==> resolve(pools, seq![k], level) is Found,
{
    assert forall|k: u64|
        #[trigger] subs[level].contains_key(k) <==> resolve(pools, seq![k], level) is Found by {
        assert(subs[level].dom() == pools[level].dom());
        if pools[level].contains_key(k) {
            assert(step_ok(pools, seq![k], level, 0));
            lemma_steps_imply_found(pools, seq![k], level, 0);
        }
    }
}

} // verus!
