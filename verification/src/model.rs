//! The mathematical model of the container: levels as a sequence of maps, the
//! chain resolver as a spec function, and the structural invariant that ties
//! the level pool to the child index.

use vstd::prelude::*;

verus! {

use crate::errors::LeveledHashMapError;

/// One level of entries: each key maps to its optional parent key (a key one
/// level up) and its value.
pub type LevelMap<V> = Map<u64, (Option<u64>, V)>;

/// One level of the child index: each key maps to the set of keys one level
/// down whose recorded parent it is.
pub type ChildMap = Map<u64, Set<u64>>;

/// The outcome of resolving a key chain against the level pool.
pub enum Resolution {
    /// The chain has no elements.
    Empty,
    /// The chain, plus its start level, runs past the deepest existing level.
    TooMany,
    /// The chain's lineage was consistent up to `level`, where `key` is absent.
    NotExist { level: int, key: u64 },
    /// `key` exists at `level`, but its recorded parent is `stored_parent`,
    /// not the preceding chain element.
    Incorrect { level: int, key: u64, stored_parent: Option<u64> },
    /// Every chain element exists with consistent lineage; `parent` is the
    /// recorded parent of the last element.
    Found { parent: Option<u64> },
}

/// Step `i` of a chain walk succeeds: the key exists at its level and, beyond
/// the first step, its recorded parent is the preceding chain element.
pub open spec fn step_ok<V>(
    pools: Seq<LevelMap<V>>,
    chain: Seq<u64>,
    start: int,
    i: int,
) -> bool {
    &&& pools[start + i].contains_key(chain[i])
    &&& (i > 0 ==> pools[start + i][chain[i]].0 == Some(chain[i - 1]))
}

/// Walk the chain from index `i` on, assuming steps before `i` succeeded.
pub open spec fn resolve_from<V>(
    pools: Seq<LevelMap<V>>,
    chain: Seq<u64>,
    start: int,
    i: int,
) -> Resolution
    recommends
        0 <= start,
        0 <= i < chain.len(),
        chain.len() + start <= pools.len(),
    decreases chain.len() - i,
{
    let level = start + i;
    let key = chain[i];
    if !pools[level].contains_key(key) {
        Resolution::NotExist { level, key }
    } else {
        let stored = pools[level][key].0;
        if i > 0 && stored != Some(chain[i - 1]) {
            Resolution::Incorrect { level, key, stored_parent: stored }
        } else if i >= chain.len() - 1 {
            Resolution::Found { parent: stored }
        } else {
            resolve_from(pools, chain, start, i + 1)
        }
    }
}

/// Classify a key chain against the level pool: the single algorithm behind
/// every read, the pre-check of inserts, and the pre-check of removes.
pub open spec fn resolve<V>(pools: Seq<LevelMap<V>>, chain: Seq<u64>, start: int) -> Resolution {
    if chain.len() == 0 {
        Resolution::Empty
    } else if chain.len() + start > pools.len() {
        Resolution::TooMany
    } else {
        resolve_from(pools, chain, start, 0)
    }
}

/// The error a failed resolution reports.
pub open spec fn resolution_error(r: Resolution) -> LeveledHashMapError
    recommends
        !(r is Found),
{
    match r {
        Resolution::Empty => LeveledHashMapError::KeyChainEmpty,
        Resolution::TooMany => LeveledHashMapError::KeyTooMany,
        Resolution::NotExist { level, key } => LeveledHashMapError::KeyNotExist {
            level: level as usize,
            key,
        },
        Resolution::Incorrect { level, key, stored_parent } => {
            LeveledHashMapError::KeyChainIncorrect {
                level: level as usize,
                key,
                last_key: stored_parent,
            }
        },
        Resolution::Found { .. } => LeveledHashMapError::KeyChainEmpty,
    }
}

/// The level a chain's last element addresses.
pub open spec fn target_level(chain: Seq<u64>, start: int) -> int {
    start + chain.len() - 1
}

/// The stored (parent key, value) pair of the chain's last element.
pub open spec fn target_entry<V>(
    pools: Seq<LevelMap<V>>,
    chain: Seq<u64>,
    start: int,
) -> (Option<u64>, V) {
    pools[target_level(chain, start)][chain.last()]
}

/// What each `resolve_from` outcome says about the walked steps: a successful
/// walk passed every step and reports the last element's stored parent; a
/// failure names the first failing step, every step before it having passed.
pub proof fn lemma_resolve_from_characterize<V>(
    pools: Seq<LevelMap<V>>,
    chain: Seq<u64>,
    start: int,
    i: int,
)
    requires
        0 <= start,
        0 <= i < chain.len(),
        chain.len() + start <= pools.len(),
    ensures
        match resolve_from(pools, chain, start, i) {
            Resolution::Found { parent } => {
                &&& forall|j: int| i <= j < chain.len() ==> step_ok(pools, chain, start, j)
                &&& parent == target_entry(pools, chain, start).0
            },
            Resolution::NotExist { level, key } => {
                &&& i <= level - start < chain.len()
                &&& key == chain[level - start]
                &&& !pools[level].contains_key(key)
                &&& forall|j: int| i <= j < level - start ==> step_ok(pools, chain, start, j)
            },
            Resolution::Incorrect { level, key, stored_parent } => {
                &&& i <= level - start < chain.len()
                &&& 1 <= level - start
                &&& key == chain[level - start]
                &&& pools[level].contains_key(key)
                &&& stored_parent == pools[level][key].0
                &&& stored_parent != Some(chain[level - start - 1])
                &&& forall|j: int| i <= j < level - start ==> step_ok(pools, chain, start, j)
            },
            _ => false,
        },
    decreases chain.len() - i,
{
    let level = start + i;
    let key = chain[i];
    if pools[level].contains_key(key) {
        let stored = pools[level][key].0;
        if i > 0 && stored != Some(chain[i - 1]) {
        } else if i >= chain.len() - 1 {
        } else {
            lemma_resolve_from_characterize(pools, chain, start, i + 1);
            assert(step_ok(pools, chain, start, i));
        }
    }
}

/// A walk whose every remaining step passes resolves to the last element's
/// stored parent.
pub proof fn lemma_steps_imply_found<V>(
    pools: Seq<LevelMap<V>>,
    chain: Seq<u64>,
    start: int,
    i: int,
)
    requires
        0 <= start,
        0 <= i < chain.len(),
        chain.len() + start <= pools.len(),
        forall|j: int| i <= j < chain.len() ==> step_ok(pools, chain, start, j),
    ensures
        resolve_from(pools, chain, start, i) == (Resolution::Found {
            parent: target_entry(pools, chain, start).0,
        }),
    decreases chain.len() - i,
{
    assert(step_ok(pools, chain, start, i));
    if i < chain.len() - 1 {
        lemma_steps_imply_found(pools, chain, start, i + 1);
    }
}

/// The structural invariant of the container.
///
/// The pool and the child index have the same number of levels; a level's
/// child-index domain is exactly its pool domain; level-0 entries have no
/// parent; deeper entries have a parent that exists one level up; and the
/// child index lists exactly the entries one level down whose recorded parent
/// is the listed key.
pub open spec fn inv<V>(pools: Seq<LevelMap<V>>, subs: Seq<ChildMap>) -> bool {
    &&& pools.len() == subs.len()
    &&& forall|l: int| 0 <= l < pools.len() ==> #[trigger] subs[l].dom() == pools[l].dom()
    &&& forall|k: u64|
        pools.len() > 0 && #[trigger] pools[0].contains_key(k) ==> pools[0][k].0 is None
    &&& forall|l: int, k: u64|
        1 <= l < pools.len() && #[trigger] pools[l].contains_key(k)
            ==> (pools[l][k].0 matches Some(p) && pools[l - 1].contains_key(p))
    &&& forall|l: int, p: u64, c: u64|
        0 <= l < subs.len() && subs[l].contains_key(p) && #[trigger] subs[l][p].contains(c)
            ==> l + 1 < pools.len() && pools[l + 1].contains_key(c) && pools[l + 1][c].0 == Some(p)
    &&& forall|l: int, c: u64|
        1 <= l < pools.len() && #[trigger] pools[l].contains_key(c)
            ==> (pools[l][c].0 matches Some(p) ==> subs[l - 1].contains_key(p) && subs[l - 1][p].contains(c))
}

/// The full outcome of a single insert: the pool and child index afterwards,
/// and what the call returns.
pub struct InsertEffect<V> {
    pub pools: Seq<LevelMap<V>>,
    pub subs: Seq<ChildMap>,
    pub result: Result<Option<V>, LeveledHashMapError>,
}

/// What a single insert does.  An existing, lineage-consistent target is
/// overwritten in place; a chain one longer than the pool appends a new
/// deepest level; a chain whose last element alone is missing creates that
/// leaf; anything else is rejected unchanged.
pub open spec fn spec_insert<V>(
    pools: Seq<LevelMap<V>>,
    subs: Seq<ChildMap>,
    chain: Seq<u64>,
    value: V,
) -> InsertEffect<V> {
    let n = chain.len() as int;
    if n == 0 {
        InsertEffect { pools, subs, result: Err(LeveledHashMapError::KeyChainEmpty) }
    } else if n - 1 > pools.len() {
        InsertEffect { pools, subs, result: Err(LeveledHashMapError::KeyTooMany) }
    } else {
        let key = chain[n - 1];
        let parent = if n > 1 {
            Some(chain[n - 2])
        } else {
            None
        };
        match resolve(pools, chain, 0) {
            Resolution::Found { .. } => InsertEffect {
                pools: pools.update(n - 1, pools[n - 1].insert(key, (parent, value))),
                subs,
                result: Ok(Some(pools[n - 1][key].1)),
            },
            Resolution::TooMany => {
                // Here the chain is exactly one longer than the pool.
                if n == 1 {
                    InsertEffect {
                        pools: pools.push(Map::empty().insert(key, (None, value))),
                        subs: subs.push(Map::empty().insert(key, Set::empty())),
                        result: Ok(None),
                    }
                } else if pools[n - 2].contains_key(chain[n - 2]) {
                    InsertEffect {
                        pools: pools.push(Map::empty().insert(key, (parent, value))),
                        subs: subs.update(
                            n - 2,
                            subs[n - 2].insert(chain[n - 2], subs[n - 2][chain[n - 2]].insert(key)),
                        ).push(Map::empty().insert(key, Set::empty())),
                        result: Ok(None),
                    }
                } else {
                    InsertEffect {
                        pools,
                        subs,
                        result: Err(
                            LeveledHashMapError::KeyNotExist {
                                level: (n - 2) as usize,
                                key: chain[n - 2],
                            },
                        ),
                    }
                }
            },
            Resolution::NotExist { level, key: missing } => {
                if level == n - 1 {
                    InsertEffect {
                        pools: pools.update(n - 1, pools[n - 1].insert(key, (parent, value))),
                        subs: if n > 1 {
                            subs.update(n - 1, subs[n - 1].insert(key, Set::empty())).update(
                                n - 2,
                                subs[n - 2].insert(
                                    chain[n - 2],
                                    subs[n - 2][chain[n - 2]].insert(key),
                                ),
                            )
                        } else {
                            subs.update(n - 1, subs[n - 1].insert(key, Set::empty()))
                        },
                        result: Ok(None),
                    }
                } else {
                    InsertEffect {
                        pools,
                        subs,
                        result: Err(
                            LeveledHashMapError::KeyNotExist { level: level as usize, key: missing },
                        ),
                    }
                }
            },
            r => InsertEffect { pools, subs, result: Err(resolution_error(r)) },
        }
    }
}

/// The keys of a batch of entries, in batch order.
pub open spec fn entry_keys<V>(entries: Seq<(u64, V)>) -> Seq<u64> {
    entries.map_values(|e: (u64, V)| e.0)
}

/// A batch read as a level fragment: every entry keyed, all under one parent.
/// When a key repeats, the earlier entry wins; a batch with distinct keys
/// makes the order irrelevant.
pub open spec fn batch_map<V>(entries: Seq<(u64, V)>, parent: Option<u64>) -> LevelMap<V>
    decreases entries.len(),
{
    if entries.len() == 0 {
        Map::empty()
    } else {
        batch_map(entries.drop_first(), parent).insert(entries[0].0, (parent, entries[0].1))
    }
}

/// The previous values a batch insert reports: one for each batch key that
/// already had an entry on the target level.
pub open spec fn batch_previous<V>(entries: Seq<(u64, V)>, lm: LevelMap<V>) -> Map<u64, V> {
    Map::new(
        |k: u64| entry_keys(entries).contains(k) && lm.contains_key(k),
        |k: u64| lm[k].1,
    )
}

/// An empty child set for each of the given keys.
pub open spec fn empty_children(ks: Set<u64>) -> ChildMap {
    Map::new(|k: u64| ks.contains(k), |k: u64| Set::empty())
}

/// Batch entry `j` clashes with the target level: its key exists there with a
/// recorded parent other than the chain's last element.
pub open spec fn entry_conflicts<V>(
    lm: LevelMap<V>,
    entries: Seq<(u64, V)>,
    last: u64,
    j: int,
) -> bool {
    &&& lm.contains_key(entries[j].0)
    &&& lm[entries[j].0].0 != Some(last)
}

/// The index of the first clashing batch entry, if any.
pub open spec fn find_conflict<V>(
    lm: LevelMap<V>,
    entries: Seq<(u64, V)>,
    last: u64,
) -> Option<int>
    decreases entries.len(),
{
    if entries.len() == 0 {
        None
    } else if lm.contains_key(entries[0].0) && lm[entries[0].0].0 != Some(last) {
        Some(0)
    } else {
        match find_conflict(lm, entries.drop_first(), last) {
            None => None,
            Some(i) => Some(i + 1),
        }
    }
}

/// `find_conflict` names the first clashing entry; `None` means none clashes.
pub proof fn lemma_find_conflict_characterize<V>(
    lm: LevelMap<V>,
    entries: Seq<(u64, V)>,
    last: u64,
)
    ensures
        match find_conflict(lm, entries, last) {
            Some(i) => {
                &&& 0 <= i < entries.len()
                &&& entry_conflicts(lm, entries, last, i)
                &&& forall|j: int| 0 <= j < i ==> !entry_conflicts(lm, entries, last, j)
            },
            None => forall|j: int|
                0 <= j < entries.len() ==> !entry_conflicts(lm, entries, last, j),
        },
    decreases entries.len(),
{
    if entries.len() > 0 {
        if lm.contains_key(entries[0].0) && lm[entries[0].0].0 != Some(last) {
        } else {
            let rest = entries.drop_first();
            lemma_find_conflict_characterize(lm, rest, last);
            assert(!entry_conflicts(lm, entries, last, 0));
            assert forall|j: int|
                1 <= j < entries.len() implies entry_conflicts(lm, entries, last, j)
                == entry_conflicts(lm, rest, last, j - 1) by {
                assert(rest[j - 1] == entries[j]);
            }
        }
    }
}

/// The batch fragment covers exactly the batch keys; with distinct keys, each
/// entry keeps its own value.
pub proof fn lemma_batch_map_entries<V>(entries: Seq<(u64, V)>, parent: Option<u64>)
    ensures
        batch_map(entries, parent).dom() == entry_keys(entries).to_set(),
        forall|k: u64| #[trigger]
            batch_map(entries, parent).contains_key(k) ==> batch_map(entries, parent)[k].0
                == parent,
        entry_keys(entries).no_duplicates() ==> forall|j: int|
            0 <= j < entries.len() ==> batch_map(entries, parent)[#[trigger] entries[j].0] == (
            parent,
            entries[j].1,
            ),
    decreases entries.len(),
{
    if entries.len() == 0 {
        assert(batch_map(entries, parent).dom() =~= entry_keys(entries).to_set());
    } else {
        let rest = entries.drop_first();
        lemma_batch_map_entries(rest, parent);
        assert(forall|j: int| 0 <= j < rest.len() ==> rest[j] == entries[j + 1]);
        assert(entry_keys(rest) =~= entry_keys(entries).drop_first());
        assert forall|k: u64|
            entry_keys(entries).to_set().contains(k) <==> (entry_keys(rest).to_set().contains(k)
                || k == entries[0].0) by {
            let ks = entry_keys(entries);
            if ks.to_set().contains(k) {
                let i = choose|i: int| 0 <= i < ks.len() && ks[i] == k;
                if i > 0 {
                    assert(entry_keys(rest)[i - 1] == k);
                    assert(entry_keys(rest).contains(k));
                }
            }
            if entry_keys(rest).to_set().contains(k) {
                let i = choose|i: int| 0 <= i < entry_keys(rest).len() && entry_keys(rest)[i] == k;
                assert(ks[i + 1] == k);
                assert(ks.contains(k));
            }
            if k == entries[0].0 {
                assert(ks[0] == k);
                assert(ks.contains(k));
            }
        }
        assert(batch_map(entries, parent).dom() =~= entry_keys(entries).to_set());
        if entry_keys(entries).no_duplicates() {
            assert(entry_keys(rest).no_duplicates());
            assert forall|j: int|
                0 <= j < entries.len() implies batch_map(entries, parent)[entries[j].0] == (
            parent,
            entries[j].1,
            ) by {
                if j > 0 {
                    assert(entries[j] == rest[j - 1]);
                    assert(batch_map(rest, parent)[entries[j].0] == (parent, entries[j].1));
                    // The head's key differs from this one, so the final
                    // insert does not shadow it.
                    assert(entry_keys(entries)[0] != entry_keys(entries)[j]);
                }
            }
        }
    }
}

/// Appending an empty level to both the pool and the child index preserves
/// the invariant.
pub proof fn lemma_inv_push_empty<V>(pools: Seq<LevelMap<V>>, subs: Seq<ChildMap>)
    requires
        inv(pools, subs),
    ensures
        inv(pools.push(Map::empty()), subs.push(Map::empty())),
{
    let np = pools.push(Map::empty());
    let ns = subs.push(Map::empty());
    assert(ns[pools.len() as int].dom() =~= np[pools.len() as int].dom());
}

/// Overwriting the value of an existing entry, leaving its parent link as it
/// was, preserves the invariant.
pub proof fn lemma_inv_overwrite<V>(
    pools: Seq<LevelMap<V>>,
    subs: Seq<ChildMap>,
    l: int,
    k: u64,
    value: V,
)
    requires
        inv(pools, subs),
        0 <= l < pools.len(),
        pools[l].contains_key(k),
    ensures
        inv(pools.update(l, pools[l].insert(k, (pools[l][k].0, value))), subs),
{
    let np = pools.update(l, pools[l].insert(k, (pools[l][k].0, value)));
    assert(np[l].dom() =~= pools[l].dom());
    assert(forall|k2: u64| #[trigger] np[l].contains_key(k2) ==> np[l][k2].0 == pools[l][k2].0);
}

/// Seeding an empty structure with a single parentless level-0 entry
/// establishes the invariant.
pub proof fn lemma_inv_seed<V>(k: u64, value: V)
    ensures
        inv(
            Seq::<LevelMap<V>>::empty().push(Map::empty().insert(k, (None, value))),
            Seq::<ChildMap>::empty().push(Map::empty().insert(k, Set::empty())),
        ),
{
    let pools = Seq::<LevelMap<V>>::empty().push(Map::empty().insert(k, (None, value)));
    let subs = Seq::<ChildMap>::empty().push(Map::empty().insert(k, Set::empty()));
    assert(subs[0].dom() =~= pools[0].dom());
}

/// Appending a new deepest level holding one entry whose parent exists on the
/// previously deepest level, and listing that entry under its parent,
/// preserves the invariant.
pub proof fn lemma_inv_new_level<V>(
    pools: Seq<LevelMap<V>>,
    subs: Seq<ChildMap>,
    pk: u64,
    k: u64,
    value: V,
)
    requires
        inv(pools, subs),
        pools.len() >= 1,
        pools[pools.len() - 1].contains_key(pk),
    ensures
        inv(
            pools.push(Map::empty().insert(k, (Some(pk), value))),
            subs.update(
                pools.len() - 1,
                subs[pools.len() - 1].insert(pk, subs[pools.len() - 1][pk].insert(k)),
            ).push(Map::empty().insert(k, Set::empty())),
        ),
{
    let last = pools.len() - 1;
    let np = pools.push(Map::empty().insert(k, (Some(pk), value)));
    let ns = subs.update(last, subs[last].insert(pk, subs[last][pk].insert(k))).push(
        Map::empty().insert(k, Set::empty()),
    );
    // On the previously deepest level every child set is empty: a listed
    // child would have to live one level further down.
    assert(forall|p: u64, c: u64|
        subs[last].contains_key(p) ==> !(#[trigger] subs[last][p].contains(c)));
    assert(ns[last].dom() =~= pools[last].dom());
    assert(np[pools.len() as int].dom() =~= ns[pools.len() as int].dom());
    assert forall|l: int, p: u64, c: u64|
        0 <= l < ns.len() && ns[l].contains_key(p) && #[trigger] ns[l][p].contains(c) implies l + 1
        < np.len() && np[l + 1].contains_key(c) && np[l + 1][c].0 == Some(p) by {
        if l == last {
            assert(c == k && p == pk);
        }
    }
}

/// Creating a parentless leaf on an existing level 0, with an empty child
/// set, preserves the invariant.
pub proof fn lemma_inv_new_leaf_root<V>(
    pools: Seq<LevelMap<V>>,
    subs: Seq<ChildMap>,
    k: u64,
    value: V,
)
    requires
        inv(pools, subs),
        pools.len() > 0,
        !pools[0].contains_key(k),
    ensures
        inv(
            pools.update(0, pools[0].insert(k, (None, value))),
            subs.update(0, subs[0].insert(k, Set::empty())),
        ),
{
    let np = pools.update(0, pools[0].insert(k, (None, value)));
    let ns = subs.update(0, subs[0].insert(k, Set::empty()));
    assert(ns[0].dom() =~= np[0].dom());
    assert forall|l: int, p: u64, c: u64|
        0 <= l < ns.len() && ns[l].contains_key(p) && #[trigger] ns[l][p].contains(c) implies l + 1
        < np.len() && np[l + 1].contains_key(c) && np[l + 1][c].0 == Some(p) by {
        if l == 0 && p == k {
            assert(Set::<u64>::empty().contains(c));
        }
    }
}

/// Creating a leaf on an existing level below the top, with an empty child
/// set and listed under its existing parent, preserves the invariant.
pub proof fn lemma_inv_new_leaf_child<V>(
    pools: Seq<LevelMap<V>>,
    subs: Seq<ChildMap>,
    l: int,
    pk: u64,
    k: u64,
    value: V,
)
    requires
        inv(pools, subs),
        1 <= l < pools.len(),
        !pools[l].contains_key(k),
        pools[l - 1].contains_key(pk),
    ensures
        inv(
            pools.update(l, pools[l].insert(k, (Some(pk), value))),
            subs.update(l, subs[l].insert(k, Set::empty())).update(
                l - 1,
                subs[l - 1].insert(pk, subs[l - 1][pk].insert(k)),
            ),
        ),
{
    let np = pools.update(l, pools[l].insert(k, (Some(pk), value)));
    let ns = subs.update(l, subs[l].insert(k, Set::empty())).update(
        l - 1,
        subs[l - 1].insert(pk, subs[l - 1][pk].insert(k)),
    );
    assert(ns[l].dom() =~= np[l].dom());
    assert(ns[l - 1].dom() =~= np[l - 1].dom());
    assert forall|l2: int, p: u64, c: u64|
        0 <= l2 < ns.len() && ns[l2].contains_key(p) && #[trigger] ns[l2][p].contains(c) implies l2
        + 1 < np.len() && np[l2 + 1].contains_key(c) && np[l2 + 1][c].0 == Some(p) by {
        if l2 == l - 1 && p == pk && c == k {
        } else if l2 == l && p == k {
            assert(Set::<u64>::empty().contains(c));
        }
    }
    assert forall|l2: int, c: u64|
        1 <= l2 < np.len() && #[trigger] np[l2].contains_key(c) implies (np[l2][c].0 matches Some(
            p,
        ) ==> ns[l2 - 1].contains_key(p) && ns[l2 - 1][p].contains(c)) by {
        if l2 == l && c == k {
        }
    }
}

/// Peeling one entry off the still-unprocessed prefix of a batch: the suffix
/// starting at `j - 1` is entry `j - 1` followed by the suffix starting at
/// `j`, and its key set grows by that entry's key.
pub proof fn lemma_entry_keys_skip_unfold<V>(entries: Seq<(u64, V)>, j: int)
    requires
        1 <= j <= entries.len(),
    ensures
        entries.skip(j - 1).drop_first() == entries.skip(j),
        entries.skip(j - 1)[0] == entries[j - 1],
        forall|x: u64|
            entry_keys(entries.skip(j - 1)).contains(x) <==> (entry_keys(
                entries.skip(j),
            ).contains(x) || x == entries[j - 1].0),
        entry_keys(entries).no_duplicates() ==> !entry_keys(entries.skip(j)).contains(
            entries[j - 1].0,
        ),
{
    assert(entries.skip(j - 1).drop_first() =~= entries.skip(j));
    let pre = entry_keys(entries.skip(j - 1));
    let post = entry_keys(entries.skip(j));
    assert forall|x: u64| pre.contains(x) <==> (post.contains(x) || x == entries[j - 1].0) by {
        if pre.contains(x) {
            let i = choose|i: int| 0 <= i < pre.len() && pre[i] == x;
            if i > 0 {
                assert(post[i - 1] == x);
                assert(post.contains(x));
            }
        }
        if post.contains(x) {
            let i = choose|i: int| 0 <= i < post.len() && post[i] == x;
            assert(pre[i + 1] == x);
            assert(pre.contains(x));
        }
        if x == entries[j - 1].0 {
            assert(pre[0] == x);
            assert(pre.contains(x));
        }
    }
    if entry_keys(entries).no_duplicates() {
        let all = entry_keys(entries);
        assert forall|i: int| 0 <= i < post.len() implies post[i] != entries[j - 1].0 by {
            assert(post[i] == all[j + i]);
            assert(all[j - 1] != all[j + i]);
        }
        if post.contains(entries[j - 1].0) {
            let i = choose|i: int| 0 <= i < post.len() && post[i] == entries[j - 1].0;
        }
    }
}

/// Merging a one-parent batch into a level below the top, where every batch
/// key that already exists there records that same parent, preserves the
/// invariant: new keys get empty child sets and join the parent's child set.
pub proof fn lemma_inv_batch_child<V>(
    pools: Seq<LevelMap<V>>,
    subs: Seq<ChildMap>,
    lvl: int,
    last: u64,
    bm: LevelMap<V>,
)
    requires
        inv(pools, subs),
        1 <= lvl < pools.len(),
        pools[lvl - 1].contains_key(last),
        forall|k: u64| #[trigger] bm.contains_key(k) ==> bm[k].0 == Some(last),
        forall|k: u64|
            #[trigger] bm.contains_key(k) && pools[lvl].contains_key(k) ==> pools[lvl][k].0
                == Some(last),
    ensures
        ({
            let newkeys = bm.dom().difference(pools[lvl].dom());
            inv(
                pools.update(lvl, pools[lvl].union_prefer_right(bm)),
                subs.update(lvl, subs[lvl].union_prefer_right(empty_children(newkeys))).update(
                    lvl - 1,
                    subs[lvl - 1].insert(last, subs[lvl - 1][last].union(newkeys)),
                ),
            )
        }),
{
    let newkeys = bm.dom().difference(pools[lvl].dom());
    let np = pools.update(lvl, pools[lvl].union_prefer_right(bm));
    let ns = subs.update(lvl, subs[lvl].union_prefer_right(empty_children(newkeys))).update(
        lvl - 1,
        subs[lvl - 1].insert(last, subs[lvl - 1][last].union(newkeys)),
    );
    assert(ns[lvl].dom() =~= np[lvl].dom());
    assert(ns[lvl - 1].dom() =~= np[lvl - 1].dom());
    assert forall|l: int, p: u64, c: u64|
        0 <= l < ns.len() && ns[l].contains_key(p) && #[trigger] ns[l][p].contains(c) implies l + 1
        < np.len() && np[l + 1].contains_key(c) && np[l + 1][c].0 == Some(p) by {
        if l == lvl - 1 {
            if p == last {
                if subs[lvl - 1][last].contains(c) {
                    assert(pools[lvl].contains_key(c) && pools[lvl][c].0 == Some(last));
                } else {
                    assert(newkeys.contains(c));
                }
            } else {
                // A set of another parent is unchanged, and none of its
                // members is overwritten by the batch: a batch key that
                // exists at `lvl` records `last` as its parent.
                assert(subs[lvl - 1][p].contains(c));
                assert(pools[lvl].contains_key(c) && pools[lvl][c].0 == Some(p));
                assert(!bm.contains_key(c));
            }
        } else if l == lvl {
            if newkeys.contains(p) {
                assert(empty_children(newkeys)[p].contains(c));
                assert(Set::<u64>::empty().contains(c));
            } else {
                assert(ns[l][p] == subs[lvl][p]);
            }
        }
    }
    assert forall|l: int, c: u64|
        1 <= l < np.len() && #[trigger] np[l].contains_key(c) implies (np[l][c].0 matches Some(p)
        ==> ns[l - 1].contains_key(p) && ns[l - 1][p].contains(c)) by {
        if l == lvl && bm.contains_key(c) {
            assert(np[l][c].0 == Some(last));
        }
    }
}

/// Merging a parentless batch into level 0 preserves the invariant: new keys
/// get empty child sets.
pub proof fn lemma_inv_batch_root<V>(pools: Seq<LevelMap<V>>, subs: Seq<ChildMap>, bm: LevelMap<V>)
    requires
        inv(pools, subs),
        pools.len() >= 1,
        forall|k: u64| #[trigger] bm.contains_key(k) ==> bm[k].0 is None,
    ensures
        ({
            let newkeys = bm.dom().difference(pools[0].dom());
            inv(
                pools.update(0, pools[0].union_prefer_right(bm)),
                subs.update(0, subs[0].union_prefer_right(empty_children(newkeys))),
            )
        }),
{
    let newkeys = bm.dom().difference(pools[0].dom());
    let np = pools.update(0, pools[0].union_prefer_right(bm));
    let ns = subs.update(0, subs[0].union_prefer_right(empty_children(newkeys)));
    assert(ns[0].dom() =~= np[0].dom());
    assert forall|l: int, p: u64, c: u64|
        0 <= l < ns.len() && ns[l].contains_key(p) && #[trigger] ns[l][p].contains(c) implies l + 1
        < np.len() && np[l + 1].contains_key(c) && np[l + 1][c].0 == Some(p) by {
        if l == 0 {
            if newkeys.contains(p) {
                assert(empty_children(newkeys)[p].contains(c));
                assert(Set::<u64>::empty().contains(c));
            } else {
                assert(ns[l][p] == subs[0][p]);
            }
        }
    }
}

/// The full outcome of a batch insert: the pool and child index afterwards,
/// and what the call returns.
pub struct InsertManyEffect<V> {
    pub pools: Seq<LevelMap<V>>,
    pub subs: Seq<ChildMap>,
    pub result: Result<Map<u64, V>, LeveledHashMapError>,
}

/// What a batch insert does.  The parent chain is resolved at `start`; the
/// batch lands one level below the chain's last element, appending a new
/// deepest level first when needed.  A batch key that exists there under a
/// different parent fails the whole call (the appended level, if any, stays);
/// otherwise every batch entry is written under the chain's last element, and
/// the values the batch overwrote are returned.  An empty chain at start
/// level 0 writes the batch directly into level 0 with no parents.
pub open spec fn spec_insert_many<V>(
    pools: Seq<LevelMap<V>>,
    subs: Seq<ChildMap>,
    chain: Seq<u64>,
    entries: Seq<(u64, V)>,
    start: int,
) -> InsertManyEffect<V> {
    let m = chain.len() as int;
    if m > pools.len() + 1 {
        InsertManyEffect { pools, subs, result: Err(LeveledHashMapError::KeyTooMany) }
    } else {
        match resolve(pools, chain, start) {
            Resolution::Found { .. } => {
                let lvl = m + start;
                let pools1 = if lvl == pools.len() {
                    pools.push(Map::empty())
                } else {
                    pools
                };
                let subs1 = if lvl == pools.len() {
                    subs.push(Map::empty())
                } else {
                    subs
                };
                let last = chain[m - 1];
                match find_conflict(pools1[lvl], entries, last) {
                    Some(i) => InsertManyEffect {
                        pools: pools1,
                        subs: subs1,
                        result: Err(
                            LeveledHashMapError::KeyChainIncorrect {
                                level: lvl as usize,
                                key: entries[i].0,
                                last_key: pools1[lvl][entries[i].0].0,
                            },
                        ),
                    },
                    None => {
                        let bm = batch_map(entries, Some(last));
                        let newkeys = bm.dom().difference(pools1[lvl].dom());
                        InsertManyEffect {
                            pools: pools1.update(lvl, pools1[lvl].union_prefer_right(bm)),
                            subs: subs1.update(
                                lvl,
                                subs1[lvl].union_prefer_right(empty_children(newkeys)),
                            ).update(
                                lvl - 1,
                                subs1[lvl - 1].insert(last, subs1[lvl - 1][last].union(newkeys)),
                            ),
                            result: Ok(batch_previous(entries, pools1[lvl])),
                        }
                    },
                }
            },
            Resolution::Empty => {
                if start > 0 {
                    InsertManyEffect {
                        pools,
                        subs,
                        result: Err(LeveledHashMapError::KeyChainEmpty),
                    }
                } else {
                    let pools1 = if pools.len() == 0 {
                        pools.push(Map::empty())
                    } else {
                        pools
                    };
                    let subs1 = if pools.len() == 0 {
                        subs.push(Map::empty())
                    } else {
                        subs
                    };
                    let bm = batch_map(entries, None);
                    let newkeys = bm.dom().difference(pools1[0].dom());
                    InsertManyEffect {
                        pools: pools1.update(0, pools1[0].union_prefer_right(bm)),
                        subs: subs1.update(0, subs1[0].union_prefer_right(empty_children(newkeys))),
                        result: Ok(batch_previous(entries, pools1[0])),
                    }
                }
            },
            r => InsertManyEffect { pools, subs, result: Err(resolution_error(r)) },
        }
    }
}

/// The keys one level below `l` that are listed as a child of some member of
/// `s` in the child index.
pub open spec fn child_step(subs: Seq<ChildMap>, l: int, s: Set<u64>) -> Set<u64> {
    Set::new(
        |c: u64|
            exists|p: u64|
                s.contains(p) && 0 <= l < subs.len() && subs[l].contains_key(p)
                    && #[trigger] subs[l][p].contains(c),
    )
}

/// The descendants of `key` (an entry at `level`) at relative depth `d`:
/// depth 0 is the key itself, depth 1 its direct children, and so on.
pub open spec fn descendants(subs: Seq<ChildMap>, level: int, key: u64, d: nat) -> Set<u64>
    decreases d,
{
    if d == 0 {
        set![key]
    } else {
        child_step(subs, level + d - 1, descendants(subs, level, key, (d - 1) as nat))
    }
}

/// How many generations of the child index are reachable from the set `s` of
/// keys at level `l`: 0 when none of them lists a child.
pub open spec fn frontier_depth(subs: Seq<ChildMap>, l: int, s: Set<u64>) -> nat
    decreases subs.len() - l,
{
    if l < 0 || l >= subs.len() {
        0
    } else {
        let nxt = child_step(subs, l, s);
        if nxt.is_empty() {
            0
        } else {
            1 + frontier_depth(subs, l + 1, nxt)
        }
    }
}

/// Appending one element to a sequence adds exactly it to the element set.
pub proof fn lemma_seq_to_set_push<A>(s: Seq<A>, x: A)
    ensures
        s.push(x).to_set() == s.to_set().insert(x),
{
    assert forall|y: A| #[trigger] s.push(x).contains(y) <==> (s.contains(y) || y == x) by {
        if s.push(x).contains(y) {
            let i = choose|i: int| 0 <= i < s.push(x).len() && s.push(x)[i] == y;
            if i < s.len() {
                assert(s[i] == y);
            }
        }
        if s.contains(y) {
            let i = choose|i: int| 0 <= i < s.len() && s[i] == y;
            assert(s.push(x)[i] == y);
        }
        if y == x {
            assert(s.push(x)[s.len() as int] == y);
        }
    }
    assert(s.push(x).to_set() =~= s.to_set().insert(x));
}

/// Extending the parent set by a listed key extends the reachable children by
/// exactly that key's child set.
pub proof fn lemma_child_step_extend(subs: Seq<ChildMap>, l: int, s: Set<u64>, k: u64)
    requires
        0 <= l < subs.len(),
        subs[l].contains_key(k),
    ensures
        child_step(subs, l, s.insert(k)) == child_step(subs, l, s).union(subs[l][k]),
{
    assert forall|c: u64| child_step(subs, l, s.insert(k)).contains(c) implies child_step(
        subs,
        l,
        s,
    ).union(subs[l][k]).contains(c) by {
        let p = choose|p: u64|
            s.insert(k).contains(p) && 0 <= l < subs.len() && subs[l].contains_key(p)
                && #[trigger] subs[l][p].contains(c);
        if p != k {
            assert(s.contains(p));
            assert(child_step(subs, l, s).contains(c));
        }
    }
    assert forall|c: u64| child_step(subs, l, s).union(subs[l][k]).contains(c) implies child_step(
        subs,
        l,
        s.insert(k),
    ).contains(c) by {
        if child_step(subs, l, s).contains(c) {
            let p = choose|p: u64|
                s.contains(p) && 0 <= l < subs.len() && subs[l].contains_key(p)
                    && #[trigger] subs[l][p].contains(c);
            assert(s.insert(k).contains(p) && subs[l][p].contains(c));
        } else {
            assert(s.insert(k).contains(k) && subs[l][k].contains(c));
        }
    }
    assert(child_step(subs, l, s.insert(k)) =~= child_step(subs, l, s).union(subs[l][k]));
}

/// Which children a parent set reaches depends only on the one level of the
/// child index it reads.
pub proof fn lemma_child_step_agree(
    subs1: Seq<ChildMap>,
    subs2: Seq<ChildMap>,
    l: int,
    s: Set<u64>,
)
    requires
        subs1.len() == subs2.len(),
        0 <= l < subs1.len() ==> subs1[l] == subs2[l],
    ensures
        child_step(subs1, l, s) == child_step(subs2, l, s),
{
    assert(child_step(subs1, l, s) =~= child_step(subs2, l, s));
}

/// The keys of a sequence of removed entries, in order.
pub open spec fn triple_keys<V>(s: Seq<(u64, Option<u64>, V)>) -> Seq<u64> {
    s.map_values(|t: (u64, Option<u64>, V)| t.0)
}

/// A sequence of removed entries read as a level fragment.  When a key
/// repeats, the earlier entry wins; with distinct keys the order is
/// irrelevant.
pub open spec fn triples_to_map<V>(s: Seq<(u64, Option<u64>, V)>) -> LevelMap<V>
    decreases s.len(),
{
    if s.len() == 0 {
        Map::empty()
    } else {
        triples_to_map(s.drop_first()).insert(s[0].0, (s[0].1, s[0].2))
    }
}

/// The fragment covers exactly the listed keys; with distinct keys, each
/// entry keeps its own parent and value.
pub proof fn lemma_triples_to_map_entries<V>(s: Seq<(u64, Option<u64>, V)>)
    ensures
        triples_to_map(s).dom() == triple_keys(s).to_set(),
        triple_keys(s).no_duplicates() ==> forall|j: int|
            0 <= j < s.len() ==> triples_to_map(s)[#[trigger] s[j].0] == (s[j].1, s[j].2),
    decreases s.len(),
{
    if s.len() == 0 {
        assert(triples_to_map(s).dom() =~= triple_keys(s).to_set());
    } else {
        let rest = s.drop_first();
        lemma_triples_to_map_entries(rest);
        assert(forall|j: int| 0 <= j < rest.len() ==> rest[j] == s[j + 1]);
        assert(triple_keys(rest) =~= triple_keys(s).drop_first());
        assert forall|k: u64|
            triple_keys(s).to_set().contains(k) <==> (triple_keys(rest).to_set().contains(k) || k
                == s[0].0) by {
            let ks = triple_keys(s);
            if ks.to_set().contains(k) {
                let i = choose|i: int| 0 <= i < ks.len() && ks[i] == k;
                if i > 0 {
                    assert(triple_keys(rest)[i - 1] == k);
                    assert(triple_keys(rest).contains(k));
                }
            }
            if triple_keys(rest).to_set().contains(k) {
                let i = choose|i: int| 0 <= i < triple_keys(rest).len() && triple_keys(rest)[i]
                    == k;
                assert(ks[i + 1] == k);
                assert(ks.contains(k));
            }
            if k == s[0].0 {
                assert(ks[0] == k);
                assert(ks.contains(k));
            }
        }
        assert(triples_to_map(s).dom() =~= triple_keys(s).to_set());
        if triple_keys(s).no_duplicates() {
            assert(triple_keys(rest).no_duplicates());
            assert forall|j: int| 0 <= j < s.len() implies triples_to_map(s)[s[j].0] == (
            s[j].1,
            s[j].2,
            ) by {
                if j > 0 {
                    assert(s[j] == rest[j - 1]);
                    assert(triples_to_map(rest)[s[j].0] == (s[j].1, s[j].2));
                    assert(triple_keys(s)[0] != triple_keys(s)[j]);
                }
            }
        }
    }
}

/// A descendant generation below the first is exactly the set of entries one
/// level down from the previous generation whose recorded parent lies in that
/// generation.
pub proof fn lemma_descendants_step<V>(
    pools: Seq<LevelMap<V>>,
    subs: Seq<ChildMap>,
    level: int,
    key: u64,
    d: int,
)
    requires
        inv(pools, subs),
        0 <= level < pools.len(),
        1 <= d,
    ensures
        forall|c: u64|
            #[trigger] descendants(subs, level, key, d as nat).contains(c) ==> level + d
                < pools.len() && pools[level + d].contains_key(c) && (pools[level + d][c].0
                matches Some(p) && descendants(subs, level, key, (d - 1) as nat).contains(p)),
        forall|c: u64|
            level + d < pools.len() && #[trigger] pools[level + d].contains_key(c) && (pools[level
                + d][c].0 matches Some(p) && descendants(subs, level, key, (d - 1) as nat).contains(
                p,
            )) ==> descendants(subs, level, key, d as nat).contains(c),
{
    let prev = descendants(subs, level, key, (d - 1) as nat);
    let cur = descendants(subs, level, key, d as nat);
    assert(cur == child_step(subs, level + d - 1, prev));
    assert forall|c: u64| #[trigger] cur.contains(c) implies level + d < pools.len() && pools[level
        + d].contains_key(c) && (pools[level + d][c].0 matches Some(p) && prev.contains(p)) by {
        let p = choose|p: u64|
            prev.contains(p) && 0 <= level + d - 1 < subs.len() && subs[level + d - 1].contains_key(
                p,
            ) && #[trigger] subs[level + d - 1][p].contains(c);
        assert(subs[level + d - 1][p].contains(c));
    }
    assert forall|c: u64|
        level + d < pools.len() && #[trigger] pools[level + d].contains_key(c) && (pools[level
            + d][c].0 matches Some(p) && prev.contains(p)) implies cur.contains(c) by {
        let p = pools[level + d][c].0.unwrap();
        assert(subs[level + d - 1].contains_key(p) && subs[level + d - 1][p].contains(c));
    }
}

/// Once a descendant generation is empty, every deeper one is empty too.
pub proof fn lemma_descendants_vanish(subs: Seq<ChildMap>, level: int, key: u64, d0: int, d: int)
    requires
        0 <= d0 <= d,
        descendants(subs, level, key, d0 as nat).is_empty(),
    ensures
        descendants(subs, level, key, d as nat).is_empty(),
    decreases d - d0,
{
    if d > d0 {
        assert(descendants(subs, level, key, (d0 + 1) as nat) =~= Set::<u64>::empty());
        lemma_descendants_vanish(subs, level, key, d0 + 1, d);
    }
}

/// A cut generation, read back as a level fragment, is the restriction of its
/// level to the generation's keys.
pub proof fn lemma_chunk_restrict<V>(
    chunk: Seq<(u64, Option<u64>, V)>,
    frontier: Seq<u64>,
    lm: LevelMap<V>,
)
    requires
        triple_keys(chunk) == frontier,
        frontier.no_duplicates(),
        forall|t: int|
            0 <= t < chunk.len() ==> #[trigger] chunk[t] == (
                frontier[t],
                lm[frontier[t]].0,
                lm[frontier[t]].1,
            ),
        forall|t: int| 0 <= t < frontier.len() ==> lm.contains_key(#[trigger] frontier[t]),
    ensures
        triples_to_map(chunk) == lm.restrict(frontier.to_set()),
{
    lemma_triples_to_map_entries(chunk);
    assert(chunk.len() == frontier.len());
    assert forall|k: u64| frontier.to_set().contains(k) implies triples_to_map(chunk)[k] == lm[k]
        && lm.contains_key(k) by {
        let t = choose|t: int| 0 <= t < frontier.len() && frontier[t] == k;
        assert(chunk[t] == (frontier[t], lm[frontier[t]].0, lm[frontier[t]].1));
        assert(triples_to_map(chunk)[chunk[t].0] == (chunk[t].1, chunk[t].2));
    }
    assert(triples_to_map(chunk) =~= lm.restrict(frontier.to_set()));
}

/// A nonempty descendant generation lives on an existing level; its keys are
/// entries there with pairwise disjoint child sets.
pub proof fn lemma_generation_prereqs<V>(
    pools: Seq<LevelMap<V>>,
    subs: Seq<ChildMap>,
    level: int,
    key: u64,
    frontier: Seq<u64>,
    d: int,
)
    requires
        inv(pools, subs),
        0 <= level < pools.len(),
        1 <= d,
        frontier.to_set() == descendants(subs, level, key, d as nat),
        frontier.len() > 0,
    ensures
        level + d < pools.len(),
        forall|t: int|
            0 <= t < frontier.len() ==> pools[level + d].contains_key(#[trigger] frontier[t])
                && subs[level + d].contains_key(frontier[t]),
        forall|t1: int, t2: int|
            0 <= t1 < frontier.len() && 0 <= t2 < frontier.len() && frontier[t1] != frontier[t2]
                ==> subs[level + d][#[trigger] frontier[t1]].disjoint(
                subs[level + d][#[trigger] frontier[t2]],
            ),
{
    lemma_descendants_step(pools, subs, level, key, d);
    assert(frontier.to_set().contains(frontier[0]));
    assert(level + d < pools.len());
    assert forall|t: int|
        0 <= t < frontier.len() implies pools[level + d].contains_key(#[trigger] frontier[t])
        && subs[level + d].contains_key(frontier[t]) by {
        assert(frontier.to_set().contains(frontier[t]));
        assert(subs[level + d].dom() == pools[level + d].dom());
    }
    assert forall|t1: int, t2: int|
        0 <= t1 < frontier.len() && 0 <= t2 < frontier.len() && frontier[t1] != frontier[t2]
        implies subs[level + d][#[trigger] frontier[t1]].disjoint(
        subs[level + d][#[trigger] frontier[t2]],
    ) by {
        let k1 = frontier[t1];
        let k2 = frontier[t2];
        assert(frontier.to_set().contains(k1) && frontier.to_set().contains(k2));
        assert forall|cc: u64| #[trigger] subs[level + d][k1].contains(cc) implies !subs[level
            + d][k2].contains(cc) by {
            if subs[level + d][k2].contains(cc) {
                assert(pools[level + d + 1][cc].0 == Some(k1));
                assert(pools[level + d + 1][cc].0 == Some(k2));
            }
        }
    }
}

/// Past the last nonempty generation, cutting changes nothing: the deeper
/// generations are empty, the reachable depth is spent, and each cut
/// generation is the whole domain of its fragment.
pub proof fn lemma_remove_tail<V>(
    pools0: Seq<LevelMap<V>>,
    subs0: Seq<ChildMap>,
    level: int,
    key: u64,
    c: int,
)
    requires
        inv(pools0, subs0),
        0 <= level < pools0.len(),
        0 <= c,
        descendants(subs0, level, key, (c + 1) as nat).is_empty(),
    ensures
        forall|l: int|
            level + c < l < pools0.len() ==> #[trigger] pools0[l].remove_keys(
                descendants(subs0, level, key, (l - level) as nat),
            ) == pools0[l] && subs0[l].remove_keys(descendants(subs0, level, key, (l - level) as nat))
                == subs0[l],
        frontier_depth(subs0, level + c, descendants(subs0, level, key, c as nat)) == 0,
        forall|d: int|
            0 <= d < c ==> #[trigger] pools0[level + 1 + d].restrict(
                descendants(subs0, level, key, (d + 1) as nat),
            ).dom() == descendants(subs0, level, key, (d + 1) as nat),
{
    assert forall|l: int|
        level + c < l < pools0.len() implies #[trigger] pools0[l].remove_keys(
        descendants(subs0, level, key, (l - level) as nat),
    ) == pools0[l] && subs0[l].remove_keys(descendants(subs0, level, key, (l - level) as nat))
        == subs0[l] by {
        lemma_descendants_vanish(subs0, level, key, c + 1, l - level);
        assert(pools0[l].remove_keys(descendants(subs0, level, key, (l - level) as nat))
            =~= pools0[l]);
        assert(subs0[l].remove_keys(descendants(subs0, level, key, (l - level) as nat))
            =~= subs0[l]);
    }
    assert(child_step(subs0, level + c, descendants(subs0, level, key, c as nat)) == descendants(
        subs0,
        level,
        key,
        (c + 1) as nat,
    ));
    assert(frontier_depth(subs0, level + c, descendants(subs0, level, key, c as nat)) == 0);
    assert forall|d: int| 0 <= d < c implies #[trigger] pools0[level + 1 + d].restrict(
        descendants(subs0, level, key, (d + 1) as nat),
    ).dom() == descendants(subs0, level, key, (d + 1) as nat) by {
        lemma_descendants_step(pools0, subs0, level, key, d + 1);
        assert(pools0[level + 1 + d].restrict(descendants(subs0, level, key, (d + 1) as nat)).dom()
            =~= descendants(subs0, level, key, (d + 1) as nat));
    }
}

/// The full outcome of a removal: the pool and child index afterwards, and
/// what the call returns.  The removed entry's descendants come back indexed
/// by relative depth: index 0 the direct children, index 1 the grandchildren,
/// and so on.
pub struct RemoveEffect<V> {
    pub pools: Seq<LevelMap<V>>,
    pub subs: Seq<ChildMap>,
    pub result: Result<(Option<u64>, V, Seq<LevelMap<V>>), LeveledHashMapError>,
}

/// The level pool after an entry and its whole descendant subtree are cut.
pub open spec fn cut_pools<V>(
    pools: Seq<LevelMap<V>>,
    subs: Seq<ChildMap>,
    level: int,
    key: u64,
) -> Seq<LevelMap<V>> {
    Seq::new(
        pools.len(),
        |l: int|
            if l >= level {
                pools[l].remove_keys(descendants(subs, level, key, (l - level) as nat))
            } else {
                pools[l]
            },
    )
}

/// The child index after an entry and its whole descendant subtree are cut
/// and the entry is detached from its parent's child set.
pub open spec fn cut_subs(
    subs: Seq<ChildMap>,
    level: int,
    key: u64,
    parent: Option<u64>,
) -> Seq<ChildMap> {
    let ns0 = Seq::new(
        subs.len(),
        |l: int|
            if l >= level {
                subs[l].remove_keys(descendants(subs, level, key, (l - level) as nat))
            } else {
                subs[l]
            },
    );
    if level > 0 {
        ns0.update(
            level - 1,
            ns0[level - 1].insert(parent.unwrap(), ns0[level - 1][parent.unwrap()].remove(key)),
        )
    } else {
        ns0
    }
}

/// What a removal does: the resolved entry disappears from its level and from
/// its parent's child set, its entire descendant subtree is cut out of every
/// deeper level, and the cut entries are returned by relative depth.
pub open spec fn spec_remove<V>(
    pools: Seq<LevelMap<V>>,
    subs: Seq<ChildMap>,
    chain: Seq<u64>,
    start: int,
) -> RemoveEffect<V> {
    match resolve(pools, chain, start) {
        Resolution::Found { parent } => {
            let level = target_level(chain, start);
            let key = chain.last();
            let value = pools[level][key].1;
            let depth = frontier_depth(subs, level, set![key]) as int;
            let cut = Seq::new(
                depth as nat,
                |d: int| pools[level + 1 + d].restrict(
                    descendants(subs, level, key, (d + 1) as nat),
                ),
            );
            RemoveEffect {
                pools: cut_pools(pools, subs, level, key),
                subs: cut_subs(subs, level, key, parent),
                result: Ok((parent, value, cut)),
            }
        },
        r => RemoveEffect { pools, subs, result: Err(resolution_error(r)) },
    }
}

/// Cutting an entry and its whole descendant subtree out of the pool and the
/// child index, and detaching the entry from its parent's child set,
/// preserves the invariant.
pub proof fn lemma_inv_remove<V>(pools: Seq<LevelMap<V>>, subs: Seq<ChildMap>, level: int, key: u64)
    requires
        inv(pools, subs),
        0 <= level < pools.len(),
        pools[level].contains_key(key),
    ensures
        inv(cut_pools(pools, subs, level, key), cut_subs(subs, level, key, pools[level][key].0)),
{
    let np = cut_pools(pools, subs, level, key);
    let pk = pools[level][key].0.unwrap();
    let ns = cut_subs(subs, level, key, pools[level][key].0);
    assert forall|l: int| 0 <= l < np.len() implies #[trigger] ns[l].dom() == np[l].dom() by {
        if level > 0 && l == level - 1 {
            assert(subs[l].contains_key(pk));
            assert(ns[l].dom() =~= np[l].dom());
        } else {
            assert(ns[l].dom() =~= np[l].dom());
        }
    }
    // A surviving entry's recorded parent also survives, and stays listed.
    assert forall|l: int, c: u64|
        1 <= l < np.len() && #[trigger] np[l].contains_key(c) implies (np[l][c].0 matches Some(p)
        && np[l - 1].contains_key(p) && ns[l - 1].contains_key(p) && ns[l - 1][p].contains(c)) by {
        assert(pools[l].contains_key(c));
        let p = pools[l][c].0.unwrap();
        assert(subs[l - 1].contains_key(p) && subs[l - 1][p].contains(c));
        if l - 1 >= level {
            // If the parent were cut, the child would have been cut with it.
            if descendants(subs, level, key, (l - 1 - level) as nat).contains(p) {
                lemma_descendants_step(pools, subs, level, key, l - level);
                assert(descendants(subs, level, key, (l - level) as nat).contains(c));
            }
            assert(!descendants(subs, level, key, (l - 1 - level) as nat).contains(p));
        } else if l == level {
            // The only key cut at `level` is `key` itself, and `c` survived.
            assert(descendants(subs, level, key, 0) =~= set![key]);
            assert(c != key);
        }
        if level > 0 && l - 1 == level - 1 {
            if p == pk {
                assert(descendants(subs, level, key, 0) =~= set![key]);
                assert(c != key);
                assert(ns[l - 1][p].contains(c));
            }
        }
    }
    // A listed child's entry survives with the listing parent recorded.
    assert forall|l: int, p: u64, c: u64|
        0 <= l < ns.len() && ns[l].contains_key(p) && #[trigger] ns[l][p].contains(c) implies l + 1
        < np.len() && np[l + 1].contains_key(c) && np[l + 1][c].0 == Some(p) by {
        if level > 0 && l == level - 1 && p == pk {
            assert(subs[l][p].contains(c) && c != key);
            assert(descendants(subs, level, key, 0) =~= set![key]);
            assert(!descendants(subs, level, key, 0).contains(c));
        } else {
            assert(subs[l].contains_key(p) && subs[l][p].contains(c));
            if l >= level {
                // The surviving parent's children all survive.
                assert(!descendants(subs, level, key, (l - level) as nat).contains(p));
                if descendants(subs, level, key, (l + 1 - level) as nat).contains(c) {
                    lemma_descendants_step(pools, subs, level, key, l + 1 - level);
                    let listed = pools[l + 1][c].0.unwrap();
                    assert(listed == p);
                }
                assert(!descendants(subs, level, key, (l + 1 - level) as nat).contains(c));
            } else if l + 1 == level {
                assert(pools[level][c].0 == Some(p));
                if c == key {
                    assert(level > 0 && p == pk);
                }
                assert(!descendants(subs, level, key, 0).contains(c));
            }
        }
    }
}

/// The state midway through a removal: the entry is detached from its parent,
/// and the first `c` descendant generations (the entry itself counting as
/// generation 0) are cut; deeper levels are untouched.
pub open spec fn cut_progress<V>(
    pools0: Seq<LevelMap<V>>,
    subs0: Seq<ChildMap>,
    cur_pools: Seq<LevelMap<V>>,
    cur_subs: Seq<ChildMap>,
    level: int,
    key: u64,
    parent: Option<u64>,
    c: int,
) -> bool {
    &&& cur_pools.len() == pools0.len()
    &&& cur_subs.len() == subs0.len()
    &&& forall|l: int|
        #![trigger cur_pools[l]]
        #![trigger cur_subs[l]]
        0 <= l < level && !(level > 0 && l == level - 1) ==> cur_pools[l] == pools0[l]
            && cur_subs[l] == subs0[l]
    &&& (level > 0 ==> cur_pools[level - 1] == pools0[level - 1] && cur_subs[level - 1] == subs0[
        level - 1].insert(parent.unwrap(), subs0[level - 1][parent.unwrap()].remove(key)))
    &&& forall|l: int|
        #![trigger cur_pools[l]]
        #![trigger cur_subs[l]]
        level <= l <= level + c ==> cur_pools[l] == pools0[l].remove_keys(
            descendants(subs0, level, key, (l - level) as nat),
        ) && cur_subs[l] == subs0[l].remove_keys(descendants(subs0, level, key, (l - level) as nat))
    &&& forall|l: int|
        #![trigger cur_pools[l]]
        #![trigger cur_subs[l]]
        level + c < l < pools0.len() ==> cur_pools[l] == pools0[l] && cur_subs[l] == subs0[l]
}

/// Cutting the entry itself out of its level and its parent's child set
/// reaches the midway state with no deeper generation cut yet.
pub proof fn lemma_cut_progress_init<V>(
    pools0: Seq<LevelMap<V>>,
    subs0: Seq<ChildMap>,
    cur_pools: Seq<LevelMap<V>>,
    cur_subs: Seq<ChildMap>,
    level: int,
    key: u64,
    parent: Option<u64>,
)
    requires
        0 <= level < pools0.len(),
        pools0.len() == subs0.len(),
        cur_pools.len() == pools0.len(),
        cur_subs.len() == subs0.len(),
        forall|l: int|
            #![trigger cur_pools[l]]
            0 <= l < pools0.len() && l != level ==> cur_pools[l] == pools0[l],
        forall|l: int|
            #![trigger cur_subs[l]]
            0 <= l < subs0.len() && l != level && !(level > 0 && l == level - 1) ==> cur_subs[l]
                == subs0[l],
        cur_pools[level] == pools0[level].remove(key),
        cur_subs[level] == subs0[level].remove(key),
        level > 0 ==> cur_subs[level - 1] == subs0[level - 1].insert(
            parent.unwrap(),
            subs0[level - 1][parent.unwrap()].remove(key),
        ),
    ensures
        cut_progress(pools0, subs0, cur_pools, cur_subs, level, key, parent, 0),
{
    assert(descendants(subs0, level, key, 0) =~= set![key]);
    assert(pools0[level].remove(key) =~= pools0[level].remove_keys(set![key]));
    assert(subs0[level].remove(key) =~= subs0[level].remove_keys(set![key]));
}

/// Cutting the next whole generation advances the midway state by one.
pub proof fn lemma_cut_progress_step<V>(
    pools0: Seq<LevelMap<V>>,
    subs0: Seq<ChildMap>,
    prev_pools: Seq<LevelMap<V>>,
    prev_subs: Seq<ChildMap>,
    cur_pools: Seq<LevelMap<V>>,
    cur_subs: Seq<ChildMap>,
    level: int,
    key: u64,
    parent: Option<u64>,
    c: int,
)
    requires
        cut_progress(pools0, subs0, prev_pools, prev_subs, level, key, parent, c),
        0 <= c,
        0 <= level,
        level + c + 1 < pools0.len(),
        cur_pools.len() == prev_pools.len(),
        cur_subs.len() == prev_subs.len(),
        forall|l: int|
            #![trigger cur_pools[l]]
            #![trigger cur_subs[l]]
            0 <= l < prev_pools.len() && l != level + c + 1 ==> cur_pools[l] == prev_pools[l]
                && cur_subs[l] == prev_subs[l],
        cur_pools[level + c + 1] == prev_pools[level + c + 1].remove_keys(
            descendants(subs0, level, key, (c + 1) as nat),
        ),
        cur_subs[level + c + 1] == prev_subs[level + c + 1].remove_keys(
            descendants(subs0, level, key, (c + 1) as nat),
        ),
    ensures
        cut_progress(pools0, subs0, cur_pools, cur_subs, level, key, parent, c + 1),
{
    assert(prev_pools.len() == pools0.len());
    assert(cur_pools.len() == pools0.len());
    assert(prev_pools[level + c + 1] == pools0[level + c + 1]);
    assert(prev_subs[level + c + 1] == subs0[level + c + 1]);
    assert forall|l: int|
        0 <= l < pools0.len() && l != level + c + 1 implies #[trigger] cur_pools[l]
        == prev_pools[l] && #[trigger] cur_subs[l] == prev_subs[l] by {}
    assert forall|l: int| level <= l <= level + c + 1 implies cur_pools[l] == pools0[
        l].remove_keys(descendants(subs0, level, key, (l - level) as nat)) && cur_subs[l]
        == subs0[l].remove_keys(descendants(subs0, level, key, (l - level) as nat)) by {
        if l != level + c + 1 {
            assert(cur_pools[l] == prev_pools[l] && cur_subs[l] == prev_subs[l]);
        }
    }
}

/// A state reached by cutting the entry, detaching it from its parent, and
/// then cutting one whole generation per level until one came up empty, is
/// exactly the closed-form cut state, and satisfies the invariant.
pub proof fn lemma_remove_assemble<V>(
    pools0: Seq<LevelMap<V>>,
    subs0: Seq<ChildMap>,
    cur_pools: Seq<LevelMap<V>>,
    cur_subs: Seq<ChildMap>,
    level: int,
    key: u64,
    parent: Option<u64>,
    c: int,
)
    requires
        inv(pools0, subs0),
        0 <= level < pools0.len(),
        pools0[level].contains_key(key),
        pools0[level][key].0 == parent,
        0 <= c,
        descendants(subs0, level, key, (c + 1) as nat).is_empty(),
        cut_progress(pools0, subs0, cur_pools, cur_subs, level, key, parent, c),
    ensures
        cur_pools == cut_pools(pools0, subs0, level, key),
        cur_subs == cut_subs(subs0, level, key, parent),
        inv(cur_pools, cur_subs),
{
    lemma_remove_tail(pools0, subs0, level, key, c);
    assert(descendants(subs0, level, key, 0) =~= set![key]);
    assert(cur_pools =~= cut_pools(pools0, subs0, level, key));
    assert(cur_subs =~= cut_subs(subs0, level, key, parent));
    lemma_inv_remove(pools0, subs0, level, key);
}

} // verus!
