//! The executable container and its operations.

use std::collections::HashMap;

use vstd::prelude::*;

use crate::errors::LeveledHashMapError;
use crate::model::{
    batch_map, batch_previous, child_step, cut_progress, descendants, empty_children,
    entry_conflicts, entry_keys, find_conflict, frontier_depth, inv, lemma_batch_map_entries,
    lemma_child_step_agree, lemma_child_step_extend, lemma_chunk_restrict,
    lemma_cut_progress_init, lemma_cut_progress_step, lemma_entry_keys_skip_unfold,
    lemma_find_conflict_characterize, lemma_generation_prereqs, lemma_inv_batch_child,
    lemma_inv_batch_root, lemma_inv_new_leaf_child, lemma_inv_new_leaf_root, lemma_inv_new_level,
    lemma_inv_overwrite, lemma_inv_push_empty, lemma_inv_seed, lemma_remove_assemble,
    lemma_remove_tail, lemma_resolve_from_characterize, lemma_seq_to_set_push, resolve,
    resolve_from, resolution_error, spec_insert, spec_insert_many, spec_remove, step_ok,
    target_entry, target_level, triple_keys, triples_to_map, ChildMap, LevelMap, Resolution,
};
use vstd::pervasive::unreached;
use vstd::seq_lib::{lemma_no_dup_in_concat, seq_to_set_distributes_over_add};
use vstd::std_specs::vec::vec_index_mut;

verus! {

broadcast use vstd::std_specs::hash::group_hash_axioms;

/// The abstraction of one stored child-index level: each key's child list,
/// read as a set.
spec fn child_view(m: HashMap<u64, Vec<u64>>) -> ChildMap {
    m@.map_values(|l: Vec<u64>| l@.to_set())
}

/// Add `c` to the child list of `p` on level `l` of the child index.
fn register_child(sub: &mut Vec<HashMap<u64, Vec<u64>>>, l: usize, p: u64, c: u64)
    requires
        l < old(sub)@.len(),
        old(sub)@[l as int]@.contains_key(p),
        old(sub)@[l as int]@[p]@.no_duplicates(),
        !old(sub)@[l as int]@[p]@.contains(c),
    ensures
        final(sub)@.len() == old(sub)@.len(),
        forall|j: int| 0 <= j < final(sub)@.len() && j != l ==> final(sub)@[j] == old(sub)@[j],
        final(sub)@[l as int]@.dom() == old(sub)@[l as int]@.dom(),
        forall|q: u64|
            #[trigger] final(sub)@[l as int]@.contains_key(q) && q != p
                ==> final(sub)@[l as int]@[q] == old(sub)@[l as int]@[q],
        final(sub)@[l as int]@[p]@ == old(sub)@[l as int]@[p]@.push(c),
        final(sub)@[l as int]@[p]@.no_duplicates(),
        child_view(final(sub)@[l as int]) == child_view(old(sub)@[l as int]).insert(
            p,
            child_view(old(sub)@[l as int])[p].insert(c),
        ),
{
    let ghost old_level = old(sub)@[l as int];
    let m = vec_index_mut(sub, l);
    let mut lst = m.remove(&p).unwrap();
    lst.push(c);
    proof {
        assert forall|i: int, j: int|
            0 <= i < lst@.len() && 0 <= j < lst@.len() && i != j implies lst@[i] != lst@[j] by {
            assert(old_level@[p]@.no_duplicates());
        }
        assert(lst@.no_duplicates());
    }
    m.insert(p, lst);
    proof {
        assert(sub@[l as int]@ =~= old_level@.insert(p, sub@[l as int]@[p]));
        assert(sub@[l as int]@.dom() =~= old_level@.dom());
        let oldl = old_level@[p]@;
        let newl = sub@[l as int]@[p]@;
        assert(newl == oldl.push(c));
        assert forall|x: u64| #[trigger] newl.contains(x) <==> (oldl.contains(x) || x == c) by {
            if newl.contains(x) {
                let i = choose|i: int| 0 <= i < newl.len() && newl[i] == x;
                if i < oldl.len() {
                    assert(oldl[i] == x);
                } else {
                    assert(x == c);
                }
            }
            if oldl.contains(x) {
                let i = choose|i: int| 0 <= i < oldl.len() && oldl[i] == x;
                assert(newl[i] == x);
            }
            if x == c {
                assert(newl[oldl.len() as int] == x);
            }
        }
        assert(newl.to_set() =~= oldl.to_set().insert(c));
        assert(child_view(sub@[l as int]) =~= child_view(old_level).insert(
            p,
            child_view(old_level)[p].insert(c),
        ));
    }
}

/// Give `k` an empty child list on level `l` of the child index.
fn add_empty_child_list(sub: &mut Vec<HashMap<u64, Vec<u64>>>, l: usize, k: u64)
    requires
        l < old(sub)@.len(),
    ensures
        final(sub)@.len() == old(sub)@.len(),
        forall|j: int| 0 <= j < final(sub)@.len() && j != l ==> final(sub)@[j] == old(sub)@[j],
        child_view(final(sub)@[l as int]) == child_view(old(sub)@[l as int]).insert(
            k,
            Set::empty(),
        ),
        final(sub)@[l as int]@.dom() == old(sub)@[l as int]@.dom().insert(k),
        final(sub)@[l as int]@[k]@ == Seq::<u64>::empty(),
        forall|q: u64|
            #[trigger] final(sub)@[l as int]@.contains_key(q) && q != k
                ==> final(sub)@[l as int]@[q] == old(sub)@[l as int]@[q],
{
    let ghost old_level = old(sub)@[l as int];
    let m = vec_index_mut(sub, l);
    m.insert(k, Vec::new());
    proof {
        assert(sub@[l as int]@.dom() =~= old_level@.dom().insert(k));
        assert(Seq::<u64>::empty().to_set() =~= Set::<u64>::empty());
        assert(child_view(sub@[l as int]) =~~= child_view(old_level).insert(k, Set::empty()));
    }
}

/// Remove `c` from the child list of `p` on level `l` of the child index (a
/// no-op when the list does not hold it).
fn remove_child(sub: &mut Vec<HashMap<u64, Vec<u64>>>, l: usize, p: u64, c: u64)
    requires
        l < old(sub)@.len(),
        old(sub)@[l as int]@.contains_key(p),
        old(sub)@[l as int]@[p]@.no_duplicates(),
    ensures
        final(sub)@.len() == old(sub)@.len(),
        forall|j: int| 0 <= j < final(sub)@.len() && j != l ==> final(sub)@[j] == old(sub)@[j],
        final(sub)@[l as int]@.dom() == old(sub)@[l as int]@.dom(),
        forall|q: u64|
            #[trigger] final(sub)@[l as int]@.contains_key(q) && q != p
                ==> final(sub)@[l as int]@[q] == old(sub)@[l as int]@[q],
        final(sub)@[l as int]@[p]@.no_duplicates(),
        child_view(final(sub)@[l as int]) == child_view(old(sub)@[l as int]).insert(
            p,
            child_view(old(sub)@[l as int])[p].remove(c),
        ),
{
    let ghost old_level = old(sub)@[l as int];
    let m = vec_index_mut(sub, l);
    let mut lst = m.remove(&p).unwrap();
    let llen = lst.len();
    let mut i: usize = 0;
    let mut pos: usize = llen;
    while i < llen
        invariant
            0 <= i <= llen,
            llen == lst@.len(),
            lst@ == old_level@[p]@,
            pos == llen || (pos < i && lst@[pos as int] == c),
            pos == llen ==> forall|t: int| 0 <= t < i ==> lst@[t] != c,
        decreases llen - i,
    {
        if pos == llen && lst[i] == c {
            pos = i;
        }
        i += 1;
    }
    let ghost oldl = old_level@[p]@;
    if pos < llen {
        lst.remove(pos);
        proof {
            let newl = lst@;
            assert(newl == oldl.remove(pos as int));
            assert forall|x: u64| #[trigger] newl.contains(x) <==> (oldl.contains(x) && x != c) by {
                if newl.contains(x) {
                    let t = choose|t: int| 0 <= t < newl.len() && newl[t] == x;
                    if t < pos {
                        assert(oldl[t] == x);
                    } else {
                        assert(oldl[t + 1] == x);
                    }
                    if x == c {
                        let src: int = if t < pos {
                            t
                        } else {
                            t + 1
                        };
                        assert(oldl[src] == c && oldl[pos as int] == c && src != pos);
                    }
                }
                if oldl.contains(x) && x != c {
                    let t = choose|t: int| 0 <= t < oldl.len() && oldl[t] == x;
                    if t < pos {
                        assert(newl[t] == x);
                    } else {
                        assert(t > pos);
                        assert(newl[t - 1] == x);
                    }
                }
            }
            assert(newl.to_set() =~= oldl.to_set().remove(c));
            assert forall|t1: int, t2: int|
                0 <= t1 < newl.len() && 0 <= t2 < newl.len() && t1 != t2 implies newl[t1]
                != newl[t2] by {
                let s1: int = if t1 < pos {
                    t1
                } else {
                    t1 + 1
                };
                let s2: int = if t2 < pos {
                    t2
                } else {
                    t2 + 1
                };
                assert(newl[t1] == oldl[s1] && newl[t2] == oldl[s2] && s1 != s2);
            }
            assert(newl.no_duplicates());
        }
    } else {
        proof {
            assert(forall|t: int| 0 <= t < oldl.len() ==> oldl[t] != c);
            if oldl.contains(c) {
                let t = choose|t: int| 0 <= t < oldl.len() && oldl[t] == c;
            }
            assert(!oldl.to_set().contains(c));
            assert(lst@.to_set() =~= oldl.to_set().remove(c));
        }
    }
    m.insert(p, lst);
    proof {
        assert(sub@[l as int]@ =~= old_level@.insert(p, sub@[l as int]@[p]));
        assert(sub@[l as int]@.dom() =~= old_level@.dom());
        assert(child_view(sub@[l as int]) =~= child_view(old_level).insert(
            p,
            child_view(old_level)[p].remove(c),
        ));
    }
}

/// Borrow the value of an existing entry on one pool level mutably; the
/// entry's parent link stays as it was.
fn level_value_mut<V>(
    pool: &mut Vec<HashMap<u64, (Option<u64>, V)>>,
    level: usize,
    key: u64,
) -> (r: &mut V)
    requires
        level < old(pool)@.len(),
        old(pool)@[level as int]@.contains_key(key),
    ensures
        *r == old(pool)@[level as int]@[key].1,
        final(pool)@.len() == old(pool)@.len(),
        forall|l: int|
            0 <= l < final(pool)@.len() && l != level ==> final(pool)@[l] == old(pool)@[l],
        final(pool)@[level as int]@ == old(pool)@[level as int]@.insert(
            key,
            (old(pool)@[level as int]@[key].0, *final(r)),
        ),
{
    let pm = vec_index_mut(pool, level);
    match pm.entry(key) {
        std::collections::hash_map::Entry::Occupied(e) => {
            let pair = e.into_mut();
            &mut pair.1
        },
        std::collections::hash_map::Entry::Vacant(_) => {
            proof {
                assert(false);
            }
            unreached()
        },
    }
}

/// A structure that separates values into levels addressed by keys.  Every
/// entry outside the top level records a parent key at the superior level;
/// keys at the same level are unique no matter what parent keys they have.
#[verifier::reject_recursive_types(V)]
pub struct LeveledHashMap<V> {
    pool: Vec<HashMap<u64, (Option<u64>, V)>>,
    sub: Vec<HashMap<u64, Vec<u64>>>,
}

impl<V> LeveledHashMap<V> {
    /// The level pool, one map per level: key to (parent key, value).
    pub closed spec fn levels(&self) -> Seq<LevelMap<V>> {
        self.pool@.map_values(|m: HashMap<u64, (Option<u64>, V)>| m@)
    }

    /// The child index, one map per level: key to the set of its children's
    /// keys one level down.
    pub closed spec fn children(&self) -> Seq<ChildMap> {
        self.sub@.map_values(|m: HashMap<u64, Vec<u64>>| child_view(m))
    }

    /// Each stored child list holds no key twice.
    spec fn child_lists_distinct(&self) -> bool {
        forall|l: int, p: u64|
            0 <= l < self.sub@.len() && #[trigger] self.sub@[l]@.contains_key(p)
                ==> self.sub@[l]@[p]@.no_duplicates()
    }

    /// Well-formedness: the representation's child lists are duplicate-free
    /// and the abstract structure satisfies the invariant `model::inv`.
    pub closed spec fn wf(&self) -> bool {
        &&& self.child_lists_distinct()
        &&& inv(self.levels(), self.children())
    }

    /// Create an empty `LeveledHashMap`, with no levels.
    pub fn new() -> (r: LeveledHashMap<V>)
        ensures
            r.wf(),
            r.levels() == Seq::<LevelMap<V>>::empty(),
            r.children() == Seq::<ChildMap>::empty(),
    {
        let r = LeveledHashMap { pool: Vec::new(), sub: Vec::new() };
        proof {
            assert(r.levels() =~= Seq::<LevelMap<V>>::empty());
            assert(r.children() =~= Seq::<ChildMap>::empty());
        }
        r
    }

    /// Walk a key chain from `start_level`, checking existence and lineage at
    /// each step, and report the last element's stored parent key on success.
    fn resolve_chain(&self, key_chain: &[u64], start_level: usize) -> (r: Result<
        Option<u64>,
        LeveledHashMapError,
    >)
        ensures
            match r {
                Ok(p) => resolve(self.levels(), key_chain@, start_level as int)
                    == (Resolution::Found { parent: p }),
                Err(e) => {
                    &&& !(resolve(self.levels(), key_chain@, start_level as int) is Found)
                    &&& e == resolution_error(
                        resolve(self.levels(), key_chain@, start_level as int),
                    )
                },
            },
    {
        let n = key_chain.len();
        if n == 0 {
            return Err(LeveledHashMapError::KeyChainEmpty);
        }
        let pool_len = self.pool.len();
        if start_level > pool_len || n > pool_len - start_level {
            return Err(LeveledHashMapError::KeyTooMany);
        }
        let ghost pools = self.levels();
        let ghost start = start_level as int;
        let mut i: usize = 0;
        loop
            invariant
                0 <= i < n,
                n == key_chain@.len(),
                n + start_level <= self.pool@.len(),
                self.pool@.len() <= usize::MAX,
                pools == self.levels(),
                start == start_level as int,
                resolve_from(pools, key_chain@, start, 0) == resolve_from(
                    pools,
                    key_chain@,
                    start,
                    i as int,
                ),
            decreases n - i,
        {
            let ii = i + start_level;
            let ck = key_chain[i];
            match self.pool[ii].get(&ck) {
                Some(entry) => {
                    let stored = entry.0;
                    let lineage_ok = if i == 0 {
                        true
                    } else {
                        match stored {
                            Some(p) => p == key_chain[i - 1],
                            None => false,
                        }
                    };
                    if !lineage_ok {
                        return Err(LeveledHashMapError::KeyChainIncorrect {
                            level: ii,
                            key: ck,
                            last_key: stored,
                        });
                    }
                    if i == n - 1 {
                        return Ok(stored);
                    }
                },
                None => {
                    return Err(LeveledHashMapError::KeyNotExist { level: ii, key: ck });
                },
            }
            i += 1;
        }
    }

    /// The stored parent key and a reference to the value addressed by a key
    /// chain starting at `start_level`, or the error that classifies why the
    /// chain does not resolve.
    pub fn get_professional(&self, key_chain: &[u64], start_level: usize) -> (r: Result<
        (Option<u64>, &V),
        LeveledHashMapError,
    >)
        ensures
            match r {
                Ok(p) => {
                    &&& resolve(self.levels(), key_chain@, start_level as int)
                        == (Resolution::Found { parent: p.0 })
                    &&& *p.1 == target_entry(self.levels(), key_chain@, start_level as int).1
                },
                Err(e) => {
                    &&& !(resolve(self.levels(), key_chain@, start_level as int) is Found)
                    &&& e == resolution_error(
                        resolve(self.levels(), key_chain@, start_level as int),
                    )
                },
            },
    {
        let parent = match self.resolve_chain(key_chain, start_level) {
            Ok(p) => p,
            Err(e) => {
                return Err(e);
            },
        };
        let n = key_chain.len();
        let pool_len = self.pool.len();
        proof {
            assert(n + start_level <= pool_len);
        }
        let level = start_level + n - 1;
        proof {
            lemma_resolve_from_characterize(
                self.levels(),
                key_chain@,
                start_level as int,
                0,
            );
            assert(step_ok(self.levels(), key_chain@, start_level as int, n - 1));
        }
        match self.pool[level].get(&key_chain[n - 1]) {
            Some(entry) => Ok((parent, &entry.1)),
            None => {
                proof {
                    assert(false);
                }
                Err(LeveledHashMapError::KeyChainEmpty)
            },
        }
    }

    /// Borrow the value of an existing entry mutably; its parent link and
    /// everything else stay as they were.
    #[verifier::rlimit(100)]
    #[verifier::spinoff_prover]
    fn value_mut(&mut self, level: usize, key: u64) -> (r: &mut V)
        requires
            old(self).wf(),
            level < old(self).levels().len(),
            old(self).levels()[level as int].contains_key(key),
        ensures
            *r == old(self).levels()[level as int][key].1,
            final(self).levels() == old(self).levels().update(
                level as int,
                old(self).levels()[level as int].insert(
                    key,
                    (old(self).levels()[level as int][key].0, *final(r)),
                ),
            ),
            final(self).children() == old(self).children(),
            final(self).wf(),
    {
        let ghost pools0 = self.levels();
        let ghost subs0 = self.children();
        let vref = level_value_mut(&mut self.pool, level, key);
        proof {
            lemma_inv_overwrite(pools0, subs0, level as int, key, *final(vref));
        }
        vref
    }

    /// The stored parent key and a mutable reference to the value addressed
    /// by a key chain starting at `start_level`, or the error that classifies
    /// why the chain does not resolve.  Writing through the reference
    /// replaces the entry's value; everything else stays as it was.
    #[verifier::rlimit(100)]
    pub fn get_professional_mut(&mut self, key_chain: &[u64], start_level: usize) -> (r: Result<
        (Option<u64>, &mut V),
        LeveledHashMapError,
    >)
        requires
            old(self).wf(),
        ensures
            final(self).wf(),
            match r {
                Ok(p) => {
                    &&& resolve(old(self).levels(), key_chain@, start_level as int)
                        == (Resolution::Found { parent: p.0 })
                    &&& p.0 == target_entry(old(self).levels(), key_chain@, start_level as int).0
                    &&& *p.1 == target_entry(
                        old(self).levels(),
                        key_chain@,
                        start_level as int,
                    ).1
                    &&& final(self).levels() == old(self).levels().update(
                        target_level(key_chain@, start_level as int),
                        old(self).levels()[target_level(key_chain@, start_level as int)].insert(
                            key_chain@.last(),
                            (p.0, *final(p.1)),
                        ),
                    )
                    &&& final(self).children() == old(self).children()
                },
                Err(e) => {
                    &&& !(resolve(old(self).levels(), key_chain@, start_level as int) is Found)
                    &&& e == resolution_error(
                        resolve(old(self).levels(), key_chain@, start_level as int),
                    )
                    &&& final(self).levels() == old(self).levels()
                    &&& final(self).children() == old(self).children()
                },
            },
    {
        let ghost pools0 = self.levels();
        let ghost subs0 = self.children();
        let parent = match self.resolve_chain(key_chain, start_level) {
            Ok(p) => p,
            Err(e) => {
                return Err(e);
            },
        };
        let n = key_chain.len();
        let pool_len = self.pool.len();
        proof {
            assert(n + start_level <= pool_len);
            lemma_resolve_from_characterize(pools0, key_chain@, start_level as int, 0);
            assert(step_ok(pools0, key_chain@, start_level as int, n - 1));
        }
        let level = start_level + n - 1;
        let key = key_chain[n - 1];
        proof {
            assert(pools0[level as int].contains_key(key));
            assert(parent == pools0[level as int][key].0);
        }
        let vref = self.value_mut(level, key);
        Ok((parent, vref))
    }

    /// A mutable reference to the value addressed by a key chain starting at
    /// level 0, or `None` if the chain does not resolve.  Writing through the
    /// reference replaces the entry's value; everything else stays as it was.
    pub fn get_mut(&mut self, key_chain: &[u64]) -> (r: Option<&mut V>)
        requires
            old(self).wf(),
        ensures
            final(self).wf(),
            match r {
                Some(v) => {
                    &&& resolve(old(self).levels(), key_chain@, 0) is Found
                    &&& *v == target_entry(old(self).levels(), key_chain@, 0).1
                    &&& final(self).levels() == old(self).levels().update(
                        target_level(key_chain@, 0),
                        old(self).levels()[target_level(key_chain@, 0)].insert(
                            key_chain@.last(),
                            (
                                old(self).levels()[target_level(key_chain@, 0)][key_chain@.last()].0,
                                *final(v),
                            ),
                        ),
                    )
                    &&& final(self).children() == old(self).children()
                },
                None => {
                    &&& !(resolve(old(self).levels(), key_chain@, 0) is Found)
                    &&& final(self).levels() == old(self).levels()
                    &&& final(self).children() == old(self).children()
                },
            },
    {
        self.get_advanced_mut(key_chain, 0)
    }

    /// A mutable reference to the value addressed by a key chain starting at
    /// `start_level`, or `None` if the chain does not resolve.  Writing
    /// through the reference replaces the entry's value; everything else
    /// stays as it was.
    #[verifier::rlimit(100)]
    pub fn get_advanced_mut(&mut self, key_chain: &[u64], start_level: usize) -> (r: Option<
        &mut V,
    >)
        requires
            old(self).wf(),
        ensures
            final(self).wf(),
            match r {
                Some(v) => {
                    &&& resolve(old(self).levels(), key_chain@, start_level as int) is Found
                    &&& *v == target_entry(old(self).levels(), key_chain@, start_level as int).1
                    &&& final(self).levels() == old(self).levels().update(
                        target_level(key_chain@, start_level as int),
                        old(self).levels()[target_level(key_chain@, start_level as int)].insert(
                            key_chain@.last(),
                            (
                                old(self).levels()[target_level(key_chain@, start_level as int)][
                                    key_chain@.last()].0,
                                *final(v),
                            ),
                        ),
                    )
                    &&& final(self).children() == old(self).children()
                },
                None => {
                    &&& !(resolve(old(self).levels(), key_chain@, start_level as int) is Found)
                    &&& final(self).levels() == old(self).levels()
                    &&& final(self).children() == old(self).children()
                },
            },
    {
        match self.get_professional_mut(key_chain, start_level) {
            Ok(p) => Some(p.1),
            Err(_) => None,
        }
    }

    /// A reference to the value addressed by a key chain starting at level 0,
    /// or `None` if the chain does not resolve.
    pub fn get(&self, key_chain: &[u64]) -> (r: Option<&V>)
        ensures
            match r {
                Some(v) => {
                    &&& resolve(self.levels(), key_chain@, 0) is Found
                    &&& *v == target_entry(self.levels(), key_chain@, 0).1
                },
                None => !(resolve(self.levels(), key_chain@, 0) is Found),
            },
    {
        self.get_advanced(key_chain, 0)
    }

    /// A reference to the value addressed by a key chain starting at
    /// `start_level`, or `None` if the chain does not resolve.
    pub fn get_advanced(&self, key_chain: &[u64], start_level: usize) -> (r: Option<&V>)
        ensures
            match r {
                Some(v) => {
                    &&& resolve(self.levels(), key_chain@, start_level as int) is Found
                    &&& *v == target_entry(self.levels(), key_chain@, start_level as int).1
                },
                None => !(resolve(self.levels(), key_chain@, start_level as int) is Found),
            },
    {
        match self.get_professional(key_chain, start_level) {
            Ok(p) => Some(p.1),
            Err(_) => None,
        }
    }

    /// Insert a value at the entry addressed by a key chain starting at level
    /// 0, following `model::spec_insert`: an existing, lineage-consistent
    /// target is overwritten and its previous value returned; a chain exactly
    /// one longer than the pool appends a new deepest level; a chain whose
    /// last element alone is missing creates that leaf; anything else is
    /// rejected with the classifying error and the structure unchanged.
    pub fn insert(&mut self, key_chain: &[u64], value: V) -> (r: Result<
        Option<V>,
        LeveledHashMapError,
    >)
        requires
            old(self).wf(),
        ensures
            final(self).wf(),
            ({
                let eff = spec_insert(old(self).levels(), old(self).children(), key_chain@, value);
                &&& final(self).levels() == eff.pools
                &&& final(self).children() == eff.subs
                &&& r == eff.result
            }),
    {
        let ghost pools0 = self.levels();
        let ghost subs0 = self.children();
        let ghost eff = spec_insert(pools0, subs0, key_chain@, value);
        let n = key_chain.len();
        if n == 0 {
            return Err(LeveledHashMapError::KeyChainEmpty);
        }
        let pool_len = self.pool.len();
        if n - 1 > pool_len {
            return Err(LeveledHashMapError::KeyTooMany);
        }
        match self.resolve_chain(key_chain, 0) {
            Ok(_) => {
                // The whole chain resolved: overwrite the target in place.
                proof {
                    lemma_resolve_from_characterize(pools0, key_chain@, 0, 0);
                    assert(step_ok(pools0, key_chain@, 0, n - 1));
                }
                let key = key_chain[n - 1];
                let parent = if n > 1 {
                    Some(key_chain[n - 2])
                } else {
                    None
                };
                proof {
                    assert(parent == pools0[n - 1][key].0);
                }
                let m = vec_index_mut(&mut self.pool, n - 1);
                let prev = m.insert(key, (parent, value));
                let (_, old_v) = prev.unwrap();
                proof {
                    assert(self.levels() =~~= eff.pools);
                    assert(self.children() =~~= eff.subs);
                    lemma_inv_overwrite(pools0, subs0, n - 1, key, value);
                    assert(inv(self.levels(), self.children()));
                }
                Ok(Some(old_v))
            },
            Err(e) => match e {
                LeveledHashMapError::KeyTooMany => {
                    // The chain is exactly one longer than the pool: append a
                    // new deepest level.
                    proof {
                        assert(resolve(pools0, key_chain@, 0) is TooMany);
                        if key_chain@.len() <= pools0.len() {
                            // A completed walk never reports this error.
                            lemma_resolve_from_characterize(pools0, key_chain@, 0, 0);
                        }
                        assert(n == pools0.len() + 1);
                    }
                    if pool_len == 0 {
                        let key = key_chain[0];
                        let mut m: HashMap<u64, (Option<u64>, V)> = HashMap::new();
                        m.insert(key, (None, value));
                        self.pool.push(m);
                        let mut s: HashMap<u64, Vec<u64>> = HashMap::new();
                        s.insert(key, Vec::new());
                        self.sub.push(s);
                        proof {
                            assert(self.levels() =~~= eff.pools);
                            assert(self.children() =~~= eff.subs);
                            lemma_inv_seed::<V>(key, value);
                            assert(inv(self.levels(), self.children()));
                        }
                        Ok(None)
                    } else {
                        let key = key_chain[n - 1];
                        let pk = key_chain[n - 2];
                        if !self.pool[n - 2].contains_key(&pk) {
                            return Err(LeveledHashMapError::KeyNotExist { level: n - 2, key: pk });
                        }
                        let mut m: HashMap<u64, (Option<u64>, V)> = HashMap::new();
                        m.insert(key, (Some(pk), value));
                        self.pool.push(m);
                        let mut s: HashMap<u64, Vec<u64>> = HashMap::new();
                        s.insert(key, Vec::new());
                        self.sub.push(s);
                        proof {
                            // The previously deepest level lists no children,
                            // so `key` is not yet in the parent's list.
                            assert(subs0[n - 2].contains_key(pk));
                            assert(!subs0[n - 2][pk].contains(key));
                            assert(self.sub@[n - 2]@[pk]@.to_set() == subs0[n - 2][pk]);
                        }
                        register_child(&mut self.sub, n - 2, pk, key);
                        proof {
                            assert(self.levels() =~~= eff.pools);
                            assert(self.children() =~~= eff.subs);
                            lemma_inv_new_level(pools0, subs0, pk, key, value);
                            assert(inv(self.levels(), self.children()));
                        }
                        Ok(None)
                    }
                },
                LeveledHashMapError::KeyNotExist { level, key: missing } => {
                    if level == n - 1 {
                        // Everything up to the parent resolved; only the leaf
                        // itself is new: create it.
                        proof {
                            lemma_resolve_from_characterize(pools0, key_chain@, 0, 0);
                        }
                        let key = key_chain[n - 1];
                        let parent = if n > 1 {
                            Some(key_chain[n - 2])
                        } else {
                            None
                        };
                        let sm = vec_index_mut(&mut self.sub, n - 1);
                        sm.insert(key, Vec::new());
                        let pm = vec_index_mut(&mut self.pool, n - 1);
                        pm.insert(key, (parent, value));
                        if n > 1 {
                            let pk = key_chain[n - 2];
                            proof {
                                assert(step_ok(pools0, key_chain@, 0, n - 2));
                                assert(subs0[n - 2].contains_key(pk));
                                assert(!subs0[n - 2][pk].contains(key));
                                assert(self.sub@[n - 2]@[pk]@.to_set() == subs0[n - 2][pk]);
                            }
                            register_child(&mut self.sub, n - 2, pk, key);
                            proof {
                                assert(self.levels() =~~= eff.pools);
                                assert(self.children() =~~= eff.subs);
                                lemma_inv_new_leaf_child(pools0, subs0, n - 1, pk, key, value);
                                assert(inv(self.levels(), self.children()));
                            }
                        } else {
                            proof {
                                assert(self.levels() =~~= eff.pools);
                                assert(self.children() =~~= eff.subs);
                                lemma_inv_new_leaf_root(pools0, subs0, key, value);
                                assert(inv(self.levels(), self.children()));
                            }
                        }
                        Ok(None)
                    } else {
                        Err(LeveledHashMapError::KeyNotExist { level, key: missing })
                    }
                },
                _ => Err(e),
            },
        }
    }

    /// Write a one-parent batch into level `lvl`, after scanning the whole
    /// batch for keys that already exist there under a different parent.  On
    /// a clash nothing is written; otherwise each entry lands under `last`,
    /// brand-new keys get empty child lists and join the parent's child list,
    /// and the values the batch overwrote are returned.
    fn insert_many_under(&mut self, lvl: usize, last: u64, entries: Vec<(u64, V)>) -> (r: Result<
        HashMap<u64, V>,
        LeveledHashMapError,
    >)
        requires
            old(self).wf(),
            1 <= lvl < old(self).levels().len(),
            old(self).levels()[lvl - 1].contains_key(last),
            entry_keys(entries@).no_duplicates(),
        ensures
            final(self).wf(),
            ({
                let pools1 = old(self).levels();
                let subs1 = old(self).children();
                match find_conflict(pools1[lvl as int], entries@, last) {
                    Some(i) => {
                        &&& final(self).levels() == pools1
                        &&& final(self).children() == subs1
                        &&& r == Err::<HashMap<u64, V>, LeveledHashMapError>(
                            LeveledHashMapError::KeyChainIncorrect {
                                level: lvl,
                                key: entries@[i].0,
                                last_key: pools1[lvl as int][entries@[i].0].0,
                            },
                        )
                    },
                    None => {
                        let bm = batch_map(entries@, Some(last));
                        let newkeys = bm.dom().difference(pools1[lvl as int].dom());
                        &&& final(self).levels() == pools1.update(
                            lvl as int,
                            pools1[lvl as int].union_prefer_right(bm),
                        )
                        &&& final(self).children() == subs1.update(
                            lvl as int,
                            subs1[lvl as int].union_prefer_right(empty_children(newkeys)),
                        ).update(
                            lvl - 1,
                            subs1[lvl - 1].insert(last, subs1[lvl - 1][last].union(newkeys)),
                        )
                        &&& (r matches Ok(prev) && prev@ == batch_previous(
                            entries@,
                            pools1[lvl as int],
                        ))
                    },
                }
            }),
    {
        let ghost pools1 = self.levels();
        let ghost subs1 = self.children();
        let ghost entries0 = entries@;
        // Scan the whole batch for clashes before writing anything.
        let elen = entries.len();
        let mut i: usize = 0;
        while i < elen
            invariant
                0 <= i <= elen,
                elen == entries0.len(),
                entries@ == entries0,
                0 <= lvl < self.pool@.len(),
                pools1 == self.levels(),
                subs1 == self.children(),
                self.wf(),
                forall|j: int| 0 <= j < i ==> !entry_conflicts(pools1[lvl as int], entries0, last, j),
            decreases elen - i,
        {
            let k = entries[i].0;
            match self.pool[lvl].get(&k) {
                Some(e) => {
                    let stored = e.0;
                    let ok = match stored {
                        Some(p) => p == last,
                        None => false,
                    };
                    if !ok {
                        proof {
                            assert(entry_conflicts(pools1[lvl as int], entries0, last, i as int));
                            lemma_find_conflict_characterize(pools1[lvl as int], entries0, last);
                        }
                        return Err(LeveledHashMapError::KeyChainIncorrect {
                            level: lvl,
                            key: k,
                            last_key: stored,
                        });
                    }
                },
                None => {},
            }
            i += 1;
        }
        proof {
            lemma_find_conflict_characterize(pools1[lvl as int], entries0, last);
            assert(find_conflict(pools1[lvl as int], entries0, last) is None);
            lemma_batch_map_entries(entries0, Some(last));
        }
        // Write the batch, recording previous values of overwritten keys and
        // registering brand-new keys in the child index.
        let ghost base = pools1[lvl as int];
        let mut previous: HashMap<u64, V> = HashMap::new();
        let mut rem = entries;
        proof {
            let all: int = entries0.len() as int;
            assert(rem@ =~= entries0.take(all));
            assert(entries0.skip(all) =~= Seq::<(u64, V)>::empty());
            assert(base.union_prefer_right(batch_map(entries0.skip(all), Some(last))) =~= base);
            assert(entry_keys(entries0.skip(all)).to_set().difference(base.dom())
                =~= Set::<u64>::empty());
            assert(subs1[lvl as int].union_prefer_right(empty_children(Set::<u64>::empty()))
                =~~= subs1[lvl as int]);
            assert(subs1[lvl - 1].contains_key(last));
            assert(subs1[lvl - 1].insert(last, subs1[lvl - 1][last].union(Set::<u64>::empty()))
                =~~= subs1[lvl - 1]);
            assert(previous@ =~= batch_previous(entries0.skip(all), base));
        }
        while rem.len() > 0
            invariant
                entry_keys(entries0).no_duplicates(),
                rem@ == entries0.take(rem@.len() as int),
                rem@.len() <= entries0.len(),
                self.pool@.len() == pools1.len(),
                self.sub@.len() == pools1.len(),
                1 <= lvl < pools1.len(),
                base == pools1[lvl as int],
                subs1[lvl - 1].contains_key(last),
                find_conflict(base, entries0, last) is None,
                inv(pools1, subs1),
                forall|l: int| 0 <= l < pools1.len() && l != lvl ==> self.levels()[l] == pools1[l],
                forall|l: int|
                    0 <= l < pools1.len() && l != lvl && l != lvl - 1 ==> self.children()[l]
                        == subs1[l],
                self.levels()[lvl as int] == base.union_prefer_right(
                    batch_map(entries0.skip(rem@.len() as int), Some(last)),
                ),
                self.children()[lvl as int] == subs1[lvl as int].union_prefer_right(
                    empty_children(
                        entry_keys(entries0.skip(rem@.len() as int)).to_set().difference(
                            base.dom(),
                        ),
                    ),
                ),
                self.children()[lvl - 1] == subs1[lvl - 1].insert(
                    last,
                    subs1[lvl - 1][last].union(
                        entry_keys(entries0.skip(rem@.len() as int)).to_set().difference(
                            base.dom(),
                        ),
                    ),
                ),
                previous@ == batch_previous(entries0.skip(rem@.len() as int), base),
                self.child_lists_distinct(),
            decreases rem@.len(),
        {
            let ghost j = rem@.len() as int;
            let ghost old_done = entries0.skip(j);
            let ghost old_new_keys = entry_keys(old_done).to_set().difference(base.dom());
            let (k, v) = rem.pop().unwrap();
            proof {
                assert(rem@ =~= entries0.take(j - 1));
                lemma_entry_keys_skip_unfold(entries0, j);
                assert((k, v) == entries0[j - 1]);
                lemma_batch_map_entries(old_done, Some(last));
                assert(!batch_map(old_done, Some(last)).contains_key(k));
                assert(batch_map(entries0.skip(j - 1), Some(last)) == batch_map(
                    old_done,
                    Some(last),
                ).insert(k, (Some(last), v)));
            }
            let pm = vec_index_mut(&mut self.pool, lvl);
            let prev = pm.insert(k, (Some(last), v));
            proof {
                assert(self.levels()[lvl as int] =~= base.union_prefer_right(
                    batch_map(entries0.skip(j - 1), Some(last)),
                ));
            }
            match prev {
                Some(pv) => {
                    proof {
                        assert(base.contains_key(k) && pv == base[k]);
                        assert(entry_keys(entries0.skip(j - 1)).to_set().difference(base.dom())
                            =~= old_new_keys);
                        assert(self.children()[lvl - 1] == subs1[lvl - 1].insert(
                            last,
                            subs1[lvl - 1][last].union(old_new_keys),
                        ));
                    }
                    previous.insert(k, pv.1);
                    proof {
                        assert(previous@ =~= batch_previous(entries0.skip(j - 1), base));
                    }
                },
                None => {
                    let ghost new_keys = entry_keys(entries0.skip(j - 1)).to_set().difference(
                        base.dom(),
                    );
                    proof {
                        assert(!base.contains_key(k));
                        assert(new_keys =~= old_new_keys.insert(k));
                        assert(previous@ =~= batch_previous(entries0.skip(j - 1), base));
                        assert(self.children()[lvl as int] == child_view(self.sub@[lvl as int]));
                        assert(self.children()[lvl - 1] == child_view(self.sub@[lvl - 1]));
                    }
                    add_empty_child_list(&mut self.sub, lvl, k);
                    proof {
                        assert(self.children()[lvl as int] == child_view(self.sub@[lvl as int]));
                        assert(self.children()[lvl as int] =~~= subs1[lvl as int]
                            .union_prefer_right(empty_children(new_keys)));
                        assert(self.children()[lvl - 1] == child_view(self.sub@[lvl - 1]));
                        assert(self.children()[lvl - 1] == subs1[lvl - 1].insert(
                            last,
                            subs1[lvl - 1][last].union(old_new_keys),
                        ));
                        // The new key is not yet in the parent's child list:
                        // it has no entry on the target level, and it was not
                        // processed before.
                        assert(!subs1[lvl - 1][last].contains(k));
                        assert(!old_new_keys.contains(k));
                        assert(self.children()[lvl - 1].contains_key(last));
                        assert(child_view(self.sub@[lvl - 1]).dom() =~= self.sub@[lvl - 1]@.dom());
                        assert(self.sub@[lvl - 1]@.contains_key(last));
                        assert(self.sub@[lvl - 1]@[last]@.to_set() == self.children()[lvl - 1][
                            last]);
                        assert(!self.sub@[lvl - 1]@[last]@.to_set().contains(k));
                        assert(!self.sub@[lvl - 1]@[last]@.contains(k));
                    }
                    register_child(&mut self.sub, lvl - 1, last, k);
                    proof {
                        assert(self.children()[lvl - 1] == child_view(self.sub@[lvl - 1]));
                        assert(self.children()[lvl - 1] =~~= subs1[lvl - 1].insert(
                            last,
                            subs1[lvl - 1][last].union(new_keys),
                        ));
                        assert(self.children()[lvl as int] =~~= subs1[lvl as int]
                            .union_prefer_right(empty_children(new_keys)));
                    }
                },
            }
        }
        proof {
            assert(entries0.skip(0) =~= entries0);
            let bm = batch_map(entries0, Some(last));
            assert(bm.dom().difference(base.dom()) =~= entry_keys(entries0).to_set().difference(
                base.dom(),
            ));
            assert forall|k2: u64|
                #[trigger] bm.contains_key(k2) && base.contains_key(k2) implies base[k2].0 == Some(
                last,
            ) by {
                let ks = entry_keys(entries0);
                assert(ks.to_set().contains(k2));
                let jj = choose|jj: int| 0 <= jj < ks.len() && ks[jj] == k2;
                assert(!entry_conflicts(base, entries0, last, jj));
            }
            lemma_inv_batch_child(pools1, subs1, lvl as int, last, bm);
            assert(self.levels() =~~= pools1.update(
                lvl as int,
                pools1[lvl as int].union_prefer_right(bm),
            ));
            assert(self.children() =~~= subs1.update(
                lvl as int,
                subs1[lvl as int].union_prefer_right(
                    empty_children(bm.dom().difference(base.dom())),
                ),
            ).update(
                lvl - 1,
                subs1[lvl - 1].insert(
                    last,
                    subs1[lvl - 1][last].union(bm.dom().difference(base.dom())),
                ),
            ));
            assert(inv(self.levels(), self.children()));
        }
        Ok(previous)
    }

    /// Write a parentless batch directly into level 0: each entry lands
    /// there, brand-new keys get empty child lists, and the values the batch
    /// overwrote are returned.
    fn insert_many_root_level(&mut self, entries: Vec<(u64, V)>) -> (r: HashMap<u64, V>)
        requires
            old(self).wf(),
            old(self).levels().len() >= 1,
            entry_keys(entries@).no_duplicates(),
        ensures
            final(self).wf(),
            ({
                let pools1 = old(self).levels();
                let subs1 = old(self).children();
                let bm = batch_map(entries@, None);
                let newkeys = bm.dom().difference(pools1[0].dom());
                &&& final(self).levels() == pools1.update(0, pools1[0].union_prefer_right(bm))
                &&& final(self).children() == subs1.update(
                    0,
                    subs1[0].union_prefer_right(empty_children(newkeys)),
                )
                &&& r@ == batch_previous(entries@, pools1[0])
            }),
    {
        let ghost pools1 = self.levels();
        let ghost subs1 = self.children();
        let ghost entries0 = entries@;
        let ghost base = pools1[0];
        let mut previous: HashMap<u64, V> = HashMap::new();
        let mut rem = entries;
        proof {
            let all: int = entries0.len() as int;
            lemma_batch_map_entries(entries0, None);
            assert(rem@ =~= entries0.take(all));
            assert(entries0.skip(all) =~= Seq::<(u64, V)>::empty());
            assert(base.union_prefer_right(batch_map(entries0.skip(all), None)) =~= base);
            assert(entry_keys(entries0.skip(all)).to_set().difference(base.dom())
                =~= Set::<u64>::empty());
            assert(subs1[0].union_prefer_right(empty_children(Set::<u64>::empty())) =~~= subs1[0]);
            assert(previous@ =~= batch_previous(entries0.skip(all), base));
        }
        while rem.len() > 0
            invariant
                entry_keys(entries0).no_duplicates(),
                rem@ == entries0.take(rem@.len() as int),
                rem@.len() <= entries0.len(),
                self.pool@.len() == pools1.len(),
                self.sub@.len() == pools1.len(),
                1 <= pools1.len(),
                base == pools1[0],
                inv(pools1, subs1),
                forall|l: int| 0 < l < pools1.len() ==> self.levels()[l] == pools1[l],
                forall|l: int| 0 < l < pools1.len() ==> self.children()[l] == subs1[l],
                self.levels()[0] == base.union_prefer_right(
                    batch_map(entries0.skip(rem@.len() as int), None),
                ),
                self.children()[0] == subs1[0].union_prefer_right(
                    empty_children(
                        entry_keys(entries0.skip(rem@.len() as int)).to_set().difference(
                            base.dom(),
                        ),
                    ),
                ),
                previous@ == batch_previous(entries0.skip(rem@.len() as int), base),
                self.child_lists_distinct(),
            decreases rem@.len(),
        {
            let ghost j = rem@.len() as int;
            let ghost old_done = entries0.skip(j);
            let ghost old_new_keys = entry_keys(old_done).to_set().difference(base.dom());
            let (k, v) = rem.pop().unwrap();
            proof {
                assert(rem@ =~= entries0.take(j - 1));
                lemma_entry_keys_skip_unfold(entries0, j);
                assert((k, v) == entries0[j - 1]);
                lemma_batch_map_entries(old_done, None);
                assert(!batch_map(old_done, None).contains_key(k));
                assert(batch_map(entries0.skip(j - 1), None) == batch_map(old_done, None).insert(
                    k,
                    (None, v),
                ));
            }
            let pm = vec_index_mut(&mut self.pool, 0);
            let prev = pm.insert(k, (None, v));
            proof {
                assert(self.levels()[0] =~= base.union_prefer_right(
                    batch_map(entries0.skip(j - 1), None),
                ));
            }
            match prev {
                Some(pv) => {
                    proof {
                        assert(base.contains_key(k) && pv == base[k]);
                        assert(entry_keys(entries0.skip(j - 1)).to_set().difference(base.dom())
                            =~= old_new_keys);
                    }
                    previous.insert(k, pv.1);
                    proof {
                        assert(previous@ =~= batch_previous(entries0.skip(j - 1), base));
                    }
                },
                None => {
                    let ghost new_keys = entry_keys(entries0.skip(j - 1)).to_set().difference(
                        base.dom(),
                    );
                    proof {
                        assert(!base.contains_key(k));
                        assert(new_keys =~= old_new_keys.insert(k));
                        assert(previous@ =~= batch_previous(entries0.skip(j - 1), base));
                        assert(self.children()[0] == child_view(self.sub@[0]));
                    }
                    add_empty_child_list(&mut self.sub, 0, k);
                    proof {
                        assert(self.children()[0] == child_view(self.sub@[0]));
                        assert(self.children()[0] =~~= subs1[0].union_prefer_right(
                            empty_children(new_keys),
                        ));
                    }
                },
            }
        }
        proof {
            assert(entries0.skip(0) =~= entries0);
            let bm = batch_map(entries0, None);
            lemma_batch_map_entries(entries0, None);
            assert(bm.dom().difference(base.dom()) =~= entry_keys(entries0).to_set().difference(
                base.dom(),
            ));
            lemma_inv_batch_root(pools1, subs1, bm);
            assert(self.levels() =~~= pools1.update(0, pools1[0].union_prefer_right(bm)));
            assert(self.children() =~~= subs1.update(
                0,
                subs1[0].union_prefer_right(empty_children(bm.dom().difference(base.dom()))),
            ));
            assert(inv(self.levels(), self.children()));
        }
        previous
    }

    /// Insert a batch of entries one level below the entry addressed by
    /// `key_chain` at `start_level`, following `model::spec_insert_many`.  A
    /// new deepest level is appended first when needed; a batch key existing
    /// there under a different parent fails the whole call before any entry
    /// is written; otherwise every entry is written under the chain's last
    /// element and the values the batch overwrote are returned.  An empty
    /// chain at start level 0 writes the batch directly into level 0.
    pub fn insert_many(
        &mut self,
        key_chain: &[u64],
        entries: Vec<(u64, V)>,
        start_level: usize,
    ) -> (r: Result<HashMap<u64, V>, LeveledHashMapError>)
        requires
            old(self).wf(),
            entry_keys(entries@).no_duplicates(),
        ensures
            final(self).wf(),
            ({
                let eff = spec_insert_many(
                    old(self).levels(),
                    old(self).children(),
                    key_chain@,
                    entries@,
                    start_level as int,
                );
                &&& final(self).levels() == eff.pools
                &&& final(self).children() == eff.subs
                &&& match r {
                    Ok(prev) => eff.result == Ok::<Map<u64, V>, LeveledHashMapError>(prev@),
                    Err(e) => eff.result == Err::<Map<u64, V>, LeveledHashMapError>(e),
                }
            }),
    {
        let ghost pools0 = self.levels();
        let ghost subs0 = self.children();
        let m = key_chain.len();
        let pool_len = self.pool.len();
        if m >= 1 && m - 1 > pool_len {
            return Err(LeveledHashMapError::KeyTooMany);
        }
        match self.resolve_chain(key_chain, start_level) {
            Ok(_) => {
                proof {
                    lemma_resolve_from_characterize(pools0, key_chain@, start_level as int, 0);
                    assert(m + start_level <= pool_len);
                    assert(step_ok(pools0, key_chain@, start_level as int, m - 1));
                }
                let lvl = m + start_level;
                if lvl == pool_len {
                    self.pool.push(HashMap::new());
                    self.sub.push(HashMap::new());
                    proof {
                        assert(self.levels() =~~= pools0.push(Map::empty()));
                        assert(self.children() =~~= subs0.push(Map::empty()));
                        lemma_inv_push_empty(pools0, subs0);
                        assert(self.child_lists_distinct());
                    }
                }
                let ghost pools1 = self.levels();
                let ghost subs1 = self.children();
                proof {
                    assert(self.wf());
                    assert(pools1[lvl - 1] == pools0[lvl - 1]);
                }
                let last = key_chain[m - 1];
                let r = self.insert_many_under(lvl, last, entries);
                proof {
                    let eff = spec_insert_many(
                        pools0,
                        subs0,
                        key_chain@,
                        entries@,
                        start_level as int,
                    );
                    assert(eff.pools == self.levels() && eff.subs == self.children());
                }
                r
            },
            Err(e) => match e {
                LeveledHashMapError::KeyChainEmpty => {
                    if start_level > 0 {
                        return Err(LeveledHashMapError::KeyChainEmpty);
                    }
                    proof {
                        // Only an empty chain resolves to this error.
                        if m != 0 {
                            if m + start_level <= pools0.len() {
                                lemma_resolve_from_characterize(
                                    pools0,
                                    key_chain@,
                                    start_level as int,
                                    0,
                                );
                            }
                            assert(false);
                        }
                    }
                    if self.pool.is_empty() {
                        self.pool.push(HashMap::new());
                        self.sub.push(HashMap::new());
                        proof {
                            assert(self.levels() =~~= pools0.push(Map::empty()));
                            assert(self.children() =~~= subs0.push(Map::empty()));
                            lemma_inv_push_empty(pools0, subs0);
                            assert(self.child_lists_distinct());
                        }
                    }
                    proof {
                        assert(self.wf());
                    }
                    let prev = self.insert_many_root_level(entries);
                    proof {
                        let eff = spec_insert_many(
                            pools0,
                            subs0,
                            key_chain@,
                            entries@,
                            start_level as int,
                        );
                        assert(eff.pools == self.levels() && eff.subs == self.children());
                    }
                    Ok(prev)
                },
                _ => Err(e),
            },
        }
    }

    /// Cut one whole generation out of level `lvl`: remove every key of
    /// `frontier` from the pool and the child index there, and return the
    /// removed entries together with the concatenation of their child lists
    /// (the next generation).
    fn remove_generation(&mut self, lvl: usize, frontier: &Vec<u64>) -> (r: (
        Vec<(u64, Option<u64>, V)>,
        Vec<u64>,
    ))
        requires
            old(self).child_lists_distinct(),
            old(self).levels().len() == old(self).children().len(),
            lvl < old(self).levels().len(),
            frontier@.no_duplicates(),
            forall|t: int|
                0 <= t < frontier@.len() ==> old(self).levels()[lvl as int].contains_key(
                    #[trigger] frontier@[t],
                ) && old(self).children()[lvl as int].contains_key(frontier@[t]),
            forall|t1: int, t2: int|
                0 <= t1 < frontier@.len() && 0 <= t2 < frontier@.len() && t1 != t2
                    ==> old(self).children()[lvl as int][#[trigger] frontier@[t1]].disjoint(
                    old(self).children()[lvl as int][#[trigger] frontier@[t2]],
                ),
        ensures
            final(self).levels().len() == old(self).levels().len(),
            final(self).children().len() == old(self).children().len(),
            forall|l: int|
                0 <= l < old(self).levels().len() && l != lvl ==> final(self).levels()[l]
                    == old(self).levels()[l],
            forall|l: int|
                0 <= l < old(self).children().len() && l != lvl ==> final(self).children()[l]
                    == old(self).children()[l],
            final(self).levels()[lvl as int] == old(self).levels()[lvl as int].remove_keys(
                frontier@.to_set(),
            ),
            final(self).children()[lvl as int] == old(self).children()[lvl as int].remove_keys(
                frontier@.to_set(),
            ),
            final(self).child_lists_distinct(),
            triple_keys(r.0@) == frontier@,
            forall|t: int|
                0 <= t < r.0@.len() ==> r.0@[t] == (
                    frontier@[t],
                    old(self).levels()[lvl as int][frontier@[t]].0,
                    old(self).levels()[lvl as int][frontier@[t]].1,
                ),
            r.1@.no_duplicates(),
            r.1@.to_set() == child_step(old(self).children(), lvl as int, frontier@.to_set()),
    {
        let ghost pools1 = self.levels();
        let ghost subs1 = self.children();
        let mut chunk: Vec<(u64, Option<u64>, V)> = Vec::new();
        let mut next: Vec<u64> = Vec::new();
        let flen = frontier.len();
        let mut i: usize = 0;
        proof {
            assert(frontier@.take(0) =~= Seq::<u64>::empty());
            assert(Seq::<u64>::empty().to_set() =~= Set::<u64>::empty());
            assert(pools1[lvl as int].remove_keys(Set::<u64>::empty()) =~= pools1[lvl as int]);
            assert(subs1[lvl as int].remove_keys(Set::<u64>::empty()) =~= subs1[lvl as int]);
            assert(child_step(subs1, lvl as int, Set::<u64>::empty()) =~= Set::<u64>::empty());
            assert(triple_keys(chunk@) =~= frontier@.take(0));
        }
        while i < flen
            invariant
                0 <= i <= flen,
                flen == frontier@.len(),
                frontier@.no_duplicates(),
                forall|t: int|
                    0 <= t < frontier@.len() ==> pools1[lvl as int].contains_key(
                        #[trigger] frontier@[t],
                    ) && subs1[lvl as int].contains_key(frontier@[t]),
                forall|t1: int, t2: int|
                    0 <= t1 < frontier@.len() && 0 <= t2 < frontier@.len() && t1 != t2
                        ==> subs1[lvl as int][#[trigger] frontier@[t1]].disjoint(
                        subs1[lvl as int][#[trigger] frontier@[t2]],
                    ),
                pools1.len() == subs1.len(),
                0 <= lvl < pools1.len(),
                self.levels().len() == pools1.len(),
                self.children().len() == subs1.len(),
                forall|l: int| 0 <= l < pools1.len() && l != lvl ==> self.levels()[l] == pools1[l],
                forall|l: int|
                    0 <= l < subs1.len() && l != lvl ==> self.children()[l] == subs1[l],
                self.levels()[lvl as int] == pools1[lvl as int].remove_keys(
                    frontier@.take(i as int).to_set(),
                ),
                self.children()[lvl as int] == subs1[lvl as int].remove_keys(
                    frontier@.take(i as int).to_set(),
                ),
                self.child_lists_distinct(),
                chunk@.len() == i,
                triple_keys(chunk@) == frontier@.take(i as int),
                forall|t: int|
                    0 <= t < chunk@.len() ==> chunk@[t] == (
                        frontier@[t],
                        pools1[lvl as int][frontier@[t]].0,
                        pools1[lvl as int][frontier@[t]].1,
                    ),
                next@.no_duplicates(),
                next@.to_set() == child_step(subs1, lvl as int, frontier@.take(i as int).to_set()),
            decreases flen - i,
        {
            let k = frontier[i];
            let ghost done = frontier@.take(i as int).to_set();
            proof {
                assert(frontier@[i as int] == k);
                if frontier@.take(i as int).contains(k) {
                    let t = choose|t: int|
                        0 <= t < i && frontier@.take(i as int)[t] == k;
                    assert(frontier@[t] == frontier@[i as int]);
                }
                assert(!done.contains(k));
                assert(frontier@.take(i + 1) =~= frontier@.take(i as int).push(k));
                lemma_seq_to_set_push(frontier@.take(i as int), k);
            }
            let pm = vec_index_mut(&mut self.pool, lvl);
            let removed = pm.remove(&k).unwrap();
            let (pk2, v2) = removed;
            chunk.push((k, pk2, v2));
            proof {
                assert(self.levels()[lvl as int] =~= pools1[lvl as int].remove_keys(
                    frontier@.take(i + 1).to_set(),
                ));
                assert(triple_keys(chunk@) =~= frontier@.take(i + 1));
            }
            let ghost sub_lvl_before = self.sub@[lvl as int];
            proof {
                assert(self.children()[lvl as int] == child_view(sub_lvl_before));
                assert(self.children()[lvl as int].contains_key(k));
                assert(child_view(sub_lvl_before).dom() =~= sub_lvl_before@.dom());
                assert(sub_lvl_before@.contains_key(k));
                assert(sub_lvl_before@[k]@.no_duplicates());
            }
            let sm = vec_index_mut(&mut self.sub, lvl);
            let mut kids = sm.remove(&k).unwrap();
            proof {
                assert(self.sub@[lvl as int]@ == sub_lvl_before@.remove(k));
                assert(self.children()[lvl as int] == child_view(self.sub@[lvl as int]));
                assert(child_view(self.sub@[lvl as int]) =~= child_view(sub_lvl_before).remove(k));
                assert(self.children()[lvl as int] =~= subs1[lvl as int].remove_keys(
                    frontier@.take(i + 1).to_set(),
                ));
                assert(kids@ == sub_lvl_before@[k]@);
                assert(kids@.no_duplicates());
                assert(child_view(sub_lvl_before)[k] == kids@.to_set());
                assert(child_view(sub_lvl_before)[k] == subs1[lvl as int][k]);
                assert(kids@.to_set() == subs1[lvl as int][k]);
                assert forall|l2: int, p: u64|
                    0 <= l2 < self.sub@.len() && #[trigger] self.sub@[l2]@.contains_key(p) implies
                    self.sub@[l2]@[p]@.no_duplicates() by {
                    if l2 == lvl {
                        assert(self.sub@[lvl as int]@[p] == sub_lvl_before@[p]);
                    }
                }
                // The next generation so far shares no key with this child
                // list: each is pinned to its own parent.
                assert forall|t1: int, t2: int|
                    0 <= t1 < next@.len() && 0 <= t2 < kids@.len() implies next@[t1]
                    != kids@[t2] by {
                    if next@[t1] == kids@[t2] {
                        let c = next@[t1];
                        assert(next@.to_set().contains(c));
                        assert(kids@.to_set().contains(c));
                        let p = choose|p: u64|
                            done.contains(p) && 0 <= lvl < subs1.len()
                                && subs1[lvl as int].contains_key(p) && #[trigger] subs1[lvl
                                as int][p].contains(c);
                        let t = choose|t: int| 0 <= t < i && frontier@.take(i as int)[t] == p;
                        assert(frontier@[t] == p);
                        assert(subs1[lvl as int][frontier@[t]].disjoint(
                            subs1[lvl as int][frontier@[i as int]],
                        ));
                    }
                }
                lemma_no_dup_in_concat(next@, kids@);
                seq_to_set_distributes_over_add(next@, kids@);
                lemma_child_step_extend(subs1, lvl as int, done, k);
            }
            next.append(&mut kids);
            proof {
                assert(next@.to_set() =~= child_step(
                    subs1,
                    lvl as int,
                    frontier@.take(i + 1).to_set(),
                ));
            }
            i += 1;
        }
        proof {
            assert(frontier@.take(flen as int) =~= frontier@);
        }
        (chunk, next)
    }

    /// Cut one entry out of its level and out of its parent's child set,
    /// returning its value and its child list (the first generation of
    /// descendants still to cut).
    fn cut_entry(&mut self, level: usize, key: u64, parent: Option<u64>) -> (r: (V, Vec<u64>))
        requires
            old(self).wf(),
            level < old(self).levels().len(),
            old(self).levels()[level as int].contains_key(key),
            old(self).levels()[level as int][key].0 == parent,
        ensures
            final(self).levels().len() == old(self).levels().len(),
            final(self).children().len() == old(self).children().len(),
            forall|l: int|
                0 <= l < old(self).levels().len() && l != level ==> final(self).levels()[l]
                    == old(self).levels()[l],
            forall|l: int|
                0 <= l < old(self).children().len() && l != level && !(level > 0 && l == level
                    - 1) ==> final(self).children()[l] == old(self).children()[l],
            final(self).levels()[level as int] == old(self).levels()[level as int].remove(key),
            final(self).children()[level as int] == old(self).children()[level as int].remove(key),
            level > 0 ==> final(self).children()[level - 1] == old(self).children()[level
                - 1].insert(
                parent.unwrap(),
                old(self).children()[level - 1][parent.unwrap()].remove(key),
            ),
            final(self).child_lists_distinct(),
            r.0 == old(self).levels()[level as int][key].1,
            r.1@.no_duplicates(),
            r.1@.to_set() == old(self).children()[level as int][key],
    {
        let ghost pools0 = self.levels();
        let ghost subs0 = self.children();
        // Cut the entry itself out of its level.
        let pm = vec_index_mut(&mut self.pool, level);
        let removed = pm.remove(&key).unwrap();
        let value = removed.1;
        // Detach it from its parent's child list.
        if level > 0 {
            let p = parent.unwrap();
            proof {
                assert(subs0[level - 1].contains_key(p) && subs0[level - 1][p].contains(key));
                assert(self.children()[level - 1] == child_view(self.sub@[level - 1]));
                assert(child_view(self.sub@[level - 1]).dom() =~= self.sub@[level - 1]@.dom());
                assert(self.sub@[level - 1]@.contains_key(p));
                assert(self.sub@[level - 1]@[p]@.no_duplicates());
            }
            remove_child(&mut self.sub, level - 1, p, key);
            proof {
                assert(self.children()[level - 1] == child_view(self.sub@[level - 1]));
                assert(self.children()[level - 1] =~~= subs0[level - 1].insert(
                    p,
                    subs0[level - 1][p].remove(key),
                ));
            }
        }
        // Take the entry's child list out of the child index.
        let ghost sub_level_before = self.sub@[level as int];
        proof {
            assert(self.children()[level as int] == child_view(sub_level_before));
            assert(self.children()[level as int] == subs0[level as int]);
            assert(subs0[level as int].contains_key(key));
            assert(child_view(sub_level_before).dom() =~= sub_level_before@.dom());
            assert(sub_level_before@.contains_key(key));
            assert(sub_level_before@[key]@.no_duplicates());
        }
        let sm = vec_index_mut(&mut self.sub, level);
        let kids = sm.remove(&key).unwrap();
        proof {
            assert(self.sub@[level as int]@ == sub_level_before@.remove(key));
            assert(self.children()[level as int] == child_view(self.sub@[level as int]));
            assert(child_view(self.sub@[level as int]) =~= child_view(sub_level_before).remove(
                key,
            ));
            assert(kids@ == sub_level_before@[key]@);
            assert(child_view(sub_level_before)[key] == kids@.to_set());
            assert(kids@.to_set() == subs0[level as int][key]);
            assert forall|l2: int, p: u64|
                0 <= l2 < self.sub@.len() && #[trigger] self.sub@[l2]@.contains_key(p) implies
                self.sub@[l2]@[p]@.no_duplicates() by {
                if l2 == level {
                    assert(self.sub@[level as int]@[p] == sub_level_before@[p]);
                }
            }
        }
        (value, kids)
    }

    /// Remove the entry addressed by a key chain at `start_level`, following
    /// `model::spec_remove`: the entry leaves its level and its parent's
    /// child set, its whole descendant subtree is cut out, and the call
    /// returns the entry's stored parent key, its value, and the cut entries
    /// grouped by relative depth (index 0 the direct children, index 1 the
    /// grandchildren, and so on).
    #[verifier::rlimit(100)]
    #[verifier::spinoff_prover]
    pub fn remove_professional(&mut self, key_chain: &[u64], start_level: usize) -> (r: Result<
        (Option<u64>, V, Vec<Vec<(u64, Option<u64>, V)>>),
        LeveledHashMapError,
    >)
        requires
            old(self).wf(),
        ensures
            final(self).wf(),
            ({
                let eff = spec_remove(
                    old(self).levels(),
                    old(self).children(),
                    key_chain@,
                    start_level as int,
                );
                &&& final(self).levels() == eff.pools
                &&& final(self).children() == eff.subs
                &&& match r {
                    Ok(t) => eff.result matches Ok(er) && er.0 == t.0 && er.1 == t.1
                        && t.2@.len() == er.2.len() && (forall|d: int|
                        0 <= d < t.2@.len() ==> {
                            &&& triples_to_map(#[trigger] t.2@[d]@) == er.2[d]
                            &&& triple_keys(t.2@[d]@).no_duplicates()
                            &&& t.2@[d]@.len() == er.2[d].dom().len()
                        }),
                    Err(e) => eff.result == Err::<
                        (Option<u64>, V, Seq<LevelMap<V>>),
                        LeveledHashMapError,
                    >(e),
                }
            }),
    {
        let ghost pools0 = self.levels();
        let ghost subs0 = self.children();
        let parent = match self.resolve_chain(key_chain, start_level) {
            Ok(p) => p,
            Err(e) => {
                return Err(e);
            },
        };
        proof {
            lemma_resolve_from_characterize(pools0, key_chain@, start_level as int, 0);
        }
        let n = key_chain.len();
        let pool_len = self.pool.len();
        proof {
            assert(n + start_level <= pool_len);
        }
        let level = start_level + n - 1;
        let key = key_chain[n - 1];
        proof {
            assert(step_ok(pools0, key_chain@, start_level as int, n - 1));
            assert(pools0[level as int].contains_key(key));
            assert(parent == pools0[level as int][key].0);
        }
        let ghost total_depth = frontier_depth(subs0, level as int, set![key]);
        let (value, mut frontier) = self.cut_entry(level, key, parent);
        proof {
            lemma_cut_progress_init(
                pools0,
                subs0,
                self.levels(),
                self.children(),
                level as int,
                key,
                parent,
            );
            // The child list is the first descendant generation.
            lemma_child_step_extend(subs0, level as int, Set::empty(), key);
            assert(child_step(subs0, level as int, Set::empty()) =~= Set::<u64>::empty());
            assert(Set::empty().insert(key) =~= set![key]);
            assert(Set::<u64>::empty().union(subs0[level as int][key]) =~= subs0[level
                as int][key]);
            assert(frontier@.to_set() == descendants(subs0, level as int, key, 1));
            assert(descendants(subs0, level as int, key, 0) =~= set![key]);
        }
        let mut chunks: Vec<Vec<(u64, Option<u64>, V)>> = Vec::new();
        while frontier.len() > 0
            invariant
                inv(pools0, subs0),
                pools0.len() == subs0.len(),
                pools0.len() <= usize::MAX,
                0 <= level < pools0.len(),
                pools0[level as int].contains_key(key),
                parent == pools0[level as int][key].0,
                cut_progress(
                    pools0,
                    subs0,
                    self.levels(),
                    self.children(),
                    level as int,
                    key,
                    parent,
                    chunks@.len() as int,
                ),
                self.child_lists_distinct(),
                frontier@.no_duplicates(),
                frontier@.to_set() == descendants(
                    subs0,
                    level as int,
                    key,
                    (chunks@.len() + 1) as nat,
                ),
                total_depth == chunks@.len() + frontier_depth(
                    subs0,
                    level + chunks@.len(),
                    descendants(subs0, level as int, key, chunks@.len() as nat),
                ),
                forall|e: int|
                    0 <= e < chunks@.len() ==> {
                        &&& triples_to_map(#[trigger] chunks@[e]@) == pools0[level + 1 + e].restrict(
                            descendants(subs0, level as int, key, (e + 1) as nat),
                        )
                        &&& triple_keys(chunks@[e]@).no_duplicates()
                        &&& triple_keys(chunks@[e]@).to_set() == descendants(
                            subs0,
                            level as int,
                            key,
                            (e + 1) as nat,
                        )
                    },
            decreases pools0.len() - level - chunks@.len(),
        {
            let ghost c = chunks@.len() as int;
            let ghost gen = descendants(subs0, level as int, key, (c + 1) as nat);
            let ghost prev_pools = self.levels();
            let ghost prev_subs = self.children();
            proof {
                lemma_generation_prereqs(pools0, subs0, level as int, key, frontier@, c + 1);
            }
            let lvl = level + chunks.len() + 1;
            proof {
                assert(self.levels()[lvl as int] == pools0[lvl as int]);
                assert(self.children()[lvl as int] == subs0[lvl as int]);
            }
            let (chunk, next) = self.remove_generation(lvl, &frontier);
            proof {
                // The cut generation, read back as a level fragment.
                lemma_chunk_restrict(chunk@, frontier@, pools0[lvl as int]);
                // The state advanced by one cut generation.
                lemma_cut_progress_step(
                    pools0,
                    subs0,
                    prev_pools,
                    prev_subs,
                    self.levels(),
                    self.children(),
                    level as int,
                    key,
                    parent,
                    c,
                );
                // The next generation.
                lemma_child_step_agree(prev_subs, subs0, lvl as int, gen);
                assert(next@.to_set() == descendants(subs0, level as int, key, (c + 2) as nat));
                // One more generation of depth is accounted for.
                assert(child_step(subs0, level + c, descendants(subs0, level as int, key, c as nat))
                    == gen);
                assert(gen.contains(frontier@[0]));
                assert(!gen.is_empty());
                assert(frontier_depth(
                    subs0,
                    level + c,
                    descendants(subs0, level as int, key, c as nat),
                ) == 1 + frontier_depth(subs0, level + c + 1, gen));
            }
            chunks.push(chunk);
            frontier = next;
        }
        proof {
            let c = chunks@.len() as int;
            assert(frontier@.to_set() =~= Set::<u64>::empty());
            lemma_remove_tail(pools0, subs0, level as int, key, c);
            assert(total_depth == c);
            lemma_remove_assemble(
                pools0,
                subs0,
                self.levels(),
                self.children(),
                level as int,
                key,
                parent,
                c,
            );
            let eff = spec_remove(pools0, subs0, key_chain@, start_level as int);
            assert(key_chain@.last() == key);
            assert(target_level(key_chain@, start_level as int) == level);
            assert(self.levels() == eff.pools);
            assert(self.children() == eff.subs);
            assert(inv(self.levels(), self.children()));
            // Chunk sizes match the cut sets.
            assert(eff.result matches Ok(er) && er.2.len() == c);
            assert forall|d: int| 0 <= d < c implies chunks@[d]@.len() == pools0[level + 1
                + d].restrict(descendants(subs0, level as int, key, (d + 1) as nat)).dom().len()
                by {
                triple_keys(chunks@[d]@).unique_seq_to_set();
                assert(triple_keys(chunks@[d]@).len() == chunks@[d]@.len());
            }
        }
        Ok((parent, value, chunks))
    }

    /// Remove the entry addressed by a key chain at `start_level`, returning
    /// its value and its descendants grouped by relative depth, or `None` if
    /// the chain does not resolve.
    pub fn remove_advanced(&mut self, key_chain: &[u64], start_level: usize) -> (r: Option<
        (V, Vec<Vec<(u64, Option<u64>, V)>>),
    >)
        requires
            old(self).wf(),
        ensures
            final(self).wf(),
            ({
                let eff = spec_remove(
                    old(self).levels(),
                    old(self).children(),
                    key_chain@,
                    start_level as int,
                );
                &&& final(self).levels() == eff.pools
                &&& final(self).children() == eff.subs
                &&& match r {
                    Some(t) => eff.result matches Ok(er) && er.1 == t.0 && t.1@.len()
                        == er.2.len() && (forall|d: int|
                        0 <= d < t.1@.len() ==> {
                            &&& triples_to_map(#[trigger] t.1@[d]@) == er.2[d]
                            &&& triple_keys(t.1@[d]@).no_duplicates()
                            &&& t.1@[d]@.len() == er.2[d].dom().len()
                        }),
                    None => eff.result is Err,
                }
            }),
    {
        match self.remove_professional(key_chain, start_level) {
            Ok(t) => Some((t.1, t.2)),
            Err(_) => None,
        }
    }

    /// Remove the entry addressed by a key chain starting at level 0,
    /// returning its value and its descendants grouped by relative depth, or
    /// `None` if the chain does not resolve.
    pub fn remove(&mut self, key_chain: &[u64]) -> (r: Option<
        (V, Vec<Vec<(u64, Option<u64>, V)>>),
    >)
        requires
            old(self).wf(),
        ensures
            final(self).wf(),
            ({
                let eff = spec_remove(old(self).levels(), old(self).children(), key_chain@, 0);
                &&& final(self).levels() == eff.pools
                &&& final(self).children() == eff.subs
                &&& match r {
                    Some(t) => eff.result matches Ok(er) && er.1 == t.0 && t.1@.len()
                        == er.2.len() && (forall|d: int|
                        0 <= d < t.1@.len() ==> {
                            &&& triples_to_map(#[trigger] t.1@[d]@) == er.2[d]
                            &&& triple_keys(t.1@[d]@).no_duplicates()
                            &&& t.1@[d]@.len() == er.2[d].dom().len()
                        }),
                    None => eff.result is Err,
                }
            }),
    {
        self.remove_advanced(key_chain, 0)
    }

    /// The keys at a level, each with the set of its children's keys, or
    /// `None` if the level does not exist.  The returned map's key domain is
    /// exactly the set of keys present at `level`.
    pub fn keys(&self, level: usize) -> (r: Option<&HashMap<u64, Vec<u64>>>)
        ensures
            match r {
                Some(m) => level < self.children().len()
                    && m@.map_values(|l: Vec<u64>| l@.to_set()) == self.children()[level as int],
                None => level >= self.children().len(),
            },
    {
        if level < self.sub.len() {
            Some(&self.sub[level])
        } else {
            None
        }
    }
}

impl<V> Default for LeveledHashMap<V> {
    /// The default `LeveledHashMap` is the empty one.
    fn default() -> (r: Self)
        ensures
            r.wf(),
            r.levels() == Seq::<LevelMap<V>>::empty(),
            r.children() == Seq::<ChildMap>::empty(),
    {
        LeveledHashMap::new()
    }
}

} // verus!
