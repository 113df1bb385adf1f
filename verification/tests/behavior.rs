use leveled_hash_map::{LeveledHashMap, LeveledHashMapError};

const US: u64 = 1;
const NY: u64 = 2;
const CA: u64 = 3;
const FOOD: u64 = 10;
const DESSERT: u64 = 11;
const MEAT: u64 = 12;
const CAKE: u64 = 13;
const SOUP: u64 = 14;
const A: u64 = 20;
const B: u64 = 21;
const X: u64 = 22;

#[test]
fn round_trip_and_overwrite() {
    let mut map: LeveledHashMap<u32> = LeveledHashMap::new();

    assert_eq!(Ok(None), map.insert(&[FOOD], 7));
    assert_eq!(Some(&7), map.get(&[FOOD]));

    // A second insert on the same chain reports the value it replaced.
    assert_eq!(Ok(Some(7)), map.insert(&[FOOD], 8));
    assert_eq!(Some(&8), map.get(&[FOOD]));

    assert_eq!(Ok(None), map.insert(&[FOOD, DESSERT], 30));
    assert_eq!(Some(&30), map.get(&[FOOD, DESSERT]));
    assert_eq!(Ok(Some(30)), map.insert(&[FOOD, DESSERT], 31));
    assert_eq!(Some(&31), map.get(&[FOOD, DESSERT]));
}

#[test]
fn depth_limit() {
    let mut map: LeveledHashMap<u32> = LeveledHashMap::new();
    map.insert(&[FOOD], 1).unwrap();

    // The deepest level is 0: a chain of length 3 skips a level.
    assert_eq!(
        Err(LeveledHashMapError::KeyTooMany),
        map.insert(&[FOOD, DESSERT, CAKE], 2)
    );

    // A chain of length 2 creates exactly one new deepest level.
    assert_eq!(Ok(None), map.insert(&[FOOD, DESSERT], 2));
    assert_eq!(Some(&2), map.get(&[FOOD, DESSERT]));
}

#[test]
fn lineage_check() {
    let mut map: LeveledHashMap<u32> = LeveledHashMap::new();
    map.insert(&[A], 1).unwrap();
    map.insert(&[B], 2).unwrap();
    map.insert(&[A, X], 3).unwrap();

    // The key is level-wide: a single-key chain finds it at its level.
    assert_eq!(Some(&3), map.get_advanced(&[X], 1));

    // A two-key chain under the wrong parent reports the real one.
    assert_eq!(
        Err(LeveledHashMapError::KeyChainIncorrect { level: 1, key: X, last_key: Some(A) }),
        map.get_professional(&[B, X], 0).map(|_| ())
    );
}

#[test]
fn removal_completeness() {
    let mut map: LeveledHashMap<u32> = LeveledHashMap::new();
    map.insert(&[FOOD], 1).unwrap();
    map.insert(&[FOOD, DESSERT], 2).unwrap();
    map.insert(&[FOOD, MEAT], 3).unwrap();
    map.insert(&[FOOD, DESSERT, CAKE], 4).unwrap();
    map.insert(&[FOOD, MEAT, SOUP], 5).unwrap();

    let (value, descendants) = map.remove(&[FOOD]).unwrap();
    assert_eq!(1, value);
    // Two direct children, two grandchildren, grouped by relative depth.
    assert_eq!(2, descendants.len());
    assert_eq!(2, descendants[0].len());
    assert_eq!(2, descendants[1].len());
    assert!(descendants[0].iter().any(|t| *t == (DESSERT, Some(FOOD), 2)));
    assert!(descendants[0].iter().any(|t| *t == (MEAT, Some(FOOD), 3)));
    assert!(descendants[1].iter().any(|t| *t == (CAKE, Some(DESSERT), 4)));
    assert!(descendants[1].iter().any(|t| *t == (SOUP, Some(MEAT), 5)));

    // Everything cut is gone.
    assert_eq!(None, map.get(&[FOOD]));
    assert_eq!(None, map.get_advanced(&[DESSERT], 1));
    assert_eq!(None, map.get_advanced(&[CAKE], 2));
    assert_eq!(None, map.get_advanced(&[SOUP], 2));
}

#[test]
fn keys_domain_matches_lookup() {
    let mut map: LeveledHashMap<u32> = LeveledHashMap::new();
    map.insert(&[FOOD], 1).unwrap();
    map.insert(&[FOOD, DESSERT], 2).unwrap();
    map.insert(&[FOOD, MEAT], 3).unwrap();

    let level1 = map.keys(1).unwrap();
    assert_eq!(2, level1.len());
    assert!(level1.contains_key(&DESSERT));
    assert!(level1.contains_key(&MEAT));

    let keys: Vec<u64> = level1.keys().copied().collect();
    for k in keys {
        assert!(map.get_advanced(&[k], 1).is_some());
    }
    assert!(map.get_advanced(&[CAKE], 1).is_none());

    // The returned mapping doubles as the child index.
    let level0 = map.keys(0).unwrap();
    let food_children = level0.get(&FOOD).unwrap();
    assert_eq!(2, food_children.len());
    assert!(food_children.contains(&DESSERT));
    assert!(food_children.contains(&MEAT));

    assert!(map.keys(2).is_none());
}

#[test]
fn country_scenario() {
    let mut map: LeveledHashMap<u32> = LeveledHashMap::new();
    map.insert(&[US], 100).unwrap();
    map.insert(&[US, NY], 101).unwrap();
    map.insert(&[US, CA], 102).unwrap();

    let (parent, value, descendants) = map.remove_professional(&[US], 0).unwrap();
    assert_eq!(None, parent);
    assert_eq!(100, value);
    assert_eq!(1, descendants.len());
    assert_eq!(2, descendants[0].len());
    assert!(descendants[0].iter().any(|t| *t == (NY, Some(US), 101)));
    assert!(descendants[0].iter().any(|t| *t == (CA, Some(US), 102)));

    // The resolver reports the shallowest failing level: the country itself.
    assert_eq!(
        Err(LeveledHashMapError::KeyNotExist { level: 0, key: US }),
        map.get_professional(&[US, NY], 0).map(|_| ())
    );
}

#[test]
fn batch_scenario() {
    let mut map: LeveledHashMap<u32> = LeveledHashMap::new();
    map.insert(&[FOOD], 1).unwrap();

    let previous = map.insert_many(&[FOOD], vec![(DESSERT, 100), (MEAT, 101)], 0).unwrap();
    assert!(previous.is_empty());

    assert_eq!(Some(&100), map.get(&[FOOD, DESSERT]));
    assert_eq!(Some(&100), map.get_advanced(&[DESSERT], 1));
    assert_eq!(Some(&101), map.get(&[FOOD, MEAT]));
}

#[test]
fn batch_rejects_conflicting_parent() {
    let mut map: LeveledHashMap<u32> = LeveledHashMap::new();
    map.insert(&[A], 1).unwrap();
    map.insert(&[B], 2).unwrap();
    map.insert(&[A, X], 3).unwrap();

    // X already lives under A: a batch under B must fail whole.
    assert_eq!(
        Err(LeveledHashMapError::KeyChainIncorrect { level: 1, key: X, last_key: Some(A) }),
        map.insert_many(&[B], vec![(X, 9)], 0).map(|_| ())
    );
    assert_eq!(Some(&3), map.get_advanced(&[X], 1));
}

#[test]
fn batch_at_level_zero() {
    let mut map: LeveledHashMap<u32> = LeveledHashMap::new();
    map.insert(&[FOOD], 1).unwrap();

    let previous = map.insert_many(&[], vec![(FOOD, 5), (A, 6)], 0).unwrap();
    assert_eq!(1, previous.len());
    assert_eq!(Some(&1), previous.get(&FOOD));
    assert_eq!(Some(&5), map.get(&[FOOD]));
    assert_eq!(Some(&6), map.get(&[A]));

    // An empty chain above level 0 has nothing to attach to.
    assert_eq!(
        Err(LeveledHashMapError::KeyChainEmpty),
        map.insert_many(&[], vec![(X, 9)], 1).map(|_| ())
    );
}

#[test]
fn error_variants() {
    let mut map: LeveledHashMap<u32> = LeveledHashMap::new();
    map.insert(&[FOOD], 1).unwrap();

    assert_eq!(
        Err(LeveledHashMapError::KeyChainEmpty),
        map.get_professional(&[], 0).map(|_| ())
    );
    assert_eq!(Err(LeveledHashMapError::KeyChainEmpty), map.insert(&[], 9));
    assert_eq!(
        Err(LeveledHashMapError::KeyTooMany),
        map.get_professional(&[FOOD, DESSERT], 0).map(|_| ())
    );
    assert_eq!(
        Err(LeveledHashMapError::KeyTooMany),
        map.get_professional(&[FOOD], 1).map(|_| ())
    );
    assert_eq!(
        Err(LeveledHashMapError::KeyNotExist { level: 0, key: A }),
        map.get_professional(&[A], 0).map(|_| ())
    );
    assert_eq!(
        Err(LeveledHashMapError::KeyTooMany),
        map.remove_professional(&[FOOD, DESSERT], 0).map(|_| ())
    );
}

#[test]
fn mutable_access() {
    let mut map: LeveledHashMap<u32> = LeveledHashMap::new();
    map.insert(&[FOOD], 1).unwrap();
    map.insert(&[FOOD, DESSERT], 2).unwrap();

    *map.get_mut(&[FOOD]).unwrap() = 11;
    assert_eq!(Some(&11), map.get(&[FOOD]));

    *map.get_advanced_mut(&[DESSERT], 1).unwrap() = 22;
    assert_eq!(Some(&22), map.get(&[FOOD, DESSERT]));

    let (parent, value) = map.get_professional_mut(&[FOOD, DESSERT], 0).unwrap();
    assert_eq!(Some(FOOD), parent);
    *value = 33;
    assert_eq!(Some(&33), map.get_advanced(&[DESSERT], 1));

    assert!(map.get_mut(&[A]).is_none());
}

#[test]
fn default_is_empty() {
    let mut map: LeveledHashMap<u32> = LeveledHashMap::default();
    assert!(map.keys(0).is_none());
    assert_eq!(None, map.get(&[FOOD]));
    map.insert(&[FOOD], 1).unwrap();
    assert_eq!(Some(&1), map.get(&[FOOD]));
}

#[test]
fn removal_detaches_from_parent() {
    let mut map: LeveledHashMap<u32> = LeveledHashMap::new();
    map.insert(&[FOOD], 1).unwrap();
    map.insert(&[FOOD, DESSERT], 2).unwrap();
    map.insert(&[FOOD, MEAT], 3).unwrap();

    let (value, descendants) = map.remove(&[FOOD, DESSERT]).unwrap();
    assert_eq!(2, value);
    assert!(descendants.is_empty());

    // The parent's child set no longer lists the removed key.
    let level0 = map.keys(0).unwrap();
    let food_children = level0.get(&FOOD).unwrap();
    assert!(!food_children.contains(&DESSERT));
    assert!(food_children.contains(&MEAT));

    // The key can be inserted afresh under another branch later.
    map.insert(&[FOOD, DESSERT], 9).unwrap();
    assert_eq!(Some(&9), map.get(&[FOOD, DESSERT]));
}

#[test]
fn unbalanced_removal_merges_by_depth() {
    let mut map: LeveledHashMap<u32> = LeveledHashMap::new();
    map.insert(&[FOOD], 1).unwrap();
    map.insert(&[FOOD, DESSERT], 2).unwrap();
    map.insert(&[FOOD, MEAT], 3).unwrap();
    map.insert(&[FOOD, DESSERT, CAKE], 4).unwrap();
    map.insert(&[FOOD, DESSERT, CAKE, X], 5).unwrap();

    // One branch is three levels deep, the other one: the returned list is
    // still indexed by relative depth, not by branch.
    let (value, descendants) = map.remove(&[FOOD]).unwrap();
    assert_eq!(1, value);
    assert_eq!(3, descendants.len());
    assert_eq!(2, descendants[0].len());
    assert_eq!(1, descendants[1].len());
    assert_eq!(1, descendants[2].len());
    assert!(descendants[0].iter().any(|t| *t == (DESSERT, Some(FOOD), 2)));
    assert!(descendants[0].iter().any(|t| *t == (MEAT, Some(FOOD), 3)));
    assert!(descendants[1].iter().any(|t| *t == (CAKE, Some(DESSERT), 4)));
    assert!(descendants[2].iter().any(|t| *t == (X, Some(CAKE), 5)));

    // The levels themselves stay, empty.
    assert!(map.keys(3).is_some());
    assert_eq!(0, map.keys(3).unwrap().len());
}

#[test]
fn batch_at_deeper_start_level() {
    let mut map: LeveledHashMap<u32> = LeveledHashMap::new();
    map.insert(&[A], 1).unwrap();
    map.insert(&[A, X], 2).unwrap();

    // The parent chain is interpreted from level 1: the batch lands at
    // level 2, created on demand.
    let previous = map.insert_many(&[X], vec![(CAKE, 7)], 1).unwrap();
    assert!(previous.is_empty());
    assert_eq!(Some(&7), map.get(&[A, X, CAKE]));
    assert_eq!(Some(&7), map.get_advanced(&[CAKE], 2));

    // A batch under a parent that does not exist is rejected.
    assert_eq!(
        Err(LeveledHashMapError::KeyNotExist { level: 1, key: B }),
        map.insert_many(&[B], vec![(SOUP, 8)], 1).map(|_| ())
    );
}
