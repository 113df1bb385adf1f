use leveled_hash_map::LeveledHashMap;

const FOOD: u64 = 1;
const ANIMAL: u64 = 2;
const PLANT: u64 = 3;
const DESSERT: u64 = 4;
const CAKE: u64 = 5;
const PUDDING: u64 = 6;
const MAMMAL: u64 = 7;
const CHEESE_CAKE: u64 = 8;
const BACTERIUM: u64 = 9;
const VIRUS: u64 = 10;
const MEAT: u64 = 11;
const SOUP: u64 = 12;

#[test]
fn advanced() {
    let mut map: LeveledHashMap<u8> = LeveledHashMap::new();

    map.insert(&[FOOD], 10).unwrap();

    assert_eq!(&10, map.get_advanced(&[FOOD], 0).unwrap());

    map.insert(&[ANIMAL], 11).unwrap();

    assert_eq!(&11, map.get_advanced(&[ANIMAL], 0).unwrap());

    map.insert(&[PLANT], 12).unwrap();

    assert_eq!(&12, map.get_advanced(&[PLANT], 0).unwrap());

    map.insert(&[PLANT], 13).unwrap();

    assert_eq!(&13, map.get_advanced(&[PLANT], 0).unwrap());

    map.insert(&[FOOD, DESSERT], 20).unwrap();

    assert_eq!(&20, map.get_advanced(&[FOOD, DESSERT], 0).unwrap());

    map.insert(&[FOOD, DESSERT], 21).unwrap();

    assert_eq!(&21, map.get_advanced(&[FOOD, DESSERT], 0).unwrap());

    assert_eq!(&21, map.get_advanced(&[DESSERT], 1).unwrap());

    map.insert(&[FOOD, DESSERT, CAKE], 30).unwrap();

    assert_eq!(&30, map.get_advanced(&[FOOD, DESSERT, CAKE], 0).unwrap());

    map.insert(&[FOOD, DESSERT, PUDDING], 31).unwrap();

    assert_eq!(&31, map.get_advanced(&[FOOD, DESSERT, PUDDING], 0).unwrap());

    assert_eq!(&31, map.get_advanced(&[DESSERT, PUDDING], 1).unwrap());

    assert_eq!(&31, map.get_advanced(&[PUDDING], 2).unwrap());

    assert!(map.insert(&[ANIMAL, DESSERT], 205).is_err());

    map.insert(&[ANIMAL, MAMMAL], 77).unwrap();

    assert_eq!(&77, map.get_advanced(&[MAMMAL], 1).unwrap());

    map.insert(&[FOOD, DESSERT, CAKE], 30).unwrap();

    map.insert(&[FOOD, DESSERT, CAKE, CHEESE_CAKE], 40).unwrap();

    assert_eq!(&40, map.get_advanced(&[FOOD, DESSERT, CAKE, CHEESE_CAKE], 0).unwrap());

    let remove_result = map.remove_advanced(&[FOOD, DESSERT], 0).unwrap();

    assert_eq!(21, remove_result.0);
    assert_eq!(2, remove_result.1.len());
    assert_eq!(2, remove_result.1[0].len());

    let batch = vec![(BACTERIUM, 50), (VIRUS, 51), (FOOD, 55)];

    let remove_result = map.insert_many(&[], batch, 0).unwrap();
    assert_eq!(&10, remove_result.get(&FOOD).unwrap());

    assert_eq!(&50, map.get_advanced(&[BACTERIUM], 0).unwrap());
    assert_eq!(&51, map.get_advanced(&[VIRUS], 0).unwrap());
    assert_eq!(&55, map.get_advanced(&[FOOD], 0).unwrap());

    let batch = vec![(DESSERT, 100), (MEAT, 101), (SOUP, 102)];

    let remove_result = map.insert_many(&[FOOD], batch, 0).unwrap();

    assert_eq!(&100, map.get_advanced(&[DESSERT], 1).unwrap());
    assert_eq!(&101, map.get_advanced(&[MEAT], 1).unwrap());
    assert_eq!(&102, map.get_advanced(&[FOOD, SOUP], 0).unwrap());

    assert_eq!(0, remove_result.len());
}
