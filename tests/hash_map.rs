use rbtree::hm::MyHashMap;

#[test]
fn hm_test() {
    let mut hm = MyHashMap::<i32, i32>::new();
    hm.put(&7, 9);
    hm.put(&8, 19);
    hm.put(&9, 29);
    hm.put(&5, 39);
    hm.put(&56, 39);
    hm.put(&78, 39);
    hm.put(&79, 39);
    hm.put(&80, 39);
    hm.put(&128, 39);
    hm.put(&1288, 39);
    hm.put(&12889, 39);
    assert_eq!(hm.get(&7), Some(&9));
    assert_eq!(hm.get(&8), Some(&19));
    assert_eq!(hm.get(&9), Some(&29));
    assert_eq!(hm.get(&5), Some(&39));
    assert_eq!(hm.get(&12889), Some(&39));
    assert_eq!(hm.get(&6), None);
}

#[test]
fn hm_replace_remove_and_clear() {
    let mut hm = MyHashMap::<i64, &str>::with_cap(2);
    hm.put(&1, "a");
    hm.put(&3, "b");
    hm.put(&1, "c");
    assert_eq!(hm.get(&1), Some(&"c"));
    assert_eq!(hm.get(&3), Some(&"b"));
    hm.remove(&1);
    assert_eq!(hm.get(&1), None);
    assert_eq!(hm.get(&3), Some(&"b"));
    hm.remove(&42);
    assert_eq!(hm.get(&3), Some(&"b"));
    hm.remove_all();
    assert_eq!(hm.get(&3), None);
    hm.put(&3, "d");
    assert_eq!(hm.get(&3), Some(&"d"));
}

#[test]
fn hm_with_zero_capacity_still_stores() {
    let mut hm = MyHashMap::<u64, u64>::with_cap(0);
    hm.put(&10, 100);
    hm.put(&11, 110);
    assert_eq!(hm.get(&10), Some(&100));
    assert_eq!(hm.get(&11), Some(&110));
}

#[test]
fn hm_get_mut_writes_through() {
    let mut hm = MyHashMap::<i32, i32>::new();
    hm.put(&7, 9);
    hm.put(&11, 1);
    if let Some(v) = hm.get_mut(&7) {
        *v += 100;
    }
    assert_eq!(hm.get(&7), Some(&109));
    assert_eq!(hm.get(&11), Some(&1));
    assert!(hm.get_mut(&8).is_none());
    assert_eq!(hm.get(&8), None);
}
