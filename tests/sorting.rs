use rbtree::sort::{merge_sort, quick_sort};

fn counts(v: &[i32]) -> Vec<(i32, usize)> {
    let mut s = v.to_vec();
    s.sort();
    let mut out: Vec<(i32, usize)> = Vec::new();
    for x in s {
        match out.last_mut() {
            Some((y, c)) if *y == x => *c += 1,
            _ => out.push((x, 1)),
        }
    }
    out
}

#[test]
fn quick_sort_orders_values() {
    let mut v = vec![5, -3, 9, 0, 5, 2, -8, 7, 1, 5];
    let before = counts(&v);
    quick_sort(&mut v);
    assert_eq!(v, vec![-8, -3, 0, 1, 2, 5, 5, 5, 7, 9]);
    assert_eq!(counts(&v), before);
}

#[test]
fn quick_sort_edges() {
    let mut e: Vec<i32> = vec![];
    quick_sort(&mut e);
    assert!(e.is_empty());
    let mut one = vec![4];
    quick_sort(&mut one);
    assert_eq!(one, vec![4]);
    let mut desc: Vec<i32> = (0..50).rev().collect();
    quick_sort(&mut desc);
    assert_eq!(desc, (0..50).collect::<Vec<i32>>());
}

#[test]
fn merge_sort_orders_values() {
    let mut v = vec![12, 4, 4, -1, 30, 7, 0, 4, 19];
    merge_sort(&mut v);
    assert_eq!(v, vec![-1, 0, 4, 4, 4, 7, 12, 19, 30]);
    let mut e: Vec<i32> = vec![];
    merge_sort(&mut e);
    assert!(e.is_empty());
    let mut w = vec![i32::MAX, i32::MIN, 0];
    merge_sort(&mut w);
    assert_eq!(w, vec![i32::MIN, 0, i32::MAX]);
}
