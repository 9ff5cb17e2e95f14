use rbtree::bst::BST;
use rbtree::dlist::DList;
use rbtree::list::List;
use rbtree::ordered_list::OrderedList;
use rbtree::pos::Pos;
use rbtree::queue::Queue;
use rbtree::stack::Stack;

fn list_values(l: &List<i32>) -> Vec<i32> {
    (0..l.len()).map(|i| *l.get(i).unwrap()).collect()
}

fn dlist_values(l: &DList<i32>) -> Vec<i32> {
    (0..l.len()).map(|i| l.get(i).unwrap()).collect()
}

#[test]
fn list_test() {
    let mut list = List::<i32>::default();
    list.add_at_index(0, 9);
    list.add_at_index(0, 7);
    list.add_at_index(2, 8);
    assert_eq!(list_values(&list), vec![7, 9, 8]);
    list.add_at_tail(6);
    list.add_at_index(4, 10);
    assert_eq!(list.delete_at_index(10), None);
    assert_eq!(list.len(), 5);
    assert_eq!(list_values(&list), vec![7, 9, 8, 6, 10]);
}

#[test]
fn list_reverse_and_delete() {
    let mut list = List::new(1);
    list.add(2);
    list.add(3);
    list.reverse();
    assert_eq!(list_values(&list), vec![3, 2, 1]);
    assert_eq!(list.delete_head(), Some(3));
    assert_eq!(list.delete_at_index(1), Some(1));
    if let Some(v) = list.get_mut(0) {
        *v = 20;
    }
    assert_eq!(list_values(&list), vec![20]);
    list.clear();
    assert_eq!(list.len(), 0);
    assert_eq!(list.delete_head(), None);
    let one = List::new_with_val(4);
    assert_eq!(list_values(&one), vec![4]);
}

#[test]
fn dlist_test() {
    let mut dl = DList::<i32>::default();
    dl.add_at_tail(5);
    dl.add_at_tail(7);
    dl.add_at_tail(6);
    assert_eq!(dl.get_node(0), Some(&5));
    assert_eq!(dl.get_node(1), Some(&7));
    assert_eq!(dl.get_node(dl.len() - 1), Some(&6));

    let mut dl = DList::<i32>::default();
    dl.add_at_head(3);
    dl.add_at_head(4);
    dl.add_at_head(9);
    dl.add_at_head(10);
    dl.add_at_head(11);
    dl.add_at_tail(5);
    dl.add_at_tail(7);
    dl.add_at_tail(6);
    dl.add_at_index(0, 1);
    dl.add_at_index(2, 2);
    let n = dl.len();
    dl.add_at_index(n, 8);
    assert_eq!(dlist_values(&dl), vec![1, 11, 2, 10, 9, 4, 3, 5, 7, 6, 8]);
    dl.delete_at_index(3);
    assert_eq!(dlist_values(&dl), vec![1, 11, 2, 9, 4, 3, 5, 7, 6, 8]);
    dl.delete_at_index(0);
    assert_eq!(dlist_values(&dl), vec![11, 2, 9, 4, 3, 5, 7, 6, 8]);
    let n = dl.len();
    dl.delete_at_index(n - 3);
    assert_eq!(dlist_values(&dl), vec![11, 2, 9, 4, 3, 5, 6, 8]);
    assert_eq!(dl.len(), 8);
}

#[test]
fn dlist_edges() {
    let mut dl = DList::new_with_val(1);
    dl.add(2);
    dl.add_at_index(5, 9);
    assert_eq!(dlist_values(&dl), vec![1, 2]);
    assert_eq!(dl.delete_head(), Some(1));
    assert_eq!(dl.get(3), None);
    dl.clear();
    assert_eq!(dl.delete_head(), None);
    let single = DList::new(4);
    assert_eq!(single.get(0), Some(4));
}

#[test]
fn stack_test() {
    let mut stack = Stack::<i32>::new(789);
    stack.push(123);
    stack.push(456);
    stack.clear();
    assert!(stack.empty());

    let mut stack = Stack::<i32>::default();
    stack.push(123);
    stack.push(456);
    stack.clear();
    assert!(stack.empty());
}

#[test]
fn stack_is_last_in_first_out() {
    let mut stack = Stack::new(1);
    stack.push(2);
    stack.push(3);
    assert_eq!(stack.count(), 3);
    assert_eq!(stack.peek(), Some(&3));
    assert_eq!(stack.pop(), Some(3));
    assert_eq!(stack.pop(), Some(2));
    assert_eq!(stack.pop(), Some(1));
    assert_eq!(stack.pop(), None);
    assert!(stack.empty());
}

#[test]
fn queue_is_first_in_first_out() {
    let mut q = Queue::new(1);
    q.enqueue(2);
    q.enqueue(3);
    assert_eq!(q.count(), 3);
    assert_eq!(q.peek(), Some(1));
    assert_eq!(q.dequeue(), Some(1));
    assert_eq!(q.dequeue(), Some(2));
    assert_eq!(q.dequeue(), Some(3));
    assert_eq!(q.dequeue(), None);
    assert!(q.empty());
    let e: Queue<i32> = Queue::default();
    assert_eq!(e.peek(), None);
}

#[test]
fn ordered_list_test() {
    let mut res = OrderedList::default();
    res.add(1);
    res.add(3);
    res.add(2);
    res.add(4);
    res.add(9);
    res.add(8);
    res.add(8);
    res.delete(&8);
    assert!(!res.find(&8));
    assert!(res.find(&9));
    res.delete(&9);
    assert!(!res.find(&9));
    res.delete(&1);
    assert!(!res.find(&1));
    assert!(res.find(&2) && res.find(&3) && res.find(&4));
    let single = OrderedList::new(5);
    assert!(single.find(&5) && !single.find(&4));
}

#[test]
fn bst_test() {
    let mut bst = BST::new(10);
    bst.insert(1);
    bst.insert(12);
    bst.insert(11);
    bst.delete(&9);
    assert_eq!(bst.in_order(), vec![1, 10, 11, 12]);

    let mut bst = BST::new(10);
    bst.insert(1);
    bst.insert(12);
    bst.insert(13);
    bst.insert(11);
    assert_eq!(bst.in_order(), vec![1, 10, 11, 12, 13]);
    assert_eq!(bst.pre_order(), vec![10, 1, 12, 11, 13]);
    assert_eq!(bst.post_order(), vec![1, 11, 13, 12, 10]);
}

#[test]
fn bst_delete_and_graft() {
    let mut bst = BST::new(10);
    for v in [5, 15, 3, 7, 12, 20] {
        bst.insert(v);
    }
    bst.delete(&10);
    assert_eq!(bst.in_order(), vec![3, 5, 7, 12, 15, 20]);
    let mut other = BST::new(6);
    other.graft(rbtree::bst::BSTNode::new(8));
    assert_eq!(other.in_order(), vec![6, 8]);
    let node = rbtree::bst::BSTNode::new(4);
    assert_eq!(node.get_val(), Some(&4));
    let mut out = Vec::new();
    node.in_order(&mut out);
    assert_eq!(out, vec![4]);
}

#[test]
fn pos_flip() {
    assert_eq!(Pos::Left.flip(), Pos::Right);
    assert_eq!(Pos::default(), Pos::Left);
}
