use vstd::prelude::*;
use crate::ordered_list::strictly_ascending;
use crate::rb_tree::{
    RBTree,
    black_height,
    lemma_black_paths,
    lemma_in_order_sorted,
    lemma_no_keys_no_nodes,
    path_blacks,
    valid_tree,
};

verus! {

/// The shape every tree handed out by the public operations has: search
/// order, a black root, no red node with a red child, the same number of
/// black nodes on every path from the root to an empty link, and in-order
/// keys that are strictly ascending and are exactly the tree's keys.
pub open spec fn sound(t: RBTree) -> bool {
    &&& valid_tree(t.root_link())
    &&& forall|path: Seq<bool>|
        #[trigger] path_blacks(t.root_link(), path) is Some ==> path_blacks(t.root_link(), path)
            == Some(black_height(t.root_link()))
    &&& strictly_ascending(t.keys())
    &&& t.keys().to_set() == t@
}

proof fn lemma_sound(t: RBTree)
    requires
        t.wf(),
    ensures
        sound(t),
{
    lemma_in_order_sorted(t.root_link());
    assert forall|path: Seq<bool>| #[trigger]
        path_blacks(t.root_link(), path) is Some implies path_blacks(t.root_link(), path) == Some(
        black_height(t.root_link()),
    ) by {
        lemma_black_paths(t.root_link(), path);
    }
}

proof fn lemma_to_set_push(s: Seq<i64>, x: i64)
    ensures
        s.push(x).to_set() == s.to_set().insert(x),
{
    assert forall|y: i64| s.push(x).to_set().contains(y) == s.to_set().insert(x).contains(y) by {
        if s.push(x).to_set().contains(y) && y != x {
            let i = choose|i: int| 0 <= i < s.push(x).len() && s.push(x)[i] == y;
            assert(s[i] == y);
        }
        if s.to_set().contains(y) {
            let i = choose|i: int| 0 <= i < s.len() && s[i] == y;
            assert(s.push(x)[i] == y);
        }
        if y == x {
            assert(s.push(x)[s.len() as int] == y);
        }
    }
    assert(s.push(x).to_set() =~= s.to_set().insert(x));
}

proof fn lemma_keys_after_inserts(trees: Seq<RBTree>, keys: Seq<i64>, start: Set<i64>, i: int)
    requires
        trees.len() == keys.len() + 1,
        trees[0]@ == start,
        forall|j: int| 0 < j < trees.len() ==> #[trigger] trees[j]@ == trees[j - 1]@.insert(keys[j - 1]),
        0 <= i < trees.len(),
    ensures
        trees[i]@ == start.union(keys.subrange(0, i).to_set()),
    decreases i,
{
    if i == 0 {
        assert(keys.subrange(0, 0).to_set() =~= Set::<i64>::empty());
        assert(start.union(Set::<i64>::empty()) =~= start);
    } else {
        lemma_keys_after_inserts(trees, keys, start, i - 1);
        assert(keys.subrange(0, i) =~= keys.subrange(0, i - 1).push(keys[i - 1]));
        lemma_to_set_push(keys.subrange(0, i - 1), keys[i - 1]);
        assert(trees[i]@ == trees[i - 1]@.insert(keys[i - 1]));
        assert(trees[i]@ =~= start.union(keys.subrange(0, i).to_set()));
    }
}

proof fn lemma_keys_after_deletes(trees: Seq<RBTree>, keys: Seq<i64>, start: Set<i64>, i: int)
    requires
        trees.len() == keys.len() + 1,
        trees[0]@ == start,
        forall|j: int| 0 < j < trees.len() ==> #[trigger] trees[j]@ == trees[j - 1]@.remove(keys[j - 1]),
        0 <= i < trees.len(),
    ensures
        trees[i]@ == start.difference(keys.subrange(0, i).to_set()),
    decreases i,
{
    if i == 0 {
        assert(keys.subrange(0, 0).to_set() =~= Set::<i64>::empty());
        assert(start.difference(Set::<i64>::empty()) =~= start);
    } else {
        lemma_keys_after_deletes(trees, keys, start, i - 1);
        assert(keys.subrange(0, i) =~= keys.subrange(0, i - 1).push(keys[i - 1]));
        lemma_to_set_push(keys.subrange(0, i - 1), keys[i - 1]);
        assert(trees[i]@ == trees[i - 1]@.remove(keys[i - 1]));
        assert(trees[i]@ =~= start.difference(keys.subrange(0, i).to_set()));
    }
}

/// Inserting a sequence of keys into an empty tree, one `insert` after the
/// other (`trees[j]` is the tree after inserting `keys[j - 1]`): after each
/// insert, the `i`-th, the tree is sound, and its in-order keys are the
/// distinct keys inserted so far.
pub proof fn law_insert_sequence(trees: Seq<RBTree>, keys: Seq<i64>, i: int)
    requires
        trees.len() == keys.len() + 1,
        trees[0].wf(),
        trees[0]@ == Set::<i64>::empty(),
        forall|j: int|
            0 < j < trees.len() ==> #[trigger] trees[j]@ == trees[j - 1]@.insert(keys[j - 1])
                && trees[j].wf(),
        0 <= i < trees.len(),
    ensures
        sound(trees[i]),
        trees[i].keys().to_set() == keys.subrange(0, i).to_set(),
{
    if i > 0 {
        assert(trees[i]@ == trees[i - 1]@.insert(keys[i - 1]));
    }
    lemma_sound(trees[i]);
    lemma_keys_after_inserts(trees, keys, Set::<i64>::empty(), i);
    assert(Set::<i64>::empty().union(keys.subrange(0, i).to_set()) =~= keys.subrange(0, i).to_set());
}

/// Deleting a sequence of keys from a valid tree, one `delete` after the
/// other (`trees[j]` is the tree after deleting `keys[j - 1]`): after each
/// delete, the `i`-th, the tree is sound, and its in-order keys are the keys
/// not deleted so far.
pub proof fn law_delete_sequence(trees: Seq<RBTree>, keys: Seq<i64>, i: int)
    requires
        trees.len() == keys.len() + 1,
        trees[0].wf(),
        forall|j: int|
            0 < j < trees.len() ==> #[trigger] trees[j]@ == trees[j - 1]@.remove(keys[j - 1])
                && trees[j].wf(),
        0 <= i < trees.len(),
    ensures
        sound(trees[i]),
        trees[i].keys().to_set() == trees[0]@.difference(keys.subrange(0, i).to_set()),
{
    if i > 0 {
        assert(trees[i]@ == trees[i - 1]@.remove(keys[i - 1]));
    }
    lemma_sound(trees[i]);
    lemma_keys_after_deletes(trees, keys, trees[0]@, i);
}

/// Starting from a valid tree (an empty one, or one made by `new` with a
/// first key), inserting keys and then deleting every key, in any order,
/// leaves a tree without nodes. `trees[j]` for `0 < j <= n` (`n` the number
/// of inserted keys) is the tree after inserting `keys[j - 1]`, and
/// `trees[n + j]` the tree after then deleting `order[j - 1]`; `order` holds
/// every key of the first tree and every inserted key.
pub proof fn law_round_trip(trees: Seq<RBTree>, keys: Seq<i64>, order: Seq<i64>)
    requires
        trees.len() == keys.len() + order.len() + 1,
        trees[0].wf(),
        order.to_set() == trees[0]@.union(keys.to_set()),
        forall|j: int|
            0 < j <= keys.len() ==> #[trigger] trees[j]@ == trees[j - 1]@.insert(keys[j - 1])
                && trees[j].wf(),
        forall|j: int|
            keys.len() < j < trees.len() ==> #[trigger] trees[j]@ == trees[j - 1]@.remove(
                order[j - keys.len() - 1],
            ) && trees[j].wf(),
    ensures
        trees.last().root_link() is None,
{
    let n = keys.len() as int;
    let m = order.len() as int;
    let ins = trees.subrange(0, n + 1);
    let del = trees.subrange(n, n + m + 1);
    assert forall|j: int| 0 < j < ins.len() implies #[trigger] ins[j]@ == ins[j - 1]@.insert(
        keys[j - 1],
    ) by {
        assert(trees[j]@ == trees[j - 1]@.insert(keys[j - 1]));
    }
    lemma_keys_after_inserts(ins, keys, trees[0]@, n);
    assert(keys.subrange(0, n) =~= keys);
    assert forall|j: int| 0 < j < del.len() implies #[trigger] del[j]@ == del[j - 1]@.remove(
        order[j - 1],
    ) by {
        assert(trees[n + j]@ == trees[n + j - 1]@.remove(order[n + j - n - 1]));
        assert(del[j] == trees[n + j]);
        assert(del[j - 1] == trees[n + j - 1]);
    }
    lemma_keys_after_deletes(del, order, trees[n]@, m);
    assert(order.subrange(0, m) =~= order);
    let last = trees[n + m];
    assert(del[m] == last);
    assert(last@ =~= Set::<i64>::empty());
    if m > 0 {
        assert(trees[n + m]@ == trees[n + m - 1]@.remove(order[n + m - n - 1]));
    } else if n > 0 {
        assert(trees[n]@ == trees[n - 1]@.insert(keys[n - 1]));
    }
    lemma_no_keys_no_nodes(last.root_link());
}

} // verus!
