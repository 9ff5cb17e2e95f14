use vstd::prelude::*;
use crate::ordered_list::strictly_ascending;

verus! {

/// A vertex of an unbalanced binary search tree; it owns its children.
pub struct BSTNode {
    pub left: Option<Box<BSTNode>>,
    pub right: Option<Box<BSTNode>>,
    pub val: i64,
}

/// An unbalanced binary search tree of distinct `i64` values.
pub struct BST {
    root: Option<Box<BSTNode>>,
}

/// The values held in a subtree.
pub open spec fn values(t: Option<Box<BSTNode>>) -> Set<i64>
    decreases t,
{
    match t {
        None => Set::empty(),
        Some(n) => values(n.left).union(values(n.right)).insert(n.val),
    }
}

/// Search-tree order at every node.
pub open spec fn search_ordered(t: Option<Box<BSTNode>>) -> bool
    decreases t,
{
    match t {
        None => true,
        Some(n) => {
            &&& search_ordered(n.left)
            &&& search_ordered(n.right)
            &&& forall|x: i64| #[trigger] values(n.left).contains(x) ==> x < n.val
            &&& forall|x: i64| #[trigger] values(n.right).contains(x) ==> n.val < x
        },
    }
}

/// Node, then left subtree, then right subtree.
pub open spec fn pre_seq(t: Option<Box<BSTNode>>) -> Seq<i64>
    decreases t,
{
    match t {
        None => Seq::empty(),
        Some(n) => seq![n.val] + pre_seq(n.left) + pre_seq(n.right),
    }
}

/// Left subtree, then node, then right subtree.
pub open spec fn in_seq(t: Option<Box<BSTNode>>) -> Seq<i64>
    decreases t,
{
    match t {
        None => Seq::empty(),
        Some(n) => in_seq(n.left) + seq![n.val] + in_seq(n.right),
    }
}

/// Left subtree, then right subtree, then node.
pub open spec fn post_seq(t: Option<Box<BSTNode>>) -> Seq<i64>
    decreases t,
{
    match t {
        None => Seq::empty(),
        Some(n) => post_seq(n.left) + post_seq(n.right) + seq![n.val],
    }
}

impl BSTNode {
    /// A childless node holding `val`.
    pub fn new(val: i64) -> (n: BSTNode)
        ensures
            n == (BSTNode { left: None, right: None, val }),
    {
        BSTNode { left: None, right: None, val }
    }

    /// The value held by the node.
    pub fn get_val(&self) -> (r: Option<&i64>)
        ensures
            r == Some(&self.val),
    {
        Some(&self.val)
    }

    /// Appends the subtree's values to `res`, node before its subtrees.
    pub fn pre_order(&self, res: &mut Vec<i64>)
        ensures
            final(res)@ == old(res)@ + seq![self.val] + pre_seq(self.left) + pre_seq(self.right),
    {
        res.push(self.val);
        walk_pre(&self.left, res);
        walk_pre(&self.right, res);
        proof {
            assert(final(res)@ =~= old(res)@ + seq![self.val] + pre_seq(self.left) + pre_seq(self.right));
        }
    }

    /// Appends the subtree's values to `res`: left subtree, node, right subtree.
    pub fn in_order(&self, res: &mut Vec<i64>)
        ensures
            final(res)@ == old(res)@ + in_seq(self.left) + seq![self.val] + in_seq(self.right),
    {
        walk_in(&self.left, res);
        res.push(self.val);
        walk_in(&self.right, res);
        proof {
            assert(final(res)@ =~= old(res)@ + in_seq(self.left) + seq![self.val] + in_seq(self.right));
        }
    }

    /// Appends the subtree's values to `res`, subtrees before the node.
    pub fn post_order(&self, res: &mut Vec<i64>)
        ensures
            final(res)@ == old(res)@ + post_seq(self.left) + post_seq(self.right) + seq![self.val],
    {
        walk_post(&self.left, res);
        walk_post(&self.right, res);
        res.push(self.val);
        proof {
            assert(final(res)@ =~= old(res)@ + post_seq(self.left) + post_seq(self.right) + seq![self.val]);
        }
    }
}

fn walk_pre(t: &Option<Box<BSTNode>>, res: &mut Vec<i64>)
    ensures
        final(res)@ == old(res)@ + pre_seq(*t),
    decreases *t,
{
    match t {
        None => {
            proof {
                assert(old(res)@ + pre_seq(*t) =~= old(res)@);
            }
        },
        Some(n) => {
            res.push(n.val);
            walk_pre(&n.left, res);
            walk_pre(&n.right, res);
            proof {
                assert(final(res)@ =~= old(res)@ + pre_seq(*t));
            }
        },
    }
}

fn walk_in(t: &Option<Box<BSTNode>>, res: &mut Vec<i64>)
    ensures
        final(res)@ == old(res)@ + in_seq(*t),
    decreases *t,
{
    match t {
        None => {
            proof {
                assert(old(res)@ + in_seq(*t) =~= old(res)@);
            }
        },
        Some(n) => {
            walk_in(&n.left, res);
            res.push(n.val);
            walk_in(&n.right, res);
            proof {
                assert(final(res)@ =~= old(res)@ + in_seq(*t));
            }
        },
    }
}

fn walk_post(t: &Option<Box<BSTNode>>, res: &mut Vec<i64>)
    ensures
        final(res)@ == old(res)@ + post_seq(*t),
    decreases *t,
{
    match t {
        None => {
            proof {
                assert(old(res)@ + post_seq(*t) =~= old(res)@);
            }
        },
        Some(n) => {
            walk_post(&n.left, res);
            walk_post(&n.right, res);
            res.push(n.val);
            proof {
                assert(final(res)@ =~= old(res)@ + post_seq(*t));
            }
        },
    }
}

/// Adds `val` below `t` at the empty link that ordered descent reaches.
fn insert_value(t: Option<Box<BSTNode>>, val: i64) -> (r: Option<Box<BSTNode>>)
    requires
        search_ordered(t),
    ensures
        search_ordered(r),
        values(r) == values(t).insert(val),
    decreases t,
{
    match t {
        None => {
            let r = Some(Box::new(BSTNode::new(val)));
            proof {
                assert(values(r) =~= values(t).insert(val));
            }
            r
        },
        Some(b) => {
            let n = *b;
            if val < n.val {
                let l = insert_value(n.left, val);
                let r = Some(Box::new(BSTNode { left: l, right: n.right, val: n.val }));
                proof {
                    assert(values(r) =~= values(t).insert(val));
                }
                r
            } else if n.val < val {
                let rr = insert_value(n.right, val);
                let r = Some(Box::new(BSTNode { left: n.left, right: rr, val: n.val }));
                proof {
                    assert(values(r) =~= values(t).insert(val));
                }
                r
            } else {
                let r = Some(Box::new(BSTNode { left: n.left, right: n.right, val: n.val }));
                proof {
                    assert(values(r) =~= values(t).insert(val));
                }
                r
            }
        },
    }
}

/// Removes the smallest value of a non-empty subtree and returns it.
fn take_min(t: Option<Box<BSTNode>>) -> (res: (Option<Box<BSTNode>>, i64))
    requires
        t is Some,
        search_ordered(t),
    ensures
        values(t).contains(res.1),
        forall|y: i64| #[trigger] values(t).contains(y) ==> res.1 <= y,
        values(res.0) == values(t).remove(res.1),
        search_ordered(res.0),
    decreases t,
{
    let n = *t.unwrap();
    proof {
        assert(values(t) == values(n.left).union(values(n.right)).insert(n.val));
    }
    match n.left {
        None => {
            proof {
                assert(values(n.right) =~= values(t).remove(n.val));
            }
            (n.right, n.val)
        },
        Some(lb) => {
            let (l, m) = take_min(Some(lb));
            let r = Some(Box::new(BSTNode { left: l, right: n.right, val: n.val }));
            proof {
                assert(values(r) =~= values(t).remove(m));
            }
            (r, m)
        },
    }
}

/// Removes `val` from the subtree if it is there; a node with two children
/// takes its successor's value.
fn delete_value(t: Option<Box<BSTNode>>, val: i64) -> (r: Option<Box<BSTNode>>)
    requires
        search_ordered(t),
    ensures
        search_ordered(r),
        values(r) == values(t).remove(val),
    decreases t,
{
    match t {
        None => {
            proof {
                assert(values(t).remove(val) =~= values(t));
            }
            None
        },
        Some(b) => {
            let n = *b;
            proof {
                assert(values(t) == values(n.left).union(values(n.right)).insert(n.val));
            }
            if val < n.val {
                let l = delete_value(n.left, val);
                let r = Some(Box::new(BSTNode { left: l, right: n.right, val: n.val }));
                proof {
                    assert(!values(n.right).contains(val));
                    assert(values(r) =~= values(t).remove(val));
                }
                r
            } else if n.val < val {
                let rr = delete_value(n.right, val);
                let r = Some(Box::new(BSTNode { left: n.left, right: rr, val: n.val }));
                proof {
                    assert(!values(n.left).contains(val));
                    assert(values(r) =~= values(t).remove(val));
                }
                r
            } else {
                proof {
                    assert(!values(n.left).contains(val));
                    assert(!values(n.right).contains(val));
                }
                if n.right.is_none() {
                    proof {
                        assert(values(n.left) =~= values(t).remove(val));
                    }
                    n.left
                } else {
                    let (rr, m) = take_min(n.right);
                    let r = Some(Box::new(BSTNode { left: n.left, right: rr, val: m }));
                    proof {
                        assert(forall|y: i64| #[trigger] values(n.left).contains(y) ==> y < m);
                        assert(values(r) =~= values(t).remove(val));
                    }
                    r
                }
            }
        },
    }
}

/// Adds every value of the subtree `t` into `into`.
fn graft_values(into: Option<Box<BSTNode>>, t: &Option<Box<BSTNode>>) -> (r: Option<Box<BSTNode>>)
    requires
        search_ordered(into),
    ensures
        search_ordered(r),
        values(r) == values(into).union(values(*t)),
    decreases *t,
{
    match t {
        None => {
            proof {
                assert(values(into).union(values(*t)) =~= values(into));
            }
            into
        },
        Some(n) => {
            let a = insert_value(into, n.val);
            let b = graft_values(a, &n.left);
            let c = graft_values(b, &n.right);
            proof {
                assert(values(c) =~= values(into).union(values(*t)));
            }
            c
        },
    }
}

impl View for BST {
    type V = Set<i64>;

    /// The values in the tree.
    closed spec fn view(&self) -> Set<i64> {
        values(self.root)
    }
}

impl BST {
    /// The root link of the tree.
    pub closed spec fn root_link(&self) -> Option<Box<BSTNode>> {
        self.root
    }

    /// The tree is search-ordered.
    pub closed spec fn wf(&self) -> bool {
        search_ordered(self.root)
    }

    /// The values in the order of `in_order`.
    pub closed spec fn in_order_spec(&self) -> Seq<i64> {
        in_seq(self.root)
    }

    /// A tree holding `val` alone.
    pub fn new(val: i64) -> (t: BST)
        ensures
            t.wf(),
            t@ == set![val],
    {
        let t = BST { root: Some(Box::new(BSTNode::new(val))) };
        proof {
            assert(values(t.root) == values(None::<Box<BSTNode>>).union(values(None::<Box<BSTNode>>)).insert(val));
            assert(values(t.root) =~= set![val]);
            assert(search_ordered(None::<Box<BSTNode>>));
        }
        t
    }

    /// Adds `val`; a value already present is not added again.
    pub fn insert(&mut self, val: i64)
        requires
            old(self).wf(),
        ensures
            final(self).wf(),
            final(self)@ == old(self)@.insert(val),
    {
        let root = self.root.take();
        self.root = insert_value(root, val);
    }

    /// Removes `val` if it is present.
    pub fn delete(&mut self, val: &i64)
        requires
            old(self).wf(),
        ensures
            final(self).wf(),
            final(self)@ == old(self)@.remove(*val),
    {
        let root = self.root.take();
        self.root = delete_value(root, *val);
    }

    /// Adds every value of the subtree below `node`.
    pub fn graft(&mut self, node: BSTNode)
        requires
            old(self).wf(),
        ensures
            final(self).wf(),
            final(self)@ == old(self)@.union(values(Some(Box::new(node)))),
    {
        let root = self.root.take();
        let t = Some(Box::new(node));
        self.root = graft_values(root, &t);
    }

    /// The values, each node before its subtrees.
    pub fn pre_order(&self) -> (r: Vec<i64>)
        ensures
            r@ == pre_seq(self.root_link()),
    {
        let mut res: Vec<i64> = Vec::new();
        walk_pre(&self.root, &mut res);
        proof {
            assert(res@ =~= pre_seq(self.root));
        }
        res
    }

    /// The values in ascending order.
    pub fn in_order(&self) -> (r: Vec<i64>)
        requires
            self.wf(),
        ensures
            r@ == self.in_order_spec(),
            r@.to_set() == self@,
            strictly_ascending(r@),
    {
        let mut res: Vec<i64> = Vec::new();
        walk_in(&self.root, &mut res);
        proof {
            assert(res@ =~= in_seq(self.root));
            lemma_in_seq_sorted(self.root);
        }
        res
    }

    /// The values, each node after its subtrees.
    pub fn post_order(&self) -> (r: Vec<i64>)
        ensures
            r@ == post_seq(self.root_link()),
    {
        let mut res: Vec<i64> = Vec::new();
        walk_post(&self.root, &mut res);
        proof {
            assert(res@ =~= post_seq(self.root));
        }
        res
    }
}

impl Default for BST {
    /// The empty tree.
    fn default() -> (t: BST)
        ensures
            t.wf(),
            t@ == Set::<i64>::empty(),
    {
        BST { root: None }
    }
}

/// In a search-ordered subtree the in-order values are strictly ascending
/// and are exactly the subtree's values.
pub proof fn lemma_in_seq_sorted(t: Option<Box<BSTNode>>)
    requires
        search_ordered(t),
    ensures
        in_seq(t).to_set() == values(t),
        strictly_ascending(in_seq(t)),
    decreases t,
{
    match t {
        None => {
            assert(in_seq(t).to_set() =~= values(t));
        },
        Some(n) => {
            lemma_in_seq_sorted(n.left);
            lemma_in_seq_sorted(n.right);
            let a = in_seq(n.left);
            let b = in_seq(n.right);
            let s = in_seq(t);
            assert(s == a + seq![n.val] + b);
            assert forall|x: i64| s.to_set().contains(x) == values(t).contains(x) by {
                if s.to_set().contains(x) {
                    let i = choose|i: int| 0 <= i < s.len() && s[i] == x;
                    if i < a.len() {
                        assert(a.to_set().contains(a[i]));
                    } else if i > a.len() {
                        assert(b.to_set().contains(b[i - a.len() - 1]));
                    }
                }
                if values(n.left).contains(x) {
                    let i = choose|i: int| 0 <= i < a.len() && a[i] == x;
                    assert(s[i] == x);
                }
                if values(n.right).contains(x) {
                    let i = choose|i: int| 0 <= i < b.len() && b[i] == x;
                    assert(s[i + a.len() + 1] == x);
                }
                if x == n.val {
                    assert(s[a.len() as int] == x);
                }
            }
            assert(s.to_set() =~= values(t));
            assert forall|i: int, j: int| 0 <= i < j < s.len() implies s[i] < s[j] by {
                if i < a.len() {
                    assert(a.to_set().contains(a[i]));
                }
                if j > a.len() {
                    assert(b.to_set().contains(b[j - a.len() - 1]));
                }
            }
        },
    }
}

} // verus!
