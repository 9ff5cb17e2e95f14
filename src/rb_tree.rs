use vstd::prelude::*;
use crate::ordered_list::strictly_ascending;

verus! {

/// The color of a tree node; an empty link counts as black.
#[derive(Debug, Clone, Copy, PartialEq, Eq, Structural)]
pub enum Color {
    Black,
    Red,
}

/// A vertex of the red-black tree. Each node owns its two children; the way
/// back up is the path of the recursive call that reached the node, so the
/// fixups below work on a parent and the side of the child they came from.
pub struct RBNode {
    pub left: Option<Box<RBNode>>,
    pub right: Option<Box<RBNode>>,
    pub key: i64,
    pub color: Color,
}

/// A red-black tree of distinct `i64` keys.
pub struct RBTree {
    root: Option<Box<RBNode>>,
}

impl View for RBTree {
    type V = Set<i64>;

    /// The set of keys in the tree.
    open spec fn view(&self) -> Set<i64> {
        elems(self.root_link())
    }
}

/// The subtree made of `l`, a node holding `k` with color `c`, and `r`.
pub open spec fn node(l: Option<Box<RBNode>>, k: i64, r: Option<Box<RBNode>>, c: Color) -> Option<
    Box<RBNode>,
> {
    Some(Box::new(RBNode { left: l, right: r, key: k, color: c }))
}

/// The keys held in a subtree.
pub open spec fn elems(t: Option<Box<RBNode>>) -> Set<i64>
    decreases t,
{
    match t {
        None => Set::empty(),
        Some(n) => elems(n.left).union(elems(n.right)).insert(n.key),
    }
}

/// The keys of a subtree, left subtree first, then the node, then the right subtree.
pub open spec fn in_order_of(t: Option<Box<RBNode>>) -> Seq<i64>
    decreases t,
{
    match t {
        None => Seq::empty(),
        Some(n) => in_order_of(n.left) + seq![n.key] + in_order_of(n.right),
    }
}

/// Search-tree order: every key on the left is smaller than the node's key,
/// every key on the right is larger, at every node.
pub open spec fn ordered(t: Option<Box<RBNode>>) -> bool
    decreases t,
{
    match t {
        None => true,
        Some(n) => {
            &&& ordered(n.left)
            &&& ordered(n.right)
            &&& forall|x: i64| #[trigger] elems(n.left).contains(x) ==> x < n.key
            &&& forall|x: i64| #[trigger] elems(n.right).contains(x) ==> n.key < x
        },
    }
}

pub open spec fn is_red(t: Option<Box<RBNode>>) -> bool {
    match t {
        Some(n) => n.color == Color::Red,
        None => false,
    }
}

/// The number of black nodes on the leftmost path below and including the
/// root of `t`; in a tree with `red_black` every downward path has this count.
pub open spec fn black_height(t: Option<Box<RBNode>>) -> nat
    decreases t,
{
    match t {
        None => 0,
        Some(n) => black_height(n.left) + if n.color == Color::Black {
            1nat
        } else {
            0nat
        },
    }
}

/// At every node: both children have the same black height, and a red node
/// has no red child.
pub open spec fn red_black(t: Option<Box<RBNode>>) -> bool
    decreases t,
{
    match t {
        None => true,
        Some(n) => {
            &&& red_black(n.left)
            &&& red_black(n.right)
            &&& black_height(n.left) == black_height(n.right)
            &&& (n.color == Color::Red ==> !is_red(n.left) && !is_red(n.right))
        },
    }
}

/// A red root whose children are red-black trees of equal black height, at
/// most one of them red: the one violation that insertion passes upward.
pub open spec fn red_violation(t: Option<Box<RBNode>>) -> bool {
    match t {
        Some(n) => {
            &&& n.color == Color::Red
            &&& red_black(n.left)
            &&& red_black(n.right)
            &&& black_height(n.left) == black_height(n.right)
            &&& !(is_red(n.left) && is_red(n.right))
        },
        None => false,
    }
}

/// One for a black node (or a lost black level), zero otherwise.
pub open spec fn black_count(b: bool) -> nat {
    if b {
        1
    } else {
        0
    }
}

/// The invariants of a whole tree: search order, the red-black rules, and a
/// black (or absent) root.
pub open spec fn valid_tree(t: Option<Box<RBNode>>) -> bool {
    ordered(t) && red_black(t) && !is_red(t)
}

/// `t` with its root recolored `c`; an empty link stays empty.
pub open spec fn recolored(t: Option<Box<RBNode>>, c: Color) -> Option<Box<RBNode>> {
    match t {
        Some(n) => node(n.left, n.key, n.right, c),
        None => None,
    }
}

/// The insert fixup at a grandparent (`k`, color `c`) whose left subtree `l`
/// has just received a key. A black grandparent with a red `l` that has a
/// red child is the one case to repair: a red uncle `r` makes parent and
/// uncle black and the grandparent red; a black uncle has an inner red child
/// rotated outward first (left at `l`), then the grandparent turns red, is
/// rotated right, and the new top turns black.
pub open spec fn fixed_insert_left(
    l: Option<Box<RBNode>>,
    k: i64,
    r: Option<Box<RBNode>>,
    c: Color,
) -> Option<Box<RBNode>> {
    if c == Color::Black && is_red(l) && (is_red(l->0.left) || is_red(l->0.right)) {
        if is_red(r) {
            node(recolored(l, Color::Black), k, recolored(r, Color::Black), Color::Red)
        } else {
            let l2 = if is_red(l->0.left) {
                l
            } else {
                rotated_left(l)
            };
            recolored(rotated_right(node(l2, k, r, Color::Red)), Color::Black)
        }
    } else {
        node(l, k, r, c)
    }
}

/// The mirror of `fixed_insert_left`, for a key added to the right subtree.
pub open spec fn fixed_insert_right(
    l: Option<Box<RBNode>>,
    k: i64,
    r: Option<Box<RBNode>>,
    c: Color,
) -> Option<Box<RBNode>> {
    if c == Color::Black && is_red(r) && (is_red(r->0.left) || is_red(r->0.right)) {
        if is_red(l) {
            node(recolored(l, Color::Black), k, recolored(r, Color::Black), Color::Red)
        } else {
            let r2 = if is_red(r->0.right) {
                r
            } else {
                rotated_right(r)
            };
            recolored(rotated_left(node(l, k, r2, Color::Red)), Color::Black)
        }
    } else {
        node(l, k, r, c)
    }
}

/// The subtree `t` after adding `key` as a red leaf at the empty link that
/// ordered descent reaches and running the insert fixup at each level on the
/// way back up; a subtree that holds `key` already stays as it is.
pub open spec fn inserted(t: Option<Box<RBNode>>, key: i64) -> Option<Box<RBNode>>
    decreases t,
{
    match t {
        None => node(None, key, None, Color::Red),
        Some(n) => if key < n.key {
            fixed_insert_left(inserted(n.left, key), n.key, n.right, n.color)
        } else if n.key < key {
            fixed_insert_right(n.left, n.key, inserted(n.right, key), n.color)
        } else {
            t
        },
    }
}

/// The whole tree after `insert`: the subtree result with a black root.
pub open spec fn tree_after_insert(t: Option<Box<RBNode>>, key: i64) -> Option<Box<RBNode>> {
    recolored(inserted(t, key), Color::Black)
}

/// The delete fixup at a parent (`k`, color `c`) whose left subtree `l` is
/// one black short, with sibling `r`; the second component tells whether the
/// result is still one black short. A red sibling (under a black parent) is
/// recolored black, the parent red, and the parent rotated left, after which
/// the fixup runs at the now red parent; a black sibling with black children
/// turns red and the shortage moves up unless the parent was red (it turns
/// black); otherwise an inner red child of the sibling is rotated outward
/// first (right at the sibling, recoloring both), then the sibling takes the
/// parent's color, the parent and the sibling's outer child turn black, and
/// the parent is rotated left.
pub open spec fn fixed_delete_left(
    l: Option<Box<RBNode>>,
    k: i64,
    r: Option<Box<RBNode>>,
    c: Color,
) -> (Option<Box<RBNode>>, bool)
    decreases
            (if c == Color::Black {
                1int
            } else {
                0int
            }),
{
    if c == Color::Black && is_red(r) {
        let s = r->0;
        let inner = fixed_delete_left(l, k, s.left, Color::Red).0;
        (node(inner, s.key, s.right, Color::Black), false)
    } else if !is_red(r->0.left) && !is_red(r->0.right) {
        (node(l, k, recolored(r, Color::Red), Color::Black), c == Color::Black)
    } else {
        let r2 = if !is_red(r->0.right) {
            let s = r->0;
            rotated_right(node(recolored(s.left, Color::Black), s.key, s.right, Color::Red))
        } else {
            r
        };
        let s = r2->0;
        (
            rotated_left(
                node(l, k, node(s.left, s.key, recolored(s.right, Color::Black), c), Color::Black),
            ),
            false,
        )
    }
}

/// The mirror of `fixed_delete_left`, for a right subtree `r` one black
/// short with sibling `l`.
pub open spec fn fixed_delete_right(
    l: Option<Box<RBNode>>,
    k: i64,
    r: Option<Box<RBNode>>,
    c: Color,
) -> (Option<Box<RBNode>>, bool)
    decreases
            (if c == Color::Black {
                1int
            } else {
                0int
            }),
{
    if c == Color::Black && is_red(l) {
        let s = l->0;
        let inner = fixed_delete_right(s.right, k, r, Color::Red).0;
        (node(s.left, s.key, inner, Color::Black), false)
    } else if !is_red(l->0.left) && !is_red(l->0.right) {
        (node(recolored(l, Color::Red), k, r, Color::Black), c == Color::Black)
    } else {
        let l2 = if !is_red(l->0.left) {
            let s = l->0;
            rotated_left(node(s.left, s.key, recolored(s.right, Color::Black), Color::Red))
        } else {
            l
        };
        let s = l2->0;
        (
            rotated_right(
                node(node(recolored(s.left, Color::Black), s.key, s.right, c), k, r, Color::Black),
            ),
            false,
        )
    }
}

/// The root of `t` replaced by its only child, if any: a red root leaves
/// its child (none, in a valid tree) as it is; a black root leaves its
/// child recolored black, or, being a leaf, an empty link one black short.
pub open spec fn spliced(t: Option<Box<RBNode>>) -> (Option<Box<RBNode>>, bool) {
    let n = t->0;
    let child = if n.left is Some {
        n.left
    } else {
        n.right
    };
    if n.color == Color::Red {
        (child, false)
    } else if child is Some {
        (recolored(child, Color::Black), false)
    } else {
        (None, true)
    }
}

/// The subtree `t` without its smallest key, whether it is one black short,
/// and that key: the leftmost node is spliced out and the delete fixup runs
/// at each level on the way back up while a black level is missing.
pub open spec fn min_removed(t: Option<Box<RBNode>>) -> (Option<Box<RBNode>>, bool, i64)
    decreases t,
{
    match t {
        None => (None, false, 0),
        Some(n) => if n.left is None {
            (spliced(t).0, spliced(t).1, n.key)
        } else {
            let m = min_removed(n.left);
            if m.1 {
                let f = fixed_delete_left(m.0, n.key, n.right, n.color);
                (f.0, f.1, m.2)
            } else {
                (node(m.0, n.key, n.right, n.color), false, m.2)
            }
        },
    }
}

/// The subtree `t` after deleting `key`, and whether it is one black short.
/// A node with two children takes its successor's key, which is removed from
/// the right subtree; any other node holding `key` is spliced out; the
/// delete fixup runs on the way back up while a black level is missing.
pub open spec fn deleted(t: Option<Box<RBNode>>, key: i64) -> (Option<Box<RBNode>>, bool)
    decreases t,
{
    match t {
        None => (None, false),
        Some(n) => if key < n.key {
            let d = deleted(n.left, key);
            if d.1 {
                fixed_delete_left(d.0, n.key, n.right, n.color)
            } else {
                (node(d.0, n.key, n.right, n.color), false)
            }
        } else if n.key < key {
            let d = deleted(n.right, key);
            if d.1 {
                fixed_delete_right(n.left, n.key, d.0, n.color)
            } else {
                (node(n.left, n.key, d.0, n.color), false)
            }
        } else if n.left is Some && n.right is Some {
            let m = min_removed(n.right);
            if m.1 {
                fixed_delete_right(n.left, m.2, m.0, n.color)
            } else {
                (node(n.left, m.2, m.0, n.color), false)
            }
        } else {
            spliced(t)
        },
    }
}

impl RBNode {
    /// A childless node.
    pub fn new(key: i64, color: Color) -> (r: RBNode)
        ensures
            r.key == key,
            r.color == color,
            r.left is None,
            r.right is None,
    {
        RBNode { left: None, right: None, key, color }
    }

    pub fn new_red(key: i64) -> (r: RBNode)
        ensures
            r == (RBNode { left: None, right: None, key, color: Color::Red }),
    {
        Self::new(key, Color::Red)
    }

    pub fn new_black(key: i64) -> (r: RBNode)
        ensures
            r == (RBNode { left: None, right: None, key, color: Color::Black }),
    {
        Self::new(key, Color::Black)
    }
}

fn make(l: Option<Box<RBNode>>, k: i64, r: Option<Box<RBNode>>, c: Color) -> (t: Option<
    Box<RBNode>,
>)
    ensures
        t == node(l, k, r, c),
{
    Some(Box::new(RBNode { left: l, right: r, key: k, color: c }))
}

/// The color of a link, black for an empty one.
fn color_of(t: &Option<Box<RBNode>>) -> (c: Color)
    ensures
        (c == Color::Red) == is_red(*t),
{
    match t {
        Some(n) => n.color,
        None => Color::Black,
    }
}

/// The same subtree with its root recolored; an empty link stays empty.
fn set_color(t: Option<Box<RBNode>>, c: Color) -> (r: Option<Box<RBNode>>)
    ensures
        t is None ==> r is None,
        t is Some ==> r == node(t->0.left, t->0.key, t->0.right, c),
        elems(r) == elems(t),
        ordered(r) == ordered(t),
        t is Some ==> black_height(r) == black_height(t->0.left) + if c == Color::Black {
            1nat
        } else {
            0nat
        },
        red_black(t) && c == Color::Black ==> red_black(r),
        red_violation(t) && c == Color::Black ==> red_black(r),
        r == recolored(t, c),
{
    match t {
        Some(b) => {
            let n = *b;
            let r = make(n.left, n.key, n.right, c);
            proof {
                assert(elems(r) =~= elems(t));
            }
            r
        },
        None => None,
    }
}

/// The subtree after a left rotation at its root.
pub open spec fn rotated_left(t: Option<Box<RBNode>>) -> Option<Box<RBNode>> {
    let p = t->0;
    let x = p.right->0;
    node(node(p.left, p.key, x.left, p.color), x.key, x.right, x.color)
}

/// The subtree after a right rotation at its root.
pub open spec fn rotated_right(t: Option<Box<RBNode>>) -> Option<Box<RBNode>> {
    let p = t->0;
    let x = p.left->0;
    node(x.left, x.key, node(x.right, p.key, p.right, p.color), x.color)
}

/// Rotates left at `pivot`: its right child takes its place and `pivot`
/// becomes that child's left child. Colors stay with their keys.
pub fn rotate_left(pivot: Option<Box<RBNode>>) -> (r: Option<Box<RBNode>>)
    requires
        pivot is Some,
        pivot->0.right is Some,
    ensures
        r == rotated_left(pivot),
        in_order_of(r) == in_order_of(pivot),
        elems(r) == elems(pivot),
        ordered(pivot) ==> ordered(r),
{
    let p = *pivot.unwrap();
    let x = *p.right.unwrap();
    let r = make(make(p.left, p.key, x.left, p.color), x.key, x.right, x.color);
    proof {
        let lo = node(p.left, p.key, x.left, p.color);
        assert(in_order_of(lo) == in_order_of(p.left) + seq![p.key] + in_order_of(x.left));
        assert(elems(lo) == elems(p.left).union(elems(x.left)).insert(p.key));
        assert(in_order_of(p.right) == in_order_of(x.left) + seq![x.key] + in_order_of(x.right));
        assert(elems(p.right) == elems(x.left).union(elems(x.right)).insert(x.key));
        assert(in_order_of(r) =~= in_order_of(pivot));
        assert(elems(r) =~= elems(pivot));
        if ordered(pivot) {
            assert(ordered(p.right));
            assert(forall|y: i64| #[trigger] elems(x.left).contains(y) ==> elems(p.right).contains(y));
            assert(ordered(lo));
            assert(elems(p.right).contains(x.key));
            assert(forall|y: i64| #[trigger] elems(lo).contains(y) ==> y < x.key);
            assert(ordered(r));
        }
    }
    r
}

/// Rotates right at `pivot`: the mirror of `rotate_left`.
pub fn rotate_right(pivot: Option<Box<RBNode>>) -> (r: Option<Box<RBNode>>)
    requires
        pivot is Some,
        pivot->0.left is Some,
    ensures
        r == rotated_right(pivot),
        in_order_of(r) == in_order_of(pivot),
        elems(r) == elems(pivot),
        ordered(pivot) ==> ordered(r),
{
    let p = *pivot.unwrap();
    let x = *p.left.unwrap();
    let r = make(x.left, x.key, make(x.right, p.key, p.right, p.color), x.color);
    proof {
        let ro = node(x.right, p.key, p.right, p.color);
        assert(in_order_of(ro) == in_order_of(x.right) + seq![p.key] + in_order_of(p.right));
        assert(elems(ro) == elems(x.right).union(elems(p.right)).insert(p.key));
        assert(in_order_of(p.left) == in_order_of(x.left) + seq![x.key] + in_order_of(x.right));
        assert(elems(p.left) == elems(x.left).union(elems(x.right)).insert(x.key));
        assert(in_order_of(r) =~= in_order_of(pivot));
        assert(elems(r) =~= elems(pivot));
        if ordered(pivot) {
            assert(ordered(p.left));
            assert(forall|y: i64| #[trigger] elems(x.right).contains(y) ==> elems(p.left).contains(y));
            assert(ordered(ro));
            assert(elems(p.left).contains(x.key));
            assert(forall|y: i64| #[trigger] elems(ro).contains(y) ==> x.key < y);
            assert(ordered(r));
        }
    }
    r
}

/// The color of the left child of a link, black where either is absent.
fn left_color(t: &Option<Box<RBNode>>) -> (c: Color)
    ensures
        (c == Color::Red) == (t is Some && is_red(t->0.left)),
{
    match t {
        Some(n) => color_of(&n.left),
        None => Color::Black,
    }
}

/// The color of the right child of a link, black where either is absent.
fn right_color(t: &Option<Box<RBNode>>) -> (c: Color)
    ensures
        (c == Color::Red) == (t is Some && is_red(t->0.right)),
{
    match t {
        Some(n) => color_of(&n.right),
        None => Color::Black,
    }
}

/// The insert fixup at a grandparent holding `k` with color `c`, whose left
/// subtree `l` has just received a key. A red `l` with a red child is the one
/// violation to repair: with a red uncle `r`, parent and uncle turn black and
/// the grandparent red, which may leave a violation for the level above;
/// otherwise an inner red child is first rotated outward, then the
/// grandparent is rotated right and the new top is black.
fn fix_insert_left(l: Option<Box<RBNode>>, k: i64, r: Option<Box<RBNode>>, c: Color) -> (t: Option<
    Box<RBNode>,
>)
    requires
        l is Some,
        ordered(l),
        ordered(r),
        forall|y: i64| #[trigger] elems(l).contains(y) ==> y < k,
        forall|y: i64| #[trigger] elems(r).contains(y) ==> k < y,
        red_black(r),
        red_black(l) || red_violation(l),
        black_height(l) == black_height(r),
        c == Color::Red ==> red_black(l) && !is_red(r),
    ensures
        t is Some,
        elems(t) == elems(l).union(elems(r)).insert(k),
        ordered(t),
        black_height(t) == black_height(node(l, k, r, c)),
        c == Color::Black ==> red_black(t),
        c == Color::Red ==> red_violation(t),
        red_black(l) && !(c == Color::Red && is_red(l)) ==> t == node(l, k, r, c),
        t == fixed_insert_left(l, k, r, c),
{
    if c == Color::Black && color_of(&l) == Color::Red && (left_color(&l) == Color::Red
        || right_color(&l) == Color::Red) {
        if color_of(&r) == Color::Red {
            let t = make(set_color(l, Color::Black), k, set_color(r, Color::Black), Color::Red);
            proof {
                assert(elems(t) =~= elems(l).union(elems(r)).insert(k));
            }
            t
        } else {
            let outer = left_color(&l) == Color::Red;
            let l2 = if outer {
                l
            } else {
                rotate_left(l)
            };
            proof {
                if !outer {
                    let p = l->0;
                    let x = p.right->0;
                    assert(red_black(p.right));
                    assert(black_height(p.left) == black_height(x.left));
                    assert(red_black(node(p.left, p.key, x.left, p.color)));
                }
            }
            let g = make(l2, k, r, Color::Red);
            let t = set_color(rotate_right(g), Color::Black);
            proof {
                assert(elems(g) =~= elems(l).union(elems(r)).insert(k));
                let p = l2->0;
                assert(red_black(p.left));
                assert(!is_red(p.right));
                assert(red_black(node(p.right, k, r, Color::Red)));
                let x = p.left->0;
                assert(black_height(x.left) == black_height(x.right));
            }
            t
        }
    } else {
        let t = make(l, k, r, c);
        proof {
            assert(elems(t) =~= elems(l).union(elems(r)).insert(k));
            if c == Color::Black {
                assert(red_black(l));
            }
        }
        t
    }
}

/// The mirror of `fix_insert_left`, for a key added to the right subtree.
fn fix_insert_right(l: Option<Box<RBNode>>, k: i64, r: Option<Box<RBNode>>, c: Color) -> (t: Option<
    Box<RBNode>,
>)
    requires
        r is Some,
        ordered(l),
        ordered(r),
        forall|y: i64| #[trigger] elems(l).contains(y) ==> y < k,
        forall|y: i64| #[trigger] elems(r).contains(y) ==> k < y,
        red_black(l),
        red_black(r) || red_violation(r),
        black_height(l) == black_height(r),
        c == Color::Red ==> red_black(r) && !is_red(l),
    ensures
        t is Some,
        elems(t) == elems(l).union(elems(r)).insert(k),
        ordered(t),
        black_height(t) == black_height(node(l, k, r, c)),
        c == Color::Black ==> red_black(t),
        c == Color::Red ==> red_violation(t),
        red_black(r) && !(c == Color::Red && is_red(r)) ==> t == node(l, k, r, c),
        t == fixed_insert_right(l, k, r, c),
{
    if c == Color::Black && color_of(&r) == Color::Red && (left_color(&r) == Color::Red
        || right_color(&r) == Color::Red) {
        if color_of(&l) == Color::Red {
            let t = make(set_color(l, Color::Black), k, set_color(r, Color::Black), Color::Red);
            proof {
                assert(elems(t) =~= elems(l).union(elems(r)).insert(k));
            }
            t
        } else {
            let outer = right_color(&r) == Color::Red;
            let r2 = if outer {
                r
            } else {
                rotate_right(r)
            };
            proof {
                if !outer {
                    let p = r->0;
                    let x = p.left->0;
                    assert(red_black(p.left));
                    assert(black_height(p.right) == black_height(x.right));
                    assert(red_black(node(x.right, p.key, p.right, p.color)));
                }
            }
            let g = make(l, k, r2, Color::Red);
            let t = set_color(rotate_left(g), Color::Black);
            proof {
                assert(elems(g) =~= elems(l).union(elems(r)).insert(k));
                let p = r2->0;
                assert(red_black(p.right));
                assert(!is_red(p.left));
                assert(red_black(node(l, k, p.left, Color::Red)));
                let x = p.right->0;
                assert(black_height(x.left) == black_height(x.right));
            }
            t
        }
    } else {
        let t = make(l, k, r, c);
        proof {
            assert(elems(t) =~= elems(l).union(elems(r)).insert(k));
            if c == Color::Black {
                assert(red_black(r));
            }
        }
        t
    }
}

/// Adds `key` below `t` as a red leaf at the empty link that ordered descent
/// reaches, then runs the insert fixup at each level on the way back up.
/// A key that is already present leaves the subtree as it was.
fn insert_into(t: Option<Box<RBNode>>, key: i64) -> (r: Option<Box<RBNode>>)
    requires
        ordered(t),
        red_black(t),
    ensures
        r is Some,
        elems(r) == elems(t).insert(key),
        ordered(r),
        black_height(r) == black_height(t),
        !is_red(t) ==> red_black(r),
        is_red(t) ==> red_violation(r),
        elems(t).contains(key) ==> r == t,
        r == inserted(t, key),
    decreases t,
{
    match t {
        None => {
            let r = Some(Box::new(RBNode::new_red(key)));
            proof {
                assert(elems(r) =~= elems(t).insert(key));
            }
            r
        },
        Some(b) => {
            let n = *b;
            if key < n.key {
                let l = insert_into(n.left, key);
                proof {
                    if elems(t).contains(key) {
                        assert(elems(t) == elems(n.left).union(elems(n.right)).insert(n.key));
                        if elems(n.right).contains(key) {
                            assert(n.key < key);
                        }
                        assert(elems(n.left).contains(key));
                    }
                }
                let r = fix_insert_left(l, n.key, n.right, n.color);
                proof {
                    assert(elems(r) =~= elems(t).insert(key));
                }
                r
            } else if n.key < key {
                let rr = insert_into(n.right, key);
                proof {
                    if elems(t).contains(key) {
                        assert(elems(t) == elems(n.left).union(elems(n.right)).insert(n.key));
                        if elems(n.left).contains(key) {
                            assert(key < n.key);
                        }
                        assert(elems(n.right).contains(key));
                    }
                }
                let r = fix_insert_right(n.left, n.key, rr, n.color);
                proof {
                    assert(elems(r) =~= elems(t).insert(key));
                }
                r
            } else {
                let r = make(n.left, n.key, n.right, n.color);
                proof {
                    assert(elems(r) =~= elems(t).insert(key));
                }
                r
            }
        },
    }
}

/// The delete fixup at a parent holding `k` with color `c` whose left subtree
/// `l` is one black short (the doubly black position), with sibling `r`.
/// A red sibling is rotated up first, which makes the parent red and leaves
/// the other cases; a black sibling with black children turns red, which
/// passes the shortage up unless the parent was red; a black sibling with a
/// red child is rotated (twice if only the inner child is red), which ends
/// the shortage here. The second result tells whether the subtree as a whole
/// is still one black short.
fn fix_delete_left(l: Option<Box<RBNode>>, k: i64, r: Option<Box<RBNode>>, c: Color) -> (res: (
    Option<Box<RBNode>>,
    bool,
))
    requires
        ordered(l),
        ordered(r),
        forall|y: i64| #[trigger] elems(l).contains(y) ==> y < k,
        forall|y: i64| #[trigger] elems(r).contains(y) ==> k < y,
        red_black(l),
        red_black(r),
        !is_red(l),
        black_height(l) + 1 == black_height(r),
        c == Color::Red ==> !is_red(r),
    ensures
        elems(res.0) == elems(l).union(elems(r)).insert(k),
        ordered(res.0),
        red_black(res.0),
        black_height(res.0) + black_count(res.1) == black_height(r) + black_count(
            c == Color::Black,
        ),
        is_red(res.0) ==> c == Color::Red && !res.1,
        c == Color::Red ==> !res.1,
        res == fixed_delete_left(l, k, r, c),
    decreases
            (if c == Color::Black {
                1int
            } else {
                0int
            }),
{
    proof {
        assert(elems(node(l, k, r, c)) =~= elems(l).union(elems(r)).insert(k));
    }
    if color_of(&r) == Color::Red {
        let s = *r.unwrap();
        proof {
            assert(red_black(s.left));
            assert(!is_red(s.left));
            assert(elems(r) == elems(s.left).union(elems(s.right)).insert(s.key));
            assert(forall|y: i64| #[trigger] elems(s.left).contains(y) ==> elems(r).contains(y));
        }
        let (inner, short) = fix_delete_left(l, k, s.left, Color::Red);
        let t = make(inner, s.key, s.right, Color::Black);
        proof {
            assert(!short);
            assert(elems(t) =~= elems(l).union(elems(r)).insert(k));
            assert(ordered(r));
            assert(elems(r).contains(s.key));
            assert(forall|y: i64| #[trigger] elems(inner).contains(y) ==> y < s.key);
            assert(red_black(s.right));
            assert(black_height(s.right) == black_height(s.left));
            assert(red_black(t));
        }
        (t, false)
    } else if left_color(&r) != Color::Red && right_color(&r) != Color::Red {
        let r2 = set_color(r, Color::Red);
        let t = make(l, k, r2, Color::Black);
        proof {
            assert(red_black(r2));
            assert(elems(t) =~= elems(l).union(elems(r)).insert(k));
            assert(red_black(t));
        }
        (t, c == Color::Black)
    } else {
        let r2 = if right_color(&r) != Color::Red {
            let s = *r.unwrap();
            proof {
                assert(red_black(s.left));
            }
            let sl = set_color(s.left, Color::Black);
            let r3 = rotate_right(make(sl, s.key, s.right, Color::Red));
            proof {
                let x = s.left->0;
                assert(red_black(x.left));
                assert(red_black(x.right));
                assert(!is_red(x.right));
                assert(!is_red(s.right));
                assert(black_height(x.left) == black_height(x.right));
                assert(red_black(node(x.right, s.key, s.right, Color::Red)));
                assert(black_height(r3) == black_height(r));
                assert(elems(r3) == elems(node(sl, s.key, s.right, Color::Red)));
                assert(elems(node(sl, s.key, s.right, Color::Red)) =~= elems(r));
            }
            r3
        } else {
            r
        };
        proof {
            assert(elems(r2) == elems(r));
            let s = r2->0;
            assert(red_black(s.left));
            assert(red_black(s.right));
            assert(is_red(s.right));
            assert(black_height(s.left) == black_height(s.right));
            assert(!is_red(r2));
        }
        let s = *r2.unwrap();
        let sr = set_color(s.right, Color::Black);
        let t = rotate_left(make(l, k, make(s.left, s.key, sr, c), Color::Black));
        proof {
            assert(elems(node(s.left, s.key, sr, c)) =~= elems(r2));
            assert(ordered(r2));
            assert(ordered(node(s.left, s.key, sr, c)));
            assert(ordered(node(l, k, node(s.left, s.key, sr, c), Color::Black)));
            assert(red_black(node(l, k, s.left, Color::Black)));
            assert(elems(t) =~= elems(l).union(elems(r)).insert(k));
            assert(red_black(t));
        }
        (t, false)
    }
}

/// The mirror of `fix_delete_left`, for a right subtree `r` one black short
/// with sibling `l`.
fn fix_delete_right(l: Option<Box<RBNode>>, k: i64, r: Option<Box<RBNode>>, c: Color) -> (res: (
    Option<Box<RBNode>>,
    bool,
))
    requires
        ordered(l),
        ordered(r),
        forall|y: i64| #[trigger] elems(l).contains(y) ==> y < k,
        forall|y: i64| #[trigger] elems(r).contains(y) ==> k < y,
        red_black(l),
        red_black(r),
        !is_red(r),
        black_height(r) + 1 == black_height(l),
        c == Color::Red ==> !is_red(l),
    ensures
        elems(res.0) == elems(l).union(elems(r)).insert(k),
        ordered(res.0),
        red_black(res.0),
        black_height(res.0) + black_count(res.1) == black_height(l) + black_count(
            c == Color::Black,
        ),
        is_red(res.0) ==> c == Color::Red && !res.1,
        c == Color::Red ==> !res.1,
        res == fixed_delete_right(l, k, r, c),
    decreases
            (if c == Color::Black {
                1int
            } else {
                0int
            }),
{
    proof {
        assert(elems(node(l, k, r, c)) =~= elems(l).union(elems(r)).insert(k));
    }
    if color_of(&l) == Color::Red {
        let s = *l.unwrap();
        proof {
            assert(red_black(s.right));
            assert(!is_red(s.right));
            assert(elems(l) == elems(s.left).union(elems(s.right)).insert(s.key));
            assert(forall|y: i64| #[trigger] elems(s.right).contains(y) ==> elems(l).contains(y));
            assert(black_height(s.right) == black_height(s.left));
        }
        let (inner, short) = fix_delete_right(s.right, k, r, Color::Red);
        let t = make(s.left, s.key, inner, Color::Black);
        proof {
            assert(!short);
            assert(elems(t) =~= elems(l).union(elems(r)).insert(k));
            assert(ordered(l));
            assert(elems(l).contains(s.key));
            assert(forall|y: i64| #[trigger] elems(inner).contains(y) ==> s.key < y);
            assert(red_black(s.left));
            assert(red_black(t));
        }
        (t, false)
    } else if left_color(&l) != Color::Red && right_color(&l) != Color::Red {
        let l2 = set_color(l, Color::Red);
        let t = make(l2, k, r, Color::Black);
        proof {
            assert(red_black(l2));
            assert(elems(t) =~= elems(l).union(elems(r)).insert(k));
            assert(red_black(t));
        }
        (t, c == Color::Black)
    } else {
        let l2 = if left_color(&l) != Color::Red {
            let s = *l.unwrap();
            proof {
                assert(red_black(s.right));
            }
            let sr = set_color(s.right, Color::Black);
            let l3 = rotate_left(make(s.left, s.key, sr, Color::Red));
            proof {
                let x = s.right->0;
                assert(red_black(x.left));
                assert(red_black(x.right));
                assert(!is_red(x.left));
                assert(!is_red(s.left));
                assert(black_height(x.left) == black_height(x.right));
                assert(black_height(s.left) == black_height(x.left));
                assert(red_black(node(s.left, s.key, x.left, Color::Red)));
                assert(black_height(node(s.left, s.key, x.left, Color::Red)) == black_height(s.left));
                assert(black_height(l3) == black_height(l));
                assert(elems(l3) == elems(node(s.left, s.key, sr, Color::Red)));
                assert(elems(node(s.left, s.key, sr, Color::Red)) =~= elems(l));
            }
            l3
        } else {
            l
        };
        proof {
            assert(elems(l2) == elems(l));
            let s = l2->0;
            assert(red_black(s.left));
            assert(red_black(s.right));
            assert(is_red(s.left));
            assert(black_height(s.left) == black_height(s.right));
            assert(!is_red(l2));
        }
        let s = *l2.unwrap();
        let sl = set_color(s.left, Color::Black);
        let t = rotate_right(make(make(sl, s.key, s.right, c), k, r, Color::Black));
        proof {
            assert(elems(node(sl, s.key, s.right, c)) =~= elems(l2));
            assert(ordered(l2));
            assert(ordered(node(sl, s.key, s.right, c)));
            assert(ordered(node(node(sl, s.key, s.right, c), k, r, Color::Black)));
            assert(red_black(node(s.right, k, r, Color::Black)));
            assert(elems(t) =~= elems(l).union(elems(r)).insert(k));
            assert(red_black(t));
        }
        (t, false)
    }
}

/// Removes the root of a subtree that has at most one child and puts that
/// child in its place. A red root can only be a leaf here; a black root with
/// a child has a red leaf child, which turns black; a black leaf leaves its
/// position one black short, which the second result reports.
fn splice(t: Option<Box<RBNode>>) -> (res: (Option<Box<RBNode>>, bool))
    requires
        t is Some,
        t->0.left is None || t->0.right is None,
        ordered(t),
        red_black(t),
    ensures
        elems(res.0) == elems(t).remove(t->0.key),
        ordered(res.0),
        red_black(res.0),
        !is_red(res.0),
        black_height(res.0) + black_count(res.1) == black_height(t),
        res == spliced(t),
{
    let n = *t.unwrap();
    proof {
        assert(n.left is Some ==> black_height(n.left) > 0 || is_red(n.left));
        assert(n.right is Some ==> black_height(n.right) > 0 || is_red(n.right));
    }
    let child = if n.left.is_some() {
        n.left
    } else {
        n.right
    };
    proof {
        assert(elems(t) == elems(n.left).union(elems(n.right)).insert(n.key));
        assert(elems(None::<Box<RBNode>>) == Set::<i64>::empty());
        assert(elems(n.left).union(elems(n.right)) =~= elems(child));
        assert(!elems(child).contains(n.key));
        assert(elems(child) =~= elems(t).remove(n.key));
    }
    if n.color == Color::Red {
        (child, false)
    } else if child.is_some() {
        (set_color(child, Color::Black), false)
    } else {
        (None, true)
    }
}

/// Removes the smallest key of a non-empty subtree and returns it with the
/// rest: the leftmost node is spliced out, then the delete fixup runs at each
/// level on the way back up while a black level is missing.
fn remove_min(t: Option<Box<RBNode>>) -> (res: (Option<Box<RBNode>>, bool, i64))
    requires
        t is Some,
        ordered(t),
        red_black(t),
    ensures
        elems(t).contains(res.2),
        forall|y: i64| #[trigger] elems(t).contains(y) ==> res.2 <= y,
        elems(res.0) == elems(t).remove(res.2),
        ordered(res.0),
        red_black(res.0),
        black_height(res.0) + black_count(res.1) == black_height(t),
        is_red(res.0) ==> is_red(t) && !res.1,
        res == min_removed(t),
    decreases t,
{
    let b = t.unwrap();
    if b.left.is_none() {
        let key = b.key;
        let res = splice(Some(b));
        proof {
            assert(elems(t) == elems(b.left).union(elems(b.right)).insert(b.key));
        }
        (res.0, res.1, key)
    } else {
        let n = *b;
        let (l, short, m) = remove_min(n.left);
        proof {
            assert(elems(t) == elems(n.left).union(elems(n.right)).insert(n.key));
            assert(forall|y: i64| #[trigger] elems(l).contains(y) ==> elems(n.left).contains(y));
        }
        if short {
            let (t2, s2) = fix_delete_left(l, n.key, n.right, n.color);
            proof {
                assert(elems(t2) =~= elems(t).remove(m));
            }
            (t2, s2, m)
        } else {
            let t2 = make(l, n.key, n.right, n.color);
            proof {
                assert(elems(t2) =~= elems(t).remove(m));
            }
            (t2, false, m)
        }
    }
}

/// Removes `key` from the subtree `t` if it is there. A node with two
/// children takes the key of its in-order successor, which is then removed
/// from the right subtree; otherwise the node is spliced out. The delete
/// fixup runs on the way back up while a black level is missing. A subtree
/// without `key` comes back as it was.
fn delete_from(t: Option<Box<RBNode>>, key: i64) -> (res: (Option<Box<RBNode>>, bool))
    requires
        ordered(t),
        red_black(t),
    ensures
        elems(res.0) == elems(t).remove(key),
        ordered(res.0),
        red_black(res.0),
        black_height(res.0) + black_count(res.1) == black_height(t),
        is_red(res.0) ==> is_red(t) && !res.1,
        !elems(t).contains(key) ==> res.0 == t && !res.1,
        res == deleted(t, key),
    decreases t,
{
    match t {
        None => {
            proof {
                assert(elems(t).remove(key) =~= elems(t));
            }
            (None, false)
        },
        Some(b) => {
            proof {
                assert(elems(t) == elems(b.left).union(elems(b.right)).insert(b.key));
            }
            if key < b.key {
                let n = *b;
                let (l, short) = delete_from(n.left, key);
                proof {
                    assert(!elems(n.right).contains(key));
                    assert(forall|y: i64| #[trigger] elems(l).contains(y) ==> elems(n.left).contains(y));
                }
                if short {
                    let (t2, s2) = fix_delete_left(l, n.key, n.right, n.color);
                    proof {
                        assert(elems(t2) =~= elems(t).remove(key));
                    }
                    (t2, s2)
                } else {
                    let t2 = make(l, n.key, n.right, n.color);
                    proof {
                        assert(elems(t2) =~= elems(t).remove(key));
                    }
                    (t2, false)
                }
            } else if b.key < key {
                let n = *b;
                let (r, short) = delete_from(n.right, key);
                proof {
                    assert(!elems(n.left).contains(key));
                    assert(forall|y: i64| #[trigger] elems(r).contains(y) ==> elems(n.right).contains(y));
                }
                if short {
                    let (t2, s2) = fix_delete_right(n.left, n.key, r, n.color);
                    proof {
                        assert(elems(t2) =~= elems(t).remove(key));
                    }
                    (t2, s2)
                } else {
                    let t2 = make(n.left, n.key, r, n.color);
                    proof {
                        assert(elems(t2) =~= elems(t).remove(key));
                    }
                    (t2, false)
                }
            } else if b.left.is_some() && b.right.is_some() {
                let n = *b;
                let (r, short, m) = remove_min(n.right);
                proof {
                    assert(forall|y: i64| #[trigger] elems(n.left).contains(y) ==> y < m);
                    assert(forall|y: i64| #[trigger] elems(r).contains(y) ==> m < y);
                    assert(!elems(n.left).contains(key));
                    assert(!elems(n.right).contains(key));
                }
                if short {
                    let (t2, s2) = fix_delete_right(n.left, m, r, n.color);
                    proof {
                        assert(elems(t2) =~= elems(t).remove(key));
                    }
                    (t2, s2)
                } else {
                    let t2 = make(n.left, m, r, n.color);
                    proof {
                        assert(elems(t2) =~= elems(t).remove(key));
                    }
                    (t2, false)
                }
            } else {
                splice(Some(b))
            }
        },
    }
}

impl RBTree {
    /// The root link of the tree.
    pub closed spec fn root_link(&self) -> Option<Box<RBNode>> {
        self.root
    }

    /// The tree invariants hold.
    pub open spec fn wf(&self) -> bool {
        valid_tree(self.root_link())
    }

    /// The keys in ascending order.
    pub open spec fn keys(&self) -> Seq<i64> {
        in_order_of(self.root_link())
    }

    /// A tree holding `key` alone, in a black root.
    pub fn new(key: i64) -> (t: RBTree)
        ensures
            t.wf(),
            t@ == set![key],
            t.root_link() == node(None, key, None, Color::Black),
    {
        let r = make(None, key, None, Color::Black);
        proof {
            let none = None::<Box<RBNode>>;
            assert(elems(none) == Set::<i64>::empty());
            assert(elems(r) =~= set![key]);
            assert(red_black(none) && ordered(none));
            assert(red_black(r));
            assert(ordered(r));
        }
        let t = RBTree { root: r };
        t
    }

    /// Adds `key`; a key that is already present leaves the tree unchanged.
    pub fn insert(&mut self, key: i64)
        requires
            old(self).wf(),
        ensures
            final(self).wf(),
            final(self)@ == old(self)@.insert(key),
            final(self).keys().to_set() == old(self)@.insert(key),
            strictly_ascending(final(self).keys()),
            old(self)@.contains(key) ==> final(self).root_link() == old(self).root_link(),
            final(self).root_link() == tree_after_insert(old(self).root_link(), key),
    {
        let root = self.root.take();
        let r = insert_into(root, key);
        self.root = set_color(r, Color::Black);
        proof {
            lemma_in_order_sorted(self.root);
        }
    }

    /// Removes `key`; a key that is not present leaves the tree unchanged.
    pub fn delete(&mut self, key: &i64)
        requires
            old(self).wf(),
        ensures
            final(self).wf(),
            final(self)@ == old(self)@.remove(*key),
            final(self).keys().to_set() == old(self)@.remove(*key),
            strictly_ascending(final(self).keys()),
            !old(self)@.contains(*key) ==> final(self).root_link() == old(self).root_link(),
            final(self).root_link() == deleted(old(self).root_link(), *key).0,
    {
        let root = self.root.take();
        let (r, _short) = delete_from(root, *key);
        self.root = r;
        proof {
            lemma_in_order_sorted(self.root);
        }
    }

    /// Whether `key` is in the tree, by ordered descent from the root.
    pub fn contains(&self, key: &i64) -> (r: bool)
        requires
            self.wf(),
        ensures
            r == self@.contains(*key),
    {
        find(&self.root, key).is_some()
    }

    /// The stored key equal to `key`, if there is one.
    pub fn get(&self, key: &i64) -> (r: Option<&i64>)
        requires
            self.wf(),
        ensures
            r is Some == self@.contains(*key),
            r is Some ==> *r->0 == *key,
    {
        find(&self.root, key)
    }

    /// The keys in ascending order.
    pub fn in_order(&self) -> (r: Vec<i64>)
        requires
            self.wf(),
        ensures
            r@ == self.keys(),
            r@.to_set() == self@,
            strictly_ascending(r@),
    {
        let mut out: Vec<i64> = Vec::new();
        collect_in_order(&self.root, &mut out);
        proof {
            lemma_in_order_sorted(self.root);
            assert(out@ =~= self.keys());
        }
        out
    }

    /// Recomputes the red-black rules: a black root (or none), no red node
    /// with a red child, and one black height on every path. It reports
    /// `true` only where they hold, and wherever they hold with a black
    /// height that fits in a `u64`.
    pub fn check_invariants(&self) -> (r: bool)
        ensures
            r ==> !is_red(self.root_link()) && red_black(self.root_link()),
            !is_red(self.root_link()) && red_black(self.root_link()) && black_height(
                self.root_link(),
            ) < u64::MAX ==> r,
    {
        color_of(&self.root) == Color::Black && check_colors(&self.root).is_some()
    }

    /// Whether the keys are in search order: every key of a left subtree
    /// below its node's key, every key of a right subtree above it.
    pub fn check_order(&self) -> (r: bool)
        ensures
            r == ordered(self.root_link()),
    {
        let r = check_order_within(&self.root, None, None);
        proof {
            if ordered(self.root) {
                assert forall|x: i64| #[trigger] elems(self.root).contains(x) implies within(
                    x,
                    None,
                    None,
                ) by {}
            }
        }
        r
    }

    /// The root link, for inspecting the shape of the tree.
    pub fn root(&self) -> (r: &Option<Box<RBNode>>)
        ensures
            *r == self.root_link(),
    {
        &self.root
    }
}

impl Default for RBTree {
    /// The empty tree.
    fn default() -> (t: RBTree)
        ensures
            t.wf(),
            t@ == Set::<i64>::empty(),
            t.root_link() is None,
    {
        RBTree { root: None }
    }
}

/// The node of `t` holding `key`, found by ordered descent.
fn find<'a>(t: &'a Option<Box<RBNode>>, key: &i64) -> (r: Option<&'a i64>)
    requires
        ordered(*t),
    ensures
        r is Some == elems(*t).contains(*key),
        r is Some ==> *r->0 == *key,
    decreases *t,
{
    match t {
        None => None,
        Some(n) => {
            proof {
                assert(elems(*t) == elems(n.left).union(elems(n.right)).insert(n.key));
            }
            if *key < n.key {
                proof {
                    assert(!elems(n.right).contains(*key));
                }
                find(&n.left, key)
            } else if n.key < *key {
                proof {
                    assert(!elems(n.left).contains(*key));
                }
                find(&n.right, key)
            } else {
                Some(&n.key)
            }
        },
    }
}

/// Appends the keys of `t` in order to `out`.
fn collect_in_order(t: &Option<Box<RBNode>>, out: &mut Vec<i64>)
    ensures
        final(out)@ == old(out)@ + in_order_of(*t),
    decreases *t,
{
    match t {
        None => {
            proof {
                assert(old(out)@ + in_order_of(*t) =~= old(out)@);
            }
        },
        Some(n) => {
            collect_in_order(&n.left, out);
            out.push(n.key);
            collect_in_order(&n.right, out);
            proof {
                assert(final(out)@ =~= old(out)@ + in_order_of(*t));
            }
        },
    }
}

/// In a search-ordered subtree the in-order keys are strictly ascending and
/// are exactly the subtree's keys.
pub proof fn lemma_in_order_sorted(t: Option<Box<RBNode>>)
    requires
        ordered(t),
    ensures
        in_order_of(t).to_set() == elems(t),
        strictly_ascending(in_order_of(t)),
    decreases t,
{
    match t {
        None => {
            assert(in_order_of(t).to_set() =~= elems(t));
        },
        Some(n) => {
            lemma_in_order_sorted(n.left);
            lemma_in_order_sorted(n.right);
            let a = in_order_of(n.left);
            let b = in_order_of(n.right);
            let s = in_order_of(t);
            assert(s == a + seq![n.key] + b);
            assert forall|x: i64| s.to_set().contains(x) == elems(t).contains(x) by {
                if s.to_set().contains(x) {
                    let i = choose|i: int| 0 <= i < s.len() && s[i] == x;
                    if i < a.len() {
                        assert(a.to_set().contains(a[i]));
                    } else if i > a.len() {
                        assert(b.to_set().contains(b[i - a.len() - 1]));
                    }
                }
                if elems(n.left).contains(x) {
                    let i = choose|i: int| 0 <= i < a.len() && a[i] == x;
                    assert(s[i] == x);
                }
                if elems(n.right).contains(x) {
                    let i = choose|i: int| 0 <= i < b.len() && b[i] == x;
                    assert(s[i + a.len() + 1] == x);
                }
                if x == n.key {
                    assert(s[a.len() as int] == x);
                }
            }
            assert(s.to_set() =~= elems(t));
            assert forall|i: int, j: int| 0 <= i < j < s.len() implies s[i] < s[j] by {
                if i < a.len() {
                    assert(a.to_set().contains(a[i]));
                }
                if j > a.len() {
                    assert(b.to_set().contains(b[j - a.len() - 1]));
                }
            }
        },
    }
}

/// `x` lies strictly between the bounds that are present.
pub open spec fn within(x: i64, lo: Option<i64>, hi: Option<i64>) -> bool {
    (lo is None || lo->0 < x) && (hi is None || x < hi->0)
}

/// Whether `t` is search-ordered with every key strictly between the bounds.
fn check_order_within(t: &Option<Box<RBNode>>, lo: Option<i64>, hi: Option<i64>) -> (r: bool)
    ensures
        r == (ordered(*t) && forall|x: i64| #[trigger] elems(*t).contains(x) ==> within(x, lo, hi)),
    decreases *t,
{
    match t {
        None => true,
        Some(n) => {
            proof {
                assert(elems(*t) == elems(n.left).union(elems(n.right)).insert(n.key));
            }
            let inside = (match lo {
                Some(a) => a < n.key,
                None => true,
            }) && (match hi {
                Some(b) => n.key < b,
                None => true,
            });
            if !inside {
                proof {
                    assert(elems(*t).contains(n.key));
                    assert(!within(n.key, lo, hi));
                }
                return false;
            }
            let l = check_order_within(&n.left, lo, Some(n.key));
            let r = check_order_within(&n.right, Some(n.key), hi);
            proof {
                if l && r {
                    assert forall|x: i64| #[trigger] elems(*t).contains(x) implies within(x, lo, hi) by {
                        if elems(n.left).contains(x) {
                            assert(within(x, lo, Some(n.key)));
                        }
                        if elems(n.right).contains(x) {
                            assert(within(x, Some(n.key), hi));
                        }
                    }
                    assert forall|x: i64| #[trigger] elems(n.left).contains(x) implies x < n.key by {
                        assert(within(x, lo, Some(n.key)));
                    }
                    assert forall|x: i64| #[trigger] elems(n.right).contains(x) implies n.key < x by {
                        assert(within(x, Some(n.key), hi));
                    }
                    assert(ordered(*t));
                }
                if ordered(*t) && forall|x: i64| #[trigger] elems(*t).contains(x) ==> within(x, lo, hi) {
                    assert forall|x: i64| #[trigger] elems(n.left).contains(x) implies within(x, lo, Some(n.key)) by {
                        assert(elems(*t).contains(x));
                    }
                    assert forall|x: i64| #[trigger] elems(n.right).contains(x) implies within(x, Some(n.key), hi) by {
                        assert(elems(*t).contains(x));
                    }
                }
                if !l || !r {
                    if ordered(*t) && forall|x: i64| #[trigger] elems(*t).contains(x) ==> within(x, lo, hi) {
                        assert(false);
                    }
                }
            }
            l && r
        },
    }
}

/// The black height of `t` if the red-black rules hold in it.
fn check_colors(t: &Option<Box<RBNode>>) -> (r: Option<u64>)
    ensures
        r is Some ==> red_black(*t) && r->0 == black_height(*t),
        red_black(*t) && black_height(*t) < u64::MAX ==> r is Some,
    decreases *t,
{
    match t {
        None => Some(0),
        Some(n) => {
            if n.color == Color::Red && (color_of(&n.left) == Color::Red || color_of(&n.right)
                == Color::Red) {
                return None;
            }
            let l = match check_colors(&n.left) {
                Some(h) => h,
                None => {
                    return None;
                },
            };
            let r = match check_colors(&n.right) {
                Some(h) => h,
                None => {
                    return None;
                },
            };
            if l != r {
                None
            } else if n.color == Color::Black {
                if l == u64::MAX {
                    None
                } else {
                    Some(l + 1)
                }
            } else {
                Some(l)
            }
        },
    }
}

/// A valid tree without keys has no nodes.
pub proof fn lemma_no_keys_no_nodes(t: Option<Box<RBNode>>)
    requires
        elems(t) == Set::<i64>::empty(),
    ensures
        t is None,
{
    if t is Some {
        assert(elems(t).contains(t->0.key));
    }
}

/// A valid tree with exactly one key is a single black node.
pub proof fn lemma_single_key(t: Option<Box<RBNode>>, k: i64)
    requires
        valid_tree(t),
        elems(t) == set![k],
    ensures
        t == node(None, k, None, Color::Black),
{
    assert(elems(t).contains(k));
    if t is None {
        assert(elems(t) == Set::<i64>::empty());
    }
    let n = t->0;
    assert(elems(t).contains(n.key));
    assert(elems(t) == elems(n.left).union(elems(n.right)).insert(n.key));
    if n.left is Some {
        assert(elems(t).contains(n.left->0.key));
        assert(elems(n.left).contains(n.left->0.key));
    }
    if n.right is Some {
        assert(elems(t).contains(n.right->0.key));
        assert(elems(n.right).contains(n.right->0.key));
    }
}

/// The black nodes met walking down from `t` by `path` (`true` going right)
/// to the empty link where the path ends; `None` where the path stops at a
/// node or runs past an empty link.
pub open spec fn path_blacks(t: Option<Box<RBNode>>, path: Seq<bool>) -> Option<nat>
    decreases path.len(),
{
    match t {
        None => if path.len() == 0 {
            Some(0nat)
        } else {
            None
        },
        Some(n) => if path.len() == 0 {
            None
        } else {
            match path_blacks(
                if path[0] {
                    n.right
                } else {
                    n.left
                },
                path.drop_first(),
            ) {
                Some(c) => Some(c + black_count(n.color == Color::Black)),
                None => None,
            }
        },
    }
}

/// Under the red-black rules every path from a node down to an empty link
/// meets the same number of black nodes: the black height.
pub proof fn lemma_black_paths(t: Option<Box<RBNode>>, path: Seq<bool>)
    requires
        red_black(t),
        path_blacks(t, path) is Some,
    ensures
        path_blacks(t, path) == Some(black_height(t)),
    decreases path.len(),
{
    match t {
        None => {},
        Some(n) => {
            let c = if path[0] {
                n.right
            } else {
                n.left
            };
            lemma_black_paths(c, path.drop_first());
        },
    }
}

/// A valid tree from which every key has been deleted has no nodes left.
pub proof fn law_no_keys_empty_tree(t: &RBTree)
    requires
        t.wf(),
        t@ == Set::<i64>::empty(),
    ensures
        t.root_link() is None,
{
    lemma_no_keys_no_nodes(t.root_link());
}

/// A valid tree holding one key is a single black root; so deleting the root
/// of a two-node tree leaves the other key alone in a black root.
pub proof fn law_single_key_black_root(t: &RBTree, k: i64)
    requires
        t.wf(),
        t@ == set![k],
    ensures
        t.root_link() == node(None, k, None, Color::Black),
{
    lemma_single_key(t.root_link(), k);
}

} // verus!
