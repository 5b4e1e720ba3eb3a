use std::collections::VecDeque;
use vstd::prelude::*;

verus! {

/// A binary tree node that borrows its value.
#[derive(Debug, PartialEq, Eq)]
pub struct BinaryNode<'a, T> {
    pub value: &'a T,
    pub left: Option<Box<BinaryNode<'a, T>>>,
    pub right: Option<Box<BinaryNode<'a, T>>>,
}

/// The node a child link leads to, if any.
pub open spec fn child<'b, 'a, T>(link: &'b Option<Box<BinaryNode<'a, T>>>) -> Option<&'b BinaryNode<'a, T>> {
    match link {
        Some(b) => Some(&**b),
        None => None,
    }
}

/// Values in pre-order: the node, its left subtree, its right subtree.
pub open spec fn pre_order_of<'a, T>(curr: Option<&BinaryNode<'a, T>>) -> Seq<&'a T>
    decreases curr,
{
    match curr {
        None => Seq::empty(),
        Some(node) => seq![node.value] + pre_order_of(child(&node.left)) + pre_order_of(child(&node.right)),
    }
}

/// Values in post-order: the left subtree, the right subtree, the node.
pub open spec fn post_order_of<'a, T>(curr: Option<&BinaryNode<'a, T>>) -> Seq<&'a T>
    decreases curr,
{
    match curr {
        None => Seq::empty(),
        Some(node) => post_order_of(child(&node.left)) + post_order_of(child(&node.right)) + seq![
            node.value,
        ],
    }
}

/// Values in in-order: the left subtree, the node, the right subtree.
pub open spec fn in_order_of<'a, T>(curr: Option<&BinaryNode<'a, T>>) -> Seq<&'a T>
    decreases curr,
{
    match curr {
        None => Seq::empty(),
        Some(node) => in_order_of(child(&node.left)) + seq![node.value] + in_order_of(
            child(&node.right),
        ),
    }
}

/// Some node of the tree holds `v`.
pub open spec fn holds<'a>(curr: Option<&BinaryNode<'a, i32>>, v: i32) -> bool
    decreases curr,
{
    match curr {
        None => false,
        Some(node) => *node.value == v || holds(child(&node.left), v) || holds(
            child(&node.right),
            v,
        ),
    }
}

/// Every value in a left subtree is at most its node's value, and every
/// value in a right subtree at least that value.
pub open spec fn is_search_tree<'a>(curr: Option<&BinaryNode<'a, i32>>) -> bool
    decreases curr,
{
    match curr {
        None => true,
        Some(node) => {
            &&& forall|v: i32| #[trigger] holds(child(&node.left), v) ==> v <= *node.value
            &&& forall|v: i32| #[trigger] holds(child(&node.right), v) ==> v >= *node.value
            &&& is_search_tree(child(&node.left))
            &&& is_search_tree(child(&node.right))
        },
    }
}

/// The number of nodes.
pub open spec fn size<'a, T>(curr: Option<&BinaryNode<'a, T>>) -> nat
    decreases curr,
{
    match curr {
        None => 0,
        Some(node) => 1 + size(child(&node.left)) + size(child(&node.right)),
    }
}

/// The number of nodes in all the trees of `q` together.
pub open spec fn total_size<'a, T>(q: Seq<&BinaryNode<'a, T>>) -> nat
    decreases q.len(),
{
    if q.len() == 0 {
        0
    } else {
        total_size(q.drop_last()) + size(Some(q.last()))
    }
}

proof fn lemma_total_size_front<'a, T>(q: Seq<&BinaryNode<'a, T>>)
    requires
        q.len() > 0,
    ensures
        total_size(q) == size(Some(q[0])) + total_size(q.drop_first()),
    decreases q.len(),
{
    if q.len() > 1 {
        lemma_total_size_front(q.drop_last());
        assert(q.drop_last().drop_first() =~= q.drop_first().drop_last());
    } else {
        assert(q.drop_first() =~= q.drop_last());
    }
}

proof fn lemma_total_size_push<'a, T>(q: Seq<&BinaryNode<'a, T>>, x: &BinaryNode<'a, T>)
    ensures
        total_size(q.push(x)) == total_size(q) + size(Some(x)),
{
    assert(q.push(x).drop_last() =~= q);
}

fn child_of<'b, 'a, T>(link: &'b Option<Box<BinaryNode<'a, T>>>) -> (r: Option<&'b BinaryNode<'a, T>>)
    ensures
        r == child(link),
{
    match link {
        Some(b) => Some(&**b),
        None => None,
    }
}

fn pre_order_walk<'a, T>(curr: Option<&BinaryNode<'a, T>>, path: Vec<&'a T>) -> (r: Vec<&'a T>)
    ensures
        r@ == path@ + pre_order_of(curr),
    decreases curr,
{
    match curr {
        None => path,
        Some(node) => {
            let mut path = path;
            path.push(node.value);
            path = pre_order_walk(child_of(&node.left), path);
            path = pre_order_walk(child_of(&node.right), path);
            path
        },
    }
}

fn post_order_walk<'a, T>(curr: Option<&BinaryNode<'a, T>>, path: Vec<&'a T>) -> (r: Vec<&'a T>)
    ensures
        r@ == path@ + post_order_of(curr),
    decreases curr,
{
    match curr {
        None => path,
        Some(node) => {
            let mut path = path;
            path = post_order_walk(child_of(&node.left), path);
            path = post_order_walk(child_of(&node.right), path);
            path.push(node.value);
            path
        },
    }
}

fn in_order_walk<'a, T>(curr: Option<&BinaryNode<'a, T>>, path: Vec<&'a T>) -> (r: Vec<&'a T>)
    ensures
        r@ == path@ + in_order_of(curr),
    decreases curr,
{
    match curr {
        None => path,
        Some(node) => {
            let mut path = path;
            path = in_order_walk(child_of(&node.left), path);
            path.push(node.value);
            path = in_order_walk(child_of(&node.right), path);
            path
        },
    }
}

/// Whether `needle` is in the tree, descending left or right by comparison
/// at each node. A `true` is always right; on a search tree the answer is
/// exact.
fn depth_first_search<'a>(curr: Option<&BinaryNode<'a, i32>>, needle: &i32) -> (r: bool)
    ensures
        r ==> holds(curr, *needle),
        is_search_tree(curr) ==> r == holds(curr, *needle),
    decreases curr,
{
    match curr {
        None => false,
        Some(node) => {
            if *node.value == *needle {
                true
            } else if *node.value > *needle {
                proof {
                    if is_search_tree(curr) {
                        assert(!holds(child(&node.right), *needle));
                    }
                }
                depth_first_search(child_of(&node.left), needle)
            } else {
                proof {
                    if is_search_tree(curr) {
                        assert(!holds(child(&node.left), *needle));
                    }
                }
                depth_first_search(child_of(&node.right), needle)
            }
        },
    }
}

impl<'a, T> BinaryNode<'a, T> {
    /// The values in pre-order.
    pub fn pre_order(&self) -> (r: Vec<&T>)
        ensures
            r@ == pre_order_of(Some(self)),
    {
        let r = pre_order_walk(Some(self), Vec::new());
        assert(r@ =~= pre_order_of(Some(self)));
        r
    }

    /// The values in post-order.
    pub fn post_order(&self) -> (r: Vec<&T>)
        ensures
            r@ == post_order_of(Some(self)),
    {
        let r = post_order_walk(Some(self), Vec::new());
        assert(r@ =~= post_order_of(Some(self)));
        r
    }

    /// The values in in-order.
    pub fn in_order(&self) -> (r: Vec<&T>)
        ensures
            r@ == in_order_of(Some(self)),
    {
        let r = in_order_walk(Some(self), Vec::new());
        assert(r@ =~= in_order_of(Some(self)));
        r
    }
}

impl<'a> BinaryNode<'a, i32> {
    /// Whether `needle` is in the tree, visiting nodes level by level.
    pub fn breadth_first_search(&'a self, needle: &i32) -> (r: bool)
        ensures
            r == holds(Some(self), *needle),
    {
        let mut queue: VecDeque<&'a BinaryNode<'a, i32>> = VecDeque::new();
        queue.push_back(self);
        proof {
            assert(queue@[0] == self);
        }
        loop
            invariant
                holds(Some(self), *needle) == exists|i: int|
                    0 <= i < queue@.len() && #[trigger] holds(Some(queue@[i]), *needle),
            decreases total_size(queue@),
        {
            let ghost before = queue@;
            match queue.pop_front() {
                None => {
                    return false;
                },
                Some(curr) => {
                    proof {
                        lemma_total_size_front(before);
                    }
                    if *curr.value == *needle {
                        assert(holds(Some(before[0]), *needle));
                        return true;
                    }
                    let ghost rest = queue@;
                    match child_of(&curr.left) {
                        Some(left) => {
                            proof {
                                lemma_total_size_push(queue@, left);
                            }
                            queue.push_back(left);
                        },
                        None => {},
                    }
                    match child_of(&curr.right) {
                        Some(right) => {
                            proof {
                                lemma_total_size_push(queue@, right);
                            }
                            queue.push_back(right);
                        },
                        None => {},
                    }
                    proof {
                        assert(rest =~= before.drop_first());
                        assert forall|i: int| 0 <= i < rest.len() implies queue@[i] == rest[i] by {}
                        if holds(Some(self), *needle) {
                            let i = choose|i: int| 0 <= i < before.len() && #[trigger] holds(Some(before[i]), *needle);
                            if i == 0 {
                                if holds(child(&curr.left), *needle) {
                                    assert(holds(Some(queue@[rest.len() as int]), *needle));
                                } else {
                                    assert(holds(child(&curr.right), *needle));
                                    let j = queue@.len() - 1;
                                    assert(holds(Some(queue@[j]), *needle));
                                }
                            } else {
                                assert(holds(Some(queue@[i - 1]), *needle));
                            }
                        }
                        if exists|i: int| 0 <= i < queue@.len() && #[trigger] holds(Some(queue@[i]), *needle) {
                            let i = choose|i: int| 0 <= i < queue@.len() && #[trigger] holds(Some(queue@[i]), *needle);
                            if i < rest.len() {
                                assert(holds(Some(before[i + 1]), *needle));
                            } else {
                                assert(holds(Some(before[0]), *needle));
                            }
                        }
                    }
                },
            }
        }
    }

    /// Whether `needle` is in the tree, descending left or right by
    /// comparison at each node. A `true` is always right; on a search tree
    /// the answer is exact.
    pub fn depth_first_search(&self, needle: &i32) -> (r: bool)
        ensures
            r ==> holds(Some(self), *needle),
            is_search_tree(Some(self)) ==> r == holds(Some(self), *needle),
    {
        depth_first_search(Some(self), needle)
    }
}

/// A leaf holding `value`.
fn leaf<'a>(value: &'a i32) -> (r: Box<BinaryNode<'a, i32>>)
    ensures
        r.value == value,
        r.left is None,
        r.right is None,
{
    Box::new(BinaryNode { value, left: None, right: None })
}

impl<'a> Default for BinaryNode<'a, i32> {
    /// A sample search tree of ten values, 20 at the root.
    fn default() -> (r: Self)
        ensures
            *r.value == 20,
            size(Some(&r)) == 10,
    {
        let r = BinaryNode {
            value: &20,
            right: Some(
                Box::new(
                    BinaryNode {
                        value: &50,
                        right: Some(leaf(&100)),
                        left: Some(
                            Box::new(
                                BinaryNode { value: &30, right: Some(leaf(&45)), left: Some(leaf(&29)) },
                            ),
                        ),
                    },
                ),
            ),
            left: Some(
                Box::new(
                    BinaryNode {
                        value: &10,
                        right: Some(leaf(&15)),
                        left: Some(Box::new(BinaryNode { value: &5, right: Some(leaf(&7)), left: None })),
                    },
                ),
            ),
        };
        proof {
            reveal_with_fuel(size, 5);
        }
        r
    }
}

} // verus!
