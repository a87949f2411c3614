use vstd::prelude::*;

verus! {

/// Binary search tree: smaller-or-equal values to the left, greater values
/// to the right.
pub enum BinaryTree {
    Empty,
    NonEmpty(Box<Node>),
}

/// One stored value with its two subtrees.
pub struct Node {
    value: i32,
    left: BinaryTree,
    right: BinaryTree,
}

/// The value is stored somewhere in the tree.
pub closed spec fn bst_contains(t: BinaryTree, v: int) -> bool
    decreases t,
{
    match t {
        BinaryTree::Empty => false,
        BinaryTree::NonEmpty(n) => v == n.value || bst_contains(n.left, v) || bst_contains(
            n.right,
            v,
        ),
    }
}

/// How many nodes of the tree hold the value.
pub closed spec fn bst_count(t: BinaryTree, v: int) -> nat
    decreases t,
{
    match t {
        BinaryTree::Empty => 0,
        BinaryTree::NonEmpty(n) => (if v == n.value {
            1nat
        } else {
            0nat
        }) + bst_count(n.left, v) + bst_count(n.right, v),
    }
}

/// Law: a value is stored exactly when its occurrence count is positive.
pub proof fn lemma_count_contains(t: BinaryTree, v: int)
    ensures
        bst_contains(t, v) <==> bst_count(t, v) > 0,
    decreases t,
{
    match t {
        BinaryTree::Empty => {},
        BinaryTree::NonEmpty(n) => {
            lemma_count_contains(n.left, v);
            lemma_count_contains(n.right, v);
        },
    }
}

/// The search-tree order holds everywhere.
pub closed spec fn bst_wf(t: BinaryTree) -> bool
    decreases t,
{
    match t {
        BinaryTree::Empty => true,
        BinaryTree::NonEmpty(n) => {
            &&& bst_wf(n.left)
            &&& bst_wf(n.right)
            &&& (forall|x: int| bst_contains(n.left, x) ==> x <= n.value)
            &&& (forall|x: int| bst_contains(n.right, x) ==> x > n.value)
        },
    }
}

/// The node holding the value, if any, has at most one child, so removal
/// never needs to splice two subtrees.
pub closed spec fn bst_removable(t: BinaryTree, v: int) -> bool
    decreases t,
{
    match t {
        BinaryTree::Empty => true,
        BinaryTree::NonEmpty(n) => {
            if v == n.value {
                !((n.left matches BinaryTree::NonEmpty(_)) && (n.right
                    matches BinaryTree::NonEmpty(_)))
            } else if v > n.value {
                bst_removable(n.right, v)
            } else {
                bst_removable(n.left, v)
            }
        },
    }
}

impl BinaryTree {
    pub fn new() -> (r: Self)
        ensures
            bst_wf(r),
            forall|x: int| !bst_contains(r, x),
    {
        BinaryTree::Empty
    }

    /// Stores a value; equal values gather to the left.
    pub fn add(&mut self, value: i32)
        requires
            bst_wf(*old(self)),
        ensures
            bst_wf(*final(self)),
            forall|x: int|
                bst_contains(*final(self), x) <==> bst_contains(*old(self), x) || x == value,
    {
        let mut tmp = BinaryTree::Empty;
        core::mem::swap(self, &mut tmp);
        let out = Self::add_val(tmp, value);
        *self = out;
    }

    fn add_val(t: BinaryTree, value: i32) -> (r: BinaryTree)
        requires
            bst_wf(t),
        ensures
            bst_wf(r),
            forall|x: int| bst_contains(r, x) <==> bst_contains(t, x) || x == value,
        decreases t,
    {
        let ghost t0 = t;
        match t {
            BinaryTree::NonEmpty(mut tree) => {
                let ghost v0 = tree.value;
                let ghost l0 = tree.left;
                let ghost r0 = tree.right;
                if value > tree.value {
                    let mut sub = BinaryTree::Empty;
                    core::mem::swap(&mut tree.right, &mut sub);
                    let ghost old_right = sub;
                    let new_right = Self::add_val(sub, value);
                    tree.right = new_right;
                    let out = BinaryTree::NonEmpty(tree);
                    proof {
                        assert(bst_wf(out)) by {
                            assert forall|x: int|
                                bst_contains(tree.right, x) implies x > tree.value as int by {
                                assert(bst_contains(old_right, x) || x == value);
                            }
                        }
                        assert forall|x: int|
                            bst_contains(out, x) <==> bst_contains(t0, x) || x == value by {
                            assert(bst_contains(t0, x) == (x == v0 as int || bst_contains(l0, x)
                                || bst_contains(r0, x)));
                            assert(bst_contains(out, x) == (x == v0 as int || bst_contains(l0, x)
                                || bst_contains(tree.right, x)));
                        }
                    }
                    out
                } else {
                    let mut sub = BinaryTree::Empty;
                    core::mem::swap(&mut tree.left, &mut sub);
                    let ghost old_left = sub;
                    let new_left = Self::add_val(sub, value);
                    tree.left = new_left;
                    let out = BinaryTree::NonEmpty(tree);
                    proof {
                        assert(bst_wf(out)) by {
                            assert forall|x: int|
                                bst_contains(tree.left, x) implies x <= tree.value as int by {
                                assert(bst_contains(old_left, x) || x == value);
                            }
                        }
                        assert forall|x: int|
                            bst_contains(out, x) <==> bst_contains(t0, x) || x == value by {
                            assert(bst_contains(t0, x) == (x == v0 as int || bst_contains(l0, x)
                                || bst_contains(r0, x)));
                            assert(bst_contains(out, x) == (x == v0 as int || bst_contains(
                                tree.left,
                                x,
                            ) || bst_contains(r0, x)));
                        }
                    }
                    out
                }
            },
            BinaryTree::Empty => {
                let out = BinaryTree::NonEmpty(
                    Box::new(Node { value, left: BinaryTree::Empty, right: BinaryTree::Empty }),
                );
                proof {
                    assert(bst_wf(out));
                    assert(forall|x: int|
                        bst_contains(out, x) <==> bst_contains(t0, x) || x == value);
                }
                out
            },
        }
    }

    /// Looks a value up.
    pub fn get(&self, value: &i32) -> (r: Option<&i32>)
        requires
            bst_wf(*self),
        ensures
            match r {
                Some(p) => *p == *value && bst_contains(*self, *value as int),
                None => !bst_contains(*self, *value as int),
            },
        decreases *self,
    {
        match self {
            BinaryTree::NonEmpty(tree) => {
                if *value == tree.value {
                    Some(&tree.value)
                } else if *value > tree.value {
                    proof {
                        if bst_contains(tree.left, *value as int) {
                            assert(*value <= tree.value);
                        }
                    }
                    tree.right.get(value)
                } else {
                    proof {
                        if bst_contains(tree.right, *value as int) {
                            assert(*value > tree.value);
                        }
                    }
                    tree.left.get(value)
                }
            },
            BinaryTree::Empty => None,
        }
    }

    /// Removes one node holding the value, when that node has at most one
    /// child; reports the removed value. Exactly one occurrence of the value
    /// goes, everything else stays.
    pub fn remove(&mut self, value: &i32) -> (r: Option<i32>)
        requires
            bst_wf(*old(self)),
            bst_removable(*old(self), *value as int),
        ensures
            bst_wf(*final(self)),
            forall|x: int|
                x != *value as int ==> bst_count(*final(self), x) == bst_count(*old(self), x),
            bst_count(*final(self), *value as int) == bst_count(*old(self), *value as int) - (
            if r is Some {
                1int
            } else {
                0int
            }),
            forall|x: int|
                x != *value as int ==> (bst_contains(*final(self), x) <==> bst_contains(
                    *old(self),
                    x,
                )),
            forall|x: int| bst_contains(*final(self), x) ==> bst_contains(*old(self), x),
            r matches Some(got) ==> got == *value && bst_contains(*old(self), *value as int),
            r is None ==> !bst_contains(*old(self), *value as int),
    {
        let mut tmp = BinaryTree::Empty;
        core::mem::swap(self, &mut tmp);
        let (out, got) = Self::remove_val(tmp, value);
        *self = out;
        got
    }

    fn remove_val(t: BinaryTree, value: &i32) -> (r: (BinaryTree, Option<i32>))
        requires
            bst_wf(t),
            bst_removable(t, *value as int),
        ensures
            bst_wf(r.0),
            forall|x: int| x != *value as int ==> bst_count(r.0, x) == bst_count(t, x),
            bst_count(r.0, *value as int) == bst_count(t, *value as int) - (if r.1 is Some {
                1int
            } else {
                0int
            }),
            forall|x: int|
                x != *value as int ==> (bst_contains(r.0, x) <==> bst_contains(t, x)),
            forall|x: int| bst_contains(r.0, x) ==> bst_contains(t, x),
            r.1 matches Some(got) ==> got == *value && bst_contains(t, *value as int),
            r.1 is None ==> !bst_contains(t, *value as int),
        decreases t,
    {
        let ghost t0 = t;
        match t {
            BinaryTree::NonEmpty(mut node) => {
                let ghost v0 = node.value;
                let ghost l0 = node.left;
                let ghost r0 = node.right;
                proof {
                    assert(forall|x: int|
                        bst_contains(t0, x) == (x == v0 as int || bst_contains(l0, x)
                            || bst_contains(r0, x)));
                }
                if *value == node.value {
                    proof {
                        assert(forall|x: int|
                            bst_count(t0, x) == (if x == v0 as int {
                                1nat
                            } else {
                                0nat
                            }) + bst_count(l0, x) + bst_count(r0, x));
                    }
                    let elem = node.value;
                    let is_left_empty = matches!(node.left, BinaryTree::Empty);
                    let is_right_empty = matches!(node.right, BinaryTree::Empty);
                    if is_left_empty && is_right_empty {
                        (BinaryTree::Empty, Some(elem))
                    } else if is_right_empty {
                        let mut sub = BinaryTree::Empty;
                        core::mem::swap(&mut node.left, &mut sub);
                        (sub, Some(elem))
                    } else if is_left_empty {
                        let mut sub = BinaryTree::Empty;
                        core::mem::swap(&mut node.right, &mut sub);
                        (sub, Some(elem))
                    } else {
                        proof {
                            assert(false);
                        }
                        (BinaryTree::Empty, None)
                    }
                } else if *value > node.value {
                    proof {
                        if bst_contains(node.left, *value as int) {
                            assert(*value <= node.value);
                        }
                    }
                    let mut sub = BinaryTree::Empty;
                    core::mem::swap(&mut node.right, &mut sub);
                    let ghost old_right = sub;
                    let (new_right, got) = Self::remove_val(sub, value);
                    node.right = new_right;
                    let out = BinaryTree::NonEmpty(node);
                    proof {
                        assert(bst_wf(out)) by {
                            assert forall|x: int|
                                bst_contains(node.right, x) implies x > node.value as int by {
                                assert(bst_contains(old_right, x));
                            }
                        }
                        assert(forall|x: int|
                            bst_contains(out, x) == (x == v0 as int || bst_contains(l0, x)
                                || bst_contains(node.right, x)));
                        assert(forall|x: int|
                            bst_count(t0, x) == (if x == v0 as int {
                                1nat
                            } else {
                                0nat
                            }) + bst_count(l0, x) + bst_count(r0, x));
                        assert(forall|x: int|
                            bst_count(out, x) == (if x == v0 as int {
                                1nat
                            } else {
                                0nat
                            }) + bst_count(l0, x) + bst_count(node.right, x));
                    }
                    (out, got)
                } else {
                    proof {
                        if bst_contains(node.right, *value as int) {
                            assert(*value > node.value);
                        }
                    }
                    let mut sub = BinaryTree::Empty;
                    core::mem::swap(&mut node.left, &mut sub);
                    let ghost old_left = sub;
                    let (new_left, got) = Self::remove_val(sub, value);
                    node.left = new_left;
                    let out = BinaryTree::NonEmpty(node);
                    proof {
                        assert(bst_wf(out)) by {
                            assert forall|x: int|
                                bst_contains(node.left, x) implies x <= node.value as int by {
                                assert(bst_contains(old_left, x));
                            }
                        }
                        assert(forall|x: int|
                            bst_contains(out, x) == (x == v0 as int || bst_contains(
                                node.left,
                                x,
                            ) || bst_contains(r0, x)));
                        assert(forall|x: int|
                            bst_count(t0, x) == (if x == v0 as int {
                                1nat
                            } else {
                                0nat
                            }) + bst_count(l0, x) + bst_count(r0, x));
                        assert(forall|x: int|
                            bst_count(out, x) == (if x == v0 as int {
                                1nat
                            } else {
                                0nat
                            }) + bst_count(node.left, x) + bst_count(r0, x));
                    }
                    (out, got)
                }
            },
            BinaryTree::Empty => (BinaryTree::Empty, None),
        }
    }
}

} // verus!
