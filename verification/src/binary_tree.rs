use vstd::prelude::*;

verus! {

use vstd::std_specs::cmp::PartialOrdSpec;
use core::cmp::Ordering;
use crate::sorter::{spec_le, ord_ok};

/// Strictly-below under the type's own ordering.
pub open spec fn spec_lt<K: PartialOrd>(a: K, b: K) -> bool {
    a.partial_cmp_spec(&b) == Some(Ordering::Less)
}

/// Whether the key type's comparisons describe a total order whose even
/// outcomes mean the keys are the same value. The integer types of std
/// order this way. Where the order breaks these rules the tree still
/// stands, but nothing is promised of what it holds.
pub open spec fn key_order_ok<K: PartialOrd>() -> bool {
    &&& ord_ok::<K>()
    &&& forall|a: K, b: K|
        (#[trigger] a.partial_cmp_spec(&b)) == Some(Ordering::Equal) ==> a == b
}

/// One node of the tree. The parent link stays empty in this owned
/// layout; it is kept for layouts that thread it.
pub struct Node<K, V> {
    pub key: K,
    pub value: V,
    pub parent: Option<Box<Node<K, V>>>,
    pub left: Option<Box<Node<K, V>>>,
    pub right: Option<Box<Node<K, V>>>,
}

impl<K: Default + Ord, V: Default> Node<K, V> {
    /// A lone node with no children.
    pub fn new(key: K, value: V) -> (out: Self)
        ensures
            out.key == key,
            out.value == value,
            out.parent is None,
            out.left is None,
            out.right is None,
    {
        Node { key, value, parent: None, left: None, right: None }
    }
}

/// The bindings a subtree holds.
pub open spec fn branch_map<K, V>(node: Option<Box<Node<K, V>>>) -> Map<K, V>
    decreases node,
{
    match node {
        None => Map::empty(),
        Some(n) => branch_map(n.right).union_prefer_right(branch_map(n.left)).insert(
            n.key,
            n.value,
        ),
    }
}

/// Search order: every key on the left lies strictly below the node's
/// key, every key on the right strictly above, all the way down.
pub open spec fn branch_ordered<K: PartialOrd, V>(node: Option<Box<Node<K, V>>>) -> bool
    decreases node,
{
    match node {
        None => true,
        Some(n) => {
            &&& forall|k: K| #[trigger]
                branch_map(n.left).dom().contains(k) ==> spec_lt(k, n.key)
            &&& forall|k: K| #[trigger]
                branch_map(n.right).dom().contains(k) ==> spec_lt(n.key, k)
            &&& branch_ordered(n.left)
            &&& branch_ordered(n.right)
        },
    }
}

/// An ordered map kept as a plain binary search tree: keys descend left
/// when below a node and right when above it.
pub struct BinaryTree<K, V> {
    root: Option<Box<Node<K, V>>>,
    size: usize,
}

impl<K, V> View for BinaryTree<K, V> {
    type V = Map<K, V>;

    closed spec fn view(&self) -> Map<K, V> {
        branch_map(self.root)
    }
}

impl<K: Default + Ord, V: Default> BinaryTree<K, V> {
    /// Whether the tree keeps its search order.
    pub closed spec fn well_formed(self) -> bool {
        branch_ordered(self.root)
    }

    /// An empty tree.
    pub fn new() -> (out: Self)
        ensures
            out@ == Map::<K, V>::empty(),
            out.well_formed(),
    {
        let out = BinaryTree { root: None, size: 0 };
        proof {
            assert(out@ =~= Map::<K, V>::empty());
        }
        out
    }

    /// Binds `key` to `value`, replacing any earlier binding. The count
    /// of insertions saturates at the machine limit.
    pub fn insert(&mut self, key: K, value: V)
        ensures
            key_order_ok::<K>() && old(self).well_formed() ==> final(self).well_formed()
                && final(self)@ == old(self)@.insert(key, value),
    {
        let mut root: Option<Box<Node<K, V>>> = None;
        std::mem::swap(&mut root, &mut self.root);
        Self::insert_branch(&mut root, key, value);
        self.root = root;
        if self.size < usize::MAX {
            self.size = self.size + 1;
        }
    }

    fn insert_branch(node: &mut Option<Box<Node<K, V>>>, key: K, value: V)
        ensures
            key_order_ok::<K>() && branch_ordered(*old(node)) ==> branch_ordered(*final(node))
                && branch_map(*final(node)) == branch_map(*old(node)).insert(key, value),
        decreases *old(node),
    {
        let ghost fine = key_order_ok::<K>() && branch_ordered(*old(node));
        let mut cur: Option<Box<Node<K, V>>> = None;
        std::mem::swap(&mut cur, node);
        match cur {
            None => {
                *node = Some(Box::new(Node {
                    key,
                    value,
                    parent: None,
                    left: None,
                    right: None,
                }));
                proof {
                    if fine {
                        assert(branch_map(*node) =~= branch_map(*old(node)).insert(key, value));
                    }
                }
            },
            Some(mut boxed) => {
                let ghost gl = boxed.left;
                let ghost gr = boxed.right;
                let ghost gk = boxed.key;
                let ghost gv = boxed.value;
                if key < boxed.key {
                    Self::insert_branch(&mut boxed.left, key, value);
                    proof {
                        if fine {
                            assert(spec_lt(key, gk));
                            assert(!branch_map(gr).dom().contains(key));
                            assert(key != gk);
                            assert(branch_map(Some(boxed)) =~= branch_map(*old(node)).insert(
                                key,
                                value,
                            ));
                            assert forall|k: K| #[trigger]
                                branch_map(boxed.left).dom().contains(k) implies spec_lt(
                                k,
                                boxed.key,
                            ) by {
                                if k != key {
                                    assert(branch_map(gl).dom().contains(k));
                                }
                            }
                        }
                    }
                    *node = Some(boxed);
                } else if key > boxed.key {
                    proof {
                        if fine {
                            assert(boxed.key.partial_cmp_spec(&key) == Some(Ordering::Less));
                            assert(spec_lt(gk, key));
                            assert(!branch_map(gl).dom().contains(key)) by {
                                if branch_map(gl).dom().contains(key) {
                                    assert(spec_lt(key, gk));
                                }
                            }
                            assert(key != gk);
                        }
                    }
                    Self::insert_branch(&mut boxed.right, key, value);
                    proof {
                        if fine {
                            assert(branch_map(Some(boxed)) =~= branch_map(*old(node)).insert(
                                key,
                                value,
                            ));
                            assert forall|k: K| #[trigger]
                                branch_map(boxed.right).dom().contains(k) implies spec_lt(
                                boxed.key,
                                k,
                            ) by {
                                if k != key {
                                    assert(branch_map(gr).dom().contains(k));
                                }
                            }
                        }
                    }
                    *node = Some(boxed);
                } else {
                    boxed.value = value;
                    proof {
                        if fine {
                            assert(gk.partial_cmp_spec(&key) == Some(Ordering::Equal) || key
                                == gk) by {
                                if key.partial_cmp_spec(&gk) == Some(Ordering::Equal) {
                                }
                            }
                            assert(key == gk);
                            assert(!branch_map(gl).dom().contains(key));
                            assert(!branch_map(gr).dom().contains(key));
                            assert(branch_map(Some(boxed)) =~= branch_map(*old(node)).insert(
                                key,
                                value,
                            ));
                        }
                    }
                    *node = Some(boxed);
                }
            },
        }
    }

    /// Drops the binding of `key`, if the tree holds one. The count of
    /// insertions shrinks accordingly, stopping at zero.
    pub fn delete(&mut self, key: K)
        ensures
            key_order_ok::<K>() && old(self).well_formed() ==> final(self).well_formed()
                && final(self)@ == old(self)@.remove(key),
    {
        let mut root: Option<Box<Node<K, V>>> = None;
        std::mem::swap(&mut root, &mut self.root);
        Self::remove_branch(&mut root, key);
        self.root = root;
        if self.size > 0 {
            self.size = self.size - 1;
        }
    }

    fn remove_branch(node: &mut Option<Box<Node<K, V>>>, key: K)
        ensures
            key_order_ok::<K>() && branch_ordered(*old(node)) ==> branch_ordered(*final(node))
                && branch_map(*final(node)) == branch_map(*old(node)).remove(key),
        decreases *old(node),
    {
        let ghost fine = key_order_ok::<K>() && branch_ordered(*old(node));
        let mut cur: Option<Box<Node<K, V>>> = None;
        std::mem::swap(&mut cur, node);
        match cur {
            None => {
                proof {
                    if fine {
                        assert(branch_map(*node) =~= branch_map(*old(node)).remove(key));
                    }
                }
            },
            Some(mut boxed) => {
                let ghost gl = boxed.left;
                let ghost gr = boxed.right;
                let ghost gk = boxed.key;
                if key < boxed.key {
                    proof {
                        if fine {
                            assert(spec_lt(key, gk));
                            assert(!branch_map(gr).dom().contains(key));
                            assert(key != gk);
                        }
                    }
                    Self::remove_branch(&mut boxed.left, key);
                    proof {
                        if fine {
                            assert(branch_map(Some(boxed)) =~= branch_map(*old(node)).remove(
                                key,
                            ));
                            assert(forall|k: K| #[trigger]
                                branch_map(boxed.left).dom().contains(k) ==> branch_map(
                                    gl,
                                ).dom().contains(k));
                        }
                    }
                    *node = Some(boxed);
                } else if key > boxed.key {
                    proof {
                        if fine {
                            assert(spec_lt(gk, key));
                            assert(!branch_map(gl).dom().contains(key)) by {
                                if branch_map(gl).dom().contains(key) {
                                    assert(spec_lt(key, gk));
                                }
                            }
                            assert(key != gk);
                        }
                    }
                    Self::remove_branch(&mut boxed.right, key);
                    proof {
                        if fine {
                            assert(branch_map(Some(boxed)) =~= branch_map(*old(node)).remove(
                                key,
                            ));
                            assert(forall|k: K| #[trigger]
                                branch_map(boxed.right).dom().contains(k) ==> branch_map(
                                    gr,
                                ).dom().contains(k));
                        }
                    }
                    *node = Some(boxed);
                } else {
                    proof {
                        if fine {
                            assert(key.partial_cmp_spec(&gk) is Some);
                            assert(!(key.partial_cmp_spec(&gk) == Some(Ordering::Less)));
                            assert(!(key.partial_cmp_spec(&gk) == Some(Ordering::Greater)));
                            assert(key.partial_cmp_spec(&gk) == Some(Ordering::Equal));
                            assert(key == gk);
                            assert(!branch_map(gl).dom().contains(key));
                            assert(!branch_map(gr).dom().contains(key));
                        }
                    }
                    if boxed.left.is_none() {
                        let repl = boxed.right;
                        *node = repl;
                        proof {
                            if fine {
                                assert(branch_map(gl) =~= Map::<K, V>::empty());
                                assert(branch_map(*node) =~= branch_map(*old(node)).remove(key));
                            }
                        }
                    } else if boxed.right.is_none() {
                        let repl = boxed.left;
                        *node = repl;
                        proof {
                            if fine {
                                assert(branch_map(gr) =~= Map::<K, V>::empty());
                                assert(branch_map(*node) =~= branch_map(*old(node)).remove(key));
                            }
                        }
                    } else {
                        let (min_key, min_value) = Self::pull_min(&mut boxed.right);
                        proof {
                            if fine {
                                assert(branch_map(gr).dom().contains(min_key));
                                assert(spec_lt(gk, min_key));
                            }
                        }
                        boxed.key = min_key;
                        boxed.value = min_value;
                        proof {
                            if fine {
                                assert forall|k: K| #[trigger]
                                    branch_map(boxed.left).dom().contains(k) implies spec_lt(
                                    k,
                                    boxed.key,
                                ) by {
                                    assert(spec_lt(k, gk));
                                    assert(spec_le(k, gk) && spec_le(gk, min_key));
                                    assert(spec_le(k, min_key));
                                    if k == min_key {
                                        assert(min_key.partial_cmp_spec(&gk) == Some(
                                            Ordering::Less,
                                        ));
                                        assert(gk.partial_cmp_spec(&min_key) == Some(
                                            Ordering::Less,
                                        ));
                                        assert(gk.partial_cmp_spec(&min_key) == Some(
                                            Ordering::Greater,
                                        ));
                                    }
                                    if k.partial_cmp_spec(&min_key) == Some(Ordering::Equal) {
                                        assert(k == min_key);
                                    }
                                }
                                assert forall|k: K| #[trigger]
                                    branch_map(boxed.right).dom().contains(k) implies spec_lt(
                                    boxed.key,
                                    k,
                                ) by {
                                    assert(branch_map(gr).dom().contains(k));
                                    assert(spec_le(min_key, k));
                                    assert(k != min_key);
                                    assert(!(min_key.partial_cmp_spec(&k) == Some(
                                        Ordering::Equal,
                                    )));
                                }
                                assert(!branch_map(boxed.left).dom().contains(min_key));
                                assert(branch_map(Some(boxed)) =~= branch_map(*old(node)).remove(
                                    key,
                                ));
                            }
                        }
                        *node = Some(boxed);
                    }
                }
            },
        }
    }

    /// Takes the smallest binding out of a non-empty subtree.
    fn pull_min(node: &mut Option<Box<Node<K, V>>>) -> (out: (K, V))
        requires
            *old(node) is Some,
        ensures
            key_order_ok::<K>() && branch_ordered(*old(node)) ==> ({
                &&& branch_ordered(*final(node))
                &&& branch_map(*old(node)).dom().contains(out.0)
                &&& branch_map(*old(node))[out.0] == out.1
                &&& branch_map(*final(node)) == branch_map(*old(node)).remove(out.0)
                &&& forall|k: K| #[trigger]
                    branch_map(*old(node)).dom().contains(k) ==> spec_le(out.0, k)
            }),
        decreases *old(node),
    {
        let ghost fine = key_order_ok::<K>() && branch_ordered(*old(node));
        let mut cur: Option<Box<Node<K, V>>> = None;
        std::mem::swap(&mut cur, node);
        let mut boxed = match cur {
            Some(b) => b,
            None => {
                proof {
                    assert(false);
                }
                unreached()
            },
        };
        let ghost gl = boxed.left;
        let ghost gr = boxed.right;
        let ghost gk = boxed.key;
        if boxed.left.is_none() {
            let out_key = boxed.key;
            let out_value = boxed.value;
            *node = boxed.right;
            proof {
                if fine {
                    assert(branch_map(gl) =~= Map::<K, V>::empty());
                    assert(branch_map(*node) =~= branch_map(*old(node)).remove(out_key));
                    assert forall|k: K| #[trigger]
                        branch_map(*old(node)).dom().contains(k) implies spec_le(out_key, k) by {
                        if k != gk {
                            assert(branch_map(gr).dom().contains(k));
                            assert(spec_lt(gk, k));
                        } else {
                            assert(gk.partial_cmp_spec(&gk) is Some);
                            if gk.partial_cmp_spec(&gk) == Some(Ordering::Less) {
                                assert(gk.partial_cmp_spec(&gk) == Some(Ordering::Greater));
                            }
                        }
                    }
                }
            }
            (out_key, out_value)
        } else {
            let (min_key, min_value) = Self::pull_min(&mut boxed.left);
            proof {
                if fine {
                    assert(branch_map(gl).dom().contains(min_key));
                    assert(spec_lt(min_key, gk));
                    assert(!branch_map(gr).dom().contains(min_key)) by {
                        if branch_map(gr).dom().contains(min_key) {
                            assert(spec_lt(gk, min_key));
                            assert(min_key.partial_cmp_spec(&gk) == Some(Ordering::Less));
                            assert(gk.partial_cmp_spec(&min_key) == Some(Ordering::Less));
                            assert(gk.partial_cmp_spec(&min_key) == Some(Ordering::Greater));
                        }
                    }
                    assert(min_key != gk);
                    assert forall|k: K| #[trigger]
                        branch_map(boxed.left).dom().contains(k) implies spec_lt(k, gk) by {
                        assert(branch_map(gl).dom().contains(k));
                    }
                }
            }
            *node = Some(boxed);
            proof {
                if fine {
                    assert(branch_map(*node) =~= branch_map(*old(node)).remove(min_key));
                    assert forall|k: K| #[trigger]
                        branch_map(*old(node)).dom().contains(k) implies spec_le(min_key, k) by {
                        if k == gk {
                            assert(spec_lt(min_key, gk));
                        } else if branch_map(gl).dom().contains(k) {
                            assert(spec_le(min_key, k));
                        } else {
                            assert(branch_map(gr).dom().contains(k));
                            assert(spec_lt(gk, k));
                            assert(spec_lt(min_key, gk));
                            assert(spec_le(min_key, gk) && spec_le(gk, k));
                        }
                    }
                }
            }
            (min_key, min_value)
        }
    }
}

} // verus!
