use vstd::prelude::*;

verus! {

/// The colour a balanced-tree node carries.
pub enum Color {
    Red,
    Black,
}

/// One node of an in-memory ordered table: a key, its value, a colour,
/// and owned links to the children. The parent link stays empty in owned
/// trees; it is kept for layouts that thread it.
pub struct Node<K, V> {
    pub key: K,
    pub value: V,
    pub color: Color,
    pub left: Option<Box<Node<K, V>>>,
    pub right: Option<Box<Node<K, V>>>,
    pub parent: Option<Box<Node<K, V>>>,
}

impl<K: Default, V: Default> Node<K, V> {
    /// A fresh node with no children.
    pub fn new(key: K, value: V, color: Color) -> (out: Self)
        ensures
            out.key == key,
            out.value == value,
            out.color == color,
            out.left is None,
            out.right is None,
            out.parent is None,
    {
        Node { key, value, color, left: None, right: None, parent: None }
    }

    /// The shared black leaf that stands for every empty branch.
    pub fn sentinel() -> (out: Self)
        ensures
            out.color is Black,
            out.left is None,
            out.right is None,
            out.parent is None,
    {
        Node {
            key: K::default(),
            value: V::default(),
            color: Color::Black,
            left: None,
            right: None,
            parent: None,
        }
    }
}

} // verus!
