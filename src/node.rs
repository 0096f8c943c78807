//! Tree nodes and the small records that tree operations pass around.
use vstd::prelude::*;

verus! {

/// The largest arena index that a node's child field can hold.
pub const MAX_IDX: usize = 65535;

/// A binary tree node: a key, a value and the arena indices of its children,
/// stored narrow. There is no parent index.
#[derive(Debug)]
pub struct Node<K, V> {
    pub key: K,
    pub val: V,
    pub left_idx: Option<u16>,
    pub right_idx: Option<u16>,
}

/// A narrow index widened.
pub open spec fn widen(o: Option<u16>) -> Option<usize> {
    match o {
        Some(i) => Some(i as usize),
        None => None,
    }
}

/// An index that fits the narrow type.
pub open spec fn fits(o: Option<usize>) -> bool {
    match o {
        Some(i) => i <= MAX_IDX,
        None => true,
    }
}

/// An index narrowed to the node field type.
pub open spec fn narrow(o: Option<usize>) -> Option<u16> {
    match o {
        Some(i) => Some(i as u16),
        None => None,
    }
}

impl<K, V> Node<K, V> {
    /// This node with its value replaced.
    pub open spec fn with_val(self, v: V) -> Node<K, V> {
        Node { val: v, ..self }
    }

    /// This node with its left child replaced.
    pub open spec fn with_left(self, o: Option<usize>) -> Node<K, V> {
        Node { left_idx: narrow(o), ..self }
    }

    /// This node with its right child replaced.
    pub open spec fn with_right(self, o: Option<usize>) -> Node<K, V> {
        Node { right_idx: narrow(o), ..self }
    }

    /// Index of the left child.
    pub open spec fn left(&self) -> Option<usize> {
        widen(self.left_idx)
    }

    /// Index of the right child.
    pub open spec fn right(&self) -> Option<usize> {
        widen(self.right_idx)
    }

    /// A node without children.
    pub fn new(key: K, val: V) -> (n: Node<K, V>)
        ensures
            n.key == key,
            n.val == val,
            n.left() == None::<usize>,
            n.right() == None::<usize>,
    {
        Node { key, val, left_idx: None, right_idx: None }
    }

    pub fn key(&self) -> (r: &K)
        ensures
            *r == self.key,
    {
        &self.key
    }

    pub fn val(&self) -> (r: &V)
        ensures
            *r == self.val,
    {
        &self.val
    }

    pub fn set_key(&mut self, key: K)
        ensures
            *final(self) == (Node { key, ..*old(self) }),
    {
        self.key = key;
    }

    pub fn set_val(&mut self, val: V)
        ensures
            *final(self) == (Node { val, ..*old(self) }),
    {
        self.val = val;
    }

    /// The key and a mutable reference to the value.
    pub fn get_mut(&mut self) -> (r: (&K, &mut V))
        ensures
            *r.0 == old(self).key,
            *r.1 == old(self).val,
            *final(self) == (Node { val: *final(r.1), ..*old(self) }),
    {
        (&self.key, &mut self.val)
    }

    pub fn left_idx(&self) -> (r: Option<usize>)
        ensures
            r == self.left(),
    {
        match self.left_idx {
            Some(i) => Some(i as usize),
            None => None,
        }
    }

    pub fn right_idx(&self) -> (r: Option<usize>)
        ensures
            r == self.right(),
    {
        match self.right_idx {
            Some(i) => Some(i as usize),
            None => None,
        }
    }

    pub fn set_left_idx(&mut self, opt_idx: Option<usize>)
        requires
            fits(opt_idx),
        ensures
            *final(self) == old(self).with_left(opt_idx),
            final(self).left() == opt_idx,
    {
        self.left_idx = match opt_idx {
            Some(i) => Some(i as u16),
            None => None,
        };
    }

    pub fn set_right_idx(&mut self, opt_idx: Option<usize>)
        requires
            fits(opt_idx),
        ensures
            *final(self) == old(self).with_right(opt_idx),
            final(self).right() == opt_idx,
    {
        self.right_idx = match opt_idx {
            Some(i) => Some(i as u16),
            None => None,
        };
    }
}

/// The outcome of a lookup: the node found (if any), its parent on the
/// search path, and which edge of the parent leads to it.
#[derive(Debug, Clone, Copy, PartialEq, Eq, Structural)]
pub struct NodeGetHelper {
    node_idx: Option<usize>,
    parent_idx: Option<usize>,
    is_right_child: bool,
}

impl NodeGetHelper {
    pub closed spec fn spec_node_idx(&self) -> Option<usize> {
        self.node_idx
    }

    pub closed spec fn spec_parent_idx(&self) -> Option<usize> {
        self.parent_idx
    }

    pub closed spec fn spec_is_right_child(&self) -> bool {
        self.is_right_child
    }

    pub fn new(node_idx: Option<usize>, parent_idx: Option<usize>, is_right_child: bool) -> (r: NodeGetHelper)
        ensures
            r.spec_node_idx() == node_idx,
            r.spec_parent_idx() == parent_idx,
            r.spec_is_right_child() == is_right_child,
    {
        NodeGetHelper { node_idx, parent_idx, is_right_child }
    }

    /// Index of the node found.
    pub fn node_idx(&self) -> (r: Option<usize>)
        ensures
            r == self.spec_node_idx(),
    {
        self.node_idx
    }

    /// Index of its parent.
    pub fn parent_idx(&self) -> (r: Option<usize>)
        ensures
            r == self.spec_parent_idx(),
    {
        self.parent_idx
    }

    /// Whether the node is its parent's right child.
    pub fn is_right_child(&self) -> (r: bool)
        ensures
            r == self.spec_is_right_child(),
    {
        self.is_right_child
    }
}

/// A range `low..=high` of a sorted index list and its middle position,
/// the root of the balanced subtree built over that range.
#[derive(Debug, Clone, Copy, PartialEq, Eq, Structural)]
pub struct NodeRebuildHelper {
    pub low_idx: usize,
    pub high_idx: usize,
    pub mid_idx: usize,
}

impl NodeRebuildHelper {
    pub fn new(low_idx: usize, high_idx: usize) -> (r: NodeRebuildHelper)
        requires
            low_idx <= high_idx,
        ensures
            r.low_idx == low_idx,
            r.high_idx == high_idx,
            r.mid_idx == low_idx + (high_idx - low_idx) / 2,
    {
        NodeRebuildHelper { low_idx, high_idx, mid_idx: low_idx + (high_idx - low_idx) / 2 }
    }
}

} // verus!
