//! A fixed-capacity pool of node slots with a LIFO free list.
use vstd::prelude::*;
use crate::error::SgError;
use crate::node::{fits, narrow, Node, MAX_IDX};

verus! {

/// How many slots of `s` hold a node.
pub open spec fn occupied_count<T>(s: Seq<Option<T>>) -> nat
    decreases s.len(),
{
    if s.len() == 0 {
        0
    } else {
        occupied_count(s.drop_last()) + if s.last() is Some { 1nat } else { 0nat }
    }
}

/// Changing one slot changes the count by the difference in its occupancy.
pub proof fn lemma_occupied_update<T>(s: Seq<Option<T>>, i: int, x: Option<T>)
    requires
        0 <= i < s.len(),
    ensures
        occupied_count(s.update(i, x)) + (if s[i] is Some { 1int } else { 0int })
            == occupied_count(s) + (if x is Some { 1int } else { 0int }),
    decreases s.len(),
{
    let t = s.update(i, x);
    if i == s.len() - 1 {
        assert(t.drop_last() =~= s.drop_last());
    } else {
        assert(t.drop_last() =~= s.drop_last().update(i, x));
        lemma_occupied_update(s.drop_last(), i, x);
    }
}

/// The count depends only on which slots are occupied.
pub proof fn lemma_occupied_same<T>(a: Seq<Option<T>>, b: Seq<Option<T>>)
    requires
        a.len() == b.len(),
        forall|i: int| 0 <= i < a.len() ==> (#[trigger] a[i] is Some <==> b[i] is Some),
    ensures
        occupied_count(a) == occupied_count(b),
    decreases a.len(),
{
    if a.len() > 0 {
        assert forall|i: int| 0 <= i < a.drop_last().len() implies (#[trigger] a.drop_last()[i] is Some <==> b.drop_last()[i] is Some) by {
            assert(a[i] is Some <==> b[i] is Some);
        }
        lemma_occupied_same(a.drop_last(), b.drop_last());
        assert(a[a.len() - 1] is Some <==> b[b.len() - 1] is Some);
    }
}

/// Pushing a slot adds one to the count when the slot is occupied.
pub proof fn lemma_occupied_push<T>(s: Seq<Option<T>>, x: Option<T>)
    ensures
        occupied_count(s.push(x)) == occupied_count(s) + (if x is Some { 1nat } else { 0nat }),
{
    assert(s.push(x).drop_last() =~= s);
}

/// Where index `x` goes when the slots are laid out in the order `order`.
pub open spec fn pos_of(order: Seq<usize>, x: usize) -> usize {
    choose|m: usize| m < order.len() && order[m as int] == x
}

/// A child link moved along with the slots.
pub open spec fn moved(order: Seq<usize>, c: Option<usize>) -> Option<usize> {
    match c {
        Some(x) => Some(pos_of(order, x)),
        None => None,
    }
}

/// A node with both links moved along with the slots.
pub open spec fn relabel<K, V>(n: Node<K, V>, order: Seq<usize>) -> Node<K, V> {
    Node { left_idx: narrow(moved(order, n.left())), right_idx: narrow(moved(order, n.right())), ..n }
}

/// The slots laid out in `order`: the node from `order[m]` in slot `m`,
/// links moved along, and the remaining slots empty.
pub open spec fn sorted_layout<K, V>(s: Seq<Option<Node<K, V>>>, order: Seq<usize>) -> Seq<Option<Node<K, V>>> {
    Seq::new(s.len(), |m: int| if m < order.len() { Some(relabel(s[order[m] as int].unwrap(), order)) } else { None })
}

/// The free list after a layout of `n` nodes in `len` slots: the empty
/// slots, the lowest on top.
pub open spec fn sorted_free(len: nat, n: nat) -> Seq<usize> {
    Seq::new((len - n) as nat, |k: int| (len - 1 - k) as usize)
}

/// The node pool: `N` slots at most, each empty or holding a node, and a stack
/// of the indices of the empty ones.
pub struct Arena<K, V, const N: usize> {
    vec: Vec<Option<Node<K, V>>>,
    free_list: Vec<usize>,
}

impl<K, V, const N: usize> Arena<K, V, N> {
    /// The slots, in index order.
    pub closed spec fn slots(&self) -> Seq<Option<Node<K, V>>> {
        self.vec@
    }

    /// The free list, bottom first; the last entry is handed out next.
    pub closed spec fn free(&self) -> Seq<usize> {
        self.free_list@
    }

    /// Every empty slot is on the free list exactly once and nothing else is,
    /// and the slots fit both the capacity and the narrow index type.
    pub closed spec fn wf(&self) -> bool {
        &&& N <= MAX_IDX
        &&& self.vec@.len() <= N
        &&& self.free_list@.no_duplicates()
        &&& forall|k: int| 0 <= k < self.free_list@.len() ==> {
            let f = #[trigger] self.free_list@[k];
            f < self.vec@.len() && self.vec@[f as int] is None
        }
        &&& forall|i: int| 0 <= i < self.vec@.len() && #[trigger] self.vec@[i] is None
            ==> self.free_list@.contains(i as usize)
        &&& occupied_count(self.vec@) + self.free_list@.len() == self.vec@.len()
    }

    /// The facts of `wf` that users of the arena rely on.
    pub proof fn lemma_wf(&self)
        requires
            self.wf(),
        ensures
            N <= MAX_IDX,
            self.slots().len() <= N,
            self.free().no_duplicates(),
            forall|k: int| 0 <= k < self.free().len() ==> #[trigger] self.free()[k] < self.slots().len()
                && self.slots()[self.free()[k] as int] is None,
            forall|i: int| 0 <= i < self.slots().len() && #[trigger] self.slots()[i] is None
                ==> self.free().contains(i as usize),
            occupied_count(self.slots()) + self.free().len() == self.slots().len(),
    {
    }

    /// An empty arena.
    pub fn new() -> (a: Self)
        requires
            N <= MAX_IDX,
        ensures
            a.wf(),
            a.slots() == Seq::<Option<Node<K, V>>>::empty(),
            a.free() == Seq::<usize>::empty(),
    {
        let a = Arena { vec: Vec::new(), free_list: Vec::new() };
        assert(occupied_count(a.vec@) == 0);
        a
    }

    /// Total capacity, the most nodes it can hold.
    pub fn capacity(&self) -> (r: usize)
        ensures
            r == N,
    {
        N
    }

    /// Number of slots in use or freed; slots past it were never used.
    pub fn len(&self) -> (r: usize)
        ensures
            r == self.slots().len(),
    {
        self.vec.len()
    }

    /// Whether `idx` holds a node.
    pub fn is_occupied(&self, idx: usize) -> (r: bool)
        ensures
            r == (idx < self.slots().len() && self.slots()[idx as int] is Some),
    {
        idx < self.vec.len() && self.vec[idx].is_some()
    }

    /// Stores a new childless node, in the most recently freed slot if there
    /// is one, else in the first slot never used; returns its index.
    pub fn add(&mut self, key: K, val: V) -> (r: usize)
        requires
            old(self).wf(),
            old(self).free().len() > 0 || old(self).slots().len() < N,
        ensures
            final(self).wf(),
            r < final(self).slots().len(),
            old(self).free().len() > 0 ==> {
                &&& r == old(self).free().last()
                &&& final(self).free() == old(self).free().drop_last()
                &&& final(self).slots() == old(self).slots().update(r as int, Some(Node::<K, V> { key, val, left_idx: None, right_idx: None }))
            },
            old(self).free().len() == 0 ==> {
                &&& r == old(self).slots().len()
                &&& final(self).free() == old(self).free()
                &&& final(self).slots() == old(self).slots().push(Some(Node::<K, V> { key, val, left_idx: None, right_idx: None }))
            },
    {
        let node = Node { key, val, left_idx: None, right_idx: None };
        match self.free_list.pop() {
            Some(free_idx) => {
                let ghost s0 = self.vec@;
                let ghost f0 = old(self).free_list@;
                proof {
                    assert(f0[f0.len() - 1] == free_idx);
                    lemma_occupied_update(s0, free_idx as int, Some(node));
                    assert forall|k: int| 0 <= k < self.free_list@.len() implies #[trigger] self.free_list@[k] != free_idx by {
                        assert(f0[k] == self.free_list@[k]);
                    }
                }
                self.vec[free_idx] = Some(node);
                proof {
                    assert forall|i: int| 0 <= i < self.vec@.len() && #[trigger] self.vec@[i] is None
                        implies self.free_list@.contains(i as usize) by {
                        assert(s0[i] is None);
                        assert(f0.contains(i as usize));
                        let k = choose|k: int| 0 <= k < f0.len() && f0[k] == i as usize;
                        assert(self.free_list@[k] == i as usize);
                    }
                }
                free_idx
            },
            None => {
                let ghost s0 = self.vec@;
                proof {
                    lemma_occupied_push(s0, Some(node));
                }
                self.vec.push(Some(node));
                self.vec.len() - 1
            },
        }
    }

    /// Stores a new childless node like `add`, or reports
    /// `StackCapacityExceeded` when no slot is free (then nothing changes).
    pub fn try_add(&mut self, key: K, val: V) -> (r: Result<usize, SgError>)
        requires
            old(self).wf(),
        ensures
            final(self).wf(),
            (old(self).free().len() > 0 || old(self).slots().len() < N) ==> r is Ok && {
                let i = r->Ok_0;
                &&& old(self).free().len() > 0 ==> i == old(self).free().last()
                    && final(self).free() == old(self).free().drop_last()
                    && final(self).slots() == old(self).slots().update(i as int, Some(Node::<K, V> { key, val, left_idx: None, right_idx: None }))
                &&& old(self).free().len() == 0 ==> i == old(self).slots().len()
                    && final(self).free() == old(self).free()
                    && final(self).slots() == old(self).slots().push(Some(Node::<K, V> { key, val, left_idx: None, right_idx: None }))
            },
            !(old(self).free().len() > 0 || old(self).slots().len() < N) ==> r == Err::<usize, SgError>(SgError::StackCapacityExceeded)
                && *final(self) == *old(self),
    {
        if self.free_list.len() > 0 || self.vec.len() < N {
            Ok(self.add(key, val))
        } else {
            Err(SgError::StackCapacityExceeded)
        }
    }

    /// Takes the node out of slot `idx`, if any, and puts `idx` on the free list.
    pub fn remove(&mut self, idx: usize) -> (r: Option<Node<K, V>>)
        requires
            old(self).wf(),
            idx < old(self).slots().len(),
        ensures
            final(self).wf(),
            r == old(self).slots()[idx as int],
            r is Some ==> final(self).slots() == old(self).slots().update(idx as int, None)
                && final(self).free() == old(self).free().push(idx),
            r is None ==> *final(self) == *old(self),
    {
        if self.vec[idx].is_some() {
            let ghost s0 = self.vec@;
            let ghost f0 = self.free_list@;
            proof {
                lemma_occupied_update(s0, idx as int, None);
                assert(!f0.contains(idx));
            }
            let node = self.vec[idx].take();
            self.free_list.push(idx);
            proof {
                assert(self.vec@ == s0.update(idx as int, None));
                assert(self.free_list@[f0.len() as int] == idx);
                assert forall|i: int| 0 <= i < self.vec@.len() && #[trigger] self.vec@[i] is None
                    implies self.free_list@.contains(i as usize) by {
                    if i != idx {
                        assert(f0.contains(i as usize));
                        let k = choose|k: int| 0 <= k < f0.len() && f0[k] == i as usize;
                        assert(self.free_list@[k] == i as usize);
                    }
                }
                assert forall|k: int| 0 <= k < self.free_list@.len() implies {
                    let f = #[trigger] self.free_list@[k];
                    f < self.vec@.len() && self.vec@[f as int] is None
                } by {
                    if k < f0.len() {
                        assert(self.free_list@[k] == f0[k]);
                    }
                }
            }
            node
        } else {
            None
        }
    }

    /// Takes the node out of slot `idx`, which must hold one.
    pub fn hard_remove(&mut self, idx: usize) -> (r: Node<K, V>)
        requires
            old(self).wf(),
            idx < old(self).slots().len(),
            old(self).slots()[idx as int] is Some,
        ensures
            final(self).wf(),
            Some(r) == old(self).slots()[idx as int],
            final(self).slots() == old(self).slots().update(idx as int, None),
            final(self).free() == old(self).free().push(idx),
    {
        self.remove(idx).unwrap()
    }

    /// A mutable reference to the value in slot `idx`.
    pub fn get_val_mut(&mut self, idx: usize) -> (r: &mut V)
        requires
            old(self).wf(),
            idx < old(self).slots().len(),
            old(self).slots()[idx as int] is Some,
        ensures
            *r == old(self).slots()[idx as int].unwrap().val,
            final(self).slots() == old(self).slots().update(idx as int, Some(old(self).slots()[idx as int].unwrap().with_val(*final(r)))),
            final(self).free() == old(self).free(),
            final(self).wf(),
    {
        proof {
            let v0 = self.vec@;
            let f0 = self.free_list@;
            assert forall|x: Node<K, V>| #[trigger] v0.update(idx as int, Some(x)).len() == v0.len() && {
                let v1 = v0.update(idx as int, Some(x));
                &&& occupied_count(v1) == occupied_count(v0)
                &&& forall|k: int| 0 <= k < f0.len() ==> {
                    let f = #[trigger] f0[k];
                    f < v1.len() && v1[f as int] is None
                }
                &&& forall|i: int| 0 <= i < v1.len() && #[trigger] v1[i] is None ==> f0.contains(i as usize)
            } by {
                let v1 = v0.update(idx as int, Some(x));
                lemma_occupied_update(v0, idx as int, Some(x));
                assert forall|k: int| 0 <= k < f0.len() implies {
                    let f = #[trigger] f0[k];
                    f < v1.len() && v1[f as int] is None
                } by {
                    assert(f0[k] != idx);
                }
                assert forall|i: int| 0 <= i < v1.len() && #[trigger] v1[i] is None implies f0.contains(i as usize) by {
                    assert(v0[i] is None);
                }
            }
        }
        &mut self.vec[idx].as_mut().unwrap().val
    }

    /// The node in slot `idx`.
    pub fn get(&self, idx: usize) -> (r: &Node<K, V>)
        requires
            idx < self.slots().len(),
            self.slots()[idx as int] is Some,
        ensures
            Some(*r) == self.slots()[idx as int],
    {
        self.vec[idx].as_ref().unwrap()
    }

    /// Sets the left child of the node in slot `idx`.
    pub fn set_left(&mut self, idx: usize, child: Option<usize>)
        requires
            old(self).wf(),
            idx < old(self).slots().len(),
            old(self).slots()[idx as int] is Some,
            fits(child),
        ensures
            final(self).wf(),
            final(self).free() == old(self).free(),
            final(self).slots() == old(self).slots().update(
                idx as int,
                Some(old(self).slots()[idx as int].unwrap().with_left(child)),
            ),
    {
        let ghost s0 = self.vec@;
        self.vec[idx].as_mut().unwrap().set_left_idx(child);
        proof {
            lemma_occupied_update(s0, idx as int, self.vec@[idx as int]);
        }
    }

    /// Sets the right child of the node in slot `idx`.
    pub fn set_right(&mut self, idx: usize, child: Option<usize>)
        requires
            old(self).wf(),
            idx < old(self).slots().len(),
            old(self).slots()[idx as int] is Some,
            fits(child),
        ensures
            final(self).wf(),
            final(self).free() == old(self).free(),
            final(self).slots() == old(self).slots().update(
                idx as int,
                Some(old(self).slots()[idx as int].unwrap().with_right(child)),
            ),
    {
        let ghost s0 = self.vec@;
        self.vec[idx].as_mut().unwrap().set_right_idx(child);
        proof {
            lemma_occupied_update(s0, idx as int, self.vec@[idx as int]);
        }
    }

    /// Overwrites key and value of the node in slot `idx`; returns the old value.
    pub fn replace_entry(&mut self, idx: usize, key: K, val: V) -> (r: V)
        requires
            old(self).wf(),
            idx < old(self).slots().len(),
            old(self).slots()[idx as int] is Some,
        ensures
            final(self).wf(),
            final(self).free() == old(self).free(),
            r == old(self).slots()[idx as int].unwrap().val,
            final(self).slots() == old(self).slots().update(
                idx as int,
                Some(Node { key, val, ..old(self).slots()[idx as int].unwrap() }),
            ),
    {
        let ghost s0 = self.vec@;
        let node = self.vec[idx].as_mut().unwrap();
        node.set_key(key);
        let mut v = val;
        std::mem::swap(&mut node.val, &mut v);
        proof {
            lemma_occupied_update(s0, idx as int, self.vec@[idx as int]);
        }
        v
    }

    /// Lays the nodes out in `order`, which lists every node once: the node
    /// from `order[m]` moves to slot `m` and every child link follows its
    /// node. The empty slots come last and the free list hands out the
    /// lowest of them first.
    pub fn sort(&mut self, order: &Vec<usize>)
        requires
            old(self).wf(),
            order@.no_duplicates(),
            order@.len() == occupied_count(old(self).slots()),
            forall|m: int| 0 <= m < order@.len() ==> #[trigger] order@[m] < old(self).slots().len()
                && old(self).slots()[order@[m] as int] is Some,
            forall|x: usize| x < old(self).slots().len() && #[trigger] old(self).slots()[x as int] is Some ==> order@.contains(x),
            forall|m: int| 0 <= m < order@.len() ==> {
                let n = #[trigger] old(self).slots()[order@[m] as int].unwrap();
                &&& (n.left() is Some ==> order@.contains(n.left().unwrap()))
                &&& (n.right() is Some ==> order@.contains(n.right().unwrap()))
            },
        ensures
            final(self).wf(),
            final(self).slots() == sorted_layout(old(self).slots(), order@),
            final(self).free() == sorted_free(old(self).slots().len(), order@.len()),
    {
        let ghost s0 = self.vec@;
        let len = self.vec.len();
        let n = order.len();
        proof {
            lemma_occupied_le(s0);
        }
        let mut pos: Vec<usize> = Vec::new();
        let mut i: usize = 0;
        while i < len
            invariant
                i <= len,
                len == s0.len(),
                pos@.len() == i,
            decreases len - i,
        {
            pos.push(0);
            i = i + 1;
        }
        let mut m: usize = 0;
        while m < n
            invariant
                m <= n,
                n == order@.len(),
                len == s0.len(),
                pos@.len() == len,
                order@.no_duplicates(),
                forall|q: int| 0 <= q < order@.len() ==> #[trigger] order@[q] < len,
                forall|q: int| 0 <= q < m ==> pos@[#[trigger] order@[q] as int] == q,
            decreases n - m,
        {
            let x = order[m];
            pos.set(x, m);
            proof {
                assert forall|q: int| 0 <= q < m + 1 implies pos@[#[trigger] order@[q] as int] == q by {
                    if q < m {
                        assert(order@[q] != x);
                    }
                }
            }
            m = m + 1;
        }
        proof {
            assert forall|q: int| 0 <= q < order@.len() implies pos_of(order@, #[trigger] order@[q]) == q by {
                let c = pos_of(order@, order@[q]);
                assert(order@[q as usize as int] == order@[q]);
                assert((c as int) < order@.len() && order@[c as int] == order@[q]);
            }
        }
        let mut new_vec: Vec<Option<Node<K, V>>> = Vec::new();
        let mut k: usize = 0;
        while k < n
            invariant
                k <= n,
                n == order@.len(),
                n <= len,
                len == s0.len(),
                self.vec@.len() == len,
                pos@.len() == len,
                order@.no_duplicates(),
                forall|q: int| 0 <= q < order@.len() ==> #[trigger] order@[q] < len,
                forall|q: int| 0 <= q < order@.len() ==> pos@[#[trigger] order@[q] as int] == q,
                forall|q: int| 0 <= q < order@.len() ==> pos_of(order@, #[trigger] order@[q]) == q,
                forall|q: int| k <= q < order@.len() ==> self.vec@[#[trigger] order@[q] as int] == s0[order@[q] as int],
                forall|m: int| 0 <= m < order@.len() ==> s0[#[trigger] order@[m] as int] is Some,
                forall|m: int| 0 <= m < order@.len() ==> {
                    let nd = #[trigger] s0[order@[m] as int].unwrap();
                    &&& (nd.left() is Some ==> order@.contains(nd.left().unwrap()))
                    &&& (nd.right() is Some ==> order@.contains(nd.right().unwrap()))
                },
                new_vec@.len() == k,
                forall|q: int| 0 <= q < k ==> #[trigger] new_vec@[q] == sorted_layout(s0, order@)[q],
                N <= MAX_IDX,
            decreases n - k,
        {
            let x = order[k];
            proof {
                assert(self.vec@[x as int] == s0[x as int]);
            }
            let node = self.vec[x].take().unwrap();
            proof {
                assert forall|q: int| k + 1 <= q < order@.len() implies self.vec@[#[trigger] order@[q] as int] == s0[order@[q] as int] by {
                    assert(order@[q] != x);
                }
            }
            let left = match node.left_idx() {
                Some(c) => {
                    proof {
                        let q = choose|q: int| 0 <= q < order@.len() && order@[q] == c;
                        assert(pos@[order@[q] as int] == q);
                    }
                    Some(pos[c])
                },
                None => None,
            };
            let right = match node.right_idx() {
                Some(c) => {
                    proof {
                        let q = choose|q: int| 0 <= q < order@.len() && order@[q] == c;
                        assert(pos@[order@[q] as int] == q);
                    }
                    Some(pos[c])
                },
                None => None,
            };
            let left_n: Option<u16> = match left {
                Some(c) => Some(c as u16),
                None => None,
            };
            let right_n: Option<u16> = match right {
                Some(c) => Some(c as u16),
                None => None,
            };
            proof {
                let nd = s0[x as int].unwrap();
                if nd.left() is Some {
                    let q = choose|q: int| 0 <= q < order@.len() && order@[q] == nd.left().unwrap();
                    assert(left == moved(order@, nd.left()));
                }
                if nd.right() is Some {
                    let q = choose|q: int| 0 <= q < order@.len() && order@[q] == nd.right().unwrap();
                    assert(right == moved(order@, nd.right()));
                }
                assert(left_n == narrow(moved(order@, nd.left())));
                assert(right_n == narrow(moved(order@, nd.right())));
            }
            new_vec.push(Some(Node { key: node.key, val: node.val, left_idx: left_n, right_idx: right_n }));
            k = k + 1;
        }
        while k < len
            invariant
                n <= k <= len,
                n == order@.len(),
                len == s0.len(),
                new_vec@.len() == k,
                forall|q: int| 0 <= q < k ==> #[trigger] new_vec@[q] == sorted_layout(s0, order@)[q],
            decreases len - k,
        {
            new_vec.push(None);
            k = k + 1;
        }
        let mut free: Vec<usize> = Vec::new();
        let mut f: usize = len;
        while f > n
            invariant
                n <= f <= len,
                len == s0.len(),
                free@.len() == len - f,
                forall|q: int| 0 <= q < free@.len() ==> #[trigger] free@[q] == len - 1 - q,
            decreases f,
        {
            f = f - 1;
            free.push(f);
        }
        self.vec = new_vec;
        self.free_list = free;
        proof {
            let s1 = self.vec@;
            assert(s1 =~= sorted_layout(s0, order@));
            assert(self.free_list@ =~= sorted_free(len as nat, n as nat));
            lemma_occupied_prefix(s1, n as int);
            assert forall|q1: int, q2: int| 0 <= q1 < q2 < self.free_list@.len() implies self.free_list@[q1] != self.free_list@[q2] by {}
            assert forall|i: int| 0 <= i < s1.len() && #[trigger] s1[i] is None implies self.free_list@.contains(i as usize) by {
                assert(self.free_list@[len - 1 - i] == i as usize);
            }
        }
    }
}

/// The count of occupied slots is at most the number of slots.
pub proof fn lemma_occupied_le<T>(s: Seq<Option<T>>)
    ensures
        occupied_count(s) <= s.len(),
    decreases s.len(),
{
    if s.len() > 0 {
        lemma_occupied_le(s.drop_last());
    }
}

/// Slots occupied exactly below `n` count `n`.
proof fn lemma_occupied_prefix<T>(s: Seq<Option<T>>, n: int)
    requires
        0 <= n <= s.len(),
        forall|i: int| 0 <= i < s.len() ==> (#[trigger] s[i] is Some <==> i < n),
    ensures
        occupied_count(s) == n,
    decreases s.len(),
{
    if s.len() > 0 {
        let t = s.drop_last();
        if n == s.len() {
            assert forall|i: int| 0 <= i < t.len() implies (#[trigger] t[i] is Some <==> i < n - 1) by {
                assert(t[i] == s[i]);
            }
            lemma_occupied_prefix(t, n - 1);
        } else {
            assert forall|i: int| 0 <= i < t.len() implies (#[trigger] t[i] is Some <==> i < n) by {
                assert(t[i] == s[i]);
            }
            lemma_occupied_prefix(t, n);
        }
    }
}

} // verus!
