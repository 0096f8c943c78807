//! The abstract shape of a tree stored in an arena, and what the slots of
//! the arena must hold for a shape to describe them.
use vstd::prelude::*;
use crate::key::SgKey;
use crate::node::{narrow, widen, Node, MAX_IDX};
use crate::arena::{moved, pos_of, relabel, sorted_layout};

verus! {

/// A binary tree over arena indices: the structure that child links describe.
pub enum Shape {
    Leaf,
    Branch(usize, Box<Shape>, Box<Shape>),
}

impl Shape {
    /// Index at the root, if any.
    pub open spec fn root(self) -> Option<usize> {
        match self {
            Shape::Leaf => None,
            Shape::Branch(i, _, _) => Some(i),
        }
    }

    /// The indices in the tree.
    pub open spec fn idxs(self) -> Set<usize>
        decreases self,
    {
        match self {
            Shape::Leaf => Set::empty(),
            Shape::Branch(i, l, r) => l.idxs().union(r.idxs()).insert(i),
        }
    }

    /// Number of nodes.
    pub open spec fn size(self) -> nat
        decreases self,
    {
        match self {
            Shape::Leaf => 0,
            Shape::Branch(_, l, r) => l.size() + r.size() + 1,
        }
    }

    /// Number of nodes on the longest root-to-leaf path.
    pub open spec fn height(self) -> nat
        decreases self,
    {
        match self {
            Shape::Leaf => 0,
            Shape::Branch(_, l, r) => 1 + if l.height() >= r.height() { l.height() } else { r.height() },
        }
    }

    /// The indices in order: left subtree, root, right subtree.
    pub open spec fn inorder(self) -> Seq<usize>
        decreases self,
    {
        match self {
            Shape::Leaf => Seq::empty(),
            Shape::Branch(i, l, r) => l.inorder() + seq![i] + r.inorder(),
        }
    }
}

/// The key in slot `i`.
pub open spec fn key_of<K, V>(s: Seq<Option<Node<K, V>>>, i: usize) -> K {
    s[i as int].unwrap().key
}

/// The value in slot `i`.
pub open spec fn val_of<K, V>(s: Seq<Option<Node<K, V>>>, i: usize) -> V {
    s[i as int].unwrap().val
}

/// The rank of the key in slot `i`.
pub open spec fn rank_of<K: SgKey, V>(s: Seq<Option<Node<K, V>>>, i: usize) -> int {
    s[i as int].unwrap().key.rank()
}

/// The slots hold `sh`: each of its indices is occupied, each node's links
/// name the roots of its subtrees, and keys are ordered: smaller to the left,
/// greater to the right.
pub open spec fn good<K: SgKey, V>(s: Seq<Option<Node<K, V>>>, sh: Shape) -> bool
    decreases sh,
{
    match sh {
        Shape::Leaf => true,
        Shape::Branch(i, l, r) => {
            &&& i < s.len()
            &&& s[i as int] is Some
            &&& s[i as int].unwrap().left() == l.root()
            &&& s[i as int].unwrap().right() == r.root()
            &&& good(s, *l)
            &&& good(s, *r)
            &&& forall|x: usize| #[trigger] l.idxs().contains(x) ==> rank_of(s, x) < rank_of(s, i)
            &&& forall|x: usize| #[trigger] r.idxs().contains(x) ==> rank_of(s, i) < rank_of(s, x)
        },
    }
}

/// The key-value pairs that `sh` holds in the slots.
pub open spec fn as_map<K, V>(s: Seq<Option<Node<K, V>>>, sh: Shape) -> Map<K, V>
    decreases sh,
{
    match sh {
        Shape::Leaf => Map::empty(),
        Shape::Branch(i, l, r) => as_map(s, *l).union_prefer_right(as_map(s, *r)).insert(
            key_of(s, i),
            val_of(s, i),
        ),
    }
}

/// The pairs of `sh` in order.
pub open spec fn entries<K, V>(s: Seq<Option<Node<K, V>>>, sh: Shape) -> Seq<(K, V)> {
    sh.inorder().map_values(|i: usize| (key_of(s, i), val_of(s, i)))
}

/// Where a search for `k` ends: the subtree whose root holds `k`, or the
/// empty position where `k` would be attached.
pub open spec fn sub_at<K: SgKey, V>(s: Seq<Option<Node<K, V>>>, sh: Shape, k: K) -> Shape
    decreases sh,
{
    match sh {
        Shape::Leaf => Shape::Leaf,
        Shape::Branch(i, l, r) => if k == key_of(s, i) {
            sh
        } else if k.rank() < rank_of(s, i) {
            sub_at(s, *l, k)
        } else {
            sub_at(s, *r, k)
        },
    }
}

/// The last node a search for `k` passes before it ends, and whether it
/// leaves that node to the right; `acc` if the search ends at the root.
pub open spec fn parent_at<K: SgKey, V>(
    s: Seq<Option<Node<K, V>>>,
    sh: Shape,
    k: K,
    acc: Option<(usize, bool)>,
) -> Option<(usize, bool)>
    decreases sh,
{
    match sh {
        Shape::Leaf => acc,
        Shape::Branch(i, l, r) => if k == key_of(s, i) {
            acc
        } else if k.rank() < rank_of(s, i) {
            parent_at(s, *l, k, Some((i, false)))
        } else {
            parent_at(s, *r, k, Some((i, true)))
        },
    }
}

/// `sh` with the subtree where a search for `k` ends replaced by `new`.
pub open spec fn replace_at<K: SgKey, V>(s: Seq<Option<Node<K, V>>>, sh: Shape, k: K, new: Shape) -> Shape
    decreases sh,
{
    match sh {
        Shape::Leaf => new,
        Shape::Branch(i, l, r) => if k == key_of(s, i) {
            new
        } else if k.rank() < rank_of(s, i) {
            Shape::Branch(i, Box::new(replace_at(s, *l, k, new)), r)
        } else {
            Shape::Branch(i, l, Box::new(replace_at(s, *r, k, new)))
        },
    }
}

/// Node `n` with the child on side `right` set to `c`.
pub open spec fn with_child<K, V>(n: Node<K, V>, right: bool, c: Option<usize>) -> Node<K, V> {
    if right {
        n.with_right(c)
    } else {
        n.with_left(c)
    }
}

/// Every index of a good shape is an occupied slot, and the map holds
/// exactly the keys and values of its slots.
pub proof fn lemma_good_slots<K: SgKey, V>(s: Seq<Option<Node<K, V>>>, sh: Shape)
    requires
        good(s, sh),
    ensures
        forall|x: usize| #[trigger] sh.idxs().contains(x) ==> x < s.len() && s[x as int] is Some,
        forall|x: usize| #[trigger] sh.idxs().contains(x) ==> as_map(s, sh).contains_key(key_of(s, x))
            && as_map(s, sh)[key_of(s, x)] == val_of(s, x),
        forall|q: K| #[trigger] as_map(s, sh).contains_key(q) ==> exists|x: usize| #[trigger] sh.idxs().contains(x) && key_of(s, x) == q,
    decreases sh,
{
    match sh {
        Shape::Leaf => {
            assert(sh.idxs() =~= Set::<usize>::empty());
        },
        Shape::Branch(i, l, r) => {
            lemma_good_slots(s, *l);
            lemma_good_slots(s, *r);
            let m = as_map(s, sh);
            assert forall|x: usize| #[trigger] sh.idxs().contains(x) implies x < s.len() && s[x as int] is Some by {
                if x != i && l.idxs().contains(x) {
                } else if x != i {
                    assert(r.idxs().contains(x));
                }
            }
            assert forall|x: usize| #[trigger] sh.idxs().contains(x) implies m.contains_key(key_of(s, x))
                && m[key_of(s, x)] == val_of(s, x) by {
                if x != i {
                    if r.idxs().contains(x) {
                    } else {
                        assert(l.idxs().contains(x));
                        assert(rank_of(s, x) < rank_of(s, i));
                        if as_map(s, *r).contains_key(key_of(s, x)) {
                            let y = choose|y: usize| r.idxs().contains(y) && key_of(s, y) == key_of(s, x);
                            assert(rank_of(s, y) > rank_of(s, i));
                        }
                    }
                }
            }
            assert forall|q: K| #[trigger] m.contains_key(q) implies exists|x: usize| #[trigger] sh.idxs().contains(x) && key_of(s, x) == q by {
                if q == key_of(s, i) {
                    assert(sh.idxs().contains(i));
                } else if as_map(s, *r).contains_key(q) {
                    let y = choose|y: usize| r.idxs().contains(y) && key_of(s, y) == q;
                    assert(sh.idxs().contains(y));
                } else {
                    assert(as_map(s, *l).contains_key(q));
                    let y = choose|y: usize| l.idxs().contains(y) && key_of(s, y) == q;
                    assert(sh.idxs().contains(y));
                }
            }
        },
    }
}

/// A shape keeps its meaning when the slots at its indices are unchanged.
pub proof fn lemma_frame<K: SgKey, V>(s: Seq<Option<Node<K, V>>>, s2: Seq<Option<Node<K, V>>>, sh: Shape)
    requires
        good(s, sh),
        forall|x: usize| #[trigger] sh.idxs().contains(x) ==> x < s2.len() && s2[x as int] == s[x as int],
    ensures
        good(s2, sh),
        as_map(s2, sh) == as_map(s, sh),
        entries(s2, sh) == entries(s, sh),
    decreases sh,
{
    match sh {
        Shape::Leaf => {
            assert(sh.idxs() =~= Set::<usize>::empty());
            assert(entries(s2, sh) =~= entries(s, sh));
        },
        Shape::Branch(i, l, r) => {
            assert forall|x: usize| #[trigger] l.idxs().contains(x) implies sh.idxs().contains(x) by {}
            assert forall|x: usize| #[trigger] r.idxs().contains(x) implies sh.idxs().contains(x) by {}
            lemma_frame(s, s2, *l);
            lemma_frame(s, s2, *r);
            assert(sh.idxs().contains(i));
            assert forall|x: usize| #[trigger] l.idxs().contains(x) implies rank_of(s2, x) < rank_of(s2, i) by {
                assert(sh.idxs().contains(x));
            }
            assert forall|x: usize| #[trigger] r.idxs().contains(x) implies rank_of(s2, i) < rank_of(s2, x) by {
                assert(sh.idxs().contains(x));
            }
            lemma_inorder_idxs(sh);
            assert forall|k: int| 0 <= k < sh.inorder().len() implies sh.idxs().contains(#[trigger] sh.inorder()[k]) by {
                assert(sh.inorder().contains(sh.inorder()[k]));
            }
            assert(entries(s2, sh) =~= entries(s, sh));
        },
    }
}

/// The in-order sequence lists exactly the indices of the shape.
pub proof fn lemma_inorder_idxs(sh: Shape)
    ensures
        forall|x: usize| sh.idxs().contains(x) <==> #[trigger] sh.inorder().contains(x),
        sh.inorder().len() == sh.size(),
    decreases sh,
{
    match sh {
        Shape::Leaf => {
            assert(sh.idxs() =~= Set::<usize>::empty());
        },
        Shape::Branch(i, l, r) => {
            lemma_inorder_idxs(*l);
            lemma_inorder_idxs(*r);
            let a = l.inorder();
            let b = r.inorder();
            let t = sh.inorder();
            assert(t == a + seq![i] + b);
            assert forall|x: usize| sh.idxs().contains(x) <==> #[trigger] t.contains(x) by {
                if sh.idxs().contains(x) {
                    if x == i {
                        assert(t[a.len() as int] == i);
                    } else if l.idxs().contains(x) {
                        assert(a.contains(x));
                        let k = choose|k: int| 0 <= k < a.len() && a[k] == x;
                        assert(t[k] == x);
                    } else {
                        assert(r.idxs().contains(x));
                        assert(b.contains(x));
                        let k = choose|k: int| 0 <= k < b.len() && b[k] == x;
                        assert(t[a.len() + 1 + k] == x);
                    }
                }
                if t.contains(x) {
                    let k = choose|k: int| 0 <= k < t.len() && t[k] == x;
                    if k < a.len() {
                        assert(a[k] == x);
                        assert(a.contains(x));
                    } else if k > a.len() {
                        assert(b[k - a.len() - 1] == x);
                        assert(b.contains(x));
                    }
                }
            }
        },
    }
}

/// The child of node `n` on side `right`.
pub open spec fn child<K, V>(n: Node<K, V>, right: bool) -> Option<usize> {
    if right {
        n.right()
    } else {
        n.left()
    }
}

/// What a search for `k` finds: a subtree of the shape whose root holds `k`
/// exactly when `k` is present, reached from the parent that `parent_at` names.
pub proof fn lemma_search<K: SgKey, V>(s: Seq<Option<Node<K, V>>>, sh: Shape, k: K, acc: Option<(usize, bool)>)
    requires
        good(s, sh),
    ensures
        ({
            let sub = sub_at(s, sh, k);
            let p = parent_at(s, sh, k, acc);
            &&& forall|x: usize| #[trigger] sub.idxs().contains(x) ==> sh.idxs().contains(x)
            &&& good(s, sub)
            &&& sub is Branch ==> key_of(s, sub.root().unwrap()) == k
            &&& as_map(s, sh).contains_key(k) <==> sub is Branch
            &&& forall|q: K| #[trigger] as_map(s, sub).contains_key(q) ==> as_map(s, sh).contains_key(q)
                && as_map(s, sh)[q] == as_map(s, sub)[q]
            &&& (sh is Leaf || k == key_of(s, sh.root().unwrap())) ==> sub == sh && p == acc
            &&& !(sh is Leaf || k == key_of(s, sh.root().unwrap())) ==> {
                &&& p is Some
                &&& sh.idxs().contains(p.unwrap().0)
                &&& !sub.idxs().contains(p.unwrap().0)
                &&& child(s[p.unwrap().0 as int].unwrap(), p.unwrap().1) == sub.root()
                &&& sub.size() < sh.size()
            }
        }),
    decreases sh,
{
    lemma_good_slots(s, sh);
    match sh {
        Shape::Leaf => {
            assert(as_map(s, sh) =~= Map::<K, V>::empty());
        },
        Shape::Branch(i, l, r) => {
            if k == key_of(s, i) {
            } else if k.rank() < rank_of(s, i) {
                lemma_search(s, *l, k, Some((i, false)));
                lemma_good_slots(s, *l);
                lemma_good_slots(s, *r);
                let sub = sub_at(s, sh, k);
                assert(sub == sub_at(s, *l, k));
                assert(!l.idxs().contains(i));
                assert forall|q: K| #[trigger] as_map(s, sub).contains_key(q) implies as_map(s, sh).contains_key(q)
                    && as_map(s, sh)[q] == as_map(s, sub)[q] by {
                    assert(as_map(s, *l).contains_key(q));
                    let y = choose|y: usize| #[trigger] l.idxs().contains(y) && key_of(s, y) == q;
                    assert(rank_of(s, y) < rank_of(s, i));
                    if as_map(s, *r).contains_key(q) {
                        let z = choose|z: usize| #[trigger] r.idxs().contains(z) && key_of(s, z) == q;
                        assert(rank_of(s, z) > rank_of(s, i));
                    }
                }
                if as_map(s, sh).contains_key(k) {
                    if as_map(s, *r).contains_key(k) {
                        let z = choose|z: usize| #[trigger] r.idxs().contains(z) && key_of(s, z) == k;
                        assert(rank_of(s, z) > rank_of(s, i));
                    }
                    assert(as_map(s, *l).contains_key(k));
                }
                if !(*l is Leaf || k == key_of(s, l.root().unwrap())) {
                    let p = parent_at(s, *l, k, Some((i, false)));
                    assert(sh.idxs().contains(p.unwrap().0));
                }
                assert(l.size() < sh.size());
            } else {
                lemma_search(s, *r, k, Some((i, true)));
                lemma_good_slots(s, *l);
                lemma_good_slots(s, *r);
                let sub = sub_at(s, sh, k);
                assert(sub == sub_at(s, *r, k));
                assert(!r.idxs().contains(i));
                assert forall|q: K| #[trigger] as_map(s, sub).contains_key(q) implies as_map(s, sh).contains_key(q)
                    && as_map(s, sh)[q] == as_map(s, sub)[q] by {
                    assert(as_map(s, *r).contains_key(q));
                }
                if as_map(s, sh).contains_key(k) {
                    if !as_map(s, *r).contains_key(k) {
                        let z = choose|z: usize| #[trigger] l.idxs().contains(z) && key_of(s, z) == k;
                        assert(rank_of(s, z) < rank_of(s, i));
                    }
                }
                if !(*r is Leaf || k == key_of(s, r.root().unwrap())) {
                    let p = parent_at(s, *r, k, Some((i, true)));
                    assert(sh.idxs().contains(p.unwrap().0));
                }
                assert(r.size() < sh.size());
            }
        },
    }
}

/// Replacing the subtree where a search for `k` ends by another good shape
/// over keys of that subtree (and `k`), and pointing the parent's link at it,
/// gives a good shape whose map swaps the old subtree's pairs for the new ones.
pub proof fn lemma_replace<K: SgKey, V>(
    s: Seq<Option<Node<K, V>>>,
    s2: Seq<Option<Node<K, V>>>,
    sh: Shape,
    k: K,
    new: Shape,
    acc: Option<(usize, bool)>,
)
    requires
        good(s, sh),
        good(s2, new),
        s2.len() <= MAX_IDX + 1,
        acc is Some ==> !sh.idxs().contains(acc.unwrap().0),
        forall|x: usize| #[trigger] new.idxs().contains(x) ==>
            as_map(s, sub_at(s, sh, k)).contains_key(key_of(s2, x)) || key_of(s2, x) == k,
        forall|x: usize| #[trigger] new.idxs().contains(x) && sh.idxs().contains(x) ==> sub_at(s, sh, k).idxs().contains(x),
        forall|x: usize| #[trigger] sh.idxs().contains(x) && !sub_at(s, sh, k).idxs().contains(x)
            && (parent_at(s, sh, k, acc) is None || x != parent_at(s, sh, k, acc).unwrap().0)
            ==> x < s2.len() && s2[x as int] == s[x as int],
        parent_at(s, sh, k, acc) != acc ==> ({
            let (pi, d) = parent_at(s, sh, k, acc).unwrap();
            pi < s2.len() && s2[pi as int] == Some(with_child(s[pi as int].unwrap(), d, new.root()))
        }),
    ensures
        ({
            let rr = replace_at(s, sh, k, new);
            let sub = sub_at(s, sh, k);
            &&& good(s2, rr)
            &&& as_map(s2, rr) == as_map(s, sh).remove_keys(as_map(s, sub).dom()).union_prefer_right(as_map(s2, new))
            &&& rr.idxs() == sh.idxs().difference(sub.idxs()).union(new.idxs())
            &&& rr.size() + sub.size() == sh.size() + new.size()
            &&& rr.root() == if parent_at(s, sh, k, acc) == acc { new.root() } else { sh.root() }
        }),
    decreases sh,
{
    lemma_good_slots(s, sh);
    lemma_good_slots(s2, new);
    lemma_search(s, sh, k, acc);
    match sh {
        Shape::Leaf => {
            assert(as_map(s, sh) =~= Map::<K, V>::empty());
            assert(as_map(s, sh).remove_keys(as_map(s, sh).dom()).union_prefer_right(as_map(s2, new)) =~= as_map(s2, new));
            assert(sh.idxs().difference(sh.idxs()).union(new.idxs()) =~= new.idxs());
        },
        Shape::Branch(i, l, r) => {
            if k == key_of(s, i) {
                assert(as_map(s, sh).remove_keys(as_map(s, sh).dom()).union_prefer_right(as_map(s2, new)) =~= as_map(s2, new));
                assert(sh.idxs().difference(sh.idxs()).union(new.idxs()) =~= new.idxs());
            } else {
                let left = k.rank() < rank_of(s, i);
                let (c, o) = if left { (*l, *r) } else { (*r, *l) };
                let acc2 = Some((i, !left));
                let sub = sub_at(s, sh, k);
                let p = parent_at(s, sh, k, acc);
                assert(sub == sub_at(s, c, k));
                assert(p == parent_at(s, c, k, acc2));
                assert(!c.idxs().contains(i));
                assert(!o.idxs().contains(i));
                assert forall|x: usize| #[trigger] c.idxs().contains(x) implies sh.idxs().contains(x) && !o.idxs().contains(x) by {
                    if o.idxs().contains(x) {
                        assert(rank_of(s, x) < rank_of(s, i) || rank_of(s, x) > rank_of(s, i));
                    }
                }
                assert forall|x: usize| #[trigger] o.idxs().contains(x) implies sh.idxs().contains(x) by {}
                lemma_search(s, c, k, acc2);
                lemma_good_slots(s, c);
                lemma_good_slots(s, o);
                lemma_replace(s, s2, c, k, new, acc2);
                let rc = replace_at(s, c, k, new);
                let rr = replace_at(s, sh, k, new);
                assert(rr == if left {
                    Shape::Branch(i, Box::new(rc), r)
                } else {
                    Shape::Branch(i, l, Box::new(rc))
                });
                // the other side is untouched
                assert forall|x: usize| #[trigger] o.idxs().contains(x) implies x < s2.len() && s2[x as int] == s[x as int] by {
                    assert(sh.idxs().contains(x));
                    assert(!sub.idxs().contains(x));
                    if p is Some && p != acc2 {
                        assert(c.idxs().contains(p.unwrap().0));
                    }
                }
                lemma_frame(s, s2, o);
                // the node at the top keeps its key and value
                assert(sh.idxs().contains(i));
                if p == acc2 {
                    assert(p != acc);
                    assert(s2[i as int] == Some(with_child(s[i as int].unwrap(), !left, new.root())));
                    if new.root() is Some {
                        assert(new.idxs().contains(new.root().unwrap()));
                    }
                    assert(widen(narrow(new.root())) == new.root());
                } else {
                    assert(c.idxs().contains(p.unwrap().0));
                    assert(!sub.idxs().contains(i));
                    assert(s2[i as int] == s[i as int]);
                }
                assert(i < s2.len() && s2[i as int] is Some);
                assert(key_of(s2, i) == key_of(s, i));
                assert(val_of(s2, i) == val_of(s, i));
                assert(s2[i as int].unwrap().left() == if left { rc.root() } else { l.root() });
                assert(s2[i as int].unwrap().right() == if left { r.root() } else { rc.root() });
                // ordering at the top
                assert forall|x: usize| #[trigger] rc.idxs().contains(x) implies
                    (if left { rank_of(s2, x) < rank_of(s2, i) } else { rank_of(s2, i) < rank_of(s2, x) }) by {
                    if new.idxs().contains(x) {
                        if k.rank() == rank_of(s, i) {
                            K::lemma_rank_injective(&k, &key_of(s, i));
                        }
                        if key_of(s2, x) != k {
                            let q = key_of(s2, x);
                            assert(as_map(s, sub).contains_key(q));
                            lemma_good_slots(s, sub);
                            let y = choose|y: usize| #[trigger] sub.idxs().contains(y) && key_of(s, y) == q;
                            assert(c.idxs().contains(y));
                        }
                    } else {
                        assert(c.idxs().contains(x));
                        assert(!sub.idxs().contains(x));
                        assert(sh.idxs().contains(x));
                        if p is Some && x == p.unwrap().0 {
                            assert(p != acc);
                        } else {
                            assert(s2[x as int] == s[x as int]);
                        }
                    }
                }
                assert forall|x: usize| #[trigger] o.idxs().contains(x) implies
                    (if left { rank_of(s2, i) < rank_of(s2, x) } else { rank_of(s2, x) < rank_of(s2, i) }) by {}
                assert(good(s2, rr));
                // the map
                let mc = as_map(s, c);
                let mo = as_map(s, o);
                let mn = as_map(s2, new);
                let d = as_map(s, sub).dom();
                assert forall|q: K| #[trigger] mn.contains_key(q) implies d.contains(q) || q == k by {
                    let x = choose|x: usize| #[trigger] new.idxs().contains(x) && key_of(s2, x) == q;
                }
                assert forall|q: K| #[trigger] mc.contains_key(q) implies
                    (if left { q.rank() < rank_of(s, i) } else { q.rank() > rank_of(s, i) }) by {
                    let x = choose|x: usize| #[trigger] c.idxs().contains(x) && key_of(s, x) == q;
                }
                assert forall|q: K| #[trigger] mo.contains_key(q) implies
                    (if left { q.rank() > rank_of(s, i) } else { q.rank() < rank_of(s, i) }) by {
                    let x = choose|x: usize| #[trigger] o.idxs().contains(x) && key_of(s, x) == q;
                }
                assert forall|q: K| #[trigger] d.contains(q) implies mc.contains_key(q) by {}
                if left {
                    assert(as_map(s2, rr) =~= as_map(s, sh).remove_keys(d).union_prefer_right(mn));
                } else {
                    assert(as_map(s2, rr) =~= as_map(s, sh).remove_keys(d).union_prefer_right(mn));
                }
                assert(rr.idxs() =~= sh.idxs().difference(sub.idxs()).union(new.idxs()));
            }
        },
    }
}

/// The map of a good shape has one key per node.
pub proof fn lemma_map_size<K: SgKey, V>(s: Seq<Option<Node<K, V>>>, sh: Shape)
    requires
        good(s, sh),
    ensures
        as_map(s, sh).dom().finite(),
        as_map(s, sh).len() == sh.size(),
    decreases sh,
{
    match sh {
        Shape::Leaf => {
            assert(as_map(s, sh).dom() =~= Set::<K>::empty());
        },
        Shape::Branch(i, l, r) => {
            lemma_map_size(s, *l);
            lemma_map_size(s, *r);
            lemma_good_slots(s, *l);
            lemma_good_slots(s, *r);
            let ml = as_map(s, *l);
            let mr = as_map(s, *r);
            assert(ml.dom().disjoint(mr.dom())) by {
                assert forall|q: K| ml.dom().contains(q) implies !mr.dom().contains(q) by {
                    let x = choose|x: usize| #[trigger] l.idxs().contains(x) && key_of(s, x) == q;
                    if mr.dom().contains(q) {
                        let y = choose|y: usize| #[trigger] r.idxs().contains(y) && key_of(s, y) == q;
                        assert(rank_of(s, x) < rank_of(s, i) < rank_of(s, y));
                    }
                }
            }
            let u = ml.union_prefer_right(mr);
            assert(u.dom() =~= ml.dom().union(mr.dom()));
            vstd::set_lib::lemma_set_disjoint_lens(ml.dom(), mr.dom());
            assert(!u.dom().contains(key_of(s, i))) by {
                if ml.dom().contains(key_of(s, i)) {
                    let x = choose|x: usize| #[trigger] l.idxs().contains(x) && key_of(s, x) == key_of(s, i);
                }
                if mr.dom().contains(key_of(s, i)) {
                    let x = choose|x: usize| #[trigger] r.idxs().contains(x) && key_of(s, x) == key_of(s, i);
                }
            }
        },
    }
}

/// Setting a child link to what it already is changes nothing.
pub proof fn lemma_with_own_child<K, V>(n: Node<K, V>, right: bool)
    ensures
        with_child(n, right, child(n, right)) == n,
{
    assert(narrow(widen(n.left_idx)) == n.left_idx);
    assert(narrow(widen(n.right_idx)) == n.right_idx);
}

/// Overwriting the key (with an equal one) and value at the root of a good
/// shape keeps it good and updates its map at that key.
pub proof fn lemma_overwrite_root<K: SgKey, V>(
    s: Seq<Option<Node<K, V>>>,
    s2: Seq<Option<Node<K, V>>>,
    sh: Shape,
    val: V,
)
    requires
        good(s, sh),
        sh is Branch,
        s2 == s.update(sh.root().unwrap() as int, Some(Node { val, ..s[sh.root().unwrap() as int].unwrap() })),
    ensures
        good(s2, sh),
        as_map(s2, sh) == as_map(s, sh).insert(key_of(s, sh.root().unwrap()), val),
        forall|x: usize| #[trigger] sh.idxs().contains(x) ==> key_of(s2, x) == key_of(s, x),
{
    match sh {
        Shape::Branch(c, l, r) => {
            lemma_good_slots(s, sh);
            assert(!l.idxs().contains(c));
            assert(!r.idxs().contains(c));
            assert forall|x: usize| #[trigger] l.idxs().contains(x) implies x < s2.len() && s2[x as int] == s[x as int] by {
                assert(sh.idxs().contains(x));
            }
            assert forall|x: usize| #[trigger] r.idxs().contains(x) implies x < s2.len() && s2[x as int] == s[x as int] by {
                assert(sh.idxs().contains(x));
            }
            lemma_frame(s, s2, *l);
            lemma_frame(s, s2, *r);
            assert(as_map(s2, sh) =~= as_map(s, sh).insert(key_of(s, c), val));
        },
        _ => {},
    }
}

/// Replacing the subtree where a search ends by itself changes nothing.
pub proof fn lemma_replace_same<K: SgKey, V>(s: Seq<Option<Node<K, V>>>, sh: Shape, k: K)
    ensures
        replace_at(s, sh, k, sub_at(s, sh, k)) == sh,
    decreases sh,
{
    match sh {
        Shape::Leaf => {},
        Shape::Branch(i, l, r) => {
            lemma_replace_same(s, *l, k);
            lemma_replace_same(s, *r, k);
        },
    }
}

/// What an in-order walk still owes for a stack of subtrees, top last:
/// each one's root, then its right subtree.
pub open spec fn pending(gs: Seq<Shape>) -> Seq<usize>
    decreases gs.len(),
{
    if gs.len() == 0 {
        Seq::empty()
    } else {
        match gs.last() {
            Shape::Branch(i, _, r) => seq![i] + r.inorder() + pending(gs.drop_last()),
            Shape::Leaf => pending(gs.drop_last()),
        }
    }
}

/// The subtree rooted at an index of a good shape is where a search for its key ends.
pub proof fn lemma_sub_at_own_key<K: SgKey, V>(s: Seq<Option<Node<K, V>>>, sh: Shape, x: usize)
    requires
        good(s, sh),
        sh.idxs().contains(x),
    ensures
        sub_at(s, sh, key_of(s, x)).root() == Some(x),
    decreases sh,
{
    match sh {
        Shape::Leaf => {},
        Shape::Branch(i, l, r) => {
            if x == i {
            } else if l.idxs().contains(x) {
                assert(rank_of(s, x) < rank_of(s, i));
                lemma_sub_at_own_key(s, *l, x);
            } else {
                assert(r.idxs().contains(x));
                assert(rank_of(s, x) > rank_of(s, i));
                lemma_sub_at_own_key(s, *r, x);
            }
        },
    }
}

/// Two to the power `e`.
pub open spec fn pow2(e: nat) -> nat
    decreases e,
{
    if e == 0 {
        1
    } else {
        2 * pow2((e - 1) as nat)
    }
}

/// Powers of two grow with the exponent.
pub proof fn lemma_pow2_grows(a: nat, b: nat)
    ensures
        a <= b ==> pow2(a) <= pow2(b),
        b <= a ==> pow2(b) <= pow2(a),
        pow2(a) >= 1,
    decreases a + b,
{
    if a > 0 {
        lemma_pow2_grows((a - 1) as nat, b);
    }
    if b > 0 {
        lemma_pow2_grows(a, (b - 1) as nat);
    }
    if a > 0 && b > 0 {
        lemma_pow2_grows((a - 1) as nat, (b - 1) as nat);
    }
}

/// In-order, the keys of a good shape strictly ascend.
pub proof fn lemma_inorder_sorted<K: SgKey, V>(s: Seq<Option<Node<K, V>>>, sh: Shape)
    requires
        good(s, sh),
    ensures
        forall|a: int, b: int| 0 <= a < b < sh.inorder().len() ==>
            rank_of(s, #[trigger] sh.inorder()[a]) < rank_of(s, #[trigger] sh.inorder()[b]),
        sh.inorder().no_duplicates(),
    decreases sh,
{
    match sh {
        Shape::Leaf => {},
        Shape::Branch(i, l, r) => {
            lemma_inorder_sorted(s, *l);
            lemma_inorder_sorted(s, *r);
            lemma_inorder_idxs(*l);
            lemma_inorder_idxs(*r);
            let a_s = l.inorder();
            let b_s = r.inorder();
            let t = sh.inorder();
            assert(t == a_s + seq![i] + b_s);
            assert forall|a: int, b: int| 0 <= a < b < t.len() implies rank_of(s, #[trigger] t[a]) < rank_of(s, #[trigger] t[b]) by {
                let n = a_s.len() as int;
                if a < n {
                    assert(t[a] == a_s[a]);
                    assert(a_s.contains(a_s[a]));
                    assert(l.idxs().contains(t[a]));
                }
                if b > n {
                    assert(t[b] == b_s[b - n - 1]);
                    assert(b_s.contains(b_s[b - n - 1]));
                    assert(r.idxs().contains(t[b]));
                }
                if a > n {
                    assert(t[a] == b_s[a - n - 1]);
                    assert(t[b] == b_s[b - n - 1]);
                }
                if b < n {
                    assert(t[b] == a_s[b]);
                }
                if a < n && b > n {
                    assert(rank_of(s, t[a]) < rank_of(s, i));
                }
            }
            assert forall|a: int, b: int| 0 <= a < t.len() && 0 <= b < t.len() && a != b implies t[a] != t[b] by {
                if a < b {
                    assert(rank_of(s, t[a]) < rank_of(s, t[b]));
                } else {
                    assert(rank_of(s, t[b]) < rank_of(s, t[a]));
                }
            }
        },
    }
}

/// Two good shapes over the same indices, whose slots agree in key and value
/// there, hold the same map.
pub proof fn lemma_same_map<K: SgKey, V>(
    s: Seq<Option<Node<K, V>>>,
    a: Shape,
    s2: Seq<Option<Node<K, V>>>,
    b: Shape,
)
    requires
        good(s, a),
        good(s2, b),
        a.idxs() == b.idxs(),
        forall|x: usize| #[trigger] a.idxs().contains(x) ==> key_of(s2, x) == key_of(s, x) && val_of(s2, x) == val_of(s, x),
    ensures
        as_map(s2, b) == as_map(s, a),
{
    lemma_good_slots(s, a);
    lemma_good_slots(s2, b);
    let ma = as_map(s, a);
    let mb = as_map(s2, b);
    assert forall|q: K| ma.contains_key(q) <==> mb.contains_key(q) by {
        if ma.contains_key(q) {
            let x = choose|x: usize| #[trigger] a.idxs().contains(x) && key_of(s, x) == q;
            assert(b.idxs().contains(x));
        }
        if mb.contains_key(q) {
            let x = choose|x: usize| #[trigger] b.idxs().contains(x) && key_of(s2, x) == q;
            assert(a.idxs().contains(x));
        }
    }
    assert forall|q: K| #[trigger] ma.contains_key(q) implies ma[q] == mb[q] by {
        let x = choose|x: usize| #[trigger] a.idxs().contains(x) && key_of(s, x) == q;
        assert(b.idxs().contains(x));
    }
    assert(ma =~= mb);
}

/// Replacing a subtree by one with the same in-order sequence keeps the
/// whole sequence.
pub proof fn lemma_replace_inorder<K: SgKey, V>(s: Seq<Option<Node<K, V>>>, sh: Shape, k: K, new: Shape)
    requires
        new.inorder() == sub_at(s, sh, k).inorder(),
    ensures
        replace_at(s, sh, k, new).inorder() == sh.inorder(),
    decreases sh,
{
    match sh {
        Shape::Leaf => {},
        Shape::Branch(i, l, r) => {
            if k == key_of(s, i) {
            } else if k.rank() < rank_of(s, i) {
                lemma_replace_inorder(s, *l, k, new);
            } else {
                lemma_replace_inorder(s, *r, k, new);
            }
        },
    }
}

/// The least node of a tree, the tree without it, and the node whose left
/// link led to it (`None` when it is the root).
pub open spec fn min_split(t: Shape) -> (usize, Shape, Option<usize>)
    decreases t,
{
    match t {
        Shape::Leaf => (0, Shape::Leaf, None),
        Shape::Branch(i, l, r) => match *l {
            Shape::Leaf => (i, *r, None),
            _ => {
                let (m, l2, mp) = min_split(*l);
                (m, Shape::Branch(i, Box::new(l2), r), if mp is None { Some(i) } else { mp })
            },
        },
    }
}

/// Unlinking the least node: its parent's left link takes its right child.
pub proof fn lemma_min_split<K: SgKey, V>(s: Seq<Option<Node<K, V>>>, s2: Seq<Option<Node<K, V>>>, t: Shape)
    requires
        good(s, t),
        t is Branch,
        s2.len() == s.len(),
        s.len() <= MAX_IDX + 1,
        forall|x: usize| #[trigger] t.idxs().contains(x) && x != min_split(t).0
            && (min_split(t).2 is None || x != min_split(t).2.unwrap()) ==> s2[x as int] == s[x as int],
        min_split(t).2 is Some ==> s2[min_split(t).2.unwrap() as int] == Some(
            s[min_split(t).2.unwrap() as int].unwrap().with_left(s[min_split(t).0 as int].unwrap().right()),
        ),
    ensures
        t.idxs().contains(min_split(t).0),
        s[min_split(t).0 as int].unwrap().left() is None,
        good(s2, min_split(t).1),
        min_split(t).1.idxs() == t.idxs().remove(min_split(t).0),
        min_split(t).1.size() + 1 == t.size(),
        as_map(s2, min_split(t).1) == as_map(s, t).remove(key_of(s, min_split(t).0)),
        forall|x: usize| #[trigger] min_split(t).1.idxs().contains(x) ==> rank_of(s, min_split(t).0) < rank_of(s2, x)
            && key_of(s2, x) == key_of(s, x) && val_of(s2, x) == val_of(s, x),
        min_split(t).1.root() == if min_split(t).2 is None { s[min_split(t).0 as int].unwrap().right() } else { t.root() },
        min_split(t).2 is Some ==> t.idxs().contains(min_split(t).2.unwrap()) && min_split(t).2.unwrap() != min_split(t).0,
    decreases t,
{
    lemma_good_slots(s, t);
    match t {
        Shape::Branch(i, l, r) => {
            assert(!l.idxs().contains(i));
            assert(!r.idxs().contains(i));
            assert forall|x: usize| #[trigger] r.idxs().contains(x) implies !l.idxs().contains(x) by {
                if l.idxs().contains(x) {
                    assert(rank_of(s, x) < rank_of(s, i) && rank_of(s, i) < rank_of(s, x));
                }
            }
            lemma_good_slots(s, *l);
            lemma_good_slots(s, *r);
            match *l {
                Shape::Leaf => {
                    assert(l.size() == 0);
                    assert(l.idxs() =~= Set::<usize>::empty());
                    assert forall|x: usize| #[trigger] r.idxs().contains(x) implies x < s2.len() && s2[x as int] == s[x as int] by {
                        assert(t.idxs().contains(x));
                    }
                    lemma_frame(s, s2, *r);
                    assert(r.idxs() =~= t.idxs().remove(i));
                    assert(as_map(s, *l) =~= Map::<K, V>::empty());
                    assert(!as_map(s, *r).contains_key(key_of(s, i))) by {
                        if as_map(s, *r).contains_key(key_of(s, i)) {
                            let y = choose|y: usize| #[trigger] r.idxs().contains(y) && key_of(s, y) == key_of(s, i);
                        }
                    }
                    assert(as_map(s2, *r) =~= as_map(s, t).remove(key_of(s, i)));
                    assert forall|x: usize| #[trigger] r.idxs().contains(x) implies rank_of(s, i) < rank_of(s2, x)
                        && key_of(s2, x) == key_of(s, x) && val_of(s2, x) == val_of(s, x) by {
                        assert(t.idxs().contains(x));
                    }
                },
                _ => {
                    let (m, l2, mp) = min_split(*l);
                    assert forall|x: usize| #[trigger] l.idxs().contains(x) && x != m && (mp is None || x != mp.unwrap())
                        implies s2[x as int] == s[x as int] by {
                        assert(t.idxs().contains(x));
                        assert(x != i);
                    }
                    lemma_min_split(s, s2, *l);
                    let t2 = min_split(t).1;
                    assert(t2 == Shape::Branch(i, Box::new(l2), r));
                    assert(t2.size() + 1 == t.size());
                    // the top node keeps its links unless it is the parent of the minimum
                    assert(t.idxs().contains(i));
                    if mp is None {
                        assert(min_split(t).2 == Some(i));
                        assert(l2.root() == s[m as int].unwrap().right());
                        if l2.root() is Some {
                            lemma_good_slots(s2, l2);
                            assert(l2.idxs().contains(l2.root().unwrap()));
                            assert(l.idxs().contains(l2.root().unwrap()));
                        }
                        assert(widen(narrow(l2.root())) == l2.root());
                    } else {
                        assert(s2[i as int] == s[i as int]);
                    }
                    assert forall|x: usize| #[trigger] r.idxs().contains(x) implies x < s2.len() && s2[x as int] == s[x as int] by {
                        assert(t.idxs().contains(x));
                        assert(!l.idxs().contains(x));
                    }
                    lemma_frame(s, s2, *r);
                    assert forall|x: usize| #[trigger] l2.idxs().contains(x) implies rank_of(s2, x) < rank_of(s2, i) by {
                        assert(l.idxs().contains(x));
                    }
                    assert forall|x: usize| #[trigger] r.idxs().contains(x) implies rank_of(s2, i) < rank_of(s2, x) by {}
                    assert(good(s2, t2));
                    assert(t2.idxs() =~= t.idxs().remove(m));
                    let km = key_of(s, m);
                    assert(as_map(s, *l).contains_key(km));
                    assert(!as_map(s, *r).contains_key(km)) by {
                        if as_map(s, *r).contains_key(km) {
                            let y = choose|y: usize| #[trigger] r.idxs().contains(y) && key_of(s, y) == km;
                            assert(rank_of(s, m) < rank_of(s, i));
                        }
                    }
                    assert(km != key_of(s, i)) by {
                        assert(rank_of(s, m) < rank_of(s, i));
                    }
                    assert(as_map(s2, t2) =~= as_map(s, t).remove(km));
                    assert(l.idxs().contains(m));
                    if mp is Some {
                        assert(l.idxs().contains(mp.unwrap()));
                        assert(t.idxs().contains(mp.unwrap()));
                    }
                    assert forall|x: usize| #[trigger] t2.idxs().contains(x) implies rank_of(s, m) < rank_of(s2, x)
                        && key_of(s2, x) == key_of(s, x) && val_of(s2, x) == val_of(s, x) by {
                        if x == i {
                        } else if r.idxs().contains(x) {
                            assert(rank_of(s, m) < rank_of(s, i));
                        } else {
                            assert(l2.idxs().contains(x));
                        }
                    }
                },
            }
        },
        _ => {},
    }
}

/// A tree without its root: one child moves up, or with two children the
/// least node of the right subtree takes the root's place.
pub open spec fn remove_root(t: Shape) -> Shape {
    match t {
        Shape::Leaf => Shape::Leaf,
        Shape::Branch(_, l, r) => if *r is Leaf {
            *l
        } else if *l is Leaf {
            *r
        } else {
            Shape::Branch(min_split(*r).0, l, Box::new(min_split(*r).1))
        },
    }
}

/// Removing the root by relinking: the slots changed are those of the
/// successor and of its parent, as the unlink and relink describe.
pub proof fn lemma_remove_root<K: SgKey, V>(s: Seq<Option<Node<K, V>>>, s2: Seq<Option<Node<K, V>>>, t: Shape)
    requires
        good(s, t),
        t is Branch,
        s2.len() == s.len(),
        s.len() <= MAX_IDX + 1,
        ({
            let (i, l, r) = match t { Shape::Branch(i, l, r) => (i, *l, *r), _ => (0, t, t) };
            if r is Leaf || l is Leaf {
                forall|x: usize| #[trigger] t.idxs().contains(x) && x != i ==> s2[x as int] == s[x as int]
            } else {
                let (m, r2, mp) = min_split(r);
                &&& forall|x: usize| #[trigger] t.idxs().contains(x) && x != i && x != m
                    && (mp is None || x != mp.unwrap()) ==> s2[x as int] == s[x as int]
                &&& mp is Some ==> s2[mp.unwrap() as int] == Some(s[mp.unwrap() as int].unwrap().with_left(s[m as int].unwrap().right()))
                &&& s2[m as int] == Some(s[m as int].unwrap().with_right(r2.root()).with_left(l.root()))
            }
        }),
    ensures
        good(s2, remove_root(t)),
        remove_root(t).idxs() == t.idxs().remove(t.root().unwrap()),
        remove_root(t).size() + 1 == t.size(),
        as_map(s2, remove_root(t)) == as_map(s, t).remove(key_of(s, t.root().unwrap())),
        forall|x: usize| #[trigger] remove_root(t).idxs().contains(x) ==> key_of(s2, x) == key_of(s, x)
            && val_of(s2, x) == val_of(s, x),
{
    lemma_good_slots(s, t);
    match t {
        Shape::Branch(i, l, r) => {
            let ki = key_of(s, i);
            lemma_good_slots(s, *l);
            lemma_good_slots(s, *r);
            assert(!l.idxs().contains(i));
            assert(!r.idxs().contains(i));
            assert forall|x: usize| #[trigger] r.idxs().contains(x) implies !l.idxs().contains(x) by {
                if l.idxs().contains(x) {
                    assert(rank_of(s, x) < rank_of(s, i) && rank_of(s, i) < rank_of(s, x));
                }
            }
            assert(!as_map(s, *l).contains_key(ki)) by {
                if as_map(s, *l).contains_key(ki) {
                    let y = choose|y: usize| #[trigger] l.idxs().contains(y) && key_of(s, y) == ki;
                }
            }
            assert(!as_map(s, *r).contains_key(ki)) by {
                if as_map(s, *r).contains_key(ki) {
                    let y = choose|y: usize| #[trigger] r.idxs().contains(y) && key_of(s, y) == ki;
                }
            }
            assert forall|q: K| #[trigger] as_map(s, *l).contains_key(q) implies !as_map(s, *r).contains_key(q) by {
                let y = choose|y: usize| #[trigger] l.idxs().contains(y) && key_of(s, y) == q;
                if as_map(s, *r).contains_key(q) {
                    let z = choose|z: usize| #[trigger] r.idxs().contains(z) && key_of(s, z) == q;
                    assert(rank_of(s, y) < rank_of(s, i) && rank_of(s, i) < rank_of(s, z));
                }
            }
            if *r is Leaf || *l is Leaf {
                let c = if *r is Leaf { *l } else { *r };
                assert(remove_root(t) == c);
                assert forall|x: usize| #[trigger] c.idxs().contains(x) implies x < s2.len() && s2[x as int] == s[x as int] by {
                    assert(t.idxs().contains(x));
                }
                lemma_frame(s, s2, c);
                assert(Shape::Leaf.idxs() =~= Set::<usize>::empty());
                assert(c.idxs() =~= t.idxs().remove(i));
                assert(as_map(s, Shape::Leaf) =~= Map::<K, V>::empty());
                assert(as_map(s2, c) =~= as_map(s, t).remove(ki));
                assert(Shape::Leaf.size() == 0);
            } else {
                let (m, r2, mp) = min_split(*r);
                assert forall|x: usize| #[trigger] r.idxs().contains(x) && x != m && (mp is None || x != mp.unwrap())
                    implies s2[x as int] == s[x as int] by {
                    assert(t.idxs().contains(x));
                }
                lemma_min_split(s, s2, *r);
                let nt = Shape::Branch(m, l, Box::new(r2));
                assert(remove_root(t) == nt);
                assert(r.idxs().contains(m));
                assert forall|x: usize| #[trigger] l.idxs().contains(x) implies x < s2.len() && s2[x as int] == s[x as int] by {
                    assert(t.idxs().contains(x));
                    assert(!r.idxs().contains(x));
                }
                lemma_frame(s, s2, *l);
                assert(m < s2.len());
                if l.root() is Some {
                    assert(l.idxs().contains(l.root().unwrap()));
                }
                if r2.root() is Some {
                    lemma_good_slots(s2, r2);
                    assert(r2.idxs().contains(r2.root().unwrap()));
                    assert(r.idxs().contains(r2.root().unwrap()));
                }
                assert(widen(narrow(l.root())) == l.root());
                assert(widen(narrow(r2.root())) == r2.root());
                assert(key_of(s2, m) == key_of(s, m));
                assert forall|x: usize| #[trigger] l.idxs().contains(x) implies rank_of(s2, x) < rank_of(s2, m) by {
                    assert(rank_of(s, i) < rank_of(s, m));
                }
                assert forall|x: usize| #[trigger] r2.idxs().contains(x) implies rank_of(s2, m) < rank_of(s2, x) by {}
                assert(good(s2, nt));
                assert(nt.idxs() =~= t.idxs().remove(i));
                let km = key_of(s, m);
                assert(as_map(s, *r).contains_key(km));
                assert(as_map(s, *r)[km] == val_of(s, m));
                assert(as_map(s2, nt) =~= as_map(s, t).remove(ki));
                assert forall|x: usize| #[trigger] nt.idxs().contains(x) implies key_of(s2, x) == key_of(s, x)
                    && val_of(s2, x) == val_of(s, x) by {
                    if x == m {
                    } else if l.idxs().contains(x) {
                    } else {
                        assert(r2.idxs().contains(x));
                    }
                }
            }
        },
        _ => {},
    }
}

/// Where the least node sits: at the root, leaving the right subtree, or
/// deeper, leaving the root in place.
pub proof fn lemma_min_split_shape(t: Shape)
    requires
        t is Branch,
    ensures
        match t {
            Shape::Branch(i, l, r) => {
                &&& min_split(t).2 is None <==> *l is Leaf
                &&& min_split(t).2 is None ==> min_split(t).0 == i && min_split(t).1 == *r
                &&& min_split(t).2 is Some ==> min_split(t).1.root() == Some(i)
            },
            _ => true,
        },
{
}

/// Keys strictly ascend by rank along `e`.
pub open spec fn ascending<K: SgKey, V>(e: Seq<(K, V)>) -> bool {
    forall|a: int, b: int| 0 <= a < b < e.len() ==> (#[trigger] e[a]).0.rank() < (#[trigger] e[b]).0.rank()
}

/// Two sequences whose keys strictly ascend and that hold the same pairs are equal.
pub proof fn lemma_ascending_unique<K: SgKey, V>(a: Seq<(K, V)>, b: Seq<(K, V)>)
    requires
        ascending(a),
        ascending(b),
        forall|x: (K, V)| a.contains(x) <==> b.contains(x),
    ensures
        a == b,
    decreases a.len() + b.len(),
{
    if a.len() == 0 {
        if b.len() > 0 {
            assert(b.contains(b[0]));
        }
        assert(a =~= b);
    } else if b.len() == 0 {
        assert(a.contains(a[0]));
    } else {
        assert(a.contains(a[0]));
        assert(b.contains(b[0]));
        let ia = choose|i: int| 0 <= i < b.len() && b[i] == a[0];
        let ib = choose|i: int| 0 <= i < a.len() && a[i] == b[0];
        if ia > 0 {
            assert(b[0].0.rank() < b[ia].0.rank());
        }
        if ib > 0 {
            assert(a[0].0.rank() < a[ib].0.rank());
        }
        assert(a[0] == b[0]);
        let a2 = a.drop_first();
        let b2 = b.drop_first();
        assert forall|x: (K, V)| a2.contains(x) <==> b2.contains(x) by {
            if a2.contains(x) {
                let i = choose|i: int| 0 <= i < a2.len() && a2[i] == x;
                assert(a[i + 1] == x);
                assert(a.contains(x));
                let j = choose|j: int| 0 <= j < b.len() && b[j] == x;
                assert(a[0].0.rank() < x.0.rank());
                if j == 0 {
                    assert(false);
                }
                assert(b2[j - 1] == x);
            }
            if b2.contains(x) {
                let i = choose|i: int| 0 <= i < b2.len() && b2[i] == x;
                assert(b[i + 1] == x);
                assert(b.contains(x));
                let j = choose|j: int| 0 <= j < a.len() && a[j] == x;
                assert(b[0].0.rank() < x.0.rank());
                if j == 0 {
                    assert(false);
                }
                assert(a2[j - 1] == x);
            }
        }
        lemma_ascending_unique(a2, b2);
        assert(a =~= seq![a[0]] + a2);
        assert(b =~= seq![b[0]] + b2);
    }
}

/// The entries of a good shape ascend by key and hold exactly its map's pairs.
pub proof fn lemma_entries<K: SgKey, V>(s: Seq<Option<Node<K, V>>>, sh: Shape)
    requires
        good(s, sh),
    ensures
        ascending(entries(s, sh)),
        entries(s, sh).len() == sh.size(),
        forall|x: (K, V)| entries(s, sh).contains(x) <==> as_map(s, sh).contains_key(x.0) && as_map(s, sh)[x.0] == x.1,
{
    let e = entries(s, sh);
    let io = sh.inorder();
    lemma_inorder_sorted(s, sh);
    lemma_inorder_idxs(sh);
    lemma_good_slots(s, sh);
    assert forall|a: int, b: int| 0 <= a < b < e.len() implies (#[trigger] e[a]).0.rank() < (#[trigger] e[b]).0.rank() by {
        assert(rank_of(s, io[a]) < rank_of(s, io[b]));
    }
    assert forall|x: (K, V)| e.contains(x) <==> as_map(s, sh).contains_key(x.0) && as_map(s, sh)[x.0] == x.1 by {
        if e.contains(x) {
            let i = choose|i: int| 0 <= i < e.len() && e[i] == x;
            assert(io.contains(io[i]));
            assert(sh.idxs().contains(io[i]));
        }
        if as_map(s, sh).contains_key(x.0) && as_map(s, sh)[x.0] == x.1 {
            let y = choose|y: usize| #[trigger] sh.idxs().contains(y) && key_of(s, y) == x.0;
            assert(io.contains(y));
            let i = choose|i: int| 0 <= i < io.len() && io[i] == y;
            assert(e[i] == x);
        }
    }
}

/// The shape after its nodes moved to the slots that `order` gives them.
pub open spec fn relabel_shape(sh: Shape, order: Seq<usize>) -> Shape
    decreases sh,
{
    match sh {
        Shape::Leaf => Shape::Leaf,
        Shape::Branch(i, l, r) => Shape::Branch(
            pos_of(order, i),
            Box::new(relabel_shape(*l, order)),
            Box::new(relabel_shape(*r, order)),
        ),
    }
}

/// Moving every node of a good shape to its place in the in-order layout
/// keeps the shape good, and its in-order sequence becomes `0, 1, ...`.
pub proof fn lemma_relabel<K: SgKey, V>(s: Seq<Option<Node<K, V>>>, whole: Shape, sh: Shape)
    requires
        good(s, whole),
        good(s, sh),
        forall|x: usize| #[trigger] sh.idxs().contains(x) ==> whole.idxs().contains(x),
        whole.inorder().len() <= MAX_IDX + 1,
        whole.inorder().len() <= s.len(),
    ensures
        ({
            let order = whole.inorder();
            let s2 = sorted_layout(s, order);
            let t = relabel_shape(sh, order);
            &&& good(s2, t)
            &&& t.inorder() == sh.inorder().map_values(|x: usize| pos_of(order, x))
            &&& t.root() == moved(order, sh.root())
            &&& forall|y: usize| #[trigger] t.idxs().contains(y) ==> exists|x: usize| #[trigger] sh.idxs().contains(x) && y == pos_of(order, x)
            &&& forall|x: usize| #[trigger] sh.idxs().contains(x) ==> t.idxs().contains(pos_of(order, x))
                && key_of(s2, pos_of(order, x)) == key_of(s, x) && val_of(s2, pos_of(order, x)) == val_of(s, x)
        }),
    decreases sh,
{
    let order = whole.inorder();
    let s2 = sorted_layout(s, order);
    lemma_inorder_idxs(whole);
    lemma_inorder_sorted(s, whole);
    lemma_good_slots(s, whole);
    match sh {
        Shape::Leaf => {
            assert(sh.idxs() =~= Set::<usize>::empty());
            assert(relabel_shape(sh, order).idxs() =~= Set::<usize>::empty());
            assert(sh.inorder().map_values(|x: usize| pos_of(order, x)) =~= Seq::<usize>::empty());
        },
        Shape::Branch(i, l, r) => {
            assert forall|x: usize| #[trigger] l.idxs().contains(x) implies whole.idxs().contains(x) by {
                assert(sh.idxs().contains(x));
            }
            assert forall|x: usize| #[trigger] r.idxs().contains(x) implies whole.idxs().contains(x) by {
                assert(sh.idxs().contains(x));
            }
            lemma_relabel(s, whole, *l);
            lemma_relabel(s, whole, *r);
            let tl = relabel_shape(*l, order);
            let tr = relabel_shape(*r, order);
            let t = relabel_shape(sh, order);
            // where a node of the whole tree lands
            assert forall|x: usize| #[trigger] whole.idxs().contains(x) implies pos_of(order, x) < order.len()
                && order[pos_of(order, x) as int] == x by {
                assert(order.contains(x));
                let m = choose|m: int| 0 <= m < order.len() && order[m] == x;
                assert(order[m as usize as int] == x);
            }
            assert(sh.idxs().contains(i));
            let pi = pos_of(order, i);
            assert(s2[pi as int] == Some(relabel(s[i as int].unwrap(), order)));
            // the links, moved
            if l.root() is Some {
                assert(l.idxs().contains(l.root().unwrap()));
                assert(whole.idxs().contains(l.root().unwrap()));
            }
            if r.root() is Some {
                assert(r.idxs().contains(r.root().unwrap()));
                assert(whole.idxs().contains(r.root().unwrap()));
            }
            assert(widen(narrow(moved(order, s[i as int].unwrap().left()))) == moved(order, s[i as int].unwrap().left()));
            assert(widen(narrow(moved(order, s[i as int].unwrap().right()))) == moved(order, s[i as int].unwrap().right()));
            assert forall|y: usize| #[trigger] tl.idxs().contains(y) implies rank_of(s2, y) < rank_of(s2, pi) by {
                let x = choose|x: usize| #[trigger] l.idxs().contains(x) && y == pos_of(order, x);
            }
            assert forall|y: usize| #[trigger] tr.idxs().contains(y) implies rank_of(s2, pi) < rank_of(s2, y) by {
                let x = choose|x: usize| #[trigger] r.idxs().contains(x) && y == pos_of(order, x);
            }
            assert(good(s2, t));
            assert(t.inorder() =~= sh.inorder().map_values(|x: usize| pos_of(order, x)));
            assert forall|y: usize| #[trigger] t.idxs().contains(y) implies exists|x: usize| #[trigger] sh.idxs().contains(x) && y == pos_of(order, x) by {
                if y == pi {
                } else if tl.idxs().contains(y) {
                    let x = choose|x: usize| #[trigger] l.idxs().contains(x) && y == pos_of(order, x);
                    assert(sh.idxs().contains(x));
                } else {
                    let x = choose|x: usize| #[trigger] r.idxs().contains(x) && y == pos_of(order, x);
                    assert(sh.idxs().contains(x));
                }
            }
            assert forall|x: usize| #[trigger] sh.idxs().contains(x) implies t.idxs().contains(pos_of(order, x))
                && key_of(s2, pos_of(order, x)) == key_of(s, x) && val_of(s2, pos_of(order, x)) == val_of(s, x) by {
                if x == i {
                } else if l.idxs().contains(x) {
                } else {
                    assert(r.idxs().contains(x));
                }
            }
        },
    }
}

/// The children of every node of a good shape are nodes of it.
pub proof fn lemma_children_in<K: SgKey, V>(s: Seq<Option<Node<K, V>>>, sh: Shape)
    requires
        good(s, sh),
    ensures
        forall|x: usize| #[trigger] sh.idxs().contains(x) ==> {
            &&& (s[x as int].unwrap().left() is Some ==> sh.idxs().contains(s[x as int].unwrap().left().unwrap()))
            &&& (s[x as int].unwrap().right() is Some ==> sh.idxs().contains(s[x as int].unwrap().right().unwrap()))
        },
    decreases sh,
{
    match sh {
        Shape::Leaf => {
            assert(sh.idxs() =~= Set::<usize>::empty());
        },
        Shape::Branch(i, l, r) => {
            lemma_children_in(s, *l);
            lemma_children_in(s, *r);
            if l.root() is Some {
                assert(l.idxs().contains(l.root().unwrap()));
            }
            if r.root() is Some {
                assert(r.idxs().contains(r.root().unwrap()));
            }
            assert forall|x: usize| #[trigger] sh.idxs().contains(x) implies {
                &&& (s[x as int].unwrap().left() is Some ==> sh.idxs().contains(s[x as int].unwrap().left().unwrap()))
                &&& (s[x as int].unwrap().right() is Some ==> sh.idxs().contains(s[x as int].unwrap().right().unwrap()))
            } by {
                if x == i {
                } else if l.idxs().contains(x) {
                } else {
                    assert(r.idxs().contains(x));
                }
            }
        },
    }
}

/// At every node the right subtree holds as many nodes as the left one, or
/// one more.
pub open spec fn size_balanced(t: Shape) -> bool
    decreases t,
{
    match t {
        Shape::Leaf => true,
        Shape::Branch(_, l, r) => l.size() <= r.size() && r.size() <= l.size() + 1 && size_balanced(*l)
            && size_balanced(*r),
    }
}

/// A tree is no taller than it has nodes.
pub proof fn lemma_height_le_size(t: Shape)
    ensures
        t.height() <= t.size(),
    decreases t,
{
    match t {
        Shape::Leaf => {},
        Shape::Branch(_, l, r) => {
            lemma_height_le_size(*l);
            lemma_height_le_size(*r);
        },
    }
}

/// The nodes a search for `k` passes before it ends, root first: the strict
/// ancestors of the node holding `k`, or of the position where `k` would go.
pub open spec fn path_to<K: SgKey, V>(s: Seq<Option<Node<K, V>>>, sh: Shape, k: K) -> Seq<usize>
    decreases sh,
{
    match sh {
        Shape::Leaf => Seq::empty(),
        Shape::Branch(i, l, r) => if k == key_of(s, i) {
            Seq::empty()
        } else if k.rank() < rank_of(s, i) {
            seq![i] + path_to(s, *l, k)
        } else {
            seq![i] + path_to(s, *r, k)
        },
    }
}

/// Replacing the subtree where a search ends adds at most the search's
/// depth to the new subtree's height, and nothing where the new subtree is
/// no taller than the old one.
pub proof fn lemma_replace_height<K: SgKey, V>(s: Seq<Option<Node<K, V>>>, sh: Shape, k: K, new: Shape)
    ensures
        replace_at(s, sh, k, new).height() <= sh.height() || replace_at(s, sh, k, new).height() <= path_to(s, sh, k).len() + new.height(),
        new.height() <= sub_at(s, sh, k).height() ==> replace_at(s, sh, k, new).height() <= sh.height(),
    decreases sh,
{
    match sh {
        Shape::Leaf => {},
        Shape::Branch(i, l, r) => {
            if k == key_of(s, i) {
            } else if k.rank() < rank_of(s, i) {
                lemma_replace_height(s, *l, k, new);
            } else {
                lemma_replace_height(s, *r, k, new);
            }
        },
    }
}

/// Taking out the least node never makes a tree taller.
pub proof fn lemma_min_split_height(t: Shape)
    ensures
        min_split(t).1.height() <= t.height(),
    decreases t,
{
    match t {
        Shape::Leaf => {},
        Shape::Branch(_, l, r) => {
            lemma_min_split_height(*l);
        },
    }
}

/// Removing the root by relinking never makes a tree taller.
pub proof fn lemma_remove_root_height(t: Shape)
    ensures
        remove_root(t).height() <= t.height(),
{
    match t {
        Shape::Leaf => {},
        Shape::Branch(_, l, r) => {
            lemma_min_split_height(*r);
        },
    }
}

/// A tree of height `h` holds fewer than `2^h` nodes.
pub proof fn lemma_size_below_pow2(t: Shape)
    ensures
        t.size() < pow2(t.height()),
    decreases t,
{
    match t {
        Shape::Leaf => {
            assert(pow2(0) == 1);
        },
        Shape::Branch(_, l, r) => {
            lemma_size_below_pow2(*l);
            lemma_size_below_pow2(*r);
            lemma_pow2_grows(l.height(), r.height());
            let h = if l.height() >= r.height() { l.height() } else { r.height() };
            lemma_pow2_grows(l.height(), h);
            lemma_pow2_grows(r.height(), h);
            assert(pow2(h + 1) == 2 * pow2(h));
        },
    }
}

/// A size-balanced tree is no taller than any other tree of its size.
pub proof fn lemma_balanced_lowest(t: Shape, u: Shape)
    requires
        pow2(t.height()) <= 2 * t.size(),
        t.size() == u.size(),
    ensures
        t.height() <= u.height(),
{
    lemma_size_below_pow2(u);
    if t.height() > u.height() {
        lemma_pow2_grows(u.height() + 1, t.height());
        assert(pow2(u.height() + 1) == 2 * pow2(u.height()));
    }
}

/// Moving nodes to other slots keeps the height.
pub proof fn lemma_relabel_height(sh: Shape, order: Seq<usize>)
    ensures
        relabel_shape(sh, order).height() == sh.height(),
    decreases sh,
{
    match sh {
        Shape::Leaf => {},
        Shape::Branch(_, l, r) => {
            lemma_relabel_height(*l, order);
            lemma_relabel_height(*r, order);
        },
    }
}

/// Replacing the subtree at the root's key replaces the whole tree.
pub proof fn lemma_replace_root<K: SgKey, V>(s: Seq<Option<Node<K, V>>>, sh: Shape, new: Shape)
    requires
        sh is Branch,
    ensures
        replace_at(s, sh, key_of(s, sh.root().unwrap()), new) == new,
        sub_at(s, sh, key_of(s, sh.root().unwrap())) == sh,
{
}

/// Replacing the value of the node that holds `k` keeps the shape good and
/// updates the map at `k`.
pub proof fn lemma_set_value<K: SgKey, V>(s: Seq<Option<Node<K, V>>>, sh: Shape, k: K, val: V)
    requires
        good(s, sh),
        sub_at(s, sh, k) is Branch,
        s.len() <= MAX_IDX + 1,
    ensures
        ({
            let c = sub_at(s, sh, k).root().unwrap();
            let s2 = s.update(c as int, Some(Node { val, ..s[c as int].unwrap() }));
            &&& c < s.len() && s[c as int] is Some
            &&& good(s2, sh)
            &&& as_map(s2, sh) == as_map(s, sh).insert(k, val)
            &&& forall|x: usize| #[trigger] sh.idxs().contains(x) ==> rank_of(s2, x) == rank_of(s, x)
        }),
{
    let sub = sub_at(s, sh, k);
    let c = sub.root().unwrap();
    lemma_search(s, sh, k, None);
    lemma_good_slots(s, sh);
    lemma_good_slots(s, sub);
    assert(sub.idxs().contains(c));
    let s2 = s.update(c as int, Some(Node { val, ..s[c as int].unwrap() }));
    lemma_overwrite_root(s, s2, sub, val);
    let p = parent_at(s, sh, k, None);
    if p is Some {
        lemma_with_own_child(s[p.unwrap().0 as int].unwrap(), p.unwrap().1);
    }
    assert forall|x: usize| #[trigger] sub.idxs().contains(x) implies
        as_map(s, sub_at(s, sh, k)).contains_key(key_of(s2, x)) || key_of(s2, x) == k by {}
    lemma_replace(s, s2, sh, k, sub, None);
    lemma_replace_same(s, sh, k);
    assert(as_map(s2, sh) =~= as_map(s, sh).insert(k, val));
    assert forall|x: usize| #[trigger] sh.idxs().contains(x) implies rank_of(s2, x) == rank_of(s, x) by {
        if x != c {
            assert(s2[x as int] == s[x as int]);
        }
    }
}

} // verus!
