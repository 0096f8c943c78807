//! The scapegoat tree: a self-balancing binary search tree whose nodes live
//! in a fixed-capacity arena and link to each other by index.
use vstd::prelude::*;
use core::cmp::Ordering;
use crate::arena::{
    lemma_occupied_push, lemma_occupied_same, lemma_occupied_update, moved, occupied_count, pos_of, relabel,
    sorted_free, sorted_layout, Arena,
};
use crate::error::SgError;
use crate::key::SgKey;
use crate::node::{narrow, widen, Node, NodeGetHelper, NodeRebuildHelper, MAX_IDX};
use crate::shape::{
    lemma_set_value,
    lemma_replace_height, lemma_min_split_height, lemma_remove_root_height, lemma_size_below_pow2, lemma_balanced_lowest, lemma_relabel_height, lemma_replace_root,
    path_to,
    lemma_height_le_size,
    size_balanced,
    as_map, ascending, entries, good, key_of, lemma_ascending_unique, lemma_children_in,
    lemma_entries, lemma_frame, lemma_good_slots, lemma_inorder_idxs, lemma_inorder_sorted,
    lemma_map_size, lemma_min_split_shape, lemma_overwrite_root, lemma_pow2_grows, lemma_relabel,
    lemma_remove_root, lemma_replace, lemma_replace_inorder, lemma_replace_same, lemma_same_map,
    lemma_search, lemma_sub_at_own_key, lemma_with_own_child, min_split, parent_at, pending, pow2,
    rank_of, relabel_shape, remove_root, replace_at, sub_at, val_of, Shape,
};

verus! {

/// Default rebalance factor numerator: alpha = 2/3.
pub const DEFAULT_ALPHA_NUM: u32 = 2;

/// Default rebalance factor denominator.
pub const DEFAULT_ALPHA_DENOM: u32 = 3;

/// The largest capacity an arena index can address.
pub const MAX_CAPACITY: usize = MAX_IDX;

/// A self-balancing binary search tree holding at most `N` pairs, with no
/// storage beyond its arena.
pub struct SgTree<K, V, const N: usize> {
    arena: Arena<K, V, N>,
    opt_root_idx: Option<usize>,
    max_idx: usize,
    min_idx: usize,
    curr_size: usize,
    alpha_num: u32,
    alpha_denom: u32,
    max_size: usize,
    rebal_cnt: usize,
    shape: Ghost<Shape>,
}

/// `b` to the power `e`.
pub open spec fn ipow(b: int, e: nat) -> int
    decreases e,
{
    if e == 0 {
        1
    } else {
        b * ipow(b, (e - 1) as nat)
    }
}

/// Bound under which powers are compared exactly when deriving rebalance depths.
pub const POW_CAP: u128 = 0xffff_ffff_ffff_ffff;

/// Size of the subtree rooted at `x`.
pub open spec fn subtree_size<K: SgKey, V>(s: Seq<Option<Node<K, V>>>, sh: Shape, x: usize) -> nat {
    sub_at(s, sh, key_of(s, x)).size()
}

/// Size of the subtree below path position `q`: that of the next node on the
/// path, or 1 (the node just inserted) below the last.
pub open spec fn below_size<K: SgKey, V>(s: Seq<Option<Node<K, V>>>, sh: Shape, path: Seq<usize>, q: int) -> nat {
    if q == path.len() - 1 {
        1
    } else {
        subtree_size(s, sh, path[q + 1])
    }
}

/// The node at path position `q` is alpha-weight-unbalanced: the subtree
/// below it on the path holds more than alpha of its nodes.
pub open spec fn unbalanced_at<K: SgKey, V>(
    s: Seq<Option<Node<K, V>>>,
    sh: Shape,
    path: Seq<usize>,
    q: int,
    num: u32,
    denom: u32,
) -> bool {
    denom * below_size(s, sh, path, q) > num * subtree_size(s, sh, path[q])
}

/// One step of the power comparison stays within `u128` and keeps the
/// products in step.
proof fn lemma_pow_step(pd: u128, pn: u128, denom: u128, num: u128, val: u128)
    requires
        1 <= pd <= POW_CAP,
        pn <= POW_CAP,
        2 <= denom <= 0xffff_ffff,
        num <= 0xffff_ffff,
    ensures
        pd * denom <= u128::MAX,
        pn * num <= u128::MAX,
        pd * denom >= 2 * pd,
{
    assert(pd * denom <= POW_CAP * 0xffff_ffff) by (nonlinear_arith)
        requires
            pd <= POW_CAP,
            denom <= 0xffff_ffff,
    ;
    assert(pn * num <= POW_CAP * 0xffff_ffff) by (nonlinear_arith)
        requires
            pn <= POW_CAP,
            num <= 0xffff_ffff,
    ;
    assert(pd * denom >= 2 * pd) by (nonlinear_arith)
        requires
            denom >= 2,
            pd >= 1,
    ;
}

/// Products grow with their factors.
proof fn lemma_mul_le(a: int, b: int, x: int, y: int)
    requires
        0 <= a <= x,
        0 <= b <= y,
    ensures
        a * b <= x * y,
{
    assert(a * b <= x * y) by (nonlinear_arith)
        requires
            0 <= a <= x,
            0 <= b <= y,
    ;
}

/// Regrouping a product of three.
proof fn lemma_mul_regroup(v: int, n: int, p: int)
    ensures
        v * (n * p) == (v * p) * n,
{
    assert(v * (n * p) == (v * p) * n) by (nonlinear_arith);
}

/// A tree of height `h` meets the weight-balance depth bound for high-water
/// mark `hw` and factor `num/denom`: `h <= floor(log_{denom/num}(hw)) + 1`,
/// written without logarithms as `denom^(h-1) <= hw * num^(h-1)`.
pub open spec fn height_ok(h: nat, hw: nat, num: u32, denom: u32) -> bool {
    h == 0 || ipow(denom as int, (h - 1) as nat) <= hw * ipow(num as int, (h - 1) as nat)
}

proof fn lemma_ipow_nonneg(b: int, e: nat)
    requires
        b >= 0,
    ensures
        ipow(b, e) >= 0,
    decreases e,
{
    if e > 0 {
        lemma_ipow_nonneg(b, (e - 1) as nat);
        assert(b * ipow(b, (e - 1) as nat) >= 0) by (nonlinear_arith)
            requires
                b >= 0,
                ipow(b, (e - 1) as nat) >= 0,
        ;
    }
}

/// One level less stays within the bound.
proof fn lemma_fits_step_down(e: nat, hw: int, num: int, denom: int)
    requires
        0 < num <= denom,
        hw >= 0,
        ipow(denom, e + 1) <= hw * ipow(num, e + 1),
    ensures
        ipow(denom, e) <= hw * ipow(num, e),
{
    let d = ipow(denom, e);
    let m = ipow(num, e);
    lemma_ipow_nonneg(denom, e);
    lemma_ipow_nonneg(num, e);
    assert(ipow(denom, e + 1) == denom * d);
    assert(ipow(num, e + 1) == num * m);
    assert(d <= hw * m) by (nonlinear_arith)
        requires
            0 < num <= denom,
            d >= 0,
            denom * d <= hw * (num * m),
    ;
}

/// Fewer levels stay within the bound.
proof fn lemma_fits_lower(e1: nat, e2: nat, hw: int, num: int, denom: int)
    requires
        0 < num <= denom,
        hw >= 0,
        e1 <= e2,
        ipow(denom, e2) <= hw * ipow(num, e2),
    ensures
        ipow(denom, e1) <= hw * ipow(num, e1),
    decreases e2 - e1,
{
    if e1 < e2 {
        lemma_fits_step_down((e2 - 1) as nat, hw, num, denom);
        lemma_fits_lower(e1, (e2 - 1) as nat, hw, num, denom);
    }
}

/// A larger high-water mark keeps the bound.
proof fn lemma_fits_grow(e: nat, hw: int, hw2: int, num: int)
    requires
        0 <= hw <= hw2,
        num >= 0,
    ensures
        hw * ipow(num, e) <= hw2 * ipow(num, e),
{
    lemma_ipow_nonneg(num, e);
    lemma_mul_le(hw, ipow(num, e), hw2, ipow(num, e));
}

/// With `denom <= 2 * num`, `denom^k <= 2^k * num^k`.
proof fn lemma_pow_two_bound(k: nat, num: int, denom: int)
    requires
        0 <= num,
        0 <= denom <= 2 * num,
    ensures
        ipow(denom, k) <= pow2(k) * ipow(num, k),
    decreases k,
{
    if k > 0 {
        let k1 = (k - 1) as nat;
        lemma_pow_two_bound(k1, num, denom);
        lemma_ipow_nonneg(denom, k1);
        lemma_ipow_nonneg(num, k1);
        let a = ipow(denom, k1);
        let p = pow2(k1);
        let m = ipow(num, k1);
        assert(denom * a <= (2 * p) * (num * m)) by (nonlinear_arith)
            requires
                0 <= a <= p * m,
                0 <= denom <= 2 * num,
                m >= 0,
                num >= 0,
        ;
    }
}

/// A tree with `2^h <= 2n` and `n <= hw` meets the bound.
proof fn lemma_balanced_fits(h: nat, n: nat, hw: nat, num: u32, denom: u32)
    requires
        alpha_ok(num, denom),
        pow2(h) <= 2 * n,
        n <= hw,
    ensures
        height_ok(h, hw, num, denom),
{
    if h > 0 {
        let k = (h - 1) as nat;
        assert(pow2(h) == 2 * pow2(k));
        lemma_pow_two_bound(k, num as int, denom as int);
        lemma_ipow_nonneg(num as int, k);
        lemma_mul_le(pow2(k) as int, ipow(num as int, k), hw as int, ipow(num as int, k));
    }
}

/// `m` after inserting the pairs of `items` in order; a later pair for a key
/// wins.
pub open spec fn insert_all<K, V>(m: Map<K, V>, items: Seq<(K, V)>) -> Map<K, V>
    decreases items.len(),
{
    if items.len() == 0 {
        m
    } else {
        insert_all(m, items.drop_last()).insert(items.last().0, items.last().1)
    }
}

/// One more, wrapping to 0 past `usize::MAX`.
pub open spec fn wrap_inc(c: usize) -> usize {
    if c == usize::MAX {
        0
    } else {
        (c + 1) as usize
    }
}

/// `num / denom` lies in `[1/2, 1)`.
pub open spec fn alpha_ok(num: u32, denom: u32) -> bool {
    0 < num && num < denom && denom <= 2 * num
}

impl<K: SgKey, V, const N: usize> View for SgTree<K, V, N> {
    type V = Map<K, V>;

    /// The key-value pairs held.
    closed spec fn view(&self) -> Map<K, V> {
        as_map(self.arena.slots(), self.shape@)
    }
}

impl<K: SgKey, V, const N: usize> SgTree<K, V, N> {
    /// The slots of the arena.
    pub closed spec fn slots(&self) -> Seq<Option<Node<K, V>>> {
        self.arena.slots()
    }

    /// The tree's shape over the arena.
    pub closed spec fn spec_shape(&self) -> Shape {
        self.shape@
    }

    /// The pairs held, in key order.
    pub closed spec fn spec_entries(&self) -> Seq<(K, V)> {
        entries(self.arena.slots(), self.shape@)
    }

    /// The number of rebuilds so far.
    pub closed spec fn rebal_count(&self) -> usize {
        self.rebal_cnt
    }

    /// The root's slot.
    pub closed spec fn spec_root(&self) -> Option<usize> {
        self.opt_root_idx
    }

    /// The slot holding `k`, if it is held.
    pub closed spec fn slot_of(&self, k: K) -> Option<usize> {
        sub_at(self.arena.slots(), self.shape@, k).root()
    }

    /// How many slots of the arena hold a node.
    pub closed spec fn occupied(&self) -> nat {
        occupied_count(self.arena.slots())
    }

    /// The arena's free list.
    pub closed spec fn spec_free(&self) -> Seq<usize> {
        self.arena.free()
    }

    /// The largest size since the last full rebuild.
    pub closed spec fn high_water(&self) -> nat {
        self.max_size as nat
    }

    /// The rebalance factor as a fraction.
    pub closed spec fn alpha(&self) -> (u32, u32) {
        (self.alpha_num, self.alpha_denom)
    }

    /// Index of the least key.
    pub closed spec fn spec_min_idx(&self) -> usize {
        self.min_idx
    }

    /// Index of the greatest key.
    pub closed spec fn spec_max_idx(&self) -> usize {
        self.max_idx
    }

    /// The tree invariant.
    pub closed spec fn wf(&self) -> bool {
        self.wf_links() && self.extremes_ok() && self.hw_ok() && self.height_bounded()
    }

    /// The weight-balance depth bound: the tree is at most
    /// `floor(log_{denom/num}(high_water)) + 1` nodes deep.
    pub closed spec fn height_bounded(&self) -> bool {
        height_ok(self.shape@.height(), self.max_size as nat, self.alpha_num, self.alpha_denom)
    }

    /// The arena holds the shape, every occupied slot is a node of it, and
    /// the counters agree with it.
    pub closed spec fn wf_links(&self) -> bool {
        let s = self.arena.slots();
        let sh = self.shape@;
        &&& self.arena.wf()
        &&& good(s, sh)
        &&& self.opt_root_idx == sh.root()
        &&& forall|x: usize| x < s.len() ==> (#[trigger] s[x as int] is Some <==> sh.idxs().contains(x))
        &&& occupied_count(s) == self.curr_size
        &&& self.curr_size == sh.size()
        &&& alpha_ok(self.alpha_num, self.alpha_denom)
    }

    /// The cached indices of the least and greatest keys are right.
    pub closed spec fn extremes_ok(&self) -> bool {
        let s = self.arena.slots();
        let sh = self.shape@;
        sh is Branch ==> {
            &&& sh.idxs().contains(self.min_idx)
            &&& sh.idxs().contains(self.max_idx)
            &&& forall|x: usize| #[trigger] sh.idxs().contains(x) ==> rank_of(s, self.min_idx) <= rank_of(s, x)
                && rank_of(s, x) <= rank_of(s, self.max_idx)
        }
    }

    /// The high-water mark lies between the size and twice the size.
    pub closed spec fn hw_ok(&self) -> bool {
        self.curr_size <= self.max_size <= 2 * self.curr_size
    }

    proof fn lemma_wf_facts(&self)
        requires
            self.wf_links(),
        ensures
            N <= MAX_IDX,
            self.slots().len() <= N,
            self.curr_size <= self.slots().len(),
            forall|x: usize| #[trigger] self.shape@.idxs().contains(x) ==> x < self.slots().len()
                && self.slots()[x as int] is Some,
    {
        self.arena.lemma_wf();
        lemma_good_slots(self.arena.slots(), self.shape@);
    }

    /// Makes a new, empty tree with rebalance factor 2/3.
    pub fn new() -> (t: Self)
        requires
            N <= MAX_CAPACITY,
        ensures
            t.wf(),
            t@ == Map::<K, V>::empty(),
            t.alpha() == (DEFAULT_ALPHA_NUM, DEFAULT_ALPHA_DENOM),
            t.high_water() == 0,
    {
        let t = SgTree {
            arena: Arena::new(),
            opt_root_idx: None,
            max_idx: 0,
            min_idx: 0,
            curr_size: 0,
            alpha_num: DEFAULT_ALPHA_NUM,
            alpha_denom: DEFAULT_ALPHA_DENOM,
            max_size: 0,
            rebal_cnt: 0,
            shape: Ghost(Shape::Leaf),
        };
        proof {
            assert(Shape::Leaf.idxs() =~= Set::<usize>::empty());
            assert(as_map(t.arena.slots(), Shape::Leaf) =~= Map::<K, V>::empty());
        }
        t
    }

    /// Iterative search for `key`: the node holding it, its parent and the
    /// edge between them; all absent if `key` is not held.
    fn priv_get(&self, key: &K) -> (ngh: NodeGetHelper)
        requires
            self.wf_links(),
        ensures
            ngh.spec_node_idx() == sub_at(self.slots(), self.shape@, *key).root(),
            ngh.spec_node_idx() is Some ==> {
                let p = parent_at(self.slots(), self.shape@, *key, None);
                &&& ngh.spec_parent_idx() == (match p { Some(q) => Some(q.0), None => None::<usize> })
                &&& ngh.spec_is_right_child() == (match p { Some(q) => q.1, None => false })
            },
            ngh.spec_node_idx() is None ==> ngh.spec_parent_idx() is None && !ngh.spec_is_right_child(),
    {
        let mut path: Vec<usize> = Vec::new();
        self.priv_get_path(&mut path, key)
    }

    /// Iterative search for `key`, recording in `path` the nodes passed on
    /// the way, root first. On a hit `path` holds the found node's strict
    /// ancestors; on a miss it is cleared.
    fn priv_get_path(&self, path: &mut Vec<usize>, key: &K) -> (ngh: NodeGetHelper)
        requires
            self.wf_links(),
            old(path)@.len() == 0,
        ensures
            ngh.spec_node_idx() == sub_at(self.slots(), self.shape@, *key).root(),
            ngh.spec_node_idx() is Some ==> {
                let p = parent_at(self.slots(), self.shape@, *key, None);
                &&& ngh.spec_parent_idx() == (match p { Some(q) => Some(q.0), None => None::<usize> })
                &&& ngh.spec_is_right_child() == (match p { Some(q) => q.1, None => false })
            },
            ngh.spec_node_idx() is None ==> ngh.spec_parent_idx() is None && !ngh.spec_is_right_child(),
            ngh.spec_node_idx() is Some ==> final(path)@ == path_to(self.slots(), self.shape@, *key)
                && ngh.spec_parent_idx() == (if final(path)@.len() == 0 { None } else { Some(final(path)@.last()) }),
            ngh.spec_node_idx() is None ==> final(path)@.len() == 0,
    {
        let ghost s = self.slots();
        let ghost sh = self.shape@;
        proof {
            self.lemma_wf_facts();
        }
        match self.opt_root_idx {
            None => {
                proof {
                    assert(path@ + path_to(s, sh, *key) =~= path_to(s, sh, *key));
                }
                NodeGetHelper::new(None, None, false)
            },
            Some(root_idx) => {
                proof {
                    assert(path@ + path_to(s, sh, *key) =~= path_to(s, sh, *key));
                }
                let mut curr_idx = root_idx;
                let mut opt_parent_idx: Option<usize> = None;
                let mut is_right_child = false;
                let ghost mut sub = sh;
                loop
                    invariant
                        self.wf_links(),
                        s == self.slots(),
                        sh == self.shape@,
                        good(s, sub),
                        sub.root() == Some(curr_idx),
                        opt_parent_idx is None ==> !is_right_child,
                        forall|x: usize| #[trigger] sub.idxs().contains(x) ==> sh.idxs().contains(x),
                        sub_at(s, sh, *key) == sub_at(s, sub, *key),
                        path@ + path_to(s, sub, *key) == path_to(s, sh, *key),
                        opt_parent_idx == (if path@.len() == 0 { None } else { Some(path@.last()) }),
                        parent_at(s, sh, *key, None) == parent_at(
                            s,
                            sub,
                            *key,
                            match opt_parent_idx { Some(pi) => Some((pi, is_right_child)), None => None },
                        ),
                    decreases sub.size(),
                {
                    proof {
                        lemma_good_slots(s, sub);
                        assert(sub.idxs().contains(curr_idx));
                    }
                    let node = self.arena.get(curr_idx);
                    let ghost l = match sub { Shape::Branch(_, l, _) => *l, _ => sub };
                    let ghost r = match sub { Shape::Branch(_, _, r) => *r, _ => sub };
                    proof {
                        assert forall|x: usize| #[trigger] l.idxs().contains(x) implies sh.idxs().contains(x) by {
                            assert(sub.idxs().contains(x));
                        }
                        assert forall|x: usize| #[trigger] r.idxs().contains(x) implies sh.idxs().contains(x) by {
                            assert(sub.idxs().contains(x));
                        }
                    }
                    match key.compare(node.key()) {
                        Ordering::Less => {
                            match node.left_idx() {
                                Some(lt_idx) => {
                                    path.push(curr_idx);
                                    proof {
                                        assert(path@ + path_to(s, l, *key) =~= path_to(s, sh, *key));
                                    }
                                    opt_parent_idx = Some(curr_idx);
                                    curr_idx = lt_idx;
                                    is_right_child = false;
                                    proof {
                                        sub = l;
                                    }
                                },
                                None => {
                                    path.clear();
                                    return NodeGetHelper::new(None, None, false);
                                },
                            }
                        },
                        Ordering::Equal => {
                            proof {
                                assert(path@ =~= path_to(s, sh, *key));
                            }
                            return NodeGetHelper::new(Some(curr_idx), opt_parent_idx, is_right_child);
                        },
                        Ordering::Greater => {
                            match node.right_idx() {
                                Some(gt_idx) => {
                                    path.push(curr_idx);
                                    proof {
                                        assert(path@ + path_to(s, r, *key) =~= path_to(s, sh, *key));
                                    }
                                    opt_parent_idx = Some(curr_idx);
                                    curr_idx = gt_idx;
                                    is_right_child = true;
                                    proof {
                                        sub = r;
                                    }
                                },
                                None => {
                                    path.clear();
                                    return NodeGetHelper::new(None, None, false);
                                },
                            }
                        },
                    }
                }
            },
        }
    }

    /// Returns the stored key and value for `key`, if held.
    pub fn get_key_value(&self, key: &K) -> (r: Option<(&K, &V)>)
        requires
            self.wf(),
        ensures
            match r {
                Some((k, v)) => self@.contains_key(*key) && *k == *key && *v == self@[*key],
                None => !self@.contains_key(*key),
            },
    {
        let ngh = self.priv_get(key);
        proof {
            lemma_search(self.slots(), self.shape@, *key, None);
            lemma_good_slots(self.slots(), sub_at(self.slots(), self.shape@, *key));
            self.lemma_wf_facts();
        }
        match ngh.node_idx() {
            Some(idx) => {
                proof {
                    assert(sub_at(self.slots(), self.shape@, *key).idxs().contains(idx));
                }
                let node = self.arena.get(idx);
                Some((&node.key, &node.val))
            },
            None => None,
        }
    }

    /// Returns the value stored for `key`, if held.
    pub fn get(&self, key: &K) -> (r: Option<&V>)
        requires
            self.wf(),
        ensures
            match r {
                Some(v) => self@.contains_key(*key) && *v == self@[*key],
                None => !self@.contains_key(*key),
            },
    {
        match self.get_key_value(key) {
            Some((_, v)) => Some(v),
            None => None,
        }
    }

    /// Whether `key` is held.
    pub fn contains_key(&self, key: &K) -> (r: bool)
        requires
            self.wf(),
        ensures
            r == self@.contains_key(*key),
    {
        self.get(key).is_some()
    }

    /// Number of pairs held.
    pub fn len(&self) -> (r: usize)
        requires
            self.wf(),
        ensures
            r == self@.len(),
            r == self.spec_shape().size(),
    {
        proof {
            self.lemma_len();
        }
        self.curr_size
    }

    /// The map holds one pair per node.
    proof fn lemma_len(&self)
        requires
            self.wf_links(),
        ensures
            self@.len() == self.curr_size,
            self@.dom().finite(),
    {
        lemma_map_size(self.slots(), self.shape@);
    }

    /// Whether no pair is held.
    pub fn is_empty(&self) -> (r: bool)
        requires
            self.wf(),
        ensures
            r == (self@.len() == 0),
    {
        proof {
            self.lemma_len();
        }
        self.opt_root_idx.is_none()
    }

    /// Total capacity, the most pairs the tree can hold.
    pub fn capacity(&self) -> (r: usize)
        ensures
            r == N,
    {
        self.arena.capacity()
    }

    /// Whether the tree holds `N` pairs.
    pub fn is_full(&self) -> (r: bool)
        requires
            self.wf(),
        ensures
            r == (self@.len() == N),
    {
        proof {
            self.lemma_len();
        }
        self.curr_size == self.capacity()
    }

    /// The rebalance factor, as `(numerator, denominator)`.
    pub fn rebal_param(&self) -> (r: (u32, u32))
        ensures
            r == self.alpha(),
    {
        (self.alpha_num, self.alpha_denom)
    }

    /// Sets the rebalance factor alpha to `alpha_num / alpha_denom`; it must
    /// lie in `[0.5, 1.0)`.
    pub fn set_rebal_param(&mut self, alpha_num: u32, alpha_denom: u32) -> (r: Result<(), SgError>)
        requires
            old(self).wf(),
        ensures
            final(self).wf(),
            final(self)@ == old(self)@,
            final(self).spec_entries() == old(self).spec_entries(),
            alpha_ok(alpha_num, alpha_denom) ==> r is Ok && final(self).alpha() == (alpha_num, alpha_denom),
            !alpha_ok(alpha_num, alpha_denom) ==> r == Err::<(), SgError>(SgError::RebalanceFactorOutOfRange)
                && final(self).alpha() == old(self).alpha(),
    {
        if 0 < alpha_num && alpha_num < alpha_denom && (alpha_denom as u64) <= 2 * (alpha_num as u64) {
            self.alpha_num = alpha_num;
            self.alpha_denom = alpha_denom;
            self.restore_height_bound();
            Ok(())
        } else {
            Err(SgError::RebalanceFactorOutOfRange)
        }
    }

    /// Number of rebuilds so far; wraps around.
    pub fn rebal_cnt(&self) -> (r: usize)
        ensures
            r == self.rebal_count(),
    {
        self.rebal_cnt
    }

    /// Sorted insert without rebalancing. Overwrites key and value if `key`
    /// is held, else attaches a new leaf. Records the indices of the nodes
    /// passed in `path`, root first. Returns the old value and the node's index.
    fn priv_insert(&mut self, path: &mut Vec<usize>, key: K, val: V) -> (r: (Option<V>, usize))
        requires
            old(self).wf(),
            old(path)@.len() == 0,
            old(self)@.contains_key(key) || old(self)@.len() < N,
        ensures
            final(self).wf_links(),
            final(self).extremes_ok(),
            final(self).hw_ok(),
            old(self)@.contains_key(key) ==> final(self).height_bounded(),
            final(self).spec_shape().height() <= old(self).spec_shape().height()
                || final(self).spec_shape().height() <= final(path)@.len() + 1,
            final(self)@ == old(self)@.insert(key, val),
            r.0 == (if old(self)@.contains_key(key) { Some(old(self)@[key]) } else { None::<V> }),
            final(self).alpha() == old(self).alpha(),
            final(self).high_water() == old(self).high_water() + (if old(self)@.contains_key(key) { 0nat } else { 1nat }),
            forall|m: int| 0 <= m < final(path)@.len() ==> final(self).spec_shape().idxs().contains(#[trigger] final(path)@[m]),
            final(path)@ == path_to(old(self).slots(), old(self).spec_shape(), key),
            final(self).spec_shape().idxs().contains(r.1),
            final(self).rebal_count() == old(self).rebal_count(),
            old(self)@.contains_key(key) ==> r.1 == old(self).slot_of(key).unwrap()
                && final(self).spec_shape() == old(self).spec_shape(),
            !old(self)@.contains_key(key) ==> final(self).spec_shape() == replace_at(old(self).slots(),
                old(self).spec_shape(), key, Shape::Branch(r.1, Box::new(Shape::Leaf), Box::new(Shape::Leaf))),
    {
        let ghost s = self.slots();
        let ghost sh = self.shape@;
        proof {
            self.lemma_wf_facts();
            self.lemma_len();
            lemma_search(s, sh, key, None);
            lemma_good_slots(s, sh);
        }
        let mut found = false;
        let mut go_right = false;
        let mut curr_idx: usize = 0;
        let ghost mut sub = sh;
        let ghost mut acc: Option<(usize, bool)> = None;
        proof {
            assert(path@ + path_to(s, sh, key) =~= path_to(s, sh, key));
        }
        if let Some(root_idx) = self.opt_root_idx {
            curr_idx = root_idx;
            loop
                invariant_except_break
                    sub.root() == Some(curr_idx),
                    !found,
                invariant
                    self.wf(),
                    s == self.slots(),
                    sh == self.shape@,
                    good(s, sub),
                    forall|x: usize| #[trigger] sub.idxs().contains(x) ==> sh.idxs().contains(x),
                    sub_at(s, sh, key) == sub_at(s, sub, key),
                    parent_at(s, sh, key, None) == parent_at(s, sub, key, acc),
                    forall|m: int| 0 <= m < path@.len() ==> sh.idxs().contains(#[trigger] path@[m]),
                    path@ + path_to(s, sub, key) == path_to(s, sh, key),
                ensures
                    found ==> sub.root() == Some(curr_idx) && key_of(s, curr_idx) == key && sub_at(s, sub, key) == sub
                        && parent_at(s, sub, key, acc) == acc,
                    !found ==> sub is Leaf && acc == Some((curr_idx, go_right)) && sh.idxs().contains(curr_idx),
                decreases sub.size(),
            {
                proof {
                    lemma_good_slots(s, sub);
                    assert(sub.idxs().contains(curr_idx));
                }
                let node = self.arena.get(curr_idx);
                let ghost l = match sub { Shape::Branch(_, l, _) => *l, _ => sub };
                let ghost r = match sub { Shape::Branch(_, _, r) => *r, _ => sub };
                proof {
                    assert forall|x: usize| #[trigger] l.idxs().contains(x) implies sh.idxs().contains(x) by {
                        assert(sub.idxs().contains(x));
                    }
                    assert forall|x: usize| #[trigger] r.idxs().contains(x) implies sh.idxs().contains(x) by {
                        assert(sub.idxs().contains(x));
                    }
                }
                match key.compare(node.key()) {
                    Ordering::Less => {
                        path.push(curr_idx);
                        proof {
                            assert(path@ + path_to(s, l, key) =~= path_to(s, sh, key));
                        }
                        match node.left_idx() {
                            Some(lt_idx) => {
                                proof {
                                    acc = Some((curr_idx, false));
                                    sub = l;
                                }
                                curr_idx = lt_idx;
                            },
                            None => {
                                go_right = false;
                                proof {
                                    acc = Some((curr_idx, false));
                                    sub = l;
                                }
                                break;
                            },
                        }
                    },
                    Ordering::Equal => {
                        found = true;
                        break;
                    },
                    Ordering::Greater => {
                        path.push(curr_idx);
                        proof {
                            assert(path@ + path_to(s, r, key) =~= path_to(s, sh, key));
                        }
                        match node.right_idx() {
                            Some(gt_idx) => {
                                proof {
                                    acc = Some((curr_idx, true));
                                    sub = r;
                                }
                                curr_idx = gt_idx;
                            },
                            None => {
                                go_right = true;
                                proof {
                                    acc = Some((curr_idx, true));
                                    sub = r;
                                }
                                break;
                            },
                        }
                    },
                }
            }
        }
        if found {
            // Same key: overwrite key and value in place, shape unchanged.
            let old_val = self.arena.replace_entry(curr_idx, key, val);
            proof {
                let s2 = self.slots();
                lemma_overwrite_root(s, s2, sub, val);
                let p = parent_at(s, sh, key, None);
                if p is Some {
                    lemma_with_own_child(s[p.unwrap().0 as int].unwrap(), p.unwrap().1);
                }
                assert forall|x: usize| #[trigger] sub.idxs().contains(x) implies sh.idxs().contains(x) by {}
                lemma_good_slots(s, sub);
                assert forall|x: usize| #[trigger] sub.idxs().contains(x) implies
                    as_map(s, sub_at(s, sh, key)).contains_key(key_of(s2, x)) || key_of(s2, x) == key by {}
                lemma_replace(s, s2, sh, key, sub, None);
                assert(replace_at(s, sh, key, sub) == sh) by {
                    lemma_replace_same(s, sh, key);
                }
                assert(as_map(s2, sh) =~= as_map(s, sh).insert(key, val));
                lemma_occupied_update(s, curr_idx as int, s2[curr_idx as int]);
                assert forall|x: usize| #[trigger] sh.idxs().contains(x) implies rank_of(s2, x) == rank_of(s, x) by {
                    if x == curr_idx {
                    } else {
                        assert(s2[x as int] == s[x as int]);
                    }
                }
            }
            (Some(old_val), curr_idx)
        } else {
            let is_new_min = self.opt_root_idx.is_none() || {
                proof {
                    assert(sh.idxs().contains(self.min_idx));
                }
                matches!(key.compare(self.arena.get(self.min_idx).key()), Ordering::Less)
            };
            let is_new_max = self.opt_root_idx.is_none() || {
                proof {
                    assert(sh.idxs().contains(self.max_idx));
                }
                matches!(key.compare(self.arena.get(self.max_idx).key()), Ordering::Greater)
            };
            let ghost s0 = self.slots();
            proof {
                self.arena.lemma_wf();
                assert(!old(self)@.contains_key(key));
            }
            let new_idx = self.arena.add(key, val);
            let ghost s1 = self.slots();
            proof {
                self.arena.lemma_wf();
                if old(self).arena.free().len() > 0 {
                    let f = old(self).arena.free();
                    assert(f[f.len() - 1] == new_idx);
                    assert(s0[new_idx as int] is None);
                    lemma_occupied_update(s0, new_idx as int, s1[new_idx as int]);
                } else {
                    lemma_occupied_push(s0, s1[new_idx as int]);
                }
                assert(!sh.idxs().contains(new_idx));
            }
            match self.opt_root_idx {
                None => {
                    self.opt_root_idx = Some(new_idx);
                },
                Some(_) => {
                    proof {
                        assert(curr_idx != new_idx);
                        assert(s1[curr_idx as int] == s[curr_idx as int]);
                    }
                    if go_right {
                        self.arena.set_right(curr_idx, Some(new_idx));
                    } else {
                        self.arena.set_left(curr_idx, Some(new_idx));
                    }
                    proof {
                        lemma_occupied_update(s1, curr_idx as int, self.slots()[curr_idx as int]);
                    }
                },
            }
            if is_new_min {
                self.min_idx = new_idx;
            }
            if is_new_max {
                self.max_idx = new_idx;
            }
            self.curr_size = self.curr_size + 1;
            self.max_size = self.max_size + 1;
            proof {
                let s2 = self.slots();
                let leaf = Shape::Branch(new_idx, Box::new(Shape::Leaf), Box::new(Shape::Leaf));
                assert(leaf.idxs() =~= set![new_idx]) by {
                    assert(Shape::Leaf.idxs() =~= Set::<usize>::empty());
                }
                assert(Shape::Leaf.idxs() =~= Set::<usize>::empty());
                assert(s2[new_idx as int] == Some(Node::<K, V> { key, val, left_idx: None, right_idx: None }));
                assert(good(s2, Shape::Leaf));
                assert(good(s2, leaf));
                assert(sub_at(s, sh, key) == Shape::Leaf);
                assert(as_map(s, Shape::Leaf) =~= Map::<K, V>::empty());
                assert forall|x: usize| #[trigger] sh.idxs().contains(x) && x != curr_idx implies x < s2.len() && s2[x as int] == s[x as int] by {}
                lemma_replace(s, s2, sh, key, leaf, None);
                let ns = replace_at(s, sh, key, leaf);
                lemma_replace_height(s, sh, key, leaf);
                assert(Shape::Leaf.height() == 0);
                assert(leaf.height() == 1);
                self.shape = Ghost(ns);
                assert(as_map(s2, leaf) =~= Map::<K, V>::empty().insert(key, val)) by {
                    assert(as_map(s2, Shape::Leaf) =~= Map::<K, V>::empty());
                }
                assert(as_map(s2, ns) =~= as_map(s, sh).insert(key, val));
                assert(ns.idxs() =~= sh.idxs().insert(new_idx));
                assert forall|x: usize| x < s2.len() implies (#[trigger] s2[x as int] is Some <==> ns.idxs().contains(x)) by {
                    if x != new_idx && x != curr_idx {
                        assert(s2[x as int] == s[x as int]);
                    }
                }
                assert forall|x: usize| #[trigger] sh.idxs().contains(x) implies rank_of(s2, x) == rank_of(s, x) by {
                    if x == curr_idx {
                    } else {
                        assert(s2[x as int] == s[x as int]);
                    }
                }
                assert(rank_of(s2, new_idx) == key.rank());
            }
            (None, new_idx)
        }
    }

    /// In-order walk of the subtree `t` rooted at `start`, with an explicit
    /// stack of ancestors: the subtree's indices in ascending key order.
    fn inorder_idxs(&self, start: Option<usize>, Ghost(t): Ghost<Shape>) -> (r: Vec<usize>)
        requires
            self.wf_links(),
            good(self.slots(), t),
            t.root() == start,
        ensures
            r@ == t.inorder(),
    {
        let ghost s = self.slots();
        let mut out: Vec<usize> = Vec::new();
        let mut stack: Vec<usize> = Vec::new();
        let mut cur = start;
        let ghost mut cur_t = t;
        let ghost mut gs: Seq<Shape> = Seq::empty();
        proof {
            assert(out@ + cur_t.inorder() + pending(gs) =~= t.inorder());
            lemma_inorder_idxs(t);
        }
        loop
            invariant
                s == self.slots(),
                good(s, cur_t),
                cur == cur_t.root(),
                stack@.len() == gs.len(),
                forall|m: int| 0 <= m < gs.len() ==> (#[trigger] gs[m]) is Branch && good(s, gs[m])
                    && gs[m].root() == Some(stack@[m]),
                out@ + cur_t.inorder() + pending(gs) == t.inorder(),
            ensures
                out@ == t.inorder(),
            decreases cur_t.inorder().len() + pending(gs).len(), cur_t.size(),
        {
            proof {
                lemma_inorder_idxs(cur_t);
                lemma_good_slots(s, cur_t);
            }
            match cur {
                Some(c) => {
                    proof {
                        assert(cur_t.idxs().contains(c));
                    }
                    let node = self.arena.get(c);
                    let next = node.left_idx();
                    stack.push(c);
                    proof {
                        let l = match cur_t { Shape::Branch(_, l, _) => *l, _ => cur_t };
                        let old_gs = gs;
                        gs = gs.push(cur_t);
                        assert(gs.drop_last() =~= old_gs);
                        assert(out@ + l.inorder() + pending(gs) =~= out@ + cur_t.inorder() + pending(old_gs));
                        cur_t = l;
                        lemma_inorder_idxs(l);
                    }
                    cur = next;
                },
                None => {
                    match stack.pop() {
                        Some(i) => {
                            proof {
                                assert(gs.len() > 0);
                                let g = gs.last();
                                assert(good(s, g));
                                lemma_good_slots(s, g);
                                assert(g.idxs().contains(i));
                            }
                            let node = self.arena.get(i);
                            let next = node.right_idx();
                            out.push(i);
                            proof {
                                let g = gs.last();
                                let r = match g { Shape::Branch(_, _, r) => *r, _ => g };
                                let old_gs = gs;
                                gs = gs.drop_last();
                                assert(cur_t.inorder() =~= Seq::<usize>::empty());
                                assert(out@ + r.inorder() + pending(gs) =~= out@.drop_last() + cur_t.inorder() + pending(old_gs));
                                cur_t = r;
                            }
                            cur = next;
                        },
                        None => {
                            proof {
                                assert(gs.len() == 0);
                                assert(out@ =~= t.inorder());
                            }
                            break;
                        },
                    }
                },
            }
        }
        out
    }

    /// Sorted insert, then a rebalance where the new node lies too deep.
    /// Returns the old value, if any, and the index of the node.
    fn priv_balancing_insert(&mut self, key: K, val: V) -> (r: (Option<V>, usize))
        requires
            old(self).wf(),
            old(self)@.contains_key(key) || old(self)@.len() < N,
        ensures
            final(self).wf(),
            final(self)@ == old(self)@.insert(key, val),
            r.0 == (if old(self)@.contains_key(key) { Some(old(self)@[key]) } else { None::<V> }),
            final(self).alpha() == old(self).alpha(),
            (old(self)@.contains_key(key) || old(self)@.len() < N) ==> final(self).high_water()
                == old(self).high_water() + (if old(self)@.contains_key(key) { 0nat } else { 1nat }),
            old(self)@.contains_key(key) ==> final(self).rebal_count() == old(self).rebal_count()
                && final(self).spec_shape() == old(self).spec_shape(),
    {
        let mut path: Vec<usize> = Vec::new();
        let r = self.priv_insert(&mut path, key, val);
        let is_new = r.0.is_none();
        proof {
            self.lemma_wf_facts();
        }
        // The new leaf lies too deep when its path, the leaf included, holds
        // more nodes than floor(log_{1/alpha}) of the previous high-water mark.
        if is_new {
            let depth = self.alpha_balance_depth(self.max_size - 1);
            if (path.len() as u64) >= depth {
                if let Some(scapegoat_idx) = self.find_scapegoat(&path) {
                    proof {
                        let q = choose|q: int| 0 <= q < path@.len() && Some(scapegoat_idx) == Some(#[trigger] path@[q]);
                    }
                    self.rebuild(scapegoat_idx);
                }
                self.restore_height_bound();
            } else {
                proof {
                    let hw0 = (self.max_size - 1) as int;
                    let num = self.alpha_num as int;
                    let denom = self.alpha_denom as int;
                    let l = path@.len();
                    let h0 = old(self).spec_shape().height();
                    let h = self.shape@.height();
                    if h > 0 {
                        if h <= h0 {
                            lemma_fits_lower((h - 1) as nat, (h0 - 1) as nat, hw0, num, denom);
                        } else {
                            lemma_fits_lower((h - 1) as nat, depth as nat, hw0, num, denom);
                        }
                        lemma_fits_grow((h - 1) as nat, hw0, self.max_size as int, num);
                    }
                }
            }
        }
        r
    }

    /// Inserts a pair. Returns the value previously held for `key`, if any;
    /// then both the stored key and value are replaced.
    pub fn insert(&mut self, key: K, val: V) -> (r: Option<V>)
        requires
            old(self).wf(),
            old(self)@.contains_key(key) || old(self)@.len() < N,
        ensures
            final(self).wf(),
            final(self)@ == old(self)@.insert(key, val),
            r == (if old(self)@.contains_key(key) { Some(old(self)@[key]) } else { None::<V> }),
            final(self).alpha() == old(self).alpha(),
            (old(self)@.contains_key(key) || old(self)@.len() < N) ==> final(self).high_water()
                == old(self).high_water() + (if old(self)@.contains_key(key) { 0nat } else { 1nat }),
            old(self)@.contains_key(key) ==> final(self).rebal_count() == old(self).rebal_count()
                && final(self).spec_shape() == old(self).spec_shape(),
    {
        self.priv_balancing_insert(key, val).0
    }

    /// Inserts a pair if `key` is held or there is room. Returns the value
    /// previously held for `key`, if any, or `StackCapacityExceeded` when the
    /// tree is full and `key` is new (then nothing changes).
    pub fn try_insert(&mut self, key: K, val: V) -> (r: Result<Option<V>, SgError>)
        requires
            old(self).wf(),
        ensures
            final(self).wf(),
            final(self).alpha() == old(self).alpha(),
            (old(self)@.contains_key(key) || old(self)@.len() < N) ==> final(self).high_water()
                == old(self).high_water() + (if old(self)@.contains_key(key) { 0nat } else { 1nat }),
            (old(self)@.contains_key(key) || old(self)@.len() < N) ==> {
                &&& final(self)@ == old(self)@.insert(key, val)
                &&& r == Ok::<Option<V>, SgError>(if old(self)@.contains_key(key) { Some(old(self)@[key]) } else { None::<V> })
            },
            old(self)@.contains_key(key) ==> final(self).rebal_count() == old(self).rebal_count()
                && final(self).spec_shape() == old(self).spec_shape(),
            !(old(self)@.contains_key(key) || old(self)@.len() < N) ==> {
                &&& r == Err::<Option<V>, SgError>(SgError::StackCapacityExceeded)
                &&& final(self)@ == old(self)@
                &&& final(self).spec_entries() == old(self).spec_entries()
            },
    {
        if self.contains_key(&key) || self.len() < self.capacity() {
            Ok(self.priv_balancing_insert(key, val).0)
        } else {
            Err(SgError::StackCapacityExceeded)
        }
    }

    /// `floor(log_{denom/num}(val))` for the rebalance factor `num/denom`: the
    /// largest `d` with `denom^d <= val * num^d`. The search stops early only
    /// where `val * num^(d+1)` would exceed `POW_CAP`.
    fn alpha_balance_depth(&self, val: usize) -> (d: u64)
        requires
            alpha_ok(self.alpha_num, self.alpha_denom),
            val <= 2 * MAX_IDX,
        ensures
            val == 0 ==> d == 0,
            val >= 1 ==> ipow(self.alpha_denom as int, d as nat) <= val * ipow(self.alpha_num as int, d as nat),
            val >= 1 ==> ipow(self.alpha_denom as int, d as nat + 1) > val * ipow(self.alpha_num as int, d as nat + 1)
                || val * ipow(self.alpha_num as int, d as nat + 1) > POW_CAP,
    {
        let num = self.alpha_num as u128;
        let denom = self.alpha_denom as u128;
        if val == 0 {
            return 0;
        }
        let mut d: u64 = 0;
        // `pd` and `pn` are `denom^(d+1)` and `val * num^(d+1)`.
        let mut pd: u128 = denom;
        proof {
            lemma_mul_le(val as int, num as int, 2 * MAX_IDX, 0xffff_ffff);
            assert(ipow(denom as int, 1) == denom * ipow(denom as int, 0));
            assert(ipow(num as int, 1) == num * ipow(num as int, 0));
        }
        let mut pn: u128 = (val as u128) * num;
        while pd <= pn && pn <= POW_CAP
            invariant
                num == self.alpha_num,
                denom == self.alpha_denom,
                alpha_ok(self.alpha_num, self.alpha_denom),
                1 <= val <= 2 * MAX_IDX,
                pd == ipow(denom as int, d as nat + 1),
                pn == val * ipow(num as int, d as nat + 1),
                ipow(denom as int, d as nat) <= val * ipow(num as int, d as nat),
                d < pd,
            decreases u128::MAX - pd,
        {
            proof {
                lemma_pow_step(pd, pn, denom, num, val as u128);
                assert(ipow(denom as int, d as nat + 2) == denom * ipow(denom as int, d as nat + 1));
                assert(ipow(num as int, d as nat + 2) == num * ipow(num as int, d as nat + 1));
                lemma_mul_regroup(val as int, num as int, ipow(num as int, d as nat + 1));
            }
            d = d + 1;
            pd = pd * denom;
            pn = pn * num;
        }
        d
    }

    /// Number of nodes in the subtree rooted at `idx`.
    fn get_subtree_size(&self, idx: usize) -> (r: usize)
        requires
            self.wf_links(),
            self.spec_shape().idxs().contains(idx),
        ensures
            r == subtree_size(self.slots(), self.spec_shape(), idx),
            r <= self.spec_shape().size(),
    {
        proof {
            lemma_sub_at_own_key(self.slots(), self.shape@, idx);
            lemma_search(self.slots(), self.shape@, key_of(self.slots(), idx), None);
            lemma_inorder_idxs(sub_at(self.slots(), self.shape@, key_of(self.slots(), idx)));
        }
        self.flatten_subtree_to_sorted_idxs(idx).len()
    }

    /// Walks the insertion path upward from the new leaf's parent to the
    /// first alpha-weight-unbalanced node, or to the root: the scapegoat.
    fn find_scapegoat(&self, path: &Vec<usize>) -> (r: Option<usize>)
        requires
            self.wf_links(),
            forall|m: int| 0 <= m < path@.len() ==> self.spec_shape().idxs().contains(#[trigger] path@[m]),
        ensures
            path@.len() <= 1 ==> r is None,
            path@.len() > 1 ==> exists|q: int| 0 <= q < path@.len() && r == Some(#[trigger] path@[q])
                && (q == 0 || unbalanced_at(self.slots(), self.spec_shape(), path@, q, self.alpha_num, self.alpha_denom))
                && forall|q2: int| q < q2 < path@.len() ==> !#[trigger] unbalanced_at(self.slots(), self.spec_shape(), path@, q2, self.alpha_num, self.alpha_denom),
    {
        if path.len() <= 1 {
            return None;
        }
        let ghost s = self.slots();
        let ghost sh = self.shape@;
        proof {
            self.lemma_wf_facts();
        }
        let num = self.alpha_num as u64;
        let denom = self.alpha_denom as u64;
        let ghost p = path@;
        let mut node_subtree_size: usize = 1;
        let mut parent_path_idx: usize = path.len() - 1;
        let mut parent_subtree_size = self.get_subtree_size(path[parent_path_idx]);
        proof {
            lemma_mul_le(denom as int, node_subtree_size as int, 0xffff_ffff, MAX_IDX as int);
            lemma_mul_le(num as int, parent_subtree_size as int, 0xffff_ffff, MAX_IDX as int);
        }
        while parent_path_idx > 0 && denom * (node_subtree_size as u64) <= num * (parent_subtree_size as u64)
            invariant
                self.wf_links(),
                s == self.slots(),
                sh == self.shape@,
                num == self.alpha_num,
                denom == self.alpha_denom,
                self.curr_size <= N <= MAX_IDX,
                forall|m: int| 0 <= m < path@.len() ==> sh.idxs().contains(#[trigger] path@[m]),
                0 <= parent_path_idx < path@.len(),
                node_subtree_size == below_size(s, sh, path@, parent_path_idx as int),
                node_subtree_size <= MAX_IDX,
                p == path@,
                denom * node_subtree_size <= 0xffff_ffff * MAX_IDX,
                num * parent_subtree_size <= 0xffff_ffff * MAX_IDX,
                parent_subtree_size == subtree_size(s, sh, path@[parent_path_idx as int]),
                parent_subtree_size <= MAX_IDX,
                forall|q2: int| parent_path_idx < q2 < path@.len() ==> !#[trigger] unbalanced_at(s, sh, path@, q2, num as u32, denom as u32),
            decreases parent_path_idx,
        {
            proof {
                lemma_mul_le(denom as int, node_subtree_size as int, 0xffff_ffff, MAX_IDX as int);
                lemma_mul_le(num as int, parent_subtree_size as int, 0xffff_ffff, MAX_IDX as int);
                assert(!unbalanced_at(s, sh, path@, parent_path_idx as int, num as u32, denom as u32));
            }
            node_subtree_size = parent_subtree_size;
            parent_path_idx = parent_path_idx - 1;
            parent_subtree_size = self.get_subtree_size(path[parent_path_idx]);
            proof {
                lemma_mul_le(denom as int, node_subtree_size as int, 0xffff_ffff, MAX_IDX as int);
                lemma_mul_le(num as int, parent_subtree_size as int, 0xffff_ffff, MAX_IDX as int);
            }
        }
        proof {
            let q = parent_path_idx as int;
            assert(num as u32 == self.alpha_num);
            assert(denom as u32 == self.alpha_denom);
            assert(q == 0 || unbalanced_at(s, sh, p, q, self.alpha_num, self.alpha_denom));
            assert(0 <= q < p.len() && Some(path@[parent_path_idx as int]) == Some(p[q]));
        }
        Some(path[parent_path_idx])
    }

    /// Index of the least key: follows left links from the root.
    fn leftmost_idx(&self) -> (r: usize)
        requires
            self.wf_links(),
            self.spec_shape() is Branch,
        ensures
            self.spec_shape().idxs().contains(r),
            forall|x: usize| #[trigger] self.spec_shape().idxs().contains(x) ==> rank_of(self.slots(), r) <= rank_of(self.slots(), x),
    {
        let ghost s = self.slots();
        let ghost sh = self.shape@;
        let mut curr_idx = self.opt_root_idx.unwrap();
        let ghost mut cur_t = sh;
        loop
            invariant
                self.wf_links(),
                s == self.slots(),
                sh == self.shape@,
                good(s, cur_t),
                cur_t.root() == Some(curr_idx),
                forall|x: usize| #[trigger] cur_t.idxs().contains(x) ==> sh.idxs().contains(x),
                forall|x: usize| #[trigger] sh.idxs().contains(x) ==> cur_t.idxs().contains(x) || rank_of(s, x) > rank_of(s, curr_idx),
            ensures
                sh.idxs().contains(curr_idx),
                forall|x: usize| #[trigger] sh.idxs().contains(x) ==> rank_of(s, curr_idx) <= rank_of(s, x),
            decreases cur_t.size(),
        {
            proof {
                lemma_good_slots(s, cur_t);
                assert(cur_t.idxs().contains(curr_idx));
            }
            let node = self.arena.get(curr_idx);
            match node.left_idx() {
                Some(lt_idx) => {
                    proof {
                        let l = match cur_t { Shape::Branch(_, l, _) => *l, _ => cur_t };
                        assert(l.idxs().contains(lt_idx));
                        assert forall|x: usize| #[trigger] l.idxs().contains(x) implies sh.idxs().contains(x) by {
                            assert(cur_t.idxs().contains(x));
                        }
                        assert forall|x: usize| #[trigger] sh.idxs().contains(x) implies l.idxs().contains(x) || rank_of(s, x) > rank_of(s, lt_idx) by {
                            assert(rank_of(s, lt_idx) < rank_of(s, curr_idx));
                            if !l.idxs().contains(x) && cur_t.idxs().contains(x) && x != curr_idx {
                                let r = match cur_t { Shape::Branch(_, _, r) => *r, _ => cur_t };
                                assert(r.idxs().contains(x));
                            }
                        }
                        cur_t = l;
                    }
                    curr_idx = lt_idx;
                },
                None => {
                    proof {
                        assert forall|x: usize| #[trigger] sh.idxs().contains(x) implies rank_of(s, curr_idx) <= rank_of(s, x) by {
                            if cur_t.idxs().contains(x) && x != curr_idx {
                                let r = match cur_t { Shape::Branch(_, _, r) => *r, _ => cur_t };
                                let l = match cur_t { Shape::Branch(_, l, _) => *l, _ => cur_t };
                                assert(l is Leaf);
                                assert(l.idxs() =~= Set::<usize>::empty());
                                assert(r.idxs().contains(x));
                            }
                        }
                    }
                    break;
                },
            }
        }
        curr_idx
    }

    /// Index of the greatest key: follows right links from the root.
    fn rightmost_idx(&self) -> (r: usize)
        requires
            self.wf_links(),
            self.spec_shape() is Branch,
        ensures
            self.spec_shape().idxs().contains(r),
            forall|x: usize| #[trigger] self.spec_shape().idxs().contains(x) ==> rank_of(self.slots(), x) <= rank_of(self.slots(), r),
    {
        let ghost s = self.slots();
        let ghost sh = self.shape@;
        let mut curr_idx = self.opt_root_idx.unwrap();
        let ghost mut cur_t = sh;
        loop
            invariant
                self.wf_links(),
                s == self.slots(),
                sh == self.shape@,
                good(s, cur_t),
                cur_t.root() == Some(curr_idx),
                forall|x: usize| #[trigger] cur_t.idxs().contains(x) ==> sh.idxs().contains(x),
                forall|x: usize| #[trigger] sh.idxs().contains(x) ==> cur_t.idxs().contains(x) || rank_of(s, x) < rank_of(s, curr_idx),
            ensures
                sh.idxs().contains(curr_idx),
                forall|x: usize| #[trigger] sh.idxs().contains(x) ==> rank_of(s, x) <= rank_of(s, curr_idx),
            decreases cur_t.size(),
        {
            proof {
                lemma_good_slots(s, cur_t);
                assert(cur_t.idxs().contains(curr_idx));
            }
            let node = self.arena.get(curr_idx);
            match node.right_idx() {
                Some(gt_idx) => {
                    proof {
                        let r = match cur_t { Shape::Branch(_, _, r) => *r, _ => cur_t };
                        assert(r.idxs().contains(gt_idx));
                        assert forall|x: usize| #[trigger] r.idxs().contains(x) implies sh.idxs().contains(x) by {
                            assert(cur_t.idxs().contains(x));
                        }
                        assert forall|x: usize| #[trigger] sh.idxs().contains(x) implies r.idxs().contains(x) || rank_of(s, x) < rank_of(s, gt_idx) by {
                            assert(rank_of(s, gt_idx) > rank_of(s, curr_idx));
                            if !r.idxs().contains(x) && cur_t.idxs().contains(x) && x != curr_idx {
                                let l = match cur_t { Shape::Branch(_, l, _) => *l, _ => cur_t };
                                assert(l.idxs().contains(x));
                            }
                        }
                        cur_t = r;
                    }
                    curr_idx = gt_idx;
                },
                None => {
                    proof {
                        assert forall|x: usize| #[trigger] sh.idxs().contains(x) implies rank_of(s, x) <= rank_of(s, curr_idx) by {
                            if cur_t.idxs().contains(x) && x != curr_idx {
                                let r = match cur_t { Shape::Branch(_, _, r) => *r, _ => cur_t };
                                let l = match cur_t { Shape::Branch(_, l, _) => *l, _ => cur_t };
                                assert(r is Leaf);
                                assert(r.idxs() =~= Set::<usize>::empty());
                                assert(l.idxs().contains(x));
                            }
                        }
                    }
                    break;
                },
            }
        }
        curr_idx
    }

    /// Removes `key`'s node by relinking: a node with two children is
    /// replaced by its in-order successor, unlinked from its own parent and
    /// linked in with the removed node's children. Frees the slot and
    /// refreshes the cached extremes; no rebalancing.
    #[verifier::rlimit(100)]
    fn priv_remove(&mut self, ngh: NodeGetHelper, Ghost(key): Ghost<K>) -> (r: Option<(K, V)>)
        requires
            old(self).wf(),
            ngh.spec_node_idx() == sub_at(old(self).slots(), old(self).spec_shape(), key).root(),
            ngh.spec_node_idx() is Some ==> {
                let p = parent_at(old(self).slots(), old(self).spec_shape(), key, None);
                &&& ngh.spec_parent_idx() == (match p { Some(q) => Some(q.0), None => None::<usize> })
                &&& ngh.spec_is_right_child() == (match p { Some(q) => q.1, None => false })
            },
        ensures
            final(self).wf_links(),
            final(self).extremes_ok(),
            final(self)@ == old(self)@.remove(key),
            final(self).max_size == old(self).max_size,
            final(self).alpha() == old(self).alpha(),
            old(self)@.contains_key(key) ==> final(self).spec_shape().idxs() == old(self).spec_shape().idxs().remove(
                sub_at(old(self).slots(), old(self).spec_shape(), key).root().unwrap()),
            !old(self)@.contains_key(key) ==> final(self).spec_shape().idxs() == old(self).spec_shape().idxs(),
            forall|x: usize| #[trigger] final(self).spec_shape().idxs().contains(x) ==> key_of(final(self).slots(), x) == key_of(old(self).slots(), x),
            old(self)@.contains_key(key) ==> r == Some((key, old(self)@[key]))
                && final(self).curr_size + 1 == old(self).curr_size,
            !old(self)@.contains_key(key) ==> r is None && final(self).curr_size == old(self).curr_size
                && final(self).spec_entries() == old(self).spec_entries()
                && final(self).spec_free() == old(self).spec_free(),
            old(self)@.contains_key(key) ==> final(self).spec_shape() == replace_at(old(self).slots(),
                old(self).spec_shape(), key, remove_root(sub_at(old(self).slots(), old(self).spec_shape(), key)))
                && final(self).spec_free() == old(self).spec_free().push(old(self).slot_of(key).unwrap()),
            final(self).rebal_count() == old(self).rebal_count(),
            final(self).spec_shape().height() <= old(self).spec_shape().height(),
    {
        let ghost s = self.slots();
        let ghost sh = self.shape@;
        let ghost t = sub_at(s, sh, key);
        proof {
            self.lemma_wf_facts();
            lemma_search(s, sh, key, None);
            lemma_good_slots(s, sh);
            lemma_good_slots(s, t);
            self.arena.lemma_wf();
        }
        let node_idx = match ngh.node_idx() {
            None => {
                return None;
            },
            Some(i) => i,
        };
        let ghost tl = match t { Shape::Branch(_, l, _) => *l, _ => t };
        let ghost tr = match t { Shape::Branch(_, _, r) => *r, _ => t };
        proof {
            assert(t.idxs().contains(node_idx));
            assert(t == Shape::Branch(node_idx, Box::new(tl), Box::new(tr)));
            assert(good(s, tl));
            assert(good(s, tr));
            assert(!tl.idxs().contains(node_idx));
            assert(!tr.idxs().contains(node_idx));
            assert forall|x: usize| #[trigger] tr.idxs().contains(x) implies t.idxs().contains(x) && !tl.idxs().contains(x) by {
                if tl.idxs().contains(x) {
                    assert(rank_of(s, x) < rank_of(s, node_idx) && rank_of(s, node_idx) < rank_of(s, x));
                }
            }
            assert forall|x: usize| #[trigger] tl.idxs().contains(x) implies t.idxs().contains(x) by {}
        }
        let node = self.arena.get(node_idx);
        let left = node.left_idx();
        let mut right = node.right_idx();
        let new_child: Option<usize>;
        if left.is_some() && right.is_some() {
            let right_idx = right.unwrap();
            let mut min_idx = right_idx;
            let mut min_parent_idx = node_idx;
            let ghost mut cur = tr;
            let ghost mut par: Option<usize> = None;
            proof {
                lemma_good_slots(s, tr);
            }
            loop
                invariant
                    self.wf_links(),
                    s == self.slots(),
                    good(s, cur),
                    cur.root() == Some(min_idx),
                    forall|x: usize| #[trigger] cur.idxs().contains(x) ==> tr.idxs().contains(x),
                    min_split(tr).0 == min_split(cur).0,
                    min_split(tr).2 == (match min_split(cur).2 { Some(x) => Some(x), None => par }),
                    par is None <==> min_parent_idx == node_idx,
                    par is Some ==> par == Some(min_parent_idx) && tr.idxs().contains(min_parent_idx)
                        && rank_of(s, min_idx) < rank_of(s, min_parent_idx),
                    !tr.idxs().contains(node_idx),
                    tr.idxs().contains(min_idx),
                ensures
                    tr.idxs().contains(min_idx),
                    par is Some ==> rank_of(s, min_idx) < rank_of(s, par.unwrap()),
                    min_split(tr).0 == min_idx,
                    min_split(tr).2 == par,
                    s[min_idx as int].unwrap().left() is None,
                decreases cur.size(),
            {
                proof {
                    lemma_good_slots(s, cur);
                    assert(cur.idxs().contains(min_idx));
                    lemma_min_split_shape(cur);
                }
                let mn = self.arena.get(min_idx);
                match mn.left_idx() {
                    Some(lt_idx) => {
                        proof {
                            let l = match cur { Shape::Branch(_, l, _) => *l, _ => cur };
                            assert(l.idxs().contains(lt_idx));
                            assert forall|x: usize| #[trigger] l.idxs().contains(x) implies tr.idxs().contains(x) by {
                                assert(cur.idxs().contains(x));
                            }
                            assert(rank_of(s, lt_idx) < rank_of(s, min_idx));
                            par = Some(min_idx);
                            cur = l;
                        }
                        min_parent_idx = min_idx;
                        min_idx = lt_idx;
                    },
                    None => {
                        break;
                    },
                }
            }
            proof {
                lemma_good_slots(s, tr);
                lemma_min_split_shape(tr);

            }
            let unlink_new_child = self.arena.get(min_idx).right_idx();
            let ghost s_a0 = self.slots();
            if min_parent_idx == node_idx {
                right = unlink_new_child;
            } else {
                self.arena.set_left(min_parent_idx, unlink_new_child);
            }
            let ghost s_a = self.slots();
            self.arena.set_right(min_idx, right);
            let ghost s_b = self.slots();
            self.arena.set_left(min_idx, left);
            new_child = Some(min_idx);
            proof {
                let s_c = self.slots();
                let (m, r2, mp) = min_split(tr);
                assert(tr.idxs().contains(m));
                assert(m != node_idx);
                if mp is Some {
                    assert(mp.unwrap() != m);
                    assert(s_a == s.update(mp.unwrap() as int, Some(s[mp.unwrap() as int].unwrap().with_left(s[m as int].unwrap().right()))));
                    assert(right == tr.root());
                    assert(r2.root() == tr.root());
                } else {
                    assert(s_a == s);
                    assert(m == tr.root().unwrap());
                    match tr {
                        Shape::Branch(_, _, rr) => {
                            assert(r2 == *rr);
                            assert(s[m as int].unwrap().right() == rr.root());
                        },
                        _ => {},
                    }
                    assert(right == s[m as int].unwrap().right());
                    assert(r2.root() == s[m as int].unwrap().right());
                }
                assert(s_a[m as int] == s[m as int]);
                assert(left == tl.root());
                assert(s_c[m as int] == Some(s[m as int].unwrap().with_right(r2.root()).with_left(tl.root())));
                assert forall|x: usize| #[trigger] t.idxs().contains(x) && x != node_idx && x != m
                    && (mp is None || x != mp.unwrap()) implies s_c[x as int] == s[x as int] by {}
                if mp is Some {
                    assert(s_c[mp.unwrap() as int] == s_a[mp.unwrap() as int]);
                }
                assert(!(tr is Leaf || tl is Leaf));
                lemma_remove_root(s, s_c, t);
            }
        } else {
            if left.is_some() {
                new_child = left;
            } else {
                new_child = right;
            }
            proof {
                lemma_remove_root(s, s, t);
            }
        }
        let ghost s_c = self.slots();
        let ghost nt = remove_root(t);
        proof {
            assert(nt.root() == new_child);
        }
        let ghost pp = parent_at(s, sh, key, None);
        match ngh.parent_idx() {
            Some(p) => {
                proof {
                    assert(pp is Some && pp.unwrap().0 == p);
                    assert(sh.idxs().contains(p) && !t.idxs().contains(p));
                    assert(s_c[p as int] == s[p as int]);
                }
                if ngh.is_right_child() {
                    self.arena.set_right(p, new_child);
                } else {
                    self.arena.set_left(p, new_child);
                }
            },
            None => {
                self.opt_root_idx = new_child;
            },
        }
        let ghost s_p = self.slots();
        proof {
            self.arena.lemma_wf();
            assert(s_p[node_idx as int] is Some) by {
                assert(s_c[node_idx as int] == s[node_idx as int]);
            }
        }
        let removed = self.arena.remove(node_idx);
        self.curr_size = self.curr_size - 1;
        proof {
            let s_f = self.slots();
            lemma_good_slots(s_c, nt);
            assert(forall|x: usize| #[trigger] nt.idxs().contains(x) ==> t.idxs().contains(x) && x != node_idx);
            assert forall|x: usize| #[trigger] nt.idxs().contains(x) implies x < s_p.len() && s_p[x as int] == s_c[x as int] by {}
            lemma_frame(s_c, s_p, nt);
            assert forall|x: usize| #[trigger] nt.idxs().contains(x) implies
                as_map(s, sub_at(s, sh, key)).contains_key(key_of(s_p, x)) || key_of(s_p, x) == key by {
                assert(t.idxs().contains(x));
            }
            assert forall|x: usize| #[trigger] sh.idxs().contains(x) && !t.idxs().contains(x)
                && (pp is None || x != pp.unwrap().0) implies x < s_p.len() && s_p[x as int] == s[x as int] by {}
            lemma_replace(s, s_p, sh, key, nt, None);
            let ns = replace_at(s, sh, key, nt);
            assert(ns.idxs() =~= sh.idxs().remove(node_idx));
            assert forall|x: usize| #[trigger] ns.idxs().contains(x) implies x < s_f.len() && s_f[x as int] == s_p[x as int] by {}
            lemma_frame(s_p, s_f, ns);
            assert(as_map(s_f, ns) =~= as_map(s, sh).remove(key));
            // occupancy and counts
            assert forall|x: usize| x < s_f.len() implies (#[trigger] s_f[x as int] is Some <==> ns.idxs().contains(x)) by {
                if x != node_idx {
                    assert(s_f[x as int] is Some <==> s[x as int] is Some);
                }
            }
            assert forall|q: int| 0 <= q < s_p.len() implies (#[trigger] s_p[q] is Some <==> s[q] is Some) by {
                assert(s_p[q] is Some <==> s[q as usize as int] is Some);
            }
            lemma_occupied_same(s, s_p);
            lemma_occupied_update(s_p, node_idx as int, None);
            assert(s_f =~= s_p.update(node_idx as int, None));
            // keys carried over
            assert forall|x: usize| #[trigger] ns.idxs().contains(x) implies key_of(s_f, x) == key_of(s, x) by {
                if t.idxs().contains(x) {
                } else if pp is Some && x == pp.unwrap().0 {
                } else {
                    assert(s_p[x as int] == s[x as int]);
                }
            }
            lemma_remove_root_height(t);
            lemma_replace_height(s, sh, key, nt);
            self.shape = Ghost(ns);
            lemma_good_slots(s_f, ns);
        }
        if self.opt_root_idx.is_some() {
            if node_idx == self.min_idx {
                self.min_idx = self.leftmost_idx();
            }
            if node_idx == self.max_idx {
                self.max_idx = self.rightmost_idx();
            }
        }
        proof {
            self.lemma_len();
        }
        match removed {
            Some(n) => Some((n.key, n.val)),
            None => None,
        }
    }

    /// Removes `key`, returning the stored key and value if it was held.
    /// Afterwards, if the high-water mark exceeds twice the size, the whole
    /// tree is rebuilt and the mark reset to the size.
    pub fn remove_entry(&mut self, key: &K) -> (r: Option<(K, V)>)
        requires
            old(self).wf(),
        ensures
            final(self).wf(),
            final(self)@ == old(self)@.remove(*key),
            final(self).alpha() == old(self).alpha(),
            r == if old(self)@.contains_key(*key) { Some((*key, old(self)@[*key])) } else { None },
            old(self)@.contains_key(*key) ==> old(self).slot_of(*key) is Some
                && final(self).spec_free() == old(self).spec_free().push(old(self).slot_of(*key).unwrap()),
            !old(self)@.contains_key(*key) ==> final(self).spec_free() == old(self).spec_free(),
    {
        let ngh = self.priv_get(key);
        self.remove_found(ngh, Ghost(*key))
    }

    /// Removes the node a lookup of `key` found, then restores the
    /// high-water bound.
    fn remove_found(&mut self, ngh: NodeGetHelper, Ghost(key): Ghost<K>) -> (r: Option<(K, V)>)
        requires
            old(self).wf(),
            ngh.spec_node_idx() == sub_at(old(self).slots(), old(self).spec_shape(), key).root(),
            ngh.spec_node_idx() is Some ==> {
                let p = parent_at(old(self).slots(), old(self).spec_shape(), key, None);
                &&& ngh.spec_parent_idx() == (match p { Some(q) => Some(q.0), None => None::<usize> })
                &&& ngh.spec_is_right_child() == (match p { Some(q) => q.1, None => false })
            },
        ensures
            final(self).wf(),
            final(self)@ == old(self)@.remove(key),
            final(self).alpha() == old(self).alpha(),
            r == if old(self)@.contains_key(key) { Some((key, old(self)@[key])) } else { None },
            old(self)@.contains_key(key) ==> final(self).spec_shape().idxs() == old(self).spec_shape().idxs().remove(
                sub_at(old(self).slots(), old(self).spec_shape(), key).root().unwrap()),
            !old(self)@.contains_key(key) ==> final(self).spec_shape().idxs() == old(self).spec_shape().idxs(),
            forall|x: usize| #[trigger] final(self).spec_shape().idxs().contains(x) ==> key_of(final(self).slots(), x) == key_of(old(self).slots(), x),
            old(self)@.contains_key(key) ==> old(self).slot_of(key) is Some
                && final(self).spec_free() == old(self).spec_free().push(old(self).slot_of(key).unwrap()),
            !old(self)@.contains_key(key) ==> final(self).spec_free() == old(self).spec_free(),
    {
        proof {
            lemma_search(self.slots(), self.shape@, key, None);
        }
        match self.priv_remove(ngh, Ghost(key)) {
            Some((k, v)) => {
                proof {
                    self.lemma_wf_facts();
                }
                let ghost h0 = old(self).spec_shape().height();
                if self.max_size > 2 * self.curr_size {
                    if self.opt_root_idx.is_some() {
                        self.rebuild_all();
                        proof {
                            lemma_balanced_fits(self.shape@.height(), self.shape@.size(), self.curr_size as nat,
                                self.alpha_num, self.alpha_denom);
                        }
                    }
                    self.max_size = self.curr_size;
                } else {
                    proof {
                        let h = self.shape@.height();
                        if h > 0 {
                            lemma_fits_lower((h - 1) as nat, (h0 - 1) as nat, self.max_size as int,
                                self.alpha_num as int, self.alpha_denom as int);
                        }
                    }
                }
                Some((k, v))
            },
            None => {
                proof {
                    let h = self.shape@.height();
                    let h0 = old(self).spec_shape().height();
                    if h > 0 {
                        lemma_fits_lower((h - 1) as nat, (h0 - 1) as nat, self.max_size as int,
                            self.alpha_num as int, self.alpha_denom as int);
                    }
                }
                None
            },
        }
    }

    /// Removes `key`, returning its value if it was held.
    pub fn remove(&mut self, key: &K) -> (r: Option<V>)
        requires
            old(self).wf(),
        ensures
            final(self).wf(),
            final(self)@ == old(self)@.remove(*key),
            final(self).alpha() == old(self).alpha(),
            r == if old(self)@.contains_key(*key) { Some(old(self)@[*key]) } else { None },
    {
        match self.remove_entry(key) {
            Some((_, v)) => Some(v),
            None => None,
        }
    }

    /// The least key and its value, if any.
    pub fn first_key_value(&self) -> (r: Option<(&K, &V)>)
        requires
            self.wf(),
        ensures
            self@.len() == 0 <==> r is None,
            r matches Some((k, v)) ==> self@.contains_key(*k) && self@[*k] == *v
                && forall|q: K| #[trigger] self@.contains_key(q) ==> k.rank() <= q.rank(),
    {
        proof {
            self.lemma_len();
            self.lemma_extremes();
        }
        if self.opt_root_idx.is_some() {
            let node = self.arena.get(self.min_idx);
            Some((&node.key, &node.val))
        } else {
            None
        }
    }

    /// The greatest key and its value, if any.
    pub fn last_key_value(&self) -> (r: Option<(&K, &V)>)
        requires
            self.wf(),
        ensures
            self@.len() == 0 <==> r is None,
            r matches Some((k, v)) ==> self@.contains_key(*k) && self@[*k] == *v
                && forall|q: K| #[trigger] self@.contains_key(q) ==> q.rank() <= k.rank(),
    {
        proof {
            self.lemma_len();
            self.lemma_extremes();
        }
        if self.opt_root_idx.is_some() {
            let node = self.arena.get(self.max_idx);
            Some((&node.key, &node.val))
        } else {
            None
        }
    }

    /// The least key, if any.
    pub fn first_key(&self) -> (r: Option<&K>)
        requires
            self.wf(),
        ensures
            self@.len() == 0 <==> r is None,
            r matches Some(k) ==> self@.contains_key(*k) && forall|q: K| #[trigger] self@.contains_key(q) ==> k.rank() <= q.rank(),
    {
        match self.first_key_value() {
            Some((k, _)) => Some(k),
            None => None,
        }
    }

    /// The greatest key, if any.
    pub fn last_key(&self) -> (r: Option<&K>)
        requires
            self.wf(),
        ensures
            self@.len() == 0 <==> r is None,
            r matches Some(k) ==> self@.contains_key(*k) && forall|q: K| #[trigger] self@.contains_key(q) ==> q.rank() <= k.rank(),
    {
        match self.last_key_value() {
            Some((k, _)) => Some(k),
            None => None,
        }
    }

    /// Removes and returns the pair with the least key.
    pub fn pop_first(&mut self) -> (r: Option<(K, V)>)
        requires
            old(self).wf(),
        ensures
            final(self).wf(),
            final(self).alpha() == old(self).alpha(),
            old(self)@.len() == 0 <==> r is None,
            r matches Some((k, v)) ==> old(self)@.contains_key(k) && old(self)@[k] == v
                && final(self)@ == old(self)@.remove(k)
                && forall|q: K| #[trigger] old(self)@.contains_key(q) ==> k.rank() <= q.rank(),
            r is None ==> final(self)@ == old(self)@,
    {
        proof {
            self.lemma_len();
            self.lemma_extremes();
        }
        if self.opt_root_idx.is_none() {
            return None;
        }
        let ghost k = key_of(self.slots(), self.min_idx);
        let ngh = self.priv_get(&self.arena.get(self.min_idx).key);
        self.remove_found(ngh, Ghost(k))
    }

    /// Removes and returns the pair with the greatest key.
    pub fn pop_last(&mut self) -> (r: Option<(K, V)>)
        requires
            old(self).wf(),
        ensures
            final(self).wf(),
            final(self).alpha() == old(self).alpha(),
            old(self)@.len() == 0 <==> r is None,
            r matches Some((k, v)) ==> old(self)@.contains_key(k) && old(self)@[k] == v
                && final(self)@ == old(self)@.remove(k)
                && forall|q: K| #[trigger] old(self)@.contains_key(q) ==> q.rank() <= k.rank(),
            r is None ==> final(self)@ == old(self)@,
    {
        proof {
            self.lemma_len();
            self.lemma_extremes();
        }
        if self.opt_root_idx.is_none() {
            return None;
        }
        let ghost k = key_of(self.slots(), self.max_idx);
        let ngh = self.priv_get(&self.arena.get(self.max_idx).key);
        self.remove_found(ngh, Ghost(k))
    }

    /// The cached extremes hold the least and greatest keys of the map.
    proof fn lemma_extremes(&self)
        requires
            self.wf(),
        ensures
            self.spec_shape() is Branch ==> {
                &&& self.min_idx < self.slots().len() && self.slots()[self.min_idx as int] is Some
                &&& self.max_idx < self.slots().len() && self.slots()[self.max_idx as int] is Some
                &&& self@.contains_key(key_of(self.slots(), self.min_idx))
                &&& self@[key_of(self.slots(), self.min_idx)] == val_of(self.slots(), self.min_idx)
                &&& self@.contains_key(key_of(self.slots(), self.max_idx))
                &&& self@[key_of(self.slots(), self.max_idx)] == val_of(self.slots(), self.max_idx)
                &&& forall|q: K| #[trigger] self@.contains_key(q) ==> rank_of(self.slots(), self.min_idx) <= q.rank()
                    && q.rank() <= rank_of(self.slots(), self.max_idx)
            },
            self.spec_shape() is Leaf <==> self.opt_root_idx is None,
    {
        let s = self.slots();
        let sh = self.shape@;
        lemma_good_slots(s, sh);
        if sh is Branch {
            assert forall|q: K| #[trigger] self@.contains_key(q) implies rank_of(s, self.min_idx) <= q.rank()
                && q.rank() <= rank_of(s, self.max_idx) by {
                let x = choose|x: usize| #[trigger] sh.idxs().contains(x) && key_of(s, x) == q;
            }
        }
    }

    /// Consumes the tree: its pairs in ascending key order, each moved out
    /// of its slot.
    pub fn into_iter(self) -> (r: Vec<(K, V)>)
        requires
            self.wf(),
        ensures
            r@ == self.spec_entries(),
    {
        let ghost s = self.slots();
        let ghost sh = self.shape@;
        let idxs = self.inorder_idxs(self.opt_root_idx, Ghost(self.shape@));
        let mut arena = self.arena;
        let mut out: Vec<(K, V)> = Vec::new();
        let mut m: usize = 0;
        proof {
            lemma_inorder_idxs(sh);
            lemma_inorder_sorted(s, sh);
            lemma_good_slots(s, sh);
        }
        while m < idxs.len()
            invariant
                arena.wf(),
                arena.slots().len() == s.len(),
                idxs@ == sh.inorder(),
                idxs@.no_duplicates(),
                forall|x: usize| #[trigger] sh.idxs().contains(x) ==> x < s.len() && s[x as int] is Some,
                forall|x: usize| sh.idxs().contains(x) <==> #[trigger] sh.inorder().contains(x),
                m <= idxs@.len(),
                forall|q: int| m <= q < idxs@.len() ==> arena.slots()[#[trigger] idxs@[q] as int] == s[idxs@[q] as int],
                out@ == entries(s, sh).subrange(0, m as int),
            decreases idxs@.len() - m,
        {
            let idx = idxs[m];
            proof {
                assert(sh.inorder().contains(idx));
            }
            let ghost before = arena.slots();
            proof {
                assert(before[idx as int] == s[idx as int]);
            }
            let taken = arena.remove(idx);
            proof {
                assert forall|q: int| m + 1 <= q < idxs@.len() implies arena.slots()[#[trigger] idxs@[q] as int] == s[idxs@[q] as int] by {
                    assert(idxs@[q] != idx);
                    assert(sh.inorder().contains(idxs@[q]));
                    assert(before[idxs@[q] as int] == s[idxs@[q] as int]);
                }
            }
            match taken {
                Some(n) => {
                    out.push((n.key, n.val));
                },
                None => {},
            }
            proof {
                assert(out@ =~= entries(s, sh).subrange(0, m + 1));
            }
            m = m + 1;
        }
        proof {
            lemma_inorder_idxs(sh);
            assert(out@ =~= entries(s, sh));
        }
        out
    }

    /// Keeps only the pairs for which `f` returns `true`.
    pub fn retain<F: Fn(&K, &V) -> bool>(&mut self, f: F)
        requires
            old(self).wf(),
            forall|k: &K, v: &V| f.requires((k, v)),
        ensures
            final(self).wf(),
            final(self).alpha() == old(self).alpha(),
            forall|k: K| #[trigger] final(self)@.contains_key(k) ==> old(self)@.contains_key(k)
                && final(self)@[k] == old(self)@[k] && f.ensures((&k, &old(self)@[k]), true),
            forall|k: K| #[trigger] old(self)@.contains_key(k) && !final(self)@.contains_key(k)
                ==> f.ensures((&k, &old(self)@[k]), false),
    {
        let ghost s0 = self.slots();
        let ghost sh0 = self.shape@;
        let ghost m0 = self@;
        let idxs = self.inorder_idxs(self.opt_root_idx, Ghost(self.shape@));
        proof {
            lemma_inorder_idxs(sh0);
            lemma_inorder_sorted(s0, sh0);
            lemma_good_slots(s0, sh0);
        }
        let mut doomed: Vec<usize> = Vec::new();
        let mut m: usize = 0;
        while m < idxs.len()
            invariant
                self.wf(),
                s0 == self.slots(),
                sh0 == self.spec_shape(),
                idxs@ == sh0.inorder(),
                idxs@.no_duplicates(),
                forall|x: usize| sh0.idxs().contains(x) <==> #[trigger] sh0.inorder().contains(x),
                forall|x: usize| #[trigger] sh0.idxs().contains(x) ==> x < s0.len() && s0[x as int] is Some,
                forall|k: &K, v: &V| f.requires((k, v)),
                m <= idxs@.len(),
                doomed@.no_duplicates(),
                forall|q: int| 0 <= q < doomed@.len() ==> sh0.idxs().contains(#[trigger] doomed@[q])
                    && f.ensures((&key_of(s0, doomed@[q]), &val_of(s0, doomed@[q])), false),
                forall|q: int| 0 <= q < doomed@.len() ==> exists|p: int| 0 <= p < m && idxs@[p] == #[trigger] doomed@[q],
                forall|p: int| 0 <= p < m && !doomed@.contains(#[trigger] idxs@[p])
                    ==> f.ensures((&key_of(s0, idxs@[p]), &val_of(s0, idxs@[p])), true),
            decreases idxs@.len() - m,
        {
            let idx = idxs[m];
            proof {
                assert(sh0.inorder().contains(idx));
            }
            let node = self.arena.get(idx);
            let keep = f(&node.key, &node.val);
            let ghost d_old = doomed@;
            if !keep {
                proof {
                    assert(!doomed@.contains(idx)) by {
                        if doomed@.contains(idx) {
                            let q = choose|q: int| 0 <= q < doomed@.len() && doomed@[q] == idx;
                            let p = choose|p: int| 0 <= p < m && idxs@[p] == #[trigger] doomed@[q];
                        }
                    }
                }
                doomed.push(idx);
            }
            proof {
                assert forall|q: int| 0 <= q < doomed@.len() implies exists|p: int| 0 <= p < m + 1 && idxs@[p] == #[trigger] doomed@[q] by {
                    if doomed@[q] == idx {
                        assert(idxs@[m as int] == idx);
                    } else {
                        let p = choose|p: int| 0 <= p < m && idxs@[p] == #[trigger] doomed@[q];
                    }
                }
                assert forall|p: int| 0 <= p < m + 1 && !doomed@.contains(#[trigger] idxs@[p])
                    implies f.ensures((&key_of(s0, idxs@[p]), &val_of(s0, idxs@[p])), true) by {
                    if p == m {
                        if !keep {
                            assert(doomed@[doomed@.len() - 1] == idx);
                            assert(doomed@.contains(idx));
                        }
                        assert(node.key == key_of(s0, idx) && node.val == val_of(s0, idx));
                    } else {
                        if d_old.contains(idxs@[p]) {
                            let q = choose|q: int| 0 <= q < d_old.len() && d_old[q] == idxs@[p];
                            assert(doomed@[q] == idxs@[p]);
                        }
                    }
                }
            }
            m = m + 1;
        }
        let ghost mut gone = Set::new(|k: K| exists|q: int| 0 <= q < 0 && key_of(s0, doomed@[q]) == k);
        let mut j: usize = 0;
        proof {
            assert(m0.remove_keys(gone) =~= m0);
        }
        while j < doomed.len()
            invariant
                self.wf(),
                self.alpha() == old(self).alpha(),
                doomed@.no_duplicates(),
                forall|q: int| 0 <= q < doomed@.len() ==> sh0.idxs().contains(#[trigger] doomed@[q]),
                forall|x: usize| #[trigger] sh0.idxs().contains(x) ==> x < s0.len() && s0[x as int] is Some,
                good(s0, sh0),
                m0 == as_map(s0, sh0),
                j <= doomed@.len(),
                idxs@ == sh0.inorder(),
                forall|x: usize| sh0.idxs().contains(x) <==> #[trigger] sh0.inorder().contains(x),
                forall|q: int| 0 <= q < doomed@.len() ==> f.ensures((&key_of(s0, #[trigger] doomed@[q]), &val_of(s0, doomed@[q])), false),
                forall|p: int| 0 <= p < idxs@.len() && !doomed@.contains(#[trigger] idxs@[p])
                    ==> f.ensures((&key_of(s0, idxs@[p]), &val_of(s0, idxs@[p])), true),
                gone == Set::new(|k: K| exists|q: int| 0 <= q < j && key_of(s0, doomed@[q]) == k),
                self@ == m0.remove_keys(gone),
                forall|x: usize| #[trigger] self.spec_shape().idxs().contains(x) <==> sh0.idxs().contains(x)
                    && !(exists|q: int| 0 <= q < j && #[trigger] doomed@[q] == x),
                forall|x: usize| #[trigger] self.spec_shape().idxs().contains(x) ==> key_of(self.slots(), x) == key_of(s0, x),
            decreases doomed@.len() - j,
        {
            let d = doomed[j];
            let ghost kd = key_of(s0, d);
            proof {
                assert(sh0.idxs().contains(d));
                assert(!(exists|q: int| 0 <= q < j && #[trigger] doomed@[q] == d)) by {
                    if exists|q: int| 0 <= q < j && #[trigger] doomed@[q] == d {
                        let q = choose|q: int| 0 <= q < j && #[trigger] doomed@[q] == d;
                        assert(doomed@[j as int] == d);
                    }
                }
                assert(self.spec_shape().idxs().contains(d));
                self.lemma_wf_facts();
                lemma_sub_at_own_key(self.slots(), self.spec_shape(), d);
                lemma_search(self.slots(), self.spec_shape(), kd, None);
                lemma_good_slots(self.slots(), self.spec_shape());
            }
            let ngh = self.priv_get(&self.arena.get(d).key);
            let ghost prev = self@;
            let ghost prev_idxs = self.spec_shape().idxs();
            self.remove_found(ngh, Ghost(kd));
            proof {
                let new_gone = Set::new(|k: K| exists|q: int| 0 <= q < j + 1 && key_of(s0, doomed@[q]) == k);
                assert(new_gone =~= gone.insert(kd)) by {
                    assert forall|k: K| new_gone.contains(k) implies gone.insert(kd).contains(k) by {
                        let q = choose|q: int| 0 <= q < j + 1 && key_of(s0, doomed@[q]) == k;
                        if q < j {
                            assert(gone.contains(k));
                        }
                    }
                    assert forall|k: K| gone.insert(kd).contains(k) implies new_gone.contains(k) by {
                        if k == kd {
                            assert(key_of(s0, doomed@[j as int]) == k);
                        } else {
                            let q = choose|q: int| 0 <= q < j && key_of(s0, doomed@[q]) == k;
                        }
                    }
                }
                assert(self@ =~= m0.remove_keys(new_gone));
                assert forall|x: usize| #[trigger] self.spec_shape().idxs().contains(x) <==> sh0.idxs().contains(x)
                    && !(exists|q: int| 0 <= q < j + 1 && #[trigger] doomed@[q] == x) by {
                    if x == d {
                        assert(doomed@[j as int] == x);
                    }
                    if exists|q: int| 0 <= q < j + 1 && #[trigger] doomed@[q] == x {
                        let q = choose|q: int| 0 <= q < j + 1 && #[trigger] doomed@[q] == x;
                        if q < j {
                            assert(exists|q2: int| 0 <= q2 < j && #[trigger] doomed@[q2] == x);
                        }
                    }
                }
                gone = new_gone;
            }
            j = j + 1;
        }
        proof {
            lemma_good_slots(s0, sh0);
            assert forall|k: K| #[trigger] self@.contains_key(k) implies old(self)@.contains_key(k)
                && self@[k] == old(self)@[k] && f.ensures((&k, &old(self)@[k]), true) by {
                let x = choose|x: usize| #[trigger] sh0.idxs().contains(x) && key_of(s0, x) == k;
                assert(sh0.inorder().contains(x));
                let p = choose|p: int| 0 <= p < idxs@.len() && idxs@[p] == x;
                if doomed@.contains(x) {
                    let q = choose|q: int| 0 <= q < doomed@.len() && doomed@[q] == x;
                    assert(gone.contains(k));
                }
            }
            assert forall|k: K| #[trigger] old(self)@.contains_key(k) && !self@.contains_key(k)
                implies f.ensures((&k, &old(self)@[k]), false) by {
                assert(gone.contains(k));
                let q = choose|q: int| 0 <= q < doomed@.len() && key_of(s0, doomed@[q]) == k;
                assert(sh0.idxs().contains(doomed@[q]));
            }
        }
    }

    /// Removes all pairs; the rebalance factor and the rebuild count are kept.
    pub fn clear(&mut self)
        requires
            old(self).wf(),
        ensures
            final(self).wf(),
            final(self)@ == Map::<K, V>::empty(),
            final(self).alpha() == old(self).alpha(),
            final(self).rebal_count() == old(self).rebal_count(),
    {
        proof {
            self.lemma_wf_facts();
        }
        let rebal_cnt = self.rebal_cnt;
        let alpha_num = self.alpha_num;
        let alpha_denom = self.alpha_denom;
        *self = SgTree::new();
        self.rebal_cnt = rebal_cnt;
        self.alpha_num = alpha_num;
        self.alpha_denom = alpha_denom;
    }

    /// Physically sorts the arena: the node with the `m`-th least key moves
    /// to slot `m`, child links follow, and the empty slots come last.
    pub fn sort_arena(&mut self)
        requires
            old(self).wf(),
        ensures
            final(self).wf(),
            final(self)@ == old(self)@,
            final(self).spec_entries() == old(self).spec_entries(),
            final(self).alpha() == old(self).alpha(),
            final(self).high_water() == old(self).high_water(),
            final(self).slots() == sorted_layout(old(self).slots(), old(self).spec_shape().inorder()),
            final(self).spec_free() == sorted_free(old(self).slots().len(), old(self).spec_shape().size()),
            final(self).spec_shape().inorder() == Seq::new(old(self).spec_shape().size(), |m: int| m as usize),
            final(self).spec_root() == moved(old(self).spec_shape().inorder(), old(self).spec_root()),
            old(self).spec_shape().size() > 0 ==> final(self).spec_min_idx() == 0
                && final(self).spec_max_idx() == old(self).spec_shape().size() - 1,
            final(self).rebal_count() == old(self).rebal_count(),
    {
        let ghost s = self.slots();
        let ghost sh = self.shape@;
        let order = self.inorder_idxs(self.opt_root_idx, Ghost(self.shape@));
        proof {
            self.lemma_wf_facts();
            self.arena.lemma_wf();
            lemma_inorder_idxs(sh);
            lemma_inorder_sorted(s, sh);
            lemma_good_slots(s, sh);
            lemma_children_in(s, sh);
            assert forall|x: usize| x < s.len() && #[trigger] s[x as int] is Some implies order@.contains(x) by {
                assert(sh.idxs().contains(x));
            }
            assert forall|m: int| 0 <= m < order@.len() implies #[trigger] order@[m] < s.len() && s[order@[m] as int] is Some by {
                assert(sh.inorder().contains(order@[m]));
            }
            assert forall|m: int| 0 <= m < order@.len() implies {
                let n = #[trigger] s[order@[m] as int].unwrap();
                &&& (n.left() is Some ==> order@.contains(n.left().unwrap()))
                &&& (n.right() is Some ==> order@.contains(n.right().unwrap()))
            } by {
                assert(sh.inorder().contains(order@[m]));
                assert(sh.idxs().contains(order@[m]));
            }
        }
        let n = order.len();
        let mut new_root: Option<usize> = None;
        proof {
            assert(n == order@.len());
        }
        if let Some(root_idx) = self.opt_root_idx {
            let mut p: usize = 0;
            proof {
                assert(sh.idxs().contains(root_idx));
                assert(order@.contains(root_idx));
            }
            while order[p] != root_idx
                invariant
                    order@.contains(root_idx),
                    n == order@.len(),
                    p < n,
                    forall|q: int| 0 <= q < p ==> order@[q] != root_idx,
                decreases order@.len() - p,
            {
                p = p + 1;
                proof {
                    if p >= order@.len() {
                        let q = choose|q: int| 0 <= q < order@.len() && order@[q] == root_idx;
                    }
                }
            }
            new_root = Some(p);
        }
        self.arena.sort(&order);
        self.opt_root_idx = new_root;
        if n > 0 {
            self.min_idx = 0;
            self.max_idx = n - 1;
        }
        proof {
            let s2 = self.slots();
            let ns = relabel_shape(sh, order@);
            lemma_sorted_tree(s, sh, s2);
            if let Some(root_idx) = sh.root() {
                assert(order@[new_root.unwrap() as int] == root_idx);
                assert(pos_of(order@, root_idx) == new_root.unwrap());
            }
            self.arena.lemma_wf();
            lemma_relabel_height(sh, order@);
            self.shape = Ghost(ns);
        }
    }

    /// Splits the tree at `key`: returns a new tree (default rebalance
    /// factor) with every pair whose key is at least `key`; the rest stay.
    pub fn split_off(&mut self, key: &K) -> (r: Self)
        requires
            old(self).wf(),
        ensures
            final(self).wf(),
            r.wf(),
            final(self).alpha() == old(self).alpha(),
            forall|q: K| #[trigger] final(self)@.contains_key(q) <==> old(self)@.contains_key(q) && q.rank() < key.rank(),
            forall|q: K| #[trigger] r@.contains_key(q) <==> old(self)@.contains_key(q) && q.rank() >= key.rank(),
            forall|q: K| #[trigger] final(self)@.contains_key(q) ==> final(self)@[q] == old(self)@[q],
            forall|q: K| #[trigger] r@.contains_key(q) ==> r@[q] == old(self)@[q],
    {
        proof {
            self.lemma_wf_facts();
            self.lemma_len();
        }
        let ghost m0 = self@;
        let mut other: Self = SgTree::new();
        proof {
            other.lemma_len();
        }
        loop
            invariant
                self.wf(),
                other.wf(),
                self.alpha() == old(self).alpha(),
                m0 == old(self)@,
                m0.dom().finite(),
                m0.len() <= N,
                self@.dom().finite(),
                other@.dom().finite(),
                self@.len() + other@.len() == m0.len(),
                forall|q: K| #[trigger] self@.contains_key(q) ==> m0.contains_key(q) && self@[q] == m0[q],
                forall|q: K| #[trigger] other@.contains_key(q) ==> m0.contains_key(q) && other@[q] == m0[q]
                    && q.rank() >= key.rank() && !self@.contains_key(q),
                forall|q: K| #[trigger] m0.contains_key(q) ==> self@.contains_key(q) || other@.contains_key(q),
            ensures
                forall|q: K| #[trigger] self@.contains_key(q) ==> q.rank() < key.rank(),
            decreases self@.len(),
        {
            let go = match self.last_key() {
                Some(k) => !matches!(k.compare(key), Ordering::Less),
                None => false,
            };
            if !go {
                proof {
                    self.lemma_len();
                    assert forall|q: K| #[trigger] self@.contains_key(q) implies q.rank() < key.rank() by {
                        let k = choose|k: K| self@.contains_key(k) && forall|q2: K| #[trigger] self@.contains_key(q2) ==> q2.rank() <= k.rank();
                    }
                }
                break;
            }
            let ghost before = self@;
            let ghost other_before = other@;
            let popped = self.pop_last();
            match popped {
                Some((k, v)) => {
                    proof {
                        other.lemma_len();
                        self.lemma_len();
                        assert(!other_before.contains_key(k));
                        assert(self@.len() + 1 == before.len()) by {
                            assert(self@.dom() =~= before.dom().remove(k));
                        }
                        assert(other@.len() < N);
                    }
                    other.insert(k, v);
                    proof {
                        other.lemma_len();
                        assert(other@.dom() =~= other_before.dom().insert(k));
                    }
                },
                None => {
                    break;
                },
            }
        }
        other
    }

    /// Moves every pair of `other` into this tree, leaving `other` empty;
    /// for a key in both, `other`'s pair wins. The union must fit.
    pub fn append(&mut self, other: &mut Self)
        requires
            old(self).wf(),
            old(other).wf(),
            old(self)@.union_prefer_right(old(other)@).len() <= N,
        ensures
            final(self).wf(),
            final(other).wf(),
            final(self)@ == old(self)@.union_prefer_right(old(other)@),
            final(other)@ == Map::<K, V>::empty(),
            final(self).alpha() == old(self).alpha(),
    {
        let ghost s0 = self@;
        let ghost o0 = other@;
        let ghost u = s0.union_prefer_right(o0);
        proof {
            self.lemma_len();
            other.lemma_len();
            assert(u.dom() =~= s0.dom().union(o0.dom()));
            assert(s0.union_prefer_right(o0.remove_keys(other@.dom())) =~= s0);
        }
        loop
            invariant
                self.wf(),
                other.wf(),
                self.alpha() == old(self).alpha(),
                u == s0.union_prefer_right(o0),
                u.dom().finite(),
                u.len() <= N,
                self@ == s0.union_prefer_right(o0.remove_keys(other@.dom())),
                forall|q: K| #[trigger] other@.contains_key(q) ==> o0.contains_key(q) && other@[q] == o0[q],
            ensures
                other@ == Map::<K, V>::empty(),
            decreases other@.len(),
        {
            proof {
                other.lemma_len();
                self.lemma_len();
            }
            let ghost before = other@;
            match other.pop_first() {
                Some((k, v)) => {
                    proof {
                        other.lemma_len();
                        assert(other@.len() < before.len()) by {
                            assert(other@.dom() =~= before.dom().remove(k));
                        }
                        if !self@.contains_key(k) {
                            assert(self@.dom().subset_of(u.dom().remove(k)));
                            vstd::set_lib::lemma_len_subset(self@.dom(), u.dom().remove(k));
                        }
                    }
                    self.insert(k, v);
                    proof {
                        assert(self@ =~= s0.union_prefer_right(o0.remove_keys(other@.dom())));
                    }
                },
                None => {
                    proof {
                        other.lemma_len();
                        assert(other@.dom() =~= Set::<K>::empty());
                        assert(other@ =~= Map::<K, V>::empty());
                    }
                    break;
                },
            }
        }
        proof {
            assert(o0.remove_keys(Set::<K>::empty()) =~= o0);
            assert(other@.dom() =~= Set::<K>::empty());
        }
    }

    /// Number of nodes on the longest path down from `idx`, the root of `t`.
    fn subtree_height(&self, idx: Option<usize>, Ghost(t): Ghost<Shape>) -> (r: usize)
        requires
            self.wf_links(),
            good(self.slots(), t),
            t.root() == idx,
            t.size() <= MAX_IDX,
        ensures
            r == t.height(),
        decreases t,
    {
        match idx {
            None => 0,
            Some(i) => {
                proof {
                    lemma_good_slots(self.slots(), t);
                    assert(t.idxs().contains(i));
                    lemma_height_le_size(t);
                }
                let node = self.arena.get(i);
                let ghost l = match t { Shape::Branch(_, l, _) => *l, _ => t };
                let ghost r = match t { Shape::Branch(_, _, r) => *r, _ => t };
                let hl = self.subtree_height(node.left_idx(), Ghost(l));
                let hr = self.subtree_height(node.right_idx(), Ghost(r));
                proof {
                    lemma_height_le_size(l);
                    lemma_height_le_size(r);
                }
                if hl >= hr {
                    hl + 1
                } else {
                    hr + 1
                }
            },
        }
    }

    /// Number of nodes on the longest root-to-leaf path.
    pub fn height(&self) -> (r: usize)
        requires
            self.wf(),
        ensures
            r == self.spec_shape().height(),
    {
        proof {
            self.lemma_wf_facts();
        }
        self.subtree_height(self.opt_root_idx, Ghost(self.shape@))
    }

    /// Makes a new, empty tree, or reports a capacity beyond what an arena
    /// index can address.
    pub fn try_new() -> (r: Result<Self, SgError>)
        ensures
            N <= MAX_CAPACITY ==> (r matches Ok(t) && t.wf() && t@ == Map::<K, V>::empty()),
            N > MAX_CAPACITY ==> r == Err::<Self, SgError>(SgError::MaximumCapacityExceeded),
    {
        if N > MAX_CAPACITY {
            Err(SgError::MaximumCapacityExceeded)
        } else {
            Ok(Self::new())
        }
    }

    /// A mutable reference to the value stored for `key`, if held.
    pub fn get_mut(&mut self, key: &K) -> (r: Option<&mut V>)
        requires
            old(self).wf(),
        ensures
            match r {
                Some(v) => old(self)@.contains_key(*key) && *v == old(self)@[*key] && final(self).wf()
                    && final(self)@ == old(self)@.insert(*key, *final(v))
                    && final(self).spec_shape() == old(self).spec_shape()
                    && final(self).alpha() == old(self).alpha()
                    && final(self).high_water() == old(self).high_water(),
                None => !old(self)@.contains_key(*key) && *final(self) == *old(self),
            },
    {
        let ghost s = self.slots();
        let ghost sh = self.shape@;
        let ngh = self.priv_get(key);
        proof {
            self.lemma_wf_facts();
            lemma_search(s, sh, *key, None);
            lemma_good_slots(s, sh);
        }
        match ngh.node_idx() {
            Some(idx) => {
                proof {
                    assert forall|x: V| #[trigger] s.update(idx as int, Some(s[idx as int].unwrap().with_val(x))).len() == s.len()
                        && {
                        let s2 = s.update(idx as int, Some(s[idx as int].unwrap().with_val(x)));
                        &&& good(s2, sh)
                        &&& as_map(s2, sh) == as_map(s, sh).insert(*key, x)
                        &&& (forall|y: usize| #[trigger] sh.idxs().contains(y) ==> rank_of(s2, y) == rank_of(s, y))
                        &&& (forall|y: usize| y < s2.len() ==> (#[trigger] s2[y as int] is Some <==> s[y as int] is Some))
                        &&& occupied_count(s2) == occupied_count(s)
                    } by {
                        lemma_set_value(s, sh, *key, x);
                        lemma_occupied_update(s, idx as int, Some(s[idx as int].unwrap().with_val(x)));
                        assert(s[idx as int].unwrap().with_val(x) == Node { val: x, ..s[idx as int].unwrap() });
                    }
                    assert(sub_at(s, sh, *key).idxs().contains(idx));
                }
                Some(self.arena.get_val_mut(idx))
            },
            None => None,
        }
    }

    /// Inserts the pairs of `items` in order if there is room for all of
    /// them as new keys; else reports `StackCapacityExceeded` and changes
    /// nothing.
    pub fn try_extend(&mut self, items: Vec<(K, V)>) -> (r: Result<(), SgError>)
        requires
            old(self).wf(),
        ensures
            final(self).wf(),
            final(self).alpha() == old(self).alpha(),
            items@.len() + old(self)@.len() <= N ==> r is Ok && final(self)@ == insert_all(old(self)@, items@),
            items@.len() + old(self)@.len() > N ==> r == Err::<(), SgError>(SgError::StackCapacityExceeded)
                && *final(self) == *old(self),
    {
        proof {
            lemma_bounded(self);
        }
        let n = items.len();
        if n > self.capacity() - self.len() {
            return Err(SgError::StackCapacityExceeded);
        }
        let ghost items0 = items@;
        let ghost m0 = self@;
        let mut items = items;
        let mut rev: Vec<(K, V)> = Vec::new();
        while items.len() > 0
            invariant
                items0.len() == n,
                rev@.len() + items@.len() == n,
                forall|j: int| 0 <= j < items@.len() ==> #[trigger] items@[j] == items0[j],
                forall|j: int| 0 <= j < rev@.len() ==> #[trigger] rev@[j] == items0[n - 1 - j],
            decreases items@.len(),
        {
            let x = items.pop().unwrap();
            rev.push(x);
        }
        let mut i: usize = 0;
        proof {
            assert(items0.subrange(0, 0) =~= Seq::<(K, V)>::empty());
        }
        while i < n
            invariant
                self.wf(),
                self.alpha() == old(self).alpha(),
                items0.len() == n,
                n + m0.len() <= N,
                i <= n,
                rev@.len() == n - i,
                forall|j: int| 0 <= j < rev@.len() ==> #[trigger] rev@[j] == items0[n - 1 - j],
                self@ == insert_all(m0, items0.subrange(0, i as int)),
                self@.len() <= m0.len() + i,
            decreases n - i,
        {
            let (k, v) = rev.pop().unwrap();
            proof {
                lemma_bounded(self);
                assert(items0[i as int] == (k, v));
            }
            let ghost before = self@;
            self.insert(k, v);
            proof {
                lemma_bounded(self);
                assert(items0.subrange(0, i + 1).drop_last() =~= items0.subrange(0, i as int));
                if !before.contains_key(k) {
                    assert(self@.dom() =~= before.dom().insert(k));
                } else {
                    assert(self@.dom() =~= before.dom());
                }
            }
            i = i + 1;
        }
        proof {
            assert(items0.subrange(0, n as int) =~= items0);
        }
        Ok(())
    }

    /// A tree holding the pairs of `items`, inserted in order. Reports
    /// `MaximumCapacityExceeded` for a capacity or list beyond what an arena
    /// index can address, and `StackCapacityExceeded` for more pairs than `N`.
    pub fn try_from_iter(items: Vec<(K, V)>) -> (r: Result<Self, SgError>)
        ensures
            (N > MAX_CAPACITY || items@.len() > MAX_CAPACITY) ==> r == Err::<Self, SgError>(SgError::MaximumCapacityExceeded),
            (N <= MAX_CAPACITY && items@.len() <= MAX_CAPACITY && items@.len() > N) ==> r == Err::<Self, SgError>(SgError::StackCapacityExceeded),
            (N <= MAX_CAPACITY && items@.len() <= N) ==> (r matches Ok(t) && t.wf()
                && t@ == insert_all(Map::<K, V>::empty(), items@)),
    {
        if N > MAX_CAPACITY || items.len() > MAX_CAPACITY {
            return Err(SgError::MaximumCapacityExceeded);
        }
        let mut t = Self::new();
        match t.try_extend(items) {
            Ok(()) => Ok(t),
            Err(e) => Err(e),
        }
    }

    /// Rebuilds the whole tree in place into a size-balanced one: the same
    /// nodes in the same slots, relinked.
    pub fn rebalance(&mut self)
        requires
            old(self).wf(),
        ensures
            final(self).wf(),
            final(self)@ == old(self)@,
            final(self).spec_entries() == old(self).spec_entries(),
            final(self).spec_free() == old(self).spec_free(),
            final(self).slots().len() == old(self).slots().len(),
            final(self).spec_shape().idxs() == old(self).spec_shape().idxs(),
            final(self).alpha() == old(self).alpha(),
            final(self).high_water() == old(self).high_water(),
            size_balanced(final(self).spec_shape()),
            old(self)@.len() > 0 ==> final(self).rebal_count() == wrap_inc(old(self).rebal_count()),
            old(self)@.len() == 0 ==> final(self).rebal_count() == old(self).rebal_count(),
    {
        proof {
            self.lemma_len();
        }
        if self.opt_root_idx.is_some() {
            self.rebuild_all();
            proof {
                lemma_balanced_fits(self.shape@.height(), self.shape@.size(), self.max_size as nat,
                    self.alpha_num, self.alpha_denom);
                self.arena.lemma_wf();
            }
        } else {
            proof {
                assert(size_balanced(Shape::Leaf));
            }
        }
    }

    /// Rebuilds the whole tree into a size-balanced one.
    fn rebuild_all(&mut self)
        requires
            old(self).wf_links(),
            old(self).extremes_ok(),
            old(self).spec_shape() is Branch,
        ensures
            final(self).wf_links(),
            final(self).extremes_ok(),
            final(self)@ == old(self)@,
            final(self).spec_entries() == old(self).spec_entries(),
            final(self).alpha() == old(self).alpha(),
            final(self).curr_size == old(self).curr_size,
            final(self).max_size == old(self).max_size,
            final(self).spec_free() == old(self).spec_free(),
            final(self).slots().len() == old(self).slots().len(),
            final(self).rebal_count() == wrap_inc(old(self).rebal_count()),
            final(self).spec_shape().idxs() == old(self).spec_shape().idxs(),
            forall|x: usize| #[trigger] old(self).spec_shape().idxs().contains(x) ==> key_of(final(self).slots(), x) == key_of(old(self).slots(), x),
            pow2(final(self).spec_shape().height()) <= 2 * final(self).spec_shape().size(),
            final(self).spec_shape().size() == old(self).spec_shape().size(),
            size_balanced(final(self).spec_shape()),
    {
        let ghost s = self.slots();
        let ghost sh = self.shape@;
        let root = self.opt_root_idx.unwrap();
        proof {
            assert(sh.idxs().contains(root));
        }
        self.rebuild(root);
        proof {
            let t = choose|t: Shape| #[trigger] size_balanced(t)
                && t.inorder() == sub_at(s, sh, key_of(s, root)).inorder()
                && pow2(t.height()) <= 2 * t.size()
                && self.shape@ == replace_at(s, sh, key_of(s, root), t);
            lemma_replace_root(s, sh, t);
            lemma_inorder_idxs(t);
            lemma_inorder_idxs(sh);
        }
    }

    /// Rebuilds the whole tree if it is deeper than the weight-balance bound.
    fn restore_height_bound(&mut self)
        requires
            old(self).wf_links(),
            old(self).extremes_ok(),
            old(self).hw_ok(),
        ensures
            final(self).wf(),
            final(self)@ == old(self)@,
            final(self).spec_entries() == old(self).spec_entries(),
            final(self).alpha() == old(self).alpha(),
            final(self).high_water() == old(self).high_water(),
    {
        proof {
            self.lemma_wf_facts();
            lemma_height_le_size(self.shape@);
        }
        let h = self.subtree_height(self.opt_root_idx, Ghost(self.shape@));
        if h > 0 {
            let depth = self.alpha_balance_depth(self.max_size);
            if ((h - 1) as u64) <= depth {
                proof {
                    lemma_fits_lower((h - 1) as nat, depth as nat, self.max_size as int,
                        self.alpha_num as int, self.alpha_denom as int);
                }
            } else {
                proof {
                    assert(self.shape@ is Branch);
                }
                self.rebuild_all();
                proof {
                    lemma_balanced_fits(self.shape@.height(), self.shape@.size(), self.max_size as nat,
                        self.alpha_num, self.alpha_denom);
                }
            }
        }
    }

    /// The pairs in ascending key order.
    pub fn iter(&self) -> (r: Vec<(&K, &V)>)
        requires
            self.wf(),
        ensures
            r@.len() == self.spec_entries().len(),
            forall|m: int| 0 <= m < r@.len() ==> *(#[trigger] r@[m]).0 == self.spec_entries()[m].0
                && *r@[m].1 == self.spec_entries()[m].1,
    {
        let ghost s = self.slots();
        let idxs = self.inorder_idxs(self.opt_root_idx, Ghost(self.shape@));
        let mut out: Vec<(&K, &V)> = Vec::new();
        let mut m: usize = 0;
        proof {
            lemma_inorder_idxs(self.shape@);
            lemma_good_slots(s, self.shape@);
        }
        while m < idxs.len()
            invariant
                self.wf(),
                s == self.slots(),
                idxs@ == self.shape@.inorder(),
                m <= idxs@.len(),
                out@.len() == m,
                forall|q: int| 0 <= q < m ==> *(#[trigger] out@[q]).0 == self.spec_entries()[q].0
                    && *out@[q].1 == self.spec_entries()[q].1,
            decreases idxs@.len() - m,
        {
            proof {
                lemma_inorder_idxs(self.shape@);
                lemma_good_slots(s, self.shape@);
                assert(self.shape@.inorder().contains(idxs@[m as int]));
            }
            let node = self.arena.get(idxs[m]);
            out.push((&node.key, &node.val));
            m = m + 1;
        }
        out
    }

    /// The indices of the subtree rooted at `idx`, in ascending key order.
    fn flatten_subtree_to_sorted_idxs(&self, idx: usize) -> (r: Vec<usize>)
        requires
            self.wf_links(),
            self.spec_shape().idxs().contains(idx),
        ensures
            r@ == sub_at(self.slots(), self.spec_shape(), key_of(self.slots(), idx)).inorder(),
    {
        proof {
            lemma_sub_at_own_key(self.slots(), self.shape@, idx);
            lemma_search(self.slots(), self.shape@, key_of(self.slots(), idx), None);
        }
        self.inorder_idxs(Some(idx), Ghost(sub_at(self.slots(), self.shape@, key_of(self.slots(), idx))))
    }

    /// Rebuilds the subtree rooted at `idx` into a balanced one over the same
    /// nodes, in place, and links it where the old one was.
    #[verifier::rlimit(60)]
    fn rebuild(&mut self, idx: usize)
        requires
            old(self).wf_links(),
            old(self).extremes_ok(),
            old(self).spec_shape().idxs().contains(idx),
        ensures
            final(self).wf_links(),
            final(self).extremes_ok(),
            final(self).curr_size == old(self).curr_size,
            final(self).max_size == old(self).max_size,
            final(self)@ == old(self)@,
            final(self).spec_entries() == old(self).spec_entries(),
            final(self).alpha() == old(self).alpha(),
            final(self).high_water() == old(self).high_water(),
            final(self).spec_shape().idxs() == old(self).spec_shape().idxs(),
            forall|x: usize| #[trigger] old(self).spec_shape().idxs().contains(x) ==> key_of(final(self).slots(), x) == key_of(old(self).slots(), x),
            final(self).spec_free() == old(self).spec_free(),
            final(self).slots().len() == old(self).slots().len(),
            final(self).spec_shape().height() <= old(self).spec_shape().height(),
            final(self).alpha() == old(self).alpha(),
            final(self).rebal_count() == wrap_inc(old(self).rebal_count()),
            exists|t: Shape| #[trigger] size_balanced(t)
                && t.inorder() == sub_at(old(self).slots(), old(self).spec_shape(), key_of(old(self).slots(), idx)).inorder()
                && pow2(t.height()) <= 2 * t.size()
                && final(self).spec_shape() == replace_at(old(self).slots(), old(self).spec_shape(),
                    key_of(old(self).slots(), idx), t),
    {
        let ghost s = self.slots();
        let ghost sh = self.shape@;
        let ghost k = key_of(s, idx);
        let ghost sub = sub_at(s, sh, k);
        proof {
            self.lemma_wf_facts();
            lemma_sub_at_own_key(s, sh, idx);
            lemma_search(s, sh, k, None);
            lemma_good_slots(s, sh);
            lemma_good_slots(s, sub);
            lemma_inorder_sorted(s, sub);
            lemma_inorder_idxs(sub);
            self.arena.lemma_wf();
        }
        let sorted = self.flatten_subtree_to_sorted_idxs(idx);
        let ngh = self.priv_get(&self.arena.get(idx).key);
        let n = sorted.len();
        proof {
            assert(sub.idxs().contains(idx));
            assert(n >= 1);
            assert forall|q: int| 0 <= q < sorted@.len() implies #[trigger] sorted@[q] < s.len() && s[sorted@[q] as int] is Some by {
                assert(sub.inorder().contains(sorted@[q]));
            }
        }
        let (new_root, t) = self.build_balanced(&sorted, NodeRebuildHelper::new(0, n - 1));
        let ghost sb = self.slots();
        proof {
            assert(sorted@.subrange(0, n as int) =~= sorted@);
            lemma_inorder_idxs(t@);
            lemma_inorder_idxs(sub);
            assert(t@.inorder() == sub.inorder());
            assert forall|x: usize| t@.idxs().contains(x) <==> sub.idxs().contains(x) by {
                assert(t@.inorder().contains(x) == sub.inorder().contains(x));
            }
            assert(t@.idxs() =~= sub.idxs());
        }
        match ngh.parent_idx() {
            Some(p) => {
                proof {
                    let pp = parent_at(s, sh, k, None);
                    assert(pp is Some && pp.unwrap().0 == p);
                    assert(sh.idxs().contains(p) && !sub.idxs().contains(p));
                    assert(!sorted@.contains(p));
                    assert(sb[p as int] == s[p as int]);
                    assert(new_root <= MAX_IDX) by {
                        lemma_good_slots(sb, t@);
                        assert(t@.idxs().contains(new_root));
                    }
                }
                if ngh.is_right_child() {
                    self.arena.set_right(p, Some(new_root));
                } else {
                    self.arena.set_left(p, Some(new_root));
                }
                proof {
                    lemma_occupied_update(sb, p as int, self.slots()[p as int]);
                }
            },
            None => {
                self.opt_root_idx = Some(new_root);
            },
        }
        self.rebal_cnt = self.rebal_cnt.wrapping_add(1);
        proof {
            let s2 = self.slots();
            let ns = replace_at(s, sh, k, t@);
            lemma_good_slots(sb, t@);
            assert forall|x: usize| #[trigger] t@.idxs().contains(x) implies x < s2.len() && s2[x as int] == sb[x as int] by {
                assert(sub.idxs().contains(x));
            }
            lemma_frame(sb, s2, t@);
            assert forall|x: usize| #[trigger] t@.idxs().contains(x) implies
                as_map(s, sub_at(s, sh, k)).contains_key(key_of(s2, x)) || key_of(s2, x) == k by {
                assert(sub.idxs().contains(x));
            }
            assert forall|x: usize| #[trigger] sh.idxs().contains(x) && !sub.idxs().contains(x)
                && (parent_at(s, sh, k, None) is None || x != parent_at(s, sh, k, None).unwrap().0)
                implies x < s2.len() && s2[x as int] == s[x as int] by {
                if sorted@.contains(x) {
                    assert(sub.inorder().contains(x));
                }
            }
            lemma_replace(s, s2, sh, k, t@, None);
            lemma_same_map(s, sub, s2, t@);
            assert(as_map(s2, ns) =~= as_map(s, sh));
            assert(ns.idxs() =~= sh.idxs());
            lemma_replace_inorder(s, sh, k, t@);
            lemma_inorder_idxs(sh);
            assert forall|x: usize| #[trigger] sh.idxs().contains(x) implies key_of(s2, x) == key_of(s, x)
                && val_of(s2, x) == val_of(s, x) by {
                if sorted@.contains(x) {
                } else if parent_at(s, sh, k, None) is Some && x == parent_at(s, sh, k, None).unwrap().0 {
                } else {
                    assert(sub.inorder().contains(x) == sub.idxs().contains(x));
                }
            }
            assert(entries(s2, ns) =~= entries(s, sh)) by {
                assert forall|m: int| 0 <= m < sh.inorder().len() implies sh.idxs().contains(#[trigger] sh.inorder()[m]) by {
                    assert(sh.inorder().contains(sh.inorder()[m]));
                }
            }
            assert forall|x: usize| x < s2.len() implies (#[trigger] s2[x as int] is Some <==> ns.idxs().contains(x)) by {
                if sorted@.contains(x) {
                    assert(sub.inorder().contains(x));
                    assert(s[x as int] is Some);
                } else if parent_at(s, sh, k, None) is Some && x == parent_at(s, sh, k, None).unwrap().0 {
                } else {
                    assert(s2[x as int] == s[x as int]);
                }
            }
            lemma_inorder_idxs(t@);
            lemma_inorder_idxs(sub);
            lemma_balanced_lowest(t@, sub);
            lemma_replace_height(s, sh, k, t@);
            self.shape = Ghost(ns);
        }
    }

    /// Reshapes the nodes `sorted[low..=high]`, whose keys ascend, into a
    /// balanced subtree: the middle one is the root, each half a subtree.
    /// Only child links change, and only in those nodes. Returns the root.
    #[verifier::rlimit(80)]
    fn build_balanced(&mut self, sorted: &Vec<usize>, nrh: NodeRebuildHelper) -> (r: (usize, Ghost<Shape>))
        requires
            old(self).arena.wf(),
            nrh.low_idx <= nrh.high_idx < sorted@.len(),
            nrh.mid_idx == nrh.low_idx + (nrh.high_idx - nrh.low_idx) / 2,
            sorted@.no_duplicates(),
            forall|q: int| 0 <= q < sorted@.len() ==> #[trigger] sorted@[q] < old(self).slots().len()
                && old(self).slots()[sorted@[q] as int] is Some,
            forall|a: int, b: int| 0 <= a < b < sorted@.len() ==> rank_of(old(self).slots(), #[trigger] sorted@[a])
                < rank_of(old(self).slots(), #[trigger] sorted@[b]),
        ensures
            final(self).arena.wf(),
            final(self).arena.free() == old(self).arena.free(),
            final(self).slots().len() == old(self).slots().len(),
            good(final(self).slots(), r.1@),
            r.1@.root() == Some(r.0),
            r.1@.inorder() == sorted@.subrange(nrh.low_idx as int, nrh.high_idx + 1),
            same_outside(old(self).slots(), final(self).slots(), sorted@.subrange(nrh.low_idx as int, nrh.high_idx + 1)),
            keeps_entries(old(self).slots(), final(self).slots()),
            pow2(r.1@.height()) <= 2 * (nrh.high_idx - nrh.low_idx + 1),
            r.1@.size() == nrh.high_idx - nrh.low_idx + 1,
            size_balanced(r.1@),
            r.0 == sorted@[nrh.mid_idx as int],
            final(self).rebal_cnt == old(self).rebal_cnt,
            final(self).opt_root_idx == old(self).opt_root_idx,
            final(self).shape == old(self).shape,
            final(self).curr_size == old(self).curr_size,
            final(self).max_size == old(self).max_size,
            final(self).min_idx == old(self).min_idx,
            final(self).max_idx == old(self).max_idx,
            final(self).alpha_num == old(self).alpha_num,
            final(self).alpha_denom == old(self).alpha_denom,
            occupied_count(final(self).slots()) == occupied_count(old(self).slots()),
        decreases nrh.high_idx - nrh.low_idx,
    {
        let ghost s0 = self.slots();
        let low = nrh.low_idx;
        let high = nrh.high_idx;
        let mid = nrh.mid_idx;
        let ghost sub_all = sorted@.subrange(low as int, high + 1);
        proof {
            self.arena.lemma_wf();
        }
        let (left, lt) = if low < mid {
            let (c, t) = self.build_balanced(sorted, NodeRebuildHelper::new(low, mid - 1));
            (Some(c), t)
        } else {
            (None, Ghost(Shape::Leaf))
        };
        let ghost s1 = self.slots();
        let (right, rt) = if mid < high {
            let (c, t) = self.build_balanced(sorted, NodeRebuildHelper::new(mid + 1, high));
            (Some(c), t)
        } else {
            (None, Ghost(Shape::Leaf))
        };
        let ghost s2 = self.slots();
        let root = sorted[mid];
        proof {
            self.arena.lemma_wf();
            assert(sorted@[mid as int] == root);
            assert(root < s0.len());
            assert(s2[root as int] is Some);
            if left is Some {
                lemma_good_slots(s1, lt@);
                assert(lt@.idxs().contains(left.unwrap()));
                assert(left.unwrap() < s0.len());
            }
            if right is Some {
                lemma_good_slots(s2, rt@);
                assert(rt@.idxs().contains(right.unwrap()));
            }
            if low >= mid {
                assert(s1 == s0);
                assert(Shape::Leaf.inorder() =~= sorted@.subrange(low as int, mid as int));
            }
            if mid >= high {
                assert(s2 == s1);
                assert(Shape::Leaf.inorder() =~= sorted@.subrange(mid + 1, high + 1));
            }
        }
        self.arena.set_left(root, left);
        self.arena.set_right(root, right);
        let ghost s3 = self.slots();
        let ghost t = Shape::Branch(root, Box::new(lt@), Box::new(rt@));
        proof {
            assert(left == lt@.root());
            assert(right == rt@.root());
            assert(self.slots() =~= s2.update(root as int, Some(s2[root as int].unwrap().with_left(lt@.root()).with_right(rt@.root()))));
            lemma_build_join(s0, s1, s2, self.slots(), sorted@, low as int, mid as int, high as int, lt@, rt@);
            lemma_occupied_update(s2, root as int, self.slots()[root as int]);
            assert(self.slots() =~= s2.update(root as int, self.slots()[root as int]));
            lemma_pow2_grows(lt@.height(), rt@.height());
            let hl = lt@.height();
            let hr = rt@.height();
            let h = if hl >= hr { hl } else { hr };
            if low >= mid {
                assert(lt@.height() == 0);
            }
            if mid >= high {
                assert(rt@.height() == 0);
            }
            assert(pow2(0) == 1);
            assert(pow2(h + 1) == 2 * pow2(h));
            let nl = mid - low;
            let nr = high - mid;
            assert(nl <= nr && nr <= nl + 1);
            lemma_inorder_idxs(lt@);
            lemma_inorder_idxs(rt@);
            lemma_inorder_idxs(t);
            assert(lt@.size() == nl);
            assert(rt@.size() == nr);
            assert(size_balanced(Shape::Leaf));
            assert(size_balanced(lt@));
            assert(size_balanced(rt@));
            assert(size_balanced(t));
            if hl >= hr {
                if nl == 0 {
                    assert(hl == 0);
                } else {
                    assert(pow2(hl) <= 2 * nl);
                }
            } else {
                if nr == 0 {
                    assert(hr == 0);
                } else {
                    assert(pow2(hr) <= 2 * nr);
                }
            }
        }
        (root, Ghost(t))
    }
}

/// Slots of `b` that were occupied in `a` still are, with the same key and value.
pub open spec fn keeps_entries<K, V>(a: Seq<Option<Node<K, V>>>, b: Seq<Option<Node<K, V>>>) -> bool {
    &&& b.len() == a.len()
    &&& forall|x: usize| x < a.len() && #[trigger] a[x as int] is Some ==> b[x as int] is Some && key_of(b, x) == key_of(a, x)
        && val_of(b, x) == val_of(a, x)
}

/// `b` equals `a` outside the indices listed in `xs`.
pub open spec fn same_outside<K, V>(a: Seq<Option<Node<K, V>>>, b: Seq<Option<Node<K, V>>>, xs: Seq<usize>) -> bool {
    forall|x: usize| x < a.len() && !xs.contains(x) ==> b[x as int] == #[trigger] a[x as int]
}

/// Joining two balanced halves of a sorted run under its middle node.
proof fn lemma_build_join<K: SgKey, V>(
    s0: Seq<Option<Node<K, V>>>,
    s1: Seq<Option<Node<K, V>>>,
    s2: Seq<Option<Node<K, V>>>,
    s3: Seq<Option<Node<K, V>>>,
    sorted: Seq<usize>,
    low: int,
    mid: int,
    high: int,
    lt: Shape,
    rt: Shape,
)
    requires
        0 <= low <= mid <= high < sorted.len(),
        s0.len() <= MAX_IDX + 1,
        sorted.no_duplicates(),
        forall|q: int| 0 <= q < sorted.len() ==> #[trigger] sorted[q] < s0.len() && s0[sorted[q] as int] is Some,
        forall|a: int, b: int| 0 <= a < b < sorted.len() ==> rank_of(s0, #[trigger] sorted[a]) < rank_of(s0, #[trigger] sorted[b]),
        keeps_entries(s0, s1),
        keeps_entries(s1, s2),
        good(s1, lt),
        good(s2, rt),
        lt.inorder() == sorted.subrange(low, mid),
        rt.inorder() == sorted.subrange(mid + 1, high + 1),
        same_outside(s0, s1, sorted.subrange(low, mid)),
        same_outside(s1, s2, sorted.subrange(mid + 1, high + 1)),
        s3 == s2.update(sorted[mid] as int, Some(s2[sorted[mid] as int].unwrap().with_left(lt.root()).with_right(rt.root()))),
    ensures
        good(s3, Shape::Branch(sorted[mid], Box::new(lt), Box::new(rt))),
        Shape::Branch(sorted[mid], Box::new(lt), Box::new(rt)).inorder() == sorted.subrange(low, high + 1),
        same_outside(s0, s3, sorted.subrange(low, high + 1)),
        keeps_entries(s0, s3),
{
    let root = sorted[mid];
    let t = Shape::Branch(root, Box::new(lt), Box::new(rt));
    let sub_all = sorted.subrange(low, high + 1);
    let ls = sorted.subrange(low, mid);
    let rs = sorted.subrange(mid + 1, high + 1);
    assert(t.inorder() =~= sub_all);
    lemma_inorder_idxs(lt);
    lemma_inorder_idxs(rt);
    assert forall|x: usize| #[trigger] lt.idxs().contains(x) implies exists|q: int| low <= q < mid && sorted[q] == x by {
        assert(ls.contains(x));
        let q = choose|q: int| 0 <= q < ls.len() && ls[q] == x;
        assert(sorted[low + q] == x);
    }
    assert forall|x: usize| #[trigger] rt.idxs().contains(x) implies exists|q: int| mid < q <= high && sorted[q] == x by {
        assert(rs.contains(x));
        let q = choose|q: int| 0 <= q < rs.len() && rs[q] == x;
        assert(sorted[mid + 1 + q] == x);
    }
    lemma_good_slots(s1, lt);
    assert forall|x: usize| #[trigger] lt.idxs().contains(x) implies x < s2.len() && s2[x as int] == s1[x as int] by {
        let q = choose|q: int| low <= q < mid && sorted[q] == x;
        if rs.contains(x) {
            let q2 = choose|q2: int| 0 <= q2 < rs.len() && rs[q2] == x;
            assert(sorted[mid + 1 + q2] == x);
        }
    }
    lemma_frame(s1, s2, lt);
    assert(!lt.idxs().contains(root)) by {
        if lt.idxs().contains(root) {
            let q = choose|q: int| low <= q < mid && sorted[q] == root;
        }
    }
    assert(!rt.idxs().contains(root)) by {
        if rt.idxs().contains(root) {
            let q = choose|q: int| mid < q <= high && sorted[q] == root;
        }
    }
    lemma_good_slots(s2, lt);
    lemma_good_slots(s2, rt);
    assert forall|x: usize| #[trigger] lt.idxs().contains(x) implies x < s3.len() && s3[x as int] == s2[x as int] by {}
    assert forall|x: usize| #[trigger] rt.idxs().contains(x) implies x < s3.len() && s3[x as int] == s2[x as int] by {}
    lemma_frame(s2, s3, lt);
    lemma_frame(s2, s3, rt);
    assert(s0[root as int] is Some);
    assert forall|x: usize| #[trigger] lt.idxs().contains(x) implies rank_of(s3, x) < rank_of(s3, root) by {
        let q = choose|q: int| low <= q < mid && sorted[q] == x;
        assert(rank_of(s0, sorted[q]) < rank_of(s0, sorted[mid]));
        assert(s0[x as int] is Some);
    }
    assert forall|x: usize| #[trigger] rt.idxs().contains(x) implies rank_of(s3, root) < rank_of(s3, x) by {
        let q = choose|q: int| mid < q <= high && sorted[q] == x;
        assert(rank_of(s0, sorted[mid]) < rank_of(s0, sorted[q]));
        assert(s0[x as int] is Some);
    }
    if lt.root() is Some {
        assert(lt.idxs().contains(lt.root().unwrap()));
    }
    if rt.root() is Some {
        assert(rt.idxs().contains(rt.root().unwrap()));
    }
    assert(widen(narrow(lt.root())) == lt.root());
    assert(widen(narrow(rt.root())) == rt.root());
    assert(good(s3, t));
    assert forall|x: usize| x < s0.len() && #[trigger] s0[x as int] is Some implies s3[x as int] is Some && key_of(s3, x) == key_of(s0, x)
        && val_of(s3, x) == val_of(s0, x) by {
        assert(s1[x as int] is Some);
        assert(s2[x as int] is Some);
    }
    assert forall|x: usize| x < s0.len() && !sub_all.contains(x) implies s3[x as int] == #[trigger] s0[x as int] by {
        if ls.contains(x) {
            let q = choose|q: int| 0 <= q < ls.len() && ls[q] == x;
            assert(sub_all[q] == x);
        }
        if rs.contains(x) {
            let q = choose|q: int| 0 <= q < rs.len() && rs[q] == x;
            assert(sub_all[mid + 1 - low + q] == x);
        }
        assert(s1[x as int] == s0[x as int]);
        assert(s2[x as int] == s1[x as int]);
        if x == root {
            assert(sub_all[mid - low] == root);
        }
        if ls.contains(x) {
            let q = choose|q: int| 0 <= q < ls.len() && ls[q] == x;
            assert(sub_all[q] == x);
        }
        if rs.contains(x) {
            let q = choose|q: int| 0 <= q < rs.len() && rs[q] == x;
            assert(sub_all[mid + 1 - low + q] == x);
        }
    }

}

/// In-order traversal yields keys in strictly ascending order.
pub proof fn lemma_inorder_ascending<K: SgKey, V, const N: usize>(t: &SgTree<K, V, N>)
    requires
        t.wf(),
    ensures
        ascending(t.spec_entries()),
{
    lemma_entries(t.slots(), t.spec_shape());
}

/// The size, the length of the traversal, the number of nodes reachable from
/// the root and the number of occupied slots are one number.
pub proof fn lemma_size_consistency<K: SgKey, V, const N: usize>(t: &SgTree<K, V, N>)
    requires
        t.wf(),
    ensures
        t@.len() == t.spec_entries().len(),
        t.spec_entries().len() == t.spec_shape().size(),
        t.spec_shape().size() == t.occupied(),
{
    lemma_entries(t.slots(), t.spec_shape());
    lemma_map_size(t.slots(), t.spec_shape());
}

/// The traversal holds exactly the pairs of the map: `(k, v)` is traversed
/// when `k` is held with value `v`.
pub proof fn lemma_traversal_contents<K: SgKey, V, const N: usize>(t: &SgTree<K, V, N>)
    requires
        t.wf(),
    ensures
        forall|x: (K, V)| #[trigger] t.spec_entries().contains(x) <==> t@.contains_key(x.0) && t@[x.0] == x.1,
{
    lemma_entries(t.slots(), t.spec_shape());
}

/// After every operation the tree is at most
/// `floor(log_{denom/num}(high_water)) + 1` nodes deep, where `num/denom` is
/// the rebalance factor.
pub proof fn lemma_height_bound<K: SgKey, V, const N: usize>(t: &SgTree<K, V, N>)
    requires
        t.wf(),
    ensures
        height_ok(t.spec_shape().height(), t.high_water(), t.alpha().0, t.alpha().1),
        alpha_ok(t.alpha().0, t.alpha().1),
{
}

/// The map is finite and holds at most `N` pairs.
pub proof fn lemma_bounded<K: SgKey, V, const N: usize>(t: &SgTree<K, V, N>)
    requires
        t.wf(),
    ensures
        t@.dom().finite(),
        t@.len() <= N,
        t@.len() == t.spec_shape().size(),
{
    t.lemma_len();
    t.lemma_wf_facts();
}

/// Occupied slots and free-list entries account for every slot used, and no
/// free-list entry is a node of the tree.
pub proof fn lemma_no_slot_leak<K: SgKey, V, const N: usize>(t: &SgTree<K, V, N>)
    requires
        t.wf(),
    ensures
        t.occupied() + t.spec_free().len() == t.slots().len(),
        forall|k: int| 0 <= k < t.spec_free().len() ==> !t.spec_shape().idxs().contains(#[trigger] t.spec_free()[k]),
        forall|k: int| 0 <= k < t.spec_free().len() ==> #[trigger] t.spec_free()[k] < t.slots().len()
            && t.slots()[t.spec_free()[k] as int] is None,
        t.spec_free().no_duplicates(),
{
    t.arena.lemma_wf();
    assert forall|k: int| 0 <= k < t.spec_free().len() implies !t.spec_shape().idxs().contains(#[trigger] t.spec_free()[k]) by {
        let f = t.spec_free()[k];
        assert(f < t.slots().len() && t.slots()[f as int] is None);
    }
}

/// The cached extremum indices name the least and greatest keys.
pub proof fn lemma_extremum_caches<K: SgKey, V, const N: usize>(t: &SgTree<K, V, N>)
    requires
        t.wf(),
        t@.len() > 0,
    ensures
        t@.contains_key(key_of(t.slots(), t.spec_min_idx())),
        t@.contains_key(key_of(t.slots(), t.spec_max_idx())),
        forall|q: K| #[trigger] t@.contains_key(q) ==> key_of(t.slots(), t.spec_min_idx()).rank() <= q.rank()
            && q.rank() <= key_of(t.slots(), t.spec_max_idx()).rank(),
{
    t.lemma_len();
    t.lemma_extremes();
    if t.spec_shape() is Leaf {
        assert(t@ =~= Map::<K, V>::empty());
    }
}

/// Trees that hold the same pairs traverse alike, whatever order the pairs
/// were inserted in and however their arenas are laid out.
pub proof fn lemma_traversal_determined<K: SgKey, V, const N: usize, const M: usize>(
    a: &SgTree<K, V, N>,
    b: &SgTree<K, V, M>,
)
    requires
        a.wf(),
        b.wf(),
        a@ == b@,
    ensures
        a.spec_entries() == b.spec_entries(),
{
    lemma_entries(a.slots(), a.spec_shape());
    lemma_entries(b.slots(), b.spec_shape());
    lemma_ascending_unique(a.spec_entries(), b.spec_entries());
}

/// Sorting an arena that is already sorted leaves every slot, the root index
/// and the cached extremes as they are (and the free list is the same
/// function of length and size both times), so sorting twice gives the
/// layout that sorting once gave.
pub proof fn lemma_sort_idempotent<K: SgKey, V, const N: usize>(t: &SgTree<K, V, N>)
    requires
        t.wf(),
        t.spec_shape().inorder() == Seq::new(t.spec_shape().size(), |m: int| m as usize),
    ensures
        sorted_layout(t.slots(), t.spec_shape().inorder()) == t.slots(),
        moved(t.spec_shape().inorder(), t.spec_root()) == t.spec_root(),
        t.spec_shape().size() > 0 ==> t.spec_min_idx() == 0 && t.spec_max_idx() == t.spec_shape().size() - 1,
{
    let s = t.slots();
    let sh = t.spec_shape();
    let io = sh.inorder();
    let n = sh.size();
    t.lemma_wf_facts();
    lemma_inorder_idxs(sh);
    lemma_good_slots(s, sh);
    lemma_children_in(s, sh);
    assert forall|x: usize| x < n implies pos_of(io, x) == x by {
        assert(io[x as int] == x);
        let c = pos_of(io, x);
        assert(io[c as int] == c);
    }
    assert forall|x: usize| #[trigger] sh.idxs().contains(x) <==> x < n by {
        if x < n {
            assert(io[x as int] == x);
            assert(io.contains(x));
        }
        if sh.idxs().contains(x) {
            assert(io.contains(x));
        }
    }
    let s2 = sorted_layout(s, io);
    assert forall|m: int| 0 <= m < s.len() implies #[trigger] s2[m] == s[m] by {
        if m < n {
            let x = m as usize;
            assert(io[m] == x);
            assert(sh.idxs().contains(x));
            let nd = s[m].unwrap();
            assert(moved(io, nd.left()) == nd.left());
            assert(moved(io, nd.right()) == nd.right());
            assert(narrow(widen(nd.left_idx)) == nd.left_idx);
            assert(narrow(widen(nd.right_idx)) == nd.right_idx);
            assert(relabel(nd, io) == nd);
        } else {
            assert(!sh.idxs().contains(m as usize));
        }
    }
    assert(s2 =~= s);
    if let Some(r) = t.spec_root() {
        assert(sh.idxs().contains(r));
    }
    if n > 0 {
        lemma_inorder_sorted(s, sh);
        let mi = t.spec_min_idx();
        let ma = t.spec_max_idx();
        assert(sh.idxs().contains(0));
        assert(sh.idxs().contains((n - 1) as usize));
        if mi != 0 {
            assert(io[mi as int] == mi);
            assert(rank_of(s, io[0]) < rank_of(s, io[mi as int]));
        }
        if ma != n - 1 {
            assert(io[ma as int] == ma);
            assert(rank_of(s, io[ma as int]) < rank_of(s, io[n - 1]));
        }
    }
}

/// The in-order layout of a good tree holds the same pairs in the same order,
/// with node `m` of the traversal in slot `m`.
proof fn lemma_sorted_tree<K: SgKey, V>(s: Seq<Option<Node<K, V>>>, sh: Shape, s2: Seq<Option<Node<K, V>>>)
    requires
        good(s, sh),
        sh.inorder().len() <= MAX_IDX + 1,
        sh.inorder().len() <= s.len(),
        s2 == sorted_layout(s, sh.inorder()),
    ensures
        ({
            let order = sh.inorder();
            let ns = relabel_shape(sh, order);
            let n = sh.size();
            &&& good(s2, ns)
            &&& ns.size() == n
            &&& ns.root() == moved(order, sh.root())
            &&& (sh.root() is Some ==> pos_of(order, sh.root().unwrap()) < n && order[pos_of(order, sh.root().unwrap()) as int] == sh.root().unwrap())
            &&& ns.inorder() == Seq::new(n, |m: int| m as usize)
            &&& forall|x: usize| x < s2.len() ==> (#[trigger] s2[x as int] is Some <==> ns.idxs().contains(x))
            &&& entries(s2, ns) == entries(s, sh)
            &&& as_map(s2, ns) == as_map(s, sh)
            &&& n > 0 ==> {
                &&& ns.idxs().contains(0)
                &&& ns.idxs().contains((n - 1) as usize)
                &&& forall|x: usize| #[trigger] ns.idxs().contains(x) ==> rank_of(s2, 0) <= rank_of(s2, x)
                    && rank_of(s2, x) <= rank_of(s2, (n - 1) as usize)
            }
        }),
{
    let order = sh.inorder();
    let ns = relabel_shape(sh, order);
    let n = sh.size();
    lemma_relabel(s, sh, sh);
    lemma_inorder_idxs(sh);
    lemma_inorder_sorted(s, sh);
    lemma_good_slots(s, sh);
    assert forall|q: int| 0 <= q < order.len() implies pos_of(order, #[trigger] order[q]) == q by {
        let c = pos_of(order, order[q]);
        assert(order[q as usize as int] == order[q]);
    }
    assert(ns.inorder() =~= Seq::new(n, |m: int| m as usize));
    lemma_inorder_idxs(ns);
    lemma_inorder_sorted(s2, ns);
    if let Some(root_idx) = sh.root() {
        assert(sh.idxs().contains(root_idx));
        assert(order.contains(root_idx));
        let q = choose|q: int| 0 <= q < order.len() && order[q] == root_idx;
        assert(pos_of(order, order[q]) == q);
    }
    assert forall|x: usize| x < s2.len() implies (#[trigger] s2[x as int] is Some <==> ns.idxs().contains(x)) by {
        if x < n {
            assert(ns.inorder()[x as int] == x);
            assert(ns.inorder().contains(x));
        } else if ns.idxs().contains(x) {
            assert(ns.inorder().contains(x));
        }
    }
    assert(entries(s2, ns) =~= entries(s, sh)) by {
        assert forall|m: int| 0 <= m < sh.inorder().len() implies sh.idxs().contains(#[trigger] sh.inorder()[m]) by {
            assert(sh.inorder().contains(sh.inorder()[m]));
        }
    }
    lemma_entries(s, sh);
    lemma_entries(s2, ns);
    assert(as_map(s2, ns) =~= as_map(s, sh)) by {
        assert forall|k: K| as_map(s2, ns).contains_key(k) <==> as_map(s, sh).contains_key(k) by {
            if as_map(s, sh).contains_key(k) {
                assert(entries(s, sh).contains((k, as_map(s, sh)[k])));
            }
            if as_map(s2, ns).contains_key(k) {
                assert(entries(s2, ns).contains((k, as_map(s2, ns)[k])));
            }
        }
        assert forall|k: K| #[trigger] as_map(s2, ns).contains_key(k) implies as_map(s2, ns)[k] == as_map(s, sh)[k] by {
            assert(entries(s2, ns).contains((k, as_map(s2, ns)[k])));
        }
    }
    if n > 0 {
        assert(ns.inorder()[0] == 0usize);
        assert(ns.inorder()[n - 1] == (n - 1) as usize);
        assert(ns.inorder().contains(0));
        assert(ns.inorder().contains((n - 1) as usize));
        assert forall|x: usize| #[trigger] ns.idxs().contains(x) implies rank_of(s2, 0) <= rank_of(s2, x)
            && rank_of(s2, x) <= rank_of(s2, (n - 1) as usize) by {
            assert(ns.inorder().contains(x));
            let m = choose|m: int| 0 <= m < ns.inorder().len() && ns.inorder()[m] == x;
            if m > 0 {
                assert(rank_of(s2, ns.inorder()[0]) < rank_of(s2, ns.inorder()[m]));
            }
            if m < n - 1 {
                assert(rank_of(s2, ns.inorder()[m]) < rank_of(s2, ns.inorder()[n - 1]));
            }
        }
    }
}

} // verus!
