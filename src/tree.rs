use vstd::prelude::*;
use crate::node::{
    Node,
    listing_all,
    strictly_sorted,
    lemma_descend,
    lemma_has_key,
    lemma_has_in_bounds,
    lemma_view,
    lemma_reaches_wf,
};
use crate::props::BTreeProps;

verus! {

/// Exclusive lower bound on every key.
pub open spec fn key_floor() -> int {
    -1
}

/// Exclusive upper bound on every key.
pub open spec fn key_ceiling() -> int {
    u64::MAX as int + 1
}

/// A B-tree of `u64` keys, owning its root node.
pub struct BTree {
    root: Node,
    props: BTreeProps,
}

impl BTree {
    /// The tree keeps the B-tree invariants under its bounds.
    pub closed spec fn wf(&self) -> bool {
        &&& self.props.valid()
        &&& self.root.wf(key_floor(), key_ceiling(), self.props.min(), self.props.max())
        &&& self.root.children@.len() != 0 ==> 1 <= self.root.keys@.len()
    }

    /// The set of keys in the tree.
    pub closed spec fn view(&self) -> Set<u64> {
        self.root@
    }

    /// The fewest keys a node other than the root may hold.
    pub closed spec fn min_keys(&self) -> nat {
        self.props.min()
    }

    /// The most keys a node may hold.
    pub closed spec fn max_keys(&self) -> nat {
        self.props.max()
    }

    /// `n` is a node of the tree, `d` levels below the root.
    pub closed spec fn has_node(&self, n: Node, d: nat) -> bool {
        self.root.reaches(n, d)
    }

    /// The root node.
    pub closed spec fn root(&self) -> Node {
        self.root
    }

    /// Number of edges from the root down to any leaf.
    pub closed spec fn depth(&self) -> nat {
        self.root.height()
    }

    /// An empty tree whose nodes hold between `branch_factor - 1` and
    /// `2 * branch_factor - 1` keys, the root excepted.
    ///
    /// A branch factor of one is refused: nodes could then hold no key at all, a split would
    /// leave empty leaves behind, and deleting a separator whose neighbouring subtrees are both
    /// empty would find no predecessor or successor to put in its place.
    pub fn new(branch_factor: usize) -> (r: BTree)
        requires
            2 <= branch_factor <= usize::MAX / 2,
        ensures
            r.wf(),
            r@ == Set::<u64>::empty(),
            r.min_keys() == branch_factor - 1,
            r.max_keys() == 2 * branch_factor - 1,
            r.depth() == 0,
    {
        let degree = 2 * branch_factor;
        let r = BTree { root: Node::new(), props: BTreeProps::new(degree) };
        proof {
            lemma_view(&r.root);
            assert forall|x: u64| !r.root.has(x) by {
                lemma_descend(&r.root, key_floor(), key_ceiling(), r.props.min(), r.props.max(), x, 0);
            }
            assert(r@ =~= Set::<u64>::empty());
        }
        r
    }

    /// Adds `key` to the tree; a key already present is left as it is.
    pub fn insert(&mut self, key: u64)
        requires
            old(self).wf(),
        ensures
            final(self).wf(),
            final(self)@ == old(self)@.insert(key),
            final(self).min_keys() == old(self).min_keys(),
            final(self).max_keys() == old(self).max_keys(),
            final(self).depth() == old(self).depth() + if old(self).root().keys@.len()
                == old(self).max_keys() {
                1nat
            } else {
                0nat
            },
            1 <= final(self).root().keys@.len(),
    {
        let ghost min = self.props.min();
        let ghost max = self.props.max();
        if self.props.is_maxed_out(&self.root) {
            let mut old_root = Node::new();
            std::mem::swap(&mut old_root, &mut self.root);
            self.root.children.push(old_root);
            proof {
                let r = self.root;
                assert(r.children@[0] == old_root);
                assert(r.child_ok(0, key_floor(), key_ceiling(), min, max));
                assert(r.wf(key_floor(), key_ceiling(), min, max));
                lemma_view(&r);
                lemma_view(&old_root);
                assert forall|x: u64| r.has(x) == old_root.has(x) by {
                    lemma_descend(&r, key_floor(), key_ceiling(), min, max, x, 0);
                }
                assert(r@ =~= old_root@);
            }
            self.props.split_child(&mut self.root, 0, Ghost(key_floor()), Ghost(key_ceiling()));
        }
        self.props.insert_non_full(&mut self.root, key, Ghost(key_floor()), Ghost(key_ceiling()));
    }

    /// Removes `key` from the tree and returns whether it was there. A root left without keys
    /// gives way to its only child.
    pub fn delete(&mut self, key: u64) -> (r: bool)
        requires
            old(self).wf(),
        ensures
            final(self).wf(),
            final(self).min_keys() == old(self).min_keys(),
            final(self).max_keys() == old(self).max_keys(),
            r == old(self)@.contains(key),
            final(self)@ == old(self)@.remove(key),
            !old(self)@.contains(key) ==> final(self).root().same(old(self).root()),
            final(self).depth() == old(self).depth() || final(self).depth() + 1 == old(self).depth(),
            final(self).depth() + 1 == old(self).depth() ==> old(self).root().keys@.len() == 1,
    {
        let ghost t0 = *self;
        let ghost min = self.props.min();
        let ghost max = self.props.max();
        let found = self.props.delete_from(&mut self.root, key, Ghost(key_floor()), Ghost(key_ceiling()));
        let ghost r1 = self.root;
        if self.root.keys.len() == 0 && !self.root.is_leaf() {
            let child = self.root.children.pop().unwrap();
            proof {
                assert(r1.child_ok(0, key_floor(), key_ceiling(), min, max));
                assert(child == r1.children@[0]);
                assert forall|x: u64| child.has(x) == r1.has(x) by {
                    lemma_descend(&r1, key_floor(), key_ceiling(), min, max, x, 0);
                }
            }
            self.root = child;
        }
        proof {
            let t = *self;
            lemma_view(&t.root);
            lemma_view(&t0.root);
            assert(t@ =~= t0@.remove(key));
            if !t0@.contains(key) {
                assert(t0.root@.contains(key) == t0.root.has(key));
                assert(r1.keys@ == t0.root.keys@);
            }
        }
        found
    }

    /// Every key of the tree in increasing order, each with the depth of the node that holds
    /// it, the root lying at depth 0.
    pub fn traverse(&self) -> (r: Vec<(u64, usize)>)
        requires
            self.wf(),
            self.depth() <= usize::MAX,
        ensures
            r@ == listing_all(self.root(), 0),
    {
        let mut out: Vec<(u64, usize)> = Vec::new();
        self.props.traverse_node(&self.root, 0, &mut out, Ghost(key_floor()), Ghost(key_ceiling()));
        proof {
            assert(out@ =~= listing_all(self.root, 0));
        }
        out
    }

    /// Whether `key` is in the tree.
    pub fn search(&self, key: u64) -> (r: bool)
        requires
            self.wf(),
        ensures
            r == self@.contains(key),
    {
        let ghost min = self.props.min();
        let ghost max = self.props.max();
        let mut cur = &self.root;
        let ghost mut lo = key_floor();
        let ghost mut hi = key_ceiling();
        proof {
            lemma_view(&self.root);
        }
        loop
            invariant
                cur.wf(lo, hi, min, max),
                self@.contains(key) == cur.has(key),
            decreases cur.height(),
        {
            let i = cur.find_index(key);
            if i < cur.keys.len() && cur.keys[i] == key {
                proof {
                    lemma_has_key(cur, i as int);
                }
                return true;
            }
            proof {
                lemma_descend(cur, lo, hi, min, max, key, i as int);
            }
            if cur.is_leaf() {
                return false;
            }
            proof {
                assert(cur.child_ok(i as int, lo, hi, min, max));
                lo = cur.lower(i as int, lo);
                hi = cur.upper(i as int, hi);
            }
            cur = &cur.children[i];
        }
    }
}

/// The root of a tree with more than one level holds at least one key.
pub proof fn lemma_root_occupancy(t: &BTree)
    requires
        t.wf(),
    ensures
        t.depth() > 0 ==> 1 <= t.root().keys@.len(),
{
}

/// Every internal node of a tree has one child more than it has keys.
pub proof fn lemma_internal_node_children(t: &BTree, n: Node, d: nat)
    requires
        t.wf(),
        t.has_node(n, d),
        n.children@.len() != 0,
    ensures
        n.children@.len() == n.keys@.len() + 1,
{
    lemma_reaches_wf(t.root, key_floor(), key_ceiling(), t.min_keys(), t.max_keys(), n, d);
}

/// Every node of a tree other than the root holds between `min_keys` and `max_keys` keys,
/// and the root at most `max_keys`.
pub proof fn lemma_node_occupancy(t: &BTree, n: Node, d: nat)
    requires
        t.wf(),
        t.has_node(n, d),
    ensures
        n.keys@.len() <= t.max_keys(),
        d > 0 ==> t.min_keys() <= n.keys@.len(),
{
    lemma_reaches_wf(t.root, key_floor(), key_ceiling(), t.min_keys(), t.max_keys(), n, d);
}

/// The keys of every node of a tree are strictly increasing, and every key below child `i`
/// lies between separators `i - 1` and `i`.
pub proof fn lemma_node_order(t: &BTree, n: Node, d: nat)
    requires
        t.wf(),
        t.has_node(n, d),
    ensures
        strictly_sorted(n.keys@),
        forall|i: int, x: u64|
            0 <= i < n.children@.len() && #[trigger] n.children@[i].has(x) ==> (0 < i ==> n.keys@[i
                - 1] < x) && (i < n.keys@.len() ==> x < n.keys@[i]),
{
    let min = t.min_keys();
    let max = t.max_keys();
    lemma_reaches_wf(t.root, key_floor(), key_ceiling(), min, max, n, d);
    let (lo, hi) = choose|lo: int, hi: int| n.wf(lo, hi, min, max);
    assert forall|i: int, x: u64|
        0 <= i < n.children@.len() && #[trigger] n.children@[i].has(x) implies (0 < i ==> n.keys@[i
            - 1] < x) && (i < n.keys@.len() ==> x < n.keys@[i]) by {
        assert(n.child_ok(i, lo, hi, min, max));
        lemma_has_in_bounds(&n.children@[i], n.lower(i, lo), n.upper(i, hi), min, max, x);
    }
}

/// Every leaf of a tree lies at the tree's depth.
pub proof fn lemma_leaves_level(t: &BTree, n: Node, d: nat)
    requires
        t.wf(),
        t.has_node(n, d),
        n.children@.len() == 0,
    ensures
        d == t.depth(),
{
    lemma_reaches_wf(t.root, key_floor(), key_ceiling(), t.min_keys(), t.max_keys(), n, d);
}

/// A tree built from an empty one by inserting `keys` in order holds exactly those keys:
/// each tree in `trees` is the previous one after inserting the next key.
pub proof fn lemma_insert_round_trip(trees: Seq<BTree>, keys: Seq<u64>)
    requires
        trees.len() == keys.len() + 1,
        trees[0]@ == Set::<u64>::empty(),
        forall|i: int| 0 <= i < keys.len() ==> #[trigger] trees[i + 1]@ == trees[i]@.insert(keys[i]),
    ensures
        forall|k: u64| trees.last()@.contains(k) <==> keys.contains(k),
    decreases keys.len(),
{
    if keys.len() > 0 {
        let n = keys.len() - 1;
        let ts = trees.subrange(0, n + 1);
        let ks = keys.subrange(0, n);
        assert forall|i: int| 0 <= i < ks.len() implies #[trigger] ts[i + 1]@ == ts[i]@.insert(ks[i]) by {
            assert(trees[i + 1]@ == trees[i]@.insert(keys[i]));
        }
        lemma_insert_round_trip(ts, ks);
        assert(trees[n + 1]@ == trees[n]@.insert(keys[n]));
        assert forall|k: u64| trees.last()@.contains(k) <==> keys.contains(k) by {
            if ks.contains(k) {
                let j = choose|j: int| 0 <= j < ks.len() && ks[j] == k;
                assert(keys[j] == k);
            }
            if keys.contains(k) {
                let j = choose|j: int| 0 <= j < keys.len() && keys[j] == k;
                if j < n {
                    assert(ks[j] == k);
                }
            }
        }
    }
}

/// Deleting a key that a tree does not hold leaves the keys it holds unchanged: `after` is
/// `before` once `key` is deleted.
pub proof fn lemma_delete_absent(before: BTree, after: BTree, key: u64)
    requires
        !before@.contains(key),
        after@ == before@.remove(key),
    ensures
        after@ == before@,
{
    assert(after@ =~= before@);
}

} // verus!
