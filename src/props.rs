use vstd::prelude::*;
use crate::shape::{
    others_ok,
    held_around,
    lemma_parent_pair,
    lemma_parent_merge,
    lemma_child_removed,
    lemma_substitute,
};
use crate::node::{
    Node,
    listing,
    listing_all,
    strictly_sorted,
    lemma_cut,
    lemma_join,
    lemma_wf_intro,
    lemma_leaf_has,
    lemma_besides_out,
    lemma_rebound,
    lemma_has_child,
    lemma_has_key,
    lemma_has_cases,
    lemma_has_in_bounds,
    lemma_update_child,
    lemma_view,
    lemma_descend,
    lemma_same_view,
    lemma_same_refl,
    lemma_replace_child_has,
    lemma_replace_child_wf,
};

verus! {

/// The children of `q` are those of `p`, but for positions `a` to `b`, which the two have
/// in common.
pub open spec fn children_kept(p: Node, q: Node, a: int, b: int) -> bool {
    &&& q.children@.len() == p.children@.len()
    &&& forall|j: int|
        0 <= j < p.children@.len() && (j < a || b < j) ==> #[trigger] q.children@[j] == p.children@[j]
}

/// Number of children that pass between siblings in a rotation: one unless they are leaves.
pub open spec fn moved_children(s: Node) -> int {
    if s.children@.len() == 0 {
        0
    } else {
        1
    }
}

/// `q` is `p` after child `i` took the separator after it, and the first child of its right
/// sibling, while the sibling's first key replaced the separator.
pub open spec fn donated_from_right(p: Node, q: Node, i: int) -> bool {
    let c = p.children@[i];
    let s = p.children@[i + 1];
    &&& q.keys@ == p.keys@.update(i, s.keys@[0])
    &&& children_kept(p, q, i, i + 1)
    &&& q.children@[i].keys@ == c.keys@.push(p.keys@[i])
    &&& q.children@[i].children@ == c.children@ + s.children@.subrange(0, moved_children(s))
    &&& q.children@[i + 1].keys@ == s.keys@.subrange(1, s.keys@.len() as int)
    &&& q.children@[i + 1].children@ == s.children@.subrange(moved_children(s), s.children@.len() as int)
}

/// `q` is `p` after child `i` took the separator before it, and the last child of its left
/// sibling, while the sibling's last key replaced the separator.
pub open spec fn donated_from_left(p: Node, q: Node, i: int) -> bool {
    let s = p.children@[i - 1];
    let c = p.children@[i];
    let k = s.keys@.len() - 1;
    let m = s.children@.len() - moved_children(s);
    &&& q.keys@ == p.keys@.update(i - 1, s.keys@[k])
    &&& children_kept(p, q, i - 1, i)
    &&& q.children@[i - 1].keys@ == s.keys@.subrange(0, k)
    &&& q.children@[i - 1].children@ == s.children@.subrange(0, m)
    &&& q.children@[i].keys@ == seq![p.keys@[i - 1]] + c.keys@
    &&& q.children@[i].children@ == s.children@.subrange(m, s.children@.len() as int) + c.children@
}

/// `q` is `p` after children `i` and `i + 1` and the separator between them became one child.
pub open spec fn merged(p: Node, q: Node, i: int) -> bool {
    let c = p.children@[i];
    let s = p.children@[i + 1];
    &&& q.keys@ == p.keys@.remove(i)
    &&& q.children@.len() + 1 == p.children@.len()
    &&& forall|j: int| 0 <= j < i ==> #[trigger] q.children@[j] == p.children@[j]
    &&& forall|j: int| i < j < q.children@.len() ==> #[trigger] q.children@[j] == p.children@[j + 1]
    &&& q.children@[i].keys@ == c.keys@ + seq![p.keys@[i]] + s.keys@
    &&& q.children@[i].children@ == c.children@ + s.children@
}

/// `q` is `p` after child `i` was split around its key `mid`, which moved up into `p`.
pub open spec fn split_at(p: Node, q: Node, i: int, mid: int) -> bool {
    let c = p.children@[i];
    &&& q.keys@ == p.keys@.insert(i, c.keys@[mid])
    &&& q.children@.len() == p.children@.len() + 1
    &&& forall|j: int| 0 <= j < i ==> #[trigger] q.children@[j] == p.children@[j]
    &&& forall|j: int| i + 1 < j < q.children@.len() ==> #[trigger] q.children@[j] == p.children@[j - 1]
    &&& q.children@[i].keys@ == c.keys@.subrange(0, mid)
    &&& q.children@[i + 1].keys@ == c.keys@.subrange(mid + 1, c.keys@.len() as int)
    &&& c.children@.len() == 0 ==> q.children@[i].children@.len() == 0 && q.children@[i + 1].children@.len() == 0
    &&& c.children@.len() != 0 ==> q.children@[i].children@ == c.children@.subrange(0, mid + 1)
        && q.children@[i + 1].children@ == c.children@.subrange(mid + 1, c.children@.len() as int)
}

/// `key` belongs at position `j` of `keys`: after the smaller keys, before the others.
pub open spec fn slot(keys: Seq<u64>, key: u64, j: int) -> bool {
    &&& 0 <= j <= keys.len()
    &&& forall|p: int| 0 <= p < j ==> keys[p] < key
    &&& forall|p: int| j <= p < keys.len() ==> key <= keys[p]
}

/// The occupancy bounds of a tree, fixed once from its degree.
pub struct BTreeProps {
    pub degree: usize,
    pub max_keys: usize,
    pub min_keys: usize,
    pub mid_key_index: usize,
}

impl BTreeProps {
    /// Bounds of a degree that is even and at least four.
    pub open spec fn valid(&self) -> bool {
        &&& 1 <= self.min_keys
        &&& self.max_keys == 2 * self.min_keys + 1
        &&& self.mid_key_index == self.min_keys
        &&& self.degree == self.max_keys + 1
    }

    pub open spec fn min(&self) -> nat {
        self.min_keys as nat
    }

    pub open spec fn max(&self) -> nat {
        self.max_keys as nat
    }

    pub fn new(degree: usize) -> (r: BTreeProps)
        requires
            4 <= degree,
            degree % 2 == 0,
        ensures
            r.valid(),
            r.degree == degree,
            r.max_keys == degree - 1,
            r.min_keys == (degree - 1) / 2,
            r.mid_key_index == r.min_keys,
    {
        BTreeProps {
            degree,
            max_keys: degree - 1,
            min_keys: (degree - 1) / 2,
            mid_key_index: (degree - 1) / 2,
        }
    }

    pub fn is_maxed_out(&self, node: &Node) -> (r: bool)
        ensures
            r == (node.keys@.len() == self.max_keys),
    {
        node.keys.len() == self.max_keys
    }

    /// Splits the full child at `child_index` around its middle key, which moves up into
    /// `parent` at `child_index`; the keys and children after it form a new right sibling.
    pub fn split_child(&self, parent: &mut Node, child_index: usize, lo: Ghost<int>, hi: Ghost<int>)
        requires
            self.valid(),
            old(parent).wf(lo@, hi@, self.min(), self.max()),
            old(parent).keys@.len() < self.max(),
            child_index < old(parent).children@.len(),
            old(parent).children@[child_index as int].keys@.len() == self.max(),
        ensures
            final(parent).wf(lo@, hi@, self.min(), self.max()),
            final(parent)@ == old(parent)@,
            final(parent).height() == old(parent).height(),
            final(parent).keys@ == old(parent).keys@.insert(
                child_index as int,
                old(parent).children@[child_index as int].keys@[self.mid_key_index as int],
            ),
            final(parent).children@.len() == old(parent).children@.len() + 1,
            final(parent).children@[child_index as int].keys@.len() == self.min(),
            final(parent).children@[child_index as int + 1].keys@.len() == self.min(),
            split_at(*old(parent), *final(parent), child_index as int, self.mid_key_index as int),
    {
        let ghost p0 = *parent;
        let i = child_index;
        let mid = self.mid_key_index;
        let mut left = parent.children.remove(i);
        let ghost c = left;
        proof {
            assert(p0.child_ok(i as int, lo@, hi@, self.min(), self.max()));
        }
        let right_keys = left.keys.split_off(mid + 1);
        let middle_key = left.keys.pop().unwrap();
        let right_children = if left.is_leaf() {
            Vec::new()
        } else {
            left.children.split_off(mid + 1)
        };
        let right = Node { keys: right_keys, children: right_children };
        parent.keys.insert(i, middle_key);
        parent.children.insert(i, left);
        parent.children.insert(i + 1, right);
        proof {
            assert(left.keys@ =~= c.keys@.subrange(0, mid as int));
            assert(right.keys@ =~= c.keys@.subrange(mid + 1, c.keys@.len() as int));
            self.lemma_split(p0, c, left, right, *parent, i as int, lo@, hi@);
        }
    }

    /// Inserts `key` into the subtree rooted at `node`, which is not full, splitting each full
    /// child on the way down before entering it. A key already present is left as it is.
    pub fn insert_non_full(&self, node: &mut Node, key: u64, lo: Ghost<int>, hi: Ghost<int>)
        requires
            self.valid(),
            old(node).wf(lo@, hi@, self.min(), self.max()),
            old(node).keys@.len() < self.max(),
            lo@ < key < hi@,
        ensures
            final(node).wf(lo@, hi@, self.min(), self.max()),
            final(node)@ == old(node)@.insert(key),
            final(node).height() == old(node).height(),
            final(node).keys@.len() >= old(node).keys@.len(),
            old(node).children@.len() == 0 ==> final(node).keys@.len() >= 1,
            old(node).keys@.contains(key) ==> *final(node) == *old(node),
            forall|j: int|
                slot(old(node).keys@, key, j) && !old(node).keys@.contains(key) ==> if old(
                    node,
                ).children@.len() == 0 {
                    final(node).keys@ == old(node).keys@.insert(j, key)
                } else if old(node).children@[j].keys@.len() == self.max() {
                    final(node).keys@ == old(node).keys@.insert(
                        j,
                        old(node).children@[j].keys@[self.mid_key_index as int],
                    )
                } else {
                    final(node).keys@ == old(node).keys@
                },
        decreases old(node).height(),
    {
        let ghost n0 = *node;
        let mut i = node.find_index(key);
        let ghost i0 = i as int;
        proof {
            assert forall|j: int| slot(n0.keys@, key, j) && !n0.keys@.contains(key) implies j == i0 by {
                if j < i0 {
                    assert(n0.keys@[j] < key);
                } else if j > i0 {
                    assert(n0.keys@[i0] < key);
                }
            }
        }
        if i < node.keys.len() && node.keys[i] == key {
            proof {
                lemma_has_key(&n0, i as int);
                lemma_view(&n0);
                assert(n0@ =~= n0@.insert(key));
            }
            return;
        }
        if node.is_leaf() {
            node.keys.insert(i, key);
            proof {
                let nn = *node;
                assert forall|x: u64| nn.has(x) <==> (n0.has(x) || x == key) by {
                    if nn.has(x) {
                        lemma_has_cases(&nn, x);
                        let k = choose|k: int| 0 <= k < nn.keys@.len() && nn.keys@[k] == x;
                        if k < i {
                            lemma_has_key(&n0, k);
                        } else if k > i {
                            lemma_has_key(&n0, k - 1);
                        }
                    }
                    if n0.has(x) {
                        lemma_has_cases(&n0, x);
                        let k = choose|k: int| 0 <= k < n0.keys@.len() && n0.keys@[k] == x;
                        if k < i {
                            lemma_has_key(&nn, k);
                        } else {
                            lemma_has_key(&nn, k + 1);
                        }
                    }
                    if x == key {
                        lemma_has_key(&nn, i as int);
                    }
                }
                lemma_view(&nn);
                lemma_view(&n0);
                assert(nn@ =~= n0@.insert(key));
            }
            return;
        }
        proof {
            assert(node.child_ok(i as int, lo@, hi@, self.min(), self.max()));
        }
        if self.is_maxed_out(&node.children[i]) {
            self.split_child(node, i, lo, hi);
            if node.keys[i] == key {
                proof {
                    let nn = *node;
                    lemma_has_key(&nn, i as int);
                    lemma_view(&nn);
                    lemma_view(&n0);
                    assert(nn@ =~= n0@.insert(key));
                }
                return;
            }
            if node.keys[i] < key {
                i += 1;
            }
        }
        let ghost n1 = *node;
        proof {
            assert(n1.child_ok(i as int, lo@, hi@, self.min(), self.max()));
            assert(n1.lower(i as int, lo@) < key < n1.upper(i as int, hi@));
        }
        let ghost clo = n1.lower(i as int, lo@);
        let ghost chi = n1.upper(i as int, hi@);
        self.insert_non_full(&mut node.children[i], key, Ghost(clo), Ghost(chi));
        proof {
            let nn = *node;
            let c2 = nn.children@[i as int];
            assert(nn.children@ == n1.children@.update(i as int, c2));
            lemma_replace_child_wf(&n1, &nn, i as int, c2, lo@, hi@, self.min(), self.max());
            lemma_replace_child_has(&n1, &nn, i as int, c2);
            lemma_view(&nn);
            lemma_view(&n1);
            lemma_view(&n0);
            lemma_view(&n1.children@[i as int]);
            lemma_view(&c2);
            assert(n1@ == n0@);
            assert(c2@ == n1.children@[i as int]@.insert(key));
            assert forall|x: u64| nn.has(x) <==> (n1.has(x) || x == key) by {
                assert(c2@.contains(x) == n1.children@[i as int]@.insert(key).contains(x));
            }
            assert(nn@ =~= n0@.insert(key));
        }
    }

    /// Child `i` has a sibling to its left with a key to spare.
    pub fn can_donate_from_left_sibling(&self, parent: &Node, i: usize) -> (r: bool)
        ensures
            r == (0 < i < parent.children@.len() && parent.children@[i - 1].keys@.len()
                > self.min_keys),
    {
        if !parent.has_left_sibling(i) {
            return false;
        }
        parent.children[i - 1].keys.len() > self.min_keys
    }

    /// Child `i` has a sibling to its right with a key to spare.
    pub fn can_donate_from_right_sibling(&self, parent: &Node, i: usize) -> (r: bool)
        ensures
            r == (i + 1 < parent.children@.len() && parent.children@[i + 1].keys@.len()
                > self.min_keys),
    {
        if !parent.has_right_sibling(i) {
            return false;
        }
        parent.children[i + 1].keys.len() > self.min_keys
    }

    /// Rotates one key from the right sibling of child `i` through the parent: the sibling's
    /// first key replaces the separator, which moves down to the end of child `i`, along with
    /// the sibling's first child.
    pub fn donate_from_right(&self, parent: &mut Node, i: usize, lo: Ghost<int>, hi: Ghost<int>)
        requires
            self.valid(),
            old(parent).wf_but(i as int, lo@, hi@, self.min(), self.max()),
            i + 1 < old(parent).children@.len(),
            old(parent).children@[i as int].keys@.len() < self.min(),
            old(parent).children@[i + 1].keys@.len() > self.min(),
        ensures
            final(parent).wf(lo@, hi@, self.min(), self.max()),
            final(parent)@ == old(parent)@,
            final(parent).height() == old(parent).height(),
            donated_from_right(*old(parent), *final(parent), i as int),
    {
        let ghost p = *parent;
        let mut sibling = parent.children.remove(i + 1);
        let mut node = parent.children.remove(i);
        let ghost c = node;
        let ghost s = sibling;
        let sibling_key = sibling.keys.remove(0);
        let mut moved = Node::new();
        if !sibling.is_leaf() {
            moved.children.push(sibling.children.remove(0));
        }
        let ghost t = moved;
        let parent_key = parent.keys[i];
        parent.keys.set(i, sibling_key);
        node.keys.push(parent_key);
        node.children.append(&mut moved.children);
        parent.children.insert(i, node);
        parent.children.insert(i + 1, sibling);
        proof {
            let min = self.min();
            let max = self.max();
            let ii = i as int;
            assert(p.child_ok(ii + 1, lo@, hi@, min, max));
            assert(others_ok(p, ii, lo@, hi@, min, max));
            assert(t.keys@ =~= s.keys@.subrange(0, 0));
            assert(sibling.keys@ =~= s.keys@.subrange(1, s.keys@.len() as int));
            if s.children@.len() != 0 {
                assert(t.children@ =~= s.children@.subrange(0, 1));
                assert(sibling.children@ =~= s.children@.subrange(1, s.children@.len() as int));
            }
            lemma_cut(s, 0, t, sibling, p.lower(ii + 1, lo@), p.upper(ii + 1, hi@), min, max);
            assert(node.keys@ =~= c.keys@ + seq![parent_key] + t.keys@);
            assert(node.children@ =~= c.children@ + t.children@);
            lemma_join(c, parent_key, t, node, p.lower(ii, lo@), sibling_key as int, min, max);
            assert(parent.children@ =~= p.children@.update(ii, node).update(ii + 1, sibling));
            assert forall|x: u64| #[trigger] held_around(node, sibling_key, sibling, x) == held_around(
                c,
                p.keys@[ii],
                s,
                x,
            ) by {}
            lemma_parent_pair(p, *parent, ii, node, sibling_key, sibling, lo@, hi@, min, max);
            assert(t.children@ =~= s.children@.subrange(0, moved_children(s)));
            assert(node.children@ =~= c.children@ + s.children@.subrange(0, moved_children(s)));
            assert(sibling.children@ =~= s.children@.subrange(moved_children(s), s.children@.len() as int));
            assert(parent.keys@ =~= p.keys@.update(ii, s.keys@[0]));
            assert(node.keys@ =~= c.keys@.push(p.keys@[ii]));
            assert(parent.children@[ii] == node);
            assert(parent.children@[ii + 1] == sibling);
            lemma_view(parent);
            lemma_view(&p);
            assert((*parent)@ =~= p@);
        }
    }

    /// Rotates one key from the left sibling of child `i` through the parent: the sibling's
    /// last key replaces the separator, which moves down to the front of child `i`, along with
    /// the sibling's last child.
    pub fn donate_from_left(&self, parent: &mut Node, i: usize, lo: Ghost<int>, hi: Ghost<int>)
        requires
            self.valid(),
            old(parent).wf_but(i as int, lo@, hi@, self.min(), self.max()),
            0 < i,
            old(parent).children@[i as int].keys@.len() < self.min(),
            old(parent).children@[i - 1].keys@.len() > self.min(),
        ensures
            final(parent).wf(lo@, hi@, self.min(), self.max()),
            final(parent)@ == old(parent)@,
            final(parent).height() == old(parent).height(),
            donated_from_left(*old(parent), *final(parent), i as int),
    {
        let ghost p = *parent;
        let mut node = parent.children.remove(i);
        let mut sibling = parent.children.remove(i - 1);
        let ghost c = node;
        let ghost s = sibling;
        let sibling_key = sibling.keys.pop().unwrap();
        let mut moved = Node::new();
        if !sibling.is_leaf() {
            moved.children.push(sibling.children.pop().unwrap());
        }
        let ghost t = moved;
        let parent_key = parent.keys[i - 1];
        parent.keys.set(i - 1, sibling_key);
        moved.keys.push(parent_key);
        moved.keys.append(&mut node.keys);
        moved.children.append(&mut node.children);
        parent.children.insert(i - 1, sibling);
        parent.children.insert(i, moved);
        proof {
            let min = self.min();
            let max = self.max();
            let ii = i - 1;
            assert(p.child_ok(ii, lo@, hi@, min, max));
            assert(others_ok(p, ii, lo@, hi@, min, max));
            let k = s.keys@.len() - 1;
            assert(sibling.keys@ =~= s.keys@.subrange(0, k));
            assert(t.keys@ =~= s.keys@.subrange(k + 1, s.keys@.len() as int));
            if s.children@.len() != 0 {
                assert(sibling.children@ =~= s.children@.subrange(0, k + 1));
                assert(t.children@ =~= s.children@.subrange(k + 1, s.children@.len() as int));
            }
            lemma_cut(s, k, sibling, t, p.lower(ii, lo@), p.upper(ii, hi@), min, max);
            assert(moved.keys@ =~= t.keys@ + seq![parent_key] + c.keys@);
            assert(moved.children@ =~= t.children@ + c.children@);
            lemma_join(t, parent_key, c, moved, sibling_key as int, p.upper(ii + 1, hi@), min, max);
            assert(parent.children@ =~= p.children@.update(ii, sibling).update(ii + 1, moved));
            assert forall|x: u64| #[trigger] held_around(sibling, sibling_key, moved, x) == held_around(
                s,
                p.keys@[ii],
                c,
                x,
            ) by {}
            lemma_parent_pair(p, *parent, ii, sibling, sibling_key, moved, lo@, hi@, min, max);
            let m = s.children@.len() - moved_children(s);
            assert(sibling.children@ =~= s.children@.subrange(0, m));
            assert(t.children@ =~= s.children@.subrange(m, s.children@.len() as int));
            assert(moved.keys@ =~= seq![p.keys@[ii]] + c.keys@);
            assert(parent.keys@ =~= p.keys@.update(ii, s.keys@[k]));
            assert(parent.children@[ii] == sibling);
            assert(parent.children@[ii + 1] == moved);
            lemma_view(parent);
            lemma_view(&p);
            assert((*parent)@ =~= p@);
        }
    }

    /// Merges child `i + 1` and the separator before it into child `i`.
    pub fn merge_with_right(&self, parent: &mut Node, i: usize, lo: Ghost<int>, hi: Ghost<int>)
        requires
            self.valid(),
            old(parent).wf_but(i as int, lo@, hi@, self.min(), self.max())
                || old(parent).wf_but(i + 1, lo@, hi@, self.min(), self.max()),
            i + 1 < old(parent).children@.len(),
            old(parent).children@[i as int].keys@.len() + old(parent).children@[i + 1].keys@.len()
                < self.max(),
        ensures
            final(parent).wf(lo@, hi@, self.min(), self.max()),
            final(parent)@ == old(parent)@,
            final(parent).height() == old(parent).height(),
            merged(*old(parent), *final(parent), i as int),
    {
        let ghost p = *parent;
        let mut right = parent.children.remove(i + 1);
        let separator = parent.keys.remove(i);
        let mut node = parent.children.remove(i);
        let ghost c = node;
        let ghost s = right;
        node.keys.push(separator);
        node.keys.append(&mut right.keys);
        node.children.append(&mut right.children);
        parent.children.insert(i, node);
        proof {
            let min = self.min();
            let max = self.max();
            let ii = i as int;
            if p.wf_but(ii, lo@, hi@, min, max) {
                assert(p.child_ok(ii + 1, lo@, hi@, min, max));
            } else {
                assert(p.child_ok(ii, lo@, hi@, min, max));
            }
            assert(others_ok(p, ii, lo@, hi@, min, max));
            assert(node.keys@ =~= c.keys@ + seq![separator] + s.keys@);
            assert(node.children@ =~= c.children@ + s.children@);
            lemma_join(c, separator, s, node, p.lower(ii, lo@), p.upper(ii + 1, hi@), min, max);
            assert(parent.children@ =~= p.children@.remove(ii + 1).update(ii, node));
            lemma_parent_merge(p, *parent, ii, node, lo@, hi@, min, max);
            lemma_view(parent);
            lemma_view(&p);
            assert((*parent)@ =~= p@);
        }
    }

    /// Merges child `i` and the separator before it into its left sibling.
    pub fn merge_with_left(&self, parent: &mut Node, i: usize, lo: Ghost<int>, hi: Ghost<int>)
        requires
            self.valid(),
            old(parent).wf_but(i as int, lo@, hi@, self.min(), self.max()),
            0 < i,
            old(parent).children@[i - 1].keys@.len() + old(parent).children@[i as int].keys@.len()
                < self.max(),
        ensures
            final(parent).wf(lo@, hi@, self.min(), self.max()),
            final(parent)@ == old(parent)@,
            final(parent).height() == old(parent).height(),
            merged(*old(parent), *final(parent), i - 1),
    {
        self.merge_with_right(parent, i - 1, lo, hi);
    }

    /// Restores the lower bound on the keys of child `i`, which may have lost one: by a
    /// donation from the right sibling, else from the left one, else by a merge with the
    /// right sibling, else with the left one. A merge costs the parent one key.
    pub fn rebalance_after_deletion(&self, parent: &mut Node, i: usize, lo: Ghost<int>, hi: Ghost<int>)
        requires
            self.valid(),
            old(parent).wf_but(i as int, lo@, hi@, self.min(), self.max()),
            1 <= old(parent).keys@.len(),
        ensures
            final(parent).wf(lo@, hi@, self.min(), self.max()),
            final(parent)@ == old(parent)@,
            final(parent).height() == old(parent).height(),
            final(parent).keys@.len() + 1 >= old(parent).keys@.len(),
            self.min() <= old(parent).children@[i as int].keys@.len() ==> *final(parent) == *old(
                parent,
            ),
            old(parent).children@[i as int].keys@.len() < self.min() ==> if i + 1
                < old(parent).children@.len() && old(parent).children@[i + 1].keys@.len()
                > self.min() {
                donated_from_right(*old(parent), *final(parent), i as int)
            } else if 0 < i && old(parent).children@[i - 1].keys@.len() > self.min() {
                donated_from_left(*old(parent), *final(parent), i as int)
            } else if i + 1 < old(parent).children@.len() {
                merged(*old(parent), *final(parent), i as int)
            } else {
                merged(*old(parent), *final(parent), i - 1)
            },
    {
        if parent.children[i].keys.len() >= self.min_keys {
            proof {
                assert(parent.child_ok(i as int, lo@, hi@, self.min(), self.max()));
                lemma_wf_intro(*parent, lo@, hi@, self.min(), self.max());
            }
            return;
        }
        if self.can_donate_from_right_sibling(parent, i) {
            self.donate_from_right(parent, i, lo, hi);
        } else if self.can_donate_from_left_sibling(parent, i) {
            self.donate_from_left(parent, i, lo, hi);
        } else if parent.has_right_sibling(i) {
            self.merge_with_right(parent, i, lo, hi);
        } else {
            self.merge_with_left(parent, i, lo, hi);
        }
    }

    /// Takes the largest key out of the subtree at `node`, rebalancing on the way back up.
    pub fn pop_max(&self, node: &mut Node, lo: Ghost<int>, hi: Ghost<int>) -> (r: u64)
        requires
            self.valid(),
            old(node).wf(lo@, hi@, self.min(), self.max()),
            1 <= old(node).keys@.len(),
        ensures
            final(node).wf(lo@, hi@, self.min(), self.max()),
            old(node).has(r),
            forall|x: u64| old(node).has(x) ==> x <= r,
            forall|x: u64| final(node).has(x) == (old(node).has(x) && x != r),
            final(node).height() == old(node).height(),
            final(node).keys@.len() + 1 >= old(node).keys@.len(),
            old(node).children@.len() == 0 ==> final(node).keys@ == old(node).keys@.drop_last(),
            old(node).children@.len() != 0 && old(node).last_leaf_len() > self.min()
                ==> final(node).keys@ == old(node).keys@,
        decreases old(node).height(),
    {
        let ghost n0 = *node;
        let ghost min = self.min();
        let ghost max = self.max();
        if node.is_leaf() {
            let r = node.keys.pop().unwrap();
            proof {
                let nn = *node;
                lemma_wf_intro(nn, lo@, hi@, min, max);
                assert(nn.keys@ =~= n0.keys@.subrange(0, n0.keys@.len() - 1));
                assert forall|x: u64| nn.has(x) == (n0.has(x) && x != r) by {
                    lemma_leaf_has(&nn, x);
                    lemma_leaf_has(&n0, x);
                    if nn.keys@.contains(x) {
                        let q = choose|q: int| 0 <= q < nn.keys@.len() && nn.keys@[q] == x;
                        assert(n0.keys@[q] == x);
                    }
                    if n0.keys@.contains(x) && x != r {
                        let q = choose|q: int| 0 <= q < n0.keys@.len() && n0.keys@[q] == x;
                        assert(nn.keys@[q] == x);
                    }
                }
                assert forall|x: u64| n0.has(x) implies x <= r by {
                    lemma_leaf_has(&n0, x);
                    if n0.keys@.contains(x) {
                        let q = choose|q: int| 0 <= q < n0.keys@.len() && n0.keys@[q] == x;
                        assert(q <= n0.keys@.len() - 1);
                    }
                }
                lemma_has_key(&n0, n0.keys@.len() - 1);
                assert(nn.keys@ =~= n0.keys@.drop_last());
            }
            return r;
        }
        let last = node.children.len() - 1;
        proof {
            assert(n0.child_ok(last as int, lo@, hi@, min, max));
        }
        let r = self.pop_max(
            &mut node.children[last],
            Ghost(n0.lower(last as int, lo@)),
            Ghost(n0.upper(last as int, hi@)),
        );
        let ghost n1 = *node;
        proof {
            let l = last as int;
            let c2 = n1.children@[l];
            assert(n1.children@ == n0.children@.update(l, c2));
            lemma_has_child(&n0, l, r);
            lemma_has_in_bounds(&n0.children@[l], n0.lower(l, lo@), n0.upper(l, hi@), min, max, r);
            lemma_child_removed(n0, n1, l, c2, r, lo@, hi@, min, max);
            lemma_replace_child_has(&n0, &n1, l, c2);
            assert(n1.keys@ == n0.keys@);
            if n0.last_leaf_len() > min {
                assert(n0.last_leaf_len() == n0.children@[l].last_leaf_len());
                assert(n0.child_ok(l, lo@, hi@, min, max));
                assert(min <= c2.keys@.len());
            }
            assert forall|x: u64| n0.has(x) implies x <= r by {
                lemma_has_in_bounds(&n0, lo@, hi@, min, max, x);
                if n0.has_besides(l, x) {
                    lemma_besides_out(&n0, l, lo@, hi@, min, max, x);
                }
            }
        }
        self.rebalance_after_deletion(node, last, lo, hi);
        proof {
            lemma_same_view(*node, n1);
        }
        r
    }

    /// Takes the smallest key out of the subtree at `node`, rebalancing on the way back up.
    pub fn pop_min(&self, node: &mut Node, lo: Ghost<int>, hi: Ghost<int>) -> (r: u64)
        requires
            self.valid(),
            old(node).wf(lo@, hi@, self.min(), self.max()),
            1 <= old(node).keys@.len(),
        ensures
            final(node).wf(lo@, hi@, self.min(), self.max()),
            old(node).has(r),
            forall|x: u64| old(node).has(x) ==> r <= x,
            forall|x: u64| final(node).has(x) == (old(node).has(x) && x != r),
            final(node).height() == old(node).height(),
            final(node).keys@.len() + 1 >= old(node).keys@.len(),
        decreases old(node).height(),
    {
        let ghost n0 = *node;
        let ghost min = self.min();
        let ghost max = self.max();
        if node.is_leaf() {
            let r = node.keys.remove(0);
            proof {
                let nn = *node;
                lemma_wf_intro(nn, lo@, hi@, min, max);
                assert(nn.keys@ =~= n0.keys@.subrange(1, n0.keys@.len() as int));
                assert forall|x: u64| nn.has(x) == (n0.has(x) && x != r) by {
                    lemma_leaf_has(&nn, x);
                    lemma_leaf_has(&n0, x);
                    if nn.keys@.contains(x) {
                        let q = choose|q: int| 0 <= q < nn.keys@.len() && nn.keys@[q] == x;
                        assert(n0.keys@[q + 1] == x);
                    }
                    if n0.keys@.contains(x) && x != r {
                        let q = choose|q: int| 0 <= q < n0.keys@.len() && n0.keys@[q] == x;
                        assert(nn.keys@[q - 1] == x);
                    }
                }
                assert forall|x: u64| n0.has(x) implies r <= x by {
                    lemma_leaf_has(&n0, x);
                    if n0.keys@.contains(x) {
                        let q = choose|q: int| 0 <= q < n0.keys@.len() && n0.keys@[q] == x;
                        assert(0 <= q);
                    }
                }
                lemma_has_key(&n0, 0);
            }
            return r;
        }
        proof {
            assert(n0.child_ok(0, lo@, hi@, min, max));
        }
        let r = self.pop_min(&mut node.children[0], Ghost(n0.lower(0, lo@)), Ghost(n0.upper(0, hi@)));
        let ghost n1 = *node;
        proof {
            let c2 = n1.children@[0];
            assert(n1.children@ == n0.children@.update(0, c2));
            lemma_has_child(&n0, 0, r);
            lemma_has_in_bounds(&n0.children@[0], n0.lower(0, lo@), n0.upper(0, hi@), min, max, r);
            lemma_child_removed(n0, n1, 0, c2, r, lo@, hi@, min, max);
            lemma_replace_child_has(&n0, &n1, 0, c2);
            assert forall|x: u64| n0.has(x) implies r <= x by {
                lemma_has_in_bounds(&n0, lo@, hi@, min, max, x);
                if n0.has_besides(0, x) {
                    lemma_besides_out(&n0, 0, lo@, hi@, min, max, x);
                }
            }
        }
        self.rebalance_after_deletion(node, 0, lo, hi);
        proof {
            lemma_same_view(*node, n1);
        }
        r
    }

    /// Removes key `i` of a leaf.
    pub fn remove_key_from_node(&self, node: &mut Node, i: usize)
        requires
            i < old(node).keys@.len(),
        ensures
            final(node).keys@ == old(node).keys@.remove(i as int),
            final(node).children@ == old(node).children@,
    {
        node.keys.remove(i);
    }

    /// Puts `new_key` in place of key `i`.
    pub fn replace_keys(&self, node: &mut Node, i: usize, new_key: u64)
        requires
            i < old(node).keys@.len(),
        ensures
            final(node).keys@ == old(node).keys@.update(i as int, new_key),
            final(node).children@ == old(node).children@,
    {
        node.keys.set(i, new_key);
    }

    /// Deletes key `i` of `node`. In a leaf it is removed; otherwise it is replaced by its
    /// predecessor when the leaf that holds it can spare a key, else by its successor, and the
    /// child that gave the key up is rebalanced.
    pub fn delete_key(&self, node: &mut Node, i: usize, lo: Ghost<int>, hi: Ghost<int>)
        requires
            self.valid(),
            old(node).wf(lo@, hi@, self.min(), self.max()),
            i < old(node).keys@.len(),
        ensures
            final(node).wf(lo@, hi@, self.min(), self.max()),
            forall|x: u64| final(node).has(x) == (old(node).has(x) && x != old(node).keys@[i as int]),
            final(node).height() == old(node).height(),
            final(node).keys@.len() + 1 >= old(node).keys@.len(),
            old(node).children@.len() != 0 && old(node).children@[i as int].last_leaf_len()
                > self.min() ==> {
                &&& final(node).keys@.len() == old(node).keys@.len()
                &&& old(node).children@[i as int].has(final(node).keys@[i as int])
                &&& forall|x: u64|
                    old(node).children@[i as int].has(x) ==> x <= final(node).keys@[i as int]
                &&& forall|j: int|
                    0 <= j < old(node).keys@.len() && j != i ==> final(node).keys@[j]
                        == old(node).keys@[j]
            },
    {
        let ghost n0 = *node;
        let ghost min = self.min();
        let ghost max = self.max();
        let ghost ii = i as int;
        if node.is_leaf() {
            self.remove_key_from_node(node, i);
            proof {
                let nn = *node;
                assert forall|a: int, b: int| 0 <= a < b < nn.keys@.len() implies nn.keys@[a] < nn.keys@[b] by {
                    if a >= ii {
                        assert(nn.keys@[a] == n0.keys@[a + 1]);
                    }
                    if b >= ii {
                        assert(nn.keys@[b] == n0.keys@[b + 1]);
                    }
                }
                assert forall|q: int| 0 <= q < nn.keys@.len() implies lo@ < #[trigger] nn.keys@[q] < hi@ by {
                    if q >= ii {
                        assert(nn.keys@[q] == n0.keys@[q + 1]);
                    }
                }
                lemma_wf_intro(nn, lo@, hi@, min, max);
                assert forall|x: u64| nn.has(x) == (n0.has(x) && x != n0.keys@[ii]) by {
                    lemma_leaf_has(&nn, x);
                    lemma_leaf_has(&n0, x);
                    if nn.keys@.contains(x) {
                        let q = choose|q: int| 0 <= q < nn.keys@.len() && nn.keys@[q] == x;
                        if q < ii {
                            assert(n0.keys@[q] == x);
                        } else {
                            assert(n0.keys@[q + 1] == x);
                        }
                    }
                    if n0.keys@.contains(x) && x != n0.keys@[ii] {
                        let q = choose|q: int| 0 <= q < n0.keys@.len() && n0.keys@[q] == x;
                        if q < ii {
                            assert(nn.keys@[q] == x);
                        } else {
                            assert(nn.keys@[q - 1] == x);
                        }
                    }
                }
            }
            return;
        }
        proof {
            assert(n0.child_ok(ii, lo@, hi@, min, max));
            assert(n0.child_ok(ii + 1, lo@, hi@, min, max));
        }
        if node.children[i].last_leaf_key_count() > self.min_keys {
            let pred = self.pop_max(
                &mut node.children[i],
                Ghost(n0.lower(ii, lo@)),
                Ghost(n0.upper(ii, hi@)),
            );
            self.replace_keys(node, i, pred);
            let ghost n1 = *node;
            proof {
                let c2 = n1.children@[ii];
                assert(n1.children@ == n0.children@.update(ii, c2));
                lemma_has_in_bounds(&n0.children@[ii], n0.lower(ii, lo@), n0.upper(ii, hi@), min, max, pred);
                assert forall|x: u64| c2.has(x) implies n1.lower(ii, lo@) < x < n1.upper(ii, hi@) by {
                    lemma_has_in_bounds(&n0.children@[ii], n0.lower(ii, lo@), n0.upper(ii, hi@), min, max, x);
                }
                lemma_rebound(c2, n0.lower(ii, lo@), n0.upper(ii, hi@), n1.lower(ii, lo@), n1.upper(ii, hi@), min, max);
                lemma_substitute(n0, n1, ii, ii, c2, pred, lo@, hi@, min, max);
                if c2.children@.len() == 0 {
                    assert(c2.keys@.len() + 1 == n0.children@[ii].keys@.len());
                } else {
                    assert(c2.keys@ == n0.children@[ii].keys@);
                }
                assert(min <= c2.keys@.len());
            }
            self.rebalance_after_deletion(node, i, lo, hi);
            proof {
                lemma_same_view(*node, n1);
            }
        } else {
            let succ = self.pop_min(
                &mut node.children[i + 1],
                Ghost(n0.lower(ii + 1, lo@)),
                Ghost(n0.upper(ii + 1, hi@)),
            );
            self.replace_keys(node, i, succ);
            let ghost n1 = *node;
            proof {
                let c2 = n1.children@[ii + 1];
                assert(n1.children@ == n0.children@.update(ii + 1, c2));
                lemma_has_in_bounds(&n0.children@[ii + 1], n0.lower(ii + 1, lo@), n0.upper(ii + 1, hi@), min, max, succ);
                assert forall|x: u64| c2.has(x) implies n1.lower(ii + 1, lo@) < x < n1.upper(ii + 1, hi@) by {
                    lemma_has_in_bounds(&n0.children@[ii + 1], n0.lower(ii + 1, lo@), n0.upper(ii + 1, hi@), min, max, x);
                }
                lemma_rebound(c2, n0.lower(ii + 1, lo@), n0.upper(ii + 1, hi@), n1.lower(ii + 1, lo@), n1.upper(ii + 1, hi@), min, max);
                lemma_substitute(n0, n1, ii, ii + 1, c2, succ, lo@, hi@, min, max);
            }
            self.rebalance_after_deletion(node, i + 1, lo, hi);
            proof {
                lemma_same_view(*node, n1);
            }
        }
    }

    /// Deletes `key` from the subtree at `node` if it is there, descending to the node that
    /// holds it and rebalancing each child on the way back up. Returns whether it was there.
    pub fn delete_from(&self, node: &mut Node, key: u64, lo: Ghost<int>, hi: Ghost<int>) -> (found: bool)
        requires
            self.valid(),
            old(node).wf(lo@, hi@, self.min(), self.max()),
            old(node).children@.len() != 0 ==> 1 <= old(node).keys@.len(),
            lo@ < key < hi@,
        ensures
            final(node).wf(lo@, hi@, self.min(), self.max()),
            found == old(node).has(key),
            forall|x: u64| final(node).has(x) == (old(node).has(x) && x != key),
            final(node).height() == old(node).height(),
            final(node).keys@.len() + 1 >= old(node).keys@.len(),
            !old(node).has(key) ==> final(node).same(*old(node)),
        decreases old(node).height(),
    {
        let ghost n0 = *node;
        let ghost min = self.min();
        let ghost max = self.max();
        let i = node.find_index(key);
        if i < node.keys.len() && node.keys[i] == key {
            proof {
                lemma_has_key(&n0, i as int);
            }
            self.delete_key(node, i, lo, hi);
            return true;
        }
        proof {
            lemma_descend(&n0, lo@, hi@, min, max, key, i as int);
        }
        if node.is_leaf() {
            proof {
                lemma_wf_intro(n0, lo@, hi@, min, max);
                lemma_same_refl(n0);
            }
            return false;
        }
        let ghost ii = i as int;
        proof {
            assert(n0.child_ok(ii, lo@, hi@, min, max));
        }
        let found = self.delete_from(
            &mut node.children[i],
            key,
            Ghost(n0.lower(ii, lo@)),
            Ghost(n0.upper(ii, hi@)),
        );
        let ghost n1 = *node;
        proof {
            let c2 = n1.children@[ii];
            assert(n1.children@ == n0.children@.update(ii, c2));
            lemma_child_removed(n0, n1, ii, c2, key, lo@, hi@, min, max);
            if !n0.has(key) {
                assert(n0.child_ok(ii, lo@, hi@, min, max));
                assert(c2.keys@ == n0.children@[ii].keys@);
            }
        }
        self.rebalance_after_deletion(node, i, lo, hi);
        proof {
            lemma_same_view(*node, n1);
            if !n0.has(key) {
                assert forall|j: int| #![trigger n1.children@[j]] 0 <= j < n1.children@.len() implies n1.children@[j].same(
                    n0.children@[j],
                ) by {
                    if j != ii {
                        lemma_same_refl(n0.children@[j]);
                    }
                }
                assert(n1.same(n0));
            }
        }
        found
    }

    /// Appends every key of the subtree at `node`, in order, with its depth, `node` lying at
    /// depth `depth`.
    pub fn traverse_node(
        &self,
        node: &Node,
        depth: usize,
        out: &mut Vec<(u64, usize)>,
        lo: Ghost<int>,
        hi: Ghost<int>,
    )
        requires
            node.wf(lo@, hi@, self.min(), self.max()),
            depth + node.height() <= usize::MAX,
        ensures
            final(out)@ == old(out)@ + listing_all(*node, depth),
        decreases node.height(),
    {
        let ghost o0 = out@;
        if node.is_leaf() {
            let mut k: usize = 0;
            while k < node.keys.len()
                invariant
                    k <= node.keys@.len(),
                    node.children@.len() == 0,
                    out@ == o0 + Seq::new(k as nat, |q: int| (node.keys@[q], depth)),
                decreases node.keys@.len() - k,
            {
                out.push((node.keys[k], depth));
                k += 1;
                proof {
                    assert(out@ =~= o0 + Seq::new(k as nat, |q: int| (node.keys@[q], depth)));
                }
            }
            proof {
                assert(listing_all(*node, depth) =~= Seq::new(
                    node.keys@.len(),
                    |q: int| (node.keys@[q], depth),
                ));
            }
            return;
        }
        let mut j: usize = 0;
        while j < node.children.len()
            invariant
                j <= node.children@.len(),
                node.children@.len() != 0,
                node.wf(lo@, hi@, self.min(), self.max()),
                depth + node.height() <= usize::MAX,
                out@ == o0 + listing(*node, depth, j as int),
            decreases node.children@.len() - j,
        {
            proof {
                assert(node.child_ok(j as int, lo@, hi@, self.min(), self.max()));
            }
            let ghost before = out@;
            self.traverse_node(
                &node.children[j],
                depth + 1,
                out,
                Ghost(node.lower(j as int, lo@)),
                Ghost(node.upper(j as int, hi@)),
            );
            if j < node.keys.len() {
                out.push((node.keys[j], depth));
            }
            j += 1;
            proof {
                let c = node.children@[j - 1];
                assert(listing(*node, depth, j as int) == listing(*node, depth, j - 1) + listing(
                    c,
                    (depth + 1) as usize,
                    c.children@.len() as int,
                ) + if j - 1 < node.keys@.len() {
                    seq![(node.keys@[j - 1], depth)]
                } else {
                    seq![]
                });
                assert(out@ =~= o0 + listing(*node, depth, j as int));
            }
        }
    }

    /// The parent after a split holds the same keys as before.
    #[verifier::rlimit(60)]
    proof fn lemma_split_has(
        &self,
        p0: Node,
        c: Node,
        left: Node,
        right: Node,
        p: Node,
        i: int,
        lo: int,
        hi: int,
    )
        requires
            self.valid(),
            p0.wf(lo, hi, self.min(), self.max()),
            p0.keys@.len() < self.max(),
            0 <= i < p0.children@.len(),
            c == p0.children@[i],
            c.keys@.len() == self.max(),
            left.keys@ == c.keys@.subrange(0, self.min() as int),
            right.keys@ == c.keys@.subrange(self.min() as int + 1, c.keys@.len() as int),
            c.children@.len() == 0 ==> left.children@.len() == 0 && right.children@.len() == 0,
            c.children@.len() != 0 ==> left.children@ == c.children@.subrange(0, self.min() as int + 1)
                && right.children@ == c.children@.subrange(
                self.min() as int + 1,
                c.children@.len() as int,
            ),
            p.keys@ == p0.keys@.insert(i, c.keys@[self.min() as int]),
            p.children@ == p0.children@.remove(i).insert(i, left).insert(i + 1, right),
        ensures
            forall|x: u64| p.has(x) <==> p0.has(x),
    {
        let min = self.min();
        let max = self.max();
        let mid = min as int;
        assert(p0.child_ok(i, lo, hi, min, max));
        let cl = p0.lower(i, lo);
        let cu = p0.upper(i, hi);
        let m = c.keys@[mid];
        lemma_cut(c, mid, left, right, cl, cu, min, max);
        assert forall|x: u64| p.has(x) <==> p0.has(x) by {
            if p0.has(x) {
                lemma_has_cases(&p0, x);
                if p0.keys@.contains(x) {
                    let k = choose|k: int| 0 <= k < p0.keys@.len() && p0.keys@[k] == x;
                    if k < i {
                        lemma_has_key(&p, k);
                    } else {
                        lemma_has_key(&p, k + 1);
                    }
                } else {
                    let j = choose|j: int| 0 <= j < p0.children@.len() && p0.children@[j].has(x);
                    if j < i {
                        assert(p.children@[j] == p0.children@[j]);
                        lemma_has_child(&p, j, x);
                    } else if j > i {
                        assert(p.children@[j + 1] == p0.children@[j]);
                        lemma_has_child(&p, j + 1, x);
                    } else if left.has(x) {
                        assert(p.children@[i] == left);
                        lemma_has_child(&p, i, x);
                    } else if right.has(x) {
                        assert(p.children@[i + 1] == right);
                        lemma_has_child(&p, i + 1, x);
                    } else {
                        lemma_has_key(&p, i);
                    }
                }
            }
            if p.has(x) {
                lemma_has_cases(&p, x);
                if p.keys@.contains(x) {
                    let k = choose|k: int| 0 <= k < p.keys@.len() && p.keys@[k] == x;
                    if k < i {
                        lemma_has_key(&p0, k);
                    } else if k > i {
                        lemma_has_key(&p0, k - 1);
                    } else {
                        lemma_has_key(&c, mid);
                        lemma_has_child(&p0, i, x);
                    }
                } else {
                    let j = choose|j: int| 0 <= j < p.children@.len() && p.children@[j].has(x);
                    if j < i {
                        assert(p.children@[j] == p0.children@[j]);
                        lemma_has_child(&p0, j, x);
                    } else if j > i + 1 {
                        assert(p.children@[j] == p0.children@[j - 1]);
                        lemma_has_child(&p0, j - 1, x);
                    } else {
                        assert(p.children@[j] == left || p.children@[j] == right);
                        assert(c.has(x));
                        lemma_has_child(&p0, i, x);
                    }
                }
            }
        }
    }

    /// The parent after a split is well formed, as high as before and holding the same keys,
    /// and each half holds `min_keys` keys.
    #[verifier::rlimit(100)]
    proof fn lemma_split(
        &self,
        p0: Node,
        c: Node,
        left: Node,
        right: Node,
        p: Node,
        i: int,
        lo: int,
        hi: int,
    )
        requires
            self.valid(),
            p0.wf(lo, hi, self.min(), self.max()),
            p0.keys@.len() < self.max(),
            0 <= i < p0.children@.len(),
            c == p0.children@[i],
            c.keys@.len() == self.max(),
            left.keys@ == c.keys@.subrange(0, self.min() as int),
            right.keys@ == c.keys@.subrange(self.min() as int + 1, c.keys@.len() as int),
            c.children@.len() == 0 ==> left.children@.len() == 0 && right.children@.len() == 0,
            c.children@.len() != 0 ==> left.children@ == c.children@.subrange(0, self.min() as int + 1)
                && right.children@ == c.children@.subrange(
                self.min() as int + 1,
                c.children@.len() as int,
            ),
            p.keys@ == p0.keys@.insert(i, c.keys@[self.min() as int]),
            p.children@ == p0.children@.remove(i).insert(i, left).insert(i + 1, right),
        ensures
            p.wf(lo, hi, self.min(), self.max()),
            p@ == p0@,
            p.height() == p0.height(),
            left.keys@.len() == self.min(),
            right.keys@.len() == self.min(),
    {
        let min = self.min();
        let max = self.max();
        let mid = min as int;
        assert(p0.child_ok(i, lo, hi, min, max));
        let cl = p0.lower(i, lo);
        let cu = p0.upper(i, hi);
        let m = c.keys@[mid];
        assert(c.wf(cl, cu, min, max));
        assert(cl < m < cu);
        lemma_cut(c, mid, left, right, cl, cu, min, max);
        // the parent
        assert(strictly_sorted(p.keys@)) by {
            if 0 < i {
                assert(cl == p0.keys@[i - 1]);
            }
            if i < p0.keys@.len() {
                assert(cu == p0.keys@[i]);
            }
        }
        assert forall|j: int| 0 <= j < p.keys@.len() implies lo < #[trigger] p.keys@[j] < hi by {
            if j == i {
                if 0 < i {
                    assert(lo < p0.keys@[i - 1]);
                }
                if i < p0.keys@.len() {
                    assert(p0.keys@[i] < hi);
                }
            }
        }
        assert(p.shape_ok(lo, hi, max));
        assert(p.height() == p0.height()) by {
            if i == 0 {
                assert(p.children@[0] == left);
            } else {
                assert(p.children@[0] == p0.children@[0]);
            }
        }
        assert forall|j: int| 0 <= j < p.children@.len() implies #[trigger] p.child_ok(
            j,
            lo,
            hi,
            min,
            max,
        ) by {
            if j < i {
                assert(p0.child_ok(j, lo, hi, min, max));
                assert(p.children@[j] == p0.children@[j]);
            } else if j == i {
                assert(p.children@[j] == left);
            } else if j == i + 1 {
                assert(p.children@[j] == right);
            } else {
                assert(p0.child_ok(j - 1, lo, hi, min, max));
                assert(p.children@[j] == p0.children@[j - 1]);
            }
        }
        assert(p.wf(lo, hi, min, max));
        self.lemma_split_has(p0, c, left, right, p, i, lo, hi);
        lemma_view(&p);
        lemma_view(&p0);
        assert(p@ =~= p0@);
    }
}

} // verus!
