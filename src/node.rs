use vstd::prelude::*;

verus! {

/// Keys in strictly increasing order.
pub open spec fn strictly_sorted(s: Seq<u64>) -> bool {
    forall|i: int, j: int| 0 <= i < j < s.len() ==> s[i] < s[j]
}

/// Each key below the first `j` children of `n` (every key, when it is a leaf) and the
/// separators after them, in order, paired with its depth, `n` lying at depth `d`.
pub open spec fn listing(n: Node, d: usize, j: int) -> Seq<(u64, usize)>
    decreases n, j,
{
    if n.children@.len() == 0 {
        Seq::new(n.keys@.len(), |k: int| (n.keys@[k], d))
    } else if j <= 0 || j > n.children@.len() {
        seq![]
    } else {
        let c = n.children@[j - 1];
        listing(n, d, j - 1) + listing(c, (d + 1) as usize, c.children@.len() as int) + if j - 1
            < n.keys@.len() {
            seq![(n.keys@[j - 1], d)]
        } else {
            seq![]
        }
    }
}

/// Every key of the subtree at `n`, in order, paired with its depth, `n` lying at depth `d`.
pub open spec fn listing_all(n: Node, d: usize) -> Seq<(u64, usize)> {
    listing(n, d, n.children@.len() as int)
}

/// One level of the tree: its keys and, for an internal node, one more child than keys.
pub struct Node {
    pub keys: Vec<u64>,
    pub children: Vec<Node>,
}

impl Node {
    pub open spec fn leaf(&self) -> bool {
        self.children@.len() == 0
    }

    /// `k` is held by this node or by a node below it.
    #[verifier::opaque]
    pub open spec fn has(&self, k: u64) -> bool
        decreases self,
    {
        self.keys@.contains(k) || exists|i: int|
            0 <= i < self.children@.len() && self.children@[i].has(k)
    }

    /// `k` is one of this node's keys or is held below a child other than child `i`.
    pub open spec fn has_besides(&self, i: int, k: u64) -> bool {
        self.keys@.contains(k) || exists|j: int|
            0 <= j < self.children@.len() && j != i && self.children@[j].has(k)
    }

    /// Number of keys in the rightmost leaf below this node.
    pub open spec fn last_leaf_len(&self) -> nat
        decreases self,
    {
        if self.children@.len() == 0 {
            self.keys@.len()
        } else {
            self.children@[self.children@.len() - 1].last_leaf_len()
        }
    }

    /// `n` is found `d` levels below this node.
    pub open spec fn reaches(&self, n: Node, d: nat) -> bool
        decreases self,
    {
        if d == 0 {
            *self == n
        } else {
            exists|i: int| 0 <= i < self.children@.len() && self.children@[i].reaches(n, (d - 1) as nat)
        }
    }

    /// This subtree and `o` have the same keys, node for node.
    pub open spec fn same(&self, o: Node) -> bool
        decreases self,
    {
        &&& self.keys@ == o.keys@
        &&& self.children@.len() == o.children@.len()
        &&& forall|j: int|
            #![trigger self.children@[j]]
            0 <= j < self.children@.len() ==> self.children@[j].same(o.children@[j])
    }

    /// The keys held in this subtree.
    pub open spec fn view(&self) -> Set<u64> {
        Set::new(|k: u64| self.has(k))
    }

    /// Number of edges from this node down to its leftmost leaf.
    pub open spec fn height(&self) -> nat
        decreases self,
    {
        if self.children@.len() == 0 {
            0
        } else {
            self.children@[0].height() + 1
        }
    }

    /// Exclusive lower bound on the keys below child `i`, given the node's own bound `lo`.
    pub open spec fn lower(&self, i: int, lo: int) -> int {
        if i <= 0 {
            lo
        } else {
            self.keys@[i - 1] as int
        }
    }

    /// Exclusive upper bound on the keys below child `i`, given the node's own bound `hi`.
    pub open spec fn upper(&self, i: int, hi: int) -> int {
        if i >= self.keys@.len() {
            hi
        } else {
            self.keys@[i] as int
        }
    }

    /// The node's own keys: at most `max`, strictly increasing, strictly between `lo` and `hi`,
    /// and one child more than keys unless it is a leaf.
    pub open spec fn shape_ok(&self, lo: int, hi: int, max: nat) -> bool {
        &&& self.keys@.len() <= max
        &&& strictly_sorted(self.keys@)
        &&& forall|j: int| 0 <= j < self.keys@.len() ==> lo < #[trigger] self.keys@[j] < hi
        &&& (self.children@.len() == 0 || self.children@.len() == self.keys@.len() + 1)
    }

    /// Child `i` is a well-formed subtree between its separators, holding at least `min`
    /// keys, one level below this node.
    pub open spec fn child_ok(&self, i: int, lo: int, hi: int, min: nat, max: nat) -> bool {
        &&& 0 <= i < self.children@.len()
        &&& self.children@[i].wf(self.lower(i, lo), self.upper(i, hi), min, max)
        &&& min <= self.children@[i].keys@.len()
        &&& self.children@[i].height() + 1 == self.height()
    }

    /// Well formed but for child `i`, which may hold one key fewer than `min`.
    pub open spec fn wf_but(&self, i: int, lo: int, hi: int, min: nat, max: nat) -> bool {
        &&& self.shape_ok(lo, hi, max)
        &&& 0 <= i < self.children@.len()
        &&& self.children@[i].wf(self.lower(i, lo), self.upper(i, hi), min, max)
        &&& self.children@[i].height() + 1 == self.height()
        &&& min <= self.children@[i].keys@.len() + 1
        &&& forall|j: int|
            0 <= j < self.children@.len() && j != i ==> #[trigger] self.child_ok(j, lo, hi, min, max)
    }

    /// The subtree rooted here is a B-tree whose keys lie strictly between `lo` and `hi`;
    /// the lower bound on this node's own key count is left to its parent.
    pub open spec fn wf(&self, lo: int, hi: int, min: nat, max: nat) -> bool
        decreases self,
    {
        &&& self.shape_ok(lo, hi, max)
        &&& forall|i: int|
            #![trigger self.children@[i]]
            0 <= i < self.children@.len() ==> {
                &&& self.children@[i].wf(self.lower(i, lo), self.upper(i, hi), min, max)
                &&& min <= self.children@[i].keys@.len()
                &&& self.children@[i].height() + 1 == self.height()
            }
    }

    pub fn new() -> (r: Node)
        ensures
            r.keys@.len() == 0,
            r.children@.len() == 0,
    {
        Node { keys: Vec::new(), children: Vec::new() }
    }

    pub fn is_leaf(&self) -> (r: bool)
        ensures
            r == self.leaf(),
    {
        self.children.len() == 0
    }

    /// Number of keys in the rightmost leaf below this node.
    pub fn last_leaf_key_count(&self) -> (r: usize)
        ensures
            r == self.last_leaf_len(),
        decreases self,
    {
        if self.is_leaf() {
            self.keys.len()
        } else {
            self.children[self.children.len() - 1].last_leaf_key_count()
        }
    }

    /// Child `i` has a sibling to its left.
    pub fn has_left_sibling(&self, i: usize) -> (r: bool)
        ensures
            r == (0 < i < self.children@.len()),
    {
        0 < i && i < self.children.len()
    }

    /// Child `i` has a sibling to its right.
    pub fn has_right_sibling(&self, i: usize) -> (r: bool)
        ensures
            r == (i + 1 < self.children.len()),
    {
        i < self.children.len() && self.children.len() - i > 1
    }

    /// The number of keys smaller than `key`: where `key` is found or would go.
    pub fn find_index(&self, key: u64) -> (r: usize)
        requires
            strictly_sorted(self.keys@),
        ensures
            r <= self.keys@.len(),
            forall|j: int| 0 <= j < r ==> self.keys@[j] < key,
            forall|j: int| r <= j < self.keys@.len() ==> key <= self.keys@[j],
    {
        let mut i: usize = self.keys.len();
        while i > 0 && self.keys[i - 1] >= key
            invariant
                i <= self.keys@.len(),
                forall|j: int| i <= j < self.keys@.len() ==> key <= self.keys@[j],
            decreases i,
        {
            i -= 1;
        }
        i
    }
}

/// Every key held in a well-formed subtree lies within its bounds.
pub proof fn lemma_has_in_bounds(n: &Node, lo: int, hi: int, min: nat, max: nat, x: u64)
    requires
        n.wf(lo, hi, min, max),
        n.has(x),
    ensures
        lo < x < hi,
    decreases n,
{
    lemma_has_cases(n, x);
    if !n.keys@.contains(x) {
        let i = choose|i: int| 0 <= i < n.children@.len() && n.children@[i].has(x);
        assert(n.child_ok(i, lo, hi, min, max));
        lemma_has_in_bounds(&n.children@[i], n.lower(i, lo), n.upper(i, hi), min, max, x);
        if 0 < i {
            assert(lo < n.keys@[i - 1]);
        }
        if i < n.keys@.len() {
            assert(n.keys@[i] < hi);
        }
    } else {
        let k = choose|k: int| 0 <= k < n.keys@.len() && n.keys@[k] == x;
        assert(lo < n.keys@[k] < hi);
    }
}

/// A key held by child `j` is held by the node.
pub proof fn lemma_has_child(n: &Node, j: int, x: u64)
    requires
        0 <= j < n.children@.len(),
        n.children@[j].has(x),
    ensures
        n.has(x),
{
    reveal(Node::has);
    assert(exists|i: int| 0 <= i < n.children@.len() && n.children@[i].has(x));
}

/// A node holds each of its own keys.
pub proof fn lemma_has_key(n: &Node, k: int)
    requires
        0 <= k < n.keys@.len(),
    ensures
        n.has(n.keys@[k]),
{
    reveal(Node::has);
    assert(n.keys@.contains(n.keys@[k]));
}

/// What a node holds once child `i` is replaced by `c2`, keys unchanged.
pub proof fn lemma_update_child(n: &Node, n2: &Node, i: int, c2: Node, x: u64)
    requires
        0 <= i < n.children@.len(),
        n2.keys@ == n.keys@,
        n2.children@ == n.children@.update(i, c2),
    ensures
        n.has(x) <==> (n.keys@.contains(x) || n.children@[i].has(x) || exists|j: int|
            0 <= j < n.children@.len() && j != i && n.children@[j].has(x)),
        n2.has(x) <==> (n.keys@.contains(x) || c2.has(x) || exists|j: int|
            0 <= j < n.children@.len() && j != i && n.children@[j].has(x)),
{
    reveal(Node::has);
    if exists|j: int| 0 <= j < n2.children@.len() && n2.children@[j].has(x) {
        let j = choose|j: int| 0 <= j < n2.children@.len() && n2.children@[j].has(x);
        if j != i {
            assert(n.children@[j].has(x));
        }
    }
    if exists|j: int| 0 <= j < n.children@.len() && j != i && n.children@[j].has(x) {
        let j = choose|j: int| 0 <= j < n.children@.len() && j != i && n.children@[j].has(x);
        assert(n2.children@[j].has(x));
    }
    assert(n2.children@[i] == c2);
    if c2.has(x) {
        assert(n2.children@[i].has(x));
    }
    if n.children@[i].has(x) {
        assert(n.children@[i].has(x));
    }
}

/// Replacing child `i` by `c2`, keys unchanged, changes what the node holds only through
/// that child.
pub proof fn lemma_replace_child_has(n: &Node, n2: &Node, i: int, c2: Node)
    requires
        0 <= i < n.children@.len(),
        n2.keys@ == n.keys@,
        n2.children@ == n.children@.update(i, c2),
    ensures
        forall|x: u64|
            #![trigger n2.has(x)]
            #![trigger n.has(x)]
            (n.has(x) <==> n.children@[i].has(x) || n.has_besides(i, x)) && (n2.has(x) <==> c2.has(x)
                || n.has_besides(i, x)),
{
    assert forall|x: u64|
        (n.has(x) <==> n.children@[i].has(x) || n.has_besides(i, x)) && (n2.has(x) <==> c2.has(x)
            || n.has_besides(i, x)) by {
        lemma_update_child(n, n2, i, c2, x);
    }
}

/// Replacing child `i` of a well-formed node by a well-formed subtree of the same height,
/// within the same bounds and holding at least `min` keys, keeps the node well formed.
pub proof fn lemma_replace_child_wf(
    n: &Node,
    n2: &Node,
    i: int,
    c2: Node,
    lo: int,
    hi: int,
    min: nat,
    max: nat,
)
    requires
        n.wf(lo, hi, min, max),
        0 <= i < n.children@.len(),
        n2.keys@ == n.keys@,
        n2.children@ == n.children@.update(i, c2),
        c2.wf(n.lower(i, lo), n.upper(i, hi), min, max),
        min <= c2.keys@.len(),
        c2.height() == n.children@[i].height(),
    ensures
        n2.wf(lo, hi, min, max),
        n2.height() == n.height(),
{
    assert(n.child_ok(0, lo, hi, min, max));
    assert(n.child_ok(i, lo, hi, min, max));
    assert(n2.height() == n.height());
    assert forall|j: int| 0 <= j < n2.children@.len() implies #[trigger] n2.child_ok(
        j,
        lo,
        hi,
        min,
        max,
    ) by {
        assert(n.child_ok(j, lo, hi, min, max));
    }
}

/// Where `key` is not among a node's keys, it is held by the node exactly when it is held
/// below the child at its position.
pub proof fn lemma_descend(n: &Node, lo: int, hi: int, min: nat, max: nat, key: u64, i: int)
    requires
        n.wf(lo, hi, min, max),
        0 <= i <= n.keys@.len(),
        forall|j: int| 0 <= j < i ==> n.keys@[j] < key,
        forall|j: int| i <= j < n.keys@.len() ==> key < n.keys@[j],
    ensures
        !n.keys@.contains(key),
        n.children@.len() == 0 ==> !n.has(key),
        n.children@.len() != 0 ==> (n.has(key) <==> n.children@[i].has(key)),
{
    if n.keys@.contains(key) {
        let k = choose|k: int| 0 <= k < n.keys@.len() && n.keys@[k] == key;
        assert(k < i || k >= i);
    }
    if n.has(key) {
        lemma_has_cases(n, key);
        let j = choose|j: int| 0 <= j < n.children@.len() && n.children@[j].has(key);
        assert(n.child_ok(j, lo, hi, min, max));
        lemma_has_in_bounds(&n.children@[j], n.lower(j, lo), n.upper(j, hi), min, max, key);
        if j < i {
            assert(n.keys@[j] < key);
        } else if j > i {
            assert(key < n.keys@[j - 1]);
        }
    }
    if n.children@.len() != 0 && n.children@[i].has(key) {
        lemma_has_child(n, i, key);
    }
}

/// Cutting a well-formed node around its key `k` leaves two well-formed nodes on either side
/// of that key, which together with it hold what the node held.
#[verifier::rlimit(40)]
pub proof fn lemma_cut(m: Node, k: int, a: Node, b: Node, lo: int, hi: int, min: nat, max: nat)
    requires
        m.wf(lo, hi, min, max),
        0 <= k < m.keys@.len(),
        a.keys@ == m.keys@.subrange(0, k),
        b.keys@ == m.keys@.subrange(k + 1, m.keys@.len() as int),
        m.children@.len() == 0 ==> a.children@.len() == 0 && b.children@.len() == 0,
        m.children@.len() != 0 ==> a.children@ == m.children@.subrange(0, k + 1)
            && b.children@ == m.children@.subrange(k + 1, m.children@.len() as int),
    ensures
        a.wf(lo, m.keys@[k] as int, min, max),
        b.wf(m.keys@[k] as int, hi, min, max),
        a.height() == m.height(),
        b.height() == m.height(),
        lo < m.keys@[k] < hi,
        forall|x: u64| m.has(x) <==> (a.has(x) || x == m.keys@[k] || b.has(x)),
{
    let sep = m.keys@[k];
    assert(lo < sep < hi);
    assert forall|j: int| 0 <= j < a.children@.len() implies #[trigger] a.child_ok(
        j,
        lo,
        sep as int,
        min,
        max,
    ) by {
        assert(m.child_ok(j, lo, hi, min, max));
        assert(a.children@[j] == m.children@[j]);
        assert(a.children@[0] == m.children@[0]);
    }
    assert(a.wf(lo, sep as int, min, max));
    assert(a.height() == m.height());
    assert forall|j: int| 0 <= j < b.children@.len() implies #[trigger] b.child_ok(
        j,
        sep as int,
        hi,
        min,
        max,
    ) by {
        assert(m.child_ok(j + k + 1, lo, hi, min, max));
        assert(b.children@[j] == m.children@[j + k + 1]);
        assert(m.child_ok(0, lo, hi, min, max));
    }
    assert(b.wf(sep as int, hi, min, max));
    if m.children@.len() != 0 {
        assert(m.child_ok(0, lo, hi, min, max));
        assert(m.child_ok(k + 1, lo, hi, min, max));
        assert(b.children@[0] == m.children@[k + 1]);
    }
    assert(b.height() == m.height());
    assert(m.children@ =~= a.children@ + b.children@);
    assert forall|x: u64| m.has(x) <==> (a.has(x) || x == sep || b.has(x)) by {
        lemma_pieces_has(m, k, a, b, x);
    }
}

/// What a node holds, by the pieces it is cut into around its key `k`.
pub proof fn lemma_pieces_has(m: Node, k: int, a: Node, b: Node, x: u64)
    requires
        0 <= k < m.keys@.len(),
        a.keys@ == m.keys@.subrange(0, k),
        b.keys@ == m.keys@.subrange(k + 1, m.keys@.len() as int),
        m.children@ == a.children@ + b.children@,
        m.children@.len() != 0 ==> a.children@.len() == k + 1,
    ensures
        m.has(x) <==> (a.has(x) || x == m.keys@[k] || b.has(x)),
{
    let sep = m.keys@[k];
    if m.has(x) {
        lemma_has_cases(&m, x);
        if m.keys@.contains(x) {
            let q = choose|q: int| 0 <= q < m.keys@.len() && m.keys@[q] == x;
            if q < k {
                lemma_has_key(&a, q);
            } else if q > k {
                lemma_has_key(&b, q - k - 1);
            }
        } else {
            let j = choose|j: int| 0 <= j < m.children@.len() && m.children@[j].has(x);
            if j < a.children@.len() {
                assert(a.children@[j] == m.children@[j]);
                lemma_has_child(&a, j, x);
            } else {
                assert(b.children@[j - a.children@.len()] == m.children@[j]);
                lemma_has_child(&b, j - a.children@.len(), x);
            }
        }
    }
    if a.has(x) {
        lemma_has_cases(&a, x);
        if a.keys@.contains(x) {
            let q = choose|q: int| 0 <= q < a.keys@.len() && a.keys@[q] == x;
            lemma_has_key(&m, q);
        } else {
            let j = choose|j: int| 0 <= j < a.children@.len() && a.children@[j].has(x);
            assert(m.children@[j] == a.children@[j]);
            lemma_has_child(&m, j, x);
        }
    }
    if b.has(x) {
        lemma_has_cases(&b, x);
        if b.keys@.contains(x) {
            let q = choose|q: int| 0 <= q < b.keys@.len() && b.keys@[q] == x;
            lemma_has_key(&m, q + k + 1);
        } else {
            let j = choose|j: int| 0 <= j < b.children@.len() && b.children@[j].has(x);
            assert(m.children@[j + a.children@.len()] == b.children@[j]);
            lemma_has_child(&m, j + a.children@.len(), x);
        }
    }
    if x == sep {
        lemma_has_key(&m, k);
    }
}

/// Joining two well-formed nodes of one height around a key between them gives a
/// well-formed node holding the three, when its keys fit.
#[verifier::rlimit(40)]
pub proof fn lemma_join(a: Node, sep: u64, b: Node, m: Node, lo: int, hi: int, min: nat, max: nat)
    requires
        a.wf(lo, sep as int, min, max),
        b.wf(sep as int, hi, min, max),
        a.height() == b.height(),
        (a.children@.len() == 0) == (b.children@.len() == 0),
        m.keys@ == a.keys@ + seq![sep] + b.keys@,
        m.children@ == a.children@ + b.children@,
        m.keys@.len() <= max,
        lo < sep < hi,
    ensures
        m.wf(lo, hi, min, max),
        m.height() == a.height(),
        forall|x: u64| m.has(x) <==> (a.has(x) || x == sep || b.has(x)),
{
    let k = a.keys@.len() as int;
    assert(m.keys@[k] == sep);
    assert(a.keys@ =~= m.keys@.subrange(0, k));
    assert(b.keys@ =~= m.keys@.subrange(k + 1, m.keys@.len() as int));
    assert forall|j: int| 0 <= j < m.keys@.len() implies lo < #[trigger] m.keys@[j] < hi by {
        if j < k {
            assert(a.keys@[j] == m.keys@[j]);
        } else if j > k {
            assert(b.keys@[j - k - 1] == m.keys@[j]);
        }
    }
    assert(strictly_sorted(m.keys@)) by {
        assert forall|p: int, q: int| 0 <= p < q < m.keys@.len() implies m.keys@[p] < m.keys@[q] by {
            if p < k {
                assert(a.keys@[p] == m.keys@[p]);
            }
            if q > k {
                assert(b.keys@[q - k - 1] == m.keys@[q]);
            }
            if p > k {
                assert(b.keys@[p - k - 1] == m.keys@[p]);
            }
            if q < k {
                assert(a.keys@[q] == m.keys@[q]);
            }
        }
    }
    if a.children@.len() != 0 {
        assert(a.child_ok(0, lo, sep as int, min, max));
        assert(b.child_ok(0, sep as int, hi, min, max));
        assert(m.children@[0] == a.children@[0]);
    }
    assert(m.height() == a.height());
    assert forall|j: int| 0 <= j < m.children@.len() implies #[trigger] m.child_ok(
        j,
        lo,
        hi,
        min,
        max,
    ) by {
        if j < a.children@.len() {
            assert(a.child_ok(j, lo, sep as int, min, max));
            assert(m.children@[j] == a.children@[j]);
        } else {
            assert(b.child_ok(j - a.children@.len(), sep as int, hi, min, max));
            assert(m.children@[j] == b.children@[j - a.children@.len()]);
        }
    }
    assert(m.wf(lo, hi, min, max));
    assert forall|x: u64| m.has(x) <==> (a.has(x) || x == sep || b.has(x)) by {
        lemma_pieces_has(m, k, a, b, x);
    }
}

/// A node of sound shape whose children are all sound is well formed.
pub proof fn lemma_wf_intro(n: Node, lo: int, hi: int, min: nat, max: nat)
    requires
        n.shape_ok(lo, hi, max),
        forall|j: int| 0 <= j < n.children@.len() ==> #[trigger] n.child_ok(j, lo, hi, min, max),
    ensures
        n.wf(lo, hi, min, max),
{
    assert forall|j: int| #![trigger n.children@[j]] 0 <= j < n.children@.len() implies n.child_ok(
        j,
        lo,
        hi,
        min,
        max,
    ) by {
        assert(n.child_ok(j, lo, hi, min, max));
    }
}

/// A well-formed subtree stays well formed under any bounds that hold all its keys.
pub proof fn lemma_rebound(n: Node, lo: int, hi: int, lo2: int, hi2: int, min: nat, max: nat)
    requires
        n.wf(lo, hi, min, max),
        forall|x: u64| n.has(x) ==> lo2 < x < hi2,
    ensures
        n.wf(lo2, hi2, min, max),
    decreases n,
{
    assert forall|j: int| 0 <= j < n.keys@.len() implies lo2 < #[trigger] n.keys@[j] < hi2 by {
        lemma_has_key(&n, j);
    }
    assert forall|j: int| 0 <= j < n.children@.len() implies #[trigger] n.child_ok(
        j,
        lo2,
        hi2,
        min,
        max,
    ) by {
        assert(n.child_ok(j, lo, hi, min, max));
        assert forall|x: u64| n.children@[j].has(x) implies n.lower(j, lo2) < x < n.upper(j, hi2) by {
            lemma_has_child(&n, j, x);
            lemma_has_in_bounds(&n.children@[j], n.lower(j, lo), n.upper(j, hi), min, max, x);
        }
        lemma_rebound(n.children@[j], n.lower(j, lo), n.upper(j, hi), n.lower(j, lo2), n.upper(j, hi2), min, max);
    }
    lemma_wf_intro(n, lo2, hi2, min, max);
}

/// What a well-formed node holds besides child `i` lies outside that child's bounds.
pub proof fn lemma_besides_out(n: &Node, i: int, lo: int, hi: int, min: nat, max: nat, x: u64)
    requires
        n.wf(lo, hi, min, max),
        0 <= i < n.children@.len(),
        n.has_besides(i, x),
    ensures
        x <= n.lower(i, lo) || n.upper(i, hi) <= x,
{
    if n.keys@.contains(x) {
        let q = choose|q: int| 0 <= q < n.keys@.len() && n.keys@[q] == x;
        if q < i {
            assert(n.keys@[q] <= n.keys@[i - 1]);
        } else {
            assert(n.keys@[i] <= n.keys@[q]);
        }
    } else {
        let j = choose|j: int| 0 <= j < n.children@.len() && j != i && n.children@[j].has(x);
        assert(n.child_ok(j, lo, hi, min, max));
        lemma_has_in_bounds(&n.children@[j], n.lower(j, lo), n.upper(j, hi), min, max, x);
        if j < i {
            assert(n.keys@[j] <= n.keys@[i - 1]);
        } else {
            assert(n.keys@[i] <= n.keys@[j - 1]);
        }
    }
}

/// Nodes with one view hold the same keys.
pub proof fn lemma_same_view(a: Node, b: Node)
    requires
        a@ == b@,
    ensures
        forall|x: u64| a.has(x) == b.has(x),
{
    assert forall|x: u64| a.has(x) == b.has(x) by {
        lemma_view(&a);
        lemma_view(&b);
        assert(a@.contains(x) == a.has(x));
        assert(b@.contains(x) == b.has(x));
        assert(a@.contains(x) == b@.contains(x));
    }
}

/// A leaf holds exactly its own keys.
pub proof fn lemma_leaf_has(n: &Node, x: u64)
    requires
        n.children@.len() == 0,
    ensures
        n.has(x) == n.keys@.contains(x),
{
    if n.has(x) {
        lemma_has_cases(n, x);
    }
    if n.keys@.contains(x) {
        let q = choose|q: int| 0 <= q < n.keys@.len() && n.keys@[q] == x;
        lemma_has_key(n, q);
    }
}

/// A node found `d` levels below a well-formed node is well formed under some bounds, sits
/// `d` levels higher up than its height, and, below the top, holds at least `min` keys.
pub proof fn lemma_reaches_wf(top: Node, lo: int, hi: int, min: nat, max: nat, n: Node, d: nat)
    requires
        top.wf(lo, hi, min, max),
        top.reaches(n, d),
    ensures
        exists|lo2: int, hi2: int| n.wf(lo2, hi2, min, max),
        n.height() + d == top.height(),
        d > 0 ==> min <= n.keys@.len(),
    decreases top,
{
    if d == 0 {
        assert(top.wf(lo, hi, min, max));
    } else {
        let i = choose|i: int| 0 <= i < top.children@.len() && top.children@[i].reaches(n, (d - 1) as nat);
        assert(top.child_ok(i, lo, hi, min, max));
        lemma_reaches_wf(top.children@[i], top.lower(i, lo), top.upper(i, hi), min, max, n, (d - 1) as nat);
    }
}

/// Every subtree has the same keys as itself, node for node.
pub proof fn lemma_same_refl(n: Node)
    ensures
        n.same(n),
    decreases n,
{
    assert forall|j: int| #![trigger n.children@[j]] 0 <= j < n.children@.len() implies n.children@[j].same(
        n.children@[j],
    ) by {
        lemma_same_refl(n.children@[j]);
    }
}

/// The view of a node is the set of keys it holds.
pub proof fn lemma_view(n: &Node)
    ensures
        forall|x: u64| #[trigger] n@.contains(x) == n.has(x),
{
}

/// A key held by a node is one of its own keys or held by one of its children.
pub proof fn lemma_has_cases(n: &Node, x: u64)
    requires
        n.has(x),
    ensures
        n.keys@.contains(x) || exists|j: int| 0 <= j < n.children@.len() && n.children@[j].has(x),
{
    reveal(Node::has);
}

} // verus!
