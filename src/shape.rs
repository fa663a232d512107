use vstd::prelude::*;
use crate::node::{
    Node,
    strictly_sorted,
    lemma_has_cases,
    lemma_has_child,
    lemma_has_key,
    lemma_wf_intro,
    lemma_has_in_bounds,
    lemma_besides_out,
    lemma_replace_child_has,
    lemma_rebound,
};

verus! {

/// `x` is held by `a`, is `k`, or is held by `b`.
pub open spec fn held_around(a: Node, k: u64, b: Node, x: u64) -> bool {
    a.has(x) || x == k || b.has(x)
}

/// Every child of a node but `i` and `i + 1` is sound, and all sit one level below it.
pub open spec fn others_ok(p: Node, i: int, lo: int, hi: int, min: nat, max: nat) -> bool {
    &&& p.shape_ok(lo, hi, max)
    &&& 0 <= i
    &&& i + 1 < p.children@.len()
    &&& forall|j: int|
        0 <= j < p.children@.len() && j != i && j != i + 1 ==> #[trigger] p.child_ok(
            j,
            lo,
            hi,
            min,
            max,
        )
    &&& p.children@[i].height() + 1 == p.height()
    &&& p.children@[i + 1].height() + 1 == p.height()
}

/// Replacing children `i` and `i + 1` and the key between them by sound pieces that hold the
/// same keys keeps the node well formed and holding the same keys.
#[verifier::rlimit(60)]
pub proof fn lemma_parent_pair(
    p: Node,
    p2: Node,
    i: int,
    a: Node,
    k: u64,
    b: Node,
    lo: int,
    hi: int,
    min: nat,
    max: nat,
)
    requires
        others_ok(p, i, lo, hi, min, max),
        a.wf(p.lower(i, lo), k as int, min, max),
        b.wf(k as int, p.upper(i + 1, hi), min, max),
        min <= a.keys@.len(),
        min <= b.keys@.len(),
        a.height() + 1 == p.height(),
        b.height() + 1 == p.height(),
        p.lower(i, lo) < k < p.upper(i + 1, hi),
        forall|x: u64|
            #[trigger] held_around(a, k, b, x) == held_around(
                p.children@[i],
                p.keys@[i],
                p.children@[i + 1],
                x,
            ),
        p2.keys@ == p.keys@.update(i, k),
        p2.children@ == p.children@.update(i, a).update(i + 1, b),
    ensures
        p2.wf(lo, hi, min, max),
        p2.height() == p.height(),
        forall|x: u64| p2.has(x) == p.has(x),
{
    assert(strictly_sorted(p2.keys@)) by {
        if 0 < i {
            assert(p.lower(i, lo) == p.keys@[i - 1]);
        }
        if i + 1 < p.keys@.len() {
            assert(p.upper(i + 1, hi) == p.keys@[i + 1]);
        }
    }
    assert forall|j: int| 0 <= j < p2.keys@.len() implies lo < #[trigger] p2.keys@[j] < hi by {
        if j == i {
            if 0 < i {
                assert(lo < p.keys@[i - 1]);
            }
            if i + 1 < p.keys@.len() {
                assert(p.keys@[i + 1] < hi);
            }
        }
    }
    assert(p2.height() == p.height()) by {
        if i != 0 {
            assert(p.child_ok(0, lo, hi, min, max));
        }
    }
    assert forall|j: int| 0 <= j < p2.children@.len() implies #[trigger] p2.child_ok(
        j,
        lo,
        hi,
        min,
        max,
    ) by {
        if j != i && j != i + 1 {
            assert(p.child_ok(j, lo, hi, min, max));
        }
    }
    lemma_wf_intro(p2, lo, hi, min, max);
    assert forall|x: u64| p2.has(x) == p.has(x) by {
        assert(held_around(a, k, b, x) == held_around(p.children@[i], p.keys@[i], p.children@[i + 1], x));
        if p.has(x) {
            lemma_has_cases(&p, x);
            if p.keys@.contains(x) {
                let q = choose|q: int| 0 <= q < p.keys@.len() && p.keys@[q] == x;
                if q == i {
                    if a.has(x) {
                        lemma_has_child(&p2, i, x);
                    } else if b.has(x) {
                        lemma_has_child(&p2, i + 1, x);
                    } else {
                        lemma_has_key(&p2, i);
                    }
                } else {
                    lemma_has_key(&p2, q);
                }
            } else {
                let j = choose|j: int| 0 <= j < p.children@.len() && p.children@[j].has(x);
                if j == i || j == i + 1 {
                    if a.has(x) {
                        lemma_has_child(&p2, i, x);
                    } else if b.has(x) {
                        lemma_has_child(&p2, i + 1, x);
                    } else {
                        lemma_has_key(&p2, i);
                    }
                } else {
                    assert(p2.children@[j] == p.children@[j]);
                    lemma_has_child(&p2, j, x);
                }
            }
        }
        if p2.has(x) {
            lemma_has_cases(&p2, x);
            if p2.keys@.contains(x) {
                let q = choose|q: int| 0 <= q < p2.keys@.len() && p2.keys@[q] == x;
                if q == i {
                    if p.children@[i].has(x) {
                        lemma_has_child(&p, i, x);
                    } else if p.children@[i + 1].has(x) {
                        lemma_has_child(&p, i + 1, x);
                    } else {
                        lemma_has_key(&p, i);
                    }
                } else {
                    lemma_has_key(&p, q);
                }
            } else {
                let j = choose|j: int| 0 <= j < p2.children@.len() && p2.children@[j].has(x);
                if j == i || j == i + 1 {
                    assert(a.has(x) || b.has(x));
                    if p.children@[i].has(x) {
                        lemma_has_child(&p, i, x);
                    } else if p.children@[i + 1].has(x) {
                        lemma_has_child(&p, i + 1, x);
                    } else {
                        lemma_has_key(&p, i);
                    }
                } else {
                    assert(p2.children@[j] == p.children@[j]);
                    lemma_has_child(&p, j, x);
                }
            }
        }
    }
}

/// Replacing children `i` and `i + 1` and the key between them by one sound node holding the
/// three keeps the node well formed and holding the same keys.
#[verifier::rlimit(60)]
pub proof fn lemma_parent_merge(
    p: Node,
    p2: Node,
    i: int,
    m: Node,
    lo: int,
    hi: int,
    min: nat,
    max: nat,
)
    requires
        others_ok(p, i, lo, hi, min, max),
        m.wf(p.lower(i, lo), p.upper(i + 1, hi), min, max),
        min <= m.keys@.len(),
        m.height() + 1 == p.height(),
        forall|x: u64|
            m.has(x) <==> (p.children@[i].has(x) || x == p.keys@[i] || p.children@[i + 1].has(x)),
        p2.keys@ == p.keys@.remove(i),
        p2.children@ == p.children@.remove(i + 1).update(i, m),
    ensures
        p2.wf(lo, hi, min, max),
        p2.height() == p.height(),
        forall|x: u64| p2.has(x) == p.has(x),
{
    assert forall|j: int| 0 <= j < p2.keys@.len() implies lo < #[trigger] p2.keys@[j] < hi by {
        if j < i {
            assert(p2.keys@[j] == p.keys@[j]);
        } else {
            assert(p2.keys@[j] == p.keys@[j + 1]);
        }
    }
    assert(p2.height() == p.height()) by {
        if i != 0 {
            assert(p.child_ok(0, lo, hi, min, max));
        }
    }
    assert forall|j: int| 0 <= j < p2.children@.len() implies #[trigger] p2.child_ok(
        j,
        lo,
        hi,
        min,
        max,
    ) by {
        if j < i {
            assert(p.child_ok(j, lo, hi, min, max));
            assert(p2.children@[j] == p.children@[j]);
        } else if j > i {
            assert(p.child_ok(j + 1, lo, hi, min, max));
            assert(p2.children@[j] == p.children@[j + 1]);
        }
    }
    lemma_wf_intro(p2, lo, hi, min, max);
    assert forall|x: u64| p2.has(x) == p.has(x) by {
        if p.has(x) {
            lemma_has_cases(&p, x);
            if p.keys@.contains(x) {
                let q = choose|q: int| 0 <= q < p.keys@.len() && p.keys@[q] == x;
                if q == i {
                    lemma_has_child(&p2, i, x);
                } else if q < i {
                    lemma_has_key(&p2, q);
                } else {
                    lemma_has_key(&p2, q - 1);
                }
            } else {
                let j = choose|j: int| 0 <= j < p.children@.len() && p.children@[j].has(x);
                if j == i || j == i + 1 {
                    lemma_has_child(&p2, i, x);
                } else if j < i {
                    assert(p2.children@[j] == p.children@[j]);
                    lemma_has_child(&p2, j, x);
                } else {
                    assert(p2.children@[j - 1] == p.children@[j]);
                    lemma_has_child(&p2, j - 1, x);
                }
            }
        }
        if p2.has(x) {
            lemma_has_cases(&p2, x);
            if p2.keys@.contains(x) {
                let q = choose|q: int| 0 <= q < p2.keys@.len() && p2.keys@[q] == x;
                if q < i {
                    lemma_has_key(&p, q);
                } else {
                    lemma_has_key(&p, q + 1);
                }
            } else {
                let j = choose|j: int| 0 <= j < p2.children@.len() && p2.children@[j].has(x);
                if j == i {
                    if p.children@[i].has(x) {
                        lemma_has_child(&p, i, x);
                    } else if p.children@[i + 1].has(x) {
                        lemma_has_child(&p, i + 1, x);
                    } else {
                        lemma_has_key(&p, i);
                    }
                } else if j < i {
                    assert(p2.children@[j] == p.children@[j]);
                    lemma_has_child(&p, j, x);
                } else {
                    assert(p2.children@[j] == p.children@[j + 1]);
                    lemma_has_child(&p, j + 1, x);
                }
            }
        }
    }
}

/// Replacing child `i` by a sound subtree that holds the same keys but `k` leaves the node
/// well formed but for child `i`, holding the same keys but `k`.
pub proof fn lemma_child_removed(
    n: Node,
    n2: Node,
    i: int,
    c2: Node,
    k: u64,
    lo: int,
    hi: int,
    min: nat,
    max: nat,
)
    requires
        n.wf(lo, hi, min, max),
        0 <= i < n.children@.len(),
        n2.keys@ == n.keys@,
        n2.children@ == n.children@.update(i, c2),
        c2.wf(n.lower(i, lo), n.upper(i, hi), min, max),
        c2.height() == n.children@[i].height(),
        min <= c2.keys@.len() + 1,
        forall|x: u64| c2.has(x) == (n.children@[i].has(x) && x != k),
        n.lower(i, lo) < k < n.upper(i, hi),
    ensures
        n2.wf_but(i, lo, hi, min, max),
        n2.height() == n.height(),
        forall|x: u64| n2.has(x) == (n.has(x) && x != k),
{
    assert(n.child_ok(i, lo, hi, min, max));
    assert(n.child_ok(0, lo, hi, min, max));
    assert(n2.height() == n.height());
    assert forall|j: int| 0 <= j < n2.children@.len() && j != i implies #[trigger] n2.child_ok(
        j,
        lo,
        hi,
        min,
        max,
    ) by {
        assert(n.child_ok(j, lo, hi, min, max));
    }
    lemma_replace_child_has(&n, &n2, i, c2);
    assert forall|x: u64| n2.has(x) == (n.has(x) && x != k) by {
        if n.has_besides(i, x) {
            lemma_besides_out(&n, i, lo, hi, min, max, x);
        }
    }
}

/// Replacing separator `i` by `k2`, taken out of child `j` (either side of it), leaves the
/// node well formed but for child `j`, holding the same keys but the old separator.
#[verifier::rlimit(60)]
pub proof fn lemma_substitute(
    n: Node,
    n2: Node,
    i: int,
    j: int,
    c2: Node,
    k2: u64,
    lo: int,
    hi: int,
    min: nat,
    max: nat,
)
    requires
        n.wf(lo, hi, min, max),
        n.children@.len() != 0,
        0 <= i < n.keys@.len(),
        j == i || j == i + 1,
        n2.keys@ == n.keys@.update(i, k2),
        n2.children@ == n.children@.update(j, c2),
        c2.wf(n2.lower(j, lo), n2.upper(j, hi), min, max),
        c2.height() == n.children@[j].height(),
        min <= c2.keys@.len() + 1,
        forall|x: u64| c2.has(x) == (n.children@[j].has(x) && x != k2),
        n.children@[j].has(k2),
    ensures
        n2.wf_but(j, lo, hi, min, max),
        n2.height() == n.height(),
        forall|x: u64| n2.has(x) == (n.has(x) && x != n.keys@[i]),
{
    let sep = n.keys@[i];
    let o = if j == i { i + 1 } else { i };
    assert(n.child_ok(j, lo, hi, min, max));
    assert(n.child_ok(o, lo, hi, min, max));
    assert(n.child_ok(0, lo, hi, min, max));
    lemma_has_in_bounds(&n.children@[j], n.lower(j, lo), n.upper(j, hi), min, max, k2);
    // the other child of the pair keeps its keys under the moved bound
    assert forall|x: u64| n.children@[o].has(x) implies n2.lower(o, lo) < x < n2.upper(o, hi) by {
        lemma_has_in_bounds(&n.children@[o], n.lower(o, lo), n.upper(o, hi), min, max, x);
    }
    lemma_rebound(n.children@[o], n.lower(o, lo), n.upper(o, hi), n2.lower(o, lo), n2.upper(o, hi), min, max);
    assert(strictly_sorted(n2.keys@)) by {
        if 0 < i {
            assert(n.keys@[i - 1] < sep);
        }
    }
    assert forall|q: int| 0 <= q < n2.keys@.len() implies lo < #[trigger] n2.keys@[q] < hi by {
        if q == i {
            if 0 < i {
                assert(lo < n.keys@[i - 1]);
            }
            if i + 1 < n.keys@.len() {
                assert(n.keys@[i + 1] < hi);
            }
        }
    }
    assert(n2.height() == n.height());
    assert forall|q: int| 0 <= q < n2.children@.len() && q != j implies #[trigger] n2.child_ok(
        q,
        lo,
        hi,
        min,
        max,
    ) by {
        assert(n.child_ok(q, lo, hi, min, max));
    }
    assert forall|x: u64| n2.has(x) == (n.has(x) && x != sep) by {
        if n.children@[j].has(x) {
            lemma_has_in_bounds(&n.children@[j], n.lower(j, lo), n.upper(j, hi), min, max, x);
        }
        if n2.has(x) {
            lemma_has_cases(&n2, x);
            if n2.keys@.contains(x) {
                let q = choose|q: int| 0 <= q < n2.keys@.len() && n2.keys@[q] == x;
                if q != i {
                    lemma_has_key(&n, q);
                } else {
                    lemma_has_child(&n, j, x);
                }
            } else {
                let q = choose|q: int| 0 <= q < n2.children@.len() && n2.children@[q].has(x);
                if q == j {
                    lemma_has_child(&n, j, x);
                } else {
                    assert(n2.children@[q] == n.children@[q]);
                    lemma_has_child(&n, q, x);
                    assert(n.child_ok(q, lo, hi, min, max));
                    lemma_has_in_bounds(&n.children@[q], n.lower(q, lo), n.upper(q, hi), min, max, x);
                }
            }
        }
        if n.has(x) && x != sep {
            lemma_has_cases(&n, x);
            if n.keys@.contains(x) {
                let q = choose|q: int| 0 <= q < n.keys@.len() && n.keys@[q] == x;
                lemma_has_key(&n2, q);
            } else {
                let q = choose|q: int| 0 <= q < n.children@.len() && n.children@[q].has(x);
                if q == j && x == k2 {
                    lemma_has_key(&n2, i);
                } else if q == j {
                    lemma_has_child(&n2, j, x);
                } else {
                    assert(n2.children@[q] == n.children@[q]);
                    lemma_has_child(&n2, q, x);
                }
            }
        }
    }
}

} // verus!
