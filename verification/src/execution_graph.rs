//! Kahn's elimination on a finite directed graph given by an adjacency matrix.
//!
//! A set of nodes is *self-sustaining* when each of its nodes has a predecessor inside it.
//! Elimination leaves exactly the greatest self-sustaining set; the graph is acyclic exactly
//! when nothing is left.

use vstd::prelude::*;

verus! {

/// A square adjacency matrix of `n` nodes.
pub open spec fn square(adj: Seq<Seq<bool>>, n: int) -> bool {
    adj.len() == n && forall|u: int| 0 <= u < n ==> (#[trigger] adj[u]).len() == n
}

/// Every node of `s` is a node of the graph and has a predecessor in `s`.
pub open spec fn self_sustaining(adj: Seq<Seq<bool>>, n: int, s: Set<int>) -> bool {
    &&& forall|x: int| s.contains(x) ==> 0 <= x < n
    &&& forall|x: int|
        #[trigger] s.contains(x) ==> exists|p: int| s.contains(p) && 0 <= p < n && adj[p][x]
}

/// The number of not-yet-eliminated predecessors of `v` among nodes `0..k`.
pub open spec fn live_preds(adj: Seq<Seq<bool>>, gone: Seq<bool>, v: int, k: int) -> nat
    decreases k,
{
    if k <= 0 {
        0
    } else {
        live_preds(adj, gone, v, k - 1) + if adj[k - 1][v] && !gone[k - 1] {
            1nat
        } else {
            0nat
        }
    }
}

/// The nodes listed in `s`.
pub open spec fn listed(s: Seq<usize>) -> Set<int> {
    Set::new(|x: int| exists|i: int| 0 <= i < s.len() && s[i] as int == x)
}

/// Whether `v` occurs in `s`.
pub open spec fn occurs(s: Seq<int>, v: int) -> bool {
    exists|i: int| 0 <= i < s.len() && s[i] == v
}

/// An order of all nodes in which every edge points forward.
pub open spec fn topological_order(adj: Seq<Seq<bool>>, n: int, order: Seq<int>) -> bool {
    &&& order.len() == n
    &&& forall|i: int| 0 <= i < n ==> 0 <= #[trigger] order[i] < n
    &&& forall|i: int, j: int| 0 <= i < n && 0 <= j < n && i != j ==> #[trigger] order[i] != #[trigger] order[j]
    &&& forall|v: int| 0 <= v < n ==> #[trigger] occurs(order, v)
    &&& forall|i: int, j: int|
        0 <= i < n && 0 <= j < n && #[trigger] adj[order[i]][order[j]] ==> i < j
}

proof fn lemma_live_preds_bound(adj: Seq<Seq<bool>>, gone: Seq<bool>, v: int, k: int)
    requires
        k >= 0,
    ensures
        live_preds(adj, gone, v, k) <= k,
    decreases k,
{
    if k > 0 {
        lemma_live_preds_bound(adj, gone, v, k - 1);
    }
}

proof fn lemma_live_preds_zero(adj: Seq<Seq<bool>>, gone: Seq<bool>, v: int, k: int)
    requires
        k >= 0,
    ensures
        live_preds(adj, gone, v, k) == 0 <==> forall|u: int|
            0 <= u < k ==> !(adj[u][v] && !gone[u]),
    decreases k,
{
    if k > 0 {
        lemma_live_preds_zero(adj, gone, v, k - 1);
        if live_preds(adj, gone, v, k) == 0 {
            assert forall|u: int| 0 <= u < k implies !(adj[u][v] && !gone[u]) by {
                if u < k - 1 {
                } else {
                }
            }
        }
    }
}

proof fn lemma_live_preds_eliminate(adj: Seq<Seq<bool>>, gone: Seq<bool>, w: int, v: int, k: int)
    requires
        0 <= w < gone.len(),
        !gone[w],
        0 <= k <= gone.len(),
    ensures
        live_preds(adj, gone.update(w, true), v, k) == live_preds(adj, gone, v, k) - if w < k
            && adj[w][v] {
            1int
        } else {
            0int
        },
    decreases k,
{
    if k > 0 {
        lemma_live_preds_eliminate(adj, gone, w, v, k - 1);
    }
}

proof fn lemma_live_preds_all_live(adj: Seq<Seq<bool>>, gone: Seq<bool>, v: int, k: int)
    requires
        forall|u: int| 0 <= u < gone.len() ==> !gone[u],
        0 <= k <= gone.len(),
    ensures
        live_preds(adj, gone, v, k) == live_preds(adj, Seq::new(gone.len(), |u: int| false), v, k),
    decreases k,
{
    if k > 0 {
        lemma_live_preds_all_live(adj, gone, v, k - 1);
    }
}

/// The nodes left by Kahn's elimination, in increasing order: exactly the greatest
/// self-sustaining set of the graph.
pub fn eliminate(adj: &Vec<Vec<bool>>) -> (blocked: Vec<usize>)
    requires
        square(adj@.map_values(|row: Vec<bool>| row@), adj@.len() as int),
    ensures
        ({
            let g = adj@.map_values(|row: Vec<bool>| row@);
            let n = adj@.len() as int;
            let b = listed(blocked@);
            &&& forall|i: int, j: int| 0 <= i < j < blocked@.len() ==> #[trigger] blocked@[i] < #[trigger] blocked@[j]
            &&& self_sustaining(g, n, b)
            &&& forall|s: Set<int>| #[trigger] self_sustaining(g, n, s) ==> s.subset_of(b)
        }),
{
    let ghost g = adj@.map_values(|row: Vec<bool>| row@);
    let n = adj.len();
    let mut indeg: Vec<usize> = Vec::new();
    let mut gone: Vec<bool> = Vec::new();
    let mut k: usize = 0;
    while k < n
        invariant
            0 <= k <= n,
            n == adj@.len(),
            indeg@.len() == k,
            gone@.len() == k,
            forall|v: int| 0 <= v < k ==> indeg@[v] == 0 && !gone@[v],
        decreases n - k,
    {
        indeg.push(0);
        gone.push(false);
        k = k + 1;
    }
    // Count every predecessor of every node.
    let ghost none = Seq::new(n as nat, |u: int| false);
    let mut u: usize = 0;
    while u < n
        invariant
            0 <= u <= n,
            n == adj@.len(),
            g == adj@.map_values(|row: Vec<bool>| row@),
            square(g, n as int),
            indeg@.len() == n,
            gone@ == none,
            none.len() == n,
            forall|i: int| 0 <= i < n ==> !none[i],
            forall|v: int| 0 <= v < n ==> #[trigger] indeg@[v] == live_preds(g, none, v, u as int),
        decreases n - u,
    {
        let mut v: usize = 0;
        proof {
            assert(g[u as int] == adj@[u as int]@);
        }
        while v < n
            invariant
                0 <= u < n,
                0 <= v <= n,
                n == adj@.len(),
                g == adj@.map_values(|row: Vec<bool>| row@),
                square(g, n as int),
                indeg@.len() == n,
                none.len() == n,
                forall|i: int| 0 <= i < n ==> !none[i],
                forall|w: int| 0 <= w < v ==> #[trigger] indeg@[w] == live_preds(g, none, w, u + 1),
                forall|w: int| v <= w < n ==> #[trigger] indeg@[w] == live_preds(g, none, w, u as int),
            decreases n - v,
        {
            proof {
                lemma_live_preds_bound(g, none, v as int, u as int);
                assert(adj@[u as int]@ == g[u as int]);
            }
            proof {
                assert(!none[u as int]);
                assert(live_preds(g, none, v as int, u + 1) == live_preds(g, none, v as int, u as int)
                    + if g[u as int][v as int] { 1nat } else { 0nat });
            }
            if adj[u][v] {
                indeg.set(v, indeg[v] + 1);
            }
            v = v + 1;
        }
        u = u + 1;
    }
    // Repeatedly eliminate the least live node without live predecessors.
    let mut eliminated: usize = 0;
    proof {
        lemma_count_true_none(none, n as int);
    }
    loop
        invariant
            n == adj@.len(),
            g == adj@.map_values(|row: Vec<bool>| row@),
            square(g, n as int),
            indeg@.len() == n,
            gone@.len() == n,
            eliminated <= n,
            eliminated == count_true(gone@, n as int),
            forall|v: int| 0 <= v < n ==> #[trigger] indeg@[v] == live_preds(g, gone@, v, n as int),
            forall|v: int| 0 <= v < n && gone@[v] ==> #[trigger] indeg@[v] == 0,
            forall|s: Set<int>|
                #[trigger] self_sustaining(g, n as int, s) ==> forall|x: int|
                    s.contains(x) ==> !gone@[x],
        ensures
            indeg@.len() == n,
            gone@.len() == n,
            forall|w: int| 0 <= w < n ==> #[trigger] gone@[w] || indeg@[w] != 0,
            forall|v: int| 0 <= v < n && gone@[v] ==> #[trigger] indeg@[v] == 0,
            forall|v: int| 0 <= v < n ==> #[trigger] indeg@[v] == live_preds(g, gone@, v, n as int),
            forall|s: Set<int>|
                #[trigger] self_sustaining(g, n as int, s) ==> forall|x: int|
                    s.contains(x) ==> !gone@[x],
        decreases n - eliminated,
    {
        let mut pick: usize = 0;
        while pick < n && (gone[pick] || indeg[pick] != 0)
            invariant
                0 <= pick <= n,
                indeg@.len() == n,
                gone@.len() == n,
                forall|v: int| 0 <= v < pick ==> gone@[v] || indeg@[v] != 0,
            decreases n - pick,
        {
            pick = pick + 1;
        }
        if pick == n {
            break;
        }
        let ghost before = gone@;
        proof {
            lemma_live_preds_zero(g, before, pick as int, n as int);
            assert forall|s: Set<int>| #[trigger] self_sustaining(g, n as int, s) implies forall|x: int|
                s.contains(x) ==> !before.update(pick as int, true)[x] by {
                if s.contains(pick as int) {
                    let p = choose|p: int| s.contains(p) && 0 <= p < n && g[p][pick as int];
                    assert(!before[p]);
                }
            }
            lemma_count_true_update(before, pick as int, n as int);
        }
        gone.set(pick, true);
        let mut v: usize = 0;
        while v < n
            invariant
                0 <= pick < n,
                0 <= v <= n,
                n == adj@.len(),
                g == adj@.map_values(|row: Vec<bool>| row@),
                square(g, n as int),
                indeg@.len() == n,
                before.len() == n,
                !before[pick as int],
                gone@ == before.update(pick as int, true),
                forall|w: int| 0 <= w < v ==> #[trigger] indeg@[w] == live_preds(g, gone@, w, n as int),
                forall|w: int| v <= w < n ==> #[trigger] indeg@[w] == live_preds(g, before, w, n as int),
                forall|w: int| 0 <= w < v && gone@[w] ==> #[trigger] indeg@[w] == 0,
                forall|w: int| v <= w < n && before[w] ==> #[trigger] indeg@[w] == 0,
                live_preds(g, before, pick as int, n as int) == 0,
            decreases n - v,
        {
            proof {
                lemma_live_preds_eliminate(g, before, pick as int, v as int, n as int);
                assert(adj@[pick as int]@ == g[pick as int]);
                if before[v as int] {
                    lemma_live_preds_zero(g, before, v as int, n as int);
                }
            }
            if adj[pick][v] {
                indeg.set(v, indeg[v] - 1);
            }
            proof {
                if gone@[v as int] && !before[v as int] {
                    assert(v == pick);
                }
            }
            v = v + 1;
        }
        proof {
            lemma_count_true_bound(gone@, n as int);
        }
        eliminated = eliminated + 1;
    }
    // Report the nodes left with live predecessors.
    let mut blocked: Vec<usize> = Vec::new();
    let mut v: usize = 0;
    while v < n
        invariant
            0 <= v <= n,
            indeg@.len() == n,
            gone@.len() == n,
            g == adj@.map_values(|row: Vec<bool>| row@),
            square(g, n as int),
            n == adj@.len(),
            forall|w: int| 0 <= w < n ==> #[trigger] indeg@[w] == live_preds(g, gone@, w, n as int),
            forall|s: Set<int>|
                #[trigger] self_sustaining(g, n as int, s) ==> forall|x: int|
                    s.contains(x) ==> !gone@[x],
            forall|w: int| 0 <= w < n ==> (indeg@[w] != 0 <==> !gone@[w]),
            forall|i: int| 0 <= i < blocked@.len() ==> #[trigger] blocked@[i] < v,
            forall|i: int, j: int| 0 <= i < j < blocked@.len() ==> #[trigger] blocked@[i] < #[trigger] blocked@[j],
            forall|w: int| 0 <= w < v ==> (!gone@[w] <==> listed(blocked@).contains(w)),
            forall|w: int| listed(blocked@).contains(w) ==> 0 <= w < v,
        decreases n - v,
    {
        if indeg[v] != 0 {
            let ghost old_b = blocked@;
            blocked.push(v);
            proof {
                assert(blocked@[old_b.len() as int] == v);
                assert forall|w: int| listed(blocked@).contains(w) <==> (listed(old_b).contains(w) || w == v) by {
                    if listed(blocked@).contains(w) {
                        let i = choose|i: int| 0 <= i < blocked@.len() && blocked@[i] as int == w;
                        if i < old_b.len() {
                            assert(old_b[i] == blocked@[i]);
                        }
                    }
                    if listed(old_b).contains(w) {
                        let i = choose|i: int| 0 <= i < old_b.len() && old_b[i] as int == w;
                        assert(blocked@[i] == old_b[i]);
                    }
                }
            }
        }
        v = v + 1;
    }
    proof {
        let b = listed(blocked@);
        assert forall|x: int| #[trigger] b.contains(x) implies exists|p: int| b.contains(p) && 0 <= p < n && g[p][x] by {
            assert(0 <= x < n);
            assert(!gone@[x]);
            assert(indeg@[x] != 0);
            lemma_live_preds_zero(g, gone@, x, n as int);
            let p = choose|p: int| 0 <= p < n && g[p][x] && !gone@[p];
            assert(b.contains(p));
        }
        assert forall|s: Set<int>| #[trigger] self_sustaining(g, n as int, s) implies s.subset_of(b) by {
            assert forall|x: int| s.contains(x) implies b.contains(x) by {
                assert(!gone@[x]);
                assert(b.contains(x));
            }
        }
    }
    blocked
}

/// The number of `true` entries among the first `k`.
pub open spec fn count_true(s: Seq<bool>, k: int) -> nat
    decreases k,
{
    if k <= 0 {
        0
    } else {
        count_true(s, k - 1) + if s[k - 1] {
            1nat
        } else {
            0nat
        }
    }
}

proof fn lemma_count_true_update(s: Seq<bool>, i: int, k: int)
    requires
        0 <= i < s.len(),
        !s[i],
        0 <= k <= s.len(),
    ensures
        count_true(s.update(i, true), k) == count_true(s, k) + if i < k {
            1int
        } else {
            0int
        },
    decreases k,
{
    if k > 0 {
        lemma_count_true_update(s, i, k - 1);
    }
}

proof fn lemma_count_true_none(s: Seq<bool>, k: int)
    requires
        0 <= k <= s.len(),
        forall|i: int| 0 <= i < s.len() ==> !s[i],
    ensures
        count_true(s, k) == 0,
    decreases k,
{
    if k > 0 {
        lemma_count_true_none(s, k - 1);
    }
}

proof fn lemma_count_true_bound(s: Seq<bool>, k: int)
    requires
        k >= 0,
    ensures
        count_true(s, k) <= k,
    decreases k,
{
    if k > 0 {
        lemma_count_true_bound(s, k - 1);
    }
}

/// A topological order leaves no self-sustaining set but the empty one.
pub proof fn lemma_order_excludes_sustaining(adj: Seq<Seq<bool>>, n: int, order: Seq<int>, s: Set<int>)
    requires
        topological_order(adj, n, order),
        self_sustaining(adj, n, s),
    ensures
        s =~= Set::<int>::empty(),
{
    lemma_order_prefix_outside(adj, n, order, s, n);
    assert forall|x: int| !s.contains(x) by {
        if s.contains(x) {
            assert(occurs(order, x));
            let i = choose|i: int| 0 <= i < order.len() && order[i] == x;
        }
    }
}

proof fn lemma_order_prefix_outside(adj: Seq<Seq<bool>>, n: int, order: Seq<int>, s: Set<int>, k: int)
    requires
        topological_order(adj, n, order),
        self_sustaining(adj, n, s),
        0 <= k <= n,
    ensures
        forall|i: int| 0 <= i < k ==> !s.contains(#[trigger] order[i]),
    decreases k,
{
    if k > 0 {
        lemma_order_prefix_outside(adj, n, order, s, k - 1);
        let x = order[k - 1];
        if s.contains(x) {
            let p = choose|p: int| s.contains(p) && 0 <= p < n && adj[p][x];
            assert(occurs(order, p));
            let j = choose|j: int| 0 <= j < order.len() && order[j] == p;
            assert(adj[order[j]][order[k - 1]]);
            assert(j < k - 1);
            assert(!s.contains(order[j]));
        }
    }
}

/// Whether `x` has no predecessor in `r`.
pub open spec fn source_in(adj: Seq<Seq<bool>>, r: Set<int>, x: int) -> bool {
    r.contains(x) && forall|p: int| r.contains(p) ==> !adj[p][x]
}

/// An elimination order of the nodes of `r`, taking a node without predecessor in what remains.
pub open spec fn elimination_order(adj: Seq<Seq<bool>>, r: Set<int>) -> Seq<int>
    decreases r.len(),
    when r.finite()
{
    if r.len() == 0 {
        Seq::empty()
    } else if exists|x: int| source_in(adj, r, x) {
        let x = choose|x: int| source_in(adj, r, x);
        seq![x] + elimination_order(adj, r.remove(x))
    } else {
        Seq::empty()
    }
}

/// Without a nonempty self-sustaining set, every finite node set has an elimination order in
/// which every edge between its nodes points forward.
proof fn lemma_elimination_order(adj: Seq<Seq<bool>>, n: int, r: Set<int>)
    requires
        r.finite(),
        forall|x: int| r.contains(x) ==> 0 <= x < n,
        forall|s: Set<int>| #[trigger] self_sustaining(adj, n, s) ==> s =~= Set::<int>::empty(),
    ensures
        ({
            let o = elimination_order(adj, r);
            &&& o.len() == r.len()
            &&& forall|i: int| 0 <= i < o.len() ==> r.contains(#[trigger] o[i])
            &&& forall|v: int| r.contains(v) ==> #[trigger] occurs(o, v)
            &&& forall|i: int, j: int| 0 <= i < o.len() && 0 <= j < o.len() && i != j ==> #[trigger] o[i] != #[trigger] o[j]
            &&& forall|i: int, j: int|
                0 <= i < o.len() && 0 <= j < o.len() && #[trigger] adj[o[i]][o[j]] ==> i < j
        }),
    decreases r.len(),
{
    let o = elimination_order(adj, r);
    if r.len() == 0 {
        r.lemma_len0_is_empty();
    } else {
        if !(exists|x: int| source_in(adj, r, x)) {
            assert(self_sustaining(adj, n, r)) by {
                assert forall|x: int| #[trigger] r.contains(x) implies exists|p: int|
                    r.contains(p) && 0 <= p < n && adj[p][x] by {
                    assert(!source_in(adj, r, x));
                }
            }
            assert(r =~= Set::<int>::empty());
            assert(false);
        }
        let x = choose|x: int| source_in(adj, r, x);
        let rest = r.remove(x);
        lemma_elimination_order(adj, n, rest);
        let t = elimination_order(adj, rest);
        assert(o == seq![x] + t);
        assert forall|i: int| 0 <= i < o.len() implies r.contains(#[trigger] o[i]) by {
            if i > 0 {
                assert(o[i] == t[i - 1]);
            }
        }
        assert forall|v: int| r.contains(v) implies #[trigger] occurs(o, v) by {
            if v == x {
                assert(o[0] == x);
            } else {
                assert(rest.contains(v));
                assert(occurs(t, v));
                let i = choose|i: int| 0 <= i < t.len() && t[i] == v;
                assert(o[i + 1] == t[i]);
            }
        }
        assert forall|i: int, j: int| 0 <= i < o.len() && 0 <= j < o.len() && i != j implies #[trigger] o[i] != #[trigger] o[j] by {
            if i > 0 && j > 0 {
                assert(o[i] == t[i - 1] && o[j] == t[j - 1]);
            } else if i == 0 {
                assert(o[j] == t[j - 1]);
                assert(rest.contains(t[j - 1]));
            } else {
                assert(o[i] == t[i - 1]);
                assert(rest.contains(t[i - 1]));
            }
        }
        assert forall|i: int, j: int| 0 <= i < o.len() && 0 <= j < o.len() && #[trigger] adj[o[i]][o[j]] implies i < j by {
            if j == 0 {
                assert(o[0] == x);
                assert(r.contains(o[i]));
                assert(!adj[o[i]][x]);
            } else if i > 0 {
                assert(o[i] == t[i - 1] && o[j] == t[j - 1]);
                assert(adj[t[i - 1]][t[j - 1]]);
            }
        }
    }
}

/// The nodes `0..n` as a set.
pub open spec fn all_nodes(n: int) -> Set<int> {
    Set::new(|v: int| 0 <= v < n)
}

/// A graph without a nonempty self-sustaining set has a topological order.
pub proof fn lemma_sustaining_free_has_order(adj: Seq<Seq<bool>>, n: int)
    requires
        n >= 0,
        forall|s: Set<int>| #[trigger] self_sustaining(adj, n, s) ==> s =~= Set::<int>::empty(),
    ensures
        topological_order(adj, n, elimination_order(adj, all_nodes(n))),
{
    let r = all_nodes(n);
    assert(r =~= vstd::set_lib::set_int_range(0, n));
    vstd::set_lib::lemma_int_range(0, n);
    lemma_elimination_order(adj, n, r);
}

} // verus!
