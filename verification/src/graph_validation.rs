//! Whether the execution graph of a model (its topology connections and transfer bindings,
//! over its declared endpoints) lets every endpoint be ordered before the endpoints it feeds.

use vstd::prelude::*;
use crate::artifact_error::{ids_view, ArtifactErrorModel, ModelArtifactError};
use crate::canonical_map::{lemma_sorted_keys_distinct, sorted_keys, CanonicalMap};
use crate::canonical_order::bytes_lt;
use crate::execution_bindings::{ExecutionBindings, TransferBranchBinding};
use crate::execution_graph::{eliminate, listed, self_sustaining, square};
use crate::identity::{CanonicalKey, CompartmentId, Ident};
use crate::model_artifact::lemma_single_key;
use crate::reference_validation::lemma_has_id;
use crate::rule_references::{add_id, id_keys, lemma_single_component_lt};
use crate::topology::{declares, Connection, Topology};

verus! {

/// Whether some connection of `conns` leads from `a` to `b`.
pub open spec fn connection_edge(conns: Seq<Connection>, a: Seq<u8>, b: Seq<u8>) -> bool {
    exists|k: int| 0 <= k < conns.len() && (#[trigger] conns[k]).source@ == a && conns[k].target@ == b
}

/// Whether some transfer binding of `bs` sends material from `a` to `b`.
pub open spec fn transfer_edge(bs: Seq<TransferBranchBinding>, a: Seq<u8>, b: Seq<u8>) -> bool {
    exists|k: int| 0 <= k < bs.len() && (#[trigger] bs[k]).compartment@ == a && bs[k].destination@ == b
}

/// Whether the execution graph has an edge from `a` to `b`.
pub open spec fn execution_edge(topology: Topology, bindings: ExecutionBindings, a: Seq<u8>, b: Seq<u8>) -> bool {
    connection_edge(topology.connections@, a, b) || transfer_edge(bindings.transfer_bindings@, a, b)
}

/// The identities the topology declares.
pub open spec fn declared_ids(topology: Topology) -> Set<Seq<u8>> {
    Set::new(|x: Seq<u8>| declares(topology.endpoints@, x))
}

/// A set of declared endpoints each of which is fed by an endpoint of the set: no order of the
/// endpoints can put all of them after their feeders.
pub open spec fn sustaining_ids(topology: Topology, bindings: ExecutionBindings, s: Set<Seq<u8>>) -> bool {
    &&& forall|x: Seq<u8>| s.contains(x) ==> declares(topology.endpoints@, x)
    &&& forall|x: Seq<u8>| s.contains(x) ==> #[trigger] fed_within(topology, bindings, s, x)
}

/// Whether an endpoint of `s` feeds `x`.
pub open spec fn fed_within(topology: Topology, bindings: ExecutionBindings, s: Set<Seq<u8>>, x: Seq<u8>) -> bool {
    exists|p: Seq<u8>| #[trigger] s.contains(p) && execution_edge(topology, bindings, p, x)
}

/// Every transfer binding leads from a declared endpoint to a declared endpoint.
pub open spec fn bindings_within(topology: Topology, bindings: ExecutionBindings) -> bool {
    forall|k: int|
        0 <= k < bindings.transfer_bindings@.len() ==> declares(
            topology.endpoints@,
            (#[trigger] bindings.transfer_bindings@[k]).compartment@,
        ) && declares(topology.endpoints@, bindings.transfer_bindings@[k].destination@)
}

/// Whether `edges` holds the pair `(a, b)`.
pub open spec fn pair_listed(edges: Seq<(usize, usize)>, a: int, b: int) -> bool {
    exists|k: int| 0 <= k < edges.len() && (#[trigger] edges[k]).0 == a && edges[k].1 == b
}

/// The declared endpoint identities in canonical order.
fn endpoint_ids(topology: &Topology) -> (ids: CanonicalMap<Ident, ()>)
    ensures
        ids.wf(),
        id_keys(ids@) == declared_ids(*topology),
{
    let mut ids: CanonicalMap<Ident, ()> = CanonicalMap::new();
    let ghost eps = topology.endpoints@;
    let mut k: usize = 0;
    proof {
        assert(id_keys(ids@) =~= Set::<Seq<u8>>::empty());
        assert(Set::new(|x: Seq<u8>| declares(eps.take(0), x)) =~= Set::<Seq<u8>>::empty());
    }
    while k < topology.endpoints.len()
        invariant
            0 <= k <= eps.len(),
            eps == topology.endpoints@,
            ids.wf(),
            id_keys(ids@) == Set::new(|x: Seq<u8>| declares(eps.take(k as int), x)),
        decreases eps.len() - k,
    {
        add_id(&mut ids, topology.endpoints[k].id());
        proof {
            let before = Set::new(|x: Seq<u8>| declares(eps.take(k as int), x));
            let after = Set::new(|x: Seq<u8>| declares(eps.take(k + 1), x));
            assert forall|x: Seq<u8>| after.contains(x) <==> before.insert(eps[k as int].spec_id()).contains(x) by {
                if declares(eps.take(k + 1), x) {
                    let i = choose|i: int| 0 <= i < k + 1 && #[trigger] eps.take(k + 1)[i].spec_id() == x;
                    if i < k {
                        assert(eps.take(k as int)[i] == eps[i]);
                    }
                }
                if before.contains(x) {
                    let i = choose|i: int| 0 <= i < k && #[trigger] eps.take(k as int)[i].spec_id() == x;
                    assert(eps.take(k + 1)[i] == eps[i]);
                }
                if x == eps[k as int].spec_id() {
                    assert(eps.take(k + 1)[k as int] == eps[k as int]);
                }
            }
            assert(after =~= before.insert(eps[k as int].spec_id()));
        }
        k = k + 1;
    }
    proof {
        assert(eps.take(eps.len() as int) =~= eps);
        assert(id_keys(ids@) =~= declared_ids(*topology));
    }
    ids
}

/// The position of a declared identity among the canonical identities.
fn index_of(ids: &CanonicalMap<Ident, ()>, id: &Ident) -> (i: usize)
    requires
        ids.wf(),
        id_keys(ids@).contains(id@),
    ensures
        i < ids@.len(),
        ids@[i as int].0@ == id@,
{
    proof {
        lemma_has_id(ids@, id@);
    }
    match ids.position(id) {
        Some(i) => {
            proof {
                lemma_single_key(ids@[i as int].0@, id@);
            }
            i
        },
        None => {
            proof {
                assert(false);
            }
            0
        },
    }
}

/// Distinct positions of canonical identities hold distinct identities.
proof fn lemma_ids_injective(ids: Seq<(Ident, ())>, a: int, b: int)
    requires
        sorted_keys(ids),
        0 <= a < ids.len(),
        0 <= b < ids.len(),
        ids[a].0@ == ids[b].0@,
    ensures
        a == b,
{
    if a != b {
        lemma_sorted_keys_distinct(ids, a, b);
    }
}

/// Pushing a pair adds exactly that pair.
proof fn lemma_push_pair(edges: Seq<(usize, usize)>, e: (usize, usize), a: int, b: int)
    ensures
        pair_listed(edges.push(e), a, b) == (pair_listed(edges, a, b) || (e.0 == a && e.1 == b)),
{
    let pushed = edges.push(e);
    if pair_listed(pushed, a, b) {
        let q = choose|q: int| 0 <= q < pushed.len() && (#[trigger] pushed[q]).0 == a && pushed[q].1 == b;
        if q < edges.len() {
            assert(pushed[q] == edges[q]);
        }
    }
    if pair_listed(edges, a, b) {
        let q = choose|q: int| 0 <= q < edges.len() && (#[trigger] edges[q]).0 == a && edges[q].1 == b;
        assert(pushed[q] == edges[q]);
    }
    assert(pushed[edges.len() as int] == e);
}

/// One more connection adds exactly its edge.
proof fn lemma_connection_step(conns: Seq<Connection>, k: int, x: Seq<u8>, y: Seq<u8>)
    requires
        0 <= k < conns.len(),
    ensures
        connection_edge(conns.take(k + 1), x, y) == (connection_edge(conns.take(k), x, y) || (conns[k].source@ == x
            && conns[k].target@ == y)),
{
    let t0 = conns.take(k);
    let t1 = conns.take(k + 1);
    if connection_edge(t1, x, y) {
        let r = choose|r: int| 0 <= r < t1.len() && (#[trigger] t1[r]).source@ == x && t1[r].target@ == y;
        if r < k {
            assert(t0[r] == t1[r]);
        }
    }
    if connection_edge(t0, x, y) {
        let r = choose|r: int| 0 <= r < t0.len() && (#[trigger] t0[r]).source@ == x && t0[r].target@ == y;
        assert(t1[r] == t0[r]);
    }
    assert(t1[k] == conns[k]);
}

/// One more transfer binding adds exactly its edge.
proof fn lemma_transfer_step(bs: Seq<TransferBranchBinding>, k: int, x: Seq<u8>, y: Seq<u8>)
    requires
        0 <= k < bs.len(),
    ensures
        transfer_edge(bs.take(k + 1), x, y) == (transfer_edge(bs.take(k), x, y) || (bs[k].compartment@ == x
            && bs[k].destination@ == y)),
{
    let t0 = bs.take(k);
    let t1 = bs.take(k + 1);
    if transfer_edge(t1, x, y) {
        let r = choose|r: int| 0 <= r < t1.len() && (#[trigger] t1[r]).compartment@ == x && t1[r].destination@ == y;
        if r < k {
            assert(t0[r] == t1[r]);
        }
    }
    if transfer_edge(t0, x, y) {
        let r = choose|r: int| 0 <= r < t0.len() && (#[trigger] t0[r]).compartment@ == x && t0[r].destination@ == y;
        assert(t1[r] == t0[r]);
    }
    assert(t1[k] == bs[k]);
}

/// The edges of the execution graph as pairs of positions among the canonical identities.
fn edge_pairs(topology: &Topology, bindings: &ExecutionBindings, ids: &CanonicalMap<Ident, ()>) -> (edges: Vec<(usize, usize)>)
    requires
        topology.wf(),
        bindings_within(*topology, *bindings),
        ids.wf(),
        id_keys(ids@) == declared_ids(*topology),
    ensures
        forall|k: int| 0 <= k < edges@.len() ==> (#[trigger] edges@[k]).0 < ids@.len() && edges@[k].1 < ids@.len(),
        forall|a: int, b: int|
            0 <= a < ids@.len() && 0 <= b < ids@.len() ==> (#[trigger] pair_listed(edges@, a, b) <==> execution_edge(
                *topology,
                *bindings,
                ids@[a].0@,
                ids@[b].0@,
            )),
{
    let ghost m = ids@;
    let ghost n = m.len() as int;
    let ghost conns = topology.connections@;
    let ghost bs = bindings.transfer_bindings@;
    let mut edges: Vec<(usize, usize)> = Vec::new();
    let mut k: usize = 0;
    proof {
        assert forall|a: int, b: int| 0 <= a < n && 0 <= b < n implies (#[trigger] pair_listed(edges@, a, b)
            <==> connection_edge(conns.take(0), m[a].0@, m[b].0@)) by {
            assert(conns.take(0).len() == 0);
        }
    }
    while k < topology.connections.len()
        invariant
            0 <= k <= conns.len(),
            conns == topology.connections@,
            m == ids@,
            n == m.len(),
            topology.wf(),
            ids.wf(),
            id_keys(ids@) == declared_ids(*topology),
            forall|q: int| 0 <= q < edges@.len() ==> (#[trigger] edges@[q]).0 < n && edges@[q].1 < n,
            forall|a: int, b: int|
                0 <= a < n && 0 <= b < n ==> (#[trigger] pair_listed(edges@, a, b) <==> connection_edge(
                    conns.take(k as int),
                    m[a].0@,
                    m[b].0@,
                )),
        decreases conns.len() - k,
    {
        let c = &topology.connections[k];
        proof {
            assert(declares(topology.endpoints@, conns[k as int].source@));
            assert(declared_ids(*topology).contains(c.source@));
            assert(declared_ids(*topology).contains(c.target@));
        }
        let i = index_of(ids, &c.source);
        let j = index_of(ids, &c.target);
        let ghost old_edges = edges@;
        edges.push((i, j));
        proof {
            assert forall|a: int, b: int| 0 <= a < n && 0 <= b < n implies (#[trigger] pair_listed(edges@, a, b)
                <==> connection_edge(conns.take(k + 1), m[a].0@, m[b].0@)) by {
                lemma_push_pair(old_edges, (i, j), a, b);
                lemma_connection_step(conns, k as int, m[a].0@, m[b].0@);
                assert(pair_listed(old_edges, a, b) == connection_edge(conns.take(k as int), m[a].0@, m[b].0@));
                if conns[k as int].source@ == m[a].0@ && conns[k as int].target@ == m[b].0@ {
                    lemma_ids_injective(m, a, i as int);
                    lemma_ids_injective(m, b, j as int);
                }
            }
        }
        k = k + 1;
    }
    proof {
        assert(conns.take(conns.len() as int) =~= conns);
        assert forall|a: int, b: int| 0 <= a < n && 0 <= b < n implies (#[trigger] pair_listed(edges@, a, b)
            <==> (connection_edge(conns, m[a].0@, m[b].0@) || transfer_edge(bs.take(0), m[a].0@, m[b].0@))) by {
            assert(bs.take(0).len() == 0);
        }
    }
    let mut k: usize = 0;
    while k < bindings.transfer_bindings.len()
        invariant
            0 <= k <= bs.len(),
            bs == bindings.transfer_bindings@,
            conns == topology.connections@,
            m == ids@,
            n == m.len(),
            bindings_within(*topology, *bindings),
            ids.wf(),
            id_keys(ids@) == declared_ids(*topology),
            forall|q: int| 0 <= q < edges@.len() ==> (#[trigger] edges@[q]).0 < n && edges@[q].1 < n,
            forall|a: int, b: int|
                0 <= a < n && 0 <= b < n ==> (#[trigger] pair_listed(edges@, a, b) <==> (connection_edge(conns, m[a].0@, m[b].0@)
                    || transfer_edge(bs.take(k as int), m[a].0@, m[b].0@))),
        decreases bs.len() - k,
    {
        let t = &bindings.transfer_bindings[k];
        proof {
            assert(declared_ids(*topology).contains(t.compartment@));
            assert(declared_ids(*topology).contains(t.destination@));
        }
        let i = index_of(ids, &t.compartment);
        let j = index_of(ids, &t.destination);
        let ghost old_edges = edges@;
        edges.push((i, j));
        proof {
            assert forall|a: int, b: int| 0 <= a < n && 0 <= b < n implies (#[trigger] pair_listed(edges@, a, b)
                <==> (connection_edge(conns, m[a].0@, m[b].0@) || transfer_edge(bs.take(k + 1), m[a].0@, m[b].0@))) by {
                lemma_push_pair(old_edges, (i, j), a, b);
                lemma_transfer_step(bs, k as int, m[a].0@, m[b].0@);
                assert(pair_listed(old_edges, a, b) == (connection_edge(conns, m[a].0@, m[b].0@) || transfer_edge(bs.take(k as int), m[a].0@, m[b].0@)));
                if bs[k as int].compartment@ == m[a].0@ && bs[k as int].destination@ == m[b].0@ {
                    lemma_ids_injective(m, a, i as int);
                    lemma_ids_injective(m, b, j as int);
                }
            }
        }
        k = k + 1;
    }
    proof {
        assert(bs.take(bs.len() as int) =~= bs);
    }
    edges
}

/// The adjacency matrix of `n` nodes with the edges `edges`.
fn adjacency(n: usize, edges: &Vec<(usize, usize)>) -> (adj: Vec<Vec<bool>>)
    requires
        forall|k: int| 0 <= k < edges@.len() ==> (#[trigger] edges@[k]).0 < n && edges@[k].1 < n,
    ensures
        square(adj@.map_values(|row: Vec<bool>| row@), n as int),
        forall|a: int, b: int|
            0 <= a < n && 0 <= b < n ==> #[trigger] adj@[a]@[b] == pair_listed(edges@, a, b),
{
    let mut adj: Vec<Vec<bool>> = Vec::new();
    let mut a: usize = 0;
    while a < n
        invariant
            0 <= a <= n,
            adj@.len() == a,
            forall|q: int| 0 <= q < edges@.len() ==> (#[trigger] edges@[q]).0 < n && edges@[q].1 < n,
            forall|u: int| 0 <= u < a ==> (#[trigger] adj@[u])@.len() == n,
            forall|u: int, b: int| 0 <= u < a && 0 <= b < n ==> #[trigger] adj@[u]@[b] == pair_listed(edges@, u, b),
        decreases n - a,
    {
        let mut row: Vec<bool> = Vec::new();
        let mut b: usize = 0;
        while b < n
            invariant
                0 <= b <= n,
                row@.len() == b,
                forall|v: int| 0 <= v < b ==> !#[trigger] row@[v],
            decreases n - b,
        {
            row.push(false);
            b = b + 1;
        }
        let mut k: usize = 0;
        proof {
            assert(edges@.take(0).len() == 0);
        }
        while k < edges.len()
            invariant
                0 <= k <= edges@.len(),
                a < n,
                row@.len() == n,
                forall|q: int| 0 <= q < edges@.len() ==> (#[trigger] edges@[q]).0 < n && edges@[q].1 < n,
                forall|v: int| 0 <= v < n ==> #[trigger] row@[v] == pair_listed(edges@.take(k as int), a as int, v),
            decreases edges@.len() - k,
        {
            let (e0, e1) = edges[k];
            let ghost before = row@;
            if e0 == a {
                row.set(e1, true);
            }
            proof {
                assert forall|v: int| 0 <= v < n implies #[trigger] row@[v] == pair_listed(edges@.take(k + 1), a as int, v) by {
                    if pair_listed(edges@.take(k as int), a as int, v) {
                        let q = choose|q: int| 0 <= q < k && (#[trigger] edges@.take(k as int)[q]).0 == a && edges@.take(k as int)[q].1 == v;
                        assert(edges@.take(k + 1)[q] == edges@.take(k as int)[q]);
                    }
                    if pair_listed(edges@.take(k + 1), a as int, v) {
                        let q = choose|q: int| 0 <= q < k + 1 && (#[trigger] edges@.take(k + 1)[q]).0 == a && edges@.take(k + 1)[q].1 == v;
                        if q < k {
                            assert(edges@.take(k as int)[q] == edges@.take(k + 1)[q]);
                        }
                    }
                    assert(edges@.take(k + 1)[k as int] == edges@[k as int]);
                }
            }
            k = k + 1;
        }
        proof {
            assert(edges@.take(edges@.len() as int) =~= edges@);
        }
        adj.push(row);
        a = a + 1;
    }
    proof {
        let g = adj@.map_values(|row: Vec<bool>| row@);
        assert forall|u: int| 0 <= u < n implies (#[trigger] g[u]).len() == n by {
            assert(g[u] == adj@[u]@);
        }
    }
    adj
}

/// What the report of a cyclic execution graph holds: the identities, in canonical order, of
/// the largest set of endpoints each fed from within the set.
pub open spec fn cyclic_report(topology: Topology, bindings: ExecutionBindings, e: ArtifactErrorModel) -> bool {
    match e {
        ArtifactErrorModel::CyclicExecutionBindings { blocked_compartments: b } => {
            &&& b.len() > 0
            &&& forall|i: int, j: int| 0 <= i < j < b.len() ==> #[trigger] b[i] != #[trigger] b[j] && bytes_lt(b[i], b[j])
            &&& sustaining_ids(topology, bindings, b.to_set())
            &&& forall|s: Set<Seq<u8>>| #[trigger] sustaining_ids(topology, bindings, s) ==> s.subset_of(b.to_set())
        },
        _ => false,
    }
}

/// The adjacency `g` of the canonical identities `m` is that of the execution graph.
pub open spec fn adjacency_of(topology: Topology, bindings: ExecutionBindings, m: Seq<(Ident, ())>, g: Seq<Seq<bool>>) -> bool {
    forall|x: int, y: int|
        0 <= x < m.len() && 0 <= y < m.len() ==> #[trigger] g[x][y] == execution_edge(topology, bindings, m[x].0@, m[y].0@)
}

/// The identities of a self-sustaining set of positions form a sustaining set.
proof fn lemma_image_sustaining(
    topology: Topology,
    bindings: ExecutionBindings,
    m: Seq<(Ident, ())>,
    g: Seq<Seq<bool>>,
    blocked: Seq<usize>,
    b: Seq<Seq<u8>>,
)
    requires
        adjacency_of(topology, bindings, m, g),
        forall|i: int| 0 <= i < m.len() ==> declares(topology.endpoints@, (#[trigger] m[i]).0@),
        self_sustaining(g, m.len() as int, listed(blocked)),
        b.len() == blocked.len(),
        forall|u: int| 0 <= u < b.len() ==> #[trigger] b[u] == m[blocked[u] as int].0@,
    ensures
        sustaining_ids(topology, bindings, b.to_set()),
{
    let n = m.len() as int;
    let l = listed(blocked);
    let bs = b.to_set();
    assert forall|x: Seq<u8>| bs.contains(x) implies declares(topology.endpoints@, x) by {
        let u = choose|u: int| 0 <= u < b.len() && b[u] == x;
        assert(l.contains(blocked[u] as int));
        assert(m[blocked[u] as int].0@ == b[u]);
    }
    assert forall|x: Seq<u8>| bs.contains(x) implies #[trigger] fed_within(topology, bindings, bs, x) by {
        let u = choose|u: int| 0 <= u < b.len() && b[u] == x;
        let v = blocked[u] as int;
        assert(l.contains(v));
        let p = choose|p: int| l.contains(p) && 0 <= p < n && g[p][v];
        let w = choose|w: int| 0 <= w < blocked.len() && blocked[w] as int == p;
        assert(b[w] == m[p].0@);
        assert(bs.contains(b[w]));
        assert(execution_edge(topology, bindings, b[w], x));
    }
}

/// The positions whose identities lie in `s`.
pub open spec fn preimage(m: Seq<(Ident, ())>, s: Set<Seq<u8>>) -> Set<int> {
    Set::new(|i: int| 0 <= i < m.len() && s.contains(m[i].0@))
}

/// A position of a sustaining set has a feeding position in the set.
proof fn preimage_feeder(
    topology: Topology,
    bindings: ExecutionBindings,
    m: Seq<(Ident, ())>,
    g: Seq<Seq<bool>>,
    s: Set<Seq<u8>>,
    i: int,
) -> (j: int)
    requires
        adjacency_of(topology, bindings, m, g),
        id_keys(m) == declared_ids(topology),
        sustaining_ids(topology, bindings, s),
        0 <= i < m.len(),
        s.contains(m[i].0@),
    ensures
        0 <= j < m.len(),
        s.contains(m[j].0@),
        g[j][i],
{
    let x = m[i].0@;
    assert(fed_within(topology, bindings, s, x));
    let q = choose|q: Seq<u8>| #[trigger] s.contains(q) && execution_edge(topology, bindings, q, x);
    assert(declares(topology.endpoints@, q));
    assert(declared_ids(topology).contains(q));
    assert(id_keys(m).contains(q));
    let j = choose|j: int| 0 <= j < m.len() && (#[trigger] m[j]).0@ == q;
    assert(g[j][i] == execution_edge(topology, bindings, m[j].0@, m[i].0@));
    j
}

/// The positions of a sustaining set form a self-sustaining set of positions.
proof fn lemma_preimage_sustaining(
    topology: Topology,
    bindings: ExecutionBindings,
    m: Seq<(Ident, ())>,
    g: Seq<Seq<bool>>,
    s: Set<Seq<u8>>,
)
    requires
        adjacency_of(topology, bindings, m, g),
        id_keys(m) == declared_ids(topology),
        sustaining_ids(topology, bindings, s),
    ensures
        self_sustaining(g, m.len() as int, preimage(m, s)),
{
    let n = m.len() as int;
    let p_set = preimage(m, s);
    assert forall|i: int| #[trigger] p_set.contains(i) implies exists|p: int| p_set.contains(p) && 0 <= p < n && g[p][i] by {
        let j = preimage_feeder(topology, bindings, m, g, s, i);
        assert(p_set.contains(j));
    }
}

/// Every sustaining set lies within the identities of the largest self-sustaining set of
/// positions.
proof fn lemma_sustaining_within(
    topology: Topology,
    m: Seq<(Ident, ())>,
    blocked: Seq<usize>,
    b: Seq<Seq<u8>>,
    s: Set<Seq<u8>>,
)
    requires
        id_keys(m) == declared_ids(topology),
        preimage(m, s).subset_of(listed(blocked)),
        b.len() == blocked.len(),
        forall|u: int| 0 <= u < b.len() ==> #[trigger] b[u] == m[blocked[u] as int].0@,
        forall|x: Seq<u8>| s.contains(x) ==> declares(topology.endpoints@, x),
    ensures
        s.subset_of(b.to_set()),
{
    assert forall|y: Seq<u8>| s.contains(y) implies b.to_set().contains(y) by {
        assert(declared_ids(topology).contains(y));
        assert(id_keys(m).contains(y));
        let j = choose|j: int| 0 <= j < m.len() && (#[trigger] m[j]).0@ == y;
        assert(preimage(m, s).contains(j));
        assert(listed(blocked).contains(j));
        let u = choose|u: int| 0 <= u < blocked.len() && blocked[u] as int == j;
        assert(b[u] == y);
    }
}

/// The identities of the eliminated positions' complement form the report of a cyclic graph.
proof fn lemma_blocked_report(
    topology: Topology,
    bindings: ExecutionBindings,
    m: Seq<(Ident, ())>,
    g: Seq<Seq<bool>>,
    blocked: Seq<usize>,
    b: Seq<Seq<u8>>,
)
    requires
        adjacency_of(topology, bindings, m, g),
        sorted_keys(m),
        id_keys(m) == declared_ids(topology),
        forall|i: int, j: int| 0 <= i < j < blocked.len() ==> #[trigger] blocked[i] < #[trigger] blocked[j],
        self_sustaining(g, m.len() as int, listed(blocked)),
        forall|t: Set<int>| #[trigger] self_sustaining(g, m.len() as int, t) ==> t.subset_of(listed(blocked)),
        b.len() == blocked.len(),
        forall|u: int| 0 <= u < b.len() ==> #[trigger] b[u] == m[blocked[u] as int].0@,
    ensures
        forall|i: int, j: int| 0 <= i < j < b.len() ==> #[trigger] b[i] != #[trigger] b[j] && bytes_lt(b[i], b[j]),
        sustaining_ids(topology, bindings, b.to_set()),
        forall|s: Set<Seq<u8>>| #[trigger] sustaining_ids(topology, bindings, s) ==> s.subset_of(b.to_set()),
{
    assert forall|i: int| 0 <= i < m.len() implies declares(topology.endpoints@, (#[trigger] m[i]).0@) by {
        assert(id_keys(m).contains(m[i].0@));
        assert(declared_ids(topology).contains(m[i].0@));
    }
    lemma_image_sustaining(topology, bindings, m, g, blocked, b);
    assert forall|s: Set<Seq<u8>>| #[trigger] sustaining_ids(topology, bindings, s) implies s.subset_of(b.to_set()) by {
        lemma_preimage_sustaining(topology, bindings, m, g, s);
        lemma_sustaining_within(topology, m, blocked, b, s);
    }
    assert forall|i: int, j: int| 0 <= i < j < b.len() implies #[trigger] b[i] != #[trigger] b[j] && bytes_lt(b[i], b[j]) by {
        assert(blocked[i] < blocked[j]);
        assert(listed(blocked).contains(blocked[i] as int));
        assert(listed(blocked).contains(blocked[j] as int));
        assert(m[blocked[i] as int].0.key() == seq![b[i]]);
        assert(m[blocked[j] as int].0.key() == seq![b[j]]);
        lemma_single_component_lt(b[i], b[j]);
    }
}

/// Checks that the execution graph orders: that no nonempty set of declared endpoints is fed
/// entirely from within itself (by topology connections and transfer bindings).
///
/// Otherwise reports, in canonical order, every endpoint that no order can place after all its
/// feeders.
pub fn validate_execution_graph_is_acyclic(bindings: &ExecutionBindings, topology: &Topology) -> (r: Result<
    (),
    ModelArtifactError,
>)
    requires
        topology.wf(),
        bindings_within(*topology, *bindings),
    ensures
        match r {
            Ok(()) => forall|s: Set<Seq<u8>>| #[trigger] sustaining_ids(*topology, *bindings, s) ==> s =~= Set::<Seq<u8>>::empty(),
            Err(e) => cyclic_report(*topology, *bindings, e@),
        },
{
    let ids = endpoint_ids(topology);
    let edges = edge_pairs(topology, bindings, &ids);
    let n = ids.len();
    let adj = adjacency(n, &edges);
    let ghost m = ids@;
    let ghost g = adj@.map_values(|row: Vec<bool>| row@);
    proof {
        assert forall|x: int, y: int| 0 <= x < m.len() && 0 <= y < m.len() implies #[trigger] g[x][y]
            == execution_edge(*topology, *bindings, m[x].0@, m[y].0@) by {
            assert(g[x] == adj@[x]@);
            assert(adj@[x]@[y] == pair_listed(edges@, x, y));
        }
        assert(adjacency_of(*topology, *bindings, m, g));
    }
    let blocked = eliminate(&adj);
    let entries = ids.entries();
    let mut out: Vec<CompartmentId> = Vec::new();
    let mut t: usize = 0;
    while t < blocked.len()
        invariant
            0 <= t <= blocked@.len(),
            entries@ == m,
            n == m.len(),
            self_sustaining(g, n as int, listed(blocked@)),
            out@.len() == t,
            forall|u: int| 0 <= u < t ==> (#[trigger] out@[u])@ == m[blocked@[u] as int].0@,
        decreases blocked@.len() - t,
    {
        proof {
            assert(listed(blocked@).contains(blocked@[t as int] as int));
        }
        out.push(entries[blocked[t]].0.clone());
        t = t + 1;
    }
    let ghost b = ids_view(out@);
    proof {
        assert forall|u: int| 0 <= u < b.len() implies #[trigger] b[u] == m[blocked@[u] as int].0@ by {
            assert(b[u] == out@[u]@);
        }
        lemma_blocked_report(*topology, *bindings, m, g, blocked@, b);
    }
    if out.len() == 0 {
        proof {
            assert forall|s: Set<Seq<u8>>| #[trigger] sustaining_ids(*topology, *bindings, s) implies s =~= Set::<Seq<u8>>::empty() by {
                assert(s.subset_of(b.to_set()));
                assert forall|x: Seq<u8>| !s.contains(x) by {
                    if s.contains(x) {
                        assert(b.to_set().contains(x));
                    }
                }
            }
        }
        Ok(())
    } else {
        Err(ModelArtifactError::CyclicExecutionBindings { blocked_compartments: out })
    }
}

// ---------------------------------------------------------------------------------------------
// Orders of the execution graph
// ---------------------------------------------------------------------------------------------

/// An order of the declared endpoints, each exactly once, in which every edge of the execution
/// graph points forward.
pub open spec fn execution_order(topology: Topology, bindings: ExecutionBindings, order: Seq<Seq<u8>>) -> bool {
    &&& order.no_duplicates()
    &&& forall|x: Seq<u8>| #[trigger] order.contains(x) <==> declares(topology.endpoints@, x)
    &&& forall|i: int, j: int|
        0 <= i < order.len() && 0 <= j < order.len() && #[trigger] execution_edge(topology, bindings, order[i], order[j])
            ==> i < j
}

/// The execution graph over the positions of an enumeration of identities.
pub open spec fn enumerated_graph(topology: Topology, bindings: ExecutionBindings, e: Seq<Seq<u8>>) -> Seq<Seq<bool>> {
    Seq::new(e.len(), |i: int| Seq::new(e.len(), |j: int| execution_edge(topology, bindings, e[i], e[j])))
}

/// The positions of an enumeration whose identities lie in `s`.
pub open spec fn enumerated_preimage(e: Seq<Seq<u8>>, s: Set<Seq<u8>>) -> Set<int> {
    Set::new(|i: int| 0 <= i < e.len() && s.contains(e[i]))
}

/// A position of a sustaining set in an enumeration of the declared identities has a feeding
/// position in the set.
proof fn enumerated_feeder(topology: Topology, bindings: ExecutionBindings, e: Seq<Seq<u8>>, s: Set<Seq<u8>>, i: int) -> (j: int)
    requires
        forall|x: Seq<u8>| declares(topology.endpoints@, x) ==> #[trigger] e.contains(x),
        sustaining_ids(topology, bindings, s),
        0 <= i < e.len(),
        s.contains(e[i]),
    ensures
        0 <= j < e.len(),
        s.contains(e[j]),
        execution_edge(topology, bindings, e[j], e[i]),
{
    let x = e[i];
    assert(fed_within(topology, bindings, s, x));
    let q = choose|q: Seq<u8>| #[trigger] s.contains(q) && execution_edge(topology, bindings, q, x);
    assert(declares(topology.endpoints@, q));
    assert(e.contains(q));
    choose|j: int| 0 <= j < e.len() && e[j] == q
}

/// The positions of a sustaining set in an enumeration of the declared identities form a
/// self-sustaining set of positions.
proof fn lemma_enumerated_preimage(topology: Topology, bindings: ExecutionBindings, e: Seq<Seq<u8>>, s: Set<Seq<u8>>)
    requires
        forall|x: Seq<u8>| declares(topology.endpoints@, x) ==> #[trigger] e.contains(x),
        sustaining_ids(topology, bindings, s),
    ensures
        self_sustaining(enumerated_graph(topology, bindings, e), e.len() as int, enumerated_preimage(e, s)),
{
    let g = enumerated_graph(topology, bindings, e);
    let n = e.len() as int;
    let p_set = enumerated_preimage(e, s);
    assert forall|i: int| #[trigger] p_set.contains(i) implies exists|p: int| p_set.contains(p) && 0 <= p < n && g[p][i] by {
        let j = enumerated_feeder(topology, bindings, e, s, i);
        assert(p_set.contains(j));
        assert(g[j][i] == execution_edge(topology, bindings, e[j], e[i]));
    }
}

/// An execution order leaves no sustaining set but the empty one.
proof fn lemma_order_excludes_sustaining_ids(
    topology: Topology,
    bindings: ExecutionBindings,
    order: Seq<Seq<u8>>,
    s: Set<Seq<u8>>,
)
    requires
        execution_order(topology, bindings, order),
        sustaining_ids(topology, bindings, s),
    ensures
        s =~= Set::<Seq<u8>>::empty(),
{
    let n = order.len() as int;
    let g = enumerated_graph(topology, bindings, order);
    let positions = Seq::new(n as nat, |i: int| i);
    assert forall|x: Seq<u8>| declares(topology.endpoints@, x) implies #[trigger] order.contains(x) by {}
    lemma_enumerated_preimage(topology, bindings, order, s);
    assert forall|v: int| 0 <= v < n implies #[trigger] crate::execution_graph::occurs(positions, v) by {
        assert(positions[v] == v);
    }
    assert forall|i: int, j: int| 0 <= i < n && 0 <= j < n && #[trigger] g[positions[i]][positions[j]] implies i < j by {
        assert(positions[i] == i && positions[j] == j);
        assert(g[i][j] == execution_edge(topology, bindings, order[i], order[j]));
    }
    assert(crate::execution_graph::topological_order(g, n, positions));
    crate::execution_graph::lemma_order_excludes_sustaining(g, n, positions, enumerated_preimage(order, s));
    assert forall|x: Seq<u8>| !s.contains(x) by {
        if s.contains(x) {
            assert(order.contains(x));
            let i = choose|i: int| 0 <= i < order.len() && order[i] == x;
            assert(enumerated_preimage(order, s).contains(i));
        }
    }
}

/// Without a nonempty sustaining set the execution graph has an execution order.
proof fn lemma_sustaining_free_has_execution_order(topology: Topology, bindings: ExecutionBindings) -> (order: Seq<Seq<u8>>)
    requires
        topology.wf(),
        forall|s: Set<Seq<u8>>| #[trigger] sustaining_ids(topology, bindings, s) ==> s =~= Set::<Seq<u8>>::empty(),
    ensures
        execution_order(topology, bindings, order),
{
    let eps = topology.endpoints@;
    let e = Seq::new(eps.len(), |i: int| eps[i].spec_id());
    let n = e.len() as int;
    let g = enumerated_graph(topology, bindings, e);
    assert forall|t: Set<int>| #[trigger] self_sustaining(g, n, t) implies t =~= Set::<int>::empty() by {
        let image = Set::new(|x: Seq<u8>| exists|i: int| t.contains(i) && e[i] == x);
        assert forall|x: Seq<u8>| image.contains(x) implies declares(topology.endpoints@, x) by {
            let i = choose|i: int| t.contains(i) && e[i] == x;
            assert(eps[i].spec_id() == x);
        }
        assert forall|x: Seq<u8>| image.contains(x) implies #[trigger] fed_within(topology, bindings, image, x) by {
            let i = choose|i: int| t.contains(i) && e[i] == x;
            let p = choose|p: int| t.contains(p) && 0 <= p < n && g[p][i];
            assert(image.contains(e[p]));
            assert(g[p][i] == execution_edge(topology, bindings, e[p], e[i]));
        }
        assert(sustaining_ids(topology, bindings, image));
        assert forall|i: int| !t.contains(i) by {
            if t.contains(i) {
                assert(image.contains(e[i]));
            }
        }
    }
    crate::execution_graph::lemma_sustaining_free_has_order(g, n);
    let ord = crate::execution_graph::elimination_order(g, crate::execution_graph::all_nodes(n));
    let order = Seq::new(n as nat, |i: int| e[ord[i]]);
    assert forall|i: int, j: int| 0 <= i < order.len() && 0 <= j < order.len() && i != j implies order[i] != order[j] by {
        assert(ord[i] != ord[j]);
        assert(0 <= ord[i] < n && 0 <= ord[j] < n);
        assert(crate::topology::distinct_endpoints(eps));
        assert(eps[ord[i]].spec_id() != eps[ord[j]].spec_id());
    }
    assert forall|x: Seq<u8>| #[trigger] order.contains(x) <==> declares(topology.endpoints@, x) by {
        if order.contains(x) {
            let i = choose|i: int| 0 <= i < order.len() && order[i] == x;
            assert(0 <= ord[i] < n);
            assert(eps[ord[i]].spec_id() == x);
        }
        if declares(topology.endpoints@, x) {
            let v = choose|v: int| 0 <= v < eps.len() && #[trigger] eps[v].spec_id() == x;
            assert(crate::execution_graph::occurs(ord, v));
            let i = choose|i: int| 0 <= i < ord.len() && ord[i] == v;
            assert(order[i] == x);
        }
    }
    assert forall|i: int, j: int|
        0 <= i < order.len() && 0 <= j < order.len() && #[trigger] execution_edge(topology, bindings, order[i], order[j])
        implies i < j by {
        assert(0 <= ord[i] < n && 0 <= ord[j] < n);
        assert(g[ord[i]][ord[j]] == execution_edge(topology, bindings, e[ord[i]], e[ord[j]]));
    }
    order
}

/// The execution graph of a model has an order of its endpoints in which every edge points
/// forward exactly when no nonempty set of endpoints is fed entirely from within itself: the
/// condition under which the acyclicity check succeeds.
pub proof fn lemma_ordered_iff_acyclic(topology: Topology, bindings: ExecutionBindings)
    requires
        topology.wf(),
    ensures
        (forall|s: Set<Seq<u8>>| #[trigger] sustaining_ids(topology, bindings, s) ==> s =~= Set::<Seq<u8>>::empty())
            <==> exists|order: Seq<Seq<u8>>| execution_order(topology, bindings, order),
{
    if forall|s: Set<Seq<u8>>| #[trigger] sustaining_ids(topology, bindings, s) ==> s =~= Set::<Seq<u8>>::empty() {
        let order = lemma_sustaining_free_has_execution_order(topology, bindings);
        assert(execution_order(topology, bindings, order));
    }
    if exists|order: Seq<Seq<u8>>| execution_order(topology, bindings, order) {
        let order = choose|order: Seq<Seq<u8>>| execution_order(topology, bindings, order);
        assert forall|s: Set<Seq<u8>>| #[trigger] sustaining_ids(topology, bindings, s) implies s =~= Set::<Seq<u8>>::empty() by {
            lemma_order_excludes_sustaining_ids(topology, bindings, order, s);
        }
    }
}

} // verus!
