//! The compartment graph: finite compartments, boundary accounts and their connections.

use vstd::prelude::*;
use crate::identity::{CompartmentId, Ident};

verus! {

/// A graph endpoint: a finite compartment that holds stock, or a boundary account.
#[derive(Debug, PartialEq, Eq)]
pub enum TopologyEndpoint {
    Finite(CompartmentId),
    Boundary(CompartmentId),
}

impl TopologyEndpoint {
    pub open spec fn spec_id(&self) -> Seq<u8> {
        match self {
            TopologyEndpoint::Finite(id) => id@,
            TopologyEndpoint::Boundary(id) => id@,
        }
    }

    /// The endpoint's identity.
    pub fn id(&self) -> (r: &CompartmentId)
        ensures
            r@ == self.spec_id(),
    {
        match self {
            TopologyEndpoint::Finite(id) => id,
            TopologyEndpoint::Boundary(id) => id,
        }
    }

    /// Whether the endpoint is a finite compartment.
    pub fn is_finite(&self) -> (r: bool)
        ensures
            r == (self is Finite),
    {
        match self {
            TopologyEndpoint::Finite(_) => true,
            TopologyEndpoint::Boundary(_) => false,
        }
    }
}

impl Clone for TopologyEndpoint {
    fn clone(&self) -> (r: Self)
        ensures
            r == *self,
    {
        match self {
            TopologyEndpoint::Finite(id) => TopologyEndpoint::Finite(id.clone()),
            TopologyEndpoint::Boundary(id) => TopologyEndpoint::Boundary(id.clone()),
        }
    }
}

/// A directed connection between two declared endpoints.
#[derive(Debug, PartialEq, Eq)]
pub struct Connection {
    pub source: CompartmentId,
    pub target: CompartmentId,
}

impl Clone for Connection {
    fn clone(&self) -> (r: Self)
        ensures
            r == *self,
    {
        Connection { source: self.source.clone(), target: self.target.clone() }
    }
}

/// Why endpoints and connections do not form a topology.
#[derive(Debug, PartialEq, Eq)]
pub enum TopologyError {
    /// Fires when two endpoints share an identity.
    DuplicateEndpoint { endpoint: CompartmentId },
    /// Fires when a connection names an undeclared endpoint.
    UnknownConnectionEndpoint { endpoint: CompartmentId },
}

/// Whether some endpoint of `endpoints` has identity `id`.
pub open spec fn declares(endpoints: Seq<TopologyEndpoint>, id: Seq<u8>) -> bool {
    exists|i: int| 0 <= i < endpoints.len() && #[trigger] endpoints[i].spec_id() == id
}

/// Whether the endpoint identities of `endpoints` are pairwise distinct.
pub open spec fn distinct_endpoints(endpoints: Seq<TopologyEndpoint>) -> bool {
    forall|i: int, j: int|
        0 <= i < endpoints.len() && 0 <= j < endpoints.len() && i != j ==> #[trigger] endpoints[i].spec_id()
            != #[trigger] endpoints[j].spec_id()
}

/// Endpoint identities are distinct and every connection joins declared endpoints.
pub open spec fn topology_wf(endpoints: Seq<TopologyEndpoint>, connections: Seq<Connection>) -> bool {
    &&& distinct_endpoints(endpoints)
    &&& forall|k: int|
        0 <= k < connections.len() ==> declares(endpoints, (#[trigger] connections[k]).source@)
            && declares(endpoints, connections[k].target@)
}

/// A compartment graph.
#[derive(Debug, PartialEq, Eq)]
pub struct Topology {
    pub endpoints: Vec<TopologyEndpoint>,
    pub connections: Vec<Connection>,
}

impl Topology {
    /// Endpoint identities are distinct and every connection joins declared endpoints.
    pub open spec fn wf(&self) -> bool {
        topology_wf(self.endpoints@, self.connections@)
    }

    /// Whether two topologies declare the same endpoints and connections in the same order.
    pub open spec fn same(&self, other: &Topology) -> bool {
        &&& self.endpoints@.len() == other.endpoints@.len()
        &&& self.connections@.len() == other.connections@.len()
        &&& forall|i: int|
            0 <= i < self.endpoints@.len() ==> same_endpoint_spec(
                #[trigger] self.endpoints@[i],
                other.endpoints@[i],
            )
        &&& forall|k: int|
            0 <= k < self.connections@.len() ==> (#[trigger] self.connections@[k]).source@
                == other.connections@[k].source@ && self.connections@[k].target@
                == other.connections@[k].target@
    }

    /// The position of the endpoint named `id`, if declared.
    pub fn endpoint_position(&self, id: &Ident) -> (r: Option<usize>)
        ensures
            match r {
                Some(i) => i < self.endpoints@.len() && self.endpoints@[i as int].spec_id() == id@,
                None => !declares(self.endpoints@, id@),
            },
    {
        let mut i: usize = 0;
        while i < self.endpoints.len()
            invariant
                0 <= i <= self.endpoints@.len(),
                forall|j: int| 0 <= j < i ==> #[trigger] self.endpoints@[j].spec_id() != id@,
            decreases self.endpoints@.len() - i,
        {
            if self.endpoints[i].id().same(id) {
                return Some(i);
            }
            i = i + 1;
        }
        None
    }

    /// The endpoint named `id`, if declared.
    pub fn endpoint(&self, id: &Ident) -> (r: Option<&TopologyEndpoint>)
        ensures
            match r {
                Some(e) => exists|i: int|
                    0 <= i < self.endpoints@.len() && self.endpoints@[i] == *e && #[trigger] self.endpoints@[i].spec_id()
                        == id@,
                None => !declares(self.endpoints@, id@),
            },
    {
        match self.endpoint_position(id) {
            Some(i) => Some(&self.endpoints[i]),
            None => None,
        }
    }

    /// Validates endpoints and connections.
    pub fn new(endpoints: Vec<TopologyEndpoint>, connections: Vec<Connection>) -> (r: Result<
        Topology,
        TopologyError,
    >)
        ensures
            match r {
                Ok(t) => t.wf() && t.endpoints@ == endpoints@ && t.connections@ == connections@,
                Err(_) => !topology_wf(endpoints@, connections@),
            },
    {
        let ghost e0 = endpoints@;
        let ghost c0 = connections@;
        let t = Topology { endpoints, connections };
        let mut i: usize = 0;
        while i < t.endpoints.len()
            invariant
                0 <= i <= t.endpoints@.len(),
                t.endpoints@ == e0,
                e0 == endpoints@,
                c0 == connections@,
                t.connections@ == c0,
                forall|a: int, b: int|
                    0 <= a < i && 0 <= b < t.endpoints@.len() && a != b ==> #[trigger] t.endpoints@[a].spec_id()
                        != #[trigger] t.endpoints@[b].spec_id(),
            decreases t.endpoints@.len() - i,
        {
            let mut j: usize = 0;
            while j < t.endpoints.len()
                invariant
                    0 <= i < t.endpoints@.len(),
                    t.endpoints@ == e0,
                    e0 == endpoints@,
                    c0 == connections@,
                e0 == endpoints@,
                c0 == connections@,
                    t.connections@ == c0,
                    0 <= j <= t.endpoints@.len(),
                    forall|a: int, b: int|
                        0 <= a < i && 0 <= b < t.endpoints@.len() && a != b ==> #[trigger] t.endpoints@[a].spec_id()
                            != #[trigger] t.endpoints@[b].spec_id(),
                    forall|b: int|
                        0 <= b < j && b != i ==> t.endpoints@[i as int].spec_id()
                            != #[trigger] t.endpoints@[b].spec_id(),
                decreases t.endpoints@.len() - j,
            {
                if j != i && t.endpoints[i].id().same(t.endpoints[j].id()) {
                    proof {
                        assert(t.endpoints@[i as int].spec_id() == t.endpoints@[j as int].spec_id());
                        assert(!distinct_endpoints(t.endpoints@));
                    }
                    return Err(
                        TopologyError::DuplicateEndpoint { endpoint: t.endpoints[i].id().clone() },
                    );
                }
                j = j + 1;
            }
            i = i + 1;
        }
        let mut k: usize = 0;
        while k < t.connections.len()
            invariant
                0 <= k <= t.connections@.len(),
                t.endpoints@ == e0,
                e0 == endpoints@,
                c0 == connections@,
                t.connections@ == c0,
                distinct_endpoints(t.endpoints@),
                forall|c: int|
                    0 <= c < k ==> declares(t.endpoints@, (#[trigger] t.connections@[c]).source@)
                        && declares(t.endpoints@, t.connections@[c].target@),
            decreases t.connections@.len() - k,
        {
            if t.endpoint_position(&t.connections[k].source).is_none() {
                proof {
                    let c = t.connections@[k as int];
                    assert(!topology_wf(t.endpoints@, t.connections@));
                }
                return Err(
                    TopologyError::UnknownConnectionEndpoint {
                        endpoint: t.connections[k].source.clone(),
                    },
                );
            }
            if t.endpoint_position(&t.connections[k].target).is_none() {
                proof {
                    let c = t.connections@[k as int];
                    assert(!topology_wf(t.endpoints@, t.connections@));
                }
                return Err(
                    TopologyError::UnknownConnectionEndpoint {
                        endpoint: t.connections[k].target.clone(),
                    },
                );
            }
            k = k + 1;
        }
        Ok(t)
    }

    /// Whether two topologies are the same.
    pub fn same_as(&self, other: &Topology) -> (r: bool)
        ensures
            r == self.same(other),
    {
        if self.endpoints.len() != other.endpoints.len() || self.connections.len()
            != other.connections.len() {
            return false;
        }
        let mut i: usize = 0;
        while i < self.endpoints.len()
            invariant
                0 <= i <= self.endpoints@.len(),
                self.endpoints@.len() == other.endpoints@.len(),
                forall|j: int|
                    0 <= j < i ==> same_endpoint_spec(#[trigger] self.endpoints@[j], other.endpoints@[j]),
            decreases self.endpoints@.len() - i,
        {
            if !same_endpoint(&self.endpoints[i], &other.endpoints[i]) {
                return false;
            }
            i = i + 1;
        }
        let mut k: usize = 0;
        while k < self.connections.len()
            invariant
                0 <= k <= self.connections@.len(),
                self.connections@.len() == other.connections@.len(),
                forall|j: int|
                    0 <= j < k ==> (#[trigger] self.connections@[j]).source@
                        == other.connections@[j].source@ && self.connections@[j].target@
                        == other.connections@[j].target@,
            decreases self.connections@.len() - k,
        {
            if !self.connections[k].source.same(&other.connections[k].source)
                || !self.connections[k].target.same(&other.connections[k].target) {
                return false;
            }
            k = k + 1;
        }
        true
    }
}

/// Two endpoints of the same kind and identity.
pub open spec fn same_endpoint_spec(a: TopologyEndpoint, b: TopologyEndpoint) -> bool {
    (a is Finite) == (b is Finite) && a.spec_id() == b.spec_id()
}

fn same_endpoint(a: &TopologyEndpoint, b: &TopologyEndpoint) -> (r: bool)
    ensures
        r == same_endpoint_spec(*a, *b),
{
    a.is_finite() == b.is_finite() && a.id().same(b.id())
}

} // verus!
