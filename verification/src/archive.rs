//! An append-only in-memory repository of artifacts addressed by their digests.

use vstd::prelude::*;
use std::sync::Arc;
use crate::artifact::ModelArtifact;
use crate::model_artifact::{share, ModelDigest};

verus! {

/// Reports a content-address collision in an artifact archive.
#[derive(Clone, Copy, Debug, PartialEq, Eq)]
pub enum ModelArtifactArchiveError {
    /// Fires if unequal canonical artifacts produce the same digest.
    DigestCollision { digest: ModelDigest },
}

/// Whether two digests are the same bytes.
pub fn same_digest(a: &ModelDigest, b: &ModelDigest) -> (r: bool)
    ensures
        r == (a.spec_bytes() == b.spec_bytes()),
{
    let x = a.as_bytes();
    let y = b.as_bytes();
    let mut i: usize = 0;
    while i < 32
        invariant
            0 <= i <= 32,
            x@ == a.spec_bytes(),
            y@ == b.spec_bytes(),
            x@.len() == 32,
            y@.len() == 32,
            forall|j: int| 0 <= j < i ==> x@[j] == y@[j],
        decreases 32 - i,
    {
        if x[i] != y[i] {
            return false;
        }
        i = i + 1;
    }
    proof {
        assert(x@ =~= y@);
    }
    true
}

/// Whether two byte strings are equal.
fn same_bytes(a: &[u8], b: &[u8]) -> (r: bool)
    ensures
        r == (a@ == b@),
{
    if a.len() != b.len() {
        return false;
    }
    let mut i: usize = 0;
    while i < a.len()
        invariant
            0 <= i <= a@.len(),
            a@.len() == b@.len(),
            forall|j: int| 0 <= j < i ==> a@[j] == b@[j],
        decreases a@.len() - i,
    {
        if a[i] != b[i] {
            return false;
        }
        i = i + 1;
    }
    proof {
        assert(a@ =~= b@);
    }
    true
}

/// An append-only in-memory content-addressed repository.
pub struct ModelArtifactArchive {
    artifacts: Vec<(ModelDigest, Arc<ModelArtifact>)>,
}

/// Backwards-compatible concise name for the in-memory archive.
pub type ModelArtifactStore = ModelArtifactArchive;

/// Whether `entries` holds an artifact under digest bytes `d`.
pub open spec fn holds_digest(entries: Seq<(ModelDigest, Arc<ModelArtifact>)>, d: Seq<u8>) -> bool {
    exists|i: int| 0 <= i < entries.len() && (#[trigger] entries[i]).0.spec_bytes() == d
}

/// What inserting `artifact` into an archive holding `before` gives: the entries `after` and
/// the result `r`. An artifact whose digest is already held is not stored again: the insert
/// succeeds when the held artifact has the same canonical bytes, and reports a collision
/// otherwise; a new digest is appended with its artifact.
pub open spec fn insert_outcome(
    before: Seq<(ModelDigest, Arc<ModelArtifact>)>,
    after: Seq<(ModelDigest, Arc<ModelArtifact>)>,
    artifact: ModelArtifact,
    r: Result<ModelDigest, ModelArtifactArchiveError>,
) -> bool {
    match r {
        Ok(d) => {
            &&& d == artifact.spec_digest()
            &&& if holds_digest(before, d.spec_bytes()) {
                &&& after == before
                &&& exists|i: int|
                    0 <= i < before.len() && (#[trigger] before[i]).0.spec_bytes() == d.spec_bytes()
                        && before[i].1.spec_canonical_bytes() == artifact.spec_canonical_bytes()
            } else {
                after == before.push((d, Arc::new(artifact)))
            }
        },
        Err(ModelArtifactArchiveError::DigestCollision { digest }) => {
            &&& digest == artifact.spec_digest()
            &&& after == before
            &&& exists|i: int|
                0 <= i < before.len() && (#[trigger] before[i]).0.spec_bytes() == digest.spec_bytes()
                    && before[i].1.spec_canonical_bytes() != artifact.spec_canonical_bytes()
        },
    }
}

/// The archive is append-only and content addressed: after a successful insert every artifact
/// held before is still held at its place, the returned digest is held, and the artifact held
/// under it has the inserted artifact's canonical bytes.
pub proof fn lemma_insert_then_lookup(
    before: ModelArtifactArchive,
    after: ModelArtifactArchive,
    artifact: ModelArtifact,
    d: ModelDigest,
)
    requires
        before.wf(),
        after.wf(),
        insert_outcome(before.spec_entries(), after.spec_entries(), artifact, Ok(d)),
    ensures
        before.spec_entries().len() <= after.spec_entries().len(),
        forall|i: int| 0 <= i < before.spec_entries().len() ==> #[trigger] after.spec_entries()[i] == before.spec_entries()[i],
        holds_digest(after.spec_entries(), d.spec_bytes()),
        forall|i: int|
            0 <= i < after.spec_entries().len() && (#[trigger] after.spec_entries()[i]).0.spec_bytes() == d.spec_bytes()
                ==> after.spec_entries()[i].1.spec_canonical_bytes() == artifact.spec_canonical_bytes(),
{
    let b = before.spec_entries();
    let a = after.spec_entries();
    if holds_digest(b, d.spec_bytes()) {
        let k = choose|k: int|
            0 <= k < b.len() && (#[trigger] b[k]).0.spec_bytes() == d.spec_bytes()
                && b[k].1.spec_canonical_bytes() == artifact.spec_canonical_bytes();
        assert forall|i: int|
            0 <= i < a.len() && (#[trigger] a[i]).0.spec_bytes() == d.spec_bytes()
                implies a[i].1.spec_canonical_bytes() == artifact.spec_canonical_bytes() by {
            if i < k {
                assert(a[i].0.spec_bytes() != a[k].0.spec_bytes());
            } else if i > k {
                assert(a[k].0.spec_bytes() != a[i].0.spec_bytes());
            }
        }
    } else {
        let n = b.len() as int;
        assert(a[n] == (d, Arc::new(artifact)));
        assert forall|i: int|
            0 <= i < a.len() && (#[trigger] a[i]).0.spec_bytes() == d.spec_bytes()
                implies a[i].1.spec_canonical_bytes() == artifact.spec_canonical_bytes() by {
            if i < n {
                assert(a[i] == b[i]);
            }
        }
    }
}

impl ModelArtifactArchive {
    /// The retained artifacts with their digests, in insertion order.
    pub closed spec fn spec_entries(&self) -> Seq<(ModelDigest, Arc<ModelArtifact>)> {
        self.artifacts@
    }

    /// Each artifact is held under its own digest, and no digest twice.
    pub open spec fn wf(&self) -> bool {
        &&& forall|i: int|
            0 <= i < self.spec_entries().len() ==> (#[trigger] self.spec_entries()[i]).0.spec_bytes()
                == self.spec_entries()[i].1.spec_digest().spec_bytes()
        &&& forall|i: int, j: int|
            0 <= i < j < self.spec_entries().len() ==> (#[trigger] self.spec_entries()[i]).0.spec_bytes()
                != (#[trigger] self.spec_entries()[j]).0.spec_bytes()
    }

    pub fn new() -> (r: Self)
        ensures
            r.wf(),
            r.spec_entries().len() == 0,
    {
        ModelArtifactArchive { artifacts: Vec::new() }
    }

    fn position(&self, digest: &ModelDigest) -> (r: Option<usize>)
        ensures
            match r {
                Some(i) => i < self.spec_entries().len() && self.spec_entries()[i as int].0.spec_bytes() == digest.spec_bytes(),
                None => !holds_digest(self.spec_entries(), digest.spec_bytes()),
            },
    {
        let mut i: usize = 0;
        while i < self.artifacts.len()
            invariant
                0 <= i <= self.artifacts@.len(),
                forall|j: int| 0 <= j < i ==> (#[trigger] self.artifacts@[j]).0.spec_bytes() != digest.spec_bytes(),
            decreases self.artifacts@.len() - i,
        {
            if same_digest(&self.artifacts[i].0, digest) {
                return Some(i);
            }
            i = i + 1;
        }
        None
    }

    /// Retains an artifact under its digest and returns that content address.
    ///
    /// An artifact whose digest is already held is not stored again: the call succeeds when the
    /// held artifact has the same canonical bytes, and reports a collision otherwise.
    pub fn insert(&mut self, artifact: ModelArtifact) -> (r: Result<ModelDigest, ModelArtifactArchiveError>)
        requires
            old(self).wf(),
        ensures
            final(self).wf(),
            insert_outcome(old(self).spec_entries(), final(self).spec_entries(), artifact, r),
    {
        let digest = artifact.digest();
        match self.position(&digest) {
            Some(i) => {
                if !same_bytes(self.artifacts[i].1.canonical_bytes(), artifact.canonical_bytes()) {
                    return Err(ModelArtifactArchiveError::DigestCollision { digest });
                }
                Ok(digest)
            },
            None => {
                let ghost before = self.artifacts@;
                self.artifacts.push((digest, Arc::new(artifact)));
                proof {
                    assert forall|i: int, j: int| 0 <= i < j < self.artifacts@.len() implies (#[trigger] self.artifacts@[i]).0.spec_bytes()
                        != (#[trigger] self.artifacts@[j]).0.spec_bytes() by {
                        if j == before.len() {
                            assert(self.artifacts@[i] == before[i]);
                        } else {
                            assert(self.artifacts@[i] == before[i]);
                            assert(self.artifacts@[j] == before[j]);
                        }
                    }
                }
                Ok(digest)
            },
        }
    }

    /// Retrieves a retained artifact without granting mutation authority.
    pub fn get(&self, digest: &ModelDigest) -> (r: Option<Arc<ModelArtifact>>)
        ensures
            match r {
                Some(a) => exists|i: int|
                    0 <= i < self.spec_entries().len() && (#[trigger] self.spec_entries()[i]).0.spec_bytes()
                        == digest.spec_bytes() && a == self.spec_entries()[i].1,
                None => !holds_digest(self.spec_entries(), digest.spec_bytes()),
            },
    {
        match self.position(digest) {
            Some(i) => Some(share(&self.artifacts[i].1)),
            None => None,
        }
    }

    /// The number of retained artifacts.
    pub fn len(&self) -> (r: usize)
        ensures
            r == self.spec_entries().len(),
    {
        self.artifacts.len()
    }

    /// Whether no artifact is retained.
    pub fn is_empty(&self) -> (r: bool)
        ensures
            r == (self.spec_entries().len() == 0),
    {
        self.artifacts.len() == 0
    }
}

impl Default for ModelArtifactArchive {
    fn default() -> (r: Self)
        ensures
            r.wf(),
            r.spec_entries().len() == 0,
    {
        ModelArtifactArchive::new()
    }
}

} // verus!
