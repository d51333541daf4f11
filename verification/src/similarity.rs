//! The integer side of clustering fingerprints: which requests are
//! refused, and how cluster assignments become the member lists of `k`
//! clusters.

use vstd::prelude::*;
use vstd::string::StringExecFns;
use crate::text::{decimal, decimal_string};

verus! {

/// Errors for similarity operations.
#[derive(Debug, Clone)]
pub enum SimilarityError {
    /// No fingerprint to work on.
    Empty,
    /// More results asked for than there are fingerprints.
    KTooLarge { requested: usize, available: usize },
    /// A number of clusters that cannot be formed.
    InvalidClusters { message: String },
}

impl SimilarityError {
    /// The text that describes the error.
    pub open spec fn text(self) -> Seq<char> {
        match self {
            SimilarityError::Empty => "index is empty"@,
            SimilarityError::KTooLarge { requested, available } => "k ("@ + decimal(
                requested as nat,
            ) + ") exceeds available fingerprints ("@ + decimal(available as nat) + ")"@,
            SimilarityError::InvalidClusters { message } => "invalid number of clusters: "@
                + message@,
        }
    }

    /// Renders the error as text.
    pub fn to_string(&self) -> (r: String)
        ensures
            r@ == self.text(),
    {
        match self {
            SimilarityError::Empty => String::from_str("index is empty"),
            SimilarityError::KTooLarge { requested, available } => {
                let mut s = String::from_str("k (");
                s.append(decimal_string(*requested).as_str());
                s.append(") exceeds available fingerprints (");
                s.append(decimal_string(*available).as_str());
                s.append(")");
                s
            },
            SimilarityError::InvalidClusters { message } => {
                let mut s = String::from_str("invalid number of clusters: ");
                s.append(message.as_str());
                s
            },
        }
    }
}

/// The message for more clusters than fingerprints.
pub open spec fn too_many_clusters_text(k: nat, count: nat) -> Seq<char> {
    "k ("@ + decimal(k) + ") > number of fingerprints ("@ + decimal(count) + ")"@
}

/// Whether `k` clusters can be formed from `count` fingerprints: refused
/// when there is no fingerprint, when `k` is zero, and when `k` is larger
/// than `count`, in that order.
pub fn check_cluster_request(count: usize, k: usize) -> (r: Result<(), SimilarityError>)
    ensures
        count == 0 ==> r == Err::<(), SimilarityError>(SimilarityError::Empty),
        count > 0 && k == 0 ==> (r matches Err(SimilarityError::InvalidClusters { message })
            && message@ == "k must be > 0"@),
        count > 0 && k > count ==> (r matches Err(SimilarityError::InvalidClusters { message })
            && message@ == too_many_clusters_text(k as nat, count as nat)),
        count > 0 && 0 < k <= count ==> r is Ok,
{
    if count == 0 {
        return Err(SimilarityError::Empty);
    }
    if k == 0 {
        return Err(SimilarityError::InvalidClusters { message: String::from_str("k must be > 0") });
    }
    if k > count {
        let mut message = String::from_str("k (");
        message.append(decimal_string(k).as_str());
        message.append(") > number of fingerprints (");
        message.append(decimal_string(count).as_str());
        message.append(")");
        return Err(SimilarityError::InvalidClusters { message });
    }
    Ok(())
}

/// The positions `i < n` with `assignments[i] == c`, in increasing order.
pub open spec fn members_of(assignments: Seq<usize>, c: usize, n: int) -> Seq<usize>
    decreases n,
{
    if n <= 0 {
        Seq::empty()
    } else {
        let prev = members_of(assignments, c, n - 1);
        if assignments[n - 1] == c {
            prev.push((n - 1) as usize)
        } else {
            prev
        }
    }
}

/// The member lists of clusters `0..k` under `assignments` (element `i`
/// belongs to cluster `assignments[i]`): list `c` holds, in increasing
/// order, the positions assigned `c`. There are always `k` lists; a
/// cluster that no element is assigned to has an empty one.
pub fn group_members(assignments: &[usize], k: usize) -> (r: Vec<Vec<usize>>)
    ensures
        r@.len() == k,
        forall|c: int|
            0 <= c < k ==> (#[trigger] r@[c])@ == members_of(
                assignments@,
                c as usize,
                assignments@.len() as int,
            ),
{
    let mut r: Vec<Vec<usize>> = Vec::new();
    let mut c: usize = 0;
    while c < k
        invariant
            c <= k,
            r@.len() == c,
            forall|d: int|
                0 <= d < c ==> (#[trigger] r@[d])@ == members_of(
                    assignments@,
                    d as usize,
                    assignments@.len() as int,
                ),
        decreases k - c,
    {
        let mut members: Vec<usize> = Vec::new();
        let mut i: usize = 0;
        while i < assignments.len()
            invariant
                i <= assignments@.len(),
                members@ == members_of(assignments@, c, i as int),
            decreases assignments@.len() - i,
        {
            if assignments[i] == c {
                members.push(i);
            }
            i = i + 1;
        }
        r.push(members);
        c = c + 1;
    }
    r
}

/// Every element falls in exactly the cluster it is assigned to: a
/// position is a member of cluster `c` if and only if it is assigned `c`.
pub proof fn lemma_members_exact(assignments: Seq<usize>, c: usize, n: int, i: usize)
    requires
        0 <= n <= assignments.len(),
        assignments.len() <= usize::MAX,
    ensures
        members_of(assignments, c, n).contains(i) <==> (i < n && assignments[i as int] == c),
    decreases n,
{
    if n > 0 {
        lemma_members_exact(assignments, c, n - 1, i);
        let prev = members_of(assignments, c, n - 1);
        if assignments[n - 1] == c {
            let cur = prev.push((n - 1) as usize);
            if i < n && assignments[i as int] == c {
                if i == n - 1 {
                    assert(cur[prev.len() as int] == i);
                } else {
                    let p = choose|p: int| 0 <= p < prev.len() && prev[p] == i;
                    assert(cur[p] == i);
                }
            }
            if cur.contains(i) {
                let p = choose|p: int| 0 <= p < cur.len() && cur[p] == i;
                if p < prev.len() {
                    assert(prev.contains(i));
                }
            }
        }
    }
}

} // verus!
