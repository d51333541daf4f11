//! Batch processing support: reading many functions, and grouping
//! duplicate pairs into clusters.

use vstd::prelude::*;
use vstd::string::StringExecFns;
use crate::ast_matrix::{CodeGraph, GraphError, is_sexp_graph};
use crate::sexp::parse_sexp;

verus! {

/// A function extracted from a source file.
#[derive(Debug, Clone)]
pub struct FunctionEntry {
    /// Function name or identifier.
    pub name: String,
    /// Source file path (logical).
    pub file: String,
    /// The syntax tree as an S-expression.
    pub sexp: String,
}

/// Errors of batch processing.
#[derive(Debug, Clone)]
pub enum BatchError {
    /// The text of a function could not be read into a graph.
    ParseFailed { name: String, error: String },
    /// Nothing to process.
    NoFunctions,
}

impl BatchError {
    /// The text that describes the error.
    pub open spec fn text(self) -> Seq<char> {
        match self {
            BatchError::ParseFailed { name, error } => "failed to parse sexp for function '"@
                + name@ + "': "@ + error@,
            BatchError::NoFunctions => "no functions registered"@,
        }
    }

    /// Renders the error as text.
    pub fn to_string(&self) -> (r: String)
        ensures
            r@ == self.text(),
    {
        match self {
            BatchError::ParseFailed { name, error } => {
                let mut s = String::from_str("failed to parse sexp for function '");
                s.append(name.as_str());
                s.append("': ");
                s.append(error.as_str());
                s
            },
            BatchError::NoFunctions => String::from_str("no functions registered"),
        }
    }
}

/// The text of `functions[i]` reads as at least one node.
pub open spec fn readable(functions: Seq<FunctionEntry>, i: int) -> bool {
    parse_sexp(functions[i].sexp@).nodes.len() > 0
}

/// Reads the text of every function into its graph, in order. The first
/// function whose text holds no node is refused, with its name and the
/// text of the graph error.
pub fn parse_functions(functions: &[FunctionEntry]) -> (r: Result<Vec<CodeGraph>, BatchError>)
    requires
        forall|i: int|
            0 <= i < functions@.len() ==> parse_sexp(#[trigger] functions@[i].sexp@).nodes.len()
                * parse_sexp(functions@[i].sexp@).nodes.len() <= usize::MAX,
    ensures
        (forall|i: int| 0 <= i < functions@.len() ==> #[trigger] readable(functions@, i)) ==> (
        r matches Ok(gs) && gs@.len() == functions@.len() && forall|i: int|
            0 <= i < gs@.len() ==> is_sexp_graph(#[trigger] gs@[i], functions@[i].sexp@)),
        forall|i: int|
            0 <= i < functions@.len() && !#[trigger] readable(functions@, i) && (forall|j: int|
                0 <= j < i ==> readable(functions@, j)) ==> (r matches Err(
                BatchError::ParseFailed { name, error },
            ) && name@ == functions@[i].name@ && error@ == GraphError::EmptyGraph.text()),
{
    let mut graphs: Vec<CodeGraph> = Vec::new();
    let mut i: usize = 0;
    while i < functions.len()
        invariant
            i <= functions@.len(),
            forall|k: int|
                0 <= k < functions@.len() ==> parse_sexp(#[trigger] functions@[k].sexp@).nodes.len()
                    * parse_sexp(functions@[k].sexp@).nodes.len() <= usize::MAX,
            forall|j: int| 0 <= j < i ==> #[trigger] readable(functions@, j),
            graphs@.len() == i,
            forall|j: int| 0 <= j < i ==> is_sexp_graph(#[trigger] graphs@[j], functions@[j].sexp@),
        decreases functions@.len() - i,
    {
        let func = &functions[i];
        match CodeGraph::from_sexp(func.sexp.as_str()) {
            Ok(g) => {
                graphs.push(g);
            },
            Err(e) => {
                assert(!readable(functions@, i as int));
                let error = e.to_string();
                return Err(BatchError::ParseFailed { name: func.name.clone(), error });
            },
        }
        i = i + 1;
    }
    Ok(graphs)
}

/// The number of unique fingerprints among `total` when `exact_pairs`
/// pairs are exact duplicates: each such pair removes one, but no more
/// than half of them are removed (`total - min(exact_pairs, total / 2)`).
pub fn unique_count(total: usize, exact_pairs: usize) -> (r: usize)
    ensures
        r == total - if exact_pairs <= total / 2 {
            exact_pairs as int
        } else {
            (total / 2) as int
        },
{
    let half = total / 2;
    let removed = if exact_pairs <= half {
        exact_pairs
    } else {
        half
    };
    total - removed
}

/// The names of a list of pairs.
pub open spec fn pair_names(pairs: Seq<(String, String)>) -> Seq<(Seq<char>, Seq<char>)> {
    pairs.map_values(|p: (String, String)| (p.0@, p.1@))
}

/// The distinct names of `pairs`, in order of first appearance (within a
/// pair, the first name before the second).
pub open spec fn names_of(pairs: Seq<(Seq<char>, Seq<char>)>) -> Seq<Seq<char>>
    decreases pairs.len(),
{
    if pairs.len() == 0 {
        Seq::empty()
    } else {
        let prev = names_of(pairs.drop_last());
        let a = pairs.last().0;
        let b = pairs.last().1;
        let with_a = if prev.contains(a) {
            prev
        } else {
            prev.push(a)
        };
        if with_a.contains(b) {
            with_a
        } else {
            with_a.push(b)
        }
    }
}

/// `x` and `y` are joined by a chain of pairs (each pair joins its two
/// names, both ways); every name is joined to itself. Defined by adding
/// the pairs one at a time: with the last pair `(a, b)`, `x` reaches `y`
/// directly, or through `a` to `b`, or through `b` to `a`.
pub open spec fn linked(pairs: Seq<(Seq<char>, Seq<char>)>, x: Seq<char>, y: Seq<char>) -> bool
    decreases pairs.len(),
{
    if pairs.len() == 0 {
        x == y
    } else {
        let rest = pairs.drop_last();
        let a = pairs.last().0;
        let b = pairs.last().1;
        ||| linked(rest, x, y)
        ||| (linked(rest, x, a) && linked(rest, b, y))
        ||| (linked(rest, x, b) && linked(rest, a, y))
    }
}

/// Name `names[i]` is joined to no earlier name: it is the first name of
/// its cluster.
pub open spec fn first_of_cluster(
    pairs: Seq<(Seq<char>, Seq<char>)>,
    names: Seq<Seq<char>>,
    i: int,
) -> bool {
    forall|j: int| 0 <= j < i ==> !#[trigger] linked(pairs, names[j], names[i])
}

/// The number of clusters among the first `k` names.
pub open spec fn clusters_upto(
    pairs: Seq<(Seq<char>, Seq<char>)>,
    names: Seq<Seq<char>>,
    k: int,
) -> nat
    decreases k,
{
    if k <= 0 {
        0
    } else {
        clusters_upto(pairs, names, k - 1) + if first_of_cluster(pairs, names, k - 1) {
            1nat
        } else {
            0nat
        }
    }
}

/// The number of clusters (connected components) that the pairs form
/// over their names.
pub open spec fn cluster_count(pairs: Seq<(Seq<char>, Seq<char>)>) -> nat {
    clusters_upto(pairs, names_of(pairs), names_of(pairs).len() as int)
}

/// The names of `pairs` occur once each in `names_of(pairs)`, and every
/// name of a pair occurs there.
pub proof fn lemma_names_of(pairs: Seq<(Seq<char>, Seq<char>)>)
    ensures
        forall|i: int, j: int|
            0 <= i < names_of(pairs).len() && 0 <= j < names_of(pairs).len() && i != j
                ==> #[trigger] names_of(pairs)[i] != #[trigger] names_of(pairs)[j],
        forall|k: int|
            0 <= k < pairs.len() ==> names_of(pairs).contains(#[trigger] pairs[k].0)
                && names_of(pairs).contains(pairs[k].1),
    decreases pairs.len(),
{
    if pairs.len() > 0 {
        let rest = pairs.drop_last();
        lemma_names_of(rest);
        let prev = names_of(rest);
        let a = pairs.last().0;
        let b = pairs.last().1;
        let with_a = if prev.contains(a) {
            prev
        } else {
            prev.push(a)
        };
        assert forall|k: int| 0 <= k < pairs.len() implies names_of(pairs).contains(
            #[trigger] pairs[k].0,
        ) && names_of(pairs).contains(pairs[k].1) by {
            if k < pairs.len() - 1 {
                assert(pairs[k] == rest[k]);
                let p = choose|p: int| 0 <= p < prev.len() && prev[p] == rest[k].0;
                let q = choose|q: int| 0 <= q < prev.len() && prev[q] == rest[k].1;
                assert(names_of(pairs)[p] == prev[p]);
                assert(names_of(pairs)[q] == prev[q]);
            } else {
                if prev.contains(a) {
                    let p = choose|p: int| 0 <= p < prev.len() && prev[p] == a;
                    assert(names_of(pairs)[p] == a);
                } else {
                    assert(names_of(pairs)[prev.len() as int] == a);
                }
                if with_a.contains(b) {
                    let p = choose|p: int| 0 <= p < with_a.len() && with_a[p] == b;
                    assert(names_of(pairs)[p] == b);
                } else {
                    assert(names_of(pairs)[with_a.len() as int] == b);
                }
            }
        }
    }
}

/// The names of `v`.
pub open spec fn names_view(v: Seq<String>) -> Seq<Seq<char>> {
    v.map_values(|s: String| s@)
}

/// Whether some name of `names` equals `s`.
fn contains_name(names: &Vec<String>, s: &String) -> (b: bool)
    ensures
        b == names_view(names@).contains(s@),
{
    let mut i: usize = 0;
    while i < names.len()
        invariant
            i <= names.len(),
            forall|j: int| 0 <= j < i ==> (#[trigger] names@[j])@ != s@,
        decreases names.len() - i,
    {
        if names[i] == *s {
            assert(names_view(names@)[i as int] == s@);
            return true;
        }
        i = i + 1;
    }
    proof {
        if names_view(names@).contains(s@) {
            let j = choose|j: int| 0 <= j < names@.len() && names_view(names@)[j] == s@;
            assert(names@[j]@ == s@);
        }
    }
    false
}

/// The position of `s` in `names`, which holds it.
fn position_of(names: &Vec<String>, s: &String) -> (p: usize)
    requires
        names_view(names@).contains(s@),
    ensures
        p < names@.len(),
        names@[p as int]@ == s@,
{
    let mut i: usize = 0;
    while i < names.len()
        invariant
            i <= names.len(),
            names_view(names@).contains(s@),
            forall|j: int| 0 <= j < i ==> (#[trigger] names@[j])@ != s@,
        decreases names.len() - i,
    {
        if names[i] == *s {
            return i;
        }
        i = i + 1;
    }
    proof {
        let j = choose|j: int| 0 <= j < names@.len() && names_view(names@)[j] == s@;
        assert(names@[j]@ == s@);
    }
    0
}

/// The distinct names of `pairs`, in order of first appearance.
fn distinct_names(pairs: &[(String, String)]) -> (names: Vec<String>)
    ensures
        names_view(names@) == names_of(pair_names(pairs@)),
{
    let mut names: Vec<String> = Vec::new();
    let mut k: usize = 0;
    proof {
        assert(pair_names(pairs@).take(0) =~= Seq::<(Seq<char>, Seq<char>)>::empty());
        assert(names_view(names@) =~= Seq::<Seq<char>>::empty());
    }
    while k < pairs.len()
        invariant
            k <= pairs@.len(),
            names_view(names@) == names_of(pair_names(pairs@).take(k as int)),
        decreases pairs@.len() - k,
    {
        proof {
            assert(pair_names(pairs@).take(k + 1).drop_last() =~= pair_names(pairs@).take(k as int));
        }
        let (a, b) = &pairs[k];
        if !contains_name(&names, a) {
            let ghost before = names@;
            names.push(a.clone());
            assert(names_view(names@) =~= names_view(before).push(a@));
        }
        if !contains_name(&names, b) {
            let ghost before = names@;
            names.push(b.clone());
            assert(names_view(names@) =~= names_view(before).push(b@));
        }
        k = k + 1;
    }
    proof {
        assert(pair_names(pairs@).take(pairs@.len() as int) =~= pair_names(pairs@));
    }
    names
}

/// A forest over `0..n` kept by parent links: `rt[i]` is the root of `i`.
/// Ranks grow strictly from a node to its parent and to its root, and
/// never pass `bound`.
pub open spec fn forest(parent: Seq<usize>, rt: Seq<usize>, rank: Seq<nat>, bound: nat) -> bool {
    &&& rt.len() == parent.len()
    &&& rank.len() == parent.len()
    &&& forall|i: int| 0 <= i < parent.len() ==> #[trigger] parent[i] < parent.len()
    &&& forall|i: int| 0 <= i < parent.len() ==> #[trigger] rt[i] < parent.len()
    &&& forall|i: int| 0 <= i < parent.len() ==> parent[#[trigger] rt[i] as int] == rt[i]
    &&& forall|i: int| 0 <= i < parent.len() && #[trigger] parent[i] == i ==> rt[i] == i
    &&& forall|i: int| 0 <= i < parent.len() ==> rt[#[trigger] parent[i] as int] == rt[i]
    &&& forall|i: int|
        0 <= i < parent.len() && #[trigger] parent[i] != i ==> rank[parent[i] as int] > rank[i]
    &&& forall|i: int| 0 <= i < parent.len() && #[trigger] rt[i] != i ==> rank[rt[i] as int] > rank[i]
    &&& forall|i: int| 0 <= i < parent.len() ==> #[trigger] rank[i] <= bound
}

/// The root of `x`; every node passed on the way is linked to the root
/// directly.
fn find_root(
    parent: &mut Vec<usize>,
    x: usize,
    Ghost(rt): Ghost<Seq<usize>>,
    Ghost(rank): Ghost<Seq<nat>>,
    Ghost(bound): Ghost<nat>,
) -> (root: usize)
    requires
        forest(old(parent)@, rt, rank, bound),
        x < old(parent)@.len(),
    ensures
        root == rt[x as int],
        final(parent)@.len() == old(parent)@.len(),
        forest(final(parent)@, rt, rank, bound),
{
    let mut root = x;
    while parent[root] != root
        invariant
            forest(parent@, rt, rank, bound),
            root < parent@.len(),
            rt[root as int] == rt[x as int],
        decreases bound - rank[root as int],
    {
        root = parent[root];
    }
    let ghost n = parent@.len();
    let mut cur = x;
    while parent[cur] != root
        invariant
            forest(parent@, rt, rank, bound),
            parent@.len() == n,
            cur < n,
            root < n,
            rt[cur as int] == root,
            rt[x as int] == root,
            parent[root as int] == root,
        decreases bound - rank[cur as int],
    {
        let next = parent[cur];
        let ghost before = parent@;
        parent.set(cur, root);
        proof {
            assert forall|i: int| 0 <= i < n implies rt[#[trigger] parent@[i] as int] == rt[i] by {
                if i != cur {
                    assert(parent@[i] == before[i]);
                }
            }
            assert forall|i: int| 0 <= i < n && #[trigger] parent@[i] != i implies rank[parent@[i] as int] > rank[i] by {
                if i != cur {
                    assert(parent@[i] == before[i]);
                }
            }
            assert forall|i: int| 0 <= i < n implies parent@[#[trigger] rt[i] as int] == rt[i] by {
                if rt[i] != cur {
                    assert(parent@[rt[i] as int] == before[rt[i] as int]);
                }
            }
            assert forall|i: int| 0 <= i < n && #[trigger] parent@[i] == i implies rt[i] == i by {
                if i != cur {
                    assert(parent@[i] == before[i]);
                }
            }
            assert forall|i: int| 0 <= i < n implies #[trigger] parent@[i] < n by {
                if i != cur {
                    assert(parent@[i] == before[i]);
                }
            }
        }
        cur = next;
    }
    root
}

/// The number of clusters that the pairs form: names joined by a pair,
/// directly or through other names, fall in one cluster. No pair, no
/// cluster.
pub fn count_clusters(pairs: &[(String, String)]) -> (count: usize)
    ensures
        count == cluster_count(pair_names(pairs@)),
{
    if pairs.len() == 0 {
        return 0;
    }
    let ghost ps = pair_names(pairs@);
    let names = distinct_names(pairs);
    proof {
        lemma_names_of(ps);
    }
    let n = names.len();
    let mut parent: Vec<usize> = Vec::new();
    while parent.len() < n
        invariant
            parent.len() <= n,
            forall|i: int| 0 <= i < parent.len() ==> #[trigger] parent@[i] == i,
        decreases n - parent.len(),
    {
        parent.push(parent.len());
    }
    let ghost mut rt: Seq<usize> = Seq::new(n as nat, |i: int| i as usize);
    let ghost mut rank: Seq<nat> = Seq::new(n as nat, |i: int| 0nat);
    let ghost mut bound: nat = 0;
    let ghost nv = names_view(names@);
    proof {
        assert(ps.take(0) =~= Seq::<(Seq<char>, Seq<char>)>::empty());
    }
    let mut k: usize = 0;
    while k < pairs.len()
        invariant
            k <= pairs@.len(),
            ps == pair_names(pairs@),
            nv == names_view(names@),
            nv == names_of(ps),
            n == names@.len(),
            parent@.len() == n,
            forall|i: int, j: int|
                0 <= i < n && 0 <= j < n && i != j ==> #[trigger] nv[i] != #[trigger] nv[j],
            forall|q: int|
                0 <= q < ps.len() ==> nv.contains(#[trigger] ps[q].0) && nv.contains(ps[q].1),
            forest(parent@, rt, rank, bound),
            forall|i: int, j: int|
                0 <= i < n && 0 <= j < n ==> (#[trigger] rt[i] == #[trigger] rt[j]) == linked(
                    ps.take(k as int),
                    nv[i],
                    nv[j],
                ),
        decreases pairs@.len() - k,
    {
        let (a, b) = &pairs[k];
        proof {
            assert(ps[k as int] == (a@, b@));
            assert(nv.contains(ps[k as int].0));
            assert(nv.contains(ps[k as int].1));
        }
        let ia = position_of(&names, a);
        let ib = position_of(&names, b);
        let ra = find_root(&mut parent, ia, Ghost(rt), Ghost(rank), Ghost(bound));
        let rb = find_root(&mut parent, ib, Ghost(rt), Ghost(rank), Ghost(bound));
        let ghost old_rt = rt;
        let ghost prefix = ps.take(k as int);
        proof {
            assert(ps.take(k + 1).drop_last() =~= prefix);
            assert(ps.take(k + 1).last() == (a@, b@));
            assert(nv[ia as int] == a@);
            assert(nv[ib as int] == b@);
        }
        if ra != rb {
            let ghost before = parent@;
            parent.set(ra, rb);
            proof {
                let new_rt = Seq::new(n as nat, |i: int| if old_rt[i] == ra { rb } else { old_rt[i] });
                let new_rank = rank.update(
                    rb as int,
                    if rank[rb as int] > rank[ra as int] + 1 {
                        rank[rb as int]
                    } else {
                        rank[ra as int] + 1
                    },
                );
                let new_bound = if bound > new_rank[rb as int] { bound } else { new_rank[rb as int] };
                assert forall|i: int| 0 <= i < n implies #[trigger] parent@[i] < n by {
                    if i != ra {
                        assert(parent@[i] == before[i]);
                    }
                }
                assert forall|i: int| 0 <= i < n implies #[trigger] new_rt[i] < n by {}
                assert forall|i: int| 0 <= i < n implies parent@[#[trigger] new_rt[i] as int] == new_rt[i] by {
                    assert(parent@[new_rt[i] as int] == before[new_rt[i] as int]);
                }
                assert forall|i: int| 0 <= i < n && #[trigger] parent@[i] == i implies new_rt[i] == i by {
                    assert(parent@[i] == before[i]);
                }
                assert forall|i: int| 0 <= i < n implies new_rt[#[trigger] parent@[i] as int] == new_rt[i] by {
                    if i != ra {
                        assert(parent@[i] == before[i]);
                    }
                }
                assert forall|i: int| 0 <= i < n && #[trigger] parent@[i] != i implies new_rank[parent@[i] as int] > new_rank[i] by {
                    if i != ra {
                        assert(parent@[i] == before[i]);
                        if i == rb {
                            assert(before[i] == i);
                        }
                    }
                }
                assert forall|i: int| 0 <= i < n && #[trigger] new_rt[i] != i implies new_rank[new_rt[i] as int] > new_rank[i] by {
                    if old_rt[i] == ra {
                        if i != ra {
                            assert(rank[ra as int] > rank[i]);
                        }
                    } else if i == rb {
                        assert(old_rt[rb as int] == rb);
                    }
                }
                assert forall|i: int| 0 <= i < n implies #[trigger] new_rank[i] <= new_bound by {}
                rt = new_rt;
                rank = new_rank;
                bound = new_bound;
                assert(forest(parent@, rt, rank, bound));
                assert forall|i: int, j: int|
                    0 <= i < n && 0 <= j < n implies (#[trigger] rt[i] == #[trigger] rt[j]) == linked(
                        ps.take(k + 1),
                        nv[i],
                        nv[j],
                    ) by {
                    assert(linked(prefix, nv[i], a@) == (old_rt[i] == ra));
                    assert(linked(prefix, nv[i], b@) == (old_rt[i] == rb));
                    assert(linked(prefix, a@, nv[j]) == (ra == old_rt[j]));
                    assert(linked(prefix, b@, nv[j]) == (rb == old_rt[j]));
                    assert(linked(prefix, nv[i], nv[j]) == (old_rt[i] == old_rt[j]));
                }
            }
        } else {
            proof {
                assert forall|i: int, j: int|
                    0 <= i < n && 0 <= j < n implies (#[trigger] rt[i] == #[trigger] rt[j]) == linked(
                        ps.take(k + 1),
                        nv[i],
                        nv[j],
                    ) by {
                    assert(linked(prefix, nv[i], a@) == (old_rt[i] == ra));
                    assert(linked(prefix, nv[i], b@) == (old_rt[i] == rb));
                    assert(linked(prefix, a@, nv[j]) == (ra == old_rt[j]));
                    assert(linked(prefix, b@, nv[j]) == (rb == old_rt[j]));
                    assert(linked(prefix, nv[i], nv[j]) == (old_rt[i] == old_rt[j]));
                }
            }
        }
        k = k + 1;
    }
    proof {
        assert(ps.take(pairs@.len() as int) =~= ps);
    }
    let mut seen: Vec<bool> = Vec::new();
    while seen.len() < n
        invariant
            seen.len() <= n,
            forall|r: int| 0 <= r < seen.len() ==> !#[trigger] seen@[r],
        decreases n - seen.len(),
    {
        seen.push(false);
    }
    let mut count: usize = 0;
    let mut i: usize = 0;
    while i < n
        invariant
            i <= n,
            n == names@.len(),
            nv == names_of(ps),
            nv.len() == n,
            parent@.len() == n,
            seen@.len() == n,
            forest(parent@, rt, rank, bound),
            forall|i1: int, j1: int|
                0 <= i1 < n && 0 <= j1 < n ==> (#[trigger] rt[i1] == #[trigger] rt[j1]) == linked(
                    ps,
                    nv[i1],
                    nv[j1],
                ),
            forall|r: int| 0 <= r < n ==> #[trigger] seen@[r] == exists|j: int| 0 <= j < i && rt[j] == r,
            count == clusters_upto(ps, nv, i as int),
            count <= i,
        decreases n - i,
    {
        let r = find_root(&mut parent, i, Ghost(rt), Ghost(rank), Ghost(bound));
        proof {
            assert(first_of_cluster(ps, nv, i as int) == !seen@[r as int]) by {
                if seen@[r as int] {
                    let j = choose|j: int| 0 <= j < i && rt[j] == r;
                    assert(linked(ps, nv[j], nv[i as int]));
                } else {
                    assert forall|j: int| 0 <= j < i implies !#[trigger] linked(ps, nv[j], nv[i as int]) by {
                        assert(rt[j] != rt[i as int]);
                    }
                }
            }
        }
        if !seen[r] {
            seen.set(r, true);
            count = count + 1;
        }
        proof {
            assert forall|r2: int| 0 <= r2 < n implies #[trigger] seen@[r2] == exists|j: int| 0 <= j < i + 1 && rt[j] == r2 by {
                if r2 == r {
                    assert(rt[i as int] == r2);
                }
            }
        }
        i = i + 1;
    }
    count
}

/// Every name is linked to itself.
pub proof fn lemma_linked_reflexive(pairs: Seq<(Seq<char>, Seq<char>)>, x: Seq<char>)
    ensures
        linked(pairs, x, x),
    decreases pairs.len(),
{
    if pairs.len() > 0 {
        lemma_linked_reflexive(pairs.drop_last(), x);
    }
}

/// Links are symmetric.
pub proof fn lemma_linked_symmetric(pairs: Seq<(Seq<char>, Seq<char>)>, x: Seq<char>, y: Seq<char>)
    requires
        linked(pairs, x, y),
    ensures
        linked(pairs, y, x),
    decreases pairs.len(),
{
    if pairs.len() > 0 {
        let rest = pairs.drop_last();
        let a = pairs.last().0;
        let b = pairs.last().1;
        if linked(rest, x, y) {
            lemma_linked_symmetric(rest, x, y);
        } else if linked(rest, x, a) && linked(rest, b, y) {
            lemma_linked_symmetric(rest, x, a);
            lemma_linked_symmetric(rest, b, y);
        } else {
            lemma_linked_symmetric(rest, x, b);
            lemma_linked_symmetric(rest, a, y);
        }
    }
}

/// Links compose.
pub proof fn lemma_linked_transitive(
    pairs: Seq<(Seq<char>, Seq<char>)>,
    x: Seq<char>,
    y: Seq<char>,
    z: Seq<char>,
)
    requires
        linked(pairs, x, y),
        linked(pairs, y, z),
    ensures
        linked(pairs, x, z),
    decreases pairs.len(),
{
    if pairs.len() > 0 {
        let rest = pairs.drop_last();
        let a = pairs.last().0;
        let b = pairs.last().1;
        // Each of x-y and y-z is a direct link, or passes a-b or b-a.
        let xy_d = linked(rest, x, y);
        let xy_ab = linked(rest, x, a) && linked(rest, b, y);
        let xy_ba = linked(rest, x, b) && linked(rest, a, y);
        let yz_d = linked(rest, y, z);
        let yz_ab = linked(rest, y, a) && linked(rest, b, z);
        let yz_ba = linked(rest, y, b) && linked(rest, a, z);
        if xy_d && yz_d {
            lemma_linked_transitive(rest, x, y, z);
        } else if xy_d && yz_ab {
            lemma_linked_transitive(rest, x, y, a);
        } else if xy_d && yz_ba {
            lemma_linked_transitive(rest, x, y, b);
        } else if xy_ab && yz_d {
            lemma_linked_transitive(rest, b, y, z);
        } else if xy_ba && yz_d {
            lemma_linked_transitive(rest, a, y, z);
        } else if xy_ab && yz_ba {
            lemma_linked_transitive(rest, x, a, z);
        } else if xy_ba && yz_ab {
            lemma_linked_transitive(rest, x, b, z);
        }
    }
}

/// Each pair links its two names, and links stay when pairs are added.
pub proof fn lemma_pairs_are_linked(pairs: Seq<(Seq<char>, Seq<char>)>, k: int)
    requires
        0 <= k < pairs.len(),
    ensures
        linked(pairs, pairs[k].0, pairs[k].1),
    decreases pairs.len(),
{
    let rest = pairs.drop_last();
    if k == pairs.len() - 1 {
        lemma_linked_reflexive(rest, pairs[k].0);
        lemma_linked_reflexive(rest, pairs[k].1);
    } else {
        assert(rest[k] == pairs[k]);
        lemma_pairs_are_linked(rest, k);
    }
}

proof fn lemma_clusters_bounds(pairs: Seq<(Seq<char>, Seq<char>)>, names: Seq<Seq<char>>, k: int)
    requires
        0 <= k,
    ensures
        clusters_upto(pairs, names, k) <= k,
        k >= 1 ==> clusters_upto(pairs, names, k) >= 1,
    decreases k,
{
    if k > 0 {
        lemma_clusters_bounds(pairs, names, k - 1);
        if k == 1 {
            assert(first_of_cluster(pairs, names, 0));
        }
    }
}

/// There are no more clusters than names, and at least one as soon as
/// there is a pair.
pub proof fn lemma_cluster_count_bounds(pairs: Seq<(Seq<char>, Seq<char>)>)
    ensures
        cluster_count(pairs) <= names_of(pairs).len(),
        pairs.len() > 0 ==> cluster_count(pairs) >= 1,
{
    lemma_names_of(pairs);
    if pairs.len() > 0 {
        assert(names_of(pairs).contains(pairs[0].0));
    }
    lemma_clusters_bounds(pairs, names_of(pairs), names_of(pairs).len() as int);
}

} // verus!
