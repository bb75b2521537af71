//! The path planner: the hypercube graph and the enumeration of up to `n`
//! simple paths from an origin label to a destination label in non-decreasing
//! hop count.

use vstd::prelude::*;
use vstd::string::StrSliceExecFns;

verus! {

/// A candidate of the best-first search: hop count and node labels from the
/// origin.
pub struct Path {
    pub cost: usize,
    pub nodes: Vec<usize>,
}

/// Every adjacency entry names a node of the graph, and no node lists the
/// same neighbour twice.
pub open spec fn graph_ok(g: Seq<Vec<usize>>) -> bool {
    &&& forall|i: int, j: int|
        0 <= i < g.len() && 0 <= j < g[i]@.len() ==> (g[i]@[j] as int) < g.len()
    &&& forall|i: int, a: int, b: int|
        0 <= i < g.len() && 0 <= a < b < g[i]@.len() ==> g[i]@[a] != g[i]@[b]
}

/// `b` is listed among the neighbours of `a`.
pub open spec fn edge(g: Seq<Vec<usize>>, a: usize, b: usize) -> bool {
    (a as int) < g.len() && g[a as int]@.contains(b)
}

/// Consecutive nodes of `p` are graph neighbours.
pub open spec fn path_chained(g: Seq<Vec<usize>>, p: Seq<usize>) -> bool {
    forall|k: int| 0 <= k < p.len() - 1 ==> edge(g, #[trigger] p[k], p[k + 1])
}

/// No node occurs twice on `p`.
pub open spec fn path_simple(p: Seq<usize>) -> bool {
    forall|i: int, j: int| 0 <= i < j < p.len() ==> p[i] != p[j]
}

/// Every node of `p` is a node of the graph.
pub open spec fn path_in_bounds(g: Seq<Vec<usize>>, p: Seq<usize>) -> bool {
    forall|k: int| 0 <= k < p.len() ==> (#[trigger] p[k] as int) < g.len()
}

/// A frontier candidate: starts at the origin, chained, simple, in bounds.
pub open spec fn search_path_ok(g: Seq<Vec<usize>>, start: usize, p: Seq<usize>) -> bool {
    &&& p.len() >= 1
    &&& p[0] == start
    &&& path_in_bounds(g, p)
    &&& path_chained(g, p)
    &&& path_simple(p)
}

/// A finished path: a candidate that ends at the destination.
pub open spec fn result_path_ok(g: Seq<Vec<usize>>, start: usize, end: usize, p: Seq<usize>) -> bool {
    &&& search_path_ok(g, start, p)
    &&& p.last() == end
}

/// The nodes before the last one avoid `end`, so the search may still extend
/// the candidate.
pub open spec fn interior_avoids(p: Seq<usize>, end: usize) -> bool {
    forall|i: int| 0 <= i < p.len() - 1 ==> #[trigger] p[i] != end
}

/// A live candidate of the search at the given length: the search keeps
/// exactly these on its frontier.
pub open spec fn frontier_path_ok(
    g: Seq<Vec<usize>>,
    start: usize,
    end: usize,
    p: Seq<usize>,
    len: int,
) -> bool {
    &&& search_path_ok(g, start, p)
    &&& p.len() == len
    &&& interior_avoids(p, end)
}

/// The candidate's first `level + 1` nodes are one of the first `qi`
/// frontier entries.
pub open spec fn prefix_among(fr: Seq<Path>, qi: int, level: int, nodes: Seq<usize>) -> bool {
    exists|j: int| 0 <= j < qi && nodes.take(level + 1) == (#[trigger] fr[j]).nodes@
}

/// A finished path is a live candidate of its own length.
proof fn lemma_result_is_frontier_path(g: Seq<Vec<usize>>, start: usize, end: usize, p: Seq<usize>)
    requires
        result_path_ok(g, start, end, p),
    ensures
        frontier_path_ok(g, start, end, p, p.len() as int),
{
    assert forall|i: int| 0 <= i < p.len() - 1 implies #[trigger] p[i] != end by {
        assert(p[i] != p[p.len() - 1]);
    }
}

/// Prefixes of a live candidate are live candidates.
proof fn lemma_prefix_frontier_path(
    g: Seq<Vec<usize>>,
    start: usize,
    end: usize,
    p: Seq<usize>,
    l: int,
)
    requires
        frontier_path_ok(g, start, end, p, p.len() as int),
        1 <= l <= p.len(),
    ensures
        frontier_path_ok(g, start, end, p.take(l), l),
{
    let q = p.take(l);
    assert(forall|i: int| 0 <= i < l ==> #[trigger] q[i] == p[i]);
    assert(q[0] == start);
    assert forall|k: int| 0 <= k < q.len() - 1 implies edge(g, #[trigger] q[k], q[k + 1]) by {
        assert(q[k] == p[k]);
        assert(q[k + 1] == p[k + 1]);
    }
    assert forall|i: int, j: int| 0 <= i < j < q.len() implies q[i] != q[j] by {
        assert(q[i] == p[i]);
        assert(q[j] == p[j]);
    }
    assert forall|k: int| 0 <= k < q.len() implies (#[trigger] q[k] as int) < g.len() by {
        assert(q[k] == p[k]);
    }
    assert forall|i: int| 0 <= i < q.len() - 1 implies #[trigger] q[i] != end by {
        assert(q[i] == p[i]);
    }
}

/// Pigeonhole: a simple path over the graph's nodes has at most as many
/// entries as the graph has nodes.
proof fn lemma_simple_path_len(g: Seq<Vec<usize>>, p: Seq<usize>)
    requires
        path_simple(p),
        path_in_bounds(g, p),
    ensures
        p.len() <= g.len(),
{
    broadcast use vstd::set::group_set_axioms;
    broadcast use vstd::seq_lib::seq_to_set_is_finite;

    let q = p.map_values(|x: usize| x as int);
    assert(q.len() == p.len());
    assert forall|i: int, j: int|
        0 <= i < q.len() && 0 <= j < q.len() && i != j implies q[i] != q[j] by {
        assert(q[i] == p[i] as int);
        assert(q[j] == p[j] as int);
        if i < j {
            assert(p[i] != p[j]);
        } else {
            assert(p[j] != p[i]);
        }
    }
    assert(q.no_duplicates());
    q.unique_seq_to_set();
    let rng = vstd::set_lib::set_int_range(0, g.len() as int);
    assert forall|x: int| q.to_set().contains(x) implies rng.contains(x) by {
        assert(q.contains(x));
        let i = choose|i: int| 0 <= i < q.len() && q[i] == x;
        assert((p[i] as int) < g.len());
    }
    assert(q.to_set().subset_of(rng));
    vstd::set_lib::lemma_int_range(0, g.len() as int);
    vstd::set_lib::lemma_len_subset(q.to_set(), rng);
}

/// Number of positions, up to the `k`-th, where `a` and `b` carry different
/// characters.
pub open spec fn hamming_upto(a: Seq<char>, b: Seq<char>, k: int) -> nat
    decreases k,
{
    if k <= 0 {
        0
    } else {
        hamming_upto(a, b, k - 1) + if a[k - 1] != b[k - 1] {
            1nat
        } else {
            0nat
        }
    }
}

/// Number of positions where the two label strings differ, over their common
/// prefix.
pub open spec fn spec_hamming(a: Seq<char>, b: Seq<char>) -> nat {
    hamming_upto(a, b, if a.len() <= b.len() { a.len() as int } else { b.len() as int })
}

/// Character positions at which two node labels differ, over their common
/// prefix length.
pub fn hamming_distance(a: &str, b: &str) -> (r: usize)
    ensures
        r == spec_hamming(a@, b@),
{
    let al = a.unicode_len();
    let bl = b.unicode_len();
    let n: usize = if al <= bl {
        al
    } else {
        bl
    };
    let mut count: usize = 0;
    let mut i: usize = 0;
    while i < n
        invariant
            i <= n,
            n <= a@.len(),
            n <= b@.len(),
            n == if a@.len() <= b@.len() {
                a@.len()
            } else {
                b@.len()
            },
            count == hamming_upto(a@, b@, i as int),
            count <= i,
        decreases n - i,
    {
        if a.get_char(i) != b.get_char(i) {
            count = count + 1;
        }
        i = i + 1;
    }
    count
}

/// Flipping a bit below `d` keeps a label below `2^d`.
proof fn lemma_flip_bit_bound(x: usize, b: usize, d: usize)
    requires
        d < 32,
        b < d,
        x < (1usize << d),
    ensures
        (x ^ (1usize << b)) < (1usize << d),
{
    assert(d < 32 && b < d && x < (1usize << d) ==> (x ^ (1usize << b)) < (1usize << d))
        by (bit_vector);
}

/// Flipping different bits gives different labels.
proof fn lemma_flip_bits_distinct(x: usize, a: usize, b: usize)
    requires
        a < b,
        b < 32,
    ensures
        (x ^ (1usize << a)) != (x ^ (1usize << b)),
{
    assert(a < b && b < 32 ==> (x ^ (1usize << a)) != (x ^ (1usize << b))) by (bit_vector);
}

/// The hypercube graph of dimension `dim`: node labels `0 .. 2^dim`, and the
/// neighbours of a label are the labels with exactly one bit flipped, listed
/// by flipped-bit position.
pub fn build_hypercube(dim: usize) -> (r: Vec<Vec<usize>>)
    requires
        dim < 32,
    ensures
        r@.len() == (1usize << dim) as int,
        graph_ok(r@),
        forall|i: int| 0 <= i < r@.len() ==> r@[i]@.len() == dim as int,
        forall|i: int, j: int|
            0 <= i < r@.len() && 0 <= j < dim ==> r@[i]@[j] == (i as usize) ^ (1usize << (j as usize)),
{
    let size: usize = 1usize << dim;
    let mut graph: Vec<Vec<usize>> = Vec::new();
    let mut i: usize = 0;
    while i < size
        invariant
            i <= size,
            size == (1usize << dim),
            dim < 32,
            graph@.len() == i,
            forall|a: int| 0 <= a < i ==> graph@[a]@.len() == dim as int,
            forall|a: int, j: int|
                0 <= a < i && 0 <= j < dim ==> graph@[a]@[j] == (a as usize) ^ (1usize << (
                j as usize)),
            forall|a: int, j: int|
                0 <= a < i && 0 <= j < dim ==> (graph@[a]@[j] as int) < size as int,
            forall|a: int, j1: int, j2: int|
                0 <= a < i && 0 <= j1 < j2 < dim ==> graph@[a]@[j1] != graph@[a]@[j2],
        decreases size - i,
    {
        let mut nbrs: Vec<usize> = Vec::new();
        let mut b: usize = 0;
        while b < dim
            invariant
                b <= dim,
                dim < 32,
                i < size,
                size == (1usize << dim),
                nbrs@.len() == b,
                forall|j: int| 0 <= j < b ==> nbrs@[j] == i ^ (1usize << (j as usize)),
                forall|j: int| 0 <= j < b ==> (nbrs@[j] as int) < size as int,
                forall|j1: int, j2: int| 0 <= j1 < j2 < b ==> nbrs@[j1] != nbrs@[j2],
            decreases dim - b,
        {
            let nb: usize = i ^ (1usize << b);
            proof {
                lemma_flip_bit_bound(i, b, dim);
                assert forall|j: int| 0 <= j < b implies nbrs@[j] != nb by {
                    lemma_flip_bits_distinct(i, j as usize, b);
                }
            }
            nbrs.push(nb);
            b = b + 1;
        }
        graph.push(nbrs);
        i = i + 1;
    }
    graph
}

/// Whether label `x` already lies on the candidate path.
fn contains_node(v: &Vec<usize>, x: usize) -> (r: bool)
    ensures
        r == v@.contains(x),
{
    let n: usize = v.len();
    let mut i: usize = 0;
    while i < n
        invariant
            i <= n,
            n == v@.len(),
            forall|j: int| 0 <= j < i ==> v@[j] != x,
        decreases n - i,
    {
        if v[i] == x {
            return true;
        }
        i = i + 1;
    }
    false
}

/// An element-for-element copy of a label path.
fn clone_nodes(v: &Vec<usize>) -> (r: Vec<usize>)
    ensures
        r@ == v@,
{
    let n: usize = v.len();
    let mut r: Vec<usize> = Vec::new();
    let mut i: usize = 0;
    while i < n
        invariant
            i <= n,
            n == v@.len(),
            r@.len() == i,
            forall|j: int| 0 <= j < i ==> r@[j] == v@[j],
        decreases n - i,
    {
        r.push(v[i]);
        i = i + 1;
    }
    assert(r@ =~= v@);
    r
}

/// Extending a live candidate by an unvisited neighbour gives a live
/// candidate one longer, whose prefix is the original.
proof fn lemma_extend_candidate(
    g: Seq<Vec<usize>>,
    start: usize,
    end: usize,
    old_p: Seq<usize>,
    nb: usize,
)
    requires
        search_path_ok(g, start, old_p),
        interior_avoids(old_p, end),
        old_p.last() != end,
        edge(g, old_p.last(), nb),
        (nb as int) < g.len(),
        !old_p.contains(nb),
    ensures
        search_path_ok(g, start, old_p.push(nb)),
        interior_avoids(old_p.push(nb), end),
        old_p.push(nb).take(old_p.len() as int) == old_p,
        old_p.push(nb).last() == nb,
{
    let new_p = old_p.push(nb);
    assert(new_p[0] == start);
    assert forall|a: int|
        0 <= a < new_p.len() - 1 implies edge(g, #[trigger] new_p[a], new_p[a + 1]) by {
        if a < old_p.len() - 1 {
            assert(new_p[a] == old_p[a]);
            assert(new_p[a + 1] == old_p[a + 1]);
        } else {
            assert(new_p[a] == old_p.last());
            assert(new_p[a + 1] == nb);
        }
    }
    assert forall|a: int, b2: int| 0 <= a < b2 < new_p.len() implies new_p[a] != new_p[b2] by {
        if b2 < old_p.len() {
            assert(new_p[a] == old_p[a]);
            assert(new_p[b2] == old_p[b2]);
        } else {
            assert(new_p[b2] == nb);
            assert(!old_p.contains(nb));
            assert(new_p[a] == old_p[a]);
            assert(old_p.contains(old_p[a]));
        }
    }
    assert forall|a: int| 0 <= a < new_p.len() implies (#[trigger] new_p[a] as int) < g.len() by {
        if a < old_p.len() {
            assert(new_p[a] == old_p[a]);
        } else {
            assert(new_p[a] == nb);
        }
    }
    assert forall|a: int| 0 <= a < new_p.len() - 1 implies #[trigger] new_p[a] != end by {
        if a < old_p.len() - 1 {
            assert(new_p[a] == old_p[a]);
        } else {
            assert(new_p[a] == old_p.last());
        }
    }
    assert(new_p.take(old_p.len() as int) =~= old_p);
}

/// Collect one finished candidate: the `qi`-th frontier entry, which ends at
/// the destination, becomes the next result.
#[verifier::rlimit(100)]
fn collect_result(
    graph: &Vec<Vec<usize>>,
    start: usize,
    end: usize,
    level: usize,
    frontier: &Vec<Path>,
    qi: usize,
    n: usize,
    paths: &mut Vec<Vec<usize>>,
)
    requires
        graph_ok(graph@),
        qi < frontier@.len(),
        forall|i: int|
            0 <= i < frontier@.len() ==> search_path_ok(
                graph@,
                start,
                (#[trigger] frontier@[i]).nodes@,
            ) && frontier@[i].nodes@.len() == level + 1 && interior_avoids(
                frontier@[i].nodes@,
                end,
            ),
        forall|i: int, j: int|
            0 <= i < j < frontier@.len() ==> (#[trigger] frontier@[i]).nodes@ != (
            #[trigger] frontier@[j]).nodes@,
        frontier@[qi as int].nodes@.last() == end,
        old(paths)@.len() < n,
        forall|i: int|
            0 <= i < old(paths)@.len() ==> result_path_ok(
                graph@,
                start,
                end,
                (#[trigger] old(paths)@[i])@,
            ),
        forall|i: int| 0 <= i < old(paths)@.len() ==> (#[trigger] old(paths)@[i])@.len() <= level
            + 1,
        forall|i: int, j: int|
            0 <= i <= j < old(paths)@.len() ==> old(paths)@[i]@.len() <= old(paths)@[j]@.len(),
        forall|i: int, j: int|
            0 <= i < j < old(paths)@.len() ==> (#[trigger] old(paths)@[i])@ != (#[trigger] old(paths)@[j])@,
        forall|p: Seq<usize>|
            #[trigger] result_path_ok(graph@, start, end, p) && old(paths)@.len() >= 1 ==> old(paths)@[0]@.len() <= p.len(),
        forall|p: Seq<usize>|
            #[trigger] result_path_ok(graph@, start, end, p) && p.len() <= level ==> exists|i: int|
                0 <= i < old(paths)@.len() && (#[trigger] old(paths)@[i])@ == p,
        forall|i: int|
            0 <= i < old(paths)@.len() && (#[trigger] old(paths)@[i])@.len() == level + 1
                ==> exists|j: int|
                0 <= j < qi && (#[trigger] frontier@[j]).nodes@ == old(paths)@[i]@,
    ensures
        final(paths)@.len() == old(paths)@.len() + 1,
        forall|i: int| 0 <= i < old(paths)@.len() ==> final(paths)@[i] == old(paths)@[i],
        final(paths)@.last()@ == frontier@[qi as int].nodes@,
        forall|i: int|
            0 <= i < final(paths)@.len() ==> result_path_ok(
                graph@,
                start,
                end,
                (#[trigger] final(paths)@[i])@,
            ),
        forall|i: int| 0 <= i < final(paths)@.len() ==> (#[trigger] final(paths)@[i])@.len()
            <= level + 1,
        forall|i: int, j: int|
            0 <= i <= j < final(paths)@.len() ==> final(paths)@[i]@.len() <= final(paths)@[j]@.len(),
        forall|i: int, j: int|
            0 <= i < j < final(paths)@.len() ==> (#[trigger] final(paths)@[i])@ != (
            #[trigger] final(paths)@[j])@,
        forall|p: Seq<usize>|
            #[trigger] result_path_ok(graph@, start, end, p) && final(paths)@.len() >= 1 ==> final(paths)@[0]@.len() <= p.len(),
        forall|p: Seq<usize>|
            #[trigger] result_path_ok(graph@, start, end, p) && p.len() <= level ==> exists|i: int|
                0 <= i < final(paths)@.len() && (#[trigger] final(paths)@[i])@ == p,
        forall|i: int|
            0 <= i < final(paths)@.len() && (#[trigger] final(paths)@[i])@.len() == level + 1
                ==> exists|j: int|
                0 <= j < qi + 1 && (#[trigger] frontier@[j]).nodes@ == final(paths)@[i]@,
{
    let done = clone_nodes(&frontier[qi].nodes);
    proof {
        let dv = done@;
        assert(dv == frontier@[qi as int].nodes@);
        assert(result_path_ok(graph@, start, end, dv));
        assert forall|i: int| 0 <= i < paths@.len() implies (#[trigger] paths@[i])@ != dv by {
            if paths@[i]@.len() == level + 1 {
                let j = choose|j: int|
                    0 <= j < qi && (#[trigger] frontier@[j]).nodes@ == paths@[i]@;
                assert(frontier@[j].nodes@ != frontier@[qi as int].nodes@);
            } else {
                assert(paths@[i]@.len() < dv.len());
            }
        }
        if paths@.len() == 0 {
            assert forall|p: Seq<usize>| #[trigger] result_path_ok(
                graph@,
                start,
                end,
                p,
            ) implies dv.len() <= p.len() by {
                if p.len() <= level {
                    assert(exists|i: int|
                        0 <= i < paths@.len() && (#[trigger] paths@[i])@ == p);
                    assert(false);
                }
            }
        }
    }
    let ghost pre = paths@;
    paths.push(done);
    proof {
        assert(paths@ == pre.push(done));
        assert forall|p: Seq<usize>|
            #[trigger] result_path_ok(graph@, start, end, p) && p.len() <= level implies exists|
                i: int,
            | 0 <= i < paths@.len() && (#[trigger] paths@[i])@ == p by {
            let i = choose|i: int| 0 <= i < pre.len() && (#[trigger] pre[i])@ == p;
            assert(paths@[i] == pre[i]);
        }
        assert forall|i: int|
            0 <= i < paths@.len() && (#[trigger] paths@[i])@.len() == level + 1 implies exists|
                j: int,
            | 0 <= j < qi + 1 && (#[trigger] frontier@[j]).nodes@ == paths@[i]@ by {
            if i < pre.len() {
                let j = choose|j: int|
                    0 <= j < qi && (#[trigger] frontier@[j]).nodes@ == pre[i]@;
                assert(0 <= j < qi + 1 && frontier@[j].nodes@ == paths@[i]@);
            } else {
                assert(paths@[i]@ == frontier@[qi as int].nodes@);
            }
        }
    }
}

/// After a candidate has been extended by every unvisited neighbour, the
/// next frontier covers every live candidate whose prefix is one of the
/// first `qi + 1` frontier entries.
proof fn lemma_next_complete_step(
    g: Seq<Vec<usize>>,
    start: usize,
    end: usize,
    level: usize,
    fr: Seq<Path>,
    qi: int,
    last: usize,
    nbrs: Seq<usize>,
    nx: Seq<Path>,
)
    requires
        0 <= qi < fr.len(),
        fr[qi].nodes@.len() == level + 1,
        last == fr[qi].nodes@.last(),
        (last as int) < g.len(),
        nbrs == g[last as int]@,
        forall|ki: int|
            0 <= ki < nbrs.len() && !fr[qi].nodes@.contains(#[trigger] nbrs[ki]) ==> exists|e: int|
                0 <= e < nx.len() && (#[trigger] nx[e]).nodes@ == fr[qi].nodes@.push(nbrs[ki]),
        forall|p: Seq<usize>|
            #[trigger] frontier_path_ok(g, start, end, p, level + 2) && (exists|j: int|
                0 <= j < qi && (#[trigger] fr[j]).nodes@ == p.take(level + 1)) ==> exists|e: int|
                0 <= e < nx.len() && (#[trigger] nx[e]).nodes@ == p,
    ensures
        forall|p: Seq<usize>|
            #[trigger] frontier_path_ok(g, start, end, p, level + 2) && (exists|j: int|
                0 <= j < qi + 1 && (#[trigger] fr[j]).nodes@ == p.take(level + 1)) ==> exists|
                e: int,
            | 0 <= e < nx.len() && (#[trigger] nx[e]).nodes@ == p,
{
    assert forall|p: Seq<usize>|
        #[trigger] frontier_path_ok(g, start, end, p, level + 2) && (exists|j: int|
            0 <= j < qi + 1 && (#[trigger] fr[j]).nodes@ == p.take(level + 1)) implies exists|
        e: int,
    | 0 <= e < nx.len() && (#[trigger] nx[e]).nodes@ == p by {
        let j = choose|j: int| 0 <= j < qi + 1 && (#[trigger] fr[j]).nodes@ == p.take(level + 1);
        if j == qi {
            let x = p[level + 1];
            assert(edge(g, p[level as int], p[level + 1]));
            assert(p.take(level + 1).last() == p[level as int]);
            assert(p[level as int] == last);
            assert(g[last as int]@.contains(x));
            let ki = choose|ki: int| 0 <= ki < nbrs.len() && nbrs[ki] == x;
            assert(!fr[qi].nodes@.contains(x)) by {
                if fr[qi].nodes@.contains(x) {
                    let w = choose|w: int|
                        0 <= w < fr[qi].nodes@.len() && fr[qi].nodes@[w] == x;
                    assert(p.take(level + 1)[w] == p[w]);
                    assert(p[w] == p[level + 1]);
                    assert(false);
                }
            }
            assert(exists|e: int|
                0 <= e < nx.len() && (#[trigger] nx[e]).nodes@ == fr[qi].nodes@.push(nbrs[ki]));
            let e = choose|e: int|
                0 <= e < nx.len() && (#[trigger] nx[e]).nodes@ == fr[qi].nodes@.push(nbrs[ki]);
            assert(fr[qi].nodes@.push(nbrs[ki]) =~= p);
        }
    }
}

/// When a whole frontier has been processed, the next frontier covers every
/// live candidate one longer, and the results cover every finished path up
/// to the new length.
proof fn lemma_level_rollover(
    g: Seq<Vec<usize>>,
    start: usize,
    end: usize,
    level: usize,
    fr: Seq<Path>,
    nx: Seq<Path>,
    paths: Seq<Vec<usize>>,
)
    requires
        forall|p: Seq<usize>| #[trigger] frontier_path_ok(g, start, end, p, level + 1)
            ==> exists|fi: int| 0 <= fi < fr.len() && (#[trigger] fr[fi]).nodes@ == p,
        forall|p: Seq<usize>|
            #[trigger] frontier_path_ok(g, start, end, p, level + 2) && (exists|j: int|
                0 <= j < fr.len() && (#[trigger] fr[j]).nodes@ == p.take(level + 1)) ==> exists|
                e: int,
            | 0 <= e < nx.len() && (#[trigger] nx[e]).nodes@ == p,
        forall|p: Seq<usize>|
            #[trigger] result_path_ok(g, start, end, p) && p.len() <= level ==> exists|i: int|
                0 <= i < paths.len() && (#[trigger] paths[i])@ == p,
        forall|p: Seq<usize>|
            #[trigger] result_path_ok(g, start, end, p) && p.len() == level + 1 && (exists|j: int|
                0 <= j < fr.len() && (#[trigger] fr[j]).nodes@ == p) ==> exists|i: int|
                0 <= i < paths.len() && (#[trigger] paths[i])@ == p,
    ensures
        forall|p: Seq<usize>| #[trigger] frontier_path_ok(g, start, end, p, level + 2)
            ==> exists|e: int| 0 <= e < nx.len() && (#[trigger] nx[e]).nodes@ == p,
        forall|p: Seq<usize>|
            #[trigger] result_path_ok(g, start, end, p) && p.len() <= level + 1 ==> exists|i: int|
                0 <= i < paths.len() && (#[trigger] paths[i])@ == p,
{
    assert forall|p: Seq<usize>| #[trigger] frontier_path_ok(
        g,
        start,
        end,
        p,
        level + 2,
    ) implies exists|e: int| 0 <= e < nx.len() && (#[trigger] nx[e]).nodes@ == p by {
        lemma_prefix_frontier_path(g, start, end, p, level + 1);
        assert(frontier_path_ok(g, start, end, p.take(level + 1), level + 1));
        let fi = choose|fi: int|
            0 <= fi < fr.len() && (#[trigger] fr[fi]).nodes@ == p.take(level + 1);
        assert(0 <= fi < fr.len() && fr[fi].nodes@ == p.take(level + 1));
    }
    assert forall|p: Seq<usize>|
        #[trigger] result_path_ok(g, start, end, p) && p.len() <= level + 1 implies exists|i: int|
        0 <= i < paths.len() && (#[trigger] paths[i])@ == p by {
        if p.len() == level + 1 {
            lemma_result_is_frontier_path(g, start, end, p);
            let fi = choose|fi: int| 0 <= fi < fr.len() && (#[trigger] fr[fi]).nodes@ == p;
            assert(0 <= fi < fr.len() && fr[fi].nodes@ == p);
        }
    }
}

/// Extend one live candidate: the `qi`-th frontier entry, which does not end
/// at the destination, grows by every neighbour not yet on it.
#[verifier::rlimit(100)]
fn extend_one(
    graph: &Vec<Vec<usize>>,
    start: usize,
    end: usize,
    level: usize,
    frontier: &Vec<Path>,
    qi: usize,
    next: &mut Vec<Path>,
)
    requires
        graph_ok(graph@),
        (start as int) < graph@.len(),
        qi < frontier@.len(),
        forall|i: int|
            0 <= i < frontier@.len() ==> search_path_ok(
                graph@,
                start,
                (#[trigger] frontier@[i]).nodes@,
            ) && frontier@[i].cost == level && frontier@[i].nodes@.len() == level + 1
                && interior_avoids(frontier@[i].nodes@, end),
        forall|i: int, j: int|
            0 <= i < j < frontier@.len() ==> (#[trigger] frontier@[i]).nodes@ != (
            #[trigger] frontier@[j]).nodes@,
        frontier@[qi as int].nodes@.last() != end,
        forall|i: int|
            0 <= i < old(next)@.len() ==> search_path_ok(
                graph@,
                start,
                (#[trigger] old(next)@[i]).nodes@,
            ) && old(next)@[i].cost == level + 1 && old(next)@[i].nodes@.len() == level + 2
                && interior_avoids(old(next)@[i].nodes@, end),
        forall|i: int, j: int|
            0 <= i < j < old(next)@.len() ==> (#[trigger] old(next)@[i]).nodes@ != (#[trigger] old(next)@[j]).nodes@,
        forall|e: int|
            0 <= e < old(next)@.len() ==> prefix_among(
                frontier@,
                qi as int,
                level as int,
                (#[trigger] old(next)@[e]).nodes@,
            ),
        forall|p: Seq<usize>|
            #[trigger] frontier_path_ok(graph@, start, end, p, level + 2) && (exists|j: int|
                0 <= j < qi && (#[trigger] frontier@[j]).nodes@ == p.take(level + 1)) ==> exists|
                e: int,
            | 0 <= e < old(next)@.len() && (#[trigger] old(next)@[e]).nodes@ == p,
    ensures
        forall|i: int|
            0 <= i < final(next)@.len() ==> search_path_ok(
                graph@,
                start,
                (#[trigger] final(next)@[i]).nodes@,
            ) && final(next)@[i].cost == level + 1 && final(next)@[i].nodes@.len() == level + 2
                && interior_avoids(final(next)@[i].nodes@, end),
        forall|i: int, j: int|
            0 <= i < j < final(next)@.len() ==> (#[trigger] final(next)@[i]).nodes@ != (
            #[trigger] final(next)@[j]).nodes@,
        forall|e: int|
            0 <= e < final(next)@.len() ==> prefix_among(
                frontier@,
                qi as int + 1,
                level as int,
                (#[trigger] final(next)@[e]).nodes@,
            ),
        forall|p: Seq<usize>|
            #[trigger] frontier_path_ok(graph@, start, end, p, level + 2) && (exists|j: int|
                0 <= j < qi + 1 && (#[trigger] frontier@[j]).nodes@ == p.take(level + 1))
                ==> exists|e: int|
                0 <= e < final(next)@.len() && (#[trigger] final(next)@[e]).nodes@ == p,
{
    let last: usize = frontier[qi].nodes[frontier[qi].nodes.len() - 1];
    proof {
        assert(last == frontier@[qi as int].nodes@.last());
    }
    let nbrs = &graph[last];
    let nl: usize = nbrs.len();
    let mut k: usize = 0;
    while k < nl
        invariant
            graph_ok(graph@),
            (start as int) < graph@.len(),
            qi < frontier@.len(),
            k <= nl,
            nl == nbrs@.len(),
            nbrs@ == graph@[last as int]@,
            last == frontier@[qi as int].nodes@.last(),
            (last as int) < graph@.len(),
            last != end,
            search_path_ok(graph@, start, frontier@[qi as int].nodes@),
            interior_avoids(frontier@[qi as int].nodes@, end),
            frontier@[qi as int].cost == level,
            frontier@[qi as int].nodes@.len() == level + 1,
            forall|i: int, j: int|
                0 <= i < j < frontier@.len() ==> (#[trigger] frontier@[i]).nodes@ != (
                #[trigger] frontier@[j]).nodes@,
            forall|i: int|
                0 <= i < next@.len() ==> search_path_ok(
                    graph@,
                    start,
                    (#[trigger] next@[i]).nodes@,
                ) && next@[i].cost == level + 1 && next@[i].nodes@.len() == level + 2
                    && interior_avoids(next@[i].nodes@, end),
            forall|i: int, j: int|
                0 <= i < j < next@.len() ==> (#[trigger] next@[i]).nodes@ != (
                #[trigger] next@[j]).nodes@,
            forall|e: int|
                0 <= e < next@.len() ==> prefix_among(
                    frontier@,
                    qi as int + 1,
                    level as int,
                    (#[trigger] next@[e]).nodes@,
                ),
            forall|e: int|
                0 <= e < next@.len() && (#[trigger] next@[e]).nodes@.take(level + 1)
                    == frontier@[qi as int].nodes@ ==> exists|ki: int|
                    0 <= ki < k && next@[e].nodes@.last() == nbrs@[ki],
            forall|ki: int|
                0 <= ki < k && !frontier@[qi as int].nodes@.contains(#[trigger] nbrs@[ki])
                    ==> exists|e: int|
                    0 <= e < next@.len() && (#[trigger] next@[e]).nodes@
                        == frontier@[qi as int].nodes@.push(nbrs@[ki]),
            forall|p: Seq<usize>|
                #[trigger] frontier_path_ok(graph@, start, end, p, level + 2) && (exists|j: int|
                    0 <= j < qi && (#[trigger] frontier@[j]).nodes@ == p.take(level + 1))
                    ==> exists|e: int|
                    0 <= e < next@.len() && (#[trigger] next@[e]).nodes@ == p,
        decreases nl - k,
    {
        let nb: usize = nbrs[k];
        if !contains_node(&frontier[qi].nodes, nb) {
            let mut extended = clone_nodes(&frontier[qi].nodes);
            extended.push(nb);
            proof {
                let old_p = frontier@[qi as int].nodes@;
                let new_p = extended@;
                assert(new_p == old_p.push(nb));
                assert(edge(graph@, old_p.last(), nb));
                assert((nb as int) < graph@.len());
                lemma_extend_candidate(graph@, start, end, old_p, nb);
                assert(new_p.take(level + 1) == old_p);
                assert forall|e: int| 0 <= e < next@.len() implies (#[trigger] next@[e]).nodes@
                    != new_p by {
                    if next@[e].nodes@.take(level + 1) == old_p {
                        let ki = choose|ki: int|
                            0 <= ki < k && next@[e].nodes@.last() == nbrs@[ki];
                        assert(nbrs@[ki] != nbrs@[k as int]);
                        assert(new_p.last() == nb);
                        if next@[e].nodes@ == new_p {
                            assert(next@[e].nodes@.last() == new_p.last());
                        }
                    } else {
                        if next@[e].nodes@ == new_p {
                            assert(next@[e].nodes@.take(level + 1) == new_p.take(level + 1));
                        }
                    }
                }
            }
            let c: usize = extended.len() - 1;
            let ghost pre_next = next@;
            next.push(Path { cost: c, nodes: extended });
            proof {
                let fq = frontier@[qi as int].nodes@;
                let ne = next@.len() - 1;
                assert(next@ == pre_next.push(next@[ne]));
                assert((#[trigger] next@[ne]).nodes@.take(level + 1) == fq);
                assert(next@[ne].nodes@.take(level + 1) == frontier@[qi as int].nodes@);
                assert(prefix_among(frontier@, qi as int + 1, level as int, next@[ne].nodes@));
                assert(next@[ne].nodes@.last() == nbrs@[k as int]);
                assert(next@[ne].nodes@ == fq.push(nbrs@[k as int]));
                assert forall|ki: int|
                    0 <= ki < k + 1 && !fq.contains(#[trigger] nbrs@[ki]) implies exists|e: int|
                    0 <= e < next@.len() && (#[trigger] next@[e]).nodes@ == fq.push(
                        nbrs@[ki],
                    ) by {
                    if ki < k {
                        let e = choose|e: int|
                            0 <= e < pre_next.len() && (#[trigger] pre_next[e]).nodes@ == fq.push(
                                nbrs@[ki],
                            );
                        assert(next@[e] == pre_next[e]);
                    } else {
                        assert(next@[ne].nodes@ == fq.push(nbrs@[ki]));
                    }
                }
                assert forall|p: Seq<usize>|
                    #[trigger] frontier_path_ok(graph@, start, end, p, level + 2) && (exists|
                        j: int,
                    | 0 <= j < qi && (#[trigger] frontier@[j]).nodes@ == p.take(level + 1))
                    implies exists|e: int|
                    0 <= e < next@.len() && (#[trigger] next@[e]).nodes@ == p by {
                    let e = choose|e: int|
                        0 <= e < pre_next.len() && (#[trigger] pre_next[e]).nodes@ == p;
                    assert(next@[e] == pre_next[e]);
                }
            }
        }
        k = k + 1;
    }
    proof {
        lemma_next_complete_step(
            graph@,
            start,
            end,
            level,
            frontier@,
            qi as int,
            last,
            nbrs@,
            next@,
        );
    }
}

/// Up to `n` simple paths from `start` to `end`, explored breadth-first by
/// hop count. Every result starts at `start`, ends at `end`, follows graph
/// edges and visits no node twice; the results are pairwise distinct and
/// come in non-decreasing length with a shortest path first; and when fewer
/// than `n` results come back, they are all the simple `start`-to-`end`
/// paths the graph has.
#[verifier::rlimit(100)]
pub fn find_n_shortest_paths(graph: &Vec<Vec<usize>>, start: usize, end: usize, n: usize) -> (r:
    Vec<Vec<usize>>)
    requires
        graph_ok(graph@),
        (start as int) < graph@.len(),
    ensures
        r@.len() <= n,
        forall|i: int| 0 <= i < r@.len() ==> result_path_ok(graph@, start, end, (#[trigger] r@[i])@),
        forall|i: int, j: int| 0 <= i <= j < r@.len() ==> r@[i]@.len() <= r@[j]@.len(),
        forall|i: int, j: int|
            0 <= i < j < r@.len() ==> (#[trigger] r@[i])@ != (#[trigger] r@[j])@,
        r@.len() < n ==> (forall|p: Seq<usize>|
            #[trigger] result_path_ok(graph@, start, end, p) ==> exists|i: int|
                0 <= i < r@.len() && (#[trigger] r@[i])@ == p),
        n >= 1 && (exists|p: Seq<usize>| #[trigger] result_path_ok(graph@, start, end, p))
            ==> r@.len() >= 1,
        forall|p: Seq<usize>|
            #[trigger] result_path_ok(graph@, start, end, p) && r@.len() >= 1 ==> r@[0]@.len()
                <= p.len(),
{
    let vmax: usize = graph.len();
    let mut paths: Vec<Vec<usize>> = Vec::new();
    let mut frontier: Vec<Path> = Vec::new();
    let mut first: Vec<usize> = Vec::new();
    first.push(start);
    frontier.push(Path { cost: 0, nodes: first });
    proof {
        assert(frontier@[0].nodes@ =~= seq![start]);
        assert forall|p: Seq<usize>| #[trigger] frontier_path_ok(
            graph@,
            start,
            end,
            p,
            1int,
        ) implies exists|fi: int|
            0 <= fi < frontier@.len() && (#[trigger] frontier@[fi]).nodes@ == p by {
            assert(p =~= seq![start]);
            assert(frontier@[0].nodes@ == p);
        }
    }
    let mut level: usize = 0;
    while level < vmax && frontier.len() > 0 && paths.len() < n
        invariant
            graph_ok(graph@),
            (start as int) < graph@.len(),
            vmax == graph@.len(),
            level <= vmax,
            paths@.len() <= n,
            forall|i: int|
                0 <= i < frontier@.len() ==> search_path_ok(
                    graph@,
                    start,
                    (#[trigger] frontier@[i]).nodes@,
                ) && frontier@[i].cost == level && frontier@[i].nodes@.len() == level + 1
                    && interior_avoids(frontier@[i].nodes@, end),
            forall|i: int, j: int|
                0 <= i < j < frontier@.len() ==> (#[trigger] frontier@[i]).nodes@ != (
                #[trigger] frontier@[j]).nodes@,
            forall|i: int|
                0 <= i < paths@.len() ==> result_path_ok(
                    graph@,
                    start,
                    end,
                    (#[trigger] paths@[i])@,
                ),
            forall|i: int| 0 <= i < paths@.len() ==> (#[trigger] paths@[i])@.len() <= level,
            forall|i: int, j: int|
                0 <= i <= j < paths@.len() ==> paths@[i]@.len() <= paths@[j]@.len(),
            forall|i: int, j: int|
                0 <= i < j < paths@.len() ==> (#[trigger] paths@[i])@ != (#[trigger] paths@[j])@,
            forall|p: Seq<usize>|
                #[trigger] result_path_ok(graph@, start, end, p) && paths@.len() >= 1
                    ==> paths@[0]@.len() <= p.len(),
            paths@.len() < n ==> (forall|p: Seq<usize>| #[trigger] frontier_path_ok(
                graph@,
                start,
                end,
                p,
                level + 1,
            ) ==> exists|fi: int|
                0 <= fi < frontier@.len() && (#[trigger] frontier@[fi]).nodes@ == p),
            paths@.len() < n ==> (forall|p: Seq<usize>|
                #[trigger] result_path_ok(graph@, start, end, p) && p.len() <= level
                    ==> exists|i: int| 0 <= i < paths@.len() && (#[trigger] paths@[i])@ == p),
        decreases vmax - level,
    {
        let mut next: Vec<Path> = Vec::new();
        let fl: usize = frontier.len();
        let mut qi: usize = 0;
        while qi < fl && paths.len() < n
            invariant
                graph_ok(graph@),
                (start as int) < graph@.len(),
                vmax == graph@.len(),
                level < vmax,
                qi <= fl,
                fl == frontier@.len(),
                paths@.len() <= n,
                forall|i: int|
                    0 <= i < frontier@.len() ==> search_path_ok(
                        graph@,
                        start,
                        (#[trigger] frontier@[i]).nodes@,
                    ) && frontier@[i].cost == level && frontier@[i].nodes@.len() == level + 1
                        && interior_avoids(frontier@[i].nodes@, end),
                forall|i: int, j: int|
                    0 <= i < j < frontier@.len() ==> (#[trigger] frontier@[i]).nodes@ != (
                    #[trigger] frontier@[j]).nodes@,
                forall|p: Seq<usize>| #[trigger] frontier_path_ok(
                    graph@,
                    start,
                    end,
                    p,
                    level + 1,
                ) ==> exists|fi: int|
                    0 <= fi < frontier@.len() && (#[trigger] frontier@[fi]).nodes@ == p,
                forall|i: int|
                    0 <= i < paths@.len() ==> result_path_ok(
                        graph@,
                        start,
                        end,
                        (#[trigger] paths@[i])@,
                    ),
                forall|i: int| 0 <= i < paths@.len() ==> (#[trigger] paths@[i])@.len() <= level
                    + 1,
                forall|i: int, j: int|
                    0 <= i <= j < paths@.len() ==> paths@[i]@.len() <= paths@[j]@.len(),
                forall|i: int, j: int|
                    0 <= i < j < paths@.len() ==> (#[trigger] paths@[i])@ != (
                    #[trigger] paths@[j])@,
                forall|p: Seq<usize>|
                    #[trigger] result_path_ok(graph@, start, end, p) && paths@.len() >= 1
                        ==> paths@[0]@.len() <= p.len(),
                forall|p: Seq<usize>|
                    #[trigger] result_path_ok(graph@, start, end, p) && p.len() <= level
                        ==> exists|i: int| 0 <= i < paths@.len() && (#[trigger] paths@[i])@ == p,
                forall|p: Seq<usize>|
                    #[trigger] result_path_ok(graph@, start, end, p) && p.len() == level + 1 && (
                    exists|j: int| 0 <= j < qi && (#[trigger] frontier@[j]).nodes@ == p) ==> exists|
                        i: int,
                    | 0 <= i < paths@.len() && (#[trigger] paths@[i])@ == p,
                forall|i: int|
                    0 <= i < paths@.len() && (#[trigger] paths@[i])@.len() == level + 1 ==> exists|
                        j: int,
                    | 0 <= j < qi && (#[trigger] frontier@[j]).nodes@ == paths@[i]@,
                forall|i: int|
                    0 <= i < next@.len() ==> search_path_ok(
                        graph@,
                        start,
                        (#[trigger] next@[i]).nodes@,
                    ) && next@[i].cost == level + 1 && next@[i].nodes@.len() == level + 2
                        && interior_avoids(next@[i].nodes@, end),
                forall|i: int, j: int|
                    0 <= i < j < next@.len() ==> (#[trigger] next@[i]).nodes@ != (
                    #[trigger] next@[j]).nodes@,
                forall|e: int|
                    0 <= e < next@.len() ==> prefix_among(
                        frontier@,
                        qi as int,
                        level as int,
                        (#[trigger] next@[e]).nodes@,
                    ),
                forall|p: Seq<usize>|
                    #[trigger] frontier_path_ok(graph@, start, end, p, level + 2) && (exists|j: int|
                        0 <= j < qi && (#[trigger] frontier@[j]).nodes@ == p.take(level + 1))
                        ==> exists|e: int|
                        0 <= e < next@.len() && (#[trigger] next@[e]).nodes@ == p,
            decreases fl - qi,
        {
            let last: usize = frontier[qi].nodes[frontier[qi].nodes.len() - 1];
            proof {
                assert(last == frontier@[qi as int].nodes@.last());
            }
            if last == end {
                collect_result(graph, start, end, level, &frontier, qi, n, &mut paths);
                proof {
                    assert forall|p: Seq<usize>|
                        #[trigger] frontier_path_ok(graph@, start, end, p, level + 2) && (exists|
                            j: int,
                        | 0 <= j < qi + 1 && (#[trigger] frontier@[j]).nodes@ == p.take(level + 1))
                        implies exists|e: int|
                        0 <= e < next@.len() && (#[trigger] next@[e]).nodes@ == p by {
                        let j = choose|j: int|
                            0 <= j < qi + 1 && (#[trigger] frontier@[j]).nodes@ == p.take(
                                level + 1,
                            );
                        if j == qi {
                            assert(p.take(level + 1).last() == p[level as int]);
                            assert(p[level as int] != end);
                            assert(frontier@[qi as int].nodes@.last() == end);
                            assert(false);
                        }
                    }
                }
            } else {
                extend_one(graph, start, end, level, &frontier, qi, &mut next);
                proof {
                    assert forall|p: Seq<usize>|
                        #[trigger] result_path_ok(graph@, start, end, p) && p.len() == level + 1
                            && (exists|j: int|
                            0 <= j < qi + 1 && (#[trigger] frontier@[j]).nodes@ == p)
                        implies exists|i: int|
                        0 <= i < paths@.len() && (#[trigger] paths@[i])@ == p by {
                        let j = choose|j: int|
                            0 <= j < qi + 1 && (#[trigger] frontier@[j]).nodes@ == p;
                        if j == qi {
                            assert(p.last() == end);
                            assert(frontier@[qi as int].nodes@.last() != end);
                            assert(false);
                        }
                    }
                    assert forall|i: int|
                        0 <= i < paths@.len() && (#[trigger] paths@[i])@.len() == level + 1
                        implies exists|j: int|
                        0 <= j < qi + 1 && (#[trigger] frontier@[j]).nodes@ == paths@[i]@ by {
                        let j = choose|j: int|
                            0 <= j < qi && (#[trigger] frontier@[j]).nodes@ == paths@[i]@;
                        assert(0 <= j < qi + 1 && frontier@[j].nodes@ == paths@[i]@);
                    }
                }
            }
            qi = qi + 1;
        }
        proof {
            if paths@.len() < n {
                assert(qi == fl);
                lemma_level_rollover(graph@, start, end, level, frontier@, next@, paths@);
            }
        }
        frontier = next;
        level = level + 1;
        proof {
            if paths@.len() < n {
                assert forall|p: Seq<usize>| #[trigger] frontier_path_ok(
                    graph@,
                    start,
                    end,
                    p,
                    level + 1,
                ) implies exists|fi: int|
                    0 <= fi < frontier@.len() && (#[trigger] frontier@[fi]).nodes@ == p by {
                    assert(frontier_path_ok(graph@, start, end, p, (level - 1) + 2));
                }
                assert forall|p: Seq<usize>|
                    #[trigger] result_path_ok(graph@, start, end, p) && p.len() <= level
                    implies exists|i: int|
                    0 <= i < paths@.len() && (#[trigger] paths@[i])@ == p by {
                    assert(p.len() <= (level - 1) + 1);
                }
            }
        }
    }
    proof {
        if paths@.len() < n {
            assert forall|p: Seq<usize>| #[trigger] result_path_ok(
                graph@,
                start,
                end,
                p,
            ) implies exists|i: int| 0 <= i < paths@.len() && (#[trigger] paths@[i])@ == p by {
                if p.len() > level {
                    lemma_result_is_frontier_path(graph@, start, end, p);
                    if level >= vmax {
                        lemma_simple_path_len(graph@, p);
                        assert(false);
                    } else {
                        assert(frontier@.len() == 0);
                        lemma_prefix_frontier_path(graph@, start, end, p, level + 1);
                        assert(frontier_path_ok(
                            graph@,
                            start,
                            end,
                            p.take(level + 1),
                            level + 1,
                        ));
                        assert(false);
                    }
                }
            }
        }
        if n >= 1 && (exists|p: Seq<usize>| #[trigger] result_path_ok(graph@, start, end, p)) {
            if paths@.len() == 0 {
                let p = choose|p: Seq<usize>| #[trigger] result_path_ok(graph@, start, end, p);
                assert(exists|i: int| 0 <= i < paths@.len() && (#[trigger] paths@[i])@ == p);
                assert(false);
            }
        }
    }
    paths
}

} // verus!
