//! The coloring engine: a smallest-last elimination ordering followed by
//! greedy color assignment.
//!
//! [`Graph::minimal_coloring`] eliminates nodes one by one, always picking a
//! node with fewer than `k` still-alive neighbors and raising `k` only when
//! no such node is left; popping the elimination stack then greedily assigns
//! each node the smallest color not taken by the neighbors it had at
//! elimination time.  Every node meets fewer than `k` already-colored
//! neighbors that way, so `k` colors always suffice.

use vstd::prelude::*;
use vstd::set_lib::{lemma_len_subset, lemma_len_intersect, lemma_map_size, set_int_range,
    lemma_int_range};
use vstd::relations::injective_on;
use tindex::TBitSet;
use crate::bits::{bits_of, bits_new, bits_add, bits_remove, bits_count, bits_clone, bits_to_vec};
use crate::graph::{Graph, node_ok, lemma_graph_view};

verus! {

broadcast use vstd::set::axiom_set_insert_len, vstd::set::axiom_set_remove_len, vstd::set::axiom_set_empty_len;

/// A valid coloring for a given graph.
pub struct Coloring {
    /// The amount of unique colors needed.
    pub k: usize,
    /// The color of each node, inside of the range `0..k`.
    pub nodes: Vec<usize>,
}

/// The set of node indices strictly below `n`.
pub open spec fn below(n: int) -> Set<usize> {
    Set::new(|x: usize| (x as int) < n)
}

/// `colors` is a proper coloring of `adj` with colors drawn from `0..k`:
/// one color per node, and neighbors never share a color.
pub open spec fn proper_coloring(adj: Seq<Set<usize>>, k: usize, colors: Seq<usize>) -> bool {
    &&& colors.len() == adj.len()
    &&& forall|i: int| 0 <= i < colors.len() ==> (#[trigger] colors[i]) < k
    &&& forall|i: usize, x: usize| i < adj.len() && #[trigger] adj[i as int].contains(x)
        ==> colors[i as int] != colors[x as int]
}

/// `below(n)` is a finite set of exactly `n` indices.
proof fn lemma_below(n: int)
    requires
        0 <= n <= usize::MAX,
    ensures
        below(n).finite(),
        below(n).len() == n,
    decreases n,
{
    if n == 0 {
        assert(below(0) =~= Set::<usize>::empty());
    } else {
        lemma_below(n - 1);
        assert(below(n) =~= below(n - 1).insert((n - 1) as usize));
    }
}

/// A set of indices below `n` that misses the index `m < n` holds fewer
/// than `n` elements.
proof fn lemma_bounded_len_without(s: Set<usize>, m: usize, n: int)
    requires
        0 <= n <= usize::MAX,
        forall|x: usize| #[trigger] s.contains(x) ==> (x as int) < n,
        !s.contains(m),
        (m as int) < n,
    ensures
        s.finite(),
        s.len() < n,
{
    lemma_below(n);
    assert(s.subset_of(below(n).remove(m)));
    lemma_len_subset(s, below(n).remove(m));
}

/// What phase 1 maintains for the stack entry at position `t`: the entry is
/// a valid node whose working adjacency holds exactly its original neighbors
/// among the nodes still alive or eliminated after it, and fewer than `k` of
/// them.
spec fn stack_entry_ok(
    orig: Seq<Set<usize>>,
    gseq: Seq<TBitSet<usize>>,
    st: Seq<usize>,
    aset: Set<usize>,
    k: usize,
    t: int,
) -> bool {
    &&& st[t] < orig.len()
    &&& bits_of(gseq[st[t] as int]) == orig[st[t] as int].intersect(
        aset.union(st.skip(t + 1).to_set()),
    )
    &&& bits_of(gseq[st[t] as int]).len() < k
}

/// The invariant of the elimination loop of phase 1.
spec fn phase1_inv(
    orig: Seq<Set<usize>>,
    gseq: Seq<TBitSet<usize>>,
    st: Seq<usize>,
    aset: Set<usize>,
    k: usize,
) -> bool {
    let n = orig.len();
    &&& gseq.len() == n
    &&& aset.finite()
    &&& forall|x: usize| #[trigger] aset.contains(x) ==> x < n
    &&& forall|x: usize| x < n ==> (#[trigger] aset.contains(x) <==> !st.contains(x))
    &&& st.no_duplicates()
    &&& forall|i: int| 0 <= i < gseq.len() ==> bits_of(#[trigger] gseq[i]).finite()
    &&& forall|m: usize| #[trigger] aset.contains(m) ==> bits_of(gseq[m as int])
        == orig[m as int].intersect(aset)
    &&& forall|t: int| 0 <= t < st.len() ==> #[trigger] stack_entry_ok(orig, gseq, st, aset, k, t)
    &&& k <= n
    &&& (k == 0 || exists|m: usize| m < n && k <= (#[trigger] orig[m as int]).len() + 1)
    &&& ((forall|i: int| 0 <= i < n ==> (#[trigger] orig[i]).is_empty()) ==> k <= 1)
    &&& (st.len() > 0 ==> k >= 1)
}

/// Whether some alive node could be eliminated at threshold `k`.
spec fn has_low_degree(gseq: Seq<TBitSet<usize>>, aset: Set<usize>, k: usize) -> bool {
    exists|m: usize| #[trigger] aset.contains(m) && bits_of(gseq[m as int]).len() < k
}

/// Second component of the termination measure of the elimination loop: a
/// round that only raises `k` makes some node eliminable.
spec fn stalled(gseq: Seq<TBitSet<usize>>, aset: Set<usize>, k: usize) -> int {
    if has_low_degree(gseq, aset, k) {
        0
    } else {
        1
    }
}

/// Second component of the termination measure of the scan loop: finding a
/// node ends the scan.
spec fn scan_bonus(o: Option<usize>) -> int {
    if o is None {
        1
    } else {
        0
    }
}

impl Graph {
    /// Computes the minimal coloring for this graph.
    ///
    /// As this method uses a heuristic approach, the actual minimum may be
    /// lower.  The result is always a proper coloring; it uses at most
    /// `self@.len()` colors, and at most one more than the degree of some
    /// node.  The empty graph needs no color, and a graph without edges
    /// needs exactly one.
    #[verifier::loop_isolation(false)]
    pub fn minimal_coloring(&self) -> (c: Coloring)
        requires
            self.wf(),
            self@.len() < usize::MAX,
        ensures
            c.nodes@.len() == self@.len(),
            proper_coloring(self@, c.k, c.nodes@),
            c.k <= self@.len(),
            self@.len() == 0 ==> c.k == 0,
            self@.len() > 0 ==> exists|m: usize| m < self@.len()
                && c.k <= (#[trigger] self@[m as int]).len() + 1,
            (self@.len() > 0 && (forall|i: int| 0 <= i < self@.len()
                ==> (#[trigger] self@[i]).is_empty())) ==> c.k == 1,
    {
        self.check_invariants();
        let ghost orig = self@;
        proof {
            lemma_graph_view(self);
        }
        let n = self.nodes.len();
        let mut k: usize = 0;
        // all popped nodes
        let mut stack: Vec<usize> = Vec::new();
        // The modified graph: an independent deep copy of the adjacency
        // sets.  Alive nodes only connect to other alive nodes here; this
        // copy does not keep the invariants of `Graph`.
        let mut graph: Vec<TBitSet<usize>> = Vec::new();
        let mut i: usize = 0;
        while i < n
            invariant
                i <= n,
                graph@.len() == i,
                forall|t: int| 0 <= t < i ==> bits_of(#[trigger] graph@[t]) == orig[t],
            decreases n - i,
        {
            graph.push(bits_clone(&self.nodes[i]));
            i = i + 1;
        }
        let mut alive: TBitSet<usize> = bits_new();
        let mut j: usize = 0;
        while j < n
            invariant
                j <= n,
                bits_of(alive) == below(j as int),
            decreases n - j,
        {
            bits_add(&mut alive, j);
            proof {
                assert(below(j as int).insert(j) =~= below(j + 1 as int));
            }
            j = j + 1;
        }
        let mut alive_count: usize = n;
        proof {
            lemma_below(n as int);
            assert forall|m: usize| bits_of(alive).contains(m) implies bits_of(
                graph@[m as int],
            ) == orig[m as int].intersect(bits_of(alive)) by {
                assert(node_ok(orig, m));
                assert(orig[m as int].intersect(bits_of(alive)) =~= orig[m as int]);
            }
            assert forall|i2: int| 0 <= i2 < n implies bits_of(#[trigger] graph@[i2]).finite() by {
                assert(node_ok(orig, i2 as usize));
                assert(bits_of(graph@[i2]) == orig[i2]);
            }
            assert forall|x: usize| x < n implies (bits_of(alive).contains(x)
                <==> !stack@.contains(x)) by {
                assert(stack@.len() == 0);
                assert(!stack@.contains(x));
            }
            assert(phase1_inv(orig, graph@, stack@, bits_of(alive), k));
        }

        // Remove the first node with less than `k` alive neighbors until the
        // graph is empty.  In case no such node exists, raise `k` to one more
        // than the current minimum degree.
        while alive_count > 0
            invariant
                phase1_inv(orig, graph@, stack@, bits_of(alive), k),
                alive_count == bits_of(alive).len(),
            decreases alive_count, stalled(graph@, bits_of(alive), k),
        {
            let order = bits_to_vec(&alive);
            let mut found: Option<usize> = None;
            let mut min_k: usize = usize::MAX;
            let mut idx: usize = 0;
            while idx < order.len() && found.is_none()
                invariant
                    idx <= order@.len(),
                    found is None ==> forall|t: int| 0 <= t < idx
                        ==> bits_of(graph@[#[trigger] order@[t] as int]).len() >= k,
                    found is None ==> forall|t: int| 0 <= t < idx
                        ==> min_k <= bits_of(graph@[#[trigger] order@[t] as int]).len() + 1,
                    found is None ==> (min_k == usize::MAX || exists|t: int| 0 <= t < idx
                        && min_k == bits_of(graph@[#[trigger] order@[t] as int]).len() + 1),
                    found matches Some(m) ==> bits_of(alive).contains(m)
                        && bits_of(graph@[m as int]).len() < k,
                decreases order@.len() - idx + scan_bonus(found),
            {
                let node = order[idx];
                proof {
                    assert(bits_of(alive).contains(node));
                }
                let connected = bits_count(&graph[node]);
                if connected < k {
                    found = Some(node);
                } else {
                    proof {
                        assert(node_ok(orig, node));
                        assert(bits_of(graph@[node as int]) == orig[node as int].intersect(
                            bits_of(alive),
                        ));
                        lemma_bounded_len_without(bits_of(graph@[node as int]), node, n as int);
                    }
                    if connected + 1 < min_k {
                        min_k = connected + 1;
                    }
                    idx = idx + 1;
                }
            }
            match found {
                Some(node) => {
                    let ghost a0 = bits_of(alive);
                    let ghost st0 = stack@;
                    bits_remove(&mut alive, node);
                    alive_count = alive_count - 1;
                    stack.push(node);
                    let ghost a1 = bits_of(alive);
                    let ghost g0 = graph@;
                    let rest = bits_to_vec(&alive);
                    let mut j2: usize = 0;
                    while j2 < rest.len()
                        invariant
                            j2 <= rest@.len(),
                            graph@.len() == n,
                            forall|i2: int| 0 <= i2 < graph@.len()
                                ==> bits_of(#[trigger] graph@[i2]).finite(),
                            forall|t: int| 0 <= t < j2 ==> bits_of(
                                graph@[#[trigger] rest@[t] as int],
                            ) == bits_of(g0[rest@[t] as int]).remove(node),
                            forall|i2: int| 0 <= i2 < n ==> (#[trigger] graph@[i2]) == g0[i2]
                                || exists|t: int| 0 <= t < j2 && rest@[t] == i2,
                        decreases rest@.len() - j2,
                    {
                        let other = rest[j2];
                        proof {
                            assert(a1.contains(other));
                            assert forall|t: int| 0 <= t < j2 implies rest@[t] != other by {
                                assert(rest@[t] < rest@[j2 as int]);
                            }
                            assert(graph@[other as int] == g0[other as int]);
                        }
                        bits_remove(&mut graph[other], node);
                        j2 = j2 + 1;
                    }
                    proof {
                        assert(node_ok(orig, node));
                        lemma_eliminate(orig, g0, graph@, st0, a0, rest@, node, k);
                    }
                }
                None => {
                    proof {
                        assert(idx == order@.len());
                        // every alive node appears in the scan order
                        assert forall|m: usize| bits_of(alive).contains(m) implies bits_of(
                            graph@[m as int],
                        ).len() >= k by {
                            assert(order@.contains(m));
                            let t = choose|t: int| 0 <= t < order@.len() && order@[t] == m;
                            assert(bits_of(graph@[order@[t] as int]).len() >= k);
                        }
                        assert(!has_low_degree(graph@, bits_of(alive), k));
                        // the alive set is not empty, so the scan saw a node
                        if order.len() == 0 {
                            assert forall|x: usize| !bits_of(alive).contains(x) by {
                                if bits_of(alive).contains(x) {
                                    assert(order@.contains(x));
                                }
                            }
                            assert(bits_of(alive) =~= Set::<usize>::empty());
                            assert(false);
                        }
                        let m0 = order@[0];
                        assert(bits_of(alive).contains(m0));
                        assert(node_ok(orig, m0));
                        assert(bits_of(graph@[m0 as int]) == orig[m0 as int].intersect(
                            bits_of(alive),
                        ));
                        lemma_bounded_len_without(bits_of(graph@[m0 as int]), m0, n as int);
                        assert(min_k <= bits_of(graph@[m0 as int]).len() + 1);
                        assert(min_k <= n);
                        // the minimum was attained by some alive node
                        let tm = choose|tm: int| 0 <= tm < idx && min_k == bits_of(
                            graph@[order@[tm] as int],
                        ).len() + 1;
                        let m = order@[tm];
                        assert(bits_of(alive).contains(m));
                        assert(node_ok(orig, m));
                        assert(bits_of(graph@[m as int]) == orig[m as int].intersect(
                            bits_of(alive),
                        ));
                        lemma_len_intersect(orig[m as int], bits_of(alive));
                        assert(min_k <= orig[m as int].len() + 1);
                        if forall|i2: int| 0 <= i2 < n ==> (#[trigger] orig[i2]).is_empty() {
                            assert(orig[m as int].intersect(bits_of(alive))
                                =~= Set::<usize>::empty());
                            assert(min_k == 1);
                        }
                        assert(min_k >= k + 1);
                        assert(bits_of(graph@[m as int]).len() < min_k);
                        assert(has_low_degree(graph@, bits_of(alive), min_k));
                        assert forall|t: int| 0 <= t < stack@.len() implies
                            #[trigger] stack_entry_ok(
                            orig,
                            graph@,
                            stack@,
                            bits_of(alive),
                            min_k,
                            t,
                        ) by {
                            assert(stack_entry_ok(orig, graph@, stack@, bits_of(alive), k, t));
                        }
                    }
                    k = min_k;
                }
            }
        }

        // Phase 2: pop the elimination stack and greedily assign each node
        // the smallest color its working-graph neighbors have not taken.
        let ghost s0 = stack@;
        proof {
            bits_of(alive).lemma_len0_is_empty();
            assert forall|x: usize| x < n implies s0.contains(x) by {
                assert(!bits_of(alive).contains(x));
            }
            assert(s0 =~= s0.subrange(0, s0.len() as int));
            assert forall|t: int| 0 <= t < s0.len() implies #[trigger] stack_entry_ok(
                orig,
                graph@,
                s0,
                Set::<usize>::empty(),
                k,
                t,
            ) by {
                assert(stack_entry_ok(orig, graph@, s0, bits_of(alive), k, t));
            }
        }
        let mut colors: Vec<usize> = Vec::new();
        let mut j3: usize = 0;
        while j3 < n
            invariant
                j3 <= n,
                colors@.len() == j3,
            decreases n - j3,
        {
            colors.push(usize::MAX);
            j3 = j3 + 1;
        }
        while stack.len() > 0
            invariant
                stack@.len() <= s0.len(),
                stack@ == s0.subrange(0, stack@.len() as int),
                colors@.len() == n,
                forall|t: int| stack@.len() <= t < s0.len()
                    ==> colors@[#[trigger] s0[t] as int] < k,
                forall|t: int, x: usize| stack@.len() <= t < s0.len()
                    && #[trigger] bits_of(graph@[s0[t] as int]).contains(x)
                    ==> colors@[s0[t] as int] != colors@[x as int],
            decreases stack@.len(),
        {
            let ghost stb = stack@;
            let node = stack.pop().unwrap();
            let ghost t0 = stack@.len() as int;
            proof {
                assert(stb == s0.subrange(0, t0 + 1));
                assert(node == s0[t0]);
                assert(stack@ =~= s0.subrange(0, t0));
                assert(stack_entry_ok(orig, graph@, s0, Set::<usize>::empty(), k, t0));
                assert(node < n);
            }
            // the colors still open for `node`: all of `0..k` minus those of
            // its working-graph neighbors, which are all already colored
            let mut allowed: TBitSet<usize> = bits_new();
            let mut c0: usize = 0;
            while c0 < k
                invariant
                    c0 <= k,
                    bits_of(allowed) == below(c0 as int),
                decreases k - c0,
            {
                bits_add(&mut allowed, c0);
                proof {
                    assert(below(c0 as int).insert(c0) =~= below(c0 + 1 as int));
                }
                c0 = c0 + 1;
            }
            proof {
                lemma_below(k as int);
            }
            let nbrs = bits_to_vec(&graph[node]);
            let ghost w = bits_of(graph@[node as int]);
            proof {
                assert forall|t: int, u: int| 0 <= t < u < nbrs@.len() implies nbrs@[t]
                    != nbrs@[u] by {}
                nbrs@.unique_seq_to_set();
                assert(nbrs@.to_set() =~= w);
                assert(nbrs@.len() == w.len());
                assert(nbrs@.len() < k);
            }
            let mut j4: usize = 0;
            while j4 < nbrs.len()
                invariant
                    j4 <= nbrs@.len(),
                    bits_of(allowed).finite(),
                    forall|y: usize| #[trigger] bits_of(allowed).contains(y) ==> y < k,
                    bits_of(allowed).len() + j4 >= k,
                    forall|t: int| 0 <= t < j4 ==> !bits_of(allowed).contains(
                        colors@[#[trigger] nbrs@[t] as int],
                    ),
                decreases nbrs@.len() - j4,
            {
                let x = nbrs[j4];
                proof {
                    assert(w.contains(x));
                    lemma_popped_neighbor(orig, graph@, s0, k, t0, x);
                    assert(node_ok(orig, node));
                    assert(orig[node as int].contains(x));
                    assert(x < n);
                }
                let cx = colors[x];
                bits_remove(&mut allowed, cx);
                j4 = j4 + 1;
            }
            let free = bits_to_vec(&allowed);
            proof {
                assert(bits_of(allowed).len() > 0);
                if free.len() == 0 {
                    assert forall|y: usize| !bits_of(allowed).contains(y) by {
                        if bits_of(allowed).contains(y) {
                            assert(free@.contains(y));
                        }
                    }
                    assert(bits_of(allowed) =~= Set::<usize>::empty());
                    assert(false);
                }
            }
            let color = free[0];
            let ghost cold = colors@;
            colors[node] = color;
            proof {
                assert(bits_of(allowed).contains(color));
                assert(color < k);
                assert(colors@ == cold.update(node as int, color));
                assert(s0.no_duplicates());
                assert(node_ok(orig, node));
                // all assigned colors stay below `k`
                assert forall|t: int| stack@.len() <= t < s0.len() implies colors@[#[trigger] s0[t]
                    as int] < k by {
                    assert(stack_entry_ok(orig, graph@, s0, Set::<usize>::empty(), k, t));
                    if t == t0 {
                        assert(colors@[s0[t] as int] == color);
                    } else {
                        assert(s0[t] != s0[t0]);
                        assert(colors@[s0[t] as int] == cold[s0[t] as int]);
                    }
                }
                // the new node's neighbors all keep their colors, which the
                // free set excluded
                assert forall|x: usize| #[trigger] w.contains(x) implies colors@[node as int]
                    != colors@[x as int] by {
                    lemma_popped_neighbor(orig, graph@, s0, k, t0, x);
                    assert(orig[node as int].contains(x));
                    assert(x < n);
                    let u = choose|u: int| t0 < u < s0.len() && s0[u] == x;
                    assert(x != node);
                    assert(colors@[x as int] == cold[x as int]);
                    assert(nbrs@.to_set().contains(x));
                    let tn = choose|tn: int| 0 <= tn < nbrs@.len() && nbrs@[tn] == x;
                    assert(!bits_of(allowed).contains(cold[nbrs@[tn] as int]));
                }
                // earlier assignments are untouched
                assert forall|t: int, x: usize| stack@.len() <= t < s0.len()
                    && #[trigger] bits_of(graph@[s0[t] as int]).contains(x) implies
                    colors@[s0[t] as int] != colors@[x as int] by {
                    if t > t0 {
                        assert(stack_entry_ok(orig, graph@, s0, Set::<usize>::empty(), k, t));
                        assert(node_ok(orig, s0[t]));
                        lemma_popped_neighbor(orig, graph@, s0, k, t, x);
                        assert(orig[s0[t] as int].contains(x));
                        assert(x < n);
                        let u = choose|u: int| t < u < s0.len() && s0[u] == x;
                        assert(s0[t] != s0[t0]);
                        assert(s0[u] != s0[t0]);
                        assert(x != node);
                        assert(colors@[s0[t] as int] == cold[s0[t] as int]);
                        assert(colors@[x as int] == cold[x as int]);
                    }
                }
            }
        }
        proof {
            assert forall|i2: usize, x: usize| i2 < n && #[trigger] orig[i2 as int].contains(x)
                implies colors@[i2 as int] != colors@[x as int] by {
                assert(node_ok(orig, i2));
                assert(x < n);
                assert(s0.contains(i2));
                assert(s0.contains(x));
                let t = choose|t: int| 0 <= t < s0.len() && s0[t] == i2;
                let u = choose|u: int| 0 <= u < s0.len() && s0[u] == x;
                assert(x != i2);
                if t < u {
                    lemma_skip_contains(s0, t + 1, u);
                    assert(stack_entry_ok(orig, graph@, s0, Set::<usize>::empty(), k, t));
                    assert(bits_of(graph@[s0[t] as int]).contains(x));
                } else {
                    assert(node_ok(orig, x));
                    assert(orig[x as int].contains(i2));
                    lemma_skip_contains(s0, u + 1, t);
                    assert(stack_entry_ok(orig, graph@, s0, Set::<usize>::empty(), k, u));
                    assert(bits_of(graph@[s0[u] as int]).contains(i2));
                }
            }
            assert forall|i2: int| 0 <= i2 < n implies (#[trigger] colors@[i2]) < k by {
                assert(s0.contains(i2 as usize));
                let t = choose|t: int| 0 <= t < s0.len() && s0[t] == i2 as usize;
            }
            if n > 0 {
                assert(s0.contains(0usize));
                assert(s0.len() > 0);
                assert(k >= 1);
            }
        }
        Coloring { k, nodes: colors }
    }
}

/// At the time a stack entry was eliminated, all of its remaining working
/// neighbors were nodes eliminated after it: popping in reverse order meets
/// them already colored.
proof fn lemma_popped_neighbor(
    orig: Seq<Set<usize>>,
    gfin: Seq<TBitSet<usize>>,
    s0: Seq<usize>,
    k: usize,
    t: int,
    x: usize,
)
    requires
        0 <= t < s0.len(),
        stack_entry_ok(orig, gfin, s0, Set::<usize>::empty(), k, t),
        bits_of(gfin[s0[t] as int]).contains(x),
    ensures
        orig[s0[t] as int].contains(x),
        exists|u: int| t < u < s0.len() && s0[u] == x,
{
    let sk = s0.skip(t + 1);
    assert(Set::<usize>::empty().union(sk.to_set()) =~= sk.to_set());
    assert(sk.to_set().contains(x));
    assert(sk.contains(x));
    let u0 = choose|u0: int| 0 <= u0 < sk.len() && sk[u0] == x;
    assert(s0[t + 1 + u0] == x);
}

/// An element of `s.skip(p)` is an element of `s` at or after position `p`.
proof fn lemma_skip_contains(s: Seq<usize>, p: int, u: int)
    requires
        0 <= p <= u < s.len(),
    ensures
        s.skip(p).to_set().contains(s[u]),
{
    assert(s.skip(p)[u - p] == s[u]);
    assert(s.skip(p).contains(s[u]));
}

/// Eliminating one alive low-degree node preserves the phase 1 invariant.
proof fn lemma_eliminate(
    orig: Seq<Set<usize>>,
    g0: Seq<TBitSet<usize>>,
    g1: Seq<TBitSet<usize>>,
    st0: Seq<usize>,
    a0: Set<usize>,
    rest: Seq<usize>,
    node: usize,
    k: usize,
)
    requires
        phase1_inv(orig, g0, st0, a0, k),
        a0.contains(node),
        !orig[node as int].contains(node),
        bits_of(g0[node as int]).len() < k,
        g1.len() == orig.len(),
        forall|t: int| 0 <= t < rest.len() ==> a0.remove(node).contains(#[trigger] rest[t]),
        forall|x: usize| a0.remove(node).contains(x) ==> rest.contains(x),
        forall|t: int| 0 <= t < rest.len() ==> bits_of(g1[#[trigger] rest[t] as int])
            == bits_of(g0[rest[t] as int]).remove(node),
        forall|i2: int| 0 <= i2 < orig.len() ==> (#[trigger] g1[i2]) == g0[i2]
            || exists|t: int| 0 <= t < rest.len() && rest[t] == i2,
        forall|i2: int| 0 <= i2 < g1.len() ==> bits_of(#[trigger] g1[i2]).finite(),
    ensures
        phase1_inv(orig, g1, st0.push(node), a0.remove(node), k),
{
    let n = orig.len();
    let a1 = a0.remove(node);
    let st1 = st0.push(node);
    assert(node < n);
    // untouched entries: anything outside the new alive set
    assert forall|m: usize| m < n && !a1.contains(m) implies (#[trigger] g1[m as int])
        == g0[m as int] by {
        if g1[m as int] != g0[m as int] {
            let t = choose|t: int| 0 <= t < rest.len() && rest[t] == m as int;
            assert(a1.contains(rest[t]));
        }
    }
    // partition
    assert forall|x: usize| x < n implies (#[trigger] a1.contains(x) <==> !st1.contains(x)) by {
        assert(st1[st0.len() as int] == node);
        if x == node {
            assert(st1.contains(node));
        } else {
            if st1.contains(x) {
                let u = choose|u: int| 0 <= u < st1.len() && st1[u] == x;
                assert(u < st0.len());
                assert(st0[u] == x);
                assert(st0.contains(x));
            }
            if st0.contains(x) {
                let u = choose|u: int| 0 <= u < st0.len() && st0[u] == x;
                assert(st1[u] == x);
                assert(st1.contains(x));
            }
        }
    }
    // no duplicates
    assert(!st0.contains(node));
    assert forall|p: int, q: int| 0 <= p < q < st1.len() implies st1[p] != st1[q] by {
        if q < st0.len() {
        } else {
            assert(st1[q] == node);
            assert(st0[p] == st1[p]);
            assert(st0.contains(st1[p]));
        }
    }
    // alive entries of the working graph
    assert forall|m: usize| #[trigger] a1.contains(m) implies bits_of(g1[m as int])
        == orig[m as int].intersect(a1) by {
        assert(rest.contains(m));
        let t = choose|t: int| 0 <= t < rest.len() && rest[t] == m;
        assert(bits_of(g1[m as int]) == bits_of(g0[m as int]).remove(node));
        assert(bits_of(g0[m as int]) == orig[m as int].intersect(a0));
        assert(orig[m as int].intersect(a0).remove(node) =~= orig[m as int].intersect(a1));
    }
    // stack entries, old and new
    assert forall|t: int| 0 <= t < st1.len() implies #[trigger] stack_entry_ok(
        orig,
        g1,
        st1,
        a1,
        k,
        t,
    ) by {
        if t < st0.len() {
            assert(stack_entry_ok(orig, g0, st0, a0, k, t));
            let m = st0[t];
            assert(!a0.contains(m));
            assert(!a1.contains(m));
            assert(g1[m as int] == g0[m as int]);
            assert(st1.skip(t + 1) =~= st0.skip(t + 1).push(node));
            assert(st1.skip(t + 1).to_set() =~= st0.skip(t + 1).to_set().insert(node)) by {
                let skn = st1.skip(t + 1);
                let sko = st0.skip(t + 1);
                assert(skn =~= sko.push(node));
                assert forall|y: usize| skn.to_set().contains(y) implies sko.to_set().insert(
                    node,
                ).contains(y) by {
                    let u = choose|u: int| 0 <= u < skn.len() && skn[u] == y;
                    if u < sko.len() {
                        assert(sko[u] == y);
                        assert(sko.contains(y));
                    }
                }
                assert forall|y: usize| sko.to_set().insert(node).contains(y) implies
                    skn.to_set().contains(y) by {
                    if y == node {
                        assert(skn[sko.len() as int] == node);
                        assert(skn.contains(node));
                    } else {
                        let u = choose|u: int| 0 <= u < sko.len() && sko[u] == y;
                        assert(skn[u] == y);
                        assert(skn.contains(y));
                    }
                }
            }
            assert(a1.union(st1.skip(t + 1).to_set()) =~= a0.union(st0.skip(t + 1).to_set()));
        } else {
            assert(t == st0.len());
            assert(st1[t] == node);
            assert(g1[node as int] == g0[node as int]);
            assert(st1.skip(t + 1) =~= Seq::<usize>::empty());
            assert(st1.skip(t + 1).to_set() =~= Set::<usize>::empty());
            assert(bits_of(g0[node as int]) == orig[node as int].intersect(a0));
            assert(orig[node as int].intersect(a0) =~= orig[node as int].intersect(
                a1.union(st1.skip(t + 1).to_set()),
            ));
        }
    }
    assert(st1.len() > 0 ==> k >= 1);
}

/// On a complete graph — every two distinct nodes adjacent — a proper
/// coloring that uses at most as many colors as there are nodes must give
/// all nodes pairwise distinct colors, and therefore uses exactly one color
/// per node: `k` equals the node count.
pub proof fn lemma_complete_graph_coloring(adj: Seq<Set<usize>>, k: usize, colors: Seq<usize>)
    requires
        proper_coloring(adj, k, colors),
        k <= adj.len(),
        adj.len() <= usize::MAX,
        forall|i: usize, x: usize| i < adj.len() && x < adj.len() && i != x
            ==> #[trigger] adj[i as int].contains(x),
    ensures
        k == adj.len(),
        forall|i: int, x: int| 0 <= i < colors.len() && 0 <= x < colors.len() && i != x
            ==> colors[i] != colors[x],
{
    let n = adj.len() as int;
    assert forall|i: int, x: int| 0 <= i < colors.len() && 0 <= x < colors.len() && i != x
        implies colors[i] != colors[x] by {
        assert(adj[i].contains((x as usize)));
    }
    let f = |i: int| colors[i];
    let dom = set_int_range(0, n);
    lemma_int_range(0, n);
    assert(injective_on(f, dom));
    let img = dom.map(f);
    lemma_map_size(dom, img, f);
    assert forall|y: usize| #[trigger] img.contains(y) implies (y as int) < k by {
        let i = choose|i: int| dom.contains(i) && f(i) == y;
    }
    lemma_below(k as int);
    lemma_len_subset(img, below(k as int));
}

} // verus!

