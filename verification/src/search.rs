//! The candidate-growth search: breadth-first expansion of partial mappings
//! from a motif graph into a host graph.
//!
//! The exposed surface is `find_motifs`, which returns every edge-preserving
//! complete mapping of motif nodes to host nodes. Its contract pins the
//! result set exactly: sound (every returned mapping is complete and
//! edge-preserving) and complete (every such mapping is returned); an error
//! is returned only when the motif is not weakly connected.

use vstd::prelude::*;
use vstd::set_lib::lemma_len_subset;

use petgraph::graphmap::DiGraphMap;

use crate::graph::graph_edges;
use crate::graph::graph_edge_list;
use crate::graph::graph_has_edge;
use crate::graph::graph_in_neighbors;
use crate::graph::graph_node_count;
use crate::graph::graph_node_list;
use crate::graph::graph_nodes;
use crate::graph::graph_out_neighbors;
use crate::mapping::Mapping;

verus! {

/// The search failed fatally: its one fatal class that survives
/// verification, a motif that is not a single weakly connected component.
/// `node` is the motif node whose selection found no bound neighbor.
#[derive(Clone, Copy, Debug, PartialEq, Eq)]
pub enum MotifError {
    DisconnectedMotif { node: u64 },
}

/// Two nodes are linked if the edge set holds an edge between them in
/// either direction.
pub open spec fn linked(me: Set<(u64, u64)>, a: u64, b: u64) -> bool {
    me.contains((a, b)) || me.contains((b, a))
}

/// A candidate mapping in flight: its domain lies in the motif's nodes, its
/// range in the host's, and every non-loop motif edge between two bound
/// nodes has a host edge between their images. Self-loop edges are only
/// examined by the final completeness filter, as the expansion step binds a
/// node before any of its own loops can be required.
pub open spec fn is_valid_mapping(
    mn: Set<u64>,
    me: Set<(u64, u64)>,
    hn: Set<u64>,
    he: Set<(u64, u64)>,
    m: Map<u64, u64>,
) -> bool {
    &&& m.dom().subset_of(mn)
    &&& forall|u: u64| #[trigger] m.dom().contains(u) ==> hn.contains(m[u])
    &&& forall|u: u64, v: u64|
        #[trigger] me.contains((u, v)) && u != v && m.dom().contains(u) && m.dom().contains(v)
            ==> he.contains((m[u], m[v]))
}

/// A finished result: every motif node is bound, every image is a host
/// node, and every motif edge, self-loops included, is carried to a host
/// edge between the images of its endpoints.
pub open spec fn is_complete_mapping(
    mn: Set<u64>,
    me: Set<(u64, u64)>,
    hn: Set<u64>,
    he: Set<(u64, u64)>,
    m: Map<u64, u64>,
) -> bool {
    &&& m.dom() == mn
    &&& forall|u: u64| #[trigger] m.dom().contains(u) ==> hn.contains(m[u])
    &&& forall|u: u64, v: u64| #[trigger] me.contains((u, v)) ==> he.contains((m[u], m[v]))
}

/// How many of the bound motif nodes in `keys` are linked to `n`.
pub open spec fn adjacent_count(me: Set<(u64, u64)>, keys: Seq<u64>, n: u64) -> nat
    decreases keys.len(),
{
    if keys.len() == 0 {
        0
    } else {
        adjacent_count(me, keys.drop_last(), n) + if linked(me, n, keys.last()) {
            1nat
        } else {
            0nat
        }
    }
}

/// The motif node bound next, given the motif's nodes in insertion order
/// and the keys bound so far: the first unbound node whose count of bound
/// linked nodes is maximal (a later node wins only by a strictly greater
/// count). `None` only when every motif node is bound.
pub open spec fn chosen_node(mnodes: Seq<u64>, me: Set<(u64, u64)>, keys: Seq<u64>) -> Option<
    u64,
>
    decreases mnodes.len(),
{
    if mnodes.len() == 0 {
        None
    } else {
        let rest = chosen_node(mnodes.drop_last(), me, keys);
        let last = mnodes.last();
        if keys.contains(last) {
            rest
        } else {
            match rest {
                None => Some(last),
                Some(b) => if adjacent_count(me, keys, last) > adjacent_count(me, keys, b) {
                    Some(last)
                } else {
                    Some(b)
                },
            }
        }
    }
}

/// No edge, in either direction, runs between `part` and `rest`.
pub open spec fn separated(me: Set<(u64, u64)>, part: Set<u64>, rest: Set<u64>) -> bool {
    forall|a: u64, b: u64|
        #[trigger] part.contains(a) && #[trigger] rest.contains(b) ==> !linked(me, a, b)
}

/// A directed graph is weakly connected when no nonempty proper subset of
/// its nodes is separated from the remainder.
pub open spec fn weakly_connected(mn: Set<u64>, me: Set<(u64, u64)>) -> bool {
    forall|part: Set<u64>|
        #[trigger] part.subset_of(mn) && (exists|x: u64| part.contains(x)) && (exists|y: u64|
            mn.contains(y) && !part.contains(y)) ==> !separated(me, part, mn.difference(part))
}

/// A node's bound-neighbor count is zero exactly when it is linked to no
/// bound key.
proof fn lemma_adjacent_count_zero(me: Set<(u64, u64)>, keys: Seq<u64>, n: u64)
    ensures
        (adjacent_count(me, keys, n) == 0) <==> (forall|j: int|
            0 <= j < keys.len() ==> !linked(me, n, #[trigger] keys[j])),
    decreases keys.len(),
{
    if keys.len() > 0 {
        lemma_adjacent_count_zero(me, keys.drop_last(), n);
        assert(keys.last() == keys[keys.len() - 1]);
        assert(forall|j: int| 0 <= j < keys.len() - 1 ==> keys.drop_last()[j] == #[trigger] keys[j]);
    }
}

/// If some listed motif node is unbound, a node is chosen.
proof fn lemma_chosen_node_some(mnodes: Seq<u64>, me: Set<(u64, u64)>, keys: Seq<u64>, i: int)
    requires
        0 <= i < mnodes.len(),
        !keys.contains(mnodes[i]),
    ensures
        chosen_node(mnodes, me, keys) is Some,
    decreases mnodes.len(),
{
    if i < mnodes.len() - 1 {
        assert(mnodes.drop_last()[i] == mnodes[i]);
        lemma_chosen_node_some(mnodes.drop_last(), me, keys, i);
    }
}

/// The chosen node is a listed, unbound node of maximal bound-neighbor
/// count.
proof fn lemma_chosen_node_props(mnodes: Seq<u64>, me: Set<(u64, u64)>, keys: Seq<u64>)
    requires
        chosen_node(mnodes, me, keys) is Some,
    ensures
        mnodes.contains(chosen_node(mnodes, me, keys).unwrap()),
        !keys.contains(chosen_node(mnodes, me, keys).unwrap()),
        forall|j: int|
            0 <= j < mnodes.len() && !keys.contains(#[trigger] mnodes[j]) ==> adjacent_count(
                me,
                keys,
                mnodes[j],
            ) <= adjacent_count(me, keys, chosen_node(mnodes, me, keys).unwrap()),
    decreases mnodes.len(),
{
    let n = chosen_node(mnodes, me, keys).unwrap();
    let rest = chosen_node(mnodes.drop_last(), me, keys);
    if rest is Some {
        lemma_chosen_node_props(mnodes.drop_last(), me, keys);
        let b = rest.unwrap();
        let bi = choose|bi: int|
            0 <= bi < mnodes.drop_last().len() && mnodes.drop_last()[bi] == b;
        assert(mnodes[bi] == b);
    }
    assert forall|j: int|
        0 <= j < mnodes.len() && !keys.contains(#[trigger] mnodes[j]) implies adjacent_count(
        me,
        keys,
        mnodes[j],
    ) <= adjacent_count(me, keys, n) by {
        if j < mnodes.len() - 1 {
            assert(mnodes.drop_last()[j] == mnodes[j]);
            if rest is None {
                lemma_chosen_node_some(mnodes.drop_last(), me, keys, j);
            }
        }
    }
}

/// With nothing bound yet, the first listed motif node is chosen.
proof fn lemma_chosen_node_empty_keys(mnodes: Seq<u64>, me: Set<(u64, u64)>, keys: Seq<u64>)
    requires
        mnodes.len() > 0,
        keys.len() == 0,
    ensures
        chosen_node(mnodes, me, keys) == Some(mnodes[0]),
    decreases mnodes.len(),
{
    reveal_with_fuel(chosen_node, 2);
    if mnodes.len() > 1 {
        lemma_chosen_node_empty_keys(mnodes.drop_last(), me, keys);
        assert(mnodes.drop_last()[0] == mnodes[0]);
    }
}

/// A strictly smaller subset misses some element of its superset.
proof fn lemma_proper_subset_witness(a: Set<u64>, b: Set<u64>)
    requires
        a.subset_of(b),
        b.finite(),
        a.len() < b.len(),
    ensures
        exists|x: u64| b.contains(x) && !a.contains(x),
{
    if !(exists|x: u64| b.contains(x) && !a.contains(x)) {
        assert(b =~= a);
    }
}

/// Unequal maps over one domain differ at some key of it.
proof fn lemma_unequal_maps_differ(m1: Map<u64, u64>, m2: Map<u64, u64>)
    requires
        m1.dom() == m2.dom(),
        m1 != m2,
    ensures
        exists|k: u64| m1.dom().contains(k) && m1[k] != m2[k],
{
    if !(exists|k: u64| m1.dom().contains(k) && m1[k] != m2[k]) {
        assert(m1 =~= m2);
    }
}

/// The interestingness table: a total mapping from every motif node to a
/// priority score, computed once per search. The one policy is uniform:
/// every node scores one.
pub fn uniform_interestingness(motif: &DiGraphMap<u64, i64>) -> (t: Mapping)
    ensures
        t.wf(),
        t.key_seq() == graph_nodes(*motif),
        graph_nodes(*motif).no_duplicates(),
        forall|k: u64| #[trigger] t@.dom().contains(k) ==> t@[k] == 1,
{
    let nodes = graph_node_list(motif);
    let mut t = Mapping::new();
    let mut i: usize = 0;
    while i < nodes.len()
        invariant
            i <= nodes@.len(),
            nodes@ == graph_nodes(*motif),
            nodes@.no_duplicates(),
            t.wf(),
            t.key_seq() == nodes@.take(i as int),
            forall|k: u64| #[trigger] t@.dom().contains(k) ==> t@[k] == 1,
        decreases nodes@.len() - i,
    {
        proof {
            t.lemma_dom();
            if t@.dom().contains(nodes@[i as int]) {
                let j = choose|j: int|
                    0 <= j < t.key_seq().len() && t.key_seq()[j] == nodes@[i as int];
                assert(nodes@.take(i as int)[j] == nodes@[j]);
                assert(false);
            }
        }
        let node = nodes[i];
        t = t.extended(node, 1);
        proof {
            assert(t.key_seq() =~= nodes@.take(i + 1 as int));
        }
        i += 1;
    }
    proof {
        assert(nodes@.take(nodes@.len() as int) =~= nodes@);
    }
    t
}

/// An equinumerous subset of a finite set is the whole of it.
proof fn lemma_subset_same_len(a: Set<u64>, b: Set<u64>)
    requires
        a.subset_of(b),
        b.finite(),
        a.len() == b.len(),
    ensures
        a == b,
{
    if a != b {
        if !(exists|x: u64| b.contains(x) && !a.contains(x)) {
            assert(a =~= b);
        }
        let x = choose|x: u64| b.contains(x) && !a.contains(x);
        assert(a.subset_of(b.remove(x)));
        lemma_len_subset(a, b.remove(x));
        assert(false);
    }
}

/// How many bound motif nodes the candidate links to `n`.
fn count_bound_adjacent(cand: &Mapping, motif: &DiGraphMap<u64, i64>, n: u64) -> (c: usize)
    requires
        cand.wf(),
    ensures
        c == adjacent_count(graph_edges(*motif), cand.key_seq(), n),
{
    let len = cand.len();
    let mut c: usize = 0;
    let mut i: usize = 0;
    while i < len
        invariant
            cand.wf(),
            len == cand.key_seq().len(),
            i <= len,
            c <= i,
            c == adjacent_count(graph_edges(*motif), cand.key_seq().take(i as int), n),
        decreases len - i,
    {
        let p = cand.pair_at(i);
        let fwd = graph_has_edge(motif, n, p.0);
        let bwd = graph_has_edge(motif, p.0, n);
        proof {
            assert(cand.key_seq().take(i + 1 as int).drop_last() =~= cand.key_seq().take(
                i as int,
            ));
            assert(cand.key_seq().take(i + 1 as int).last() == cand.key_seq()[i as int]);
        }
        if fwd || bwd {
            c += 1;
        }
        i += 1;
    }
    proof {
        assert(cand.key_seq().take(len as int) =~= cand.key_seq());
    }
    c
}

/// The index of some bound motif node linked to `n`.
fn find_anchor(cand: &Mapping, motif: &DiGraphMap<u64, i64>, n: u64) -> (j: usize)
    requires
        cand.wf(),
        adjacent_count(graph_edges(*motif), cand.key_seq(), n) > 0,
    ensures
        j < cand.key_seq().len(),
        linked(graph_edges(*motif), n, cand.key_seq()[j as int]),
{
    let len = cand.len();
    let mut i: usize = 0;
    while i < len
        invariant
            cand.wf(),
            len == cand.key_seq().len(),
            i <= len,
            adjacent_count(graph_edges(*motif), cand.key_seq(), n) > 0,
            forall|j: int|
                0 <= j < i ==> !linked(graph_edges(*motif), n, #[trigger] cand.key_seq()[j]),
        decreases len - i,
    {
        let p = cand.pair_at(i);
        let fwd = graph_has_edge(motif, n, p.0);
        let bwd = graph_has_edge(motif, p.0, n);
        if fwd || bwd {
            return i;
        }
        i += 1;
    }
    proof {
        lemma_adjacent_count_zero(graph_edges(*motif), cand.key_seq(), n);
        assert(false);
    }
    0
}

/// Whether `h` respects, in the host, every motif edge between `n` and a
/// bound node: the combined (intersected) constraint of all required edges.
pub open spec fn admissible_host(
    me: Set<(u64, u64)>,
    he: Set<(u64, u64)>,
    m: Map<u64, u64>,
    keys: Seq<u64>,
    n: u64,
    h: u64,
) -> bool {
    forall|j: int|
        0 <= j < keys.len() ==> {
            let k = #[trigger] keys[j];
            &&& (me.contains((n, k)) ==> he.contains((h, m[k])))
            &&& (me.contains((k, n)) ==> he.contains((m[k], h)))
        }
}

/// Check every required edge of `n` against the host.
fn admissible(
    cand: &Mapping,
    motif: &DiGraphMap<u64, i64>,
    host: &DiGraphMap<u64, i64>,
    n: u64,
    h: u64,
) -> (r: bool)
    requires
        cand.wf(),
    ensures
        r == admissible_host(
            graph_edges(*motif),
            graph_edges(*host),
            cand@,
            cand.key_seq(),
            n,
            h,
        ),
{
    let ghost me = graph_edges(*motif);
    let ghost he = graph_edges(*host);
    let ghost kk = cand.key_seq();
    let len = cand.len();
    let mut i: usize = 0;
    while i < len
        invariant
            cand.wf(),
            me == graph_edges(*motif),
            he == graph_edges(*host),
            kk == cand.key_seq(),
            len == kk.len(),
            i <= len,
            forall|j: int|
                0 <= j < i ==> {
                    let k = #[trigger] kk[j];
                    &&& (me.contains((n, k)) ==> he.contains((h, cand@[k])))
                    &&& (me.contains((k, n)) ==> he.contains((cand@[k], h)))
                },
        decreases len - i,
    {
        let p = cand.pair_at(i);
        if graph_has_edge(motif, n, p.0) {
            if !graph_has_edge(host, h, p.1) {
                proof {
                    assert(me.contains((n, kk[i as int])) && !he.contains(
                        (h, cand@[kk[i as int]]),
                    ));
                }
                return false;
            }
        }
        if graph_has_edge(motif, p.0, n) {
            if !graph_has_edge(host, p.1, h) {
                proof {
                    assert(me.contains((kk[i as int], n)) && !he.contains(
                        (cand@[kk[i as int]], h),
                    ));
                }
                return false;
            }
        }
        i += 1;
    }
    true
}

/// The final filter on a candidate that binds every motif node: whether
/// every motif edge, self-loops included, maps to a host edge.
fn all_motif_edges_mapped(
    ext: &Mapping,
    motif: &DiGraphMap<u64, i64>,
    host: &DiGraphMap<u64, i64>,
) -> (r: bool)
    requires
        ext.wf(),
        graph_nodes(*motif).to_set().subset_of(ext@.dom()),
    ensures
        r == (forall|u: u64, v: u64|
            #[trigger] graph_edges(*motif).contains((u, v)) ==> graph_edges(*host).contains(
                (ext@[u], ext@[v]),
            )),
{
    let ghost me = graph_edges(*motif);
    let ghost he = graph_edges(*host);
    let edges = graph_edge_list(motif);
    let mut i: usize = 0;
    while i < edges.len()
        invariant
            ext.wf(),
            me == graph_edges(*motif),
            he == graph_edges(*host),
            graph_nodes(*motif).to_set().subset_of(ext@.dom()),
            forall|e: (u64, u64)| edges@.contains(e) <==> me.contains(e),
            forall|j: int|
                0 <= j < edges@.len() ==> graph_nodes(*motif).contains(#[trigger] edges@[j].0)
                    && graph_nodes(*motif).contains(edges@[j].1),
            i <= edges@.len(),
            forall|j: int|
                0 <= j < i ==> he.contains(
                    (ext@[#[trigger] edges@[j].0], ext@[edges@[j].1]),
                ),
        decreases edges@.len() - i,
    {
        let e = edges[i];
        proof {
            assert(graph_nodes(*motif).to_set().contains(e.0));
            assert(graph_nodes(*motif).to_set().contains(e.1));
        }
        let a = match ext.get(e.0) {
            Some(a) => a,
            None => {
                proof {
                    assert(false);
                }
                0
            },
        };
        let b = match ext.get(e.1) {
            Some(b) => b,
            None => {
                proof {
                    assert(false);
                }
                0
            },
        };
        if !graph_has_edge(host, a, b) {
            proof {
                assert(edges@.contains(edges@[i as int]));
                assert(me.contains((e.0, e.1)) && !he.contains((ext@[e.0], ext@[e.1])));
            }
            return false;
        }
        i += 1;
    }
    proof {
        assert forall|u: u64, v: u64| #[trigger] me.contains((u, v)) implies he.contains(
            (ext@[u], ext@[v]),
        ) by {
            assert(edges@.contains((u, v)));
            let j = choose|j: int| 0 <= j < edges@.len() && edges@[j] == (u, v);
            assert(edges@[j].0 == u && edges@[j].1 == v);
        }
    }
    true
}

/// Some mapping in `res` denotes exactly `m`.
pub open spec fn result_holds(res: Seq<Mapping>, m: Map<u64, u64>) -> bool {
    exists|i: int| 0 <= i < res.len() && res[i]@ == m
}

/// Some of the first `hi` mappings in `s` is a restriction of `m`.
spec fn prefix_held(s: Seq<Mapping>, hi: int, m: Map<u64, u64>) -> bool {
    exists|i: int| 0 <= i < hi && s[i]@.submap_of(m)
}

/// The expansion batch holds the one-step extension of `cand` toward `m`.
pub open spec fn batch_covers(exts: Seq<Mapping>, cand: Mapping, n: u64, m: Map<u64, u64>) -> bool {
    exists|j: int| 0 <= j < exts.len() && exts[j]@ == cand@.insert(n, m[n])
}

/// The mappings of `s` denote pairwise distinct partial functions.
pub open spec fn all_distinct(s: Seq<Mapping>) -> bool {
    forall|i: int, j: int|
        0 <= i < s.len() && 0 <= j < s.len() && i != j ==> s[i]@ != s[j]@
}

/// The mapping `x` extends a mapping of `frontier0` at position `lo` or
/// later, or denotes one of the batch `exts0` at position `klo` or later.
spec fn accounted_elem(
    x: Mapping,
    frontier0: Seq<Mapping>,
    lo: int,
    exts0: Seq<Mapping>,
    klo: int,
) -> bool {
    (exists|i2: int| lo <= i2 < frontier0.len() && frontier0[i2]@.submap_of(x@)) || (exists|
        j2: int,
    |
        klo <= j2 < exts0.len() && x@ == exts0[j2]@)
}

/// Every mapping of `col` is accounted for.
spec fn all_accounted(
    col: Seq<Mapping>,
    frontier0: Seq<Mapping>,
    lo: int,
    exts0: Seq<Mapping>,
    klo: int,
) -> bool {
    forall|j: int|
        0 <= j < col.len() ==> accounted_elem(#[trigger] col[j], frontier0, lo, exts0, klo)
}

proof fn lemma_accounted_empty(
    col: Seq<Mapping>,
    frontier0: Seq<Mapping>,
    lo: int,
    exts0: Seq<Mapping>,
    klo: int,
)
    requires
        col.len() == 0,
    ensures
        all_accounted(col, frontier0, lo, exts0, klo),
{
}

/// A collection accounted for without a batch stays accounted for when a
/// batch is brought in.
proof fn lemma_accounted_rebase(
    col: Seq<Mapping>,
    frontier0: Seq<Mapping>,
    lo: int,
    exts0: Seq<Mapping>,
    klo: int,
)
    requires
        all_accounted(col, frontier0, lo, Seq::<Mapping>::empty(), 0),
    ensures
        all_accounted(col, frontier0, lo, exts0, klo),
{
    assert forall|j: int|
        0 <= j < col.len() implies accounted_elem(
        #[trigger] col[j],
        frontier0,
        lo,
        exts0,
        klo,
    ) by {
        assert(accounted_elem(col[j], frontier0, lo, Seq::<Mapping>::empty(), 0));
        let i2 = choose|i2: int|
            lo <= i2 < frontier0.len() && frontier0[i2]@.submap_of(col[j]@);
        assert(lo <= i2 < frontier0.len() && frontier0[i2]@.submap_of(col[j]@));
    }
}

/// Lowering the batch bound keeps a collection accounted for.
proof fn lemma_accounted_widen(
    col: Seq<Mapping>,
    frontier0: Seq<Mapping>,
    lo: int,
    exts0: Seq<Mapping>,
    klo1: int,
    klo2: int,
)
    requires
        all_accounted(col, frontier0, lo, exts0, klo1),
        klo2 <= klo1,
    ensures
        all_accounted(col, frontier0, lo, exts0, klo2),
{
    assert forall|j: int|
        0 <= j < col.len() implies accounted_elem(
        #[trigger] col[j],
        frontier0,
        lo,
        exts0,
        klo2,
    ) by {
        assert(accounted_elem(col[j], frontier0, lo, exts0, klo1));
        if exists|j2: int| klo1 <= j2 < exts0.len() && col[j]@ == exts0[j2]@ {
            let j2 = choose|j2: int| klo1 <= j2 < exts0.len() && col[j]@ == exts0[j2]@;
            assert(klo2 <= j2 < exts0.len() && col[j]@ == exts0[j2]@);
        }
    }
}

/// Pushing a batch mapping at or past the bound keeps the collection
/// accounted for.
proof fn lemma_accounted_push(
    col_new: Seq<Mapping>,
    col_old: Seq<Mapping>,
    x: Mapping,
    frontier0: Seq<Mapping>,
    lo: int,
    exts0: Seq<Mapping>,
    klo: int,
    xi: int,
)
    requires
        col_new == col_old.push(x),
        all_accounted(col_old, frontier0, lo, exts0, klo),
        klo <= xi < exts0.len(),
        x@ == exts0[xi]@,
    ensures
        all_accounted(col_new, frontier0, lo, exts0, klo),
{
    assert forall|j: int|
        0 <= j < col_new.len() implies accounted_elem(
        #[trigger] col_new[j],
        frontier0,
        lo,
        exts0,
        klo,
    ) by {
        if j < col_new.len() - 1 {
            assert(col_new[j] == col_old[j]);
            assert(accounted_elem(col_old[j], frontier0, lo, exts0, klo));
        } else {
            assert(col_new[j] == x);
            assert(col_new[j]@ == exts0[xi]@);
        }
    }
}

/// When a batch is exhausted, its extensions are accounted for by the
/// candidate they extended: the frontier bound moves down to it.
proof fn lemma_accounted_exit(
    col: Seq<Mapping>,
    frontier0: Seq<Mapping>,
    fl: int,
    exts0: Seq<Mapping>,
    cand: Mapping,
    sel_g: u64,
)
    requires
        all_accounted(col, frontier0, fl + 1, exts0, 0),
        0 <= fl < frontier0.len(),
        cand == frontier0[fl],
        !cand@.dom().contains(sel_g),
        forall|j: int|
            0 <= j < exts0.len() ==> (#[trigger] exts0[j])@ == cand@.insert(
                sel_g,
                exts0[j]@[sel_g],
            ),
    ensures
        all_accounted(col, frontier0, fl, Seq::<Mapping>::empty(), 0),
{
    assert forall|j: int|
        0 <= j < col.len() implies accounted_elem(
        #[trigger] col[j],
        frontier0,
        fl,
        Seq::<Mapping>::empty(),
        0,
    ) by {
        assert(accounted_elem(col[j], frontier0, fl + 1, exts0, 0));
        if exists|j2: int| 0 <= j2 < exts0.len() && col[j]@ == exts0[j2]@ {
            let j2 = choose|j2: int| 0 <= j2 < exts0.len() && col[j]@ == exts0[j2]@;
            lemma_self_submap_of_extension(cand@, exts0[j2]@, sel_g);
            assert(frontier0[fl]@.submap_of(col[j]@));
            assert(fl <= fl < frontier0.len() && frontier0[fl]@.submap_of(col[j]@));
        } else {
            let i2 = choose|i2: int|
                fl + 1 <= i2 < frontier0.len() && frontier0[i2]@.submap_of(col[j]@);
            assert(fl <= i2 < frontier0.len() && frontier0[i2]@.submap_of(col[j]@));
        }
    }
}

/// A map is a submap of any extension of it by a fresh key.
proof fn lemma_self_submap_of_extension(c: Map<u64, u64>, e: Map<u64, u64>, s: u64)
    requires
        e == c.insert(s, e[s]),
        !c.dom().contains(s),
    ensures
        c.submap_of(e),
{
    assert forall|k: u64| c.dom().contains(k) implies e.dom().contains(k) && c[k] == e[k] by {
        assert(k != s);
    }
}

/// A mapping already collected in this level differs from the one just
/// produced: either it extends a different frontier candidate, and the two
/// disagree on a bound key, or it came from the same expansion batch with a
/// different binding of the chosen node.
proof fn lemma_distinct_from_batch(
    old_elem: Mapping,
    e: Mapping,
    exts0: Seq<Mapping>,
    frontier0: Seq<Mapping>,
    cand: Mapping,
    k: int,
    fl: int,
    bound: Seq<u64>,
    sel_g: u64,
)
    requires
        0 <= k < exts0.len(),
        0 <= fl < frontier0.len(),
        cand == frontier0[fl],
        cand@.dom() == bound.to_set(),
        !bound.contains(sel_g),
        e == exts0[k],
        all_distinct(frontier0),
        forall|i: int|
            0 <= i < frontier0.len() ==> (#[trigger] frontier0[i])@.dom() == bound.to_set(),
        forall|j: int|
            0 <= j < exts0.len() ==> (#[trigger] exts0[j])@ == cand@.insert(
                sel_g,
                exts0[j]@[sel_g],
            ),
        forall|j1: int, j2: int|
            0 <= j1 < exts0.len() && 0 <= j2 < exts0.len() && j1 != j2 ==> exts0[j1]@[sel_g]
                != exts0[j2]@[sel_g],
        accounted_elem(old_elem, frontier0, fl + 1, exts0, k + 1),
    ensures
        old_elem@ != e@,
{
    if exists|i2: int| fl + 1 <= i2 < frontier0.len() && frontier0[i2]@.submap_of(old_elem@) {
        let i2 = choose|i2: int|
            fl + 1 <= i2 < frontier0.len() && frontier0[i2]@.submap_of(old_elem@);
        assert(frontier0[i2]@.submap_of(old_elem@));
        lemma_unequal_maps_differ(frontier0[i2]@, cand@);
        let key = choose|key: u64|
            frontier0[i2]@.dom().contains(key) && frontier0[i2]@[key] != cand@[key];
        assert(bound.to_set().contains(key));
        assert(key != sel_g);
        assert(frontier0[i2]@.dom().contains(key));
        assert(old_elem@.dom().contains(key) && frontier0[i2]@[key] == old_elem@[key]);
        assert(e@ == cand@.insert(sel_g, e@[sel_g]));
        assert(e@[key] == cand@[key]);
        if old_elem@ == e@ {
            assert(false);
        }
    } else {
        let j2 = choose|j2: int| k + 1 <= j2 < exts0.len() && old_elem@ == exts0[j2]@;
        assert(exts0[j2]@[sel_g] != exts0[k]@[sel_g]);
    }
}

/// Pushing the freshly produced mapping keeps the collection free of
/// duplicates.
proof fn lemma_distinct_push(
    col_new: Seq<Mapping>,
    col_old: Seq<Mapping>,
    e: Mapping,
    exts0: Seq<Mapping>,
    frontier0: Seq<Mapping>,
    cand: Mapping,
    k: int,
    fl: int,
    bound: Seq<u64>,
    sel_g: u64,
)
    requires
        col_new == col_old.push(e),
        all_distinct(col_old),
        all_accounted(col_old, frontier0, fl + 1, exts0, k + 1),
        0 <= k < exts0.len(),
        0 <= fl < frontier0.len(),
        cand == frontier0[fl],
        cand@.dom() == bound.to_set(),
        !bound.contains(sel_g),
        e == exts0[k],
        all_distinct(frontier0),
        forall|i: int|
            0 <= i < frontier0.len() ==> (#[trigger] frontier0[i])@.dom() == bound.to_set(),
        forall|j: int|
            0 <= j < exts0.len() ==> (#[trigger] exts0[j])@ == cand@.insert(
                sel_g,
                exts0[j]@[sel_g],
            ),
        forall|j1: int, j2: int|
            0 <= j1 < exts0.len() && 0 <= j2 < exts0.len() && j1 != j2 ==> exts0[j1]@[sel_g]
                != exts0[j2]@[sel_g],
    ensures
        all_distinct(col_new),
{
    assert forall|i: int, j: int|
        0 <= i < col_new.len() && 0 <= j < col_new.len() && i != j implies col_new[i]@
        != col_new[j]@ by {
        if i < col_new.len() - 1 && j < col_new.len() - 1 {
            assert(col_new[i] == col_old[i]);
            assert(col_new[j] == col_old[j]);
        } else {
            let o = if i < col_new.len() - 1 {
                i
            } else {
                j
            };
            if o < col_new.len() - 1 {
                assert(col_new[o] == col_old[o]);
                assert(accounted_elem(col_old[o], frontier0, fl + 1, exts0, k + 1));
                lemma_distinct_from_batch(
                    col_old[o],
                    e,
                    exts0,
                    frontier0,
                    cand,
                    k,
                    fl,
                    bound,
                    sel_g,
                );
                assert(col_new[col_new.len() - 1] == e);
            }
        }
    }
}

/// A single node is a weakly connected set.
proof fn lemma_connected_singleton(x: u64, me: Set<(u64, u64)>)
    ensures
        weakly_connected(Set::<u64>::empty().insert(x), me),
{
    let sx = Set::<u64>::empty().insert(x);
    assert forall|part: Set<u64>|
        #[trigger] part.subset_of(sx) && (exists|p: u64| part.contains(p)) && (exists|y: u64|
            sx.contains(y) && !part.contains(y)) implies !separated(
        me,
        part,
        sx.difference(part),
    ) by {
        let p = choose|p: u64| part.contains(p);
        let y = choose|y: u64| sx.contains(y) && !part.contains(y);
        assert(p == x && y == x);
        assert(false);
    }
}

/// A weakly connected set stays weakly connected when a node linked to one
/// of its members joins it.
proof fn lemma_connected_grow(s: Set<u64>, me: Set<(u64, u64)>, x: u64, s0: u64)
    requires
        weakly_connected(s, me),
        s.contains(s0),
        !s.contains(x),
        linked(me, x, s0),
    ensures
        weakly_connected(s.insert(x), me),
{
    let sx = s.insert(x);
    assert forall|part: Set<u64>|
        #[trigger] part.subset_of(sx) && (exists|p: u64| part.contains(p)) && (exists|y: u64|
            sx.contains(y) && !part.contains(y)) implies !separated(
        me,
        part,
        sx.difference(part),
    ) by {
        let rest = sx.difference(part);
        let y = choose|y: u64| sx.contains(y) && !part.contains(y);
        if part.contains(x) {
            let a = part.remove(x);
            if exists|p: u64| a.contains(p) {
                assert(a.subset_of(s));
                assert(s.contains(y) && !a.contains(y));
                assert(!separated(me, a, s.difference(a)));
                let (u, v) = choose|u: u64, v: u64|
                    a.contains(u) && s.difference(a).contains(v) && linked(me, u, v);
                assert(part.contains(u));
                assert(rest.contains(v));
                if separated(me, part, rest) {
                    assert(!linked(me, u, v));
                }
            } else {
                assert forall|q: u64| part.contains(q) implies q == x by {
                    if q != x {
                        assert(a.contains(q));
                    }
                }
                assert(rest.contains(s0));
                if separated(me, part, rest) {
                    assert(part.contains(x) && rest.contains(s0));
                    assert(!linked(me, x, s0));
                }
            }
        } else {
            assert(part.subset_of(s));
            if exists|z: u64| s.contains(z) && !part.contains(z) {
                assert(!separated(me, part, s.difference(part)));
                let (u, v) = choose|u: u64, v: u64|
                    part.contains(u) && s.difference(part).contains(v) && linked(me, u, v);
                assert(rest.contains(v));
                if separated(me, part, rest) {
                    assert(!linked(me, u, v));
                }
            } else {
                // part covers all of s, so the outside node is x itself.
                assert(part.contains(s0));
                assert(rest.contains(x));
                if separated(me, part, rest) {
                    assert(part.contains(s0) && rest.contains(x));
                    assert(!linked(me, s0, x));
                }
            }
        }
    }
}

/// What one successful expansion step yields: some motif node `n` was
/// chosen; every produced mapping extends the candidate by one binding of
/// `n` and stays valid; the bindings are pairwise distinct; at the final
/// level every produced mapping is complete and edge-verified; and for
/// every complete mapping extending the candidate, its one-step restriction
/// is among the produced mappings.
pub open spec fn expansion_ok(
    exts: Seq<Mapping>,
    cand: Mapping,
    motif: DiGraphMap<u64, i64>,
    host: DiGraphMap<u64, i64>,
) -> bool {
    let mn = graph_nodes(motif);
    let me = graph_edges(motif);
    let hn = graph_nodes(host).to_set();
    let he = graph_edges(host);
    let sel = chosen_node(mn, me, cand.key_seq());
    let n = sel.unwrap();
    &&& sel is Some
    &&& mn.contains(n)
    &&& !cand.key_seq().contains(n)
    &&& (cand.key_seq().len() > 0 ==> adjacent_count(me, cand.key_seq(), n) > 0)
    &&& forall|j: int|
        0 <= j < exts.len() ==> {
            let e = #[trigger] exts[j];
            &&& e.wf()
            &&& e.key_seq() == cand.key_seq().push(n)
            &&& e@ == cand@.insert(n, e@[n])
            &&& is_valid_mapping(mn.to_set(), me, hn, he, e@)
            &&& (cand.key_seq().len() + 1 == mn.len() ==> is_complete_mapping(
                mn.to_set(),
                me,
                hn,
                he,
                e@,
            ))
        }
    &&& forall|j1: int, j2: int|
        0 <= j1 < exts.len() && 0 <= j2 < exts.len() && j1 != j2 ==> exts[j1]@[n]
            != exts[j2]@[n]
    &&& forall|m: Map<u64, u64>|
        is_complete_mapping(mn.to_set(), me, hn, he, m) && #[trigger] cand@.submap_of(m)
            ==> batch_covers(exts, cand, n, m)
}

/// One iteration of candidate-mapping growth.
///
/// An empty candidate binds the most interesting motif node to every host
/// node. A non-empty one binds the chosen next motif node to every host
/// node that satisfies the intersection of all its required edges; a
/// produced mapping that binds every motif node is kept only if every motif
/// edge is carried to a host edge. The error is the fatal
/// disconnected-motif precondition failure.
#[verifier::loop_isolation(false)]
pub fn get_next_candidates(
    cand: &Mapping,
    motif: &DiGraphMap<u64, i64>,
    host: &DiGraphMap<u64, i64>,
    scores: &Mapping,
) -> (r: Result<Vec<Mapping>, MotifError>)
    requires
        cand.wf(),
        scores.wf(),
        scores.key_seq() == graph_nodes(*motif),
        forall|k: u64| #[trigger] scores@.dom().contains(k) ==> scores@[k] == 1,
        graph_nodes(*motif).no_duplicates(),
        cand.key_seq().to_set().subset_of(graph_nodes(*motif).to_set()),
        cand.key_seq().len() < graph_nodes(*motif).len(),
        is_valid_mapping(
            graph_nodes(*motif).to_set(),
            graph_edges(*motif),
            graph_nodes(*host).to_set(),
            graph_edges(*host),
            cand@,
        ),
    ensures
        match r {
            Ok(exts) => expansion_ok(exts@, *cand, *motif, *host),
            Err(_) => !weakly_connected(graph_nodes(*motif).to_set(), graph_edges(*motif)),
        },
{
    let ghost mn = graph_nodes(*motif);
    let ghost me = graph_edges(*motif);
    let ghost mnset = graph_nodes(*motif).to_set();
    let ghost hn = graph_nodes(*host).to_set();
    let ghost he = graph_edges(*host);
    let ghost kk = cand.key_seq();
    proof {
        cand.lemma_dom();
        cand.lemma_len();
        vstd::seq_lib::seq_to_set_is_finite(mn);
        mn.unique_seq_to_set();
        kk.unique_seq_to_set();
        lemma_proper_subset_witness(kk.to_set(), mnset);
    }
    let ghost unbound_witness = choose|x: u64| mnset.contains(x) && !kk.to_set().contains(x);

    let bound_count = cand.len();
    let motif_nodes = graph_node_list(motif);

    // ---- select the next motif node to bind ----
    let sel: u64;
    if bound_count == 0 {
        // Empty candidate: the node of maximum interestingness. Under the
        // uniform policy the scan keeps the first motif node; a later node
        // would need a strictly greater score.
        let p0 = scores.pair_at(0);
        let mut best_node: u64 = p0.0;
        let mut best_score: u64 = p0.1;
        let slen = scores.len();
        let mut i: usize = 1;
        while i < slen
            invariant
                1 <= i <= slen,
                best_node == mn[0],
                best_score == 1,
            decreases slen - i,
        {
            let p = scores.pair_at(i);
            if p.1 > best_score {
                best_node = p.0;
                best_score = p.1;
            }
            i += 1;
        }
        sel = best_node;
        proof {
            lemma_chosen_node_empty_keys(mn, me, kk);
            assert(mn.contains(mn[0]));
        }
    } else {
        // Begun candidate: among unbound motif nodes, the first whose count
        // of already-bound linked nodes is maximal.
        let mut found: bool = false;
        let mut best_node: u64 = 0;
        let mut best_count: usize = 0;
        let mut i: usize = 0;
        while i < motif_nodes.len()
            invariant
                i <= mn.len(),
                found == (chosen_node(mn.take(i as int), me, kk) is Some),
                found ==> chosen_node(mn.take(i as int), me, kk) == Some(best_node),
                found ==> best_count == adjacent_count(me, kk, best_node),
            decreases mn.len() - i,
        {
            let node = motif_nodes[i];
            proof {
                assert(mn.take(i + 1 as int).drop_last() =~= mn.take(i as int));
                assert(mn.take(i + 1 as int).last() == mn[i as int]);
            }
            if !cand.contains_key(node) {
                let c = count_bound_adjacent(cand, motif, node);
                if !found || c > best_count {
                    found = true;
                    best_node = node;
                    best_count = c;
                }
            }
            i += 1;
        }
        proof {
            assert(mn.take(mn.len() as int) =~= mn);
            let wi = choose|j: int| 0 <= j < mn.len() && mn[j] == unbound_witness;
            lemma_chosen_node_some(mn, me, kk, wi);
            lemma_chosen_node_props(mn, me, kk);
        }
        if best_count == 0 {
            // No unbound motif node touches the bound ones: the motif has
            // more than one weakly connected component.
            proof {
                let kset = kk.to_set();
                assert forall|a: u64, b: u64|
                    kset.contains(a) && mnset.difference(kset).contains(b) implies !linked(
                    me,
                    a,
                    b,
                ) by {
                    let bj = choose|j: int| 0 <= j < mn.len() && mn[j] == b;
                    assert(!kk.contains(mn[bj]));
                    assert(adjacent_count(me, kk, b) <= adjacent_count(me, kk, best_node));
                    lemma_adjacent_count_zero(me, kk, b);
                    let aj = choose|j: int| 0 <= j < kk.len() && kk[j] == a;
                    assert(!linked(me, b, kk[aj]));
                }
                assert(separated(me, kset, mnset.difference(kset)));
                if weakly_connected(mnset, me) {
                    assert(kset.subset_of(mnset));
                    assert(kset.contains(kk[0]));
                    assert(mnset.contains(unbound_witness) && !kset.contains(unbound_witness));
                    assert(false);
                }
            }
            return Err(MotifError::DisconnectedMotif { node: best_node });
        }
        sel = best_node;
    }
    proof {
        assert(chosen_node(mn, me, kk) == Some(sel));
        lemma_chosen_node_props(mn, me, kk);
        assert(mnset.contains(sel));
        assert(!cand@.dom().contains(sel));
    }

    // ---- the admissible host nodes for the chosen motif node ----
    let base: Vec<u64>;
    let ghost bound_case: bool;
    if bound_count == 0 {
        // Every host node seeds a singleton mapping; no pruning here.
        base = graph_node_list(host);
        proof {
            bound_case = false;
            assert forall|i: int| 0 <= i < base@.len() implies hn.contains(
                #[trigger] base@[i],
            ) by {
                assert(graph_nodes(*host).contains(base@[i]));
            }
        }
    } else {
        // One required edge anchors the candidate set; the filter below
        // intersects it with the constraints of every other required edge.
        let aj = find_anchor(cand, motif, sel);
        let p = cand.pair_at(aj);
        let fwd = graph_has_edge(motif, p.0, sel);
        let ghost k0 = kk[aj as int];
        if fwd {
            base = graph_out_neighbors(host, p.1);
        } else {
            base = graph_in_neighbors(host, p.1);
        }
        proof {
            bound_case = true;
            assert forall|m: Map<u64, u64>|
                is_complete_mapping(mnset, me, hn, he, m) && #[trigger] cand@.submap_of(m)
                    implies base@.contains(m[sel]) by {
                assert(cand@.dom().contains(k0));
                assert(m.dom().contains(k0) && m[k0] == cand@[k0]);
                assert(m.dom().contains(sel));
                if fwd {
                    assert(me.contains((k0, sel)));
                    assert(he.contains((m[k0], m[sel])));
                } else {
                    assert(me.contains((sel, k0)));
                    assert(he.contains((m[sel], m[k0])));
                }
            }
        }
    }
    proof {
        if !bound_case {
            assert forall|m: Map<u64, u64>|
                is_complete_mapping(mnset, me, hn, he, m) && #[trigger] cand@.submap_of(m)
                    implies base@.contains(m[sel]) by {
                assert(m.dom().contains(sel));
                assert(hn.contains(m[sel]));
                assert(graph_nodes(*host).contains(m[sel]));
            }
        }
    }

    // ---- extend by every admissible host node; final filter on completes ----
    let node_total = graph_node_count(motif);
    let mut exts: Vec<Mapping> = Vec::new();
    let mut bi: usize = 0;
    while bi < base.len()
        invariant
            bi <= base@.len(),
            forall|j: int|
                0 <= j < exts@.len() ==> {
                    let e = #[trigger] exts@[j];
                    &&& e.wf()
                    &&& e.key_seq() == kk.push(sel)
                    &&& e@ == cand@.insert(sel, e@[sel])
                    &&& base@.take(bi as int).contains(e@[sel])
                    &&& is_valid_mapping(mnset, me, hn, he, e@)
                    &&& (kk.len() + 1 == mn.len() ==> is_complete_mapping(mnset, me, hn, he, e@))
                },
            forall|j1: int, j2: int|
                0 <= j1 < exts@.len() && 0 <= j2 < exts@.len() && j1 != j2 ==> exts@[j1]@[sel]
                    != exts@[j2]@[sel],
            forall|m: Map<u64, u64>|
                is_complete_mapping(mnset, me, hn, he, m) && #[trigger] cand@.submap_of(m)
                    && base@.take(bi as int).contains(m[sel]) ==> batch_covers(
                    exts@,
                    *cand,
                    sel,
                    m,
                ),
        decreases base@.len() - bi,
    {
        let h = base[bi];
        proof {
            assert(base@.take(bi + 1 as int) =~= base@.take(bi as int).push(h));
            assert(base@.take(bi + 1 as int)[bi as int] == h);
            assert(base@.take(bi + 1 as int).contains(h));
            assert forall|x: u64| base@.take(bi as int).contains(x) implies base@.take(
                bi + 1 as int,
            ).contains(x) by {
                let j = choose|j: int| 0 <= j < bi && base@.take(bi as int)[j] == x;
                assert(base@.take(bi + 1 as int)[j] == x);
            }
            if base@.take(bi as int).contains(h) {
                let j = choose|j: int| 0 <= j < bi && base@.take(bi as int)[j] == h;
                assert(base@[j] == base@[bi as int]);
                assert(false);
            }
            assert forall|x: u64| base@.take(bi + 1 as int).contains(x) && x != h
                implies base@.take(bi as int).contains(x) by {
                let j = choose|j: int|
                    #![trigger base@.take(bi + 1 as int)[j]]
                    0 <= j <= bi && base@.take(bi + 1 as int)[j] == x;
                assert(j < bi);
                assert(base@.take(bi as int)[j] == x);
            }
        }
        if admissible(cand, motif, host, sel, h) {
            let ext = cand.extended(sel, h);
            proof {
                assert(ext@[sel] == h);
                assert(ext@.dom() == cand@.dom().insert(sel));
                assert(ext@.dom().subset_of(mnset));
                assert forall|u: u64| ext@.dom().contains(u) implies hn.contains(
                    #[trigger] ext@[u],
                ) by {
                    if u != sel {
                        assert(cand@.dom().contains(u));
                        assert(ext@[u] == cand@[u]);
                    }
                }
                assert forall|u: u64, v: u64|
                    #[trigger] me.contains((u, v)) && u != v && ext@.dom().contains(u)
                        && ext@.dom().contains(v) implies he.contains((ext@[u], ext@[v])) by {
                    if u == sel {
                        assert(cand@.dom().contains(v));
                        let j = choose|j: int| 0 <= j < kk.len() && kk[j] == v;
                        assert(he.contains((h, cand@[kk[j]])));
                        assert(ext@[v] == cand@[v]);
                    } else if v == sel {
                        assert(cand@.dom().contains(u));
                        let j = choose|j: int| 0 <= j < kk.len() && kk[j] == u;
                        assert(he.contains((cand@[kk[j]], h)));
                        assert(ext@[u] == cand@[u]);
                    } else {
                        assert(cand@.dom().contains(u) && cand@.dom().contains(v));
                        assert(he.contains((cand@[u], cand@[v])));
                        assert(ext@[u] == cand@[u] && ext@[v] == cand@[v]);
                    }
                }
                assert(is_valid_mapping(mnset, me, hn, he, ext@));
            }
            let el = ext.len();
            if el == node_total {
                proof {
                    cand.lemma_len();
                    vstd::seq_lib::seq_to_set_is_finite(kk);
                    assert(ext@.dom().len() == kk.len() + 1);
                    lemma_subset_same_len(ext@.dom(), mnset);
                    assert(ext@.dom() == mnset);
                }
                if all_motif_edges_mapped(&ext, motif, host) {
                    proof {
                        assert(is_complete_mapping(mnset, me, hn, he, ext@));
                    }
                    let ghost exts0 = exts@;
                    exts.push(ext);
                    proof {
                        assert forall|m: Map<u64, u64>|
                            is_complete_mapping(mnset, me, hn, he, m) && #[trigger] cand@.submap_of(
                                m,
                            ) && base@.take(bi + 1 as int).contains(m[sel]) implies batch_covers(
                            exts@,
                            *cand,
                            sel,
                            m,
                        ) by {
                            if m[sel] == h {
                                assert(exts@[exts@.len() - 1]@ == cand@.insert(sel, m[sel]));
                                assert(batch_covers(exts@, *cand, sel, m));
                            } else {
                                assert(base@.take(bi as int).contains(m[sel]));
                                let j = choose|j: int|
                                    0 <= j < exts0.len() && exts0[j]@ == cand@.insert(
                                        sel,
                                        m[sel],
                                    );
                                assert(exts@[j]@ == cand@.insert(sel, m[sel]));
                                assert(batch_covers(exts@, *cand, sel, m));
                            }
                        }
                    }
                } else {
                    // A complete candidate failing edge verification is
                    // dropped; no complete mapping extends the candidate
                    // this way, since its own edges all verify.
                    proof {
                        assert forall|m: Map<u64, u64>|
                            is_complete_mapping(mnset, me, hn, he, m) && #[trigger] cand@.submap_of(
                                m,
                            ) && base@.take(bi + 1 as int).contains(m[sel]) implies batch_covers(
                            exts@,
                            *cand,
                            sel,
                            m,
                        ) by {
                            if m[sel] == h {
                                assert forall|u: u64| mnset.contains(u) implies ext@[u] == m[u] by {
                                    if u != sel {
                                        assert(cand@.dom().contains(u) || u == sel || !ext@.dom()
                                            .contains(u));
                                        if ext@.dom().contains(u) {
                                            assert(ext@[u] == cand@[u]);
                                            assert(cand@[u] == m[u]);
                                        }
                                    }
                                }
                                assert(ext@ =~= m);
                                assert(false);
                            } else {
                                assert(base@.take(bi as int).contains(m[sel]));
                            }
                        }
                    }
                }
            } else {
                let ghost exts0 = exts@;
                exts.push(ext);
                proof {
                    assert forall|m: Map<u64, u64>|
                        is_complete_mapping(mnset, me, hn, he, m) && #[trigger] cand@.submap_of(m)
                            && base@.take(bi + 1 as int).contains(m[sel]) implies batch_covers(
                        exts@,
                        *cand,
                        sel,
                        m,
                    ) by {
                        if m[sel] == h {
                            assert(exts@[exts@.len() - 1]@ == cand@.insert(sel, m[sel]));
                            assert(batch_covers(exts@, *cand, sel, m));
                        } else {
                            assert(base@.take(bi as int).contains(m[sel]));
                            let j = choose|j: int|
                                0 <= j < exts0.len() && exts0[j]@ == cand@.insert(sel, m[sel]);
                            assert(exts@[j]@ == cand@.insert(sel, m[sel]));
                            assert(batch_covers(exts@, *cand, sel, m));
                        }
                    }
                }
            }
        } else {
            // Inadmissible: some required edge has no host edge for `h`,
            // so no complete mapping extending the candidate binds `h`.
            proof {
                assert forall|m: Map<u64, u64>|
                    is_complete_mapping(mnset, me, hn, he, m) && #[trigger] cand@.submap_of(m)
                        && base@.take(bi + 1 as int).contains(m[sel]) implies batch_covers(
                    exts@,
                    *cand,
                    sel,
                    m,
                ) by {
                    if m[sel] == h {
                        assert forall|j: int| 0 <= j < kk.len() implies {
                            let k = #[trigger] kk[j];
                            &&& (me.contains((sel, k)) ==> he.contains((h, cand@[k])))
                            &&& (me.contains((k, sel)) ==> he.contains((cand@[k], h)))
                        } by {
                            let k = kk[j];
                            assert(cand@.dom().contains(k));
                            assert(m.dom().contains(k) && m[k] == cand@[k]);
                            assert(m.dom().contains(sel));
                        }
                        assert(admissible_host(me, he, cand@, kk, sel, h));
                        assert(false);
                    } else {
                        assert(base@.take(bi as int).contains(m[sel]));
                    }
                }
            }
        }
        bi += 1;
    }
    proof {
        assert(base@.take(base@.len() as int) =~= base@);
    }
    Ok(exts)
}

/// What a successful search returns: exactly the complete edge-preserving
/// mappings of the motif into the host, each exactly once.
pub open spec fn search_output_ok(
    res: Seq<Mapping>,
    motif: DiGraphMap<u64, i64>,
    host: DiGraphMap<u64, i64>,
) -> bool {
    let mnset = graph_nodes(motif).to_set();
    let me = graph_edges(motif);
    let hn = graph_nodes(host).to_set();
    let he = graph_edges(host);
    &&& forall|i: int|
        0 <= i < res.len() ==> (#[trigger] res[i]).wf() && is_complete_mapping(
            mnset,
            me,
            hn,
            he,
            res[i]@,
        )
    &&& forall|m: Map<u64, u64>|
        #[trigger] is_complete_mapping(mnset, me, hn, he, m) ==> result_holds(res, m)
    &&& all_distinct(res)
    &&& (res.len() > 0 ==> weakly_connected(mnset, me))
}

/// Identify all complete edge-preserving mappings of the motif into the
/// host graph.
///
/// A breadth-first frontier of candidate mappings is seeded with the empty
/// mapping and expanded level by level, one new motif node per level, until
/// every motif node is bound. The result holds every complete mapping
/// exactly once; the fatal disconnected-motif failure is reported as an
/// error, never as a partial result.
#[verifier::loop_isolation(false)]
pub fn find_motifs(motif: DiGraphMap<u64, i64>, host: DiGraphMap<u64, i64>) -> (r: Result<
    Vec<Mapping>,
    MotifError,
>)
    ensures
        match r {
            Ok(res) => search_output_ok(res@, motif, host),
            Err(_) => !weakly_connected(graph_nodes(motif).to_set(), graph_edges(motif)),
        },
{
    let ghost mn = graph_nodes(motif);
    let ghost me = graph_edges(motif);
    let ghost mnset = graph_nodes(motif).to_set();
    let ghost hn = graph_nodes(host).to_set();
    let ghost he = graph_edges(host);

    let n = graph_node_count(&motif);
    if n == 0 {
        // An empty motif has exactly one complete mapping: the empty one.
        let motif_edges = graph_edge_list(&motif);
        let mut out: Vec<Mapping> = Vec::new();
        out.push(Mapping::new());
        proof {
            assert(mnset =~= Set::<u64>::empty());
            assert forall|e: (u64, u64)| !me.contains(e) by {
                if me.contains(e) {
                    assert(motif_edges@.contains(e));
                    let j = choose|j: int| 0 <= j < motif_edges@.len() && motif_edges@[j] == e;
                    assert(mn.contains(motif_edges@[j].0));
                }
            }
            let em = Map::<u64, u64>::empty();
            assert(em.dom() =~= mnset);
            assert(is_complete_mapping(mnset, me, hn, he, em));
            assert forall|m: Map<u64, u64>|
                #[trigger] is_complete_mapping(mnset, me, hn, he, m) implies result_holds(
                out@,
                m,
            ) by {
                assert(m =~= em);
                assert(out@[0]@ == m);
            }
            assert(all_distinct(out@));
            assert forall|part: Set<u64>|
                #[trigger] part.subset_of(mnset) && (exists|x: u64| part.contains(x)) && (exists|
                    y: u64,
                |
                    mnset.contains(y) && !part.contains(y)) implies !separated(
                me,
                part,
                mnset.difference(part),
            ) by {
                let x = choose|x: u64| part.contains(x);
                assert(mnset.contains(x));
                assert(false);
            }
            assert(weakly_connected(mnset, me));
        }
        return Ok(out);
    }

    // The interestingness table, computed once for the whole search.
    let scores = uniform_interestingness(&motif);
    proof {
        vstd::seq_lib::seq_to_set_is_finite(mn);
        mn.unique_seq_to_set();
    }

    let mut results: Vec<Mapping> = Vec::new();
    let mut frontier: Vec<Mapping> = Vec::new();
    frontier.push(Mapping::new());
    proof {
        assert(is_valid_mapping(mnset, me, hn, he, Map::<u64, u64>::empty()));
        assert forall|m: Map<u64, u64>|
            #[trigger] is_complete_mapping(mnset, me, hn, he, m) implies prefix_held(
            frontier@,
            frontier@.len() as int,
            m,
        ) by {
            assert(frontier@[0]@.submap_of(m));
        }
        assert(all_distinct(frontier@));
        assert(all_distinct(results@));
    }
    let ghost mut bound: Seq<u64> = Seq::empty();
    let mut level: usize = 0;
    while level < n
        invariant
            level <= n,
            bound.len() == level,
            bound.no_duplicates(),
            bound.to_set().subset_of(mnset),
            forall|i: int|
                0 <= i < frontier@.len() ==> {
                    let f = #[trigger] frontier@[i];
                    &&& f.wf()
                    &&& f.key_seq() == bound
                    &&& is_valid_mapping(mnset, me, hn, he, f@)
                },
            forall|j: int|
                0 <= j < results@.len() ==> (#[trigger] results@[j]).wf() && is_complete_mapping(
                    mnset,
                    me,
                    hn,
                    he,
                    results@[j]@,
                ),
            all_distinct(frontier@),
            all_distinct(results@),
            frontier@.len() > 0 && level > 0 ==> weakly_connected(bound.to_set(), me),
            results@.len() > 0 ==> weakly_connected(mnset, me),
            level < n ==> results@.len() == 0,
            level == n ==> frontier@.len() == 0,
            forall|m: Map<u64, u64>|
                #[trigger] is_complete_mapping(mnset, me, hn, he, m) ==> result_holds(results@, m)
                    || prefix_held(frontier@, frontier@.len() as int, m),
        decreases n - level,
    {
        proof {
            bound.unique_seq_to_set();
            vstd::seq_lib::seq_to_set_is_finite(bound);
            lemma_proper_subset_witness(bound.to_set(), mnset);
            let w = choose|x: u64| mnset.contains(x) && !bound.to_set().contains(x);
            let wi = choose|j: int| 0 <= j < mn.len() && mn[j] == w;
            lemma_chosen_node_some(mn, me, bound, wi);
            lemma_chosen_node_props(mn, me, bound);
        }
        let ghost sel_g: u64 = chosen_node(mn, me, bound).unwrap();
        let ghost frontier0: Seq<Mapping> = frontier@;
        let mut next: Vec<Mapping> = Vec::new();
        proof {
            assert(frontier@ =~= frontier0.take(frontier@.len() as int));
            assert(all_distinct(frontier0));
            assert(all_distinct(next@));
            lemma_accounted_empty(
                next@,
                frontier0,
                frontier@.len() as int,
                Seq::<Mapping>::empty(),
                0,
            );
            lemma_accounted_empty(
                results@,
                frontier0,
                frontier@.len() as int,
                Seq::<Mapping>::empty(),
                0,
            );
            assert forall|i: int| 0 <= i < frontier0.len() implies (
            #[trigger] frontier0[i])@.dom() == bound.to_set() by {
                frontier0[i].lemma_dom();
            }
            assert forall|m: Map<u64, u64>|
                #[trigger] is_complete_mapping(mnset, me, hn, he, m) implies result_holds(
                results@,
                m,
            ) || prefix_held(frontier0, frontier@.len() as int, m) || prefix_held(
                next@,
                next@.len() as int,
                m,
            ) by {
                if prefix_held(frontier@, frontier@.len() as int, m) {
                    let i = choose|i: int|
                        0 <= i < frontier@.len() && frontier@[i]@.submap_of(m);
                    assert(frontier0[i]@.submap_of(m));
                }
            }
        }
        while frontier.len() > 0
            invariant
                frontier@.len() <= frontier0.len(),
                frontier@ == frontier0.take(frontier@.len() as int),
                forall|j: int|
                    0 <= j < next@.len() ==> {
                        let f = #[trigger] next@[j];
                        &&& f.wf()
                        &&& f.key_seq() == bound.push(sel_g)
                        &&& is_valid_mapping(mnset, me, hn, he, f@)
                    },
                forall|j: int|
                    0 <= j < results@.len() ==> (#[trigger] results@[j]).wf()
                        && is_complete_mapping(mnset, me, hn, he, results@[j]@),
                results@.len() > 0 ==> bound.len() + 1 == mn.len(),
                bound.len() + 1 == mn.len() ==> next@.len() == 0,
                bound.len() > 0 && frontier0.len() > 0 ==> weakly_connected(bound.to_set(), me),
                next@.len() > 0 ==> weakly_connected(bound.push(sel_g).to_set(), me),
                results@.len() > 0 ==> weakly_connected(mnset, me),
                all_distinct(next@),
                all_distinct(results@),
                all_accounted(
                    next@,
                    frontier0,
                    frontier@.len() as int,
                    Seq::<Mapping>::empty(),
                    0,
                ),
                all_accounted(
                    results@,
                    frontier0,
                    frontier@.len() as int,
                    Seq::<Mapping>::empty(),
                    0,
                ),
                forall|m: Map<u64, u64>|
                    #[trigger] is_complete_mapping(mnset, me, hn, he, m) ==> result_holds(
                        results@,
                        m,
                    ) || prefix_held(frontier0, frontier@.len() as int, m) || prefix_held(
                        next@,
                        next@.len() as int,
                        m,
                    ),
            decreases frontier@.len(),
        {
            let cand = match frontier.pop() {
                Some(c) => c,
                None => {
                    proof {
                        assert(false);
                    }
                    Mapping::new()
                },
            };
            let ghost fl = frontier@.len() as int;
            proof {
                assert(frontier@ =~= frontier0.take(fl));
                assert(frontier0.take(fl + 1)[fl] == frontier0[fl]);
                assert(cand == frontier0[fl]);
                cand.lemma_dom();
                assert(cand@.dom() == bound.to_set());
                assert(cand.key_seq().len() < mn.len());
            }
            let mut exts = match get_next_candidates(&cand, &motif, &host, &scores) {
                Ok(v) => v,
                Err(x) => {
                    return Err(x);
                },
            };
            let ghost exts0: Seq<Mapping> = exts@;
            proof {
                assert(expansion_ok(exts0, cand, motif, host));
                assert(chosen_node(mn, me, cand.key_seq()) == Some(sel_g));
                assert(exts@ =~= exts0.take(exts@.len() as int));
                lemma_accounted_rebase(next@, frontier0, fl + 1, exts0, exts@.len() as int);
                lemma_accounted_rebase(results@, frontier0, fl + 1, exts0, exts@.len() as int);
                assert forall|m: Map<u64, u64>|
                    #[trigger] is_complete_mapping(mnset, me, hn, he, m) implies result_holds(
                    results@,
                    m,
                ) || prefix_held(frontier0, fl, m) || prefix_held(next@, next@.len() as int, m)
                    || (cand@.submap_of(m) && batch_covers(exts@, cand, sel_g, m)) by {
                    if prefix_held(frontier0, fl + 1, m) {
                        let i = choose|i: int| 0 <= i < fl + 1 && frontier0[i]@.submap_of(m);
                        if i == fl {
                            assert(cand@.submap_of(m));
                            assert(batch_covers(exts0, cand, sel_g, m));
                        } else {
                            assert(prefix_held(frontier0, fl, m));
                        }
                    }
                }
            }
            while exts.len() > 0
                invariant
                    exts@.len() <= exts0.len(),
                    exts@ == exts0.take(exts@.len() as int),
                    forall|j: int|
                        0 <= j < next@.len() ==> {
                            let f = #[trigger] next@[j];
                            &&& f.wf()
                            &&& f.key_seq() == bound.push(sel_g)
                            &&& is_valid_mapping(mnset, me, hn, he, f@)
                        },
                    forall|j: int|
                        0 <= j < results@.len() ==> (#[trigger] results@[j]).wf()
                            && is_complete_mapping(mnset, me, hn, he, results@[j]@),
                    results@.len() > 0 ==> bound.len() + 1 == mn.len(),
                    bound.len() + 1 == mn.len() ==> next@.len() == 0,
                    bound.len() > 0 ==> weakly_connected(bound.to_set(), me),
                    next@.len() > 0 ==> weakly_connected(bound.push(sel_g).to_set(), me),
                    results@.len() > 0 ==> weakly_connected(mnset, me),
                    all_distinct(next@),
                    all_distinct(results@),
                    all_accounted(next@, frontier0, fl + 1, exts0, exts@.len() as int),
                    all_accounted(results@, frontier0, fl + 1, exts0, exts@.len() as int),
                    forall|m: Map<u64, u64>|
                        #[trigger] is_complete_mapping(mnset, me, hn, he, m) ==> result_holds(
                            results@,
                            m,
                        ) || prefix_held(frontier0, fl, m) || prefix_held(
                            next@,
                            next@.len() as int,
                            m,
                        ) || (cand@.submap_of(m) && batch_covers(exts@, cand, sel_g, m)),
                decreases exts@.len(),
            {
                let ghost exts_pre = exts@;
                let ghost results_pre = results@;
                let ghost next_pre = next@;
                let e = match exts.pop() {
                    Some(e) => e,
                    None => {
                        proof {
                            assert(false);
                        }
                        Mapping::new()
                    },
                };
                let ghost k = exts@.len() as int;
                proof {
                    assert(exts@ =~= exts0.take(k));
                    assert(exts0.take(k + 1)[k] == exts0[k]);
                    assert(e == exts0[k]);
                    assert(e@ == cand@.insert(sel_g, e@[sel_g]));
                    assert(e@.dom() == bound.to_set().insert(sel_g));
                }
                let el = e.len();
                if el == n {
                    proof {
                        assert(bound.len() + 1 == mn.len());
                        lemma_push_take_to_set(bound, sel_g);
                        vstd::seq_lib::seq_to_set_is_finite(bound);
                        assert(e@.dom().len() == bound.len() + 1);
                        lemma_subset_same_len(e@.dom(), mnset);
                        assert(e@.dom() == mnset);
                    }
                    results.push(e);
                    proof {
                        lemma_accounted_widen(next@, frontier0, fl + 1, exts0, k + 1, k);
                        lemma_distinct_push(
                            results@,
                            results_pre,
                            e,
                            exts0,
                            frontier0,
                            cand,
                            k,
                            fl,
                            bound,
                            sel_g,
                        );
                        lemma_accounted_widen(results_pre, frontier0, fl + 1, exts0, k + 1, k);
                        lemma_accounted_push(
                            results@,
                            results_pre,
                            e,
                            frontier0,
                            fl + 1,
                            exts0,
                            k,
                            k,
                        );
                        lemma_push_take_to_set(bound, sel_g);
                        if bound.len() == 0 {
                            assert(bound.to_set() =~= Set::<u64>::empty());
                            lemma_connected_singleton(sel_g, me);
                            assert(weakly_connected(bound.push(sel_g).to_set(), me));
                        } else {
                            lemma_adjacent_count_zero(me, bound, sel_g);
                            let bj = choose|bj: int|
                                0 <= bj < bound.len() && linked(me, sel_g, bound[bj]);
                            assert(bound.to_set().contains(bound[bj]));
                            lemma_connected_grow(bound.to_set(), me, sel_g, bound[bj]);
                            assert(weakly_connected(bound.push(sel_g).to_set(), me));
                        }
                        assert(bound.push(sel_g).to_set() == e@.dom());
                        assert(weakly_connected(mnset, me));
                        assert forall|m: Map<u64, u64>|
                            #[trigger] is_complete_mapping(mnset, me, hn, he, m) implies
                        result_holds(results@, m) || prefix_held(frontier0, fl, m) || prefix_held(
                            next@,
                            next@.len() as int,
                            m,
                        ) || (cand@.submap_of(m) && batch_covers(exts@, cand, sel_g, m)) by {
                            if result_holds(results_pre, m) {
                                let i = choose|i: int|
                                    0 <= i < results_pre.len() && results_pre[i]@ == m;
                                assert(results@[i]@ == m);
                                assert(result_holds(results@, m));
                            } else if cand@.submap_of(m) && batch_covers(
                                exts_pre,
                                cand,
                                sel_g,
                                m,
                            ) {
                                let j = choose|j: int|
                                    0 <= j < exts_pre.len() && exts_pre[j]@ == cand@.insert(
                                        sel_g,
                                        m[sel_g],
                                    );
                                assert(exts_pre[j] == exts0[j]);
                                if j == k {
                                    assert(e@ == cand@.insert(sel_g, m[sel_g]));
                                    lemma_extension_submap(cand@, m, sel_g);
                                    assert(e@.dom() =~= m.dom());
                                    assert(e@ =~= m);
                                    assert(results@[results@.len() - 1]@ == m);
                                    assert(result_holds(results@, m));
                                } else {
                                    assert(exts@[j] == exts0[j]);
                                    assert(exts@[j]@ == cand@.insert(sel_g, m[sel_g]));
                                    assert(batch_covers(exts@, cand, sel_g, m));
                                }
                            }
                        }
                    }
                } else {
                    proof {
                        assert(bound.len() + 1 != mn.len());
                    }
                    next.push(e);
                    proof {
                        lemma_accounted_widen(results@, frontier0, fl + 1, exts0, k + 1, k);
                        lemma_distinct_push(
                            next@,
                            next_pre,
                            e,
                            exts0,
                            frontier0,
                            cand,
                            k,
                            fl,
                            bound,
                            sel_g,
                        );
                        lemma_accounted_widen(next_pre, frontier0, fl + 1, exts0, k + 1, k);
                        lemma_accounted_push(next@, next_pre, e, frontier0, fl + 1, exts0, k, k);
                        lemma_push_take_to_set(bound, sel_g);
                        if bound.len() == 0 {
                            assert(bound.to_set() =~= Set::<u64>::empty());
                            lemma_connected_singleton(sel_g, me);
                            assert(weakly_connected(bound.push(sel_g).to_set(), me));
                        } else {
                            lemma_adjacent_count_zero(me, bound, sel_g);
                            let bj = choose|bj: int|
                                0 <= bj < bound.len() && linked(me, sel_g, bound[bj]);
                            assert(bound.to_set().contains(bound[bj]));
                            lemma_connected_grow(bound.to_set(), me, sel_g, bound[bj]);
                            assert(weakly_connected(bound.push(sel_g).to_set(), me));
                        }
                        assert forall|m: Map<u64, u64>|
                            #[trigger] is_complete_mapping(mnset, me, hn, he, m) implies
                        result_holds(results@, m) || prefix_held(frontier0, fl, m) || prefix_held(
                            next@,
                            next@.len() as int,
                            m,
                        ) || (cand@.submap_of(m) && batch_covers(exts@, cand, sel_g, m)) by {
                            if prefix_held(next_pre, next_pre.len() as int, m) {
                                let i = choose|i: int|
                                    0 <= i < next_pre.len() && next_pre[i]@.submap_of(m);
                                assert(next@[i]@.submap_of(m));
                                assert(prefix_held(next@, next@.len() as int, m));
                            } else if cand@.submap_of(m) && batch_covers(
                                exts_pre,
                                cand,
                                sel_g,
                                m,
                            ) {
                                let j = choose|j: int|
                                    0 <= j < exts_pre.len() && exts_pre[j]@ == cand@.insert(
                                        sel_g,
                                        m[sel_g],
                                    );
                                assert(exts_pre[j] == exts0[j]);
                                if j == k {
                                    assert(e@ == cand@.insert(sel_g, m[sel_g]));
                                    lemma_extension_submap(cand@, m, sel_g);
                                    assert(next@[next@.len() - 1]@.submap_of(m));
                                    assert(prefix_held(next@, next@.len() as int, m));
                                } else {
                                    assert(exts@[j] == exts0[j]);
                                    assert(exts@[j]@ == cand@.insert(sel_g, m[sel_g]));
                                    assert(batch_covers(exts@, cand, sel_g, m));
                                }
                            }
                        }
                    }
                }
            }
            proof {
                lemma_accounted_exit(results@, frontier0, fl, exts0, cand, sel_g);
                lemma_accounted_exit(next@, frontier0, fl, exts0, cand, sel_g);
            }
        }
        frontier = next;
        proof {
            assert(!bound.contains(sel_g));
            assert(bound.push(sel_g).no_duplicates());
            lemma_push_take_to_set(bound, sel_g);
            assert(bound.push(sel_g).to_set().subset_of(mnset));
            if results@.len() > 0 {
                let r0 = results@[0];
                assert(bound.len() + 1 == mn.len());
            }
            assert forall|m: Map<u64, u64>|
                #[trigger] is_complete_mapping(mnset, me, hn, he, m) implies result_holds(
                results@,
                m,
            ) || prefix_held(frontier@, frontier@.len() as int, m) by {
                if prefix_held(frontier0, 0, m) {
                    assert(false);
                }
            }
            bound = bound.push(sel_g);
        }
        level += 1;
    }
    proof {
        assert(frontier@.len() == 0);
        assert forall|m: Map<u64, u64>|
            #[trigger] is_complete_mapping(mnset, me, hn, he, m) implies result_holds(
            results@,
            m,
        ) by {
            if prefix_held(frontier@, frontier@.len() as int, m) {
                assert(false);
            }
        }
    }
    Ok(results)
}

/// Extending a map with a binding the larger map already carries keeps it a
/// submap.
proof fn lemma_extension_submap(c: Map<u64, u64>, m: Map<u64, u64>, s: u64)
    requires
        c.submap_of(m),
        m.dom().contains(s),
    ensures
        c.insert(s, m[s]).submap_of(m),
{
}

/// Pushing one element onto a sequence adds it to the key set.
proof fn lemma_push_take_to_set(s: Seq<u64>, x: u64)
    ensures
        s.push(x).to_set() == s.to_set().insert(x),
{
    assert forall|y: u64| s.push(x).to_set().contains(y) implies s.to_set().insert(x).contains(
        y,
    ) by {
        let j = choose|j: int| 0 <= j < s.push(x).len() && s.push(x)[j] == y;
        if j < s.len() {
            assert(s[j] == y);
        }
    }
    assert forall|y: u64| s.to_set().insert(x).contains(y) implies s.push(x).to_set().contains(
        y,
    ) by {
        if y == x {
            assert(s.push(x)[s.len() as int] == y);
        } else {
            let j = choose|j: int| 0 <= j < s.len() && s[j] == y;
            assert(s.push(x)[j] == y);
        }
    }
    assert(s.push(x).to_set() =~= s.to_set().insert(x));
}

/// The result set is a function of the two graphs alone: two successful
/// searches over one motif and one host find the same mappings, whatever
/// order either returned them in.
pub proof fn lemma_result_set_deterministic(
    res1: Seq<Mapping>,
    res2: Seq<Mapping>,
    motif: DiGraphMap<u64, i64>,
    host: DiGraphMap<u64, i64>,
)
    requires
        search_output_ok(res1, motif, host),
        search_output_ok(res2, motif, host),
    ensures
        forall|m: Map<u64, u64>|
            #![trigger result_holds(res1, m)]
            #![trigger result_holds(res2, m)]
            result_holds(res1, m) <==> result_holds(res2, m),
{
    let mnset = graph_nodes(motif).to_set();
    let me = graph_edges(motif);
    let hn = graph_nodes(host).to_set();
    let he = graph_edges(host);
    assert forall|m: Map<u64, u64>| result_holds(res1, m) implies result_holds(res2, m) by {
        let i = choose|i: int| 0 <= i < res1.len() && res1[i]@ == m;
        assert(is_complete_mapping(mnset, me, hn, he, res1[i]@));
    }
    assert forall|m: Map<u64, u64>| result_holds(res2, m) implies result_holds(res1, m) by {
        let i = choose|i: int| 0 <= i < res2.len() && res2[i]@ == m;
        assert(is_complete_mapping(mnset, me, hn, he, res2[i]@));
    }
}

/// A one-node motif without edges, matched against a host equal to it, has
/// exactly one complete mapping, the node onto itself: a successful search
/// returns it, and returns nothing else.
pub proof fn lemma_single_node_motif(
    res: Seq<Mapping>,
    motif: DiGraphMap<u64, i64>,
    host: DiGraphMap<u64, i64>,
)
    requires
        search_output_ok(res, motif, host),
        graph_nodes(motif).len() == 1,
        graph_edges(motif) == Set::<(u64, u64)>::empty(),
        graph_nodes(host) == graph_nodes(motif),
        graph_edges(host) == graph_edges(motif),
    ensures
        res.len() == 1,
        forall|i: int|
            0 <= i < res.len() ==> (#[trigger] res[i])@ == Map::<u64, u64>::empty().insert(
                graph_nodes(motif)[0],
                graph_nodes(motif)[0],
            ),
{
    let a = graph_nodes(motif)[0];
    let mnset = graph_nodes(motif).to_set();
    let me = graph_edges(motif);
    let m0 = Map::<u64, u64>::empty().insert(a, a);
    assert(graph_nodes(motif).to_set().contains(a));
    assert forall|x: u64| mnset.contains(x) implies x == a by {
        let j = choose|j: int| 0 <= j < graph_nodes(motif).len() && graph_nodes(motif)[j] == x;
    }
    assert(m0.dom() =~= mnset);
    assert(is_complete_mapping(mnset, me, mnset, me, m0));
    assert(result_holds(res, m0));
    let w = choose|i: int| 0 <= i < res.len() && res[i]@ == m0;
    assert(res.len() >= 1);
    assert forall|i: int| 0 <= i < res.len() implies (#[trigger] res[i])@ == m0 by {
        assert(is_complete_mapping(mnset, me, mnset, me, res[i]@));
        assert(res[i]@.dom() == mnset);
        assert(res[i]@.dom().contains(a));
        assert(mnset.contains(res[i]@[a]));
        assert(res[i]@[a] == a);
        assert(res[i]@ =~= m0);
    }
    if res.len() >= 2 {
        assert(res[0]@ == m0);
        assert(res[1]@ == m0);
        assert(res[0]@ != res[1]@);
    }
}

/// The fatal-failure law for disconnected motifs: success in the presence
/// of any complete mapping certifies that the motif is weakly connected.
/// Conversely, a motif that is not weakly connected but admits a complete
/// mapping can never yield a successful search; by the search contract the
/// only remaining outcome is the disconnected-motif error.
pub proof fn lemma_disconnected_motif_fails(
    res: Seq<Mapping>,
    motif: DiGraphMap<u64, i64>,
    host: DiGraphMap<u64, i64>,
    m: Map<u64, u64>,
)
    requires
        search_output_ok(res, motif, host),
        is_complete_mapping(
            graph_nodes(motif).to_set(),
            graph_edges(motif),
            graph_nodes(host).to_set(),
            graph_edges(host),
            m,
        ),
    ensures
        weakly_connected(graph_nodes(motif).to_set(), graph_edges(motif)),
{
    assert(result_holds(res, m));
    let i = choose|i: int| 0 <= i < res.len() && res[i]@ == m;
    assert(res.len() > 0);
}

} // verus!
