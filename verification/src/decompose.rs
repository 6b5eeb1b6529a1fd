//! Splitting a closed set into its irreducible closed sets.
//!
//! A closed set with a perfect matching is split along the strongly
//! connected components of its rotation graph: the public keys of one
//! component, with their mates, form a closed set that no rotation of the
//! matching leaves.

use vstd::prelude::*;
use std::collections::{HashMap, HashSet};
use petgraph::graphmap::GraphMap;
use petgraph::Directed;
use crate::graphs::{
    digraph_add_edge, digraph_add_node, digraph_edges, digraph_new, digraph_nodes,
    digraph_tarjan_scc, graph_add_edge, graph_add_node, graph_edges, graph_maximum_matching,
    graph_new, graph_nodes, is_graph_matching, is_scc_decomposition, joined, matched_nodes, sets_of,
};
use crate::error::Error;
use crate::model::{is_perfect_matching, mates_of, ring_sets, rings_lie_within, rotation_edges};
use crate::sets::{
    lemma_position, lemma_position_of_member, lemma_push_to_set, members, position, set_of,
};

verus! {

broadcast use vstd::std_specs::hash::group_hash_axioms;

/// The position of each member of `order`.
pub(crate) fn positions(order: &Vec<u32>) -> (index: HashMap<u32, usize>)
    requires
        order@.no_duplicates(),
    ensures
        forall|i: int|
            0 <= i < order.len() ==> index@.contains_key(#[trigger] order@[i]) && index@[order@[i]]
                == i,
        forall|x: u32|
            #[trigger] index@.contains_key(x) ==> index@[x] < order.len() && order@[index@[x] as int]
                == x,
{
    let mut index: HashMap<u32, usize> = HashMap::new();
    let mut i: usize = 0;
    while i < order.len()
        invariant
            i <= order.len(),
            order@.no_duplicates(),
            forall|j: int|
                0 <= j < i ==> index@.contains_key(#[trigger] order@[j]) && index@[order@[j]] == j,
            forall|x: u32|
                #[trigger] index@.contains_key(x) ==> index@[x] < i && order@[index@[x] as int] == x,
        decreases order.len() - i,
    {
        index.insert(order[i], i);
        i += 1;
    }
    index
}

/// The edges between the key images at the positions of `kis` and the
/// public keys at the positions of `pks`, or `None` where a key image has no
/// ring or a ring a member outside `pks`.
pub(crate) fn ring_edges(
    kis: &Vec<u32>,
    pks: &Vec<u32>,
    pk_index: &HashMap<u32, usize>,
    rings: &Vec<HashSet<u32>>,
) -> (res: Option<Vec<(usize, usize)>>)
    requires
        forall|i: int|
            0 <= i < pks.len() ==> pk_index@.contains_key(#[trigger] pks@[i]) && pk_index@[pks@[i]]
                == i,
        forall|x: u32|
            #[trigger] pk_index@.contains_key(x) ==> pk_index@[x] < pks.len() && pks@[pk_index@[x] as int]
                == x,
    ensures
        res is Some <==> (forall|a: int|
            0 <= a < kis.len() ==> (#[trigger] kis@[a]) < rings.len() && rings@[kis@[a] as int]@.subset_of(
                pks@.to_set(),
            )),
        res matches Some(edges) ==> {
            &&& forall|e: int|
                0 <= e < edges.len() ==> (#[trigger] edges@[e]).0 < kis.len() && edges@[e].1
                    < pks.len() && rings@[kis@[edges@[e].0 as int] as int]@.contains(
                    pks@[edges@[e].1 as int],
                )
            &&& forall|a: int, b: int|
                0 <= a < kis.len() && 0 <= b < pks.len() && rings@[kis@[a] as int]@.contains(
                    #[trigger] pks@[b],
                ) ==> #[trigger] edges@.contains((a as usize, b as usize))
        },
{
    let mut edges: Vec<(usize, usize)> = Vec::new();
    let mut a: usize = 0;
    while a < kis.len()
        invariant
            a <= kis.len(),
            forall|i: int|
                0 <= i < pks.len() ==> pk_index@.contains_key(#[trigger] pks@[i])
                    && pk_index@[pks@[i]] == i,
            forall|x: u32|
                #[trigger] pk_index@.contains_key(x) ==> pk_index@[x] < pks.len()
                    && pks@[pk_index@[x] as int] == x,
            forall|i: int|
                0 <= i < a ==> (#[trigger] kis@[i]) < rings.len() && rings@[kis@[i] as int]@.subset_of(
                    pks@.to_set(),
                ),
            forall|e: int|
                0 <= e < edges.len() ==> (#[trigger] edges@[e]).0 < a && edges@[e].1 < pks.len()
                    && rings@[kis@[edges@[e].0 as int] as int]@.contains(pks@[edges@[e].1 as int]),
            forall|i: int, b: int|
                0 <= i < a && 0 <= b < pks.len() && rings@[kis@[i] as int]@.contains(
                    #[trigger] pks@[b],
                ) ==> #[trigger] edges@.contains((i as usize, b as usize)),
        decreases kis.len() - a,
    {
        let ki = kis[a];
        if ki as usize >= rings.len() {
            return None;
        }
        let ring = members(&rings[ki as usize]);
        let mut j: usize = 0;
        while j < ring.len()
            invariant
                j <= ring.len(),
                a < kis.len(),
                ki == kis@[a as int],
                ki < rings.len(),
                ring@.to_set() == rings@[ki as int]@,
                forall|i: int|
                    0 <= i < pks.len() ==> pk_index@.contains_key(#[trigger] pks@[i])
                        && pk_index@[pks@[i]] == i,
                forall|x: u32|
                    #[trigger] pk_index@.contains_key(x) ==> pk_index@[x] < pks.len()
                        && pks@[pk_index@[x] as int] == x,
                forall|t: int| 0 <= t < j ==> pks@.contains(#[trigger] ring@[t]),
                forall|e: int|
                    0 <= e < edges.len() ==> (#[trigger] edges@[e]).0 <= a && edges@[e].1
                        < pks.len() && rings@[kis@[edges@[e].0 as int] as int]@.contains(
                        pks@[edges@[e].1 as int],
                    ),
                forall|i: int, b: int|
                    0 <= i < a && 0 <= b < pks.len() && rings@[kis@[i] as int]@.contains(
                        #[trigger] pks@[b],
                    ) ==> #[trigger] edges@.contains((i as usize, b as usize)),
                forall|t: int|
                    0 <= t < j ==> edges@.contains((a, pk_index@[#[trigger] ring@[t]])),
            decreases ring.len() - j,
        {
            let pk = ring[j];
            assert(ring@.to_set().contains(pk));
            match pk_index.get(&pk) {
                None => {
                    proof {
                        assert(!pks@.contains(pk)) by {
                            if pks@.contains(pk) {
                                let i = choose|i: int| 0 <= i < pks@.len() && pks@[i] == pk;
                                assert(pk_index@.contains_key(pks@[i]));
                            }
                        }
                        assert(!rings@[kis@[a as int] as int]@.subset_of(pks@.to_set()));
                    }
                    return None;
                },
                Some(b) => {
                    let ghost prev = edges@;
                    edges.push((a, *b));
                    proof {
                        assert(edges@[prev.len() as int] == (a, *b));
                        assert forall|i: int, c: int|
                            0 <= i < a && 0 <= c < pks.len() && rings@[kis@[i] as int]@.contains(
                                #[trigger] pks@[c],
                            ) implies #[trigger] edges@.contains((i as usize, c as usize)) by {
                            assert(prev.contains((i as usize, c as usize)));
                            let e = choose|e: int|
                                0 <= e < prev.len() && prev[e] == (i as usize, c as usize);
                            assert(edges@[e] == prev[e]);
                        }
                        assert forall|t: int| 0 <= t < j + 1 implies edges@.contains(
                            (a, pk_index@[#[trigger] ring@[t]]),
                        ) by {
                            if t < j {
                                assert(prev.contains((a, pk_index@[ring@[t]])));
                                let e = choose|e: int|
                                    0 <= e < prev.len() && prev[e] == (a, pk_index@[ring@[t]]);
                                assert(edges@[e] == prev[e]);
                            }
                        }
                        assert(pks@[*b as int] == pk);
                    }
                },
            }
            j += 1;
        }
        proof {
            assert(rings@[ki as int]@.subset_of(pks@.to_set())) by {
                assert forall|pk: u32| rings@[ki as int]@.contains(pk) implies pks@.to_set().contains(
                    pk,
                ) by {
                    assert(ring@.contains(pk));
                    let t = choose|t: int| 0 <= t < ring@.len() && ring@[t] == pk;
                    assert(pks@.contains(ring@[t]));
                }
            }
            assert forall|b: int|
                0 <= b < pks.len() && rings@[kis@[a as int] as int]@.contains(
                    #[trigger] pks@[b],
                ) implies edges@.contains((a, b as usize)) by {
                assert(ring@.contains(pks@[b]));
                let t = choose|t: int| 0 <= t < ring@.len() && ring@[t] == pks@[b];
                assert(edges@.contains((a, pk_index@[ring@[t]])));
            }
        }
        a += 1;
    }
    Some(edges)
}

/// A perfect matching by positions: `mate[a]` is the position of the public
/// key matched to the key image at position `a`, and `back` is its inverse.
pub(crate) open spec fn is_position_matching(
    n: nat,
    edges: Seq<(usize, usize)>,
    mate: Seq<usize>,
    back: Seq<usize>,
) -> bool {
    &&& mate.len() == n
    &&& back.len() == n
    &&& forall|a: int|
        0 <= a < n ==> (#[trigger] mate[a]) < n && edges.contains((a as usize, mate[a]))
            && back[mate[a] as int] == a
    &&& forall|b: int| 0 <= b < n ==> (#[trigger] back[b]) < n && mate[back[b] as int] == b
}

/// The edges of the undirected graph on `2 n` nodes that holds the key
/// images at the nodes `0 .. n` and the public keys at the nodes `n .. 2 n`.
spec fn two_sided(n: nat, edges: Seq<(usize, usize)>) -> Seq<(usize, usize)> {
    Seq::new(edges.len(), |e: int| (edges[e].0, (n + edges[e].1) as usize))
}

/// A perfect matching by positions is a matching of the two-sided graph
/// that matches every node.
proof fn lemma_position_matching_is_full(
    n: nat,
    edges: Seq<(usize, usize)>,
    mate: Seq<usize>,
    back: Seq<usize>,
) -> (other: Seq<Option<usize>>)
    requires
        n + n <= usize::MAX,
        forall|e: int| 0 <= e < edges.len() ==> (#[trigger] edges[e]).0 < n && edges[e].1 < n,
        is_position_matching(n, edges, mate, back),
    ensures
        is_graph_matching(n + n, two_sided(n, edges), other),
        matched_nodes(other).len() == n + n,
{
    let other = Seq::new(
        n + n,
        |x: int|
            if x < n {
                Some((n + mate[x]) as usize)
            } else {
                Some(back[x - n])
            },
    );
    let g = two_sided(n, edges);
    assert forall|a: int| 0 <= a < n + n && (#[trigger] other[a]) is Some implies other[a]->0 < n
        + n && other[other[a]->0 as int] == Some(a as usize) && joined(g, a, other[a]->0 as int) by {
        if a < n {
            let e = choose|e: int| 0 <= e < edges.len() && edges[e] == (a as usize, mate[a]);
            assert(g[e] == (a as usize, (n + mate[a]) as usize));
        } else {
            let b = a - n;
            let k = back[b] as int;
            assert(mate[k] == b);
            let e = choose|e: int| 0 <= e < edges.len() && edges[e] == (k as usize, mate[k]);
            assert(g[e] == (k as usize, a as usize));
        }
    }
    vstd::set_lib::lemma_int_range(0, (n + n) as int);
    assert(matched_nodes(other) =~= vstd::set_lib::set_int_range(0, (n + n) as int));
    other
}

/// A matching of the two-sided graph that matches as many nodes as there
/// are matches them all.
proof fn lemma_full_matching(mates: Seq<Option<usize>>, x: int)
    requires
        matched_nodes(mates).len() >= mates.len(),
        0 <= x < mates.len(),
    ensures
        mates[x] is Some,
{
    let all = vstd::set_lib::set_int_range(0, mates.len() as int);
    vstd::set_lib::lemma_int_range(0, mates.len() as int);
    assert(matched_nodes(mates).subset_of(all));
    vstd::set_lib::lemma_len_subset(matched_nodes(mates), all);
    vstd::set_lib::lemma_subset_equality(matched_nodes(mates), all);
    assert(all.contains(x));
}

/// A perfect matching of `n` key images to `n` public keys along the given
/// edges, with its inverse, or `None` where there is none.
pub(crate) fn bipartite_mates(n: usize, edges: &Vec<(usize, usize)>) -> (res: Option<
    (Vec<usize>, Vec<usize>),
>)
    requires
        n + n <= usize::MAX,
        forall|e: int| 0 <= e < edges.len() ==> (#[trigger] edges@[e]).0 < n && edges@[e].1 < n,
    ensures
        res matches Some(found) ==> is_position_matching(n as nat, edges@, found.0@, found.1@),
        res is None ==> !exists|mate: Seq<usize>, back: Seq<usize>|
            is_position_matching(n as nat, edges@, mate, back),
{
    let mut g = graph_new();
    let mut i: usize = 0;
    while i < n
        invariant
            i <= n,
            n + n <= usize::MAX,
            graph_nodes(g).len() == i,
            graph_edges(g) == Seq::<(usize, usize)>::empty(),
        decreases n - i,
    {
        graph_add_node(&mut g, 0);
        i += 1;
    }
    i = 0;
    while i < n
        invariant
            i <= n,
            n + n <= usize::MAX,
            graph_nodes(g).len() == n + i,
            graph_edges(g) == Seq::<(usize, usize)>::empty(),
        decreases n - i,
    {
        graph_add_node(&mut g, 0);
        i += 1;
    }
    let mut e: usize = 0;
    while e < edges.len()
        invariant
            e <= edges.len(),
            n + n <= usize::MAX,
            graph_nodes(g).len() == n + n,
            forall|k: int| 0 <= k < edges.len() ==> (#[trigger] edges@[k]).0 < n && edges@[k].1 < n,
            graph_edges(g) == two_sided(n as nat, edges@).take(e as int),
        decreases edges.len() - e,
    {
        let (a, b) = edges[e];
        graph_add_edge(&mut g, a, n + b);
        proof {
            assert(two_sided(n as nat, edges@).take(e as int + 1) =~= two_sided(n as nat, edges@).take(
                e as int,
            ).push((a, (n + b) as usize)));
        }
        e += 1;
    }
    proof {
        assert(two_sided(n as nat, edges@).take(edges@.len() as int) =~= two_sided(n as nat, edges@));
    }
    let ghost sided = two_sided(n as nat, edges@);
    let mates = graph_maximum_matching(&g);
    let mut mate: Vec<usize> = Vec::new();
    let mut a: usize = 0;
    while a < n
        invariant
            a <= n,
            n + n <= usize::MAX,
            sided == two_sided(n as nat, edges@),
            forall|k: int| 0 <= k < edges.len() ==> (#[trigger] edges@[k]).0 < n && edges@[k].1 < n,
            is_graph_matching((n + n) as nat, sided, mates@),
            forall|other: Seq<Option<usize>>|
                is_graph_matching((n + n) as nat, sided, other) ==> (#[trigger] matched_nodes(
                    other,
                )).len() <= matched_nodes(mates@).len(),
            mate.len() == a,
            forall|k: int|
                0 <= k < a ==> (#[trigger] mate@[k]) < n && mates@[k] == Some((n + mate@[k]) as usize)
                    && edges@.contains((k as usize, mate@[k])),
        decreases n - a,
    {
        match mates[a] {
            None => {
                proof {
                    if exists|m2: Seq<usize>, b2: Seq<usize>|
                        is_position_matching(n as nat, edges@, m2, b2) {
                        let (m2, b2) = choose|m2: Seq<usize>, b2: Seq<usize>|
                            is_position_matching(n as nat, edges@, m2, b2);
                        let other = lemma_position_matching_is_full(n as nat, edges@, m2, b2);
                        lemma_full_matching(mates@, a as int);
                    }
                }
                return None;
            },
            Some(x) => {
                proof {
                    assert(joined(sided, a as int, x as int));
                    let k = choose|k: int|
                        0 <= k < sided.len() && ((#[trigger] sided[k]) == (a as usize, x as usize)
                            || sided[k] == (x as usize, a as usize));
                    assert(sided[k] == (edges@[k].0, (n + edges@[k].1) as usize));
                    assert(x == n + edges@[k].1);
                    assert(edges@[k] == (a, (x - n) as usize));
                }
                mate.push(x - n);
            },
        }
        a += 1;
    }
    let mut back: Vec<usize> = Vec::new();
    let mut b: usize = 0;
    while b < n
        invariant
            b <= n,
            n + n <= usize::MAX,
            sided == two_sided(n as nat, edges@),
            forall|k: int| 0 <= k < edges.len() ==> (#[trigger] edges@[k]).0 < n && edges@[k].1 < n,
            is_graph_matching((n + n) as nat, sided, mates@),
            forall|other: Seq<Option<usize>>|
                is_graph_matching((n + n) as nat, sided, other) ==> (#[trigger] matched_nodes(
                    other,
                )).len() <= matched_nodes(mates@).len(),
            mate.len() == n,
            forall|k: int|
                0 <= k < n ==> (#[trigger] mate@[k]) < n && mates@[k] == Some((n + mate@[k]) as usize)
                    && edges@.contains((k as usize, mate@[k])),
            back.len() == b,
            forall|k: int|
                0 <= k < b ==> (#[trigger] back@[k]) < n && mates@[n + k] == Some(back@[k]),
        decreases n - b,
    {
        match mates[n + b] {
            None => {
                proof {
                    if exists|m2: Seq<usize>, b2: Seq<usize>|
                        is_position_matching(n as nat, edges@, m2, b2) {
                        let (m2, b2) = choose|m2: Seq<usize>, b2: Seq<usize>|
                            is_position_matching(n as nat, edges@, m2, b2);
                        let other = lemma_position_matching_is_full(n as nat, edges@, m2, b2);
                        lemma_full_matching(mates@, n + b);
                    }
                }
                return None;
            },
            Some(x) => {
                proof {
                    assert(joined(sided, n + b, x as int));
                    let k = choose|k: int|
                        0 <= k < sided.len() && ((#[trigger] sided[k]) == ((n + b) as usize, x as usize)
                            || sided[k] == (x as usize, (n + b) as usize));
                    assert(sided[k] == (edges@[k].0, (n + edges@[k].1) as usize));
                    assert(x < n);
                }
                back.push(x);
            },
        }
        b += 1;
    }
    proof {
        assert forall|k: int| 0 <= k < n implies (#[trigger] mate@[k]) < n && edges@.contains(
            (k as usize, mate@[k]),
        ) && back@[mate@[k] as int] == k by {
            let y = mate@[k] as int;
            assert(mates@[k] == Some((n + y) as usize));
            assert(mates@[n + y] == Some(k as usize));
            assert(mates@[n + y] == Some(back@[y]));
        }
        assert forall|k: int| 0 <= k < n implies (#[trigger] back@[k]) < n && mate@[back@[k] as int]
            == k by {
            let x = back@[k] as int;
            assert(mates@[n + k] == Some(x as usize));
            assert(mates@[x] == Some((n + k) as usize));
            assert(mates@[x] == Some((n + mate@[x]) as usize));
        }
    }
    Some((mate, back))
}

/// The edges of the rotation graph, from positions: for every edge between
/// the key image at `a` and the public key at `b` other than the mate of
/// `a`, an edge from that public key to the mate.
pub(crate) open spec fn position_rotation(
    pks: Seq<u32>,
    edges: Seq<(usize, usize)>,
    mate: Seq<usize>,
) -> Set<(u32, u32)> {
    Set::new(
        |x: (u32, u32)|
            exists|e: int|
                0 <= e < edges.len() && mate[(#[trigger] edges[e]).0 as int] != edges[e].1 && x == (
                    pks[edges[e].1 as int],
                    pks[mate[edges[e].0 as int] as int],
                ),
    )
}

/// The rotation graph of a perfect matching by positions.
pub(crate) fn rotation_graph(pks: &Vec<u32>, edges: &Vec<(usize, usize)>, mate: &Vec<usize>) -> (d:
    GraphMap<u32, (), Directed>)
    requires
        forall|e: int|
            0 <= e < edges.len() ==> (#[trigger] edges@[e]).0 < mate.len() && edges@[e].1
                < pks.len(),
        forall|a: int| 0 <= a < mate.len() ==> (#[trigger] mate@[a]) < pks.len(),
    ensures
        digraph_nodes(d) == pks@.to_set(),
        digraph_edges(d) == position_rotation(pks@, edges@, mate@),
{
    let mut d = digraph_new();
    let mut i: usize = 0;
    proof {
        assert(pks@.take(0).to_set() =~= Set::<u32>::empty());
    }
    while i < pks.len()
        invariant
            i <= pks.len(),
            digraph_nodes(d) == pks@.take(i as int).to_set(),
            digraph_edges(d) == Set::<(u32, u32)>::empty(),
        decreases pks.len() - i,
    {
        digraph_add_node(&mut d, pks[i]);
        proof {
            assert(pks@.take(i as int + 1) == pks@.take(i as int).push(pks@[i as int]));
            lemma_push_to_set(pks@.take(i as int), pks@[i as int]);
        }
        i += 1;
    }
    proof {
        assert(pks@.take(pks.len() as int) == pks@);
        assert(position_rotation(pks@, edges@.take(0), mate@) =~= Set::<(u32, u32)>::empty());
    }
    let mut e: usize = 0;
    while e < edges.len()
        invariant
            e <= edges.len(),
            forall|k: int|
                0 <= k < edges.len() ==> (#[trigger] edges@[k]).0 < mate.len() && edges@[k].1
                    < pks.len(),
            forall|a: int| 0 <= a < mate.len() ==> (#[trigger] mate@[a]) < pks.len(),
            digraph_nodes(d) == pks@.to_set(),
            digraph_edges(d) == position_rotation(pks@, edges@.take(e as int), mate@),
        decreases edges.len() - e,
    {
        let (a, b) = edges[e];
        let m = mate[a];
        let ghost before = digraph_edges(d);
        if m != b {
            digraph_add_edge(&mut d, pks[b], pks[m]);
            proof {
                assert(pks@.to_set().contains(pks@[b as int]));
                assert(pks@.to_set().contains(pks@[m as int]));
                assert(pks@.to_set().insert(pks@[b as int]).insert(pks@[m as int]) =~= pks@.to_set());
            }
        }
        proof {
            let shorter = edges@.take(e as int);
            let longer = edges@.take(e as int + 1);
            assert forall|x: (u32, u32)|
                position_rotation(pks@, longer, mate@).contains(x) <==> digraph_edges(d).contains(
                    x,
                ) by {
                if position_rotation(pks@, longer, mate@).contains(x) {
                    let k = choose|k: int|
                        0 <= k < longer.len() && mate@[(#[trigger] longer[k]).0 as int] != longer[k].1
                            && x == (pks@[longer[k].1 as int], pks@[mate@[longer[k].0 as int] as int]);
                    if k < e {
                        assert(shorter[k] == longer[k]);
                        assert(position_rotation(pks@, shorter, mate@).contains(x));
                    }
                }
                if before.contains(x) {
                    let k = choose|k: int|
                        0 <= k < shorter.len() && mate@[(#[trigger] shorter[k]).0 as int]
                            != shorter[k].1 && x == (
                            pks@[shorter[k].1 as int],
                            pks@[mate@[shorter[k].0 as int] as int],
                        );
                    assert(longer[k] == shorter[k]);
                }
                if m != b && x == (pks@[b as int], pks@[m as int]) {
                    assert(longer[e as int] == (a, b));
                }
            }
            assert(digraph_edges(d) =~= position_rotation(pks@, longer, mate@));
        }
        e += 1;
    }
    proof {
        assert(edges@.take(edges.len() as int) == edges@);
    }
    d
}

/// The key image matched to each public key of a component.
pub(crate) fn mates_list(
    part: &Vec<u32>,
    kis: &Vec<u32>,
    pk_index: &HashMap<u32, usize>,
    back: &Vec<usize>,
) -> (list: Vec<u32>)
    requires
        forall|j: int|
            0 <= j < part.len() ==> pk_index@.contains_key(#[trigger] part@[j]) && pk_index@[part@[j]]
                < back.len(),
        forall|b: int| 0 <= b < back.len() ==> (#[trigger] back@[b]) < kis.len(),
    ensures
        list.len() == part.len(),
        forall|j: int|
            0 <= j < part.len() ==> (#[trigger] list@[j]) == kis@[back@[pk_index@[part@[j]] as int] as int],
{
    let mut list: Vec<u32> = Vec::new();
    let mut j: usize = 0;
    while j < part.len()
        invariant
            j <= part.len(),
            forall|t: int|
                0 <= t < part.len() ==> pk_index@.contains_key(#[trigger] part@[t])
                    && pk_index@[part@[t]] < back.len(),
            forall|b: int| 0 <= b < back.len() ==> (#[trigger] back@[b]) < kis.len(),
            list.len() == j,
            forall|t: int|
                0 <= t < j ==> (#[trigger] list@[t]) == kis@[back@[pk_index@[part@[t]] as int] as int],
        decreases part.len() - j,
    {
        let pk = part[j];
        // Every member of the component has a position among the public
        // keys, so the lookup finds it.
        if let Some(b) = pk_index.get(&pk) {
            list.push(kis[back[*b]]);
        }
        j += 1;
    }
    list
}

/// The closed sets held by a vector of pairs of hash sets, as pairs of sets:
/// first the key images, then the public keys.
pub open spec fn part_sets(parts: Seq<(HashSet<u32>, HashSet<u32>)>) -> Seq<(Set<u32>, Set<u32>)> {
    Seq::new(parts.len(), |i: int| (parts[i].0@, parts[i].1@))
}

/// The public keys of each part.
pub open spec fn pk_parts(parts: Seq<(Set<u32>, Set<u32>)>) -> Seq<Set<u32>> {
    Seq::new(parts.len(), |i: int| parts[i].1)
}

/// `parts` is the fine decomposition of the closed set (`kis`, `pks`) under
/// the perfect matching `mate`: the public keys of the parts are the
/// strongly connected components of the rotation graph, in reverse
/// topological order, and the key images of each part are the mates of its
/// public keys.
pub open spec fn is_fine_decomposition(
    rings: Seq<Set<u32>>,
    kis: Set<u32>,
    pks: Set<u32>,
    mate: Map<u32, u32>,
    parts: Seq<(Set<u32>, Set<u32>)>,
) -> bool {
    &&& is_perfect_matching(rings, kis, pks, mate)
    &&& is_scc_decomposition(pks, rotation_edges(rings, kis, mate), pk_parts(parts))
    &&& forall|i: int|
        0 <= i < parts.len() ==> (#[trigger] parts[i]).0 == mates_of(kis, mate, parts[i].1)
}

/// The pair of sets can be decomposed: the two sides are equal in number,
/// the rings of the key images lie within the public keys, and the pair has
/// a perfect matching.
pub open spec fn decomposable(rings: Seq<Set<u32>>, kis: Set<u32>, pks: Set<u32>) -> bool {
    &&& kis.len() == pks.len()
    &&& rings_lie_within(rings, kis, pks)
    &&& exists|mate: Map<u32, u32>| is_perfect_matching(rings, kis, pks, mate)
}

/// `parts` is the fine decomposition of the closed set under some perfect
/// matching of it.
pub open spec fn has_fine_decomposition(
    rings: Seq<Set<u32>>,
    kis: Set<u32>,
    pks: Set<u32>,
    parts: Seq<(Set<u32>, Set<u32>)>,
) -> bool {
    exists|mate: Map<u32, u32>| is_fine_decomposition(rings, kis, pks, mate, parts)
}

/// The mate of each key image, from a perfect matching by positions.
spec fn mate_map(kis: Seq<u32>, pks: Seq<u32>, mate: Seq<usize>) -> Map<u32, u32> {
    Map::new(|ki: u32| kis.contains(ki), |ki: u32| pks[mate[position(kis, ki)] as int])
}

/// A perfect matching by positions is a perfect matching of the key images
/// to the public keys, and its rotation graph is the one built from
/// positions.
proof fn lemma_mate_map(
    rings: Seq<Set<u32>>,
    kis: Seq<u32>,
    pks: Seq<u32>,
    edges: Seq<(usize, usize)>,
    mate: Seq<usize>,
    back: Seq<usize>,
)
    requires
        kis.no_duplicates(),
        pks.no_duplicates(),
        kis.len() == pks.len(),
        is_position_matching(kis.len(), edges, mate, back),
        rings_lie_within(rings, kis.to_set(), pks.to_set()),
        forall|e: int|
            0 <= e < edges.len() ==> (#[trigger] edges[e]).0 < kis.len() && edges[e].1 < pks.len()
                && rings[kis[edges[e].0 as int] as int].contains(pks[edges[e].1 as int]),
        forall|a: int, b: int|
            0 <= a < kis.len() && 0 <= b < pks.len() && rings[kis[a] as int].contains(
                #[trigger] pks[b],
            ) ==> #[trigger] edges.contains((a as usize, b as usize)),
    ensures
        is_perfect_matching(rings, kis.to_set(), pks.to_set(), mate_map(kis, pks, mate)),
        rotation_edges(rings, kis.to_set(), mate_map(kis, pks, mate)) == position_rotation(
            pks,
            edges,
            mate,
        ),
        forall|a: int| 0 <= a < kis.len() ==> mate_map(kis, pks, mate)[#[trigger] kis[a]] == pks[mate[a] as int],
{
    let m = mate_map(kis, pks, mate);
    let ks = kis.to_set();
    let ps = pks.to_set();
    assert forall|a: int| 0 <= a < kis.len() implies m[#[trigger] kis[a]] == pks[mate[a] as int] by {
        lemma_position(kis, a);
    }
    assert forall|ki: u32| #[trigger] ks.contains(ki) implies ki < rings.len() && m.dom().contains(
        ki,
    ) && ps.contains(m[ki]) && rings[ki as int].contains(m[ki]) by {
        lemma_position_of_member(kis, ki);
        let a = position(kis, ki);
        assert(m[kis[a]] == pks[mate[a] as int]);
        assert(edges.contains((a as usize, mate[a])));
        let e = choose|e: int| 0 <= e < edges.len() && edges[e] == (a as usize, mate[a]);
        assert(rings[kis[edges[e].0 as int] as int].contains(pks[edges[e].1 as int]));
    }
    assert forall|x: u32, y: u32|
        #[trigger] ks.contains(x) && #[trigger] ks.contains(y) && x != y implies m[x] != m[y] by {
        lemma_position_of_member(kis, x);
        lemma_position_of_member(kis, y);
        let a = position(kis, x);
        let b = position(kis, y);
        assert(m[kis[a]] == pks[mate[a] as int]);
        assert(m[kis[b]] == pks[mate[b] as int]);
        assert(back[mate[a] as int] == a);
        assert(back[mate[b] as int] == b);
    }
    assert forall|pk: u32| ps.contains(pk) implies exists|ki: u32| #[trigger]
        ks.contains(ki) && m[ki] == pk by {
        lemma_position_of_member(pks, pk);
        let b = position(pks, pk);
        let a = back[b] as int;
        assert(mate[a] == b);
        assert(m[kis[a]] == pks[mate[a] as int]);
        assert(ks.contains(kis[a]));
    }
    let want = rotation_edges(rings, ks, m);
    let have = position_rotation(pks, edges, mate);
    assert forall|x: (u32, u32)| want.contains(x) <==> have.contains(x) by {
        if want.contains(x) {
            let ki = choose|ki: u32|
                #[trigger] ks.contains(ki) && ki < rings.len() && rings[ki as int].contains(x.0)
                    && m[ki] == x.1 && x.0 != x.1;
            lemma_position_of_member(kis, ki);
            let a = position(kis, ki);
            assert(ps.contains(x.0));
            lemma_position_of_member(pks, x.0);
            let b = position(pks, x.0);
            assert(rings[kis[a] as int].contains(pks[b]));
            assert(edges.contains((a as usize, b as usize)));
            let e = choose|e: int| 0 <= e < edges.len() && edges[e] == (a as usize, b as usize);
            assert(m[kis[a]] == pks[mate[a] as int]);
            assert(mate[edges[e].0 as int] != edges[e].1);
        }
        if have.contains(x) {
            let e = choose|e: int|
                0 <= e < edges.len() && mate[(#[trigger] edges[e]).0 as int] != edges[e].1 && x == (
                    pks[edges[e].1 as int],
                    pks[mate[edges[e].0 as int] as int],
                );
            let a = edges[e].0 as int;
            let b = edges[e].1 as int;
            assert(ks.contains(kis[a]));
            assert(m[kis[a]] == pks[mate[a] as int]);
            assert(rings[kis[a] as int].contains(pks[b]));
            assert(pks[b] != pks[mate[a] as int]);
        }
    }
    assert(want =~= have);
}

/// A perfect matching of the key images to the public keys gives one by
/// positions.
proof fn lemma_positions_of(
    rings: Seq<Set<u32>>,
    kis: Seq<u32>,
    pks: Seq<u32>,
    edges: Seq<(usize, usize)>,
    m: Map<u32, u32>,
)
    requires
        kis.no_duplicates(),
        pks.no_duplicates(),
        kis.len() == pks.len(),
        kis.len() <= usize::MAX,
        is_perfect_matching(rings, kis.to_set(), pks.to_set(), m),
        forall|a: int, b: int|
            0 <= a < kis.len() && 0 <= b < pks.len() && rings[kis[a] as int].contains(
                #[trigger] pks[b],
            ) ==> #[trigger] edges.contains((a as usize, b as usize)),
    ensures
        exists|mate: Seq<usize>, back: Seq<usize>|
            is_position_matching(kis.len(), edges, mate, back),
{
    let ks = kis.to_set();
    let ps = pks.to_set();
    let n = kis.len();
    let mate = Seq::new(n, |a: int| position(pks, m[kis[a]]) as usize);
    let back = Seq::new(
        n,
        |b: int| position(kis, choose|ki: u32| #[trigger] ks.contains(ki) && m[ki] == pks[b]) as usize,
    );
    assert forall|a: int| 0 <= a < n implies (#[trigger] mate[a]) < n && edges.contains(
        (a as usize, mate[a]),
    ) && back[mate[a] as int] == a by {
        assert(ks.contains(kis[a]));
        lemma_position_of_member(pks, m[kis[a]]);
        let b = position(pks, m[kis[a]]);
        assert(rings[kis[a] as int].contains(pks[b]));
        let ki = choose|ki: u32| #[trigger] ks.contains(ki) && m[ki] == pks[b];
        assert(ki == kis[a]);
        lemma_position(kis, a);
    }
    assert forall|b: int| 0 <= b < n implies (#[trigger] back[b]) < n && mate[back[b] as int] == b by {
        assert(ps.contains(pks[b]));
        let ki = choose|ki: u32| #[trigger] ks.contains(ki) && m[ki] == pks[b];
        lemma_position_of_member(kis, ki);
        lemma_position(pks, b);
    }
    assert(is_position_matching(n, edges, mate, back));
}

/// One part of the decomposition: the public keys of a component, and the
/// key images matched to them.
fn closed_part(
    part: &Vec<u32>,
    kis: &Vec<u32>,
    pks: &Vec<u32>,
    pk_index: &HashMap<u32, usize>,
    mate: &Vec<usize>,
    back: &Vec<usize>,
    Ghost(edges): Ghost<Seq<(usize, usize)>>,
) -> (pair: (HashSet<u32>, HashSet<u32>))
    requires
        kis.len() == pks.len(),
        kis@.no_duplicates(),
        pks@.no_duplicates(),
        is_position_matching(kis.len() as nat, edges, mate@, back@),
        forall|t: int|
            0 <= t < pks.len() ==> pk_index@.contains_key(#[trigger] pks@[t]) && pk_index@[pks@[t]]
                == t,
        forall|x: u32|
            #[trigger] pk_index@.contains_key(x) ==> pk_index@[x] < pks.len() && pks@[pk_index@[x] as int]
                == x,
        forall|j: int| 0 <= j < part.len() ==> pks@.contains(#[trigger] part@[j]),
    ensures
        pair.1@ == part@.to_set(),
        pair.0@ == mates_of(kis@.to_set(), mate_map(kis@, pks@, mate@), pair.1@),
{
    proof {
        assert forall|j: int| 0 <= j < part.len() implies pk_index@.contains_key(
            #[trigger] part@[j],
        ) && pk_index@[part@[j]] < back.len() by {
            let t = choose|t: int| 0 <= t < pks@.len() && pks@[t] == part@[j];
            assert(pk_index@.contains_key(pks@[t]));
        }
    }
    let list = mates_list(part, kis, pk_index, back);
    let ki_set = set_of(&list);
    let pk_set = set_of(part);
    proof {
        let m = mate_map(kis@, pks@, mate@);
        let want = mates_of(kis@.to_set(), m, pk_set@);
        assert forall|ki: u32| ki_set@.contains(ki) <==> want.contains(ki) by {
            if ki_set@.contains(ki) {
                let j = choose|j: int| 0 <= j < list@.len() && list@[j] == ki;
                let b = pk_index@[part@[j]] as int;
                let a = back@[b] as int;
                assert(list@[j] == kis@[a]);
                assert(mate@[a] == b);
                lemma_position(kis@, a);
                assert(kis@.to_set().contains(kis@[a]));
                assert(part@.contains(part@[j]));
            }
            if want.contains(ki) {
                assert(kis@.contains(ki));
                let a = choose|a: int| 0 <= a < kis@.len() && kis@[a] == ki;
                lemma_position(kis@, a);
                assert(part@.contains(m[ki]));
                let j = choose|j: int| 0 <= j < part@.len() && part@[j] == m[ki];
                let b = pk_index@[part@[j]] as int;
                assert(pks@[b] == pks@[mate@[a] as int]);
                assert(b == mate@[a]);
                assert(back@[mate@[a] as int] == a);
                assert(list@[j] == kis@[back@[b] as int]);
                assert(list@.contains(ki));
            }
        }
        assert(ki_set@ =~= want);
    }
    (ki_set, pk_set)
}

/// Splits a closed set into its irreducible closed sets.
///
/// The closed set is given by its key images and its public keys: as many
/// of the one as of the other, and every ring of a key image of the set
/// within the public keys of the set.  A perfect matching of the set is
/// computed, then the strongly connected components of its rotation graph;
/// each component, with the mates of its public keys, is one part of the
/// result, and the parts come in reverse topological order.
///
/// The set is refused as inconsistent where the two sides differ in number,
/// where a key image has no ring or a ring that leaves the set, and where
/// the set has no perfect matching.
pub fn decompose_closed_set(
    closed_keyimage_set: &HashSet<u32>,
    closed_pk_set: &HashSet<u32>,
    tx_ring_sets: &Vec<HashSet<u32>>,
) -> (res: Result<Vec<(HashSet<u32>, HashSet<u32>)>, Error>)
    requires
        closed_keyimage_set@.len() + closed_keyimage_set@.len() <= usize::MAX,
    ensures
        res is Ok <==> decomposable(
            ring_sets(tx_ring_sets@),
            closed_keyimage_set@,
            closed_pk_set@,
        ),
        res matches Err(e) ==> e == Error::Inconsistency,
        res matches Ok(parts) ==> has_fine_decomposition(
            ring_sets(tx_ring_sets@),
            closed_keyimage_set@,
            closed_pk_set@,
            part_sets(parts@),
        ),
{
    let ghost rings = ring_sets(tx_ring_sets@);
    let kis = members(closed_keyimage_set);
    let pks = members(closed_pk_set);
    if kis.len() != pks.len() {
        return Err(Error::Inconsistency);
    }
    let n = kis.len();
    let pk_index = positions(&pks);
    let edges = match ring_edges(&kis, &pks, &pk_index, tx_ring_sets) {
        Some(edges) => edges,
        None => {
            proof {
                let a = choose|a: int|
                    0 <= a < kis.len() && !((#[trigger] kis@[a]) < tx_ring_sets.len()
                        && tx_ring_sets@[kis@[a] as int]@.subset_of(pks@.to_set()));
                assert(kis@.to_set().contains(kis@[a]));
            }
            return Err(Error::Inconsistency);
        },
    };
    proof {
        assert forall|ki: u32| #[trigger] kis@.to_set().contains(ki) implies ki < rings.len()
            && rings[ki as int].subset_of(pks@.to_set()) by {
            let a = choose|a: int| 0 <= a < kis@.len() && kis@[a] == ki;
            assert(kis@[a] < tx_ring_sets.len());
        }
    }
    let (mate, back) = match bipartite_mates(n, &edges) {
        Some(found) => found,
        None => {
            proof {
                if exists|m: Map<u32, u32>|
                    is_perfect_matching(rings, closed_keyimage_set@, closed_pk_set@, m) {
                    let m = choose|m: Map<u32, u32>|
                        is_perfect_matching(rings, closed_keyimage_set@, closed_pk_set@, m);
                    lemma_positions_of(rings, kis@, pks@, edges@, m);
                }
            }
            return Err(Error::Inconsistency);
        },
    };
    let graph = rotation_graph(&pks, &edges, &mate);
    let sccs = digraph_tarjan_scc(&graph);
    let ghost m = mate_map(kis@, pks@, mate@);
    proof {
        lemma_mate_map(rings, kis@, pks@, edges@, mate@, back@);
    }
    let mut parts: Vec<(HashSet<u32>, HashSet<u32>)> = Vec::new();
    let mut i: usize = 0;
    while i < sccs.len()
        invariant
            i <= sccs.len(),
            kis.len() == pks.len(),
            kis@.no_duplicates(),
            pks@.no_duplicates(),
            kis@.to_set() == closed_keyimage_set@,
            pks@.to_set() == closed_pk_set@,
            closed_keyimage_set@.len() == closed_pk_set@.len(),
            rings_lie_within(rings, closed_keyimage_set@, closed_pk_set@),
            rings == ring_sets(tx_ring_sets@),
            m == mate_map(kis@, pks@, mate@),
            is_perfect_matching(rings, closed_keyimage_set@, closed_pk_set@, m),
            is_scc_decomposition(
                closed_pk_set@,
                rotation_edges(rings, closed_keyimage_set@, m),
                sets_of(sccs@),
            ),
            is_position_matching(kis.len() as nat, edges@, mate@, back@),
            forall|t: int|
                0 <= t < pks.len() ==> pk_index@.contains_key(#[trigger] pks@[t])
                    && pk_index@[pks@[t]] == t,
            forall|x: u32|
                #[trigger] pk_index@.contains_key(x) ==> pk_index@[x] < pks.len()
                    && pks@[pk_index@[x] as int] == x,
            forall|t: int, x: u32|
                0 <= t < sccs.len() && #[trigger] sets_of(sccs@)[t].contains(x) ==> pks@.to_set().contains(
                    x,
                ),
            parts.len() == i,
            forall|t: int|
                0 <= t < i ==> (#[trigger] parts@[t]).1@ == sccs@[t]@.to_set() && parts@[t].0@
                    == mates_of(closed_keyimage_set@, m, parts@[t].1@),
        decreases sccs.len() - i,
    {
        let part = &sccs[i];
        proof {
            assert forall|j: int| 0 <= j < part.len() implies pks@.contains(#[trigger] part@[j]) by {
                assert(part@.contains(part@[j]));
                assert(sets_of(sccs@)[i as int].contains(part@[j]));
            }
        }
        let pair = closed_part(part, &kis, &pks, &pk_index, &mate, &back, Ghost(edges@));
        parts.push(pair);
        i += 1;
    }
    proof {
        let sets = part_sets(parts@);
        assert(pk_parts(sets) =~= sets_of(sccs@));
        assert forall|t: int| 0 <= t < sets.len() implies (#[trigger] sets[t]).0 == mates_of(
            closed_keyimage_set@,
            m,
            sets[t].1,
        ) by {
            assert(parts@[t].0@ == mates_of(closed_keyimage_set@, m, parts@[t].1@));
        }
        assert(is_fine_decomposition(
            ring_sets(tx_ring_sets@),
            closed_keyimage_set@,
            closed_pk_set@,
            m,
            part_sets(parts@),
        ));
        assert(is_perfect_matching(
            ring_sets(tx_ring_sets@),
            closed_keyimage_set@,
            closed_pk_set@,
            m,
        ));
        assert(closed_keyimage_set@.len() == closed_pk_set@.len());
        assert(rings_lie_within(ring_sets(tx_ring_sets@), closed_keyimage_set@, closed_pk_set@));
    }
    Ok(parts)
}

} // verus!
