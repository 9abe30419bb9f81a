//! Layered layout: nodes are ranked along the edges of their diagram and
//! placed on a grid whose rows are ranks and whose columns count the nodes
//! of a rank in order. The positions in drawing units are taken from the
//! grid by the caller (a cell is 180 wide and 140 high).

pub mod ranking;

use vstd::prelude::*;
use crate::ast::{Connection, Layer, NamedDiagram};
use crate::layout::ranking::{edges_within, is_ranking, topological_ranks};
use crate::text::str_eq;

verus! {

/// Identifiers of the nodes of a layer and of the layers nested in it, the
/// layer's own nodes first, then each nested layer in turn.
pub open spec fn layer_node_ids(l: Layer) -> Seq<Seq<char>>
    decreases l, 1nat,
{
    l.nodes@.map_values(|n: crate::ast::Node| n.id@) + layers_node_ids(l.layers@)
}

/// Identifiers of the nodes of a list of layers, in order.
pub open spec fn layers_node_ids(ls: Seq<Layer>) -> Seq<Seq<char>>
    decreases ls, 0nat,
{
    if ls.len() == 0 {
        Seq::empty()
    } else {
        layers_node_ids(ls.drop_last()) + layer_node_ids(ls.last())
    }
}

fn collect_into(layer: &Layer, ids: &mut Vec<String>)
    ensures
        final(ids)@.map_values(|s: String| s@) == old(ids)@.map_values(|s: String| s@) + layer_node_ids(*layer),
    decreases layer, 1nat,
{
    let ghost start = ids@.map_values(|s: String| s@);
    let mut i: usize = 0;
    while i < layer.nodes.len()
        invariant
            i <= layer.nodes@.len(),
            ids@.map_values(|s: String| s@) == start + layer.nodes@.take(i as int).map_values(|n: crate::ast::Node| n.id@),
        decreases layer.nodes@.len() - i,
    {
        let ghost before = ids@;
        ids.push(layer.nodes[i].id.clone());
        proof {
            assert(ids@.map_values(|s: String| s@) == before.map_values(|s: String| s@).push(layer.nodes@[i as int].id@));
            assert(layer.nodes@.take(i + 1).map_values(|n: crate::ast::Node| n.id@)
                == layer.nodes@.take(i as int).map_values(|n: crate::ast::Node| n.id@).push(layer.nodes@[i as int].id@));
        }
        i = i + 1;
    }
    proof {
        assert(layer.nodes@.take(layer.nodes@.len() as int) == layer.nodes@);
    }
    let ghost mid = ids@.map_values(|s: String| s@);
    collect_layers_into(&layer.layers, 0, ids);
    proof {
        assert(layer.layers@.take(layer.layers@.len() as int) == layer.layers@);
    }
}

fn collect_layers_into(layers: &Vec<Layer>, from: usize, ids: &mut Vec<String>)
    requires
        from <= layers@.len(),
    ensures
        final(ids)@.map_values(|s: String| s@) == old(ids)@.map_values(|s: String| s@)
            + layers_node_ids(layers@.take(layers@.len() as int)).skip(layers_node_ids(layers@.take(from as int)).len() as int),
    decreases layers@, 0nat, layers@.len() - from,
{
    let ghost start = old(ids)@.map_values(|s: String| s@);
    if from < layers.len() {
        let ghost before = ids@.map_values(|s: String| s@);
        collect_into(&layers[from], ids);
        let ghost mid = ids@.map_values(|s: String| s@);
        collect_layers_into(layers, from + 1, ids);
        proof {
            let pre = layers_node_ids(layers@.take(from as int));
            let pre1 = layers_node_ids(layers@.take(from + 1));
            let all = layers_node_ids(layers@.take(layers@.len() as int));
            assert(layers@.take(from + 1).drop_last() == layers@.take(from as int));
            assert(pre1 == pre + layer_node_ids(layers@[from as int]));
            lemma_layers_prefix(layers@, from + 1, layers@.len() as int);
            assert(all.skip(pre.len() as int) == layer_node_ids(layers@[from as int]) + all.skip(pre1.len() as int));
        }
    } else {
        proof {
            assert(layers_node_ids(layers@.take(layers@.len() as int)).skip(layers_node_ids(layers@.take(from as int)).len() as int)
                =~= Seq::<Seq<char>>::empty());
        }
    }
}

proof fn lemma_layers_prefix(ls: Seq<Layer>, a: int, b: int)
    requires
        0 <= a <= b <= ls.len(),
    ensures
        layers_node_ids(ls.take(b)) == layers_node_ids(ls.take(a)) + layers_node_ids(ls.take(b)).skip(layers_node_ids(ls.take(a)).len() as int),
        layers_node_ids(ls.take(a)).len() <= layers_node_ids(ls.take(b)).len(),
    decreases b - a,
{
    if a < b {
        lemma_layers_prefix(ls, a, b - 1);
        assert(ls.take(b).drop_last() == ls.take(b - 1));
        let x = layers_node_ids(ls.take(a));
        let y = layers_node_ids(ls.take(b - 1));
        let z = layers_node_ids(ls.take(b));
        assert(z == y + layer_node_ids(ls[b - 1]));
        assert(z == x + z.skip(x.len() as int));
    } else {
        assert(layers_node_ids(ls.take(b)).skip(layers_node_ids(ls.take(a)).len() as int) == Seq::<Seq<char>>::empty());
    }
}

/// The identifiers of all nodes of a layer tree, the layer's own nodes
/// first, then each nested layer in turn.
pub fn collect_all_node_ids(layer: &Layer) -> (ids: Vec<String>)
    ensures
        ids@.map_values(|s: String| s@) == layer_node_ids(*layer),
{
    let mut ids: Vec<String> = Vec::new();
    collect_into(layer, &mut ids);
    proof {
        assert(Seq::<String>::empty().map_values(|s: String| s@) + layer_node_ids(*layer) == layer_node_ids(*layer));
    }
    ids
}

/// Index of the last identifier equal to `s`, or -1.
pub open spec fn last_index(ids: Seq<Seq<char>>, s: Seq<char>) -> int
    decreases ids.len(),
{
    if ids.len() == 0 {
        -1
    } else if ids.last() == s {
        ids.len() - 1
    } else {
        last_index(ids.drop_last(), s)
    }
}

/// Index of the first identifier equal to `s`, or -1.
pub open spec fn first_index(ids: Seq<Seq<char>>, s: Seq<char>) -> int
    decreases ids.len(),
{
    if ids.len() == 0 {
        -1
    } else {
        let f = first_index(ids.drop_last(), s);
        if f >= 0 {
            f
        } else if ids.last() == s {
            ids.len() - 1
        } else {
            -1
        }
    }
}

/// The edges of a diagram as pairs of node indices: each connection whose
/// two ends name nodes, an end standing for the last node with that name.
pub open spec fn resolved_edges(ids: Seq<Seq<char>>, conns: Seq<Connection>) -> Seq<(usize, usize)>
    decreases conns.len(),
{
    if conns.len() == 0 {
        Seq::empty()
    } else {
        let rest = resolved_edges(ids, conns.drop_last());
        let f = last_index(ids, conns.last().from@);
        let t = last_index(ids, conns.last().to@);
        if f >= 0 && t >= 0 {
            rest.push((f as usize, t as usize))
        } else {
            rest
        }
    }
}

/// Number of nodes before `i` with rank `r`.
pub open spec fn count_rank(rank: Seq<usize>, i: int, r: usize) -> nat
    decreases i,
{
    if i <= 0 {
        0
    } else {
        count_rank(rank, i - 1, r) + if rank[i - 1] == r { 1nat } else { 0nat }
    }
}

/// How many nodes before `i` have the same rank as node `i`.
pub open spec fn column_of(rank: Seq<usize>, i: int) -> nat {
    count_rank(rank, i, rank[i])
}

proof fn lemma_last_index_range(ids: Seq<Seq<char>>, s: Seq<char>)
    ensures
        -1 <= last_index(ids, s) < ids.len(),
        last_index(ids, s) >= 0 ==> ids[last_index(ids, s)] == s,
        last_index(ids, s) < 0 ==> !ids.contains(s),
        forall|j: int| last_index(ids, s) < j < ids.len() ==> ids[j] != s,
    decreases ids.len(),
{
    if ids.len() > 0 {
        lemma_last_index_range(ids.drop_last(), s);
        if ids.last() != s {
            assert forall|j: int| last_index(ids, s) < j < ids.len() implies ids[j] != s by {
                if j < ids.len() - 1 {
                    assert(ids.drop_last()[j] == ids[j]);
                }
            }
            if last_index(ids, s) < 0 {
                assert(!ids.contains(s)) by {
                    if ids.contains(s) {
                        let j = choose|j: int| 0 <= j < ids.len() && ids[j] == s;
                        if j < ids.len() - 1 {
                            assert(ids.drop_last()[j] == s);
                        }
                    }
                }
            }
        }
    }
}

/// The index of the last identifier equal to `s`.
fn find_last(ids: &Vec<String>, s: &str) -> (r: Option<usize>)
    ensures
        match r {
            Some(i) => i as int == last_index(ids@.map_values(|x: String| x@), s@),
            None => last_index(ids@.map_values(|x: String| x@), s@) == -1,
        },
{
    let ghost v = ids@.map_values(|x: String| x@);
    let mut i: usize = ids.len();
    proof {
        assert(v.take(v.len() as int) == v);
    }
    while i > 0
        invariant
            i <= ids@.len(),
            v == ids@.map_values(|x: String| x@),
            last_index(v, s@) == last_index(v.take(i as int), s@),
        decreases i,
    {
        let j = i - 1;
        assert(v.take(i as int).drop_last() == v.take(j as int));
        assert(v.take(i as int).last() == ids@[j as int]@);
        if str_eq(ids[j].as_str(), s) {
            return Some(j);
        }
        i = j;
    }
    None
}

proof fn lemma_first_index(ids: Seq<Seq<char>>, s: Seq<char>)
    ensures
        -1 <= first_index(ids, s) < ids.len(),
        first_index(ids, s) >= 0 ==> ids[first_index(ids, s)] == s,
        first_index(ids, s) >= 0 ==> forall|j: int| 0 <= j < first_index(ids, s) ==> ids[j] != s,
        first_index(ids, s) < 0 ==> forall|j: int| 0 <= j < ids.len() ==> ids[j] != s,
    decreases ids.len(),
{
    if ids.len() > 0 {
        lemma_first_index(ids.drop_last(), s);
        assert forall|j: int| 0 <= j < ids.len() - 1 implies ids.drop_last()[j] == ids[j] by {}
    }
}

proof fn lemma_first_index_take(ids: Seq<Seq<char>>, s: Seq<char>, i: int)
    requires
        0 <= i <= ids.len(),
        forall|j: int| 0 <= j < i ==> ids[j] != s,
    ensures
        first_index(ids.take(i), s) == -1,
    decreases i,
{
    if i > 0 {
        assert(ids.take(i).drop_last() == ids.take(i - 1));
        lemma_first_index_take(ids, s, i - 1);
    }
}

proof fn lemma_first_index_extend(ids: Seq<Seq<char>>, s: Seq<char>, i: int, k: int)
    requires
        0 <= i < k <= ids.len(),
        first_index(ids.take(i + 1), s) == i,
    ensures
        first_index(ids.take(k), s) == i,
    decreases k,
{
    if k > i + 1 {
        lemma_first_index_extend(ids, s, i, k - 1);
        assert(ids.take(k).drop_last() == ids.take(k - 1));
    }
}

/// The index of the first identifier equal to `s`, which is known to occur.
fn find_first(ids: &Vec<String>, s: &str) -> (r: usize)
    requires
        ids@.map_values(|x: String| x@).contains(s@),
    ensures
        r as int == first_index(ids@.map_values(|x: String| x@), s@),
{
    let ghost v = ids@.map_values(|x: String| x@);
    let mut i: usize = 0;
    while i < ids.len()
        invariant
            i <= ids@.len(),
            v == ids@.map_values(|x: String| x@),
            v.contains(s@),
            forall|j: int| 0 <= j < i ==> v[j] != s@,
        decreases ids@.len() - i,
    {
        if str_eq(ids[i].as_str(), s) {
            proof {
                lemma_first_index_take(v, s@, i as int);
                assert(v.take(i + 1).drop_last() == v.take(i as int));
                assert(v.take(i + 1).last() == s@);
                lemma_first_index_extend(v, s@, i as int, v.len() as int);
                assert(v.take(v.len() as int) == v);
            }
            return i;
        }
        i = i + 1;
    }
    proof {
        let j = choose|j: int| 0 <= j < v.len() && v[j] == s@;
    }
    0
}

/// The edges of `conns` between known nodes, as node indices.
fn resolve_edges(ids: &Vec<String>, conns: &Vec<Connection>) -> (edges: Vec<(usize, usize)>)
    ensures
        edges@ == resolved_edges(ids@.map_values(|x: String| x@), conns@),
        edges_within(edges@, ids@.len() as nat),
{
    let ghost v = ids@.map_values(|x: String| x@);
    let mut edges: Vec<(usize, usize)> = Vec::new();
    let mut c: usize = 0;
    while c < conns.len()
        invariant
            c <= conns@.len(),
            v == ids@.map_values(|x: String| x@),
            edges@ == resolved_edges(v, conns@.take(c as int)),
            edges_within(edges@, ids@.len() as nat),
        decreases conns@.len() - c,
    {
        let f = find_last(ids, conns[c].from.as_str());
        let t = find_last(ids, conns[c].to.as_str());
        proof {
            assert(conns@.take(c + 1).drop_last() == conns@.take(c as int));
            assert(conns@.take(c + 1).last() == conns@[c as int]);
            lemma_last_index_range(v, conns@[c as int].from@);
            lemma_last_index_range(v, conns@[c as int].to@);
        }
        match (f, t) {
            (Some(a), Some(b)) => {
                edges.push((a, b));
            },
            _ => {},
        }
        c = c + 1;
    }
    proof {
        assert(conns@.take(conns@.len() as int) == conns@);
    }
    edges
}

/// The grid cell, as (column, row), of every node of a diagram, listed as
/// `collect_all_node_ids` lists the nodes. Rows are topological ranks; the
/// column of a node counts the nodes of its rank listed before it. A node
/// whose identifier occurs more than once takes the cell of the first
/// occurrence.
pub fn layered_cells(diagram: &NamedDiagram) -> (cells: Vec<(usize, usize)>)
    ensures
        cells@.len() == layer_node_ids(diagram.root).len(),
        exists|rank: Seq<usize>, order: Seq<usize>| #![trigger is_ranking(layer_node_ids(diagram.root).len(), resolved_edges(layer_node_ids(diagram.root), diagram.connections@), rank, order)] {
            let ids = layer_node_ids(diagram.root);
            &&& is_ranking(ids.len(), resolved_edges(ids, diagram.connections@), rank, order)
            &&& forall|k: int| 0 <= k < ids.len() ==> {
                let f = first_index(ids, #[trigger] ids[k]);
                cells@[k] == (column_of(rank, f) as usize, rank[f])
            }
        },
{
    let node_ids = collect_all_node_ids(&diagram.root);
    let ghost ids = node_ids@.map_values(|x: String| x@);
    let n = node_ids.len();
    let edges = resolve_edges(&node_ids, &diagram.connections);
    let (rank, order) = topological_ranks(n, &edges);
    // Columns: each node takes the next free column of its rank.
    let mut counts: Vec<usize> = Vec::new();
    let mut r: usize = 0;
    while r < n
        invariant
            r <= n,
            counts@.len() == r,
            forall|j: int| 0 <= j < r ==> #[trigger] counts@[j] == 0,
        decreases n - r,
    {
        counts.push(0);
        r = r + 1;
    }
    let mut column: Vec<usize> = Vec::new();
    let mut i: usize = 0;
    while i < n
        invariant
            i <= n,
            n == rank@.len(),
            is_ranking(n as nat, edges@, rank@, order@),
            counts@.len() == n,
            column@.len() == i,
            forall|x: int| 0 <= x < n ==> #[trigger] counts@[x] == count_rank(rank@, i as int, x as usize),
            forall|x: int| 0 <= x < n ==> #[trigger] counts@[x] <= i,
            forall|j: int| 0 <= j < i ==> #[trigger] column@[j] == column_of(rank@, j),
        decreases n - i,
    {
        let ri = rank[i];
        proof {
            assert(rank@[i as int] < n);
        }
        column.push(counts[ri]);
        let c = counts[ri];
        counts.set(ri, c + 1);
        proof {
            assert forall|x: int| 0 <= x < n implies #[trigger] counts@[x] == count_rank(rank@, i + 1, x as usize) by {}
        }
        i = i + 1;
    }
    // Cells, a repeated identifier taking the cell of its first occurrence.
    let mut cells: Vec<(usize, usize)> = Vec::new();
    let mut k: usize = 0;
    while k < n
        invariant
            k <= n,
            n == rank@.len(),
            n == node_ids@.len(),
            ids == node_ids@.map_values(|x: String| x@),
            column@.len() == n,
            forall|j: int| 0 <= j < n ==> #[trigger] column@[j] == column_of(rank@, j),
            cells@.len() == k,
            forall|j: int| 0 <= j < k ==> {
                let f = first_index(ids, #[trigger] ids[j]);
                cells@[j] == (column_of(rank@, f) as usize, rank@[f])
            },
        decreases n - k,
    {
        proof {
            assert(ids[k as int] == node_ids@[k as int]@);
            assert(ids.contains(ids[k as int]));
        }
        let f = find_first(&node_ids, node_ids[k].as_str());
        proof {
            lemma_first_index(ids, ids[k as int]);
        }
        cells.push((column[f], rank[f]));
        k = k + 1;
    }
    cells
}

} // verus!
