use vstd::prelude::*;
use crate::alias_map::without;
use crate::edge::EdgeView;
use crate::graph::{GraphView, cross_edges, edges_off, lemma_pair_index, relocated, with_node, without_node};
use crate::index::NodeIndex;
use crate::node::NodeView;

verus! {

/// A filter that every element passes keeps the whole sequence.
proof fn lemma_filter_all<A>(s: Seq<A>, p: spec_fn(A) -> bool)
    requires
        forall|i: int| 0 <= i < s.len() ==> p(#[trigger] s[i]),
    ensures
        s.filter(p) == s,
    decreases s.len(),
{
    reveal(Seq::filter);
    if s.len() > 0 {
        lemma_filter_all(s.drop_last(), p);
        assert(s.drop_last().push(s.last()) =~= s);
    }
}

/// Adding a node keeps every invariant of the graph: ids match positions,
/// registrations are sound and complete, and edges join live nodes.
pub proof fn lemma_add_node_keeps_wf(g: GraphView, alias: Seq<char>)
    requires
        g.wf(),
        g.nodes.len() <= usize::MAX,
    ensures
        with_node(g, alias).wf(),
{
    let h = with_node(g, alias);
    let id = NodeIndex(g.nodes.len() as usize);
    assert forall|i: int| 0 <= i < h.nodes.len() implies (#[trigger] h.nodes[i]).id.0 == i by {
        if i < g.nodes.len() {
            assert(h.nodes[i] == g.nodes[i]);
        }
    }
    assert forall|i: int| 0 <= i < h.nodes.len() implies {
        let a = (#[trigger] h.nodes[i]).alias;
        h.aliases.contains_key(a) && h.aliases[a].contains(NodeIndex(i as usize))
    } by {
        if i < g.nodes.len() {
            let a = g.nodes[i].alias;
            assert(g.nodes[i] == h.nodes[i]);
            if a == alias {
                let j = choose|j: int| 0 <= j < g.aliases[a].len() && g.aliases[a][j] == NodeIndex(i as usize);
                assert(h.aliases[a][j] == NodeIndex(i as usize));
            }
        } else {
            assert(h.aliases[alias].last() == id);
        }
    }
    assert forall|a: Seq<char>, j: int|
        h.aliases.contains_key(a) && 0 <= j < h.aliases[a].len() implies {
            let p = (#[trigger] h.aliases[a][j]).0 as int;
            p < h.nodes.len() && h.nodes[p].alias == a
        } by {
        if a == alias && g.aliases.contains_key(a) && j < g.aliases[a].len() {
            assert(h.aliases[a][j] == g.aliases[a][j]);
        } else if a != alias {
            assert(h.aliases[a] == g.aliases[a]);
        }
    }
    assert forall|k: int| 0 <= k < h.edges.len() implies (#[trigger] h.edges[k]).from.0 < h.nodes.len()
        && h.edges[k].to.0 < h.nodes.len() by {
        assert(h.edges[k] == g.edges[k]);
    }
}

/// The edge at `k` among those added between `fs` and `ts` is the pair of
/// row `k / ts.len()` and column `k % ts.len()`.
pub open spec fn pair_at(relation: Seq<char>, fs: Seq<NodeIndex>, ts: Seq<NodeIndex>, k: int) -> bool {
    let a = k / ts.len() as int;
    let b = k % ts.len() as int;
    &&& 0 <= a < fs.len()
    &&& 0 <= b < ts.len()
    &&& k == a * ts.len() + b
    &&& cross_edges(relation, fs, ts)[k] == (EdgeView { relation, from: fs[a], to: ts[b] })
}

/// Edges added between two lists of positions are one for each ordered pair:
/// there are `fs.len() * ts.len()` of them, the pair `(fs[a], ts[b])` stands
/// at `a * ts.len() + b`, and the edge at `k` is the pair of row
/// `k / ts.len()` and column `k % ts.len()`.
pub proof fn lemma_cross_product(relation: Seq<char>, fs: Seq<NodeIndex>, ts: Seq<NodeIndex>)
    ensures
        cross_edges(relation, fs, ts).len() == fs.len() * ts.len(),
        forall|a: int, b: int|
            #![trigger fs[a], ts[b]]
            0 <= a < fs.len() && 0 <= b < ts.len() ==> a * ts.len() + b < fs.len() * ts.len()
                && cross_edges(relation, fs, ts)[a * ts.len() + b] == (EdgeView {
                relation,
                from: fs[a],
                to: ts[b],
            }),
        forall|k: int|
            0 <= k < cross_edges(relation, fs, ts).len() ==> #[trigger] pair_at(relation, fs, ts, k),
{
    let m = fs.len() as int;
    let n = ts.len() as int;
    assert(m * n >= 0) by (nonlinear_arith)
        requires
            m >= 0,
            n >= 0,
    ;
    assert forall|a: int, b: int|
        #![trigger fs[a], ts[b]]
        0 <= a < fs.len() && 0 <= b < ts.len() implies a * ts.len() + b < fs.len() * ts.len()
            && cross_edges(relation, fs, ts)[a * ts.len() + b] == (EdgeView {
            relation,
            from: fs[a],
            to: ts[b],
        }) by {
        assert(a * n + b < m * n) by (nonlinear_arith)
            requires
                0 <= a < m,
                0 <= b < n,
        ;
        assert(a * n >= 0) by (nonlinear_arith)
            requires
                0 <= a,
                0 <= n,
        ;
        vstd::arithmetic::div_mod::lemma_fundamental_div_mod_converse(a * n + b, n, a, b);
    }
    assert forall|k: int| 0 <= k < cross_edges(relation, fs, ts).len() implies #[trigger] pair_at(
        relation,
        fs,
        ts,
        k,
    ) by {
        lemma_pair_index(k, m, n);
        vstd::arithmetic::div_mod::lemma_fundamental_div_mod(k, n);
        let a = k / n;
        let b = k % n;
        assert(k == a * n + b) by (nonlinear_arith)
            requires
                k == n * a + b,
        ;
    }
}

/// The edge at `k` after removing the node at `i` came from an edge that did
/// not touch `i`, with its endpoints at the old last position moved to `i`.
pub open spec fn kept_edge_at(g: GraphView, i: int, k: int) -> bool {
    let idx = NodeIndex(i as usize);
    let e = edges_off(g.edges, idx)[k];
    &&& g.edges.contains(e)
    &&& e.from != idx
    &&& e.to != idx
    &&& without_node(g, i).edges[k] == relocated(e, NodeIndex((g.nodes.len() - 1) as usize), idx)
}

/// Removing the node at `i`, which is not the last: there is one node fewer;
/// the last node now stands at `i`, under its alias; each edge that did not
/// touch `i` stays, with its endpoints at the old last position moved to `i`;
/// every edge left is such an edge, in the order of the edges it came from;
/// and none touches the old last position.
pub proof fn lemma_swap_remove_relocation(g: GraphView, i: int)
    requires
        g.wf(),
        0 <= i < g.nodes.len() - 1,
    ensures
        without_node(g, i).nodes.len() == g.nodes.len() - 1,
        without_node(g, i).nodes[i] == (NodeView { id: NodeIndex(i as usize), ..g.nodes[g.nodes.len() - 1] }),
        without_node(g, i).nodes[i].alias == g.nodes[g.nodes.len() - 1].alias,
        forall|k: int|
            0 <= k < g.edges.len() && g.edges[k].from != NodeIndex(i as usize) && g.edges[k].to
                != NodeIndex(i as usize) ==> without_node(g, i).edges.contains(
                #[trigger] relocated(
                    g.edges[k],
                    NodeIndex((g.nodes.len() - 1) as usize),
                    NodeIndex(i as usize),
                ),
            ),
        forall|k: int| 0 <= k < without_node(g, i).edges.len() ==> #[trigger] kept_edge_at(g, i, k),
        forall|k: int|
            0 <= k < without_node(g, i).edges.len() ==> (#[trigger] without_node(g, i).edges[k]).from
                != NodeIndex((g.nodes.len() - 1) as usize) && without_node(g, i).edges[k].to
                != NodeIndex((g.nodes.len() - 1) as usize),
{
    let h = without_node(g, i);
    let last = g.nodes.len() - 1;
    let idx = NodeIndex(i as usize);
    let li = NodeIndex(last as usize);
    let kept = edges_off(g.edges, idx);
    let f1 = g.edges.filter(crate::graph::not_from(idx));
    crate::graph::lemma_remove_node_keeps_wf(g, i);
    assert forall|k: int|
        0 <= k < g.edges.len() && g.edges[k].from != idx && g.edges[k].to != idx implies h.edges.contains(
        #[trigger] relocated(g.edges[k], li, idx),
    ) by {
        g.edges.lemma_filter_contains(crate::graph::not_from(idx), k);
        let j = choose|j: int| 0 <= j < f1.len() && f1[j] == g.edges[k];
        f1.lemma_filter_contains(crate::graph::not_to(idx), j);
        let q = choose|q: int| 0 <= q < kept.len() && kept[q] == g.edges[k];
        assert(h.edges[q] == relocated(g.edges[k], li, idx));
    }
    assert forall|k: int| 0 <= k < h.edges.len() implies #[trigger] kept_edge_at(g, i, k) by {
        crate::graph::lemma_edges_off_member(g.edges, idx, k);
    }
    assert forall|k: int| 0 <= k < h.edges.len() implies (#[trigger] h.edges[k]).from != li
        && h.edges[k].to != li by {
        assert(h.edges[k].from.0 < h.nodes.len());
        assert(h.edges[k].to.0 < h.nodes.len());
    }
}

/// Removing what is not there changes nothing: a label the node lacks, a
/// property it lacks, a position its alias's list lacks, an alias that was
/// never used.
pub proof fn lemma_absent_removals(
    n: NodeView,
    label: Seq<char>,
    key: Seq<char>,
    aliases: Map<Seq<char>, Seq<NodeIndex>>,
    alias: Seq<char>,
    ids: Seq<NodeIndex>,
    idx: NodeIndex,
)
    requires
        !n.labels.contains(label),
        !n.props.contains_key(key),
        !aliases.contains_key(alias),
        !ids.contains(idx),
    ensures
        (NodeView { labels: n.labels.filter(|l: Seq<char>| l != label), ..n }) == n,
        (NodeView { props: n.props.remove(key), ..n }) == n,
        aliases.remove(alias) == aliases,
        without(ids, idx) == ids,
{
    assert forall|i: int| 0 <= i < n.labels.len() implies (|l: Seq<char>| l != label)(
        #[trigger] n.labels[i],
    ) by {
        assert(n.labels.contains(n.labels[i]));
    }
    lemma_filter_all(n.labels, |l: Seq<char>| l != label);
    assert(n.props.remove(key) =~= n.props);
    assert(aliases.remove(alias) =~= aliases);
    assert forall|i: int| 0 <= i < ids.len() implies crate::alias_map::other_than(idx)(#[trigger] ids[i]) by {
        assert(ids.contains(ids[i]));
    }
    lemma_filter_all(ids, crate::alias_map::other_than(idx));
}

} // verus!
