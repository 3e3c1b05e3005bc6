use vstd::prelude::*;
use crate::alias_map::{AliasMap, appended, other_than, replaced, without};
use crate::edge::{Edge, EdgeView};
use crate::error::{Error, GraphResult};
use crate::index::NodeIndex;
use crate::node::{Node, NodeView};
use crate::text::{decimal, push_decimal, push_text};

verus! {

/// Nodes in a dense sequence, directed edges between their positions, and
/// the positions registered under each alias.
#[derive(Debug, PartialEq, Eq)]
pub struct Graph {
    pub aliases: AliasMap,
    pub(crate) nodes: Vec<Node>,
    pub(crate) edges: Vec<Edge>,
}

/// A graph as mathematical values: its nodes in position order, its edges in
/// order of insertion, and the positions registered under each alias.
pub struct GraphView {
    pub nodes: Seq<NodeView>,
    pub edges: Seq<EdgeView>,
    pub aliases: Map<Seq<char>, Seq<NodeIndex>>,
}

impl GraphView {
    /// Each node's id is its position.
    pub open spec fn ids_match(self) -> bool {
        forall|i: int| 0 <= i < self.nodes.len() ==> (#[trigger] self.nodes[i]).id.0 == i
    }

    /// Each position registered under an alias holds a node with that alias.
    pub open spec fn aliases_sound(self) -> bool {
        forall|a: Seq<char>, j: int|
            self.aliases.contains_key(a) && 0 <= j < self.aliases[a].len() ==> {
                let p = (#[trigger] self.aliases[a][j]).0 as int;
                p < self.nodes.len() && self.nodes[p].alias == a
            }
    }

    /// Each node is registered under its alias.
    pub open spec fn aliases_complete(self) -> bool {
        forall|i: int|
            0 <= i < self.nodes.len() ==> {
                let a = (#[trigger] self.nodes[i]).alias;
                self.aliases.contains_key(a) && self.aliases[a].contains(NodeIndex(i as usize))
            }
    }

    /// No position is registered twice under an alias.
    pub open spec fn aliases_distinct(self) -> bool {
        forall|a: Seq<char>| #[trigger] self.aliases.contains_key(a) ==> self.aliases[a].no_duplicates()
    }

    /// Each edge joins two live positions.
    pub open spec fn edges_live(self) -> bool {
        forall|k: int|
            0 <= k < self.edges.len() ==> (#[trigger] self.edges[k]).from.0 < self.nodes.len()
                && self.edges[k].to.0 < self.nodes.len()
    }

    /// The invariants that hold between any two calls.
    pub open spec fn wf(self) -> bool {
        &&& self.ids_match()
        &&& self.aliases_sound()
        &&& self.aliases_complete()
        &&& self.aliases_distinct()
        &&& self.edges_live()
    }
}

/// The node that `add_node` creates at position `id`.
pub open spec fn fresh_node(id: nat, alias: Seq<char>) -> NodeView {
    NodeView { id: NodeIndex(id as usize), alias, labels: Seq::empty(), props: Map::empty() }
}

/// The graph once a node with `alias` has been added.
pub open spec fn with_node(g: GraphView, alias: Seq<char>) -> GraphView {
    let id = NodeIndex(g.nodes.len() as usize);
    GraphView {
        nodes: g.nodes.push(fresh_node(g.nodes.len(), alias)),
        edges: g.edges,
        aliases: g.aliases.insert(alias, appended(g.aliases, alias, id)),
    }
}

/// The nodes at the given positions.
pub open spec fn nodes_at(g: GraphView, ids: Seq<NodeIndex>) -> Seq<NodeView> {
    ids.map_values(|x: NodeIndex| g.nodes[x.0 as int])
}

/// What a list of node references holds.
pub open spec fn node_views(s: Seq<&Node>) -> Seq<NodeView> {
    s.map_values(|n: &Node| n@)
}

/// What a list of edges holds.
pub open spec fn edge_views(s: Seq<Edge>) -> Seq<EdgeView> {
    s.map_values(|e: Edge| e@)
}

/// Holds of an edge that does not leave `idx`.
pub open spec fn not_from(idx: NodeIndex) -> spec_fn(EdgeView) -> bool {
    |e: EdgeView| e.from != idx
}

/// Holds of an edge that does not enter `idx`.
pub open spec fn not_to(idx: NodeIndex) -> spec_fn(EdgeView) -> bool {
    |e: EdgeView| e.to != idx
}

/// One edge for each pair of a source in `fs` and a target in `ts`: the
/// pair `(fs[a], ts[b])` stands at `a * ts.len() + b`.
pub open spec fn cross_edges(relation: Seq<char>, fs: Seq<NodeIndex>, ts: Seq<NodeIndex>) -> Seq<
    EdgeView,
> {
    Seq::new(
        fs.len() * ts.len(),
        |k: int| EdgeView { relation, from: fs[k / ts.len() as int], to: ts[k % ts.len() as int] },
    )
}

/// The message of the error for an alias that has never been used.
pub open spec fn unknown_alias_message(alias: Seq<char>) -> Seq<char> {
    "Failed getting ids with "@ + alias
}

/// Holds of an edge that leaves `idx`.
pub open spec fn leaves(idx: NodeIndex) -> spec_fn(EdgeView) -> bool {
    |e: EdgeView| e.from == idx
}

/// Holds of an edge that enters `idx`.
pub open spec fn enters(idx: NodeIndex) -> spec_fn(EdgeView) -> bool {
    |e: EdgeView| e.to == idx
}

/// The nodes that edges from `id` lead to, in the order of the edges.
pub open spec fn outgoing(g: GraphView, id: NodeIndex) -> Seq<NodeView> {
    g.edges.filter(leaves(id)).map_values(|e: EdgeView| g.nodes[e.to.0 as int])
}

/// The nodes that edges into `id` come from, in the order of the edges.
pub open spec fn incoming(g: GraphView, id: NodeIndex) -> Seq<NodeView> {
    g.edges.filter(enters(id)).map_values(|e: EdgeView| g.nodes[e.from.0 as int])
}

/// A filter keeps only edges of the list it filters.
proof fn lemma_filtered_edges_live(g: GraphView, p: spec_fn(EdgeView) -> bool)
    requires
        g.edges_live(),
    ensures
        (GraphView { edges: g.edges.filter(p), ..g }).edges_live(),
{
    broadcast use Seq::lemma_filter_contains_rev;

    let f = g.edges.filter(p);
    assert forall|k: int| 0 <= k < f.len() implies (#[trigger] f[k]).from.0 < g.nodes.len()
        && f[k].to.0 < g.nodes.len() by {
        assert(f.contains(f[k]));
        assert(g.edges.contains(f[k]));
    }
}

/// The edges that do not leave `idx` (where `by_source`), or that do not
/// enter it, in their order.
fn kept_edges(edges: &Vec<Edge>, idx: NodeIndex, by_source: bool) -> (r: Vec<Edge>)
    ensures
        edge_views(r@) == edge_views(edges@).filter(
            if by_source {
                not_from(idx)
            } else {
                not_to(idx)
            },
        ),
{
    let ghost keep = if by_source {
        not_from(idx)
    } else {
        not_to(idx)
    };
    let mut kept: Vec<Edge> = Vec::new();
    let n = edges.len();
    for i in 0..n
        invariant
            n == edges@.len(),
            keep == (if by_source {
                not_from(idx)
            } else {
                not_to(idx)
            }),
            edge_views(kept@) == edge_views(edges@.subrange(0, i as int)).filter(keep),
    {
        proof {
            assert(edge_views(edges@.subrange(0, i + 1)) =~= edge_views(
                edges@.subrange(0, i as int),
            ).push(edges@[i as int]@));
            edge_views(edges@.subrange(0, i as int)).lemma_filter_push(edges@[i as int]@, keep);
        }
        let e = &edges[i];
        let drop = if by_source {
            e.from == idx
        } else {
            e.to == idx
        };
        if !drop {
            let ghost before = kept@;
            kept.push(e.duplicate());
            proof {
                assert(edge_views(kept@) =~= edge_views(before).push(edges@[i as int]@));
            }
        }
    }
    proof {
        assert(edges@.subrange(0, n as int) =~= edges@);
    }
    kept
}

/// An index below `m * n` splits into a row below `m` and a column below `n`.
pub proof fn lemma_pair_index(k: int, m: int, n: int)
    requires
        0 <= k < m * n,
        0 <= m,
    ensures
        n > 0,
        0 <= k / n < m,
        0 <= k % n < n,
{
    assert(n > 0) by (nonlinear_arith)
        requires
            0 <= k < m * n,
            0 <= m,
    ;
    vstd::arithmetic::div_mod::lemma_fundamental_div_mod(k, n);
    vstd::arithmetic::div_mod::lemma_mod_bound(k, n);
    vstd::arithmetic::div_mod::lemma_div_pos_is_pos(k, n);
    let q = k / n;
    let r = k % n;
    assert(q < m) by (nonlinear_arith)
        requires
            k == n * q + r,
            0 <= r,
            k < m * n,
            n > 0,
            q >= 0,
    ;
}

/// The texts of the nodes, one after another.
pub open spec fn nodes_text(ns: Seq<Node>) -> Seq<char>
    decreases ns.len(),
{
    if ns.len() == 0 {
        Seq::empty()
    } else {
        nodes_text(ns.drop_last()) + ns.last().text()
    }
}

/// One line for an edge: `<from-alias>(<from>) --<relation>--> (<to>)<to-alias>`.
pub open spec fn edge_line(e: EdgeView, nodes: Seq<NodeView>) -> Seq<char> {
    nodes[e.from.0 as int].alias + "("@ + decimal(e.from.0 as nat) + ") --"@ + e.relation + "--> ("@
        + decimal(e.to.0 as nat) + ")"@ + nodes[e.to.0 as int].alias + "\n"@
}

/// The lines of the edges, one after another.
pub open spec fn edges_text(es: Seq<EdgeView>, nodes: Seq<NodeView>) -> Seq<char>
    decreases es.len(),
{
    if es.len() == 0 {
        Seq::empty()
    } else {
        edges_text(es.drop_last(), nodes) + edge_line(es.last(), nodes)
    }
}

/// `x`, unless it is `last`, which becomes `to`.
pub open spec fn moved(x: NodeIndex, last: NodeIndex, to: NodeIndex) -> NodeIndex {
    if x == last {
        to
    } else {
        x
    }
}

/// `e` with each endpoint at `last` moved to `to`.
pub open spec fn relocated(e: EdgeView, last: NodeIndex, to: NodeIndex) -> EdgeView {
    EdgeView { relation: e.relation, from: moved(e.from, last, to), to: moved(e.to, last, to) }
}

/// The edges that neither leave nor enter `idx`.
pub open spec fn edges_off(edges: Seq<EdgeView>, idx: NodeIndex) -> Seq<EdgeView> {
    edges.filter(not_from(idx)).filter(not_to(idx))
}

/// The graph once the node at `i` has been removed by swap and pop: its
/// registration and its edges go, and the last node, where it is another,
/// takes position `i`, with its registration and its edges.
pub open spec fn without_node(g: GraphView, i: int) -> GraphView {
    let last = g.nodes.len() - 1;
    let idx = NodeIndex(i as usize);
    let li = NodeIndex(last as usize);
    let kept = edges_off(g.edges, idx);
    let a = g.nodes[i].alias;
    let unregistered = g.aliases.insert(a, without(g.aliases[a], idx));
    if i == last {
        GraphView { nodes: g.nodes.drop_last(), edges: kept, aliases: unregistered }
    } else {
        let b = g.nodes[last].alias;
        GraphView {
            nodes: g.nodes.update(i, NodeView { id: idx, ..g.nodes[last] }).drop_last(),
            edges: kept.map_values(|e: EdgeView| relocated(e, li, idx)),
            aliases: unregistered.insert(b, replaced(unregistered[b], li, idx)),
        }
    }
}

/// The message of the error for a position past the last node.
pub open spec fn out_of_range_message(count: nat, index: nat) -> Seq<char> {
    "There are "@ + decimal(count) + " nodes but tried to index at "@ + decimal(index)
}

/// Dropping `idx` from a list keeps every other position.
proof fn lemma_without_keeps(s: Seq<NodeIndex>, idx: NodeIndex, x: NodeIndex)
    requires
        s.contains(x),
        x != idx,
    ensures
        without(s, idx).contains(x),
{
    let j = choose|j: int| 0 <= j < s.len() && s[j] == x;
    s.lemma_filter_contains(other_than(idx), j);
}

/// What is left after dropping `idx` was in the list and is not `idx`.
proof fn lemma_without_member(s: Seq<NodeIndex>, idx: NodeIndex, j: int)
    requires
        0 <= j < without(s, idx).len(),
    ensures
        s.contains(without(s, idx)[j]),
        without(s, idx)[j] != idx,
{
    let w = without(s, idx);
    s.lemma_filter_pred(other_than(idx), j);
    assert(w.contains(w[j]));
    s.lemma_filter_contains_rev(other_than(idx), w[j]);
}

/// Replacing a position keeps each entry, moved where it was replaced.
proof fn lemma_replaced_keeps(s: Seq<NodeIndex>, from: NodeIndex, to: NodeIndex, x: NodeIndex)
    requires
        s.contains(x),
    ensures
        replaced(s, from, to).contains(if x == from { to } else { x }),
{
    let j = choose|j: int| 0 <= j < s.len() && s[j] == x;
    assert(replaced(s, from, to)[j] == (if x == from { to } else { x }));
}

/// Dropping a position from a list without repeats leaves one without repeats.
proof fn lemma_without_no_dup(s: Seq<NodeIndex>, idx: NodeIndex)
    requires
        s.no_duplicates(),
    ensures
        without(s, idx).no_duplicates(),
    decreases s.len(),
{
    reveal(Seq::filter);
    if s.len() > 0 {
        let rest = s.drop_last();
        assert(rest.no_duplicates()) by {
            assert forall|a: int, b: int| 0 <= a < rest.len() && 0 <= b < rest.len() && a != b
                implies rest[a] != rest[b] by {
                assert(rest[a] == s[a] && rest[b] == s[b]);
            }
        }
        lemma_without_no_dup(rest, idx);
        let w = without(rest, idx);
        if other_than(idx)(s.last()) {
            if w.contains(s.last()) {
                rest.lemma_filter_contains_rev(other_than(idx), s.last());
                let j = choose|j: int| 0 <= j < rest.len() && rest[j] == s.last();
                assert(s[j] == s[s.len() - 1]);
            }
            assert(without(s, idx) == w.push(s.last()));
            assert forall|a: int, b: int|
                0 <= a < w.len() + 1 && 0 <= b < w.len() + 1 && a != b implies w.push(s.last())[a]
                != w.push(s.last())[b] by {
                if a == w.len() {
                    assert(w.contains(w[b]));
                } else if b == w.len() {
                    assert(w.contains(w[a]));
                }
            }
        } else {
            assert(without(s, idx) == w);
        }
    }
}

/// Replacing `from` by `to`, which a list without repeats lacks, leaves a
/// list without repeats.
proof fn lemma_replaced_no_dup(s: Seq<NodeIndex>, from: NodeIndex, to: NodeIndex)
    requires
        s.no_duplicates(),
        !s.contains(to),
    ensures
        replaced(s, from, to).no_duplicates(),
{
    let r = replaced(s, from, to);
    assert forall|a: int, b: int| 0 <= a < r.len() && 0 <= b < r.len() && a != b implies r[a]
        != r[b] by {
        assert(s.contains(s[a]) && s.contains(s[b]));
    }
}

/// An edge kept by `edges_off` was among the edges and touches neither end
/// of `idx`.
pub proof fn lemma_edges_off_member(edges: Seq<EdgeView>, idx: NodeIndex, k: int)
    requires
        0 <= k < edges_off(edges, idx).len(),
    ensures
        edges.contains(edges_off(edges, idx)[k]),
        edges_off(edges, idx)[k].from != idx,
        edges_off(edges, idx)[k].to != idx,
{
    let f1 = edges.filter(not_from(idx));
    let f2 = f1.filter(not_to(idx));
    f1.lemma_filter_pred(not_to(idx), k);
    assert(f2.contains(f2[k]));
    f1.lemma_filter_contains_rev(not_to(idx), f2[k]);
    let j = choose|j: int| 0 <= j < f1.len() && f1[j] == f2[k];
    edges.lemma_filter_pred(not_from(idx), j);
    assert(f1.contains(f1[j]));
    edges.lemma_filter_contains_rev(not_from(idx), f1[j]);
}

/// Removing a live node keeps every invariant of the graph: ids match
/// positions, registrations are sound and complete, and edges join live nodes.
pub proof fn lemma_remove_node_keeps_wf(g: GraphView, i: int)
    requires
        g.wf(),
        0 <= i < g.nodes.len(),
    ensures
        without_node(g, i).wf(),
{
    let h = without_node(g, i);
    let n = g.nodes.len();
    let last = n - 1;
    let idx = NodeIndex(i as usize);
    let li = NodeIndex(last as usize);
    let a = g.nodes[i].alias;
    let b = g.nodes[last].alias;
    let kept = edges_off(g.edges, idx);
    let a1 = g.aliases.insert(a, without(g.aliases[a], idx));
    assert(g.nodes[i].id == idx);
    assert(g.nodes[last].id == li);
    assert(g.aliases.contains_key(a));
    assert(g.aliases.contains_key(b));
    // ids
    assert forall|p: int| 0 <= p < h.nodes.len() implies (#[trigger] h.nodes[p]).id.0 == p by {
        assert(g.nodes[p].id.0 == p);
    }
    // edges
    assert forall|k: int| 0 <= k < h.edges.len() implies (#[trigger] h.edges[k]).from.0 < h.nodes.len()
        && h.edges[k].to.0 < h.nodes.len() by {
        lemma_edges_off_member(g.edges, idx, k);
        let j = choose|j: int| 0 <= j < g.edges.len() && g.edges[j] == kept[k];
        assert(g.edges[j].from.0 < n && g.edges[j].to.0 < n);
    }
    // an entry of the unregistered map is a live position other than i
    assert forall|c: Seq<char>, j: int|
        a1.contains_key(c) && 0 <= j < a1[c].len() implies {
            let q = (#[trigger] a1[c][j]).0 as int;
            q < n && q != i && g.nodes[q].alias == c
        } by {
        if c == a {
            lemma_without_member(g.aliases[a], idx, j);
            let w = without(g.aliases[a], idx);
            let j0 = choose|j0: int| 0 <= j0 < g.aliases[a].len() && g.aliases[a][j0] == w[j];
            assert(g.aliases[a][j0].0 < n);
        } else {
            assert(g.aliases[c][j].0 < n);
        }
    }
    // soundness
    assert forall|c: Seq<char>, j: int|
        h.aliases.contains_key(c) && 0 <= j < h.aliases[c].len() implies {
            let p = (#[trigger] h.aliases[c][j]).0 as int;
            p < h.nodes.len() && h.nodes[p].alias == c
        } by {
        if i == last {
            let q = a1[c][j].0 as int;
            assert(q < n && q != i && g.nodes[q].alias == c);
        } else if c == b {
            let q = a1[b][j];
            assert(q.0 < n && q.0 != i && g.nodes[q.0 as int].alias == b);
            assert(h.aliases[b][j] == moved(q, li, idx));
        } else {
            let q = a1[c][j].0 as int;
            assert(q < n && q != i && g.nodes[q].alias == c);
            assert(h.aliases[c] == a1[c]);
        }
    }
    // no repeats
    assert forall|c: Seq<char>| #[trigger] h.aliases.contains_key(c) implies h.aliases[c].no_duplicates() by {
        lemma_without_no_dup(g.aliases[a], idx);
        if i != last && c == b {
            if a1[b].contains(idx) {
                let j = choose|j: int| 0 <= j < a1[b].len() && a1[b][j] == idx;
                assert(a1[b][j].0 != i);
            }
            lemma_replaced_no_dup(a1[b], li, idx);
        }
    }
    // completeness
    assert forall|p: int| 0 <= p < h.nodes.len() implies {
        let c = (#[trigger] h.nodes[p]).alias;
        h.aliases.contains_key(c) && h.aliases[c].contains(NodeIndex(p as usize))
    } by {
        let src = if p == i { last } else { p };
        let c = g.nodes[src].alias;
        assert(h.nodes[p].alias == c);
        assert(g.aliases[c].contains(NodeIndex(src as usize)));
        assert(src != i);
        if c == a {
            lemma_without_keeps(g.aliases[a], idx, NodeIndex(src as usize));
        }
        assert(a1[c].contains(NodeIndex(src as usize)));
        if i != last && c == b {
            lemma_replaced_keeps(a1[b], li, idx, NodeIndex(src as usize));
        }
    }
}

/// The error for a position past the last node.
fn out_of_range(count: usize, index: usize) -> (r: Error)
    ensures
        r.message() == out_of_range_message(count as nat, index as nat),
{
    let mut msg = String::new();
    push_text(&mut msg, "There are ");
    push_decimal(&mut msg, count);
    push_text(&mut msg, " nodes but tried to index at ");
    push_decimal(&mut msg, index);
    Error::Text(msg)
}

/// Moves every endpoint at `last` to `to`.
fn relocate_edges(edges: &mut Vec<Edge>, last: NodeIndex, to: NodeIndex)
    ensures
        edge_views(final(edges)@) == edge_views(old(edges)@).map_values(
            |e: EdgeView| relocated(e, last, to),
        ),
{
    let n = edges.len();
    for k in 0..n
        invariant
            n == edges@.len(),
            n == old(edges)@.len(),
            forall|j: int| 0 <= j < k ==> (#[trigger] edges@[j])@ == relocated(old(edges)@[j]@, last, to),
            forall|j: int| k <= j < n ==> (#[trigger] edges@[j]) == old(edges)@[j],
    {
        let e = &mut edges[k];
        if e.from == last {
            e.from = to;
        }
        if e.to == last {
            e.to = to;
        }
    }
    proof {
        assert(edge_views(edges@) =~= edge_views(old(edges)@).map_values(
            |e: EdgeView| relocated(e, last, to),
        ));
    }
}

/// Appends the line of `e`.
fn write_edge_line(out: &mut String, e: &Edge, nodes: &Vec<Node>)
    requires
        e.from.0 < nodes@.len(),
        e.to.0 < nodes@.len(),
    ensures
        final(out)@ == old(out)@ + edge_line(e@, nodes@.map_values(|n: Node| n@)),
{
    push_text(out, nodes[e.from.0].alias.as_str());
    push_text(out, "(");
    push_decimal(out, e.from.0);
    push_text(out, ") --");
    push_text(out, e.relation.as_str());
    push_text(out, "--> (");
    push_decimal(out, e.to.0);
    push_text(out, ")");
    push_text(out, nodes[e.to.0].alias.as_str());
    push_text(out, "\n");
}

/// The error for an alias that has never been used.
fn unknown_alias(alias: &str) -> (r: Error)
    ensures
        r.message() == unknown_alias_message(alias@),
{
    let mut msg = String::new();
    push_text(&mut msg, "Failed getting ids with ");
    push_text(&mut msg, alias);
    proof {
        assert(msg@ =~= unknown_alias_message(alias@));
    }
    Error::Text(msg)
}

/// The nodes at the far end of the edges that leave `id` (where
/// `by_source`) or enter it.
fn neighbors<'a>(nodes: &'a Vec<Node>, edges: &Vec<Edge>, id: NodeIndex, by_source: bool) -> (r: Vec<
    &'a Node,
>)
    requires
        graph_view(nodes@, edges@, Map::empty()).edges_live(),
    ensures
        node_views(r@) == (if by_source {
            outgoing(graph_view(nodes@, edges@, Map::empty()), id)
        } else {
            incoming(graph_view(nodes@, edges@, Map::empty()), id)
        }),
{
    let ghost g = graph_view(nodes@, edges@, Map::empty());
    let ghost pick = if by_source { leaves(id) } else { enters(id) };
    let ghost far = if by_source {
        |e: EdgeView| g.nodes[e.to.0 as int]
    } else {
        |e: EdgeView| g.nodes[e.from.0 as int]
    };
    let mut found: Vec<&Node> = Vec::new();
    let n = edges.len();
    for i in 0..n
        invariant
            n == edges@.len(),
            g == graph_view(nodes@, edges@, Map::empty()),
            g.edges_live(),
            pick == (if by_source { leaves(id) } else { enters(id) }),
            far == (if by_source {
                |e: EdgeView| g.nodes[e.to.0 as int]
            } else {
                |e: EdgeView| g.nodes[e.from.0 as int]
            }),
            node_views(found@) == edge_views(edges@.subrange(0, i as int)).filter(pick).map_values(far),
    {
        proof {
            assert(edge_views(edges@.subrange(0, i + 1)) =~= edge_views(
                edges@.subrange(0, i as int),
            ).push(edges@[i as int]@));
            edge_views(edges@.subrange(0, i as int)).lemma_filter_push(edges@[i as int]@, pick);
            assert(g.edges[i as int] == edges@[i as int]@);
        }
        let e = &edges[i];
        let hit = if by_source {
            e.from == id
        } else {
            e.to == id
        };
        if hit {
            let p = if by_source {
                e.to.0
            } else {
                e.from.0
            };
            let ghost before = found@;
            found.push(&nodes[p]);
            proof {
                let sub = edge_views(edges@.subrange(0, i as int)).filter(pick);
                assert(sub.push(edges@[i as int]@).map_values(far) =~= sub.map_values(far).push(
                    far(edges@[i as int]@),
                ));
                assert(node_views(found@) =~= node_views(before).push(nodes@[p as int]@));
            }
        }
    }
    proof {
        assert(edges@.subrange(0, n as int) =~= edges@);
    }
    found
}

/// The graph that stored nodes, edges and aliases stand for.
pub open spec fn graph_view(nodes: Seq<Node>, edges: Seq<Edge>, aliases: Map<Seq<char>, Seq<NodeIndex>>) -> GraphView {
    GraphView { nodes: nodes.map_values(|n: Node| n@), edges: edge_views(edges), aliases }
}

impl View for Graph {
    type V = GraphView;

    open(crate) spec fn view(&self) -> GraphView {
        graph_view(self.nodes@, self.edges@, self.aliases@)
    }
}

impl Graph {
    /// Liveness of the edges does not depend on the aliases.
    proof fn lemma_edges_live_alone(&self)
        requires
            self.wf(),
        ensures
            graph_view(self.nodes@, self.edges@, Map::empty()).edges_live(),
    {
        let g = graph_view(self.nodes@, self.edges@, Map::empty());
        assert(g.nodes == self@.nodes && g.edges == self@.edges);
        assert forall|k: int| 0 <= k < g.edges.len() implies (#[trigger] g.edges[k]).from.0 < g.nodes.len()
            && g.edges[k].to.0 < g.nodes.len() by {
            assert(g.edges[k] == self@.edges[k]);
        }
    }

    /// The graph's invariants, and those of its alias map and of its nodes.
    pub open(crate) spec fn wf(&self) -> bool {
        &&& self@.wf()
        &&& self.aliases.wf()
        &&& forall|i: int| 0 <= i < self.nodes@.len() ==> (#[trigger] self.nodes@[i]).wf()
    }

    /// An empty graph.
    pub fn new() -> (r: Graph)
        ensures
            r.wf(),
            r@.nodes.len() == 0,
            r@.edges.len() == 0,
            r@.aliases == Map::<Seq<char>, Seq<NodeIndex>>::empty(),
    {
        Graph { aliases: AliasMap::new(), nodes: Vec::new(), edges: Vec::new() }
    }

    /// Adds a node with `alias` at the next position and registers it.
    pub fn add_node(&mut self, alias: &str) -> (r: GraphResult<&mut Self>)
        requires
            old(self).wf(),
        ensures
            r is Ok,
            r->Ok_0.wf(),
            r->Ok_0@ == with_node(old(self)@, alias@),
            *final(self) == *final(r->Ok_0),
    {
        let id = NodeIndex(self.nodes.len());
        let ghost g = self@;
        self.aliases.insert(alias, id);
        self.nodes.push(Node::new(id, alias.to_owned()));
        proof {
            let h = with_node(g, alias@);
            assert(self@.nodes =~= h.nodes);
            assert(self@.edges =~= h.edges);
            crate::laws::lemma_add_node_keeps_wf(g, alias@);
            assert forall|i: int| 0 <= i < self.nodes@.len() implies (#[trigger] self.nodes@[i]).wf() by {
                if i < g.nodes.len() {
                    assert(self.nodes@[i] == old(self).nodes@[i]);
                }
            }
        }
        Ok(self)
    }

    /// The text that shows the graph to a person: the nodes, then one line
    /// for each edge.
    pub open(crate) spec fn text(&self) -> Seq<char> {
        "Nodes:\n"@ + nodes_text(self.nodes@) + "Edges:\n"@ + edges_text(self@.edges, self@.nodes)
    }

    /// The graph's text.
    pub fn render(&self) -> (r: String)
        requires
            self.wf(),
        ensures
            r@ == self.text(),
    {
        let mut out = String::new();
        push_text(&mut out, "Nodes:\n");
        let n = self.nodes.len();
        for i in 0..n
            invariant
                n == self.nodes@.len(),
                out@ == "Nodes:\n"@ + nodes_text(self.nodes@.subrange(0, i as int)),
        {
            self.nodes[i].write_to(&mut out);
            proof {
                let next = self.nodes@.subrange(0, i + 1);
                assert(next.drop_last() =~= self.nodes@.subrange(0, i as int));
                assert(out@ =~= "Nodes:\n"@ + nodes_text(next));
            }
        }
        push_text(&mut out, "Edges:\n");
        let ghost base = out@;
        let m = self.edges.len();
        for k in 0..m
            invariant
                self@.edges_live(),
                m == self.edges@.len(),
                out@ == base + edges_text(self@.edges.subrange(0, k as int), self@.nodes),
        {
            let e = &self.edges[k];
            proof {
                assert(self@.edges[k as int] == e@);
            }
            write_edge_line(&mut out, e, &self.nodes);
            proof {
                let next = self@.edges.subrange(0, k + 1);
                assert(next.drop_last() =~= self@.edges.subrange(0, k as int));
                assert(next.last() == e@);
                assert(out@ =~= base + edges_text(next, self@.nodes));
            }
        }
        proof {
            assert(self.nodes@.subrange(0, n as int) =~= self.nodes@);
            assert(self@.edges.subrange(0, m as int) =~= self@.edges);
        }
        out
    }

    /// Removes the node at `id` by swap and pop: the last node, where it is
    /// another, moves into position `id`, and its registration and edges
    /// follow it. The removed node's registration and every edge that touches
    /// it go. A position past the last node is an error.
    pub fn remove_node_by_id(&mut self, id: &NodeIndex) -> (r: GraphResult<&mut Self>)
        requires
            old(self).wf(),
        ensures
            id.0 >= old(self)@.nodes.len() ==> r is Err && r->Err_0.message() == out_of_range_message(
                old(self)@.nodes.len(),
                id.0 as nat,
            ) && *final(self) == *old(self),
            id.0 < old(self)@.nodes.len() ==> r is Ok && r->Ok_0.wf() && r->Ok_0@ == without_node(
                old(self)@,
                id.0 as int,
            ) && *final(self) == *final(r->Ok_0),
    {
        let count = self.nodes.len();
        if id.0 >= count {
            return Err(out_of_range(count, id.0));
        }
        let ghost g = self@;
        let i = id.0;
        proof {
            assert(old(self).nodes@[i as int]@ == g.nodes[i as int]);
            assert(g.aliases.contains_key(g.nodes[i as int].alias));
            assert(g.nodes[count - 1].alias == old(self).nodes@[count - 1].alias@);
            lemma_remove_node_keeps_wf(g, i as int);
        }
        let removed = self.nodes.swap_remove(i);
        let _ = self.aliases.remove_id_at(removed.alias.as_str(), id);
        let from_kept = kept_edges(&self.edges, *id, true);
        self.edges = kept_edges(&from_kept, *id, false);
        proof {
            assert(edge_views(self.edges@) == edges_off(g.edges, *id));
        }
        if i < self.nodes.len() {
            let last = self.nodes[i].id;
            proof {
                assert(self.nodes@[i as int] == old(self).nodes@[count - 1]);
                assert(g.nodes[count - 1].id.0 == count - 1);
                assert(g.aliases.contains_key(g.nodes[count - 1].alias));
            }
            let _ = self.aliases.change_id_at(self.nodes[i].alias.as_str(), &last, *id);
            relocate_edges(&mut self.edges, last, *id);
            self.nodes[i].id = *id;
        }
        proof {
            let h = without_node(g, i as int);
            assert(self@.nodes =~= h.nodes);
            assert(self@.edges =~= h.edges);
            assert(self@.aliases =~= h.aliases);
            assert forall|p: int| 0 <= p < self.nodes@.len() implies (#[trigger] self.nodes@[p]).wf() by {
                if p == i {
                    assert(old(self).nodes@[count - 1].wf());
                } else {
                    assert(self.nodes@[p] == old(self).nodes@[p]);
                }
            }
        }
        Ok(self)
    }

    /// The graph with `n` in place of the node at `p`: still well formed where
    /// `n` keeps that node's id and alias.
    proof fn lemma_replace_node(&self, p: int, n: Node)
        requires
            self.wf(),
            0 <= p < self.nodes@.len(),
        ensures
            graph_view(self.nodes@.update(p, n), self.edges@, self.aliases@).nodes
                == self@.nodes.update(p, n@),
            (n@.id == self@.nodes[p].id && n@.alias == self@.nodes[p].alias && n.wf()) ==> {
                &&& graph_view(self.nodes@.update(p, n), self.edges@, self.aliases@).wf()
                &&& forall|q: int|
                    0 <= q < self.nodes@.len() ==> (#[trigger] self.nodes@.update(p, n)[q]).wf()
            },
    {
        let g = self@;
        let h = graph_view(self.nodes@.update(p, n), self.edges@, self.aliases@);
        assert(h.nodes =~= g.nodes.update(p, n@));
        if n@.id == self@.nodes[p].id && n@.alias == self@.nodes[p].alias && n.wf() {
            assert forall|q: int| 0 <= q < h.nodes.len() implies (#[trigger] h.nodes[q]).id.0 == q by {
                assert(g.nodes[q].id.0 == q);
            }
            assert forall|c: Seq<char>, j: int|
                h.aliases.contains_key(c) && 0 <= j < h.aliases[c].len() implies {
                    let q = (#[trigger] h.aliases[c][j]).0 as int;
                    q < h.nodes.len() && h.nodes[q].alias == c
                } by {
                assert(g.aliases[c][j] == h.aliases[c][j]);
            }
            assert forall|q: int| 0 <= q < h.nodes.len() implies {
                let c = (#[trigger] h.nodes[q]).alias;
                h.aliases.contains_key(c) && h.aliases[c].contains(NodeIndex(q as usize))
            } by {
                assert(g.nodes[q].alias == h.nodes[q].alias);
            }
            assert forall|k: int| 0 <= k < h.edges.len() implies (#[trigger] h.edges[k]).from.0 < h.nodes.len()
                && h.edges[k].to.0 < h.nodes.len() by {
                assert(g.edges[k] == h.edges[k]);
            }
            assert forall|q: int| 0 <= q < self.nodes@.len() implies (#[trigger] self.nodes@.update(p, n)[q]).wf() by {
                if q != p {
                    assert(self.nodes@[q].wf());
                }
            }
        }
    }

    /// The node at `idx`, to change in place, if there is one. The graph
    /// stays well formed where the node keeps its id and alias.
    pub fn get_node_mut_by_idx(&mut self, idx: &NodeIndex) -> (r: Option<&mut Node>)
        requires
            old(self).wf(),
        ensures
            r is Some <==> idx.0 < old(self)@.nodes.len(),
            r is None ==> *final(self) == *old(self),
            r matches Some(n) ==> n@ == old(self)@.nodes[idx.0 as int] && n.wf(),
            r matches Some(n) ==> final(self)@ == (GraphView {
                nodes: old(self)@.nodes.update(idx.0 as int, final(n)@),
                ..old(self)@
            }),
            r matches Some(n) ==> (final(n)@.id == n@.id && final(n)@.alias == n@.alias && final(n).wf()
                ==> final(self).wf()),
    {
        if idx.0 < self.nodes.len() {
            Some(self.node_mut(idx.0))
        } else {
            None
        }
    }

    /// The node added last, to change in place, if there is one. The graph
    /// stays well formed where the node keeps its id and alias.
    pub fn get_last_node_mut(&mut self) -> (r: Option<&mut Node>)
        requires
            old(self).wf(),
        ensures
            r is Some <==> old(self)@.nodes.len() > 0,
            r is None ==> *final(self) == *old(self),
            r matches Some(n) ==> n@ == old(self)@.nodes.last() && n.wf(),
            r matches Some(n) ==> final(self)@ == (GraphView {
                nodes: old(self)@.nodes.update(old(self)@.nodes.len() - 1, final(n)@),
                ..old(self)@
            }),
            r matches Some(n) ==> (final(n)@.id == n@.id && final(n)@.alias == n@.alias && final(n).wf()
                ==> final(self).wf()),
    {
        let n = self.nodes.len();
        if n > 0 {
            Some(self.node_mut(n - 1))
        } else {
            None
        }
    }

    /// The node at `p`, to change in place.
    fn node_mut(&mut self, p: usize) -> (r: &mut Node)
        requires
            old(self).wf(),
            p < old(self)@.nodes.len(),
        ensures
            r@ == old(self)@.nodes[p as int] && r.wf(),
            final(self)@ == (GraphView {
                nodes: old(self)@.nodes.update(p as int, final(r)@),
                ..old(self)@
            }),
            final(self).aliases == old(self).aliases,
            final(self).nodes@ == old(self).nodes@.update(p as int, *final(r)),
            (final(r)@.id == r@.id && final(r)@.alias == r@.alias && final(r).wf()) ==> final(self).wf(),
    {
        let ghost g = *self;
        let r = &mut self.nodes[p];
        proof {
            g.lemma_replace_node(p as int, *final(r));
        }
        r
    }

    /// The nodes registered under `alias`, to change in place, in order of
    /// registration; `None` where the alias has never been used. No position
    /// is registered twice, so the references never overlap.
    pub fn get_nodes_mut_by_alias(&mut self, alias: &str) -> (r: Option<Vec<&mut Node>>)
        requires
            old(self).wf(),
        ensures
            r is Some <==> old(self)@.aliases.contains_key(alias@),
            r is None ==> *final(self) == *old(self),
            r matches Some(v) ==> {
                let ids = old(self)@.aliases[alias@];
                &&& v@.len() == ids.len()
                &&& forall|k: int|
                    0 <= k < ids.len() ==> v@[k]@ == old(self)@.nodes[(#[trigger] ids[k]).0 as int]
                &&& final(self)@.edges == old(self)@.edges
                &&& final(self)@.aliases == old(self)@.aliases
                &&& final(self)@.nodes.len() == old(self)@.nodes.len()
                &&& forall|k: int|
                    0 <= k < ids.len() ==> final(self)@.nodes[(#[trigger] ids[k]).0 as int]
                        == final(v@[k])@
                &&& forall|p: int|
                    0 <= p < old(self)@.nodes.len() && (#[trigger] old(self)@.nodes[p]).alias != alias@
                        ==> final(self)@.nodes[p] == old(self)@.nodes[p]
            },
    {
        let ids = match self.aliases.get(alias) {
            Some(ids) => ids,
            None => {
                return None;
            },
        };
        let target = alias.to_owned();
        let count = self.nodes.len();
        let ghost g = self@;
        let ghost n = count as nat;
        // One slot for each position: the node's reference where it has the alias.
        let mut slots: Vec<Option<&mut Node>> = Vec::new();
        let mut rest: &mut [Node] = self.nodes.as_mut_slice();
        let ghost start = rest;
        let mut pos: usize = 0;
        while rest.len() > 0
            invariant
                target@ == alias@,
                pos + rest@.len() == n,
                n == g.nodes.len(),
                n <= usize::MAX,
                forall|q: int| 0 <= q < rest@.len() ==> (#[trigger] rest@[q])@ == g.nodes[pos + q],
                slots@.len() == pos,
                forall|p: int|
                    0 <= p < pos ==> ((#[trigger] slots@[p]) is Some <==> g.nodes[p].alias == alias@),
                forall|p: int|
                    0 <= p < pos && (#[trigger] slots@[p]) is Some ==> slots@[p]->Some_0@ == g.nodes[p],
                final(start)@.map_values(|m: Node| m@) == Seq::new(
                    pos as nat,
                    |p: int|
                        if g.nodes[p].alias == alias@ {
                            final(slots@[p]->Some_0)@
                        } else {
                            g.nodes[p]
                        },
                ) + final(rest)@.map_values(|m: Node| m@),
            decreases rest@.len(),
        {
            proof {
                assert(rest@[0]@ == g.nodes[pos as int]);
            }
            let (head, tail) = rest.split_at_mut(1);
            let first = head.first_mut().unwrap();
            if first.alias == target {
                slots.push(Some(first));
            } else {
                slots.push(None);
            }
            rest = tail;
            pos += 1;
        }
        proof {
            assert(rest@.len() == 0);
            assert(final(rest)@.len() == 0);
        }
        let ghost refs = slots@;
        let mut out: Vec<&mut Node> = Vec::new();
        let m = ids.len();
        for k in 0..m
            invariant
                m == ids@.len(),
                ids@ == g.aliases[alias@],
                g.aliases.contains_key(alias@),
                g.wf(),
                n == g.nodes.len(),
                slots@.len() == n,
                refs.len() == n,
                forall|p: int| 0 <= p < n ==> ((#[trigger] refs[p]) is Some <==> g.nodes[p].alias == alias@),
                out@.len() == k,
                forall|j: int| 0 <= j < k ==> out@[j] == refs[(#[trigger] ids@[j]).0 as int]->Some_0,
                forall|p: int|
                    0 <= p < n ==> (#[trigger] slots@[p]) == (if ids@.subrange(0, k as int).contains(
                        NodeIndex(p as usize),
                    ) {
                        None
                    } else {
                        refs[p]
                    }),
        {
            let p = ids[k].0;
            proof {
                assert(g.aliases[alias@][k as int] == ids@[k as int]);
                assert(g.nodes[p as int].alias == alias@);
                if ids@.subrange(0, k as int).contains(NodeIndex(p)) {
                    let j = choose|j: int| 0 <= j < k && ids@.subrange(0, k as int)[j] == NodeIndex(p);
                    assert(ids@[j] == ids@[k as int]);
                }
            }
            let taken = slots[p].take();
            out.push(taken.unwrap());
            proof {
                assert forall|q: int| 0 <= q < n implies (#[trigger] slots@[q]) == (if ids@.subrange(0, k + 1).contains(
                    NodeIndex(q as usize),
                ) {
                    None
                } else {
                    refs[q]
                }) by {
                    let before = ids@.subrange(0, k as int);
                    let after = ids@.subrange(0, k + 1);
                    assert(after =~= before.push(ids@[k as int]));
                    if before.contains(NodeIndex(q as usize)) {
                        let j = choose|j: int| 0 <= j < k && before[j] == NodeIndex(q as usize);
                        assert(after[j] == NodeIndex(q as usize));
                    }
                    if after.contains(NodeIndex(q as usize)) && q != p {
                        let j = choose|j: int| 0 <= j <= k && after[j] == NodeIndex(q as usize);
                        assert(j != k);
                        assert(before[j] == NodeIndex(q as usize));
                    }
                    if q == p {
                        assert(after[k as int] == NodeIndex(q as usize));
                    }
                }
            }
        }
        proof {
            assert forall|p: int|
                0 <= p < g.nodes.len() && (#[trigger] g.nodes[p]).alias != alias@
                    implies final(start)@.map_values(|m: Node| m@)[p] == g.nodes[p] by {
            }
        }
        Some(out)
    }

    /// Hands the node added last to `f`, which may change it in place, and
    /// passes on its failure. A graph without nodes is an error.
    pub fn mut_last_node<F>(&mut self, mut f: F) -> (r: GraphResult<&mut Self>)
        where
            F: FnMut(&mut Node) -> GraphResult<&mut Node>,
        requires
            old(self).wf(),
            forall|x: &mut Node| f.requires((x,)),
        ensures
            old(self)@.nodes.len() == 0 ==> r is Err && r->Err_0.message() == "Failed getting last node"@
                && *final(self) == *old(self),
            old(self)@.nodes.len() > 0 ==> exists|x: &mut Node, res: GraphResult<&mut Node>|
                {
                    &&& x@ == old(self)@.nodes.last()
                    &&& f.ensures((x,), res)
                    &&& (r is Ok <==> res is Ok)
                    &&& (res is Err ==> r == Err::<&mut Self, Error>(res->Err_0))
                    &&& (r is Ok ==> *final(self) == *final(r->Ok_0))
                    &&& (r is Ok ==> r->Ok_0@ == (GraphView {
                        nodes: old(self)@.nodes.update(old(self)@.nodes.len() - 1, final(x)@),
                        ..old(self)@
                    }))
                    &&& (r is Ok && final(x)@.id == x@.id && final(x)@.alias == x@.alias && final(x).wf()
                        ==> r->Ok_0.wf())
                    &&& (r is Err ==> final(self)@ == (GraphView {
                        nodes: old(self)@.nodes.update(old(self)@.nodes.len() - 1, final(x)@),
                        ..old(self)@
                    }))
                },
    {
        let n = self.nodes.len();
        if n == 0 {
            return Err(Error::Text("Failed getting last node".to_owned()));
        }
        let node = self.node_mut(n - 1);
        let res = f(node);
        match res {
            Ok(_) => Ok(self),
            Err(e) => Err(e),
        }
    }

    /// The node at `idx`, if there is one.
    pub fn get_node_by_idx(&self, idx: &NodeIndex) -> (r: Option<&Node>)
        ensures
            r is Some <==> idx.0 < self@.nodes.len(),
            r matches Some(n) ==> n@ == self@.nodes[idx.0 as int],
    {
        if idx.0 < self.nodes.len() {
            Some(&self.nodes[idx.0])
        } else {
            None
        }
    }

    /// The node added last, if there is one.
    pub fn get_last_node(&self) -> (r: Option<&Node>)
        ensures
            r is Some <==> self@.nodes.len() > 0,
            r matches Some(n) ==> n@ == self@.nodes.last(),
    {
        let n = self.nodes.len();
        if n > 0 {
            Some(&self.nodes[n - 1])
        } else {
            None
        }
    }

    /// The alias of the node at `id`, if there is one.
    pub fn get_alias_by_id(&self, id: &NodeIndex) -> (r: Option<&str>)
        ensures
            r is Some <==> id.0 < self@.nodes.len(),
            r matches Some(a) ==> a@ == self@.nodes[id.0 as int].alias,
    {
        match self.get_node_by_idx(id) {
            Some(n) => Some(n.alias.as_str()),
            None => None,
        }
    }

    /// The positions registered under `alias`, if it has been used.
    pub fn get_ids_by_alias(&self, alias: &str) -> (r: Option<&Vec<NodeIndex>>)
        requires
            self.wf(),
        ensures
            r is Some <==> self@.aliases.contains_key(alias@),
            r matches Some(v) ==> v@ == self@.aliases[alias@],
    {
        self.aliases.get(alias)
    }

    /// The nodes registered under `alias`, in order of registration; `None`
    /// where no node is.
    pub fn get_nodes_by_alias(&self, alias: &str) -> (r: Option<Vec<&Node>>)
        requires
            self.wf(),
        ensures
            r is Some <==> self@.aliases.contains_key(alias@) && self@.aliases[alias@].len() > 0,
            r matches Some(v) ==> node_views(v@) == nodes_at(self@, self@.aliases[alias@]),
    {
        let ids = match self.aliases.get(alias) {
            Some(ids) => ids,
            None => {
                return None;
            },
        };
        if ids.len() == 0 {
            return None;
        }
        let mut found: Vec<&Node> = Vec::new();
        let n = ids.len();
        for k in 0..n
            invariant
                self.wf(),
                n == ids@.len(),
                ids@ == self@.aliases[alias@],
                self@.aliases.contains_key(alias@),
                found@.len() == k,
                node_views(found@) == nodes_at(self@, ids@.subrange(0, k as int)),
        {
            let p = ids[k].0;
            proof {
                assert(self@.aliases[alias@][k as int] == ids@[k as int]);
            }
            let ghost before = found@;
            found.push(&self.nodes[p]);
            proof {
                let want = nodes_at(self@, ids@.subrange(0, k + 1));
                assert(node_views(before) == nodes_at(self@, ids@.subrange(0, k as int)));
                assert forall|j: int| 0 <= j < k implies node_views(found@)[j] == want[j] by {
                    assert(found@[j] == before[j]);
                    assert(node_views(before)[j] == nodes_at(self@, ids@.subrange(0, k as int))[j]);
                }
                assert(node_views(found@)[k as int] == want[k as int]);
                assert(node_views(found@) =~= want);
            }
        }
        proof {
            assert(ids@.subrange(0, n as int) =~= ids@);
        }
        Some(found)
    }

    /// Appends an edge between two live positions.
    pub fn add_edge(&mut self, relation: &str, from: NodeIndex, to: NodeIndex) -> (r: GraphResult<
        &mut Self,
    >)
        requires
            old(self).wf(),
            from.0 < old(self)@.nodes.len(),
            to.0 < old(self)@.nodes.len(),
        ensures
            r is Ok,
            r->Ok_0.wf(),
            r->Ok_0@ == (GraphView {
                edges: old(self)@.edges.push(EdgeView { relation: relation@, from, to }),
                ..old(self)@
            }),
            *final(self) == *final(r->Ok_0),
    {
        self.edges.push(Edge::new(relation, from, to));
        proof {
            assert(self@.edges =~= old(self)@.edges.push(EdgeView { relation: relation@, from, to }));
        }
        Ok(self)
    }

    /// Drops every edge that leaves `from`.
    pub fn remove_all_edges_from(&mut self, from: &NodeIndex) -> (r: GraphResult<&mut Self>)
        requires
            old(self).wf(),
        ensures
            r is Ok,
            r->Ok_0.wf(),
            r->Ok_0@ == (GraphView { edges: old(self)@.edges.filter(not_from(*from)), ..old(self)@ }),
            *final(self) == *final(r->Ok_0),
    {
        let kept = kept_edges(&self.edges, *from, true);
        self.edges = kept;
        proof {
            lemma_filtered_edges_live(old(self)@, not_from(*from));
        }
        Ok(self)
    }

    /// Drops every edge that enters `to`.
    pub fn remove_all_edges_to(&mut self, to: &NodeIndex) -> (r: GraphResult<&mut Self>)
        requires
            old(self).wf(),
        ensures
            r is Ok,
            r->Ok_0.wf(),
            r->Ok_0@ == (GraphView { edges: old(self)@.edges.filter(not_to(*to)), ..old(self)@ }),
            *final(self) == *final(r->Ok_0),
    {
        let kept = kept_edges(&self.edges, *to, false);
        self.edges = kept;
        proof {
            lemma_filtered_edges_live(old(self)@, not_to(*to));
        }
        Ok(self)
    }

    /// Adds one edge for each pair of a node under `from` and a node under
    /// `to`: all sources times all targets. An alias that has never been used
    /// is an error.
    pub fn add_edges_by_aliases(&mut self, relation: &str, from: &str, to: &str) -> (r: GraphResult<
        &mut Self,
    >)
        requires
            old(self).wf(),
        ensures
            !old(self)@.aliases.contains_key(from@) ==> r is Err && r->Err_0.message()
                == unknown_alias_message(from@),
            old(self)@.aliases.contains_key(from@) && !old(self)@.aliases.contains_key(to@) ==> r is Err
                && r->Err_0.message() == unknown_alias_message(to@),
            r is Err ==> *final(self) == *old(self),
            old(self)@.aliases.contains_key(from@) && old(self)@.aliases.contains_key(to@) ==> r is Ok,
            r is Ok ==> r->Ok_0.wf() && *final(self) == *final(r->Ok_0) && r->Ok_0@ == (GraphView {
                edges: old(self)@.edges + cross_edges(
                    relation@,
                    old(self)@.aliases[from@],
                    old(self)@.aliases[to@],
                ),
                ..old(self)@
            }),
    {
        let fs = match self.aliases.get(from) {
            Some(v) => v,
            None => {
                return Err(unknown_alias(from));
            },
        };
        let ts = match self.aliases.get(to) {
            Some(v) => v,
            None => {
                return Err(unknown_alias(to));
            },
        };
        let ghost g = self@;
        let ghost rel = relation@;
        let ghost f = |k: int| EdgeView { relation: rel, from: fs@[k / ts@.len() as int], to: ts@[k % ts@.len() as int] };
        let m = fs.len();
        let n = ts.len();
        proof {
            assert(0 * (n as int) == 0);
            assert(self@.edges =~= g.edges + Seq::new(0nat, f));
        }
        for a in 0..m
            invariant
                m == fs@.len(),
                n == ts@.len(),
                g.wf(),
                fs@ == g.aliases[from@],
                ts@ == g.aliases[to@],
                g.aliases.contains_key(from@),
                g.aliases.contains_key(to@),
                f == (|k: int| EdgeView { relation: rel, from: fs@[k / ts@.len() as int], to: ts@[k % ts@.len() as int] }),
                rel == relation@,
                self.nodes@ == old(self).nodes@,
                self.aliases == old(self).aliases,
                self@.nodes == g.nodes,
                self@.aliases == g.aliases,
                self@.edges == g.edges + Seq::new((a * n) as nat, f),
        {
            for b in 0..n
                invariant
                    m == fs@.len(),
                    n == ts@.len(),
                    a < m,
                    g.wf(),
                    fs@ == g.aliases[from@],
                    ts@ == g.aliases[to@],
                    g.aliases.contains_key(from@),
                    g.aliases.contains_key(to@),
                    f == (|k: int| EdgeView { relation: rel, from: fs@[k / ts@.len() as int], to: ts@[k % ts@.len() as int] }),
                    rel == relation@,
                    self.nodes@ == old(self).nodes@,
                    self.aliases == old(self).aliases,
                    self@.nodes == g.nodes,
                    self@.aliases == g.aliases,
                    self@.edges == g.edges + Seq::new((a * n + b) as nat, f),
            {
                let ghost before = self@.edges;
                self.edges.push(Edge::new(relation, fs[a], ts[b]));
                proof {
                    let k = a * n + b;
                    vstd::arithmetic::div_mod::lemma_fundamental_div_mod_converse(k, n as int, a as int, b as int);
                    assert(f(k) == EdgeView { relation: rel, from: fs@[a as int], to: ts@[b as int] });
                    assert(self@.edges =~= before.push(f(k)));
                    assert(self@.edges =~= g.edges + Seq::new((a * n + b + 1) as nat, f));
                }
            }
            proof {
                assert((a + 1) * n == a * n + n) by (nonlinear_arith);
            }
        }
        proof {
            assert(Seq::new((m * n) as nat, f) =~= cross_edges(relation@, fs@, ts@));
            let h = self@;
            assert forall|k: int| 0 <= k < h.edges.len() implies (#[trigger] h.edges[k]).from.0 < h.nodes.len()
                && h.edges[k].to.0 < h.nodes.len() by {
                if k >= g.edges.len() {
                    let j = k - g.edges.len();
                    assert(0 <= j < m * n);
                    assert(h.edges[k] == f(j));
                    lemma_pair_index(j, m as int, n as int);
                    assert(fs@[j / n as int] == g.aliases[from@][j / n as int]);
                    assert(ts@[j % n as int] == g.aliases[to@][j % n as int]);
                }
            }
        }
        Ok(self)
    }

    /// The nodes that edges from `node` lead to, one for each such edge, in the
    /// order of the edges. Every endpoint is live in a well-formed graph, so
    /// no edge is ever skipped and the call cannot fail.
    pub fn get_outgoing_neighbors(&self, node: &Node) -> (r: GraphResult<Vec<&Node>>)
        requires
            self.wf(),
        ensures
            r is Ok,
            r matches Ok(v) ==> node_views(v@) == outgoing(self@, node@.id),
    {
        proof {
            self.lemma_edges_live_alone();
        }
        Ok(neighbors(&self.nodes, &self.edges, node.id, true))
    }

    /// The nodes that edges into `node` come from, one for each such edge, in
    /// the order of the edges. Every endpoint is live in a well-formed graph,
    /// so no edge is ever skipped and the call cannot fail.
    pub fn get_incoming_neighbors(&self, node: &Node) -> (r: GraphResult<Vec<&Node>>)
        requires
            self.wf(),
        ensures
            r is Ok,
            r matches Ok(v) ==> node_views(v@) == incoming(self@, node@.id),
    {
        proof {
            self.lemma_edges_live_alone();
        }
        Ok(neighbors(&self.nodes, &self.edges, node.id, false))
    }
}

} // verus!
