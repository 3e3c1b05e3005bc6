use graph_db::{AliasMap, Error, Graph, Node, NodeIndex};

fn aliases_of(nodes: &[&Node]) -> Vec<String> {
    nodes.iter().map(|n| n.alias.clone()).collect()
}

fn ids_match_positions(g: &Graph) -> bool {
    let mut i: usize = 0;
    while let Some(n) = g.get_node_by_idx(&NodeIndex::from(i)) {
        if n.id != NodeIndex::from(i) {
            return false;
        }
        i += 1;
    }
    true
}

fn message(e: Error) -> String {
    match e {
        Error::Text(m) => m,
    }
}

#[test]
fn end_to_end_scenario() {
    let mut g = Graph::new();
    g.add_node("a").unwrap().add_node("b").unwrap().add_node("c").unwrap();
    for (i, a) in ["a", "b", "c"].iter().enumerate() {
        let n = g.get_node_by_idx(&NodeIndex::from(i)).unwrap();
        assert_eq!(n.id, NodeIndex::from(i));
        assert_eq!(n.alias, *a);
    }
    g.add_edges_by_aliases("knows", "a", "b").unwrap();
    let a = g.get_node_by_idx(&NodeIndex::from(0)).unwrap();
    assert_eq!(aliases_of(&g.get_outgoing_neighbors(a).unwrap()), vec!["b"]);
    assert!(g.render().ends_with("Edges:\na(0) --knows--> (1)b\n"));

    g.remove_node_by_id(&NodeIndex::from(0)).unwrap();
    assert!(g.get_node_by_idx(&NodeIndex::from(1)).is_some());
    assert!(g.get_node_by_idx(&NodeIndex::from(2)).is_none());
    let moved = g.get_node_by_idx(&NodeIndex::from(0)).unwrap();
    assert_eq!(moved.alias, "c");
    assert_eq!(moved.id, NodeIndex::from(0));
    assert!(g.render().ends_with("Edges:\n"));
    let b = g.get_node_by_idx(&NodeIndex::from(1)).unwrap();
    assert!(g.get_incoming_neighbors(b).unwrap().is_empty());
    let cs = g.get_nodes_by_alias("c").unwrap();
    assert_eq!(cs.len(), 1);
    assert_eq!(cs[0].id, NodeIndex::from(0));
    assert!(g.get_nodes_by_alias("a").is_none());
    assert!(ids_match_positions(&g));
}

#[test]
fn multi_alias_scenario() {
    let mut g = Graph::new();
    g.add_node("x").unwrap().add_node("x").unwrap();
    let xs = g.get_nodes_by_alias("x").unwrap();
    assert_eq!(xs.len(), 2);
    assert_eq!(xs[0].id, NodeIndex::from(0));
    assert_eq!(xs[1].id, NodeIndex::from(1));
    g.add_edges_by_aliases("r", "x", "x").unwrap();
    assert_eq!(
        g.render(),
        "Nodes:\n\
         Node(0): \"x\"\n\tlabels: []\n\tprops:\n\
         Node(1): \"x\"\n\tlabels: []\n\tprops:\n\
         Edges:\n\
         x(0) --r--> (0)x\n\
         x(0) --r--> (1)x\n\
         x(1) --r--> (0)x\n\
         x(1) --r--> (1)x\n"
    );
}

#[test]
fn cross_product_counts_every_pair() {
    let mut g = Graph::new();
    g.add_node("s").unwrap().add_node("s").unwrap();
    g.add_node("t").unwrap().add_node("t").unwrap().add_node("t").unwrap();
    g.add_edges_by_aliases("to", "s", "t").unwrap();
    let edges = g.render();
    let lines: Vec<&str> = edges.split("Edges:\n").nth(1).unwrap().lines().collect();
    assert_eq!(
        lines,
        vec![
            "s(0) --to--> (2)t",
            "s(0) --to--> (3)t",
            "s(0) --to--> (4)t",
            "s(1) --to--> (2)t",
            "s(1) --to--> (3)t",
            "s(1) --to--> (4)t",
        ]
    );
}

#[test]
fn swap_remove_moves_last_node_and_its_edges() {
    let mut g = Graph::new();
    g.add_node("p").unwrap().add_node("q").unwrap().add_node("r").unwrap().add_node("z").unwrap();
    g.add_edges_by_aliases("e", "z", "q").unwrap();
    g.add_edges_by_aliases("e", "r", "z").unwrap();
    g.add_edges_by_aliases("e", "p", "z").unwrap();
    g.add_edges_by_aliases("e", "q", "p").unwrap();
    g.remove_node_by_id(&NodeIndex::from(0)).unwrap();
    let z = g.get_node_by_idx(&NodeIndex::from(0)).unwrap();
    assert_eq!(z.alias, "z");
    assert_eq!(z.id, NodeIndex::from(0));
    assert!(g.get_node_by_idx(&NodeIndex::from(3)).is_none());
    assert_eq!(aliases_of(&g.get_outgoing_neighbors(z).unwrap()), vec!["q"]);
    assert_eq!(aliases_of(&g.get_incoming_neighbors(z).unwrap()), vec!["r"]);
    assert!(g.render().ends_with("Edges:\nz(0) --e--> (1)q\nr(2) --e--> (0)z\n"));
    assert_eq!(g.get_ids_by_alias("z").unwrap(), &vec![NodeIndex::from(0)]);
    assert_eq!(g.get_ids_by_alias("p").unwrap(), &Vec::<NodeIndex>::new());
    assert!(ids_match_positions(&g));
}

#[test]
fn removing_last_node_moves_nothing() {
    let mut g = Graph::new();
    g.add_node("a").unwrap().add_node("b").unwrap();
    g.add_edges_by_aliases("e", "a", "b").unwrap();
    g.remove_node_by_id(&NodeIndex::from(1)).unwrap();
    assert_eq!(g.get_alias_by_id(&NodeIndex::from(0)), Some("a"));
    assert_eq!(g.get_alias_by_id(&NodeIndex::from(1)), None);
    assert_eq!(g.render(), "Nodes:\nNode(0): \"a\"\n\tlabels: []\n\tprops:\nEdges:\n");
    g.remove_node_by_id(&NodeIndex::from(0)).unwrap();
    assert!(g.get_last_node().is_none());
}

#[test]
fn remove_out_of_range_is_an_error() {
    let mut g = Graph::new();
    g.add_node("a").unwrap().add_node("b").unwrap();
    let e = g.remove_node_by_id(&NodeIndex::from(5)).err().unwrap();
    assert_eq!(message(e), "There are 2 nodes but tried to index at 5");
    let e = g.remove_node_by_id(&NodeIndex::from(2)).err().unwrap();
    assert_eq!(message(e), "There are 2 nodes but tried to index at 2");
    assert_eq!(g.get_alias_by_id(&NodeIndex::from(1)), Some("b"));
}

#[test]
fn unknown_alias_is_an_error() {
    let mut g = Graph::new();
    g.add_node("a").unwrap();
    let e = g.add_edges_by_aliases("r", "zz", "a").err().unwrap();
    assert_eq!(message(e), "Failed getting ids with zz");
    let e = g.add_edges_by_aliases("r", "a", "yy").err().unwrap();
    assert_eq!(message(e), "Failed getting ids with yy");
    assert!(g.render().ends_with("Edges:\n"));
}

#[test]
fn mut_last_node_on_empty_graph_is_an_error() {
    let mut g = Graph::new();
    let e = g.mut_last_node(|n| n.add_label("l")).err().unwrap();
    assert_eq!(message(e), "Failed getting last node");
}

#[test]
fn mut_last_node_edits_and_passes_failure_on() {
    let mut g = Graph::new();
    g.add_node("a")
        .unwrap()
        .add_node("b")
        .unwrap()
        .mut_last_node(|n| n.add_label("x")?.add_label("y")?.add_prop("k", "v"))
        .unwrap();
    let b = g.get_last_node().unwrap();
    assert_eq!(b.render(), "Node(1): \"b\"\n\tlabels: [\"x\", \"y\"]\n\tprops:\n\t\tk:v\n");
    let r = g.mut_last_node(|_n| Err(Error::Text("stop".to_owned())));
    assert_eq!(message(r.err().unwrap()), "stop");
}

#[test]
fn node_labels_and_props() {
    let mut n = Node::new(NodeIndex::from(7), "x".to_owned());
    n.add_label("a").unwrap().add_label("b").unwrap().add_label("a").unwrap();
    n.add_prop("k", "1").unwrap().add_prop("j", "2").unwrap().add_prop("k", "3").unwrap();
    assert_eq!(
        n.render(),
        "Node(7): \"x\"\n\tlabels: [\"a\", \"b\", \"a\"]\n\tprops:\n\t\tk:3\n\t\tj:2\n"
    );
    n.remove_label("a").unwrap().remove_prop("k").unwrap();
    assert_eq!(n.render(), "Node(7): \"x\"\n\tlabels: [\"b\"]\n\tprops:\n\t\tj:2\n");
}

#[test]
fn absent_removals_change_nothing() {
    let mut n = Node::new(NodeIndex::from(0), "x".to_owned());
    n.add_label("a").unwrap().add_prop("k", "v").unwrap();
    let mut m = Node::new(NodeIndex::from(0), "x".to_owned());
    m.add_label("a").unwrap().add_prop("k", "v").unwrap();
    n.remove_label("zzz").unwrap().remove_prop("nope").unwrap();
    assert_eq!(n, m);

    let mut g1 = Graph::new();
    let mut g2 = Graph::new();
    g1.add_node("a").unwrap();
    g2.add_node("a").unwrap();
    assert_eq!(g1.aliases.remove_id_at("nobody", &NodeIndex::from(0)), None);
    assert_eq!(g1.aliases.remove_id_at("a", &NodeIndex::from(9)), Some(()));
    assert_eq!(g1.aliases.remove_all("nobody"), None);
    g1.get_node_mut_by_idx(&NodeIndex::from(0)).unwrap().remove_label("q").unwrap();
    g1.remove_all_edges_from(&NodeIndex::from(0)).unwrap();
    g1.remove_all_edges_to(&NodeIndex::from(0)).unwrap();
    assert_eq!(g1, g2);
}

#[test]
fn edge_removal_by_endpoint() {
    let mut g = Graph::new();
    g.add_node("a").unwrap().add_node("b").unwrap();
    g.add_edge("r", NodeIndex::from(0), NodeIndex::from(1)).unwrap();
    g.add_edge("s", NodeIndex::from(1), NodeIndex::from(0)).unwrap();
    g.add_edge("t", NodeIndex::from(0), NodeIndex::from(0)).unwrap();
    g.remove_all_edges_from(&NodeIndex::from(0)).unwrap();
    assert!(g.render().ends_with("Edges:\nb(1) --s--> (0)a\n"));
    g.remove_all_edges_to(&NodeIndex::from(0)).unwrap();
    assert!(g.render().ends_with("Edges:\n"));
}

#[test]
fn mutable_access_by_index_and_last() {
    let mut g = Graph::new();
    g.add_node("a").unwrap().add_node("b").unwrap();
    g.get_node_mut_by_idx(&NodeIndex::from(0)).unwrap().add_prop("k", "v").unwrap();
    g.get_last_node_mut().unwrap().add_label("l").unwrap();
    assert!(g.get_node_mut_by_idx(&NodeIndex::from(2)).is_none());
    assert_eq!(
        g.render(),
        "Nodes:\nNode(0): \"a\"\n\tlabels: []\n\tprops:\n\t\tk:v\nNode(1): \"b\"\n\tlabels: [\"l\"]\n\tprops:\nEdges:\n"
    );
    assert!(Graph::new().get_last_node_mut().is_none());
}

#[test]
fn neighbors_follow_edge_order() {
    let mut g = Graph::new();
    g.add_node("h").unwrap().add_node("u").unwrap().add_node("v").unwrap();
    g.add_edges_by_aliases("r", "h", "v").unwrap();
    g.add_edges_by_aliases("r", "h", "u").unwrap();
    g.add_edges_by_aliases("r", "v", "h").unwrap();
    let h = g.get_node_by_idx(&NodeIndex::from(0)).unwrap();
    assert_eq!(aliases_of(&g.get_outgoing_neighbors(h).unwrap()), vec!["v", "u"]);
    assert_eq!(aliases_of(&g.get_incoming_neighbors(h).unwrap()), vec!["v"]);
}

#[test]
fn index_rendering_and_construction() {
    assert_eq!(NodeIndex::from(0).render(), "0");
    assert_eq!(NodeIndex::new(1234).render(), "1234");
    assert_eq!(NodeIndex::from_i32(42), NodeIndex::from(42));
    assert!(NodeIndex::from(3) < NodeIndex::from(10));
    let big = Node::new(NodeIndex::from(12345), "w".to_owned());
    assert!(big.render().starts_with("Node(12345): \"w\""));
}

#[test]
fn alias_map_operations() {
    let mut m = AliasMap::new();
    m.insert("a", NodeIndex::from(0));
    m.insert("a", NodeIndex::from(3));
    m.insert("b", NodeIndex::from(1));
    m.insert("a", NodeIndex::from(0));
    assert_eq!(m.get("a").unwrap(), &vec![NodeIndex::from(0), NodeIndex::from(3), NodeIndex::from(0)]);
    assert_eq!(m.change_id_at("a", &NodeIndex::from(0), NodeIndex::from(5)), Some(()));
    assert_eq!(m.get("a").unwrap(), &vec![NodeIndex::from(5), NodeIndex::from(3), NodeIndex::from(5)]);
    assert_eq!(m.remove_id_at("a", &NodeIndex::from(5)), Some(()));
    assert_eq!(m.get("a").unwrap(), &vec![NodeIndex::from(3)]);
    assert_eq!(m.change_id_at("c", &NodeIndex::from(0), NodeIndex::from(5)), None);
    assert_eq!(m.remove_all("b"), Some(vec![NodeIndex::from(1)]));
    assert!(m.get("b").is_none());
}

#[test]
fn invariants_hold_over_a_sequence() {
    let mut g = Graph::new();
    for a in ["a", "b", "a", "c", "b", "a"] {
        g.add_node(a).unwrap();
    }
    g.add_edges_by_aliases("r", "a", "b").unwrap();
    g.add_edges_by_aliases("r", "c", "a").unwrap();
    g.remove_node_by_id(&NodeIndex::from(1)).unwrap();
    g.remove_node_by_id(&NodeIndex::from(0)).unwrap();
    g.remove_node_by_id(&NodeIndex::from(2)).unwrap();
    assert!(ids_match_positions(&g));
    for a in ["a", "b", "c"] {
        if let Some(ids) = g.get_ids_by_alias(a) {
            for id in ids {
                assert_eq!(g.get_alias_by_id(id), Some(a));
            }
        }
    }
    // every edge line names live aliases, so rendering succeeds
    let text = g.render();
    assert!(text.contains("Edges:\n"));
}

#[test]
fn mutable_access_by_alias_in_position_order() {
    let mut g = Graph::new();
    g.add_node("m").unwrap().add_node("o").unwrap().add_node("m").unwrap();
    g.remove_node_by_id(&NodeIndex::from(0)).unwrap();
    g.add_node("m").unwrap();
    // registration order is now [0 (moved), 2], positions 0 and 2 hold "m"
    assert_eq!(
        g.get_ids_by_alias("m").unwrap(),
        &vec![NodeIndex::from(0), NodeIndex::from(2)]
    );
    {
        let ms = g.get_nodes_mut_by_alias("m").unwrap();
        assert_eq!(ms.len(), 2);
        let mut k = 0;
        for n in ms {
            n.add_prop("rank", if k == 0 { "first" } else { "second" }).unwrap();
            k += 1;
        }
    }
    assert!(g.get_nodes_mut_by_alias("none").is_none());
    assert_eq!(g.get_nodes_mut_by_alias("o").unwrap().len(), 1);
    assert_eq!(
        g.render(),
        "Nodes:\n\
         Node(0): \"m\"\n\tlabels: []\n\tprops:\n\t\trank:first\n\
         Node(1): \"o\"\n\tlabels: []\n\tprops:\n\
         Node(2): \"m\"\n\tlabels: []\n\tprops:\n\t\trank:second\n\
         Edges:\n"
    );
}

#[test]
fn labels_render_as_debug_text() {
    let mut n = Node::new(NodeIndex::from(3), "q".to_owned());
    n.add_label("say \"hi\"").unwrap().add_label("a\\b").unwrap().add_label("two\nlines").unwrap();
    let labels = vec!["say \"hi\"".to_owned(), "a\\b".to_owned(), "two\nlines".to_owned()];
    let expected = format!("Node(3): \"q\"\n\tlabels: {:?}\n\tprops:\n", labels);
    assert_eq!(n.render(), expected);
    assert_eq!(
        n.render(),
        "Node(3): \"q\"\n\tlabels: [\"say \\\"hi\\\"\", \"a\\\\b\", \"two\\nlines\"]\n\tprops:\n"
    );
}

#[test]
fn mutable_access_by_alias_in_registration_order() {
    let mut g = Graph::new();
    g.add_node("y").unwrap().add_node("x").unwrap().add_node("x").unwrap();
    g.remove_node_by_id(&NodeIndex::from(0)).unwrap();
    assert_eq!(
        g.get_ids_by_alias("x").unwrap(),
        &vec![NodeIndex::from(1), NodeIndex::from(0)]
    );
    let shared: Vec<NodeIndex> = g.get_nodes_by_alias("x").unwrap().iter().map(|n| n.id).collect();
    assert_eq!(shared, vec![NodeIndex::from(1), NodeIndex::from(0)]);
    let ids: Vec<NodeIndex> = g.get_nodes_mut_by_alias("x").unwrap().iter().map(|n| n.id).collect();
    assert_eq!(ids, vec![NodeIndex::from(1), NodeIndex::from(0)]);
    g.get_nodes_mut_by_alias("x").unwrap()[0].add_label("first").unwrap();
    assert_eq!(
        g.get_node_by_idx(&NodeIndex::from(1)).unwrap().render(),
        "Node(1): \"x\"\n\tlabels: [\"first\"]\n\tprops:\n"
    );
}

#[test]
fn property_order_does_not_matter_for_equality() {
    let mut n = Node::new(NodeIndex::from(0), "x".to_owned());
    n.add_prop("a", "1").unwrap().add_prop("b", "2").unwrap();
    let mut m = Node::new(NodeIndex::from(0), "x".to_owned());
    m.add_prop("b", "2").unwrap().add_prop("a", "1").unwrap();
    assert_eq!(n, m);
    m.add_prop("a", "3").unwrap();
    assert_ne!(n, m);
}
