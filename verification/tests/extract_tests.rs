use tuan::extract::{
    assemble_graph, clean_path, decode_base64, fallback_candidates, inline_sourcemap_payload,
    needs_sourcemap_fallback, parse_sourcemap_tokens,
};
use tuan::graph::{base_name, Graph, Node, NodeIdCounter};

fn s(x: &str) -> String {
    String::from(x)
}

fn node(id: usize, path: &str) -> Node {
    Node {
        id,
        label: s(path),
        file_path: s(path),
        fingerprint: None,
    }
}

#[test]
fn fallback_runs_only_for_bare_specifiers_outside_node_modules() {
    assert!(needs_sourcemap_fallback("lodash", "/p/dist/lodash.js", 2));
    assert!(!needs_sourcemap_fallback("./local", "/p/local.ts", 2));
    assert!(!needs_sourcemap_fallback("/abs", "/p/abs.ts", 2));
    assert!(!needs_sourcemap_fallback("lodash", "/p/node_modules/lodash/index.js", 2));
    assert!(!needs_sourcemap_fallback("lodash", "/p/dist/lodash.js", 0));
}

#[test]
fn inline_payload_takes_the_last_marker_line() {
    let content = "code();\n//# sourceMappingURL=data:application/json;base64,AAAA\nmore();\n//# sourceMappingURL=data:application/json;base64,QkJC";
    let payload = inline_sourcemap_payload(content).expect("payload");
    assert_eq!(payload, "QkJC");
    assert_eq!(inline_sourcemap_payload("no marker here"), None);
}

#[test]
fn base64_decoding_follows_the_standard_alphabet() {
    assert_eq!(decode_base64("aGk="), Some(Vec::from("hi".as_bytes())));
    assert_eq!(decode_base64("not base64!"), None);
}

#[test]
fn path_cleaning_is_lexical() {
    assert_eq!(clean_path("/a/./b/../c"), "/a/c");
    assert_eq!(clean_path("a//b"), "a/b");
}

#[test]
fn assembly_keeps_project_imports_only() {
    let files = vec![node(0, "/p/a.ts"), node(1, "/p/b.ts")];
    let imports = vec![
        vec![s("/p/b.ts"), s("/p/node_modules/x/index.js")],
        vec![],
    ];
    let g = assemble_graph(&files, &imports);
    assert_eq!(g.iter_nodes().len(), 2);
    assert_eq!(g.iter_edges().len(), 1);
    assert_eq!(g.iter_edges()[0].from, 0);
    assert_eq!(g.iter_edges()[0].to, 1);
}

#[test]
fn graph_insertion_is_idempotent() {
    let mut g = Graph::new();
    g.add_node(node(5, "/p/x.ts"));
    g.add_node(node(5, "/p/x2.ts"));
    assert_eq!(g.iter_nodes().len(), 1);
    assert_eq!(g.iter_nodes()[0].file_path, "/p/x2.ts");
    g.add_edge(tuan::graph::Edge::new(5, 5));
    g.add_edge(tuan::graph::Edge::new(5, 5));
    assert_eq!(g.iter_edges().len(), 1);
}

#[test]
fn node_ids_come_from_the_counter_and_labels_from_basenames() {
    let mut counter = NodeIdCounter::new();
    let a = Node::from_path(&mut counter, s("/p/src/main.ts"), None);
    let b = Node::from_path(&mut counter, s("/p/lib.rs"), None);
    assert_eq!(a.id, 0);
    assert_eq!(b.id, 1);
    assert_eq!(a.label, "main.ts");
    assert_eq!(b.label, "lib.rs");
    assert_eq!(base_name(&s("no_slash")), "no_slash");
}

#[test]
fn layout_input_maps_edges_to_dense_indices() {
    let mut g = Graph::new();
    g.add_node(node(10, "/p/a.ts"));
    g.add_node(node(20, "/p/b.ts"));
    g.add_edge(tuan::graph::Edge::new(10, 20));
    let (n, pairs) = g.layout_input();
    assert_eq!(n, 2);
    assert_eq!(pairs, vec![(0, 1)]);
}

#[test]
fn snapshots_narrow_ids() {
    let e = tuan::snapshot::Edge::from_native(tuan::graph::Edge::new(3, 4));
    assert_eq!((e.from, e.to), (3, 4));
    let c = tuan::snapshot::Cluster::from_native(tuan::cluster::Cluster {
        id: 1,
        members: vec![2, 5],
    });
    assert_eq!(c.id, 1);
    assert_eq!(c.members, vec![2, 5]);
    let nd = tuan::snapshot::Node::from_native(node(7, "/p/z.ts"));
    assert_eq!(nd.id, 7);
    assert_eq!(nd.file_path, "/p/z.ts");
}

#[test]
fn extensions_follow_the_basename() {
    assert_eq!(tuan::scorer::extension(&s("/p/a.ts")), "ts");
    assert_eq!(tuan::scorer::extension(&s("/p/archive.tar.gz")), "gz");
    assert_eq!(tuan::scorer::extension(&s("/p/.gitignore")), "");
    assert_eq!(tuan::scorer::extension(&s("/p/plain")), "");
}

#[test]
fn sourcemap_tokens_expose_names_and_sources() {
    let map = r#"{"version":3,"sources":["src/orig.ts"],"names":["reexported"],"mappings":"AAAAA"}"#;
    let tokens = parse_sourcemap_tokens(&Vec::from(map.as_bytes())).expect("valid map");
    assert!(!tokens.is_empty());
    assert_eq!(tokens[0].0.as_deref(), Some("reexported"));
    assert_eq!(tokens[0].1.as_deref(), Some("src/orig.ts"));
    assert_eq!(parse_sourcemap_tokens(&Vec::from("not a map".as_bytes())), None);
}

#[test]
fn fallback_candidates_join_relative_sources() {
    let tokens = vec![
        (Some(s("reexported")), Some(s("src/orig.ts"))),
        (Some(s("other")), Some(s("/abs/other.ts"))),
        (None, Some(s("ignored.ts"))),
    ];
    let ids = vec![s("reexported"), s("other"), s("missing")];
    let out = fallback_candidates(&tokens, &ids, "/proj/dist");
    assert_eq!(out.len(), 2);
    assert_eq!(out[0].0, "/proj/dist/src/orig.ts");
    assert_eq!(out[0].1, "src/orig.ts");
    assert_eq!(out[1].0, "/abs/other.ts");
}
