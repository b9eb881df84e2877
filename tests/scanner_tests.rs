use sysdeps::scanner::{
    declared_dependencies, is_probe_method, node_features, GraphNode, ManifestDecl, ProbeArg,
    ProbeScanner,
};

fn s(x: &str) -> String {
    x.to_string()
}

fn sorted(mut v: Vec<String>) -> Vec<String> {
    v.sort();
    v
}

fn decl(key: &str, name: Option<&str>, feature: Option<&str>, optional: Option<bool>) -> ManifestDecl {
    ManifestDecl { key: s(key), name: name.map(s), feature: feature.map(s), optional }
}

#[test]
fn probe_of_bound_variable_found() {
    let mut p = ProbeScanner::new();
    p.visit_local(s("x"), s("foo"));
    p.visit_probe_call(&ProbeArg::Variable(s("x")));
    assert_eq!(p.found(), vec![s("foo")]);
}

#[test]
fn probe_of_literal_found() {
    let mut p = ProbeScanner::new();
    p.visit_probe_call(&ProbeArg::Literal(s("bar")));
    assert_eq!(p.found(), vec![s("bar")]);
}

#[test]
fn probe_of_computed_argument_ignored() {
    let mut p = ProbeScanner::new();
    p.visit_probe_call(&ProbeArg::Other);
    p.visit_probe_call(&ProbeArg::Variable(s("unbound")));
    assert!(p.found().is_empty());
}

#[test]
fn last_binding_wins_and_results_are_a_set() {
    let mut p = ProbeScanner::new();
    p.visit_local(s("x"), s("first"));
    p.visit_local(s("x"), s("second"));
    p.visit_probe_call(&ProbeArg::Variable(s("x")));
    p.visit_probe_call(&ProbeArg::Literal(s("second")));
    assert_eq!(p.found(), vec![s("second")]);
}

#[test]
fn optional_without_feature_needs_key_feature() {
    let d = decl("gtk", None, None, Some(true));
    assert!(!d.is_required(&vec![s("other")]));
    assert!(d.is_required(&vec![s("gtk")]));
}

#[test]
fn explicit_feature_gates() {
    let d = decl("gl", Some("epoxy"), Some("v3"), Some(true));
    assert!(!d.is_required(&vec![s("gl")]));
    assert!(d.is_required(&vec![s("v3")]));
    assert_eq!(d.package_name(), s("epoxy"));
}

#[test]
fn plain_declaration_always_included() {
    let d = decl("zlib", None, None, None);
    assert!(d.is_required(&vec![]));
    let d = decl("zlib", None, None, Some(false));
    assert!(d.is_required(&vec![]));
    assert_eq!(d.package_name(), s("zlib"));
}

#[test]
fn declared_dependencies_of_node() {
    let decls = vec![
        decl("zlib", None, None, None),
        decl("gtk", Some("gtk+-3.0"), None, Some(true)),
        decl("gl", Some("epoxy"), Some("v3"), None),
        decl("zlib2", Some("zlib"), None, None),
    ];
    let r = declared_dependencies(&decls, &vec![s("gtk")]);
    assert_eq!(sorted(r), vec![s("gtk+-3.0"), s("zlib")]);
    let r = declared_dependencies(&decls, &vec![]);
    assert_eq!(r, vec![s("zlib")]);
}

#[test]
fn packages_without_graph_node_are_inactive() {
    let nodes = vec![
        GraphNode { id: s("a 1.0"), features: vec![s("x")] },
        GraphNode { id: s("b 2.0"), features: vec![] },
    ];
    assert_eq!(node_features(&nodes, &s("a 1.0")), Some(vec![s("x")]));
    assert_eq!(node_features(&nodes, &s("b 2.0")), Some(vec![]));
    assert_eq!(node_features(&nodes, &s("c 3.0")), None);
}

#[test]
fn probe_method_name() {
    assert!(is_probe_method(&s("probe")));
    assert!(!is_probe_method(&s("probe_raw")));
}
