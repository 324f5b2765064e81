use edon::engine::RuntimeGraph;
use edon::errors::HostError;
use edon::graph::DependencyGraph;
use edon::graph::ModuleDependency;

fn record(filename: &str, deps: &[&str]) -> ModuleDependency {
    ModuleDependency {
        deps: deps.iter().map(|d| d.to_string()).collect(),
        async_deps: Vec::new(),
        specifiers: Vec::new(),
        source: String::from("export {};"),
        map: None,
        filename: filename.to_string(),
        is_main: false,
    }
}

#[test]
fn every_error_kind_carries_its_message() {
    let cases = [
        HostError::Filesystem(String::from("no such file")),
        HostError::Network(String::from("connection refused")),
        HostError::Compile(String::from("unexpected token")),
        HostError::Instantiate(String::from("cyclic imports")),
        HostError::Evaluate(String::from("rejected promise")),
        HostError::GraphLookup(String::from("missing record")),
    ];
    let texts = [
        "no such file",
        "connection refused",
        "unexpected token",
        "cyclic imports",
        "rejected promise",
        "missing record",
    ];
    for (e, t) in cases.iter().zip(texts.iter()) {
        assert_eq!(e.message(), t);
    }
}

#[test]
fn import_cycle_blocks_evaluation_order() {
    let mut g = DependencyGraph::new();
    assert!(g.insert(record("/a.js", &["./b.js"])));
    assert!(g.insert(record("/b.js", &["./a.js"])));
    let rt = RuntimeGraph::from(g);
    let err = rt.evaluate(&String::from("/a.js")).unwrap_err();
    assert!(matches!(err, HostError::Evaluate(_)));
}
