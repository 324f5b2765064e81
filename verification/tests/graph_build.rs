use edon::builder::GraphBuilder;
use edon::graph::DependencyGraph;
use edon::graph::ModuleDependency;

fn record(filename: &str, deps: &[&str]) -> ModuleDependency {
    ModuleDependency {
        deps: deps.iter().map(|d| d.to_string()).collect(),
        async_deps: Vec::new(),
        specifiers: Vec::new(),
        source: String::from("export {};"),
        map: None,
        filename: filename.to_string(),
        is_main: false,
    }
}

#[test]
fn graph_insert_and_get() {
    let mut g = DependencyGraph::new();
    assert!(g.insert(record("/a.js", &[])));
    assert!(!g.insert(record("/a.js", &[])));
    assert_eq!(g.len(), 1);
    assert!(g.contains(&String::from("/a.js")));
    let rec = g.get(&String::from("/a.js")).unwrap();
    assert_eq!(rec.filename, "/a.js");
    assert!(g.get(&String::from("/b.js")).is_none());
}

#[test]
fn cyclic_imports_terminate_with_two_entries() {
    // A statically imports B, B statically imports A.
    let mut b = GraphBuilder::from(&String::from("a.js"), &String::from("/dir"), false);
    let mut loads = 0;
    while let Some(url) = b.next_load() {
        loads += 1;
        let rec = match url.as_str() {
            "/dir/a.js" => record("/dir/a.js", &["./b.js"]),
            "/dir/b.js" => record("/dir/b.js", &["./a.js"]),
            other => panic!("unexpected load of {other}"),
        };
        b.provide(rec).unwrap();
    }
    assert_eq!(loads, 2);
    assert_eq!(b.graph.len(), 2);
    assert!(b.graph.contains(&String::from("/dir/a.js")));
    assert!(b.graph.contains(&String::from("/dir/b.js")));
}

#[test]
fn diamond_dependency_is_loaded_once() {
    // entry imports b and c; both import d: d is enqueued only once.
    let mut b = GraphBuilder::from(&String::from("/e.js"), &String::from("/"), false);
    let mut order = Vec::new();
    while let Some(url) = b.next_load() {
        order.push(url.clone());
        let rec = match url.as_str() {
            "/e.js" => record("/e.js", &["./b.js", "./c.js"]),
            "/b.js" => record("/b.js", &["./d.js"]),
            "/c.js" => record("/c.js", &["./d.js"]),
            "/d.js" => record("/d.js", &[]),
            other => panic!("unexpected load of {other}"),
        };
        b.provide(rec).unwrap();
    }
    assert_eq!(order, vec!["/e.js", "/b.js", "/c.js", "/d.js"]);
    assert_eq!(b.graph.len(), 4);
}

#[test]
fn provide_rejects_a_record_for_the_wrong_specifier() {
    let mut b = GraphBuilder::from(&String::from("/a.js"), &String::from("/"), false);
    let url = b.next_load().unwrap();
    assert_eq!(url, "/a.js");
    let err = b.provide(record("/other.js", &[])).unwrap_err();
    assert!(matches!(err, edon::errors::HostError::GraphLookup(_)));
    // The right record is still accepted afterwards.
    b.provide(record("/a.js", &[])).unwrap();
    assert_eq!(b.graph.len(), 1);
}

#[test]
fn append_skips_specifiers_already_in_the_graph() {
    let mut b = GraphBuilder::from(&String::from("/a.js"), &String::from("/"), false);
    let url = b.next_load().unwrap();
    b.provide(record(&url, &[])).unwrap();
    assert!(b.next_load().is_none());
    // Already a graph key: nothing is enqueued.
    assert!(!b.append(&String::from("/a.js"), &String::from(""), false));
    // A new specifier is enqueued once.
    assert!(b.append(&String::from("/n.js"), &String::from(""), false));
    assert!(!b.append(&String::from("/n.js"), &String::from(""), false));
    assert_eq!(b.next_load().unwrap(), "/n.js");
}

#[test]
fn resume_extends_a_finished_graph() {
    let mut g = DependencyGraph::new();
    assert!(g.insert(record("/main.js", &[])));
    let mut b = GraphBuilder::resume(g);
    assert!(b.next_load().is_none());
    assert!(b.append(&String::from("./math.js"), &String::from("/main.js"), true));
    let url = b.next_load().unwrap();
    assert_eq!(url, "/math.js");
    b.provide(record("/math.js", &[])).unwrap();
    assert_eq!(b.graph.len(), 2);
}
