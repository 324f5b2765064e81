use edon::engine::RuntimeGraph;
use edon::errors::HostError;
use edon::graph::DependencyGraph;
use edon::graph::ModuleDependency;

fn record(filename: &str, deps: &[&str]) -> ModuleDependency {
    ModuleDependency {
        deps: deps.iter().map(|d| d.to_string()).collect(),
        async_deps: Vec::new(),
        specifiers: Vec::new(),
        source: String::from("export {};"),
        map: None,
        filename: filename.to_string(),
        is_main: false,
    }
}

fn chain_graph() -> DependencyGraph {
    // a -> b -> c
    let mut g = DependencyGraph::new();
    assert!(g.insert(record("/a.js", &["./b.js"])));
    assert!(g.insert(record("/b.js", &["./c.js"])));
    assert!(g.insert(record("/c.js", &[])));
    g
}

#[test]
fn instantiation_plan_orders_dependencies_first() {
    let rt = RuntimeGraph::from(chain_graph());
    let plan = rt.initialize(&String::from("/a.js")).unwrap();
    assert_eq!(plan, vec!["/c.js", "/b.js", "/a.js"]);
}

#[test]
fn confirm_instantiated_requires_dependencies_first() {
    let mut rt = RuntimeGraph::from(chain_graph());
    // Out of order: refused, state unchanged.
    assert!(!rt.confirm_instantiated(&String::from("/a.js")));
    assert!(rt.confirm_instantiated(&String::from("/c.js")));
    assert!(rt.confirm_instantiated(&String::from("/b.js")));
    assert!(rt.confirm_instantiated(&String::from("/a.js")));
}

#[test]
fn instantiate_twice_makes_exactly_one_instance() {
    let mut rt = RuntimeGraph::from(chain_graph());
    let plan = rt.initialize(&String::from("/a.js")).unwrap();
    for m in &plan {
        assert!(rt.confirm_instantiated(m));
    }
    assert_eq!(rt.instantiated.len(), 3);
    // Second instantiate: empty plan, and a re-confirmation is refused.
    let again = rt.initialize(&String::from("/a.js")).unwrap();
    assert!(again.is_empty());
    assert!(!rt.confirm_instantiated(&String::from("/a.js")));
    assert_eq!(rt.instantiated.len(), 3);
}

#[test]
fn evaluation_order_for_a_chain_is_leaf_first() {
    let mut rt = RuntimeGraph::from(chain_graph());
    let plan = rt.initialize(&String::from("/a.js")).unwrap();
    for m in &plan {
        assert!(rt.confirm_instantiated(m));
    }
    let eval_plan = rt.evaluate(&String::from("/a.js")).unwrap();
    assert_eq!(eval_plan, vec!["/c.js", "/b.js", "/a.js"]);
    for m in &eval_plan {
        assert!(rt.confirm_evaluated(m));
    }
    // Already evaluated: the plan is empty, nothing runs twice.
    let again = rt.evaluate(&String::from("/a.js")).unwrap();
    assert!(again.is_empty());
    assert!(!rt.confirm_evaluated(&String::from("/a.js")));
}

#[test]
fn evaluate_without_instances_reports_graph_lookup() {
    let rt = RuntimeGraph::from(chain_graph());
    let err = rt.evaluate(&String::from("/a.js")).unwrap_err();
    assert!(matches!(err, HostError::GraphLookup(_)));
}

#[test]
fn missing_entry_reports_graph_lookup() {
    let rt = RuntimeGraph::from(chain_graph());
    let err = rt.initialize(&String::from("/nope.js")).unwrap_err();
    assert!(matches!(err, HostError::GraphLookup(_)));
}

#[test]
fn missing_static_import_reports_graph_lookup() {
    // Reach a mid-crawl state: /a.js is linked while its import
    // /gone.js is still pending, so planning /a.js fails hard.
    let mut g = DependencyGraph::new();
    assert!(g.insert(record("/main.js", &[])));
    let mut rt = RuntimeGraph::from(g);
    assert!(rt.append(&String::from("./a.js"), &String::from("/main.js"), true));
    let url = rt.next_load().unwrap();
    assert_eq!(url, "/a.js");
    rt.provide(record("/a.js", &["./gone.js"])).unwrap();
    let err = rt.initialize(&String::from("/a.js")).unwrap_err();
    assert!(matches!(err, HostError::GraphLookup(_)));
    assert_eq!(err.message(), "static import has no record in the graph");
}

#[test]
fn import_cycle_blocks_instantiation_order() {
    let mut g = DependencyGraph::new();
    assert!(g.insert(record("/a.js", &["./b.js"])));
    assert!(g.insert(record("/b.js", &["./a.js"])));
    let rt = RuntimeGraph::from(g);
    let err = rt.initialize(&String::from("/a.js")).unwrap_err();
    assert!(matches!(err, HostError::Instantiate(_)));
}

#[test]
fn identity_table_maps_hashes_to_specifiers() {
    let mut rt = RuntimeGraph::from(chain_graph());
    assert!(rt.lookup_identity(7).is_none());
    rt.register_identity(7, &String::from("/a.js"));
    rt.register_identity(9, &String::from("/b.js"));
    assert_eq!(rt.lookup_identity(7).unwrap(), "/a.js");
    assert_eq!(rt.lookup_identity(9).unwrap(), "/b.js");
    // Re-registration is append-only; the latest binding wins.
    rt.register_identity(7, &String::from("/c.js"));
    assert_eq!(rt.lookup_identity(7).unwrap(), "/c.js");
}

#[test]
fn resolve_module_callback_returns_instantiated_child() {
    let mut rt = RuntimeGraph::from(chain_graph());
    let plan = rt.initialize(&String::from("/a.js")).unwrap();
    for m in &plan {
        assert!(rt.confirm_instantiated(m));
    }
    rt.register_identity(11, &String::from("/a.js"));
    let child = rt
        .resolve_module_callback(11, &String::from("./b.js"))
        .unwrap();
    assert_eq!(child, "/b.js");
}

#[test]
fn resolve_module_callback_fails_hard_without_instance() {
    let mut rt = RuntimeGraph::from(chain_graph());
    rt.register_identity(11, &String::from("/a.js"));
    let err = rt
        .resolve_module_callback(11, &String::from("./b.js"))
        .unwrap_err();
    assert!(matches!(err, HostError::GraphLookup(_)));
    let err2 = rt
        .resolve_module_callback(99, &String::from("./b.js"))
        .unwrap_err();
    assert!(matches!(err2, HostError::GraphLookup(_)));
}

#[test]
fn diamond_dependency_is_planned_once() {
    let mut g = DependencyGraph::new();
    assert!(g.insert(record("/e.js", &["./b.js", "./c.js"])));
    assert!(g.insert(record("/b.js", &["./d.js"])));
    assert!(g.insert(record("/c.js", &["./d.js"])));
    assert!(g.insert(record("/d.js", &[])));
    let rt = RuntimeGraph::from(g);
    let plan = rt.initialize(&String::from("/e.js")).unwrap();
    assert_eq!(plan.len(), 4);
    assert_eq!(plan.iter().filter(|m| m.as_str() == "/d.js").count(), 1);
    let d = plan.iter().position(|m| m == "/d.js").unwrap();
    let b = plan.iter().position(|m| m == "/b.js").unwrap();
    let c = plan.iter().position(|m| m == "/c.js").unwrap();
    let e = plan.iter().position(|m| m == "/e.js").unwrap();
    assert!(d < b && d < c && b < e && c < e);
}
