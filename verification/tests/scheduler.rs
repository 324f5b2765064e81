use edon::engine::RuntimeGraph;
use edon::errors::HostError;
use edon::graph::DependencyGraph;
use edon::graph::ModuleDependency;
use edon::scheduler::is_due;
use edon::scheduler::AsynchronousKind;
use edon::scheduler::ExecAction;
use edon::scheduler::ImportPhase;
use edon::scheduler::ImportStep;
use edon::scheduler::RuntimeState;

fn record(filename: &str, deps: &[&str]) -> ModuleDependency {
    ModuleDependency {
        deps: deps.iter().map(|d| d.to_string()).collect(),
        async_deps: Vec::new(),
        specifiers: Vec::new(),
        source: String::from("export {};"),
        map: None,
        filename: filename.to_string(),
        is_main: false,
    }
}

#[test]
fn trampoline_script_for_operation_token() {
    let op = AsynchronousKind::Operation(42);
    match op.exec() {
        ExecAction::RunScript(name, src) => {
            assert_eq!(name, "42.js");
            assert_eq!(src, "globalThis.exec(42);");
        }
        ExecAction::RunImport(_) => panic!("operation must become a script"),
    }
}

#[test]
fn trampoline_script_for_zero_token() {
    let op = AsynchronousKind::Operation(0);
    match op.exec() {
        ExecAction::RunScript(name, src) => {
            assert_eq!(name, "0.js");
            assert_eq!(src, "globalThis.exec(0);");
        }
        ExecAction::RunImport(_) => panic!("operation must become a script"),
    }
}

#[test]
fn trampoline_script_for_largest_token() {
    let op = AsynchronousKind::Operation(u32::MAX);
    match op.exec() {
        ExecAction::RunScript(name, src) => {
            assert_eq!(name, "4294967295.js");
            assert_eq!(src, "globalThis.exec(4294967295);");
        }
        ExecAction::RunImport(_) => panic!("operation must become a script"),
    }
}

#[test]
fn trampoline_script_keeps_interior_zeros() {
    let op = AsynchronousKind::Operation(100);
    match op.exec() {
        ExecAction::RunScript(name, src) => {
            assert_eq!(name, "100.js");
            assert_eq!(src, "globalThis.exec(100);");
        }
        ExecAction::RunImport(_) => panic!("operation must become a script"),
    }
}

#[test]
fn is_due_fires_no_earlier_than_the_delay() {
    assert!(!is_due(9, 0, 10));
    assert!(is_due(10, 0, 10));
    assert!(is_due(1_000, 5, 10));
    assert!(!is_due(5, u64::MAX, 10));
}

#[test]
fn readiness_not_submission_order_decides() {
    // Operation(1) with delay 10 and Operation(2) with delay 1000,
    // both enqueued at time 0; observed at time 15 only the first is
    // due, so it runs well before the second.
    let mut st = RuntimeState::new();
    st.enqueue_operation(1);
    st.enqueue_operation(2);
    let now = 15u64;
    let flags = vec![is_due(now, 0, 10), is_due(now, 0, 1000)];
    let op = st.take_first_ready(&flags).unwrap();
    assert!(matches!(op, AsynchronousKind::Operation(1)));

    // The later submission may fire first when it is ready first.
    let mut st2 = RuntimeState::new();
    st2.enqueue_operation(1);
    st2.enqueue_operation(2);
    let flags2 = vec![false, true];
    let op2 = st2.take_first_ready(&flags2).unwrap();
    assert!(matches!(op2, AsynchronousKind::Operation(2)));
    assert_eq!(st2.pending_ops.len(), 1);
}

#[test]
fn scheduler_terminates_when_the_queue_empties_repeatedly() {
    let mut st = RuntimeState::new();
    assert!(st.run_done());
    st.enqueue_operation(1);
    st.enqueue_operation(2);
    assert!(!st.run_done());
    while !st.run_done() {
        let n = st.pending_ops.len();
        let flags = vec![true; n];
        st.take_first_ready(&flags).unwrap();
    }
    assert!(st.run_done());
    // Populated again after a full drain: drains again to done.
    st.enqueue_operation(3);
    assert!(!st.run_done());
    let flags = vec![true];
    st.take_first_ready(&flags).unwrap();
    assert!(st.run_done());
    assert!(st.take_first_ready(&Vec::new()).is_none());
}

#[test]
fn dynamic_import_of_new_module_appends_instantiates_evaluates_resolves() {
    // Entry module /dir/main.js runs import("./math.js"): exactly one
    // graph append, one instantiation pass, one evaluation pass, and
    // the handle settles with the namespace of /dir/math.js.
    let mut g = DependencyGraph::new();
    assert!(g.insert(record("/dir/main.js", &[])));
    let mut rt = RuntimeGraph::from(g);

    let mut st = RuntimeState::new();
    let id = st.dynamically_import(&String::from("./math.js"), &String::from("/dir/main.js"));
    assert_eq!(id, 0);
    assert_eq!(st.resolvers, 1);

    let op = st.take_first_ready(&vec![true]).unwrap();
    let mut job = match op.exec() {
        ExecAction::RunImport(job) => job,
        ExecAction::RunScript(_, _) => panic!("import must become a job"),
    };
    assert_eq!(job.specifier, "/dir/math.js");
    assert_eq!(job.phase, ImportPhase::Fresh);

    let mut appends = 0;
    let step = job.start(&rt);
    let target = match step {
        ImportStep::Append(s) => {
            appends += 1;
            s
        }
        _ => panic!("a module not in the graph is appended first"),
    };
    assert_eq!(target, "/dir/math.js");

    // The shell extends the graph through the runtime's own crawl.
    rt.append(&target, &String::from(""), false);
    while let Some(url) = rt.next_load() {
        assert_eq!(url, "/dir/math.js");
        rt.provide(record("/dir/math.js", &[])).unwrap();
    }

    let step = job.appended(&rt, Ok(()));
    let plan = match step {
        ImportStep::Instantiate(plan) => plan,
        _ => panic!("a successful append is followed by instantiation"),
    };
    assert_eq!(plan, vec!["/dir/math.js"]);
    for m in &plan {
        assert!(rt.confirm_instantiated(m));
    }

    let step = job.instantiated(&rt, Ok(()));
    let eval_plan = match step {
        ImportStep::Evaluate(plan) => plan,
        _ => panic!("instantiation is followed by evaluation"),
    };
    assert_eq!(eval_plan, vec!["/dir/math.js"]);
    for m in &eval_plan {
        assert!(rt.confirm_evaluated(m));
    }

    let step = job.evaluated(Ok(()));
    match step {
        ImportStep::Resolve(rid, ns) => {
            assert_eq!(rid, 0);
            assert_eq!(ns, "/dir/math.js");
        }
        _ => panic!("a successful import settles with the namespace"),
    }
    assert_eq!(job.phase, ImportPhase::Settled);
    assert_eq!(appends, 1);
    assert!(st.run_done());
}

#[test]
fn failed_compile_rejects_the_handle_and_spares_the_scheduler() {
    // The dynamic import's target fails to compile; its handle is
    // rejected, and an unrelated Operation job still executes.
    let mut g = DependencyGraph::new();
    assert!(g.insert(record("/dir/main.js", &[])));
    let rt = RuntimeGraph::from(g);

    let mut st = RuntimeState::new();
    let id = st.dynamically_import(&String::from("./bad.js"), &String::from("/dir/main.js"));
    st.enqueue_operation(5);

    let op = st.take_first_ready(&vec![true, true]).unwrap();
    let mut job = match op.exec() {
        ExecAction::RunImport(job) => job,
        ExecAction::RunScript(_, _) => panic!("import first"),
    };
    let step = job.start(&rt);
    assert!(matches!(step, ImportStep::Append(_)));
    // Loading and compiling /dir/bad.js failed.
    let step = job.appended(
        &rt,
        Err(HostError::Compile(String::from("unexpected token"))),
    );
    match step {
        ImportStep::Reject(rid, msg) => {
            assert_eq!(rid, id);
            assert_eq!(msg, "unexpected token");
        }
        _ => panic!("a failed append settles with a rejection"),
    }
    assert_eq!(job.phase, ImportPhase::Settled);

    // The sibling operation is untouched and still runs.
    let op = st.take_first_ready(&vec![true]).unwrap();
    match op.exec() {
        ExecAction::RunScript(name, src) => {
            assert_eq!(name, "5.js");
            assert_eq!(src, "globalThis.exec(5);");
        }
        ExecAction::RunImport(_) => panic!("the remaining job is the operation"),
    }
    assert!(st.run_done());
}

#[test]
fn dynamic_import_of_present_module_skips_the_append() {
    let mut g = DependencyGraph::new();
    assert!(g.insert(record("/dir/main.js", &[])));
    let mut rt = RuntimeGraph::from(g);
    let mut st = RuntimeState::new();
    st.dynamically_import(&String::from("./main.js"), &String::from("/dir/other.js"));
    let op = st.take_first_ready(&vec![true]).unwrap();
    let mut job = match op.exec() {
        ExecAction::RunImport(job) => job,
        _ => panic!(),
    };
    let step = job.start(&rt);
    let plan = match step {
        ImportStep::Instantiate(plan) => plan,
        _ => panic!("a module already in the graph is not appended again"),
    };
    assert_eq!(plan, vec!["/dir/main.js"]);
    for m in &plan {
        assert!(rt.confirm_instantiated(m));
    }
}

#[test]
fn planner_rejections_carry_the_diagnostic_text() {
    // A cyclic target rejects the handle with the cycle diagnostic.
    let mut g = DependencyGraph::new();
    assert!(g.insert(record("/a.js", &["./b.js"])));
    assert!(g.insert(record("/b.js", &["./a.js"])));
    let rt = RuntimeGraph::from(g);
    let mut st = RuntimeState::new();
    let id = st.dynamically_import(&String::from("./a.js"), &String::from("/main.js"));
    let op = st.take_first_ready(&vec![true]).unwrap();
    let mut job = match op.exec() {
        ExecAction::RunImport(job) => job,
        _ => panic!(),
    };
    match job.start(&rt) {
        ImportStep::Reject(rid, msg) => {
            assert_eq!(rid, id);
            assert_eq!(msg, "cyclic static imports block instantiation order");
        }
        _ => panic!("a cyclic target is rejected at planning"),
    }
}

#[test]
fn repeated_dynamic_import_plans_no_work() {
    // The same module imported dynamically a second time: no append,
    // an empty instantiation plan, and the handle still settles.
    let mut g = DependencyGraph::new();
    assert!(g.insert(record("/dir/mod.js", &[])));
    let mut rt = RuntimeGraph::from(g);
    let plan = rt.initialize(&String::from("/dir/mod.js")).unwrap();
    for m in &plan {
        assert!(rt.confirm_instantiated(m));
    }
    let eval_plan = rt.evaluate(&String::from("/dir/mod.js")).unwrap();
    for m in &eval_plan {
        assert!(rt.confirm_evaluated(m));
    }

    let mut st = RuntimeState::new();
    st.dynamically_import(&String::from("./mod.js"), &String::from("/dir/other.js"));
    let op = st.take_first_ready(&vec![true]).unwrap();
    let mut job = match op.exec() {
        ExecAction::RunImport(job) => job,
        _ => panic!(),
    };
    let step = job.start(&rt);
    match step {
        ImportStep::Instantiate(plan) => assert!(plan.is_empty()),
        _ => panic!("an instantiated module is planned, with no work"),
    }
    let step = job.instantiated(&rt, Ok(()));
    match step {
        ImportStep::Evaluate(plan) => assert!(plan.is_empty()),
        _ => panic!("evaluation follows, with no work"),
    }
    match job.evaluated(Ok(())) {
        ImportStep::Resolve(rid, ns) => {
            assert_eq!(rid, 0);
            assert_eq!(ns, "/dir/mod.js");
        }
        _ => panic!("the handle settles with the existing namespace"),
    }
}
