use depgraph::record::ModuleState;
use depgraph::runtime::{Action, Event, Runtime};

fn start(rt: &mut Runtime) -> Action {
    rt.step(Event::Start)
}

fn read_ok(rt: &mut Runtime, text: &str) -> Action {
    rt.step(Event::FileRead { result: Ok(text.to_string()) })
}

fn read_err(rt: &mut Runtime, msg: &str) -> Action {
    rt.step(Event::FileRead { result: Err(msg.to_string()) })
}

fn resolved(rt: &mut Runtime, path: &str) -> Action {
    rt.step(Event::SpecifierResolved { path: Some(path.to_string()) })
}

fn path_id(rt: &Runtime, path: &str) -> usize {
    let mut i = 0;
    while i < rt.path_names.len() {
        if rt.path_names[i] == path {
            return i;
        }
        i += 1;
    }
    panic!("path not interned");
}

#[test]
fn no_imports_yields_no_edges() {
    let mut rt = Runtime::new("/p".to_string(), &vec!["/p/c.ts".to_string()], true);
    let a = start(&mut rt);
    assert!(matches!(a, Action::Read { ref path } if path == "/p/c.ts"));
    let a = read_ok(&mut rt, "const x = 1;");
    assert!(matches!(a, Action::Done));
    let id = path_id(&rt, "/p/c.ts");
    match rt.module_map[id] {
        Some(ModuleState::Resolved(r)) => {
            assert_eq!(rt.records[r].loaded_modules.len(), 0);
        },
        _ => panic!("expected a resolved state"),
    }
    assert_eq!(rt.outputs.len(), 0);
}

#[test]
fn chain_of_three_yields_two_edges() {
    let mut rt = Runtime::new("/p".to_string(), &vec!["/p/a.ts".to_string()], true);
    let a = start(&mut rt);
    assert!(matches!(a, Action::Read { ref path } if path == "/p/a.ts"));
    let a = read_ok(&mut rt, "import \"./b\";");
    match a {
        Action::Resolve { ref dir, ref specifier } => {
            assert_eq!(dir, "/p");
            assert_eq!(specifier, "./b");
        },
        _ => panic!("expected a resolve action"),
    }
    let a = resolved(&mut rt, "/p/b.ts");
    assert!(matches!(a, Action::Read { ref path } if path == "/p/b.ts"));
    let a = read_ok(&mut rt, "import \"./c\";");
    assert!(matches!(a, Action::Resolve { ref specifier, .. } if specifier == "./c"));
    let a = resolved(&mut rt, "/p/c.ts");
    assert!(matches!(a, Action::Read { ref path } if path == "/p/c.ts"));
    let a = read_ok(&mut rt, "");
    assert!(matches!(a, Action::Done));

    // a's dependency map holds b's resolved path
    let aid = path_id(&rt, "/p/a.ts");
    let bid = path_id(&rt, "/p/b.ts");
    match rt.module_map[aid] {
        Some(ModuleState::Resolved(r)) => {
            assert_eq!(rt.records[r].loaded_modules.len(), 1);
            assert_eq!(rt.records[r].loaded_modules[0].0, "./b");
            assert_eq!(rt.records[r].loaded_modules[0].1, bid);
        },
        _ => panic!("expected a resolved state"),
    }
    // the emitted edge set is {(a, b-abs), (b, c-abs)}, with no diagnostics
    assert_eq!(rt.outputs.len(), 2);
    let mut edges: Vec<(String, String)> = Vec::new();
    for (src, deps) in &rt.outputs {
        for d in deps {
            edges.push((src.clone(), d.clone()));
        }
    }
    edges.sort();
    assert_eq!(
        edges,
        vec![
            ("a.ts".to_string(), "/p/b.ts".to_string()),
            ("b.ts".to_string(), "/p/c.ts".to_string()),
        ]
    );
}

#[test]
fn two_cycle_completes_with_both_resolved() {
    let mut rt = Runtime::new("/p".to_string(), &vec!["/p/a.ts".to_string()], true);
    let a = start(&mut rt);
    assert!(matches!(a, Action::Read { .. }));
    let a = read_ok(&mut rt, "import \"./b\";");
    assert!(matches!(a, Action::Resolve { .. }));
    let a = resolved(&mut rt, "/p/b.ts");
    assert!(matches!(a, Action::Read { ref path } if path == "/p/b.ts"));
    let a = read_ok(&mut rt, "import \"./a\";");
    assert!(matches!(a, Action::Resolve { ref specifier, .. } if specifier == "./a"));
    // b's import of a revisits a path whose state is already written: a
    // cache hit, not a second descent
    let a = resolved(&mut rt, "/p/a.ts");
    assert!(matches!(a, Action::Done));
    let aid = path_id(&rt, "/p/a.ts");
    let bid = path_id(&rt, "/p/b.ts");
    assert!(matches!(rt.module_map[aid], Some(ModuleState::Resolved(_))));
    assert!(matches!(rt.module_map[bid], Some(ModuleState::Resolved(_))));
    // both edges were emitted
    assert_eq!(rt.outputs.len(), 2);
}

#[test]
fn star_export_bindings_are_propagated() {
    let mut rt = Runtime::new("/p".to_string(), &vec!["/p/b.ts".to_string()], true);
    let a = start(&mut rt);
    assert!(matches!(a, Action::Read { .. }));
    let a = read_ok(&mut rt, "export * from \"./c\";");
    assert!(matches!(a, Action::Resolve { ref specifier, .. } if specifier == "./c"));
    let a = resolved(&mut rt, "/p/c.ts");
    assert!(matches!(a, Action::Read { ref path } if path == "/p/c.ts"));
    let a = read_ok(&mut rt, "export const x = 1;\nexport const y = 2;");
    assert!(matches!(a, Action::Done));

    let bid = path_id(&rt, "/p/b.ts");
    let cid = path_id(&rt, "/p/c.ts");
    match rt.module_map[bid] {
        Some(ModuleState::Resolved(r)) => {
            let table = &rt.records[r].star_export_bindings;
            assert_eq!(table.len(), 1);
            assert_eq!(table[0].0, cid);
            let mut names = table[0].1.clone();
            names.sort();
            assert_eq!(names, vec!["x".to_string(), "y".to_string()]);
        },
        _ => panic!("expected a resolved state"),
    }
}

#[test]
fn transitive_star_exports_are_folded() {
    // a re-exports everything of b, which re-exports everything of c
    let mut rt = Runtime::new("/p".to_string(), &vec!["/p/a.ts".to_string()], true);
    start(&mut rt);
    let a = read_ok(&mut rt, "export * from \"./b\";");
    assert!(matches!(a, Action::Resolve { .. }));
    let a = resolved(&mut rt, "/p/b.ts");
    assert!(matches!(a, Action::Read { ref path } if path == "/p/b.ts"));
    let a = read_ok(&mut rt, "export * from \"./c\";");
    assert!(matches!(a, Action::Resolve { .. }));
    let a = resolved(&mut rt, "/p/c.ts");
    assert!(matches!(a, Action::Read { ref path } if path == "/p/c.ts"));
    let a = read_ok(&mut rt, "export const z = 3;");
    assert!(matches!(a, Action::Done));

    let aid = path_id(&rt, "/p/a.ts");
    let bid = path_id(&rt, "/p/b.ts");
    match rt.module_map[aid] {
        Some(ModuleState::Resolved(r)) => {
            let table = &rt.records[r].star_export_bindings;
            assert_eq!(table.len(), 1);
            assert_eq!(table[0].0, bid);
            assert_eq!(table[0].1, vec!["z".to_string()]);
        },
        _ => panic!("expected a resolved state"),
    }
}

#[test]
fn unrecognized_extension_is_ignored_and_siblings_proceed() {
    let mut rt = Runtime::new(
        "/p".to_string(),
        &vec!["/p/x.dat".to_string(), "/p/c.ts".to_string()],
        true,
    );
    // the first entry is ignored without any read; the second proceeds
    let a = start(&mut rt);
    assert!(matches!(a, Action::Read { ref path } if path == "/p/c.ts"));
    let a = read_ok(&mut rt, "const q = 0;");
    assert!(matches!(a, Action::Done));
    let xid = path_id(&rt, "/p/x.dat");
    let cid = path_id(&rt, "/p/c.ts");
    assert!(matches!(rt.module_map[xid], Some(ModuleState::Ignored)));
    assert!(matches!(rt.module_map[cid], Some(ModuleState::Resolved(_))));
    assert_eq!(rt.outputs.len(), 0);
}

#[test]
fn read_failure_degrades_to_ignored_with_diagnostic() {
    let mut rt = Runtime::new("/p".to_string(), &vec!["/p/a.ts".to_string()], true);
    let a = start(&mut rt);
    assert!(matches!(a, Action::Read { .. }));
    let a = read_err(&mut rt, "no such file");
    assert!(matches!(a, Action::Done));
    let aid = path_id(&rt, "/p/a.ts");
    assert!(matches!(rt.module_map[aid], Some(ModuleState::Ignored)));
    assert_eq!(rt.outputs.len(), 1);
    assert_eq!(rt.outputs[0].0, "/p/a.ts");
    assert_eq!(rt.outputs[0].1, vec!["no such file".to_string()]);
}

#[test]
fn syntax_errors_surface_but_do_not_abort() {
    let mut rt = Runtime::new("/p".to_string(), &vec!["/p/a.ts".to_string()], true);
    let a = start(&mut rt);
    assert!(matches!(a, Action::Read { .. }));
    let mut a = read_ok(&mut rt, "import {");
    while matches!(a, Action::Resolve { .. }) {
        a = rt.step(Event::SpecifierResolved { path: None });
    }
    assert!(matches!(a, Action::Done));
    let aid = path_id(&rt, "/p/a.ts");
    // a best-effort record still exists
    assert!(matches!(rt.module_map[aid], Some(ModuleState::Resolved(_))));
    assert!(rt.outputs.len() >= 1);
    assert_eq!(rt.outputs[0].0, "/p/a.ts");
    assert!(rt.outputs[0].1.len() >= 1);
}

#[test]
fn empty_fragment_list_is_ignored() {
    let mut rt = Runtime::new("/p".to_string(), &vec!["/p/a.vue".to_string()], true);
    let a = start(&mut rt);
    assert!(matches!(a, Action::Read { ref path } if path == "/p/a.vue"));
    let a = read_ok(&mut rt, "<template></template>");
    assert!(matches!(a, Action::LoadFragments { ref ext, .. } if ext == "vue"));
    let a = rt.step(Event::FragmentsLoaded { fragments: Vec::new() });
    assert!(matches!(a, Action::Done));
    let id = path_id(&rt, "/p/a.vue");
    assert!(matches!(rt.module_map[id], Some(ModuleState::Ignored)));
}

#[test]
fn container_fragments_are_parsed() {
    let mut rt = Runtime::new("/p".to_string(), &vec!["/p/a.vue".to_string()], true);
    start(&mut rt);
    let a = read_ok(&mut rt, "<script>import \"./c\";</script>");
    assert!(matches!(a, Action::LoadFragments { .. }));
    let a = rt.step(
        Event::FragmentsLoaded { fragments: vec![("import \"./c\";".to_string(), "js".to_string())] },
    );
    assert!(matches!(a, Action::Resolve { ref specifier, .. } if specifier == "./c"));
    let a = resolved(&mut rt, "/p/c.js");
    assert!(matches!(a, Action::Read { ref path } if path == "/p/c.js"));
    let a = read_ok(&mut rt, "");
    assert!(matches!(a, Action::Done));
    assert_eq!(rt.outputs.len(), 1);
    assert_eq!(rt.outputs[0].0, "a.vue");
    assert_eq!(rt.outputs[0].1, vec!["/p/c.js".to_string()]);
}

#[test]
fn unresolved_specifiers_are_dropped_silently() {
    let mut rt = Runtime::new("/p".to_string(), &vec!["/p/a.ts".to_string()], true);
    start(&mut rt);
    let a = read_ok(&mut rt, "import \"lodash\";");
    assert!(matches!(a, Action::Resolve { .. }));
    let a = rt.step(Event::SpecifierResolved { path: None });
    assert!(matches!(a, Action::Done));
    assert_eq!(rt.outputs.len(), 0);
    let aid = path_id(&rt, "/p/a.ts");
    match rt.module_map[aid] {
        Some(ModuleState::Resolved(r)) => assert_eq!(rt.records[r].loaded_modules.len(), 0),
        _ => panic!("expected a resolved state"),
    }
}

#[test]
fn single_file_mode_builds_no_graph() {
    let mut rt = Runtime::new("/p".to_string(), &vec!["/p/a.ts".to_string()], false);
    let a = start(&mut rt);
    assert!(matches!(a, Action::Read { .. }));
    // the import is parsed but never resolved: no graph in single-file mode
    let a = read_ok(&mut rt, "import \"./b\";");
    assert!(matches!(a, Action::Done));
    let aid = path_id(&rt, "/p/a.ts");
    assert!(matches!(rt.module_map[aid], Some(ModuleState::Resolved(_))));
    assert_eq!(rt.outputs.len(), 0);
    assert_eq!(rt.path_names.len(), 1);
}

#[test]
fn one_state_per_path_under_repeated_visits() {
    // two parents import the same dependency; its state is written once
    let mut rt = Runtime::new(
        "/p".to_string(),
        &vec!["/p/a.ts".to_string(), "/p/b.ts".to_string()],
        true,
    );
    let a = start(&mut rt);
    assert!(matches!(a, Action::Read { ref path } if path == "/p/a.ts"));
    let a = read_ok(&mut rt, "import \"./c\";");
    assert!(matches!(a, Action::Resolve { .. }));
    let a = resolved(&mut rt, "/p/c.ts");
    assert!(matches!(a, Action::Read { ref path } if path == "/p/c.ts"));
    let a = read_ok(&mut rt, "export const x = 1;");
    // c is done; b now imports c again: a cache hit, no second read of c
    assert!(matches!(a, Action::Read { ref path } if path == "/p/b.ts"));
    let a = read_ok(&mut rt, "import \"./c\";");
    assert!(matches!(a, Action::Resolve { .. }));
    let a = resolved(&mut rt, "/p/c.ts");
    assert!(matches!(a, Action::Done));
    let cid = path_id(&rt, "/p/c.ts");
    match rt.module_map[cid] {
        Some(ModuleState::Resolved(r)) => {
            // exactly one record serves both dependents
            let aid = path_id(&rt, "/p/a.ts");
            let bid = path_id(&rt, "/p/b.ts");
            match (rt.module_map[aid], rt.module_map[bid]) {
                (Some(ModuleState::Resolved(ra)), Some(ModuleState::Resolved(rb))) => {
                    assert_eq!(rt.records[ra].loaded_modules[0].1, cid);
                    assert_eq!(rt.records[rb].loaded_modules[0].1, cid);
                    assert!(r != ra && r != rb);
                },
                _ => panic!("expected resolved states"),
            }
        },
        _ => panic!("expected a resolved state"),
    }
}
