use depgraph::collector::{CollectorService, Message};
use depgraph::edge::EdgeType;
use depgraph::runtime::{Action, Event};
use depgraph::service::{AnalyzeService, AnalyzeServiceOptions};

#[test]
fn options_default_to_single_file_mode() {
    let opts = AnalyzeServiceOptions::new("/work".to_string(), vec!["/work/a.ts".to_string()]);
    assert_eq!(opts.cwd(), "/work");
    assert!(!opts.cross_module);
    assert!(opts.tsconfig.is_none());
}

#[test]
fn relative_tsconfig_is_joined_to_cwd() {
    let opts = AnalyzeServiceOptions::new("/work".to_string(), Vec::new()).with_tsconfig(
        "tsconfig.json".to_string(),
    );
    assert_eq!(opts.tsconfig, Some("/work/tsconfig.json".to_string()));
}

#[test]
fn absolute_tsconfig_is_kept() {
    let opts = AnalyzeServiceOptions::new("/work".to_string(), Vec::new()).with_tsconfig(
        "/etc/ts/tsconfig.json".to_string(),
    );
    assert_eq!(opts.tsconfig, Some("/etc/ts/tsconfig.json".to_string()));
}

#[test]
fn with_cross_module_flips_the_flag() {
    let opts = AnalyzeServiceOptions::new("/work".to_string(), Vec::new()).with_cross_module(true);
    assert!(opts.cross_module);
}

#[test]
fn service_run_counts_no_dependencies_without_imports() {
    let opts = AnalyzeServiceOptions::new(
        "/nowhere".to_string(),
        vec!["/nowhere/a.ts".to_string()],
    ).with_cross_module(true);
    let mut svc = AnalyzeService::new(opts);
    let a = svc.advance(Event::Start);
    assert!(matches!(a, Action::Read { ref path } if path == "/nowhere/a.ts"));
    let a = svc.advance(Event::FileRead { result: Ok("const x = 1;".to_string()) });
    assert!(matches!(a, Action::Done));
    assert_eq!(svc.number_of_dependencies(), 0);
    let stream = svc.finish_stream();
    assert_eq!(stream.len(), 1);
    assert!(stream[0].is_none());
}

#[test]
fn service_resolver_drops_unresolvable_imports() {
    let opts = AnalyzeServiceOptions::new(
        "/nowhere".to_string(),
        vec!["/nowhere/a.ts".to_string()],
    ).with_cross_module(true);
    let mut svc = AnalyzeService::new(opts);
    let a = svc.advance(Event::Start);
    assert!(matches!(a, Action::Read { .. }));
    let mut a = svc.advance(
        Event::FileRead { result: Ok("import \"./does-not-exist\";".to_string()) },
    );
    // the real resolver finds nothing under /nowhere: the import is dropped
    while let Action::Resolve { dir, specifier } = a {
        a = svc.answer_resolve(&dir, &specifier);
    }
    assert!(matches!(a, Action::Done));
    assert_eq!(svc.number_of_dependencies(), 0);
    assert_eq!(svc.runtime.outputs.len(), 0);
}

#[test]
fn collector_flattens_entries_up_to_the_sentinel() {
    let mut c = CollectorService::default();
    let stream = vec![
        Some(("a.ts".to_string(), vec!["/p/b.ts".to_string(), "/p/c.ts".to_string()])),
        Some(("b.ts".to_string(), vec!["/p/c.ts".to_string()])),
        None,
        Some(("late.ts".to_string(), vec!["/p/zzz.ts".to_string()])),
    ];
    c.start(&stream);
    assert_eq!(
        c.deps,
        vec![
            ("a.ts".to_string(), "/p/b.ts".to_string()),
            ("a.ts".to_string(), "/p/c.ts".to_string()),
            ("b.ts".to_string(), "/p/c.ts".to_string()),
        ]
    );
}

#[test]
fn wrap_messages_pairs_the_path_with_each_message() {
    let msgs = vec![
        Message { file_path: "/p/b.ts".to_string() },
        Message { file_path: "/p/c.ts".to_string() },
    ];
    let (path, diags) = CollectorService::wrap_messages(&"a.ts".to_string(), &msgs);
    assert_eq!(path, "a.ts");
    assert_eq!(diags, vec!["/p/b.ts".to_string(), "/p/c.ts".to_string()]);
}

#[test]
fn edge_kinds_cover_control_flow() {
    let e = EdgeType::Normal;
    assert!(matches!(e, EdgeType::Normal));
    let j = EdgeType::Join;
    assert!(matches!(j.clone(), EdgeType::Join));
}
