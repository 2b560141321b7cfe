use depgraph::paths::{
    clone_strings, contains_string, dedup_strings, extension_of, is_relative, join_path,
    parent_of, strip_dir_prefix,
};

#[test]
fn extension_after_the_last_dot() {
    assert_eq!(extension_of("/p/a.ts"), Some("ts".to_string()));
    assert_eq!(extension_of("/p/archive.spec.tsx"), Some("tsx".to_string()));
    assert_eq!(extension_of("a.js"), Some("js".to_string()));
}

#[test]
fn no_extension_for_dotless_or_hidden_names() {
    assert_eq!(extension_of("/p/Makefile"), None);
    assert_eq!(extension_of("/p/.hidden"), None);
    assert_eq!(extension_of(""), None);
}

#[test]
fn dots_in_directories_do_not_count() {
    assert_eq!(extension_of("/p.d/noext"), None);
}

#[test]
fn parent_cuts_at_the_last_separator() {
    assert_eq!(parent_of("/p/q/a.ts"), "/p/q");
    assert_eq!(parent_of("a.ts"), "");
}

#[test]
fn join_inserts_one_separator() {
    assert_eq!(join_path("/work", "tsconfig.json"), "/work/tsconfig.json");
}

#[test]
fn relative_means_no_leading_slash() {
    assert!(is_relative("tsconfig.json"));
    assert!(is_relative(""));
    assert!(!is_relative("/etc/tsconfig.json"));
}

#[test]
fn strip_removes_a_leading_directory() {
    assert_eq!(strip_dir_prefix("/p/a.ts", "/p"), "a.ts");
    assert_eq!(strip_dir_prefix("/q/a.ts", "/p"), "/q/a.ts");
    assert_eq!(strip_dir_prefix("/pq/a.ts", "/p"), "/pq/a.ts");
}

#[test]
fn dedup_keeps_first_occurrences_in_order() {
    let v = vec![
        "./b".to_string(),
        "./c".to_string(),
        "./b".to_string(),
    ];
    let d = dedup_strings(&v);
    assert_eq!(d, vec!["./b".to_string(), "./c".to_string()]);
}

#[test]
fn contains_and_clone_agree_with_the_source() {
    let v = vec!["x".to_string(), "y".to_string()];
    assert!(contains_string(&v, "y"));
    assert!(!contains_string(&v, "z"));
    assert_eq!(clone_strings(&v), v);
}
