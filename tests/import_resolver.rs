use codenav_core::import_resolver::{
    get_basename, normalize_import, remove_extension, resolve_imports_batch, ImportResolver,
};
use codenav_core::tables::PathTable;

fn table_of(pairs: &[(&str, &str)]) -> PathTable {
    PathTable::from_pairs(pairs.iter().map(|(k, v)| (k.to_string(), v.to_string())).collect())
}

fn test_index() -> PathTable {
    table_of(&[
        ("src/utils.py", "src/utils.py"),
        ("src/api/client.py", "src/api/client.py"),
        ("src/api/__init__.py", "src/api/__init__.py"),
        ("lib/index.js", "lib/index.js"),
        ("components/Button.tsx", "components/Button.tsx"),
    ])
}

fn test_extensions() -> Vec<String> {
    vec![".py".to_string(), ".js".to_string(), ".ts".to_string(), ".tsx".to_string()]
}

fn create_test_resolver() -> ImportResolver {
    ImportResolver::new(test_index(), test_extensions())
}

#[test]
fn test_exact_match() {
    let resolver = create_test_resolver();
    let result = resolver.resolve("src/utils.py");
    assert_eq!(result, Some("src/utils.py".to_string()));
}

#[test]
fn test_with_extension() {
    let resolver = create_test_resolver();
    let result = resolver.resolve("src/utils");
    assert_eq!(result, Some("src/utils.py".to_string()));
}

#[test]
fn test_directory_index_python() {
    let resolver = create_test_resolver();
    let result = resolver.resolve("src/api");
    assert_eq!(result, Some("src/api/__init__.py".to_string()));
}

#[test]
fn test_directory_index_js() {
    let resolver = create_test_resolver();
    let result = resolver.resolve("lib");
    assert_eq!(result, Some("lib/index.js".to_string()));
}

#[test]
fn test_suffix_match() {
    let resolver = create_test_resolver();
    let result = resolver.resolve("utils");
    assert_eq!(result, Some("src/utils.py".to_string()));
}

#[test]
fn test_unresolved() {
    let resolver = create_test_resolver();
    let result = resolver.resolve("nonexistent/module");
    assert_eq!(result, None);
}

#[test]
fn test_batch_resolve() {
    let resolver = create_test_resolver();
    let imports = vec![
        "src/utils".to_string(),
        "src/api".to_string(),
        "nonexistent".to_string(),
    ];

    let results = resolver.resolve_batch(&imports);
    assert_eq!(results.len(), 3);
    assert!(results[0].1.is_some());
    assert!(results[1].1.is_some());
    assert!(results[2].1.is_none());
}

#[test]
fn test_resolution_stats() {
    let resolver = create_test_resolver();
    let imports = vec![
        "src/utils".to_string(),
        "src/api".to_string(),
        "nonexistent".to_string(),
        "also_missing".to_string(),
    ];

    let stats = resolver.get_resolution_stats(&imports);
    assert_eq!(stats.total, 4);
    assert_eq!(stats.resolved, 2);
    assert_eq!(stats.unresolved, 2);
    let resolution_rate = stats.resolved as f64 / stats.total as f64;
    assert!((resolution_rate - 0.5).abs() < 0.01);
}

#[test]
fn resolution_stats_empty_batch() {
    let stats = create_test_resolver().get_resolution_stats(&[]);
    assert_eq!(stats.total, 0);
    assert_eq!(stats.resolved, 0);
    assert_eq!(stats.unresolved, 0);
}

#[test]
fn test_normalize_import() {
    assert_eq!(normalize_import("./utils"), "utils");
    assert_eq!(normalize_import("../lib/utils"), "lib/utils");
    assert_eq!(normalize_import("src\\api\\client"), "src/api/client");
    assert_eq!(normalize_import("/absolute/path"), "absolute/path");
}

#[test]
fn normalize_trims_and_collapses_relative_parts() {
    assert_eq!(normalize_import("  src/api \n"), "src/api");
    assert_eq!(normalize_import("../x/./y"), "x/y");
    assert_eq!(normalize_import("///a"), "a");
    assert_eq!(normalize_import("\u{3000}a\u{a0}"), "a");
    assert_eq!(normalize_import(""), "");
}

#[test]
fn normalize_is_idempotent_on_plain_paths() {
    for s in ["./utils", "../lib/utils", "src\\api\\client", "/absolute/path", " a/b "] {
        let once = normalize_import(s);
        assert_eq!(normalize_import(&once), once);
    }
}

#[test]
fn normalize_again_can_trim_more() {
    // stripping the slash exposes white space that the first trim did not see
    let once = normalize_import("/ x");
    assert_eq!(once, " x");
    assert_eq!(normalize_import(&once), "x");
}

#[test]
fn resolve_through_normalized_input() {
    let resolver = create_test_resolver();
    for s in ["./src/utils", "../lib", "src\\api", "utils", "nothing"] {
        let n = normalize_import(s);
        assert_eq!(resolver.resolve(&n), resolver.resolve(s));
    }
}

#[test]
fn lookup_is_case_insensitive() {
    let resolver = create_test_resolver();
    assert_eq!(
        resolver.resolve("COMPONENTS/BUTTON"),
        Some("components/Button.tsx".to_string())
    );
    assert_eq!(resolver.resolve("button"), Some("components/Button.tsx".to_string()));
}

#[test]
fn lookup_prefers_shortest_candidate() {
    let index = table_of(&[("a/long/helpers.py", "a/long/helpers.py"), ("b/helpers.js", "b/helpers.js")]);
    let resolver = ImportResolver::new(index, vec![".rs".to_string()]);
    assert_eq!(resolver.resolve("helpers"), Some("b/helpers.js".to_string()));
}

#[test]
fn ambiguous_suffix_is_unresolved() {
    let index = table_of(&[("a/x.py/mod", "A"), ("b/x.py/mod", "B"), ("c/y.py/mod", "C")]);
    let resolver = ImportResolver::new(index, vec![]);
    assert_eq!(resolver.resolve("x.py/mod"), None);
    assert_eq!(resolver.resolve("y.py/mod"), Some("C".to_string()));
}

#[test]
fn exact_match_wins_over_extension() {
    let index = table_of(&[("pkg", "pkg-dir"), ("pkg.py", "pkg.py")]);
    let resolver = ImportResolver::new(index, test_extensions());
    assert_eq!(resolver.resolve("pkg"), Some("pkg-dir".to_string()));
}

#[test]
fn extension_order_decides() {
    let index = table_of(&[("m.ts", "m.ts"), ("m.js", "m.js")]);
    let resolver = ImportResolver::new(index, test_extensions());
    assert_eq!(resolver.resolve("m"), Some("m.js".to_string()));
}

#[test]
fn resolve_imports_batch_keeps_order() {
    let imports = vec!["nonexistent".to_string(), "lib".to_string(), "src/utils".to_string()];
    let results = resolve_imports_batch(&imports, test_index(), test_extensions());
    assert_eq!(
        results,
        vec![
            ("nonexistent".to_string(), None),
            ("lib".to_string(), Some("lib/index.js".to_string())),
            ("src/utils".to_string(), Some("src/utils.py".to_string())),
        ]
    );
}

#[test]
fn extension_and_basename_helpers() {
    assert_eq!(remove_extension("src/utils.py"), "src/utils");
    assert_eq!(remove_extension("src.d/utils"), "src.d/utils");
    assert_eq!(remove_extension("archive.tar.gz"), "archive.tar");
    assert_eq!(remove_extension("noext"), "noext");
    assert_eq!(get_basename("src/api/client.py"), Some("client.py".to_string()));
    assert_eq!(get_basename("top"), Some("top".to_string()));
    assert_eq!(get_basename("dir/"), Some("".to_string()));
}

#[test]
fn later_pair_replaces_earlier_key() {
    let index = table_of(&[("a.py", "first"), ("a.py", "second")]);
    let resolver = ImportResolver::new(index, vec![]);
    assert_eq!(resolver.resolve("a.py"), Some("second".to_string()));
}

#[test]
fn lookup_shortest_counts_bytes() {
    // "abc/x.py" is 8 bytes; "\u{e9}\u{e9}/x.py" is 7 characters but 9 bytes
    let index = table_of(&[("\u{e9}\u{e9}/x.py", "\u{e9}\u{e9}/x.py"), ("abc/x.py", "abc/x.py")]);
    let resolver = ImportResolver::new(index, vec![]);
    assert_eq!(resolver.resolve("x"), Some("abc/x.py".to_string()));
}

#[test]
fn stem_and_basename_both_file_a_top_level_path() {
    let index = table_of(&[("utils.py", "utils.py"), ("lib/utils.js", "lib/utils.js")]);
    let resolver = ImportResolver::new(index, vec![".rs".to_string()]);
    // both are candidates under "utils"; the shorter one wins
    assert_eq!(resolver.resolve("UTILS"), Some("utils.py".to_string()));
    assert_eq!(resolver.resolve("lib/utils"), Some("lib/utils.js".to_string()));
}
