use excali_ts::graph::{is_relative_specifier, last_segment_of, path_less, resolve};
use excali_ts::jsops::{collect_imports, get_dependencies, parse, JsError};

#[test]
fn parse_lists_imports_in_order() {
    let text = "import a from './a';\nconst x = 1;\nimport { b } from \"../lib/b\";\nimport 'left-pad';\nexport const y = x;\n";
    assert_eq!(parse(text), Ok(vec!["./a".to_string(), "../lib/b".to_string(), "left-pad".to_string()]));
}

#[test]
fn parse_without_imports() {
    assert_eq!(parse("let x = 1;"), Ok(vec![]));
    assert_eq!(parse(""), Ok(vec![]));
}

#[test]
fn parse_rejects_malformed_source() {
    assert_eq!(parse("import from from from;"), Err(JsError::Syntax));
    assert_eq!(parse("let = ;"), Err(JsError::Syntax));
}

#[test]
fn collect_keeps_only_imports() {
    let items = vec![None, Some("./x".to_string()), None, Some("y".to_string())];
    assert_eq!(collect_imports(items), vec!["./x".to_string(), "y".to_string()]);
}

#[test]
fn relative_specifiers() {
    assert!(is_relative_specifier("./b"));
    assert!(is_relative_specifier("../b"));
    assert!(is_relative_specifier("/abs/b"));
    assert!(is_relative_specifier("."));
    assert!(is_relative_specifier(".."));
    assert!(!is_relative_specifier("left-pad"));
    assert!(!is_relative_specifier("@scope/pkg"));
    assert!(!is_relative_specifier(".hidden"));
    assert!(!is_relative_specifier(""));
}

#[test]
fn last_segments() {
    assert_eq!(last_segment_of("../lib/b"), "b");
    assert_eq!(last_segment_of("left-pad"), "left-pad");
    assert_eq!(last_segment_of("a/"), "");
    assert_eq!(last_segment_of(""), "");
}

#[test]
fn path_order() {
    assert!(path_less("/p/a.ts", "/p/b.ts"));
    assert!(!path_less("/p/b.ts", "/p/a.ts"));
    assert!(path_less("/p/a", "/p/a.ts"));
    assert!(!path_less("/p/a", "/p/a"));
    assert!(path_less("", "a"));
    assert!(path_less("B", "a"));
}

#[test]
fn resolution_outcomes() {
    let r = resolve("./b", Some("/p/b.ts".to_string()));
    assert!(r.resolved);
    assert_eq!(r.source, "/p/b.ts");
    assert_eq!(r.name, "b");
    let u = resolve("../missing", None);
    assert!(!u.resolved);
    assert_eq!(u.source, "../missing");
    assert_eq!(u.name, "missing");
}

#[test]
fn dependencies_follow_specifiers() {
    let specs = vec!["./b".to_string(), "left-pad".to_string(), "./gone".to_string()];
    let canon = vec![Some("/p/b.ts".to_string()), None, None];
    let deps = get_dependencies(&specs, &canon);
    assert_eq!(deps.len(), 3);
    assert_eq!(deps[0].source, "/p/b.ts");
    assert!(deps[0].resolved);
    assert_eq!(deps[1].source, "left-pad");
    assert_eq!(deps[1].name, "left-pad");
    assert!(!deps[2].resolved);
    assert_eq!(deps[2].source, "./gone");
}
