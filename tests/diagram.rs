use excali_ts::excalidraw::{
    ElementKind, ExcalidrawAppState, ExcalidrawBinding, ExcalidrawBoundElement, ExcalidrawDocument,
    ExcalidrawElement, ExcalidrawPoint,
};
use excali_ts::graph::{build_dependency_map, resolve, DependencyGraph, FileNode, ScannedFile};
use excali_ts::layout::{build_document, layout, route, route_with_ids, DiagramConfig};

fn scanned(path: &str, imports: Vec<FileNode>) -> ScannedFile {
    ScannedFile { path: path.to_string(), imports: Some(imports) }
}

/// An object in the writer's layout: one field per line, indented by 12,
/// the closing brace indented by 8.
fn obj(fields: &[&str]) -> String {
    format!("{{\n            {}\n        }}", fields.join(",\n            "))
}

fn pt(x: &str, y: &str) -> String {
    format!("[\n            {},\n            {}\n        ]", x, y)
}

fn unbound() -> String {
    obj(&["\"elementId\": \"\"", "\"focus\": 0", "\"gap\": 0"])
}

fn texts(doc: &ExcalidrawDocument) -> Vec<&ExcalidrawElement> {
    doc.elements.iter().filter(|e| e.kind == ElementKind::Text).collect()
}

fn arrows(doc: &ExcalidrawDocument) -> Vec<&ExcalidrawElement> {
    doc.elements.iter().filter(|e| e.kind == ElementKind::Arrow).collect()
}

#[test]
fn empty_directory_gives_no_elements() {
    let graph = build_dependency_map(Vec::new());
    let doc = build_document(&graph, &DiagramConfig::new());
    assert!(doc.elements.is_empty());
    let app = obj(&["\"viewBackgroundColor\": \"#ffffff\""]);
    let app_field = format!("\"appState\": {}", app);
    assert_eq!(
        doc.to_json(),
        obj(&[
            "\"type\": \"excalidraw\"",
            "\"version\": \"2.0.0\"",
            "\"source\": \"https://excalidraw.com\"",
            "\"elements\": []",
            &app_field,
        ])
    );
}

#[test]
fn one_import_gives_two_labels_and_one_arrow() {
    let b = resolve("./b", Some("/p/b.ts".to_string()));
    let graph = build_dependency_map(vec![scanned("/p/a.ts", vec![b]), scanned("/p/b.ts", vec![])]);
    let doc = build_document(&graph, &DiagramConfig::new());
    let t = texts(&doc);
    let a = arrows(&doc);
    assert_eq!(t.len(), 2);
    assert_eq!(a.len(), 1);
    assert_eq!(t[0].text, "a.ts");
    assert_eq!(t[1].text, "b.ts");
    assert_eq!((t[0].x, t[0].y), (0, 0));
    assert_eq!((t[1].x, t[1].y), (0, 500));
    let pts: Vec<(i64, i64)> = a[0].points.iter().map(|p| (p.x, p.y)).collect();
    assert_eq!(pts, vec![(0, 0), (-500, 0), (-500, 500), (0, 500)]);
    assert_eq!((a[0].x, a[0].y), (0, 0));
    assert_eq!(a[0].start_binding.element_id, "/p/a.ts");
    assert_eq!(a[0].end_binding.element_id, "/p/b.ts");
    assert_eq!(a[0].id.len(), 36);
}

#[test]
fn two_imports_fan_out_further() {
    let b = resolve("./b", Some("/p/b.ts".to_string()));
    let c = resolve("./c", Some("/p/c.ts".to_string()));
    let graph = build_dependency_map(vec![
        scanned("/p/a.ts", vec![b, c]),
        scanned("/p/b.ts", vec![]),
        scanned("/p/c.ts", vec![]),
    ]);
    let doc = build_document(&graph, &DiagramConfig::new());
    let a = arrows(&doc);
    assert_eq!(texts(&doc).len(), 3);
    assert_eq!(a.len(), 2);
    let first = -a[0].points[1].x;
    let second = -a[1].points[1].x;
    assert_eq!(first, 500);
    assert_eq!(second, 625);
    assert!(second > first);
    assert_ne!(a[0].id, a[1].id);
}

#[test]
fn bare_specifier_becomes_unresolved_leaf() {
    let pad = resolve("left-pad", Some("/p/left-pad".to_string()));
    assert!(!pad.resolved);
    assert_eq!(pad.source, "left-pad");
    let graph = build_dependency_map(vec![scanned("/p/a.ts", vec![pad])]);
    let doc = build_document(&graph, &DiagramConfig::new());
    let t = texts(&doc);
    assert_eq!(t.len(), 2);
    assert_eq!(t[0].text, "a.ts");
    assert_eq!(t[1].text, "left-pad");
    assert_eq!(t[1].id, "left-pad");
    assert_eq!(arrows(&doc).len(), 1);
}

#[test]
fn cycle_gives_two_labels_and_two_arrows() {
    let graph = build_dependency_map(vec![
        scanned("/p/a.ts", vec![FileNode::new("b.ts".to_string(), "/p/b.ts".to_string())]),
        scanned("/p/b.ts", vec![FileNode::new("a.ts".to_string(), "/p/a.ts".to_string())]),
    ]);
    let doc = build_document(&graph, &DiagramConfig::new());
    assert_eq!(texts(&doc).len(), 2);
    let a = arrows(&doc);
    assert_eq!(a.len(), 2);
    // the edge that runs up the column is anchored at its start
    assert_eq!((a[1].x, a[1].y), (0, 500));
    let pts: Vec<(i64, i64)> = a[1].points.iter().map(|p| (p.x, p.y)).collect();
    assert_eq!(pts, vec![(0, 500), (-625, 500), (-625, 0), (0, 0)]);
}

#[test]
fn label_count_is_distinct_identity_count() {
    let n = |s: &str| FileNode::new(s.to_string(), format!("/p/{}", s));
    let graph = build_dependency_map(vec![
        scanned("/p/a.ts", vec![n("b.ts"), n("x.ts"), n("x.ts")]),
        scanned("/p/b.ts", vec![n("x.ts"), n("a.ts"), n("y.ts")]),
    ]);
    let (placement, labels) = layout(&graph, &DiagramConfig::new());
    // a, b, x, y
    assert_eq!(labels.len(), 4);
    assert_eq!(placement.nodes.len(), 4);
    let ids: Vec<&str> = labels.iter().map(|e| e.id.as_str()).collect();
    assert_eq!(ids, vec!["/p/a.ts", "/p/b.ts", "/p/x.ts", "/p/y.ts"]);
    let arrows = route(&graph, &placement, &DiagramConfig::new());
    // repeated imports and imports of scanned files all count
    assert_eq!(arrows.len(), 6);
}

#[test]
fn self_import_gets_an_arrow() {
    let graph = build_dependency_map(vec![scanned(
        "/p/a.ts",
        vec![FileNode::new("a.ts".to_string(), "/p/a.ts".to_string())],
    )]);
    let doc = build_document(&graph, &DiagramConfig::new());
    assert_eq!(texts(&doc).len(), 1);
    assert_eq!(arrows(&doc).len(), 1);
}

#[test]
fn layout_is_repeatable() {
    let make = || {
        build_dependency_map(vec![
            scanned("/p/z.ts", vec![FileNode::new("q.ts".to_string(), "/p/q.ts".to_string())]),
            scanned("/p/m.ts", vec![]),
        ])
    };
    let (p1, t1) = layout(&make(), &DiagramConfig::new());
    let (p2, t2) = layout(&make(), &DiagramConfig::new());
    let a: Vec<(String, i64, i64)> = p1.nodes.iter().map(|n| (n.path.clone(), n.point.x, n.point.y)).collect();
    let b: Vec<(String, i64, i64)> = p2.nodes.iter().map(|n| (n.path.clone(), n.point.x, n.point.y)).collect();
    assert_eq!(a, b);
    assert_eq!(t1.len(), t2.len());
    // files in path order, then imports
    assert_eq!(a[0].0, "/p/m.ts");
    assert_eq!(a[1].0, "/p/z.ts");
    assert_eq!(a[2].0, "/p/q.ts");
}

#[test]
fn routing_with_given_ids_is_exact() {
    let graph = build_dependency_map(vec![scanned(
        "/p/a.ts",
        vec![FileNode::new("b.ts".to_string(), "/p/b.ts".to_string())],
    )]);
    let cfg = DiagramConfig::new();
    let (placement, _) = layout(&graph, &cfg);
    let arrows = route_with_ids(&graph, &placement, &cfg, vec!["e1".to_string()]);
    let points = format!(
        "\"points\": [{}]",
        [pt("0", "0"), pt("-50", "0"), pt("-50", "50"), pt("0", "50")].join(",")
    );
    let start = format!("\"startBinding\": {}", obj(&["\"elementId\": \"/p/a.ts\"", "\"focus\": 0", "\"gap\": 0"]));
    let end = format!("\"endBinding\": {}", obj(&["\"elementId\": \"/p/b.ts\"", "\"focus\": 0", "\"gap\": 0"]));
    assert_eq!(
        arrows[0].to_json(),
        obj(&[
            "\"id\": \"e1\"",
            "\"type\": \"arrow\"",
            "\"x\": 0",
            "\"y\": 0",
            "\"width\": 2",
            "\"height\": 2",
            "\"text\": \"\"",
            "\"strokeColor\": \"#000000\"",
            "\"boundElements\": []",
            &points,
            &start,
            &end,
            "\"fontFamily\": 3",
            "\"fontSize\": 20",
        ])
    );
}

#[test]
fn later_record_replaces_earlier() {
    let graph = build_dependency_map(vec![
        scanned("/p/a.ts", vec![FileNode::new("b.ts".to_string(), "/p/b.ts".to_string())]),
        ScannedFile { path: "/p/broken.ts".to_string(), imports: None },
        scanned("/p/a.ts", vec![]),
    ]);
    assert_eq!(graph.entries.len(), 1);
    assert!(graph.entries[0].deps.is_empty());
}

#[test]
fn insert_keeps_path_order() {
    let mut graph = DependencyGraph::new();
    graph.insert(FileNode::for_file("/p/c.ts"), vec![]);
    graph.insert(FileNode::for_file("/p/a.ts"), vec![]);
    graph.insert(FileNode::for_file("/p/b.ts"), vec![]);
    let keys: Vec<&str> = graph.entries.iter().map(|e| e.file.source.as_str()).collect();
    assert_eq!(keys, vec!["/p/a.ts", "/p/b.ts", "/p/c.ts"]);
    assert_eq!(graph.entries[0].file.name, "a.ts");
}

#[test]
fn text_element_json() {
    let e = ExcalidrawElement::new_text("a.ts", 0, -625, "/p/a.ts");
    let start = format!("\"startBinding\": {}", unbound());
    let end = format!("\"endBinding\": {}", unbound());
    assert_eq!(
        e.to_json(),
        obj(&[
            "\"id\": \"/p/a.ts\"",
            "\"type\": \"text\"",
            "\"x\": 0",
            "\"y\": -62.5",
            "\"width\": 1",
            "\"height\": 1",
            "\"text\": \"a.ts\"",
            "\"strokeColor\": \"#000000\"",
            "\"boundElements\": []",
            "\"points\": []",
            &start,
            &end,
            "\"fontFamily\": 3",
            "\"fontSize\": 20",
        ])
    );
}

#[test]
fn point_json() {
    assert_eq!(ExcalidrawPoint::new(-625, 0).to_json(), "[\n            -62.5,\n            0\n        ]");
    assert_eq!(ExcalidrawPoint::new(-625, 5).to_json(), pt("-62.5", "0.5"));
    assert_eq!(ExcalidrawPoint::new(12340, 0).to_json(), pt("1234", "0"));
    assert_eq!(
        ExcalidrawPoint::new(i64::MIN, i64::MAX).to_json(),
        pt("-922337203685477580.8", "922337203685477580.7")
    );
}

#[test]
fn binding_and_bound_element_json() {
    let b = ExcalidrawBinding::attached_to("x".to_string());
    assert_eq!(b.to_json(), obj(&["\"elementId\": \"x\"", "\"focus\": 0", "\"gap\": 0"]));
    assert_eq!(
        ExcalidrawBinding::new().to_json(),
        "{\n            \"elementId\": \"\",\n            \"focus\": 0,\n            \"gap\": 0\n        }"
    );
    let be = ExcalidrawBoundElement { id: "e1".to_string(), element_type: "arrow".to_string() };
    assert_eq!(
        be.to_json(),
        "{\n            \"id\": \"e1\",\n            \"type\": \"arrow\"\n        }"
    );
}

#[test]
fn app_state_json() {
    assert_eq!(
        ExcalidrawAppState::new().to_json(),
        "{\n            \"viewBackgroundColor\": \"#ffffff\"\n        }"
    );
}

#[test]
fn strings_are_escaped() {
    let e = ExcalidrawBoundElement { id: "a\"b\\c\nd\u{1}".to_string(), element_type: "é".to_string() };
    assert_eq!(e.to_json(), obj(&["\"id\": \"a\\\"b\\\\c\\nd\\u0001\"", "\"type\": \"é\""]));
}

#[test]
fn document_lists_elements_in_order() {
    let mut doc = ExcalidrawDocument::new();
    doc.add_element(ExcalidrawElement::new_text("t", 0, 0, "t1"));
    doc.add_element(ExcalidrawElement::new_arrow(vec![ExcalidrawPoint::new(0, 0)], 0, 0, "#000000".to_string()));
    assert_eq!(doc.elements.len(), 2);
    assert_eq!(doc.elements[1].id.len(), 36);
    assert_ne!(doc.elements[1].id, "");
    for (i, c) in doc.elements[1].id.chars().enumerate() {
        if [8, 13, 18, 23].contains(&i) {
            assert_eq!(c, '-');
        } else {
            assert!(c.is_ascii_digit() || ('a'..='f').contains(&c));
        }
    }
    let json = doc.to_json();
    assert!(json.starts_with(
        "{\n            \"type\": \"excalidraw\",\n            \"version\": \"2.0.0\",\n            \"source\": \"https://excalidraw.com\",\n            \"elements\": [{\n            \"id\": \"t1\""
    ));
    assert!(json.ends_with(
        "}],\n            \"appState\": {\n            \"viewBackgroundColor\": \"#ffffff\"\n        }\n        }"
    ));
}
