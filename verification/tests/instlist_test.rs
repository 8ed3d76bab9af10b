use instlist::expander::{analyze_events, build_instance_tree, BuildError, SyntaxEvent};
use instlist::tree::InstanceNode;

fn decl(module: &str) -> SyntaxEvent {
    SyntaxEvent::ModuleDeclaration { module: module.to_string() }
}

fn inst(instance: &str, module: &str) -> SyntaxEvent {
    SyntaxEvent::ModuleInstantiation { instance: instance.to_string(), module: module.to_string() }
}

fn end() -> SyntaxEvent {
    SyntaxEvent::ModuleEnd
}

fn sorted(paths: Vec<String>) -> Vec<String> {
    let mut p = paths;
    p.sort();
    p
}

fn demo_events() -> Vec<SyntaxEvent> {
    vec![
        decl("LEAF"),
        end(),
        decl("A"),
        inst("l1", "LEAF"),
        end(),
        decl("TOP"),
        inst("a1", "A"),
        inst("a2", "A"),
        end(),
    ]
}

#[test]
fn end_to_end_two_sites() {
    let top = "TOP".to_string();
    let paths = analyze_events(&demo_events(), &top).unwrap();
    assert_eq!(
        sorted(paths),
        vec!["TOP/a1/l1/".to_string(), "TOP/a2/l1/".to_string()]
    );
}

#[test]
fn undeclared_reference_aborts() {
    let top = "TOP".to_string();
    let events = vec![decl("TOP"), inst("u1", "NEVER"), end()];
    let r = analyze_events(&events, &top);
    assert_eq!(r.unwrap_err(), BuildError::UndeclaredModule);
}

#[test]
fn missing_top_aborts() {
    let top = "TOP".to_string();
    let events = vec![decl("A"), end(), decl("TOP"), inst("a1", "A")];
    let r = analyze_events(&events, &top);
    assert_eq!(r.unwrap_err(), BuildError::MissingTop);
}

#[test]
fn rerun_same_paths() {
    let top = "TOP".to_string();
    let first = sorted(analyze_events(&demo_events(), &top).unwrap());
    let second = sorted(analyze_events(&demo_events(), &top).unwrap());
    assert_eq!(first, second);
}

#[test]
fn single_use_module_structure() {
    let top = "TOP".to_string();
    let events = vec![
        decl("LEAF"),
        end(),
        decl("B"),
        inst("l1", "LEAF"),
        inst("l2", "LEAF"),
        end(),
        decl("TOP"),
        inst("b1", "B"),
        end(),
    ];
    let root = build_instance_tree(&events, &top).unwrap();
    assert_eq!(root.identifier, "TOP");
    assert_eq!(root.children.len(), 1);
    let b1 = &root.children[0];
    assert_eq!(b1.identifier, "b1");
    assert_eq!(b1.parent, vec!["TOP".to_string()]);
    let mut names: Vec<String> = b1.children.iter().map(|c| c.identifier.clone()).collect();
    names.sort();
    assert_eq!(names, vec!["l1".to_string(), "l2".to_string()]);
    for c in &b1.children {
        assert!(c.children.is_empty());
        assert_eq!(c.parent, vec!["b1".to_string(), "TOP".to_string()]);
    }
}

#[test]
fn multi_use_independent_copies() {
    let top = "TOP".to_string();
    let mut root = build_instance_tree(&demo_events(), &top).unwrap();
    let a2_before: Vec<String> = root
        .children
        .iter()
        .find(|c| c.identifier == "a2")
        .unwrap()
        .children
        .iter()
        .map(|c| c.identifier.clone())
        .collect();
    {
        let a1 = root
            .children
            .iter_mut()
            .find(|c| c.identifier == "a1")
            .unwrap();
        a1.children.clear();
        a1.children.push(InstanceNode {
            identifier: "intruder".to_string(),
            children: Vec::new(),
            parent: Vec::new(),
        });
    }
    let a2_after: Vec<String> = root
        .children
        .iter()
        .find(|c| c.identifier == "a2")
        .unwrap()
        .children
        .iter()
        .map(|c| c.identifier.clone())
        .collect();
    assert_eq!(a2_before, a2_after);
    assert_eq!(a2_after, vec!["l1".to_string()]);
}

#[test]
fn leaf_paths_cover_leaves_only() {
    let top = "TOP".to_string();
    let events = vec![
        decl("L"),
        end(),
        decl("M"),
        inst("x", "L"),
        inst("y", "L"),
        end(),
        decl("TOP"),
        inst("m1", "M"),
        inst("l0", "L"),
        end(),
    ];
    let paths = sorted(analyze_events(&events, &top).unwrap());
    assert_eq!(
        paths,
        vec![
            "TOP/l0/".to_string(),
            "TOP/m1/x/".to_string(),
            "TOP/m1/y/".to_string(),
        ]
    );
    assert!(!paths.iter().any(|p| p == "TOP/m1/"));
}

#[test]
fn reverse_traversal_path() {
    let node = InstanceNode {
        identifier: "x".to_string(),
        children: Vec::new(),
        parent: vec!["a".to_string(), "TOP".to_string()],
    };
    assert_eq!(node.reverse_traversal(), "TOP/a/x/");
}

#[test]
fn traversal_of_childless_root() {
    let node = InstanceNode {
        identifier: "TOP".to_string(),
        children: Vec::new(),
        parent: Vec::new(),
    };
    let mut instlist: Vec<String> = Vec::new();
    node.traversal(&mut instlist);
    assert_eq!(instlist, vec!["TOP/".to_string()]);
}

#[test]
fn deep_copy_is_independent() {
    let top = "TOP".to_string();
    let root = build_instance_tree(&demo_events(), &top).unwrap();
    let mut copy = root.deep_copy();
    assert_eq!(copy.identifier, root.identifier);
    assert_eq!(copy.children.len(), root.children.len());
    for (c, o) in copy.children.iter().zip(root.children.iter()) {
        assert_eq!(c.identifier, o.identifier);
        assert_eq!(c.parent, o.parent);
        assert_eq!(c.children.len(), o.children.len());
    }
    copy.children[0].identifier = "changed".to_string();
    assert_eq!(root.children[0].identifier, "a1");
}

#[test]
fn change_child_parent_rewrites_chains() {
    let child = InstanceNode {
        identifier: "c".to_string(),
        children: vec![InstanceNode {
            identifier: "g".to_string(),
            children: Vec::new(),
            parent: vec!["stale".to_string()],
        }],
        parent: vec!["stale".to_string()],
    };
    let mut node = InstanceNode {
        identifier: "p".to_string(),
        children: vec![child],
        parent: vec!["TOP".to_string()],
    };
    node.change_child_parent();
    assert_eq!(node.children[0].parent, vec!["p".to_string(), "TOP".to_string()]);
    assert_eq!(
        node.children[0].children[0].parent,
        vec!["c".to_string(), "p".to_string(), "TOP".to_string()]
    );
}

#[test]
fn duplicate_declaration_first_wins() {
    let top = "TOP".to_string();
    let events = vec![
        decl("A"),
        end(),
        decl("A"),
        inst("q", "A"),
        end(),
        decl("TOP"),
        inst("a", "A"),
        end(),
    ];
    let paths = analyze_events(&events, &top).unwrap();
    assert_eq!(paths, vec!["TOP/a/".to_string()]);
}

#[test]
fn processing_stops_at_top_end() {
    let top = "TOP".to_string();
    let events = vec![
        decl("TOP"),
        end(),
        decl("X"),
        inst("bad", "NEVER"),
        end(),
    ];
    let paths = analyze_events(&events, &top).unwrap();
    assert_eq!(paths, vec!["TOP/".to_string()]);
}

#[test]
fn duplicate_instance_name_replaces_child() {
    let top = "TOP".to_string();
    let events = vec![
        decl("A"),
        end(),
        decl("B"),
        end(),
        decl("TOP"),
        inst("u", "A"),
        inst("u", "B"),
        end(),
    ];
    let paths = analyze_events(&events, &top).unwrap();
    assert_eq!(paths, vec!["TOP/u/".to_string()]);
}

#[test]
fn empty_stream_aborts() {
    let top = "TOP".to_string();
    let events: Vec<SyntaxEvent> = Vec::new();
    assert_eq!(analyze_events(&events, &top).unwrap_err(), BuildError::MissingTop);
}

#[test]
fn error_leaves_no_partial_paths() {
    let top = "TOP".to_string();
    let events = vec![
        decl("A"),
        end(),
        decl("TOP"),
        inst("a1", "A"),
        inst("u1", "NEVER"),
        end(),
    ];
    assert!(analyze_events(&events, &top).is_err());
}
