use nekolib_bundle::library::{Library, LibraryError, UnitInput};
use nekolib_bundle::metadata::Metadata;
use nekolib_bundle::source::Source;
use nekolib_bundle::syntax::{Attr, Decl, DeclKind, Meta, UseTree};
use nekolib_bundle::unit::Crate;

fn unit(cat: &str, name: &str) -> Crate {
    Crate::new(cat.to_string(), name.to_string())
}

fn pub_fn(name: &str) -> Decl {
    Decl {
        kind: DeclKind::Fn,
        is_pub: true,
        ident: Some(name.to_string()),
        attrs: vec![],
        head: format!("pub fn {name}() {{}}"),
        body: None,
        use_tree: None,
    }
}

fn exported_macro(name: &str) -> Decl {
    Decl {
        kind: DeclKind::Macro,
        is_pub: false,
        ident: Some(name.to_string()),
        attrs: vec![Attr {
            name: "macro_export".to_string(),
            meta: Meta::Path,
            inner: false,
            text: "#[macro_export]".to_string(),
        }],
        head: format!("macro_rules! {name} {{ () => {{}} }}"),
        body: None,
        use_tree: None,
    }
}

fn input(cat: &str, name: &str, deps: Vec<Crate>, items: Vec<Decl>) -> UnitInput {
    UnitInput {
        unit: unit(cat, name),
        entry_path: format!("/lib/{cat}/{name}/src/lib.rs"),
        deps,
        items,
    }
}

fn path(segs: &[&str], leaf: UseTree) -> UseTree {
    let mut t = leaf;
    for s in segs.iter().rev() {
        t = UseTree::Path(s.to_string(), Box::new(t));
    }
    t
}

fn use_decl(tree: UseTree) -> Decl {
    Decl {
        kind: DeclKind::Use,
        is_pub: false,
        ident: None,
        attrs: vec![],
        head: String::new(),
        body: None,
        use_tree: Some(tree),
    }
}

fn two_unit_inputs() -> Vec<UnitInput> {
    vec![
        input("catA", "a", vec![unit("catA", "b")], vec![pub_fn("f")]),
        input("catA", "b", vec![], vec![pub_fn("g"), exported_macro("mac")]),
    ]
}

const HEADER: &str = "\n/// This module is bundled automatically.\n/// See <https://rsk0315.github.io/nekolib/nekolib_doc/index.html> for documentation.\n/// Commit: abc\n#[allow(unused)]\n";

#[test]
fn dependency_is_bundled_with_its_dependent() {
    let lib = Library::traverse(&two_unit_inputs()).ok().unwrap();
    let content = "use nekolib::catA::a::f;\nfn main() {}\n";
    let source = Source::new(
        content.to_string(),
        vec![use_decl(path(&["nekolib", "catA", "a"], UseTree::Name("f".to_string())))],
    );
    assert_eq!(lib.required(&source).unwrap(), vec![0, 1]);
    let meta = Metadata::new("abc", false);
    let bodies = vec!["BODY_A\n".to_string(), "BODY_B\n".to_string()];
    let out = lib.bundle(&source, &meta, &bodies).unwrap();
    let expected = format!(
        "{content}{HEADER}pub mod nekolib {{pub mod catA {{\n    pub mod a {{\n        use crate::nekolib::catA::b;BODY_A\n    }}\n    #[allow(unused_imports)]\n    pub use a::*;\n    pub mod b {{\nBODY_B\n        pub(crate) use {{mac}};\n    }}\n    #[allow(unused_imports)]\n    pub use b::*;\n}}\n}}\n"
    );
    assert_eq!(out, expected);
}

#[test]
fn no_references_leave_the_source_unchanged() {
    let lib = Library::traverse(&two_unit_inputs()).ok().unwrap();
    let content = "use std::io;\nfn main() {}\n";
    let source = Source::new(
        content.to_string(),
        vec![use_decl(path(&["std"], UseTree::Name("io".to_string())))],
    );
    let meta = Metadata::new("abc", true);
    let bodies = vec![String::new(), String::new()];
    assert_eq!(lib.bundle(&source, &meta, &bodies).unwrap(), content);
}

#[test]
fn unknown_reference_is_reported() {
    let lib = Library::traverse(&two_unit_inputs()).ok().unwrap();
    let source = Source::new(
        String::new(),
        vec![use_decl(path(&["nekolib", "catA"], UseTree::Name("nothing".to_string())))],
    );
    let meta = Metadata::new("abc", false);
    let bodies = vec![String::new(), String::new()];
    let err = lib.bundle(&source, &meta, &bodies).err().unwrap();
    assert_eq!(err, vec!["catA".to_string(), "nothing".to_string()]);
}

#[test]
fn category_qualified_and_glob_references_resolve() {
    let lib = Library::traverse(&two_unit_inputs()).ok().unwrap();
    let source = Source::new(
        String::new(),
        vec![
            use_decl(path(&["nekolib", "catA"], UseTree::Name("g".to_string()))),
            use_decl(path(&["nekolib", "catA"], UseTree::Name("mac".to_string()))),
        ],
    );
    assert_eq!(lib.required(&source).unwrap(), vec![1]);
}

#[test]
fn output_does_not_depend_on_input_order() {
    let mut reversed = two_unit_inputs();
    reversed.reverse();
    let a = Library::traverse(&two_unit_inputs()).ok().unwrap();
    let b = Library::traverse(&reversed).ok().unwrap();
    let source = Source::new(
        "x\n".to_string(),
        vec![use_decl(path(&["nekolib", "catA", "a"], UseTree::Name("f".to_string())))],
    );
    let meta = Metadata::new("abc", false);
    let bodies = vec!["A\n".to_string(), "B\n".to_string()];
    assert_eq!(a.bundle(&source, &meta, &bodies), b.bundle(&source, &meta, &bodies));
    assert_eq!(a.units, b.units);
}

#[test]
fn units_are_sorted_by_category_then_name() {
    let inputs = vec![
        input("z", "a", vec![], vec![]),
        input("b", "y", vec![], vec![]),
        input("b", "x", vec![], vec![]),
    ];
    let lib = Library::traverse(&inputs).ok().unwrap();
    assert_eq!(lib.units, vec![unit("b", "x"), unit("b", "y"), unit("z", "a")]);
}

#[test]
fn duplicate_unit_is_refused() {
    let inputs = vec![input("c", "u", vec![], vec![]), input("c", "u", vec![], vec![])];
    match Library::traverse(&inputs) {
        Err(LibraryError::DuplicateUnit(c)) => assert_eq!(c, unit("c", "u")),
        _ => panic!("expected a duplicate unit"),
    }
}

#[test]
fn missing_dependency_is_refused() {
    let inputs = vec![input("c", "u", vec![unit("c", "v")], vec![])];
    match Library::traverse(&inputs) {
        Err(LibraryError::MissingDependency(a, b)) => {
            assert_eq!(a, unit("c", "u"));
            assert_eq!(b, unit("c", "v"));
        },
        _ => panic!("expected a missing dependency"),
    }
}

#[test]
fn cyclic_dependency_is_refused() {
    let inputs = vec![
        input("c", "u", vec![unit("c", "v")], vec![]),
        input("c", "v", vec![unit("c", "u")], vec![]),
    ];
    assert!(matches!(Library::traverse(&inputs), Err(LibraryError::Cycle(_))));
}

#[test]
fn transitive_dependencies_are_required() {
    let inputs = vec![
        input("c", "a", vec![unit("c", "b")], vec![pub_fn("f")]),
        input("c", "b", vec![unit("d", "x")], vec![]),
        input("d", "x", vec![], vec![]),
        input("d", "y", vec![], vec![]),
    ];
    let lib = Library::traverse(&inputs).ok().unwrap();
    let source = Source::new(
        String::new(),
        vec![use_decl(path(&["nekolib", "c", "a"], UseTree::Name("f".to_string())))],
    );
    let req = lib.required(&source).unwrap();
    assert_eq!(req, vec![0, 1, 2]);
    for &u in &req {
        for &d in &lib.deps_1[u] {
            assert!(req.contains(&d));
        }
    }
    let meta = Metadata::new("r", false);
    let bodies = vec![String::new(); 4];
    let out = lib.bundle(&source, &meta, &bodies).unwrap();
    assert!(out.contains("}\npub mod d {\n"));
}

#[test]
fn revision_stamp() {
    assert_eq!(Metadata::new("abc", false).get_commit(), "abc");
    assert_eq!(Metadata::new("abc", true).get_commit(), "abc-dirty");
}

#[test]
fn unit_from_directory() {
    let c = Crate::from_path("/home/u/lib/graph/dijkstra").unwrap();
    assert_eq!(c.category_name(), "graph");
    assert_eq!(c.crate_name(), "dijkstra");
    assert_eq!(c.fmt(), "graph::dijkstra");
    assert!(Crate::from_path("dijkstra").is_none());
    assert!(Crate::from_path("/dijkstra").is_none());
}
