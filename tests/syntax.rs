use nekolib_bundle::exports::export_items;
use nekolib_bundle::resolve::{resolve_mod_source, splice_mod};
use nekolib_bundle::source::Source;
use nekolib_bundle::syntax::{Attr, Decl, DeclKind, Meta, UseTree};
use nekolib_bundle::text::{str_lt, strip_non_ascii};
use nekolib_bundle::unit::UseIdent;
use nekolib_bundle::usage::dfs_use_tree;

fn mod_decl(name: &str, path_attr: Option<&str>) -> Decl {
    let attrs = match path_attr {
        Some(p) => vec![Attr {
            name: "path".to_string(),
            meta: Meta::NameValue(Some(p.to_string())),
            inner: false,
            text: format!("#[path = \"{p}\"]"),
        }],
        None => vec![],
    };
    Decl {
        kind: DeclKind::Mod,
        is_pub: false,
        ident: Some(name.to_string()),
        attrs,
        head: format!("mod {name};"),
        body: None,
        use_tree: None,
    }
}

#[test]
fn sanity_check() {
    let suite: &[((&str, Option<&str>), &str)] = &[
        (("src/a/mod.rs", Some("foo.rs")), "src/a/foo.rs"),
        (("src/a/b.rs", Some("foo.rs")), "src/a/foo.rs"),
        (("src/a/mod.rs", None), "src/a/c.rs"),
        (("src/a/b.rs", None), "src/a/b/c.rs"),
    ];
    for ((main_path, path_attr), mod_path) in suite {
        let item = mod_decl("c", *path_attr);
        let actual = resolve_mod_source(main_path, &item);
        assert_eq!(actual, *mod_path);
    }
}

#[test]
fn module_beside_lib_rs() {
    assert_eq!(resolve_mod_source("/x/src/lib.rs", &mod_decl("m", None)), "/x/src/m.rs");
    assert_eq!(resolve_mod_source("main.rs", &mod_decl("m", None)), "main/m.rs");
    assert_eq!(resolve_mod_source("/x/a.rs", &mod_decl("m", Some("/abs/m.rs"))), "/abs/m.rs");
}

#[test]
fn splicing_a_module_file() {
    assert_eq!(splice_mod("pub mod c;", "fn f() {}").unwrap(), "pub mod c{fn f() {}}");
    assert!(splice_mod("mod c", "x").is_none());
}

#[test]
fn use_tree_leaves() {
    let tree = UseTree::Path(
        "nekolib".to_string(),
        Box::new(UseTree::Group(vec![
            UseTree::Path("ds".to_string(), Box::new(UseTree::Name("uf".to_string()))),
            UseTree::Rename("gcd".to_string(), "g".to_string()),
            UseTree::Glob,
        ])),
    );
    let mut cur = vec![];
    let leaves = dfs_use_tree(&tree, &mut cur);
    let s = |v: &[&str]| v.iter().map(|x| x.to_string()).collect::<Vec<_>>();
    assert_eq!(leaves, vec![s(&["nekolib", "ds", "uf"]), s(&["nekolib", "gcd"]), s(&["nekolib", "*"])]);
    assert!(cur.is_empty());
}

#[test]
fn uses_are_filtered_and_deduplicated() {
    let tree = |segs: &[&str]| {
        let mut t = UseTree::Name(segs[segs.len() - 1].to_string());
        for s in segs[..segs.len() - 1].iter().rev() {
            t = UseTree::Path(s.to_string(), Box::new(t));
        }
        Decl {
            kind: DeclKind::Use,
            is_pub: false,
            ident: None,
            attrs: vec![],
            head: String::new(),
            body: None,
            use_tree: Some(t),
        }
    };
    let src = Source::new(
        String::new(),
        vec![tree(&["nekolib", "a", "f"]), tree(&["std", "io"]), tree(&["nekolib", "a", "f"])],
    );
    assert_eq!(src.get_uses(), vec![vec!["a".to_string(), "f".to_string()]]);
    assert_eq!(src.get_code(), "");
}

#[test]
fn exported_names() {
    let items = vec![
        Decl {
            kind: DeclKind::Struct,
            is_pub: true,
            ident: Some("S".to_string()),
            attrs: vec![],
            head: String::new(),
            body: None,
            use_tree: None,
        },
        Decl {
            kind: DeclKind::Fn,
            is_pub: false,
            ident: Some("private".to_string()),
            attrs: vec![],
            head: String::new(),
            body: None,
            use_tree: None,
        },
        Decl {
            kind: DeclKind::Use,
            is_pub: true,
            ident: None,
            attrs: vec![],
            head: String::new(),
            body: None,
            use_tree: Some(UseTree::Path(
                "inner".to_string(),
                Box::new(UseTree::Group(vec![
                    UseTree::Name("a".to_string()),
                    UseTree::Rename("b".to_string(), "c".to_string()),
                ])),
            )),
        },
        Decl {
            kind: DeclKind::Macro,
            is_pub: false,
            ident: Some("m".to_string()),
            attrs: vec![Attr {
                name: "macro_export".to_string(),
                meta: Meta::Path,
                inner: false,
                text: "#[macro_export]".to_string(),
            }],
            head: String::new(),
            body: None,
            use_tree: None,
        },
    ];
    let ex = export_items(&items);
    assert_eq!(
        ex,
        vec![
            UseIdent::PubItem("S".to_string()),
            UseIdent::PubItem("a".to_string()),
            UseIdent::PubItem("c".to_string()),
            UseIdent::MacroExport("m".to_string()),
        ]
    );
    assert_eq!(ex[3].to_string(), "m");
}

#[test]
fn non_ascii_is_dropped() {
    assert_eq!(strip_non_ascii("a\u{e9}b\u{3042}c"), "abc");
    assert_eq!(strip_non_ascii(""), "");
}

#[test]
fn lexicographic_order() {
    assert!(str_lt("ab", "b"));
    assert!(str_lt("a", "ab"));
    assert!(!str_lt("ab", "ab"));
    assert!(!str_lt("b", "ab"));
}

#[test]
fn uses_come_out_sorted() {
    let group = Decl {
        kind: DeclKind::Use,
        is_pub: false,
        ident: None,
        attrs: vec![],
        head: String::new(),
        body: None,
        use_tree: Some(UseTree::Path(
            "nekolib".to_string(),
            Box::new(UseTree::Group(vec![
                UseTree::Path("z".to_string(), Box::new(UseTree::Glob)),
                UseTree::Path("a".to_string(), Box::new(UseTree::Name("y".to_string()))),
                UseTree::Path("a".to_string(), Box::new(UseTree::Rename("x".to_string(), "w".to_string()))),
            ])),
        )),
    };
    let src = Source::new(String::new(), vec![group]);
    let s = |v: &[&str]| v.iter().map(|x| x.to_string()).collect::<Vec<_>>();
    assert_eq!(src.get_uses(), vec![s(&["a", "x"]), s(&["a", "y"]), s(&["z", "*"])]);
}
