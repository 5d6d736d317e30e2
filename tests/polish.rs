use nekolib_bundle::polish::{polish_library, PolishError};
use nekolib_bundle::syntax::{Attr, Decl, DeclKind, Meta, SourceFile};

fn attr(name: &str, meta: Meta, inner: bool, text: &str) -> Attr {
    Attr { name: name.to_string(), meta, inner, text: text.to_string() }
}

fn doc(text: &str) -> Attr {
    attr("doc", Meta::NameValue(Some(text.to_string())), false, text)
}

fn decl(kind: DeclKind, ident: &str, attrs: Vec<Attr>, head: &str, body: Option<Vec<Decl>>) -> Decl {
    Decl {
        kind,
        is_pub: false,
        ident: Some(ident.to_string()),
        attrs,
        head: head.to_string(),
        body,
        use_tree: None,
    }
}

fn squash(s: &str) -> String {
    s.chars().filter(|c| !c.is_whitespace()).collect()
}

fn removal_input() -> SourceFile {
    let test_attr = || attr("test", Meta::Path, false, "#[test]");
    SourceFile {
        attrs: vec![attr("doc", Meta::NameValue(Some(" doc".to_string())), true, "//! doc")],
        items: vec![
            decl(
                DeclKind::Fn,
                "one",
                vec![doc("/// doc"), attr("allow", Meta::List("unused".to_string()), false, "#[allow(unused)]")],
                "fn one(x: i32) -> i32 { 1 }",
                None,
            ),
            decl(DeclKind::Struct, "Foo", vec![doc("/// doc struct")], "struct Foo;", None),
            decl(
                DeclKind::Impl,
                "Foo",
                vec![],
                "impl Foo",
                Some(vec![decl(DeclKind::Fn, "foo", vec![doc("/// doc fn")], "fn foo(&self) {}", None)]),
            ),
            decl(
                DeclKind::Mod,
                "libs",
                vec![doc("/// doc mod")],
                "mod libs",
                Some(vec![
                    decl(DeclKind::Struct, "Bar", vec![doc("/// doc struct")], "struct Bar;", None),
                    decl(
                        DeclKind::Impl,
                        "Bar",
                        vec![],
                        "impl Bar",
                        Some(vec![decl(DeclKind::Fn, "bar", vec![doc("/// doc fn")], "fn bar(&self) {}", None)]),
                    ),
                    decl(
                        DeclKind::Mod,
                        "internal",
                        vec![doc("/// doc inner mod")],
                        "mod internal",
                        Some(vec![decl(DeclKind::Fn, "baz", vec![doc("/// doc fn")], "fn baz() -> i32 { 1 }", None)]),
                    ),
                ]),
            ),
            decl(DeclKind::Fn, "test", vec![test_attr()], "fn test() { assert_eq!(one(0), 1); }", None),
            decl(
                DeclKind::Mod,
                "tests",
                vec![attr("cfg", Meta::List("test".to_string()), false, "#[cfg(test)]")],
                "mod tests",
                Some(vec![decl(DeclKind::Fn, "test", vec![test_attr()], "fn test() { assert!(true); }", None)]),
            ),
        ],
    }
}

const REMOVAL_EXPECTED: &str = r#"
#[allow(unused)]
fn one(x: i32) -> i32 { 1 }

struct Foo;

impl Foo {
    fn foo(&self) {}
}

mod libs {
    struct Bar;

    impl Bar {
        fn bar(&self) {}
    }

    mod internal {
        fn baz() -> i32 { 1 }
    }
}
"#;

#[test]
fn removal() {
    let actual = polish_library(&removal_input()).unwrap();
    assert_eq!(squash(&actual), squash(REMOVAL_EXPECTED));
}

#[test]
fn macro_export() {
    let src = SourceFile {
        attrs: vec![],
        items: vec![decl(
            DeclKind::Macro,
            "foo",
            vec![attr("macro_export", Meta::Path, false, "#[macro_export]")],
            "macro_rules! foo {\n    () => {}\n}",
            None,
        )],
    };
    let actual = polish_library(&src).unwrap();
    let expected = "macro_rules! foo { () => {} }";
    assert_eq!(squash(&actual), squash(expected));
    assert!(!actual.contains("macro_export"));
}

#[test]
fn macro_fmt() {
    let foo = "macro_rules! foo {\n    ( $($ty:ty)* ) => { $(\n        impl Foo for $ty {\n            fn foo(self) -> $ty {\n                0 as $ty\n            }\n        }\n    )* }\n}";
    let baz = "macro_rules! baz {\n    () => { r#\"..\n..\n..\"#\n    }\n}";
    let src = SourceFile {
        attrs: vec![],
        items: vec![
            decl(DeclKind::Macro, "foo", vec![], foo, None),
            decl(DeclKind::Fn, "bar", vec![], "fn bar () { }", None),
            decl(DeclKind::Macro, "baz", vec![], baz, None),
        ],
    };
    let actual = polish_library(&src).unwrap();
    let indent = |s: &str| s.replace('\n', "\n            ");
    let expected = format!("{}\nfn bar () {{ }}\n{}\n", indent(foo), indent(baz));
    assert_eq!(actual, expected);
}

#[test]
fn polishing_polished_text_changes_nothing() {
    let once = polish_library(&removal_input()).unwrap();
    let polished_model = SourceFile {
        attrs: vec![],
        items: vec![
            decl(
                DeclKind::Fn,
                "one",
                vec![attr("allow", Meta::List("unused".to_string()), false, "#[allow(unused)]")],
                "fn one(x: i32) -> i32 { 1 }",
                None,
            ),
            decl(DeclKind::Struct, "Foo", vec![], "struct Foo;", None),
            decl(
                DeclKind::Impl,
                "Foo",
                vec![],
                "impl Foo",
                Some(vec![decl(DeclKind::Fn, "foo", vec![], "fn foo(&self) {}", None)]),
            ),
            decl(
                DeclKind::Mod,
                "libs",
                vec![],
                "mod libs",
                Some(vec![
                    decl(DeclKind::Struct, "Bar", vec![], "struct Bar;", None),
                    decl(
                        DeclKind::Impl,
                        "Bar",
                        vec![],
                        "impl Bar",
                        Some(vec![decl(DeclKind::Fn, "bar", vec![], "fn bar(&self) {}", None)]),
                    ),
                    decl(
                        DeclKind::Mod,
                        "internal",
                        vec![],
                        "mod internal",
                        Some(vec![decl(DeclKind::Fn, "baz", vec![], "fn baz() -> i32 { 1 }", None)]),
                    ),
                ]),
            ),
        ],
    };
    let twice = polish_library(&polished_model).unwrap();
    assert_eq!(once, twice);
}

#[test]
fn doc_and_test_items_are_stripped() {
    let out = polish_library(&removal_input()).unwrap();
    assert!(!out.contains("doc"));
    assert!(!out.contains("#[test]"));
    assert!(!out.contains("cfg(test)"));
    assert!(out.contains("#[allow(unused)]\nfn one(x: i32) -> i32 { 1 }\n"));
    assert!(out.starts_with("#[allow(unused)]\n"));
}

#[test]
fn unknown_declaration_kind_is_refused() {
    let src = SourceFile {
        attrs: vec![],
        items: vec![decl(DeclKind::Other, "x", vec![], "x!();", None)],
    };
    assert_eq!(polish_library(&src), Err(PolishError::UnsupportedDeclaration));
    let nested = SourceFile {
        attrs: vec![],
        items: vec![decl(
            DeclKind::Impl,
            "Foo",
            vec![],
            "impl Foo",
            Some(vec![decl(DeclKind::Struct, "S", vec![], "struct S;", None)]),
        )],
    };
    assert_eq!(polish_library(&nested), Err(PolishError::UnsupportedDeclaration));
}

#[test]
fn impl_macro_keeps_its_export_marker() {
    let src = SourceFile {
        attrs: vec![],
        items: vec![decl(
            DeclKind::Impl,
            "Foo",
            vec![],
            "impl Foo",
            Some(vec![decl(
                DeclKind::Macro,
                "m",
                vec![attr("macro_export", Meta::Path, false, "#[macro_export]")],
                "m!();",
                None,
            )]),
        )],
    };
    assert_eq!(polish_library(&src).unwrap(), "impl Foo {\n#[macro_export]\nm!();\n}\n");
}
