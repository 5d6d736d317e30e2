//! Polishing a unit's flattened text: documentation, test-only
//! declarations and export markers are dropped, and every declaration is
//! printed again from the model, macro bodies exactly as written.
use vstd::prelude::*;
use vstd::string::*;
use crate::syntax::{Attr, Decl, DeclKind, Meta, SourceFile};
use crate::text::push_char;

verus! {

broadcast use vstd::std_specs::vec::group_vec_axioms;

/// Polishing met a declaration kind it does not handle.
#[derive(Debug, PartialEq, Eq, Structural, Clone, Copy)]
pub enum PolishError {
    UnsupportedDeclaration,
}

pub open spec fn is_doc(a: Attr) -> bool {
    a.name@ == "doc"@
}

/// `#[test]` or `#[cfg(test)]`.
pub open spec fn is_test_attr(a: Attr) -> bool {
    match a.meta {
        Meta::Path => a.name@ == "test"@,
        Meta::List(t) => a.name@ == "cfg"@ && t@ == "test"@,
        Meta::NameValue(_) => false,
    }
}

pub open spec fn is_test_decl(d: Decl) -> bool {
    exists|i: int| 0 <= i < d.attrs@.len() && is_test_attr(#[trigger] d.attrs@[i])
}

/// An attribute survives polishing unless it is documentation, or the
/// export marker of a macro definition.
pub open spec fn keep_attr(a: Attr, is_macro: bool) -> bool {
    !is_doc(a) && !(is_macro && a.name@ == "macro_export"@)
}

pub open spec fn kept_attrs(attrs: Seq<Attr>, is_macro: bool) -> Seq<Attr> {
    attrs.filter(|a: Attr| keep_attr(a, is_macro))
}

/// The top-level declarations that survive polishing.
pub open spec fn kept_items(items: Seq<Decl>) -> Seq<Decl> {
    items.filter(|d: Decl| !is_test_decl(d))
}

/// Each attribute's text on a line of its own.
pub open spec fn attr_lines(attrs: Seq<Attr>) -> Seq<char>
    decreases attrs.len(),
{
    if attrs.len() == 0 {
        Seq::empty()
    } else {
        attr_lines(attrs.drop_last()) + attrs.last().text@ + "\n"@
    }
}

/// Kinds allowed among the items of an impl block.
pub open spec fn impl_item_kind(k: DeclKind) -> bool {
    match k {
        DeclKind::Const | DeclKind::Fn | DeclKind::Macro | DeclKind::Type => true,
        _ => false,
    }
}

pub open spec fn body_measure(d: Decl) -> int {
    match d.body {
        Some(items) => items.len() + 1,
        None => 0,
    }
}

/// Whether polishing handles `d` and everything nested in it; `in_impl`
/// says that `d` is an item of an impl block.
pub open spec fn supported(d: Decl, in_impl: bool) -> bool
    decreases d, body_measure(d),
{
    &&& if in_impl { impl_item_kind(d.kind) } else { d.kind != DeclKind::Other }
    &&& match d.body {
        Some(items) => children_supported(d, items.len() as int, d.kind == DeclKind::Impl),
        None => true,
    }
}

pub open spec fn children_supported(d: Decl, k: int, in_impl: bool) -> bool
    decreases d, k,
{
    match d.body {
        Some(items) => if k <= 0 || k > items.len() {
            true
        } else {
            children_supported(d, k - 1, in_impl) && supported(items[k - 1], in_impl)
        },
        None => true,
    }
}

/// The polished text of `d`: its surviving attributes, its head (for a
/// macro definition at the top level re-indented by `reindent`), and its
/// polished block, if any.
pub open spec fn decl_text(d: Decl, in_impl: bool, top: bool) -> Seq<char>
    decreases d, body_measure(d),
{
    let is_macro = d.kind == DeclKind::Macro && !in_impl;
    attr_lines(kept_attrs(d.attrs@, is_macro)) + (if is_macro && top { reindent(d.head@) } else { d.head@ })
        + match d.body {
        Some(items) => " {\n"@ + children_text(d, items.len() as int, d.kind == DeclKind::Impl) + "}"@,
        None => Seq::empty(),
    } + "\n"@
}

pub open spec fn children_text(d: Decl, k: int, in_impl: bool) -> Seq<char>
    decreases d, k,
{
    match d.body {
        Some(items) => if k <= 0 || k > items.len() {
            Seq::empty()
        } else {
            children_text(d, k - 1, in_impl) + decl_text(items[k - 1], in_impl, false)
        },
        None => Seq::empty(),
    }
}

/// Each line break followed by the twelve spaces that put a top-level
/// macro definition at the depth where a bundle nests it.
pub open spec fn reindent(s: Seq<char>) -> Seq<char>
    decreases s.len(),
{
    if s.len() == 0 {
        Seq::empty()
    } else if s.last() == '\n' {
        reindent(s.drop_last()) + "\n            "@
    } else {
        reindent(s.drop_last()).push(s.last())
    }
}

pub open spec fn items_text(items: Seq<Decl>) -> Seq<char>
    decreases items.len(),
{
    if items.len() == 0 {
        Seq::empty()
    } else {
        items_text(items.drop_last()) + decl_text(items.last(), false, true)
    }
}

pub open spec fn file_supported(f: SourceFile) -> bool {
    forall|i: int| 0 <= i < f.items@.len() ==> supported(#[trigger] f.items@[i], false)
}

/// The polished text of a file: its surviving inner attributes, then its
/// surviving declarations.
pub open spec fn polished(f: SourceFile) -> Seq<char> {
    attr_lines(kept_attrs(f.attrs@, false)) + items_text(kept_items(f.items@))
}

pub fn is_doc_attr(a: &Attr) -> (r: bool)
    ensures
        r == is_doc(*a),
{
    a.name == String::from_str("doc")
}

pub fn is_test(a: &Attr) -> (r: bool)
    ensures
        r == is_test_attr(*a),
{
    match &a.meta {
        Meta::Path => a.name == String::from_str("test"),
        Meta::List(t) => a.name == String::from_str("cfg") && *t == String::from_str("test"),
        Meta::NameValue(_) => false,
    }
}

pub fn is_test_item(d: &Decl) -> (r: bool)
    ensures
        r == is_test_decl(*d),
{
    let mut i: usize = 0;
    while i < d.attrs.len()
        invariant
            i <= d.attrs.len(),
            forall|j: int| 0 <= j < i ==> !is_test_attr(#[trigger] d.attrs@[j]),
        decreases d.attrs.len() - i,
    {
        if is_test(&d.attrs[i]) {
            return true;
        }
        i = i + 1;
    }
    false
}

fn keeps(a: &Attr, is_macro: bool) -> (r: bool)
    ensures
        r == keep_attr(*a, is_macro),
{
    !is_doc_attr(a) && !(is_macro && a.name == String::from_str("macro_export"))
}

fn attrs_text(attrs: &Vec<Attr>, is_macro: bool) -> (r: String)
    ensures
        r@ == attr_lines(kept_attrs(attrs@, is_macro)),
{
    let mut r = String::new();
    let mut i: usize = 0;
    let ghost pred = |a: Attr| keep_attr(a, is_macro);
    assert(attrs@.subrange(0, 0).filter(pred) =~= Seq::empty()) by {
        reveal_with_fuel(Seq::filter, 1);
    }
    while i < attrs.len()
        invariant
            i <= attrs.len(),
            pred == (|a: Attr| keep_attr(a, is_macro)),
            r@ == attr_lines(attrs@.subrange(0, i as int).filter(pred)),
        decreases attrs.len() - i,
    {
        let ghost pre = attrs@.subrange(0, i as int);
        let ghost next = attrs@.subrange(0, i + 1);
        assert(next =~= pre.push(attrs@[i as int]));
        proof {
            assert(next.filter(pred) == if pred(attrs@[i as int]) { pre.filter(pred).push(attrs@[i as int]) } else { pre.filter(pred) }) by {
                reveal_with_fuel(Seq::filter, 1);
                assert(next.drop_last() =~= pre);
            }
        }
        if keeps(&attrs[i], is_macro) {
            r.append(attrs[i].text.as_str());
            r.append("\n");
            assert(pre.filter(pred).push(attrs@[i as int]).drop_last() =~= pre.filter(pred));
        }
        i = i + 1;
    }
    assert(attrs@.subrange(0, attrs.len() as int) =~= attrs@);
    r
}

fn reindent_text(s: &str) -> (r: String)
    ensures
        r@ == reindent(s@),
{
    let n = s.unicode_len();
    let mut r = String::new();
    let mut i: usize = 0;
    while i < n
        invariant
            n == s@.len(),
            i <= n,
            r@ == reindent(s@.subrange(0, i as int)),
        decreases n - i,
    {
        let c = s.get_char(i);
        assert(s@.subrange(0, i + 1).drop_last() =~= s@.subrange(0, i as int));
        if c == '\n' {
            r.append("\n            ");
        } else {
            push_char(&mut r, c);
        }
        i = i + 1;
    }
    assert(s@.subrange(0, n as int) =~= s@);
    r
}

fn impl_item(k: DeclKind) -> (r: bool)
    ensures
        r == impl_item_kind(k),
{
    match k {
        DeclKind::Const | DeclKind::Fn | DeclKind::Macro | DeclKind::Type => true,
        _ => false,
    }
}

/// The polished text of one declaration, or `None` where it or something
/// nested in it is of a kind that polishing does not handle.
fn polish_decl(d: &Decl, in_impl: bool, top: bool) -> (r: Option<String>)
    ensures
        match r {
            Some(s) => supported(*d, in_impl) && s@ == decl_text(*d, in_impl, top),
            None => !supported(*d, in_impl),
        },
    decreases d,
{
    let ok_kind = if in_impl { impl_item(d.kind) } else { d.kind != DeclKind::Other };
    if !ok_kind {
        return None;
    }
    let is_macro = d.kind == DeclKind::Macro && !in_impl;
    let mut r = attrs_text(&d.attrs, is_macro);
    if is_macro && top {
        let h = reindent_text(d.head.as_str());
        r.append(h.as_str());
    } else {
        r.append(d.head.as_str());
    }
    match &d.body {
        Some(items) => {
            let child_impl = d.kind == DeclKind::Impl;
            r.append(" {\n");
            let ghost start = r@;
            let mut i: usize = 0;
            while i < items.len()
                invariant
                    i <= items.len(),
                    d.body == Some(*items),
                    child_impl == (d.kind == DeclKind::Impl),
                    children_supported(*d, i as int, child_impl),
                    r@ == start + children_text(*d, i as int, child_impl),
                decreases items.len() - i,
            {
                assert(decreases_to!(*d => items[i as int]));
                match polish_decl(&items[i], child_impl, false) {
                    Some(s) => {
                        r.append(s.as_str());
                    },
                    None => {
                        assert(!children_supported(*d, items.len() as int, child_impl)) by {
                            lemma_children_unsupported(*d, i as int + 1, items.len() as int, child_impl);
                        }
                        return None;
                    },
                }
                i = i + 1;
            }
            r.append("}");
        },
        None => {},
    }
    r.append("\n");
    Some(r)
}

proof fn lemma_children_unsupported(d: Decl, k: int, m: int, in_impl: bool)
    requires
        0 < k <= m,
        !children_supported(d, k, in_impl),
        d.body is Some,
        m <= d.body->Some_0.len(),
    ensures
        !children_supported(d, m, in_impl),
    decreases m - k,
{
    if k < m {
        lemma_children_unsupported(d, k, m - 1, in_impl);
    }
}

/// Polishes a unit's flattened file: drops documentation everywhere, the
/// test-only top-level declarations and the export markers of macro
/// definitions, and prints the rest.
pub fn polish_library(f: &SourceFile) -> (r: Result<String, PolishError>)
    ensures
        match r {
            Ok(s) => file_supported(*f) && s@ == polished(*f),
            Err(_) => !file_supported(*f),
        },
{
    let mut r = attrs_text(&f.attrs, false);
    let ghost start = r@;
    let ghost pred = |d: Decl| !is_test_decl(d);
    let mut i: usize = 0;
    assert(f.items@.subrange(0, 0).filter(pred) =~= Seq::empty()) by {
        reveal_with_fuel(Seq::filter, 1);
    }
    while i < f.items.len()
        invariant
            i <= f.items.len(),
            pred == (|d: Decl| !is_test_decl(d)),
            forall|j: int| 0 <= j < i ==> supported(#[trigger] f.items@[j], false),
            r@ == start + items_text(f.items@.subrange(0, i as int).filter(pred)),
        decreases f.items.len() - i,
    {
        let d = &f.items[i];
        let ghost pre = f.items@.subrange(0, i as int);
        let ghost next = f.items@.subrange(0, i + 1);
        assert(next =~= pre.push(f.items@[i as int]));
        proof {
            assert(next.filter(pred) == if pred(f.items@[i as int]) { pre.filter(pred).push(f.items@[i as int]) } else { pre.filter(pred) }) by {
                reveal_with_fuel(Seq::filter, 1);
                assert(next.drop_last() =~= pre);
            }
        }
        match polish_decl(d, false, true) {
            Some(s) => {
                if !is_test_item(d) {
                    r.append(s.as_str());
                    assert(pre.filter(pred).push(f.items@[i as int]).drop_last() =~= pre.filter(pred));
                }
            },
            None => {
                return Err(PolishError::UnsupportedDeclaration);
            },
        }
        i = i + 1;
    }
    assert(f.items@.subrange(0, f.items.len() as int) =~= f.items@);
    Ok(r)
}

proof fn lemma_filter_all<A>(s: Seq<A>, pred: spec_fn(A) -> bool)
    requires
        forall|i: int| 0 <= i < s.len() ==> pred(#[trigger] s[i]),
    ensures
        s.filter(pred) == s,
    decreases s.len(),
{
    reveal(Seq::filter);
    if s.len() > 0 {
        lemma_filter_all(s.drop_last(), pred);
        assert(s.drop_last().push(s.last()) =~= s);
    }
}

/// Polishing what was already polished removes nothing more: filtering
/// the surviving attributes or declarations again keeps all of them.
pub proof fn lemma_polish_idempotent(attrs: Seq<Attr>, is_macro: bool, items: Seq<Decl>)
    ensures
        kept_attrs(kept_attrs(attrs, is_macro), is_macro) == kept_attrs(attrs, is_macro),
        kept_items(kept_items(items)) == kept_items(items),
{
    let pa = |a: Attr| keep_attr(a, is_macro);
    let pd = |d: Decl| !is_test_decl(d);
    broadcast use vstd::seq_lib::group_filter_ensures;
    lemma_filter_all(attrs.filter(pa), pa);
    lemma_filter_all(items.filter(pd), pd);
}

/// Polishing leaves no documentation attribute, no export marker on a
/// macro definition and no test-only top-level declaration, and keeps
/// every other attribute and declaration.
pub proof fn lemma_polish_strips(attrs: Seq<Attr>, is_macro: bool, items: Seq<Decl>)
    ensures
        forall|i: int| 0 <= i < kept_attrs(attrs, is_macro).len() ==> {
            &&& !is_doc(#[trigger] kept_attrs(attrs, is_macro)[i])
            &&& is_macro ==> kept_attrs(attrs, is_macro)[i].name@ != "macro_export"@
        },
        forall|i: int| 0 <= i < attrs.len() && !is_doc(attrs[i])
            && !(is_macro && attrs[i].name@ == "macro_export"@)
            ==> #[trigger] kept_attrs(attrs, is_macro).contains(attrs[i]),
        forall|i: int| 0 <= i < kept_items(items).len() ==> !is_test_decl(#[trigger] kept_items(items)[i]),
        forall|i: int| 0 <= i < items.len() && !is_test_decl(items[i])
            ==> #[trigger] kept_items(items).contains(items[i]),
{
    let pa = |a: Attr| keep_attr(a, is_macro);
    let pd = |d: Decl| !is_test_decl(d);
    broadcast use vstd::seq_lib::group_filter_ensures;
    assert forall|i: int| 0 <= i < attrs.len() && pa(attrs[i]) implies #[trigger] attrs.filter(pa).contains(attrs[i]) by {}
    assert forall|i: int| 0 <= i < items.len() && pd(items[i]) implies #[trigger] items.filter(pd).contains(items[i]) by {}
}

/// A top-level macro definition is printed from its own text, only
/// re-indented: its head's characters other than line breaks stay as
/// they are, and a head without line breaks stays unchanged.
pub proof fn lemma_macro_verbatim(d: Decl)
    requires
        d.kind == DeclKind::Macro,
        d.body is None,
    ensures
        decl_text(d, false, true) == attr_lines(kept_attrs(d.attrs@, true)) + reindent(d.head@) + "\n"@,
        (forall|i: int| 0 <= i < d.head@.len() ==> d.head@[i] != '\n') ==> reindent(d.head@) == d.head@,
{
    if forall|i: int| 0 <= i < d.head@.len() ==> d.head@[i] != '\n' {
        lemma_reindent_plain(d.head@);
    }
}

proof fn lemma_reindent_plain(s: Seq<char>)
    requires
        forall|i: int| 0 <= i < s.len() ==> s[i] != '\n',
    ensures
        reindent(s) == s,
    decreases s.len(),
{
    if s.len() > 0 {
        lemma_reindent_plain(s.drop_last());
        assert(s.drop_last().push(s.last()) =~= s);
    }
}

} // verus!
