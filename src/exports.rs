//! The names that a unit's entry file exports at its top level.
use vstd::prelude::*;
use vstd::string::*;
use crate::syntax::{Attr, Decl, DeclKind, UseTree};
use crate::unit::UseIdent;
use crate::usage::{group_leaves, group_measure, tree_leaves, visible_paths};

verus! {

broadcast use vstd::std_specs::vec::group_vec_axioms;

/// Some attribute of `attrs` has the single-identifier path `name`.
pub open spec fn has_attr(attrs: Seq<Attr>, name: Seq<char>) -> bool {
    exists|i: int| 0 <= i < attrs.len() && (#[trigger] attrs[i]).name@ == name
}

/// Kinds of declaration that introduce one name of their own.
pub open spec fn is_named_kind(k: DeclKind) -> bool {
    match k {
        DeclKind::Const | DeclKind::Enum | DeclKind::Fn | DeclKind::Mod | DeclKind::Static
        | DeclKind::Struct | DeclKind::Trait | DeclKind::TraitAlias | DeclKind::Type
        | DeclKind::Union => true,
        _ => false,
    }
}

/// The last segment of each path, as a public name.
pub open spec fn last_names(paths: Seq<Seq<Seq<char>>>) -> Seq<(bool, Seq<char>)> {
    paths.map_values(|p: Seq<Seq<char>>| (false, p.last()))
}

/// What one top-level declaration exports: a public named declaration its
/// name; a public import the visible name of each leaf; a macro marked
/// `macro_export` its name.
pub open spec fn decl_exports(d: Decl) -> Seq<(bool, Seq<char>)> {
    if d.kind == DeclKind::Use {
        match d.use_tree {
            Some(t) => if d.is_pub { last_names(tree_leaves(Seq::empty(), t, true)) } else { Seq::empty() },
            None => Seq::empty(),
        }
    } else if d.kind == DeclKind::Macro {
        match d.ident {
            Some(name) => if has_attr(d.attrs@, "macro_export"@) { seq![(true, name@)] } else { Seq::empty() },
            None => Seq::empty(),
        }
    } else if is_named_kind(d.kind) && d.is_pub {
        match d.ident {
            Some(name) => seq![(false, name@)],
            None => Seq::empty(),
        }
    } else {
        Seq::empty()
    }
}

/// The exports of all `items`, in order.
pub open spec fn exports_of(items: Seq<Decl>) -> Seq<(bool, Seq<char>)>
    decreases items.len(),
{
    if items.len() == 0 {
        Seq::empty()
    } else {
        exports_of(items.drop_last()) + decl_exports(items.last())
    }
}

pub proof fn lemma_leaves_longer(prefix: Seq<Seq<char>>, t: UseTree, alias: bool)
    ensures
        forall|i: int| 0 <= i < tree_leaves(prefix, t, alias).len()
            ==> (#[trigger] tree_leaves(prefix, t, alias)[i]).len() > prefix.len(),
    decreases t, group_measure(t),
{
    match t {
        UseTree::Path(seg, rest) => {
            lemma_leaves_longer(prefix.push(seg@), *rest, alias);
            let l = tree_leaves(prefix, t, alias);
            assert(l == tree_leaves(prefix.push(seg@), *rest, alias));
            assert forall|i: int| 0 <= i < l.len() implies (#[trigger] l[i]).len() > prefix.len() by {
                assert(l[i].len() > prefix.push(seg@).len());
            }
        },
        UseTree::Group(items) => {
            lemma_group_longer(prefix, t, items.len() as int, alias);
            assert(tree_leaves(prefix, t, alias) == group_leaves(prefix, t, items.len() as int, alias));
        },
        _ => {
            let l = tree_leaves(prefix, t, alias);
            assert(l.len() == 1);
            assert(l[0].len() == prefix.len() + 1);
        },
    }
}

pub proof fn lemma_group_longer(prefix: Seq<Seq<char>>, t: UseTree, n: int, alias: bool)
    ensures
        forall|i: int| 0 <= i < group_leaves(prefix, t, n, alias).len()
            ==> (#[trigger] group_leaves(prefix, t, n, alias)[i]).len() > prefix.len(),
    decreases t, n,
{
    match t {
        UseTree::Group(items) => {
            if 0 < n <= items.len() {
                assert(decreases_to!(t => items[n - 1]));
                lemma_group_longer(prefix, t, n - 1, alias);
                lemma_leaves_longer(prefix, items[n - 1], alias);
                let a = group_leaves(prefix, t, n - 1, alias);
                let b = tree_leaves(prefix, items[n - 1], alias);
                assert forall|i: int| 0 <= i < (a + b).len() implies (#[trigger] (a + b)[i]).len() > prefix.len() by {
                    if i >= a.len() {
                        assert((a + b)[i] == b[i - a.len()]);
                    }
                }
            }
        },
        _ => {},
    }
}

/// The views of a sequence of exported names.
pub open spec fn ident_views(v: Seq<UseIdent>) -> Seq<(bool, Seq<char>)> {
    v.map_values(|u: UseIdent| u@)
}

/// Whether some attribute is `#[macro_export]`.
pub fn is_exported(attrs: &Vec<Attr>) -> (r: bool)
    ensures
        r == has_attr(attrs@, "macro_export"@),
{
    let key = String::from_str("macro_export");
    let mut i: usize = 0;
    while i < attrs.len()
        invariant
            i <= attrs.len(),
            key@ == "macro_export"@,
            forall|j: int| 0 <= j < i ==> (#[trigger] attrs@[j]).name@ != key@,
        decreases attrs.len() - i,
    {
        if attrs[i].name == key {
            assert(attrs@[i as int].name@ == key@);
            return true;
        }
        i = i + 1;
    }
    false
}

/// Whether the declaration kind introduces a name of its own.
pub fn is_named(k: DeclKind) -> (r: bool)
    ensures
        r == is_named_kind(k),
{
    match k {
        DeclKind::Const | DeclKind::Enum | DeclKind::Fn | DeclKind::Mod | DeclKind::Static
        | DeclKind::Struct | DeclKind::Trait | DeclKind::TraitAlias | DeclKind::Type
        | DeclKind::Union => true,
        _ => false,
    }
}


fn push_exports(d: &Decl, res: &mut Vec<UseIdent>)
    ensures
        final(res)@.map_values(|u: UseIdent| u@) == old(res)@.map_values(|u: UseIdent| u@) + decl_exports(*d),
{
    let ghost start = old(res)@.map_values(|u: UseIdent| u@);
    if d.kind == DeclKind::Use {
        if let Some(t) = &d.use_tree {
            if d.is_pub {
                let paths = visible_paths(t);
                proof {
                    lemma_leaves_longer(Seq::empty(), *t, true);
                }
                let ghost leaves = tree_leaves(Seq::empty(), *t, true);
                let mut i: usize = 0;
                while i < paths.len()
                    invariant
                        i <= paths.len(),
                        paths.deep_view() == leaves,
                        forall|j: int| 0 <= j < leaves.len() ==> (#[trigger] leaves[j]).len() > 0,
                        res@.map_values(|u: UseIdent| u@) == start + last_names(leaves.subrange(0, i as int)),
                    decreases paths.len() - i,
                {
                    let p = &paths[i];
                    assert(p.deep_view() == leaves[i as int]);
                    let last = p[p.len() - 1].clone();
                    let ghost before = res@;
                    res.push(UseIdent::PubItem(last));
                    assert(res@.map_values(|u: UseIdent| u@) =~= before.map_values(|u: UseIdent| u@).push((false, leaves[i as int].last())));
                    assert(last_names(leaves.subrange(0, i + 1)) =~= last_names(leaves.subrange(0, i as int)).push((false, leaves[i as int].last())));
                    i = i + 1;
                }
                assert(leaves.subrange(0, paths.len() as int) =~= leaves);
            }
        }
        assert(res@.map_values(|u: UseIdent| u@) =~= start + decl_exports(*d));
    } else if d.kind == DeclKind::Macro {
        if let Some(name) = &d.ident {
            if is_exported(&d.attrs) {
                res.push(UseIdent::MacroExport(name.clone()));
            }
        }
        assert(res@.map_values(|u: UseIdent| u@) =~= start + decl_exports(*d));
    } else if is_named(d.kind) && d.is_pub {
        if let Some(name) = &d.ident {
            res.push(UseIdent::PubItem(name.clone()));
        }
        assert(res@.map_values(|u: UseIdent| u@) =~= start + decl_exports(*d));
    } else {
        assert(res@.map_values(|u: UseIdent| u@) =~= start + decl_exports(*d));
    }
}

/// The names exported by the top-level declarations `items`, in order.
pub fn export_items(items: &Vec<Decl>) -> (r: Vec<UseIdent>)
    ensures
        ident_views(r@) == exports_of(items@),
{
    let mut res: Vec<UseIdent> = Vec::new();
    let mut i: usize = 0;
    assert(res@.map_values(|u: UseIdent| u@) =~= exports_of(items@.subrange(0, 0)));
    while i < items.len()
        invariant
            i <= items.len(),
            res@.map_values(|u: UseIdent| u@) == exports_of(items@.subrange(0, i as int)),
        decreases items.len() - i,
    {
        push_exports(&items[i], &mut res);
        assert(items@.subrange(0, i + 1).drop_last() =~= items@.subrange(0, i as int));
        i = i + 1;
    }
    assert(items@.subrange(0, items.len() as int) =~= items@);
    res
}

} // verus!
