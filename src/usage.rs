//! Flattening import trees into path-segment sequences.
use vstd::prelude::*;
use crate::syntax::UseTree;

verus! {

broadcast use vstd::std_specs::vec::group_vec_axioms;

/// The second component of the measure that orders a tree before the
/// group walk over its own items.
pub open spec fn group_measure(t: UseTree) -> int {
    match t {
        UseTree::Group(items) => items.len() + 1,
        _ => 0,
    }
}

/// The leaf paths of `t` below `prefix`, left to right. A rename yields
/// the name it imports, or its alias where `alias` holds; a glob yields the
/// segment `*`.
pub open spec fn tree_leaves(prefix: Seq<Seq<char>>, t: UseTree, alias: bool) -> Seq<Seq<Seq<char>>>
    decreases t, group_measure(t),
{
    match t {
        UseTree::Path(seg, rest) => tree_leaves(prefix.push(seg@), *rest, alias),
        UseTree::Name(name) => seq![prefix.push(name@)],
        UseTree::Rename(name, to) => seq![prefix.push(if alias { to@ } else { name@ })],
        UseTree::Glob => seq![prefix.push(glob_segment())],
        UseTree::Group(items) => group_leaves(prefix, t, items.len() as int, alias),
    }
}

/// The leaf paths of the first `n` items of the group `t`.
pub open spec fn group_leaves(prefix: Seq<Seq<char>>, t: UseTree, n: int, alias: bool) -> Seq<Seq<Seq<char>>>
    decreases t, n,
{
    match t {
        UseTree::Group(items) => {
            if n <= 0 || n > items.len() {
                Seq::empty()
            } else {
                group_leaves(prefix, t, n - 1, alias) + tree_leaves(prefix, items[n - 1], alias)
            }
        },
        _ => Seq::empty(),
    }
}

pub open spec fn glob_segment() -> Seq<char> {
    seq!['*']
}

fn glob_string() -> (r: String)
    ensures
        r@ == glob_segment(),
{
    let mut r = String::new();
    crate::text::push_char(&mut r, '*');
    r
}

fn dfs(u: &UseTree, cur: &mut Vec<String>, res: &mut Vec<Vec<String>>, alias: bool)
    ensures
        final(cur)@ == old(cur)@,
        final(res).deep_view() == old(res).deep_view() + tree_leaves(old(cur).deep_view(), *u, alias),
    decreases u,
{
    let ghost prefix = cur.deep_view();
    match u {
        UseTree::Path(seg, rest) => {
            cur.push(seg.clone());
            assert(cur.deep_view() =~= prefix.push(seg@));
            dfs(rest, cur, res, alias);
            cur.pop();
            assert(cur.deep_view() =~= prefix);
        },
        UseTree::Name(name) => {
            leaf(name, cur, res);
        },
        UseTree::Rename(name, to) => {
            if alias {
                leaf(to, cur, res);
            } else {
                leaf(name, cur, res);
            }
        },
        UseTree::Glob => {
            let g = glob_string();
            leaf(&g, cur, res);
        },
        UseTree::Group(items) => {
            let mut i: usize = 0;
            assert(res.deep_view() =~= old(res).deep_view() + group_leaves(prefix, *u, 0, alias));
            while i < items.len()
                invariant
                    i <= items.len(),
                    cur@ == old(cur)@,
                    cur.deep_view() == prefix,
                    *u == UseTree::Group(*items),
                    res.deep_view() == old(res).deep_view() + group_leaves(prefix, *u, i as int, alias),
                decreases items.len() - i,
            {
                assert(decreases_to!(*u => items[i as int]));
                let ghost before = res.deep_view();
                dfs(&items[i], cur, res, alias);
                assert(res.deep_view() =~= old(res).deep_view() + group_leaves(prefix, *u, i + 1, alias));
                i = i + 1;
            }
        },
    }
}

fn leaf(name: &String, cur: &mut Vec<String>, res: &mut Vec<Vec<String>>)
    ensures
        final(cur)@ == old(cur)@,
        final(res).deep_view() == old(res).deep_view() + seq![old(cur).deep_view().push(name@)],
{
    let ghost prefix = cur.deep_view();
    cur.push(name.clone());
    let path = cur.clone();
    assert(path.deep_view() =~= prefix.push(name@));
    res.push(path);
    cur.pop();
    assert(cur@ =~= old(cur)@);
    assert(res.deep_view() =~= old(res).deep_view() + seq![prefix.push(name@)]);
}

/// The leaf paths of `u` below the segments `cur`, each a sequence of
/// segments; a rename yields the name it imports and a glob the segment `*`.
pub fn dfs_use_tree(u: &UseTree, cur: &mut Vec<String>) -> (r: Vec<Vec<String>>)
    ensures
        final(cur)@ == old(cur)@,
        r.deep_view() == tree_leaves(old(cur).deep_view(), *u, false),
{
    let mut res: Vec<Vec<String>> = Vec::new();
    assert(res.deep_view() =~= Seq::empty());
    dfs(u, cur, &mut res, false);
    assert(res.deep_view() =~= tree_leaves(old(cur).deep_view(), *u, false));
    res
}

/// The names that `u` makes visible: like `dfs_use_tree`, but a rename
/// yields its alias.
pub fn visible_paths(u: &UseTree) -> (r: Vec<Vec<String>>)
    ensures
        r.deep_view() == tree_leaves(Seq::empty(), *u, true),
{
    let mut cur: Vec<String> = Vec::new();
    let mut res: Vec<Vec<String>> = Vec::new();
    assert(res.deep_view() =~= Seq::empty());
    assert(cur.deep_view() =~= Seq::empty());
    dfs(u, &mut cur, &mut res, true);
    assert(res.deep_view() =~= tree_leaves(Seq::empty(), *u, true));
    res
}

} // verus!
