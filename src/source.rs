//! A consumer source: its text and its top-level declarations.
use vstd::prelude::*;
use crate::syntax::{Decl, DeclKind};
use crate::text::{lemma_seq_lt_total, lemma_seq_lt_trans, seq_lt, str_lt};
use crate::usage::{dfs_use_tree, tree_leaves};

verus! {

broadcast use vstd::std_specs::vec::group_vec_axioms;

/// The namespace root under which consumers import the library.
pub open spec fn library_root() -> Seq<char> {
    "nekolib"@
}

pub struct Source {
    pub content: String,
    pub items: Vec<Decl>,
}

/// The leaf paths of every top-level import among `items`.
pub open spec fn use_leaves(items: Seq<Decl>) -> Seq<Seq<Seq<char>>>
    decreases items.len(),
{
    if items.len() == 0 {
        Seq::empty()
    } else {
        use_leaves(items.drop_last()) + match items.last().use_tree {
            Some(t) => if items.last().kind == DeclKind::Use { tree_leaves(Seq::empty(), t, false) } else { Seq::empty() },
            None => Seq::empty(),
        }
    }
}

/// `p` is referenced by `items`: some import leaf is `nekolib` followed
/// by the segments of `p`.
pub open spec fn is_usage(items: Seq<Decl>, p: Seq<Seq<char>>) -> bool {
    exists|i: int|
        0 <= i < use_leaves(items).len() && (#[trigger] use_leaves(items)[i]).len() > 0
            && use_leaves(items)[i][0] == library_root() && use_leaves(items)[i].drop_first() == p
}

/// `l` is `nekolib` followed by the segments of `p`.
pub open spec fn root_tail(l: Seq<Seq<char>>, p: Seq<Seq<char>>) -> bool {
    l.len() > 0 && l[0] == library_root() && l.drop_first() == p
}

/// Some of the first `k` leaves is `nekolib` followed by `p`.
pub open spec fn in_leaves(lv: Seq<Seq<Seq<char>>>, k: int, p: Seq<Seq<char>>) -> bool {
    exists|j: int| 0 <= j < k && root_tail(#[trigger] lv[j], p)
}

proof fn lemma_in_leaves_step(lv: Seq<Seq<Seq<char>>>, k: int, p: Seq<Seq<char>>)
    requires
        0 <= k < lv.len(),
    ensures
        in_leaves(lv, k + 1, p) <==> (in_leaves(lv, k, p) || root_tail(lv[k], p)),
{
    if in_leaves(lv, k + 1, p) {
        let j = choose|j: int| 0 <= j < k + 1 && root_tail(#[trigger] lv[j], p);
        if j < k {
            assert(in_leaves(lv, k, p));
        }
    }
}

fn root_string() -> (r: String)
    ensures
        r@ == library_root(),
{
    String::from_str("nekolib")
}

/// Strict lexicographic order on paths, segment by segment.
pub open spec fn path_lt(a: Seq<Seq<char>>, b: Seq<Seq<char>>) -> bool
    decreases a.len(),
{
    if b.len() == 0 {
        false
    } else if a.len() == 0 {
        true
    } else if a[0] != b[0] {
        seq_lt(a[0], b[0])
    } else {
        path_lt(a.drop_first(), b.drop_first())
    }
}

pub proof fn lemma_path_lt_total(a: Seq<Seq<char>>, b: Seq<Seq<char>>)
    ensures
        a == b || path_lt(a, b) || path_lt(b, a),
        !(path_lt(a, b) && path_lt(b, a)),
    decreases a.len(),
{
    if a.len() > 0 && b.len() > 0 {
        lemma_seq_lt_total(a[0], b[0]);
        lemma_path_lt_total(a.drop_first(), b.drop_first());
        if a[0] == b[0] && a.drop_first() == b.drop_first() {
            assert(a =~= seq![a[0]] + a.drop_first());
            assert(b =~= seq![b[0]] + b.drop_first());
        }
    } else if a.len() == 0 && b.len() == 0 {
        assert(a =~= b);
    }
}

pub proof fn lemma_path_lt_trans(a: Seq<Seq<char>>, b: Seq<Seq<char>>, c: Seq<Seq<char>>)
    requires
        path_lt(a, b),
        path_lt(b, c),
    ensures
        path_lt(a, c),
    decreases a.len(),
{
    if a.len() > 0 && b.len() > 0 && c.len() > 0 {
        if a[0] == b[0] && b[0] == c[0] {
            lemma_path_lt_trans(a.drop_first(), b.drop_first(), c.drop_first());
        } else if a[0] != b[0] && b[0] != c[0] {
            lemma_seq_lt_trans(a[0], b[0], c[0]);
            lemma_seq_lt_total(a[0], c[0]);
        }
    }
}

fn path_less(a: &Vec<String>, b: &Vec<String>) -> (r: bool)
    ensures
        r == path_lt(a.deep_view(), b.deep_view()),
{
    let mut i: usize = 0;
    let ghost av = a.deep_view();
    let ghost bv = b.deep_view();
    assert(av.subrange(0, av.len() as int) =~= av);
    assert(bv.subrange(0, bv.len() as int) =~= bv);
    while i < a.len() && i < b.len()
        invariant
            av == a.deep_view(),
            bv == b.deep_view(),
            i <= a.len(),
            i <= b.len(),
            path_lt(av, bv) == path_lt(av.subrange(i as int, av.len() as int), bv.subrange(i as int, bv.len() as int)),
        decreases a.len() - i,
    {
        let ghost sa = av.subrange(i as int, av.len() as int);
        let ghost sb = bv.subrange(i as int, bv.len() as int);
        assert(sa[0] == a[i as int]@ && sb[0] == b[i as int]@);
        if a[i] != b[i] {
            return str_lt(a[i].as_str(), b[i].as_str());
        }
        assert(sa.drop_first() =~= av.subrange(i + 1, av.len() as int));
        assert(sb.drop_first() =~= bv.subrange(i + 1, bv.len() as int));
        i = i + 1;
    }
    i < b.len()
}

/// The paths of `v` in increasing order.
fn sort_paths(v: Vec<Vec<String>>) -> (r: Vec<Vec<String>>)
    requires
        v.deep_view().no_duplicates(),
    ensures
        forall|a: int, b: int| 0 <= a < b < r.len() ==> path_lt(r.deep_view()[a], r.deep_view()[b]),
        forall|p: Seq<Seq<char>>| r.deep_view().contains(p) <==> v.deep_view().contains(p),
{
    let mut r: Vec<Vec<String>> = Vec::new();
    let mut i: usize = 0;
    while i < v.len()
        invariant
            i <= v.len(),
            v.deep_view().no_duplicates(),
            forall|a: int, b: int| 0 <= a < b < r.len() ==> path_lt(r.deep_view()[a], r.deep_view()[b]),
            forall|p: Seq<Seq<char>>| r.deep_view().contains(p) <==> v.deep_view().subrange(0, i as int).contains(p),
        decreases v.len() - i,
    {
        let ghost x = v.deep_view()[i as int];
        assert(v[i as int].deep_view() == x);
        let mut pos: usize = 0;
        while pos < r.len() && path_less(&r[pos], &v[i])
            invariant
                pos <= r.len(),
                i < v.len(),
                x == v[i as int].deep_view(),
                forall|a: int| 0 <= a < pos ==> path_lt(r.deep_view()[a], x),
            decreases r.len() - pos,
        {
            assert(r[pos as int].deep_view() == r.deep_view()[pos as int]);
            pos = pos + 1;
        }
        proof {
            if pos < r.len() {
                assert(r[pos as int].deep_view() == r.deep_view()[pos as int]);
                let y = r.deep_view()[pos as int];
                assert(r.deep_view().contains(y));
                let w = choose|w: int| 0 <= w < i && v.deep_view().subrange(0, i as int)[w] == y;
                assert(v.deep_view()[w] == y);
                lemma_path_lt_total(y, x);
                assert forall|b: int| pos <= b < r.len() implies path_lt(x, r.deep_view()[b]) by {
                    if b > pos {
                        lemma_path_lt_trans(x, y, r.deep_view()[b]);
                    }
                }
            }
        }
        let ghost old_r = r.deep_view();
        assert(forall|p: Seq<Seq<char>>| old_r.contains(p) <==> v.deep_view().subrange(0, i as int).contains(p));
        let item = v[i].clone();
        assert(item.deep_view() == x) by {
            assert(item@ == v[i as int]@);
        }
        r.insert(pos, item);
        proof {
            assert(r.deep_view() =~= old_r.insert(pos as int, x));
            let rv = r.deep_view();
            assert forall|a: int, b: int| 0 <= a < b < rv.len() implies path_lt(rv[a], rv[b]) by {
                let oa = if a < pos { a } else if a > pos { a - 1 } else { -1 };
                let ob = if b < pos { b } else if b > pos { b - 1 } else { -1 };
                if oa >= 0 { assert(rv[a] == old_r[oa]); }
                if ob >= 0 { assert(rv[b] == old_r[ob]); }
                if oa >= 0 && ob < 0 && pos < rv.len() {
                }
            }
            let pre = v.deep_view().subrange(0, i as int);
            let next = v.deep_view().subrange(0, i + 1);
            assert(next =~= pre.push(x));
            assert forall|p: Seq<Seq<char>>| rv.contains(p) <==> next.contains(p) by {
                if rv.contains(p) {
                    let w = choose|w: int| 0 <= w < rv.len() && rv[w] == p;
                    if w < pos {
                        assert(old_r[w] == p);
                        assert(old_r.contains(p));
                        let z = choose|z: int| 0 <= z < pre.len() && pre[z] == p;
                        assert(next[z] == p);
                    } else if w > pos {
                        assert(old_r[w - 1] == p);
                        assert(old_r.contains(p));
                        let z = choose|z: int| 0 <= z < pre.len() && pre[z] == p;
                        assert(next[z] == p);
                    } else {
                        assert(next[i as int] == p);
                    }
                }
                if next.contains(p) {
                    let z = choose|z: int| 0 <= z < next.len() && next[z] == p;
                    if z < i {
                        assert(pre[z] == p);
                        assert(pre.contains(p));
                        assert(old_r.contains(p));
                        let w = choose|w: int| 0 <= w < old_r.len() && old_r[w] == p;
                        if w < pos { assert(rv[w] == p); } else { assert(rv[w + 1] == p); }
                    } else {
                        assert(rv[pos as int] == p);
                    }
                }
            }
        }
        i = i + 1;
    }
    assert(v.deep_view().subrange(0, v.len() as int) =~= v.deep_view());
    r
}

/// Whether two paths have the same segments.
pub fn same_path(a: &Vec<String>, b: &Vec<String>) -> (r: bool)
    ensures
        r == (a.deep_view() == b.deep_view()),
{
    if a.len() != b.len() {
        assert(a.deep_view().len() != b.deep_view().len());
        return false;
    }
    let mut i: usize = 0;
    while i < a.len()
        invariant
            a.len() == b.len(),
            i <= a.len(),
            forall|j: int| 0 <= j < i ==> a.deep_view()[j] == b.deep_view()[j],
        decreases a.len() - i,
    {
        if a[i] != b[i] {
            assert(a.deep_view()[i as int] != b.deep_view()[i as int]);
            return false;
        }
        i = i + 1;
    }
    assert(a.deep_view() =~= b.deep_view());
    true
}

fn contains_path(v: &Vec<Vec<String>>, p: &Vec<String>) -> (r: bool)
    ensures
        r == v.deep_view().contains(p.deep_view()),
{
    let mut i: usize = 0;
    while i < v.len()
        invariant
            i <= v.len(),
            forall|j: int| 0 <= j < i ==> v.deep_view()[j] != p.deep_view(),
        decreases v.len() - i,
    {
        if same_path(&v[i], p) {
            assert(v.deep_view()[i as int] == p.deep_view());
            return true;
        }
        i = i + 1;
    }
    false
}

/// The segments of `p` after the first.
fn tail_of(p: &Vec<String>) -> (r: Vec<String>)
    requires
        p.len() > 0,
    ensures
        r.deep_view() == p.deep_view().drop_first(),
{
    let mut r: Vec<String> = Vec::new();
    let mut i: usize = 1;
    while i < p.len()
        invariant
            1 <= i <= p.len(),
            r.deep_view() == p.deep_view().subrange(1, i as int),
        decreases p.len() - i,
    {
        let ghost before = r.deep_view();
        let s = p[i].clone();
        assert(s@ == p.deep_view()[i as int]);
        r.push(s);
        assert(r.deep_view() =~= before.push(s@));
        assert(r.deep_view() =~= p.deep_view().subrange(1, i + 1));
        i = i + 1;
    }
    assert(p.deep_view().subrange(1, p.len() as int) =~= p.deep_view().drop_first());
    r
}

/// Adds to `res` the tail of each leaf that starts with `nekolib`, once.
fn collect_rooted(res: &mut Vec<Vec<String>>, leaves: &Vec<Vec<String>>, root: &String)
    requires
        root@ == library_root(),
        old(res).deep_view().no_duplicates(),
    ensures
        final(res).deep_view().no_duplicates(),
        forall|p: Seq<Seq<char>>| final(res).deep_view().contains(p)
            <==> (old(res).deep_view().contains(p) || in_leaves(leaves.deep_view(), leaves.len() as int, p)),
{
    let mut k: usize = 0;
    while k < leaves.len()
        invariant
            k <= leaves.len(),
            root@ == library_root(),
            res.deep_view().no_duplicates(),
            forall|p: Seq<Seq<char>>| res.deep_view().contains(p) <==> (old(res).deep_view().contains(p) || in_leaves(leaves.deep_view(), k as int, p)),
        decreases leaves.len() - k,
    {
        let l = &leaves[k];
        assert(l.deep_view() == leaves.deep_view()[k as int]);
        proof {
            assert forall|p: Seq<Seq<char>>| in_leaves(leaves.deep_view(), k + 1, p) <==> (in_leaves(leaves.deep_view(), k as int, p) || root_tail(leaves.deep_view()[k as int], p)) by {
                lemma_in_leaves_step(leaves.deep_view(), k as int, p);
            }
        }
        let ghost res0 = res.deep_view();
        let ghost lv = leaves.deep_view();
        assert(forall|q: Seq<Seq<char>>| res0.contains(q) <==> (old(res).deep_view().contains(q) || in_leaves(lv, k as int, q)));
        assert(l.deep_view().len() == l.len());
        if l.len() > 0 && l[0] == *root {
            assert(l.deep_view()[0] == l[0]@);
            let p = tail_of(l);
            assert(root_tail(lv[k as int], p.deep_view()));
            let found = contains_path(&res, &p);
            let ghost pv = p.deep_view();
            if !found {
                res.push(p);
                proof {
                    assert(res.deep_view() =~= res0.push(p.deep_view()));
                    assert forall|q: Seq<Seq<char>>| res.deep_view().contains(q) <==> (res0.contains(q) || q == p.deep_view()) by {
                        if res.deep_view().contains(q) {
                            let w = choose|w: int| 0 <= w < res.deep_view().len() && res.deep_view()[w] == q;
                            if w < res0.len() {
                                assert(res0[w] == q);
                            }
                        }
                        if res0.contains(q) {
                            let w = choose|w: int| 0 <= w < res0.len() && res0[w] == q;
                            assert(res.deep_view()[w] == q);
                        }
                        assert(res.deep_view()[res0.len() as int] == p.deep_view());
                    }
                }
            }
            proof {
                assert forall|q: Seq<Seq<char>>| res.deep_view().contains(q) <==> (res0.contains(q) || q == pv) by {
                    if found {
                        assert(res.deep_view() == res0);
                    }
                }
                assert forall|q: Seq<Seq<char>>| res.deep_view().contains(q) <==> (old(res).deep_view().contains(q) || in_leaves(lv, k + 1, q)) by {
                    lemma_in_leaves_step(lv, k as int, q);
                    assert(res0.contains(q) <==> (old(res).deep_view().contains(q) || in_leaves(lv, k as int, q)));
                    if root_tail(lv[k as int], q) {
                        assert(q == pv);
                    }
                }
            }
        } else {
            proof {
                if l.len() > 0 {
                    assert(l.deep_view()[0] == l[0]@);
                }
                assert forall|q: Seq<Seq<char>>| res.deep_view().contains(q) <==> (old(res).deep_view().contains(q) || in_leaves(lv, k + 1, q)) by {
                    lemma_in_leaves_step(lv, k as int, q);
                    assert(res0.contains(q) <==> (old(res).deep_view().contains(q) || in_leaves(lv, k as int, q)));
                }
            }
        }
        let ghost k1: int = k + 1;
        assert(forall|q: Seq<Seq<char>>| res.deep_view().contains(q) <==> (old(res).deep_view().contains(q) || in_leaves(leaves.deep_view(), k1, q)));
        k = k + 1;
        assert(k as int == k1);
        assert forall|p: Seq<Seq<char>>| res.deep_view().contains(p) <==> (old(res).deep_view().contains(p) || in_leaves(leaves.deep_view(), k as int, p)) by {
            assert(res.deep_view().contains(p) <==> (old(res).deep_view().contains(p) || in_leaves(leaves.deep_view(), k1, p)));
        }
    }
}

impl Source {
    pub fn new(content: String, items: Vec<Decl>) -> (r: Source)
        ensures
            r.content@ == content@,
            r.items@ == items@,
    {
        Source { content, items }
    }

    pub fn get_code(&self) -> (r: &str)
        ensures
            r@ == self.content@,
    {
        self.content.as_str()
    }

    /// The library paths the source references, each once and in
    /// increasing order, with the root segment `nekolib` dropped.
    pub fn get_uses(&self) -> (r: Vec<Vec<String>>)
        ensures
            r.deep_view().no_duplicates(),
            forall|a: int, b: int| 0 <= a < b < r.len() ==> path_lt(r.deep_view()[a], r.deep_view()[b]),
            forall|p: Seq<Seq<char>>| r.deep_view().contains(p) <==> is_usage(self.items@, p),
    {
        let root = root_string();
        let mut res: Vec<Vec<String>> = Vec::new();
        let mut i: usize = 0;
        while i < self.items.len()
            invariant
                i <= self.items.len(),
                root@ == library_root(),
                res.deep_view().no_duplicates(),
                forall|p: Seq<Seq<char>>| res.deep_view().contains(p) <==> is_usage(self.items@.subrange(0, i as int), p),
            decreases self.items.len() - i,
        {
            let ghost pre = self.items@.subrange(0, i as int);
            let ghost next = self.items@.subrange(0, i + 1);
            assert(next.drop_last() =~= pre);
            let d = &self.items[i];
            let mut leaves: Vec<Vec<String>> = Vec::new();
            if d.kind == DeclKind::Use {
                if let Some(t) = &d.use_tree {
                    let mut cur: Vec<String> = Vec::new();
                    assert(cur.deep_view() =~= Seq::empty());
                    leaves = dfs_use_tree(t, &mut cur);
                }
            }
            assert(use_leaves(next) =~= use_leaves(pre) + leaves.deep_view());
            collect_rooted(&mut res, &leaves, &root);
            assert(forall|p: Seq<Seq<char>>| res.deep_view().contains(p) <==> (is_usage(pre, p) || in_leaves(leaves.deep_view(), leaves.len() as int, p)));
            proof {
                let lv = leaves.deep_view();
                assert forall|p: Seq<Seq<char>>| res.deep_view().contains(p) <==> is_usage(next, p) by {
                    let ul = use_leaves(next);
                    if is_usage(pre, p) {
                        let w = choose|w: int| 0 <= w < use_leaves(pre).len() && (#[trigger] use_leaves(pre)[w]).len() > 0
                            && use_leaves(pre)[w][0] == library_root() && use_leaves(pre)[w].drop_first() == p;
                        assert(ul[w] == use_leaves(pre)[w]);
                    }
                    if in_leaves(lv, lv.len() as int, p) {
                        let j = choose|j: int| 0 <= j < lv.len() && root_tail(#[trigger] lv[j], p);
                        assert(ul[use_leaves(pre).len() + j] == lv[j]);
                    }
                    if is_usage(next, p) {
                        let w = choose|w: int| 0 <= w < ul.len() && (#[trigger] ul[w]).len() > 0
                            && ul[w][0] == library_root() && ul[w].drop_first() == p;
                        if w < use_leaves(pre).len() {
                            assert(use_leaves(pre)[w] == ul[w]);
                        } else {
                            assert(lv[w - use_leaves(pre).len()] == ul[w]);
                            assert(root_tail(lv[w - use_leaves(pre).len()], p));
                        }
                    }
                }
            }
            i = i + 1;
        }
        assert(self.items@.subrange(0, self.items.len() as int) =~= self.items@);
        let sorted = sort_paths(res);
        proof {
            assert forall|a: int, b: int| 0 <= a < sorted.len() && 0 <= b < sorted.len() && a != b
                implies sorted.deep_view()[a] != sorted.deep_view()[b] by {
                let sv = sorted.deep_view();
                if a < b {
                    lemma_path_lt_total(sv[a], sv[b]);
                } else {
                    lemma_path_lt_total(sv[b], sv[a]);
                }
            }
        }
        sorted
    }
}

} // verus!
