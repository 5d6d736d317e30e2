//! Dependency closure over units numbered `0..n`: `g[u]` lists the units
//! that `u` depends on directly.
use vstd::prelude::*;

verus! {

broadcast use vstd::std_specs::vec::group_vec_axioms;

/// Every edge of `g` ends at a unit of `g`.
pub open spec fn graph_wf(g: Seq<Seq<usize>>) -> bool {
    forall|u: int, k: int| 0 <= u < g.len() && 0 <= k < g[u].len() ==> (#[trigger] g[u][k]) < g.len()
}

/// `s` holds every direct dependency of each of its units.
pub open spec fn is_closed(g: Seq<Seq<usize>>, s: Set<usize>) -> bool {
    forall|x: usize, k: int|
        #![trigger s.contains(x), g[x as int][k]]
        s.contains(x) && x < g.len() && 0 <= k < g[x as int].len() ==> s.contains(g[x as int][k])
}

/// `x` lies in every dependency-closed set that holds all of `roots`:
/// it is one of `roots` or reached from them along dependency edges.
pub open spec fn reaches(g: Seq<Seq<usize>>, roots: Seq<usize>, x: usize) -> bool {
    forall|s: Set<usize>|
        #![trigger is_closed(g, s), s.contains(x)]
        is_closed(g, s) && (forall|i: int| 0 <= i < roots.len() ==> s.contains(#[trigger] roots[i]))
            ==> s.contains(x)
}

/// The set that a membership vector stands for.
pub open spec fn marked(m: Seq<bool>) -> Set<usize> {
    Set::new(|x: usize| x < m.len() && m[x as int])
}

proof fn lemma_push_contains(s: Seq<usize>, d: usize)
    ensures
        forall|x: usize| s.push(d).contains(x) <==> (s.contains(x) || x == d),
{
    assert forall|x: usize| s.push(d).contains(x) implies (s.contains(x) || x == d) by {
        let w = choose|w: int| 0 <= w < s.len() + 1 && s.push(d)[w] == x;
        if w < s.len() {
            assert(s[w] == x);
        }
    }
    assert forall|x: usize| s.contains(x) implies s.push(d).contains(x) by {
        let w = choose|w: int| 0 <= w < s.len() && s[w] == x;
        assert(s.push(d)[w] == x);
    }
    assert(s.push(d)[s.len() as int] == d);
}

proof fn lemma_distinct_bounded(r: Seq<usize>, n: nat)
    requires
        r.no_duplicates(),
        forall|i: int| 0 <= i < r.len() ==> (r[i] as int) < n,
    ensures
        r.len() <= n,
    decreases n,
{
    if n == 0 {
        if r.len() > 0 {
            assert((r[0] as int) < 0);
        }
    } else {
        let top = (n - 1) as usize;
        if exists|k: int| 0 <= k < r.len() && r[k] == top {
            let k = choose|k: int| 0 <= k < r.len() && r[k] == top;
            let r2 = r.remove(k);
            assert forall|i: int| 0 <= i < r2.len() implies (r2[i] as int) < n - 1 by {
                if i < k {
                    assert(r2[i] == r[i]);
                } else {
                    assert(r2[i] == r[i + 1]);
                }
            }
            assert forall|i: int, j: int| 0 <= i < r2.len() && 0 <= j < r2.len() && i != j implies r2[i] != r2[j] by {
                let a = if i < k { i } else { i + 1 };
                let b = if j < k { j } else { j + 1 };
                assert(r2[i] == r[a] && r2[j] == r[b]);
            }
            lemma_distinct_bounded(r2, (n - 1) as nat);
        } else {
            lemma_distinct_bounded(r, (n - 1) as nat);
        }
    }
}

/// Marks every unit reached from `roots`, the roots included.
pub fn closure(g: &Vec<Vec<usize>>, roots: &Vec<usize>) -> (m: Vec<bool>)
    requires
        graph_wf(g.deep_view()),
        forall|i: int| 0 <= i < roots.len() ==> (#[trigger] roots[i]) < g.len(),
    ensures
        m.len() == g.len(),
        forall|x: usize| x < g.len() ==> (m[x as int] <==> reaches(g.deep_view(), roots@, x)),
        is_closed(g.deep_view(), marked(m@)),
        forall|i: int| 0 <= i < roots.len() ==> marked(m@).contains(#[trigger] roots[i]),
{
    let ghost gv = g.deep_view();
    let n = g.len();
    let mut m: Vec<bool> = Vec::new();
    let mut k: usize = 0;
    while k < n
        invariant
            k <= n,
            m.len() == k,
            forall|x: int| 0 <= x < k ==> !m[x],
        decreases n - k,
    {
        m.push(false);
        k = k + 1;
    }
    let mut r: Vec<usize> = Vec::new();
    let mut j: usize = 0;
    while j < roots.len()
        invariant
            gv == g.deep_view(),
            n == g.len(),
            m.len() == n,
            forall|i: int| 0 <= i < roots.len() ==> (#[trigger] roots[i]) < n,
            j <= roots.len(),
            r@.no_duplicates(),
            forall|i: int| 0 <= i < r.len() ==> (#[trigger] r[i]) < n,
            forall|x: usize| x < n ==> (m[x as int] <==> r@.contains(x)),
            forall|i: int| 0 <= i < j ==> r@.contains(#[trigger] roots[i]),
            forall|i: int| 0 <= i < r.len() ==> exists|q: int| 0 <= q < j && roots[q] == #[trigger] r[i],
        decreases roots.len() - j,
    {
        let x = roots[j];
        let ghost old_r = r@;
        if !m[x] {
            m.set(x, true);
            r.push(x);
            proof {
                lemma_push_contains(old_r, x);
                assert forall|i: int| 0 <= i < r.len() implies exists|q: int| 0 <= q < j + 1 && roots[q] == #[trigger] r[i] by {
                    if i < old_r.len() {
                        assert(r[i] == old_r[i]);
                    } else {
                        assert(roots[j as int] == r[i]);
                    }
                }
            }
        }
        assert(r@.contains(roots[j as int]));
        j = j + 1;
    }
    let mut i: usize = 0;
    while i < r.len()
        invariant
            gv == g.deep_view(),
            graph_wf(gv),
            n == g.len(),
            gv.len() == n,
            m.len() == n,
            i <= r.len(),
            r@.no_duplicates(),
            forall|q: int| 0 <= q < r.len() ==> (#[trigger] r[q]) < n,
            forall|x: usize| x < n ==> (m[x as int] <==> r@.contains(x)),
            forall|q: int| 0 <= q < roots.len() ==> r@.contains(#[trigger] roots[q]),
            forall|q: int, e: int| 0 <= q < i && 0 <= e < gv[r[q] as int].len()
                ==> r@.contains(#[trigger] gv[r[q] as int][e]),
            forall|q: int| 0 <= q < r.len() ==> reaches(gv, roots@, #[trigger] r[q]),
        decreases n - i,
    {
        proof {
            lemma_distinct_bounded(r@, n as nat);
        }
        let u = r[i];
        let ghost before = r@;
        let deps = &g[u];
        assert(deps@.len() == gv[u as int].len());
        let mut e: usize = 0;
        while e < deps.len()
            invariant
                gv == g.deep_view(),
                graph_wf(gv),
                n == g.len(),
                gv.len() == n,
                m.len() == n,
                i < r.len(),
                u == r[i as int],
                u < n,
                deps@ == gv[u as int],
                e <= deps.len(),
                r@.no_duplicates(),
                before.len() <= r.len(),
                forall|q: int| 0 <= q < before.len() ==> r[q] == before[q],
                forall|q: int| 0 <= q < r.len() ==> (#[trigger] r[q]) < n,
                forall|x: usize| x < n ==> (m[x as int] <==> r@.contains(x)),
                forall|q: int| 0 <= q < roots.len() ==> r@.contains(#[trigger] roots[q]),
                forall|q: int, e2: int| 0 <= q < i && 0 <= e2 < gv[r[q] as int].len()
                    ==> r@.contains(#[trigger] gv[r[q] as int][e2]),
                forall|e2: int| 0 <= e2 < e ==> r@.contains(#[trigger] gv[u as int][e2]),
                forall|q: int| 0 <= q < r.len() ==> reaches(gv, roots@, #[trigger] r[q]),
            decreases deps.len() - e,
        {
            let d = deps[e];
            assert(d == gv[u as int][e as int]);
            if !m[d] {
                proof {
                    assert(reaches(gv, roots@, u));
                    assert forall|s: Set<usize>|
                        is_closed(gv, s) && (forall|q: int| 0 <= q < roots.len() ==> s.contains(#[trigger] roots@[q]))
                        implies s.contains(d) by {
                        assert(s.contains(u));
                        assert(s.contains(gv[u as int][e as int]));
                    }
                }
                let ghost old_r = r@;
                m.set(d, true);
                r.push(d);
                proof {
                    lemma_push_contains(old_r, d);
                }
            }
            e = e + 1;
        }
        i = i + 1;
    }
    proof {
        assert forall|q: int| 0 <= q < roots.len() implies marked(m@).contains(#[trigger] roots[q]) by {
            assert(r@.contains(roots[q]));
        }
        assert(is_closed(gv, marked(m@))) by {
            assert forall|x: usize, e: int|
                marked(m@).contains(x) && x < gv.len() && 0 <= e < gv[x as int].len()
                implies marked(m@).contains(gv[x as int][e]) by {
                assert(r@.contains(x));
                let w = choose|w: int| 0 <= w < r.len() && r@[w] == x;
                assert(r@.contains(gv[r[w] as int][e]));
            }
        }
        assert forall|x: usize| x < g.len() implies (m[x as int] <==> reaches(gv, roots@, x)) by {
            if m[x as int] {
                let w = choose|w: int| 0 <= w < r.len() && r@[w] == x;
                assert(reaches(gv, roots@, r[w]));
            }
            if reaches(gv, roots@, x) {
                assert(marked(m@).contains(x));
            }
        }
    }
    m
}

/// For each unit, the units it needs directly or not (as membership
/// flags); `Err(u)` where unit `u` needs itself, so that the graph has a
/// cycle through `u`.
pub fn transitive(g: &Vec<Vec<usize>>) -> (r: Result<Vec<Vec<bool>>, usize>)
    requires
        graph_wf(g.deep_view()),
    ensures
        match r {
            Ok(t) => {
                &&& t.len() == g.len()
                &&& forall|u: int| 0 <= u < g.len() ==> (#[trigger] t[u]).len() == g.len()
                &&& forall|u: int, x: usize| 0 <= u < g.len() && x < g.len()
                    ==> (#[trigger] t[u]@[x as int] <==> reaches(g.deep_view(), g.deep_view()[u], x))
                &&& forall|u: int| 0 <= u < g.len() ==> !(#[trigger] t[u]@[u])
            },
            Err(u) => u < g.len() && reaches(g.deep_view(), g.deep_view()[u as int], u),
        },
{
    let ghost gv = g.deep_view();
    let n = g.len();
    let mut t: Vec<Vec<bool>> = Vec::new();
    let mut u: usize = 0;
    while u < n
        invariant
            n == g.len(),
            gv == g.deep_view(),
            graph_wf(gv),
            u <= n,
            t.len() == u,
            forall|w: int| 0 <= w < u ==> (#[trigger] t[w]).len() == n,
            forall|w: int, x: usize| 0 <= w < u && x < n
                ==> (#[trigger] t[w]@[x as int] <==> reaches(gv, gv[w], x)),
            forall|w: int| 0 <= w < u ==> !(#[trigger] t[w]@[w]),
        decreases n - u,
    {
        assert(g[u as int]@ == gv[u as int]);
        assert forall|i: int| 0 <= i < g[u as int].len() implies (#[trigger] g[u as int][i]) < g.len() by {
            assert(g[u as int][i] == gv[u as int][i]);
        }
        let m = closure(g, &g[u]);
        if m[u] {
            return Err(u);
        }
        t.push(m);
        u = u + 1;
    }
    Ok(t)
}

} // verus!
