//! The unit graph of a library and the bundling of the units a consumer
//! needs into one text.
use vstd::prelude::*;
use crate::closure::{graph_wf, is_closed, reaches, transitive};
use crate::exports::{export_items, exports_of, ident_views};
use crate::source::{is_usage, Source};
use crate::syntax::Decl;
use crate::text::{lemma_seq_lt_total, lemma_seq_lt_trans, seq_lt, str_lt};
use crate::unit::{same_crate, Crate, UseIdent};

verus! {

broadcast use vstd::std_specs::vec::group_vec_axioms;

/// What was read for one unit: its identity, its entry file, the units its
/// manifest depends on (in declaration order), and the top-level
/// declarations of its entry file.
pub struct UnitInput {
    pub unit: Crate,
    pub entry_path: String,
    pub deps: Vec<Crate>,
    pub items: Vec<Decl>,
}

/// Why a library graph cannot be built.
pub enum LibraryError {
    /// Two units share a category and a name.
    DuplicateUnit(Crate),
    /// The first unit depends on the second, which the library lacks.
    MissingDependency(Crate, Crate),
    /// The unit depends, directly or not, on itself.
    Cycle(Crate),
}

/// Strict order of units: by category, then by name.
pub open spec fn crate_lt(a: (Seq<char>, Seq<char>), b: (Seq<char>, Seq<char>)) -> bool {
    seq_lt(a.0, b.0) || (a.0 == b.0 && seq_lt(a.1, b.1))
}

pub proof fn lemma_crate_lt_total(a: (Seq<char>, Seq<char>), b: (Seq<char>, Seq<char>))
    ensures
        a == b || crate_lt(a, b) || crate_lt(b, a),
        !(crate_lt(a, b) && crate_lt(b, a)),
        !crate_lt(a, a),
{
    lemma_seq_lt_total(a.0, b.0);
    lemma_seq_lt_total(a.1, b.1);
}

pub proof fn lemma_crate_lt_trans(a: (Seq<char>, Seq<char>), b: (Seq<char>, Seq<char>), c: (Seq<char>, Seq<char>))
    requires
        crate_lt(a, b),
        crate_lt(b, c),
    ensures
        crate_lt(a, c),
{
    if seq_lt(a.0, b.0) && seq_lt(b.0, c.0) {
        lemma_seq_lt_trans(a.0, b.0, c.0);
    }
    if a.0 == b.0 && b.0 == c.0 && seq_lt(a.1, b.1) && seq_lt(b.1, c.1) {
        lemma_seq_lt_trans(a.1, b.1, c.1);
    }
}

fn crate_less(a: &Crate, b: &Crate) -> (r: bool)
    ensures
        r == crate_lt(a@, b@),
{
    str_lt(a.category_name.as_str(), b.category_name.as_str()) || (a.category_name == b.category_name
        && str_lt(a.crate_name.as_str(), b.crate_name.as_str()))
}

/// The units named by `inputs`.
pub open spec fn input_units(inputs: Seq<UnitInput>) -> Seq<(Seq<char>, Seq<char>)> {
    inputs.map_values(|x: UnitInput| x.unit@)
}

/// Two inputs name the same unit.
pub open spec fn has_duplicate(inputs: Seq<UnitInput>) -> bool {
    exists|i: int, j: int|
        0 <= i < inputs.len() && 0 <= j < inputs.len() && i != j
            && (#[trigger] inputs[i]).unit@ == (#[trigger] inputs[j]).unit@
}

/// Some input depends on a unit that no input names.
pub open spec fn has_missing(inputs: Seq<UnitInput>) -> bool {
    exists|i: int, e: int|
        0 <= i < inputs.len() && 0 <= e < inputs[i].deps.len()
            && !input_units(inputs).contains((#[trigger] inputs[i].deps[e])@)
}

/// `order` lists each index below `n` once.
pub open spec fn is_permutation(order: Seq<usize>, n: int) -> bool {
    &&& order.len() == n
    &&& order.no_duplicates()
    &&& forall|k: int| 0 <= k < order.len() ==> (#[trigger] order[k]) < n
    &&& forall|x: usize| x < n ==> order.contains(x)
}

/// Sorts the inputs by unit; `Err(i)` where input `i` names the same unit
/// as another.
fn sort_inputs(inputs: &Vec<UnitInput>) -> (r: Result<Vec<usize>, usize>)
    ensures
        match r {
            Ok(order) => {
                &&& is_permutation(order@, inputs.len() as int)
                &&& forall|a: int, b: int| 0 <= a < b < order.len()
                    ==> crate_lt(inputs[order[a] as int].unit@, inputs[order[b] as int].unit@)
                &&& !has_duplicate(inputs@)
            },
            Err(i) => i < inputs.len() && has_duplicate(inputs@) && exists|j: int|
                0 <= j < inputs.len() && j != i && inputs[j].unit@ == inputs[i as int].unit@,
        },
{
    let mut order: Vec<usize> = Vec::new();
    let mut i: usize = 0;
    while i < inputs.len()
        invariant
            i <= inputs.len(),
            is_permutation(order@, i as int),
            forall|a: int, b: int| 0 <= a < b < order.len()
                ==> crate_lt(inputs[order[a] as int].unit@, inputs[order[b] as int].unit@),
        decreases inputs.len() - i,
    {
        let x = &inputs[i].unit;
        let mut pos: usize = 0;
        while pos < order.len() && crate_less(&inputs[order[pos]].unit, x)
            invariant
                pos <= order.len(),
                is_permutation(order@, i as int),
                i < inputs.len(),
                x == inputs[i as int].unit,
                forall|a: int| 0 <= a < pos ==> crate_lt(inputs[order[a] as int].unit@, x@),
            decreases order.len() - pos,
        {
            pos = pos + 1;
        }
        if pos < order.len() && same_crate(&inputs[order[pos]].unit, x) {
            let ghost j = order[pos as int];
            assert(inputs[j as int].unit@ == inputs[i as int].unit@);
            assert(has_duplicate(inputs@)) by {
                assert(inputs@[j as int].unit@ == inputs@[i as int].unit@);
            }
            return Err(i);
        }
        proof {
            if pos < order.len() {
                lemma_crate_lt_total(inputs[order[pos as int] as int].unit@, x@);
                assert forall|b: int| pos <= b < order.len() implies crate_lt(x@, inputs[order[b] as int].unit@) by {
                    if b > pos {
                        lemma_crate_lt_trans(x@, inputs[order[pos as int] as int].unit@, inputs[order[b] as int].unit@);
                    }
                }
            }
        }
        let ghost old_order = order@;
        order.insert(pos, i);
        proof {
            assert(order@ == old_order.insert(pos as int, i));
            assert forall|k: int| 0 <= k < order.len() implies (#[trigger] order[k]) < i + 1 by {
                if k < pos { assert(order[k] == old_order[k]); }
                else if k > pos { assert(order[k] == old_order[k - 1]); }
            }
            assert forall|x2: usize| x2 < i + 1 implies order@.contains(x2) by {
                if x2 == i {
                    assert(order[pos as int] == i);
                } else {
                    assert(old_order.contains(x2));
                    let w = choose|w: int| 0 <= w < old_order.len() && old_order[w] == x2;
                    if w < pos { assert(order[w] == x2); } else { assert(order[w + 1] == x2); }
                }
            }
            assert forall|a: int, b: int| 0 <= a < order.len() && 0 <= b < order.len() && a != b implies order[a] != order[b] by {
                let oa = if a < pos { a } else if a > pos { a - 1 } else { -1 };
                let ob = if b < pos { b } else if b > pos { b - 1 } else { -1 };
                if oa >= 0 { assert(order[a] == old_order[oa]); }
                if ob >= 0 { assert(order[b] == old_order[ob]); }
            }
            assert forall|a: int, b: int| 0 <= a < b < order.len()
                implies crate_lt(inputs[order[a] as int].unit@, inputs[order[b] as int].unit@) by {
                let oa = if a < pos { a } else if a > pos { a - 1 } else { -1 };
                let ob = if b < pos { b } else if b > pos { b - 1 } else { -1 };
                if oa >= 0 { assert(order[a] == old_order[oa]); }
                if ob >= 0 { assert(order[b] == old_order[ob]); }
            }
        }
        i = i + 1;
    }
    proof {
        assert forall|a: int, b: int|
            0 <= a < inputs.len() && 0 <= b < inputs.len() && a != b
            implies (#[trigger] inputs@[a]).unit@ != (#[trigger] inputs@[b]).unit@ by {
            assert(order@.contains(a as usize));
            assert(order@.contains(b as usize));
            let pa = choose|w: int| 0 <= w < order.len() && order[w] == a as usize;
            let pb = choose|w: int| 0 <= w < order.len() && order[w] == b as usize;
            if pa < pb {
                lemma_crate_lt_total(inputs[a].unit@, inputs[b].unit@);
            } else {
                lemma_crate_lt_total(inputs[a].unit@, inputs[b].unit@);
            }
        }
    }
    Ok(order)
}

/// The unit graph: units sorted by category and name, each with its entry
/// file, its direct dependencies (as indices, in declaration order), the
/// units it needs transitively (as membership flags), and its exports.
pub struct Library {
    pub units: Vec<Crate>,
    pub crate_path: Vec<String>,
    pub deps_1: Vec<Vec<usize>>,
    pub deps_oo: Vec<Vec<bool>>,
    pub exports: Vec<Vec<UseIdent>>,
}

/// Entry `k` of `lib` holds what `inp` describes.
pub open spec fn corresponds(lib: Library, k: int, inp: UnitInput) -> bool {
    &&& lib.units[k]@ == inp.unit@
    &&& lib.crate_path[k]@ == inp.entry_path@
    &&& ident_views(lib.exports[k]@) == exports_of(inp.items@)
    &&& lib.deps_1[k].len() == inp.deps.len()
    &&& forall|e: int| 0 <= e < inp.deps.len() ==> lib.units[lib.deps_1[k][e] as int]@ == (#[trigger] inp.deps[e])@
}

/// Entry `q` holds the unit, entry file and exports of input `order[q]`.
pub open spec fn entry_holds(
    units: Seq<Crate>,
    crate_path: Seq<String>,
    exports: Seq<Vec<UseIdent>>,
    inputs: Seq<UnitInput>,
    order: Seq<usize>,
    q: int,
) -> bool {
    &&& units[q]@ == inputs[order[q] as int].unit@
    &&& crate_path[q]@ == inputs[order[q] as int].entry_path@
    &&& ident_views(exports[q]@) == exports_of(inputs[order[q] as int].items@)
}

/// The entries of `lib` hold `inputs` in some order: entry `k` holds
/// input `order[k]`.
pub open spec fn holds_inputs(lib: Library, inputs: Seq<UnitInput>) -> bool {
    exists|order: Seq<usize>|
        is_permutation(order, inputs.len() as int) && forall|k: int|
            0 <= k < inputs.len() ==> #[trigger] corresponds(lib, k, inputs[order[k] as int])
}

/// Some input names unit `a` and lists `b` among its dependencies.
pub open spec fn input_edge(inputs: Seq<UnitInput>, a: (Seq<char>, Seq<char>), b: (Seq<char>, Seq<char>)) -> bool {
    exists|i: int, e: int|
        0 <= i < inputs.len() && 0 <= e < inputs[i].deps.len() && inputs[i].unit@ == a
            && (#[trigger] inputs[i].deps[e])@ == b
}

/// Every set of units that holds the dependencies of `c` and is closed
/// under the inputs' dependencies holds `c`: `c` depends on itself.
pub open spec fn on_cycle(inputs: Seq<UnitInput>, c: (Seq<char>, Seq<char>)) -> bool {
    forall|s: Set<(Seq<char>, Seq<char>)>|
        #![trigger s.contains(c)]
        (forall|a: (Seq<char>, Seq<char>), b: (Seq<char>, Seq<char>)|
            #![trigger s.contains(a), s.contains(b)]
            s.contains(a) && input_edge(inputs, a, b) ==> s.contains(b))
        && (forall|b: (Seq<char>, Seq<char>)| #[trigger] input_edge(inputs, c, b) ==> s.contains(b))
        ==> s.contains(c)
}

proof fn lemma_cycle_of_inputs(
    units: Seq<Crate>,
    g: Seq<Seq<usize>>,
    inputs: Seq<UnitInput>,
    order: Seq<usize>,
    u: usize,
)
    requires
        u < units.len(),
        g.len() == units.len(),
        order.len() == units.len(),
        forall|q: int| 0 <= q < order.len() ==> (#[trigger] order[q]) < inputs.len(),
        forall|q: int| 0 <= q < units.len() ==> (#[trigger] units[q])@ == inputs[order[q] as int].unit@,
        forall|q: int| 0 <= q < units.len() ==> (#[trigger] g[q]).len() == inputs[order[q] as int].deps.len(),
        forall|q: int, e: int| 0 <= q < units.len() && 0 <= e < g[q].len()
            ==> (#[trigger] g[q][e]) < units.len() && units[g[q][e] as int]@ == inputs[order[q] as int].deps[e]@,
        reaches(g, g[u as int], u),
    ensures
        on_cycle(inputs, units[u as int]@),
{
    let c = units[u as int]@;
    assert forall|s: Set<(Seq<char>, Seq<char>)>|
        (forall|a: (Seq<char>, Seq<char>), b: (Seq<char>, Seq<char>)|
            #![trigger s.contains(a), s.contains(b)]
            s.contains(a) && input_edge(inputs, a, b) ==> s.contains(b))
        && (forall|b: (Seq<char>, Seq<char>)| #[trigger] input_edge(inputs, c, b) ==> s.contains(b))
        implies s.contains(c) by {
        let t = Set::new(|k: usize| (k as int) < units.len() && s.contains(units[k as int]@));
        assert(is_closed(g, t)) by {
            assert forall|x: usize, e: int|
                t.contains(x) && x < g.len() && 0 <= e < g[x as int].len() implies t.contains(g[x as int][e]) by {
                let i = order[x as int] as int;
                assert(inputs[i].deps[e]@ == units[g[x as int][e] as int]@);
                assert(input_edge(inputs, units[x as int]@, units[g[x as int][e] as int]@));
            }
        }
        assert forall|i: int| 0 <= i < g[u as int].len() implies t.contains(#[trigger] g[u as int][i]) by {
            let j = order[u as int] as int;
            assert(inputs[j].deps[i]@ == units[g[u as int][i] as int]@);
            assert(input_edge(inputs, c, units[g[u as int][i] as int]@));
        }
        assert(t.contains(u));
    }
}

fn find_unit(units: &Vec<Crate>, c: &Crate) -> (r: Option<usize>)
    ensures
        match r {
            Some(j) => j < units.len() && units[j as int]@ == c@,
            None => forall|j: int| 0 <= j < units.len() ==> (#[trigger] units[j])@ != c@,
        },
{
    let mut j: usize = 0;
    while j < units.len()
        invariant
            j <= units.len(),
            forall|q: int| 0 <= q < j ==> (#[trigger] units[q])@ != c@,
        decreases units.len() - j,
    {
        if same_crate(&units[j], c) {
            return Some(j);
        }
        j = j + 1;
    }
    None
}

impl Library {
    pub open spec fn graph(&self) -> Seq<Seq<usize>> {
        self.deps_1.deep_view()
    }

    /// Sizes agree, edges stay inside, `deps_oo` is the transitive
    /// dependency relation, no unit needs itself, and units are sorted.
    pub open spec fn wf(&self) -> bool {
        let n = self.units.len();
        &&& self.crate_path.len() == n
        &&& self.deps_1.len() == n
        &&& self.deps_oo.len() == n
        &&& self.exports.len() == n
        &&& graph_wf(self.graph())
        &&& forall|u: int| 0 <= u < n ==> (#[trigger] self.deps_oo[u]).len() == n
        &&& forall|u: int, x: usize| 0 <= u < n && x < n
            ==> (#[trigger] self.deps_oo[u]@[x as int] <==> reaches(self.graph(), self.graph()[u], x))
        &&& forall|u: int| 0 <= u < n ==> !(#[trigger] self.deps_oo[u]@[u])
        &&& forall|a: int, b: int| 0 <= a < b < n ==> crate_lt(self.units[a]@, self.units[b]@)
    }

    /// Builds the unit graph from what was read for each unit.
    pub fn traverse(inputs: &Vec<UnitInput>) -> (r: Result<Library, LibraryError>)
        ensures
            match r {
                Ok(lib) => {
                    &&& lib.wf()
                    &&& lib.units.len() == inputs.len()
                    &&& holds_inputs(lib, inputs@)
                    &&& !has_duplicate(inputs@)
                    &&& !has_missing(inputs@)
                },
                Err(LibraryError::DuplicateUnit(c)) => has_duplicate(inputs@) && exists|i: int, j: int|
                    0 <= i < inputs.len() && 0 <= j < inputs.len() && i != j
                        && inputs[i].unit@ == c@ && inputs[j].unit@ == c@,
                Err(LibraryError::MissingDependency(a, b)) => {
                    &&& !has_duplicate(inputs@)
                    &&& has_missing(inputs@)
                    &&& exists|i: int, e: int|
                        0 <= i < inputs.len() && 0 <= e < inputs[i].deps.len() && inputs[i].unit@ == a@
                            && (#[trigger] inputs[i].deps[e])@ == b@
                    &&& !input_units(inputs@).contains(b@)
                },
                Err(LibraryError::Cycle(c)) => {
                    &&& !has_duplicate(inputs@)
                    &&& !has_missing(inputs@)
                    &&& input_units(inputs@).contains(c@)
                    &&& on_cycle(inputs@, c@)
                },
            },
    {
        let order = match sort_inputs(inputs) {
            Ok(order) => order,
            Err(i) => {
                return Err(LibraryError::DuplicateUnit(inputs[i].unit.duplicate()));
            },
        };
        let n = inputs.len();
        let mut units: Vec<Crate> = Vec::new();
        let mut crate_path: Vec<String> = Vec::new();
        let mut exports: Vec<Vec<UseIdent>> = Vec::new();
        let mut k: usize = 0;
        while k < n
            invariant
                n == inputs.len(),
                is_permutation(order@, n as int),
                k <= n,
                units.len() == k,
                crate_path.len() == k,
                exports.len() == k,
                forall|q: int| 0 <= q < k ==> #[trigger] entry_holds(units@, crate_path@, exports@, inputs@, order@, q),
            decreases n - k,
        {
            let inp = &inputs[order[k]];
            let ghost u0 = units@;
            let ghost c0 = crate_path@;
            let ghost e0 = exports@;
            units.push(inp.unit.duplicate());
            crate_path.push(inp.entry_path.clone());
            exports.push(export_items(&inp.items));
            assert forall|q: int| 0 <= q < k + 1 implies #[trigger] entry_holds(units@, crate_path@, exports@, inputs@, order@, q) by {
                if q < k {
                    assert(entry_holds(u0, c0, e0, inputs@, order@, q));
                    assert(units@[q] == u0[q] && crate_path@[q] == c0[q] && exports@[q] == e0[q]);
                }
            }
            k = k + 1;
        }
        assert(k == n);
        proof {
            assert forall|d: (Seq<char>, Seq<char>)| input_units(inputs@).contains(d) <==> exists|q: int|
                0 <= q < n && (#[trigger] units[q])@ == d by {
                if input_units(inputs@).contains(d) {
                    let i = choose|i: int| 0 <= i < n && input_units(inputs@)[i] == d;
                    assert(order@.contains(i as usize));
                    let q = choose|q: int| 0 <= q < n && order[q] == i as usize;
                    assert(entry_holds(units@, crate_path@, exports@, inputs@, order@, q));
                    assert(units[q]@ == d);
                }
                if exists|q: int| 0 <= q < n && (#[trigger] units[q])@ == d {
                    let q = choose|q: int| 0 <= q < n && (#[trigger] units[q])@ == d;
                    assert(entry_holds(units@, crate_path@, exports@, inputs@, order@, q));
                    assert(input_units(inputs@)[order[q] as int] == d);
                }
            }
        }
        assert forall|a: int, b: int| 0 <= a < b < n implies crate_lt(units[a]@, units[b]@) by {
            assert(entry_holds(units@, crate_path@, exports@, inputs@, order@, a));
            assert(entry_holds(units@, crate_path@, exports@, inputs@, order@, b));
            assert(units[a]@ == inputs[order[a] as int].unit@);
            assert(units[b]@ == inputs[order[b] as int].unit@);
        }
        let mut deps_1: Vec<Vec<usize>> = Vec::new();
        let mut k: usize = 0;
        while k < n
            invariant
                n == inputs.len(),
                units.len() == n,
                is_permutation(order@, n as int),
                k <= n,
                deps_1.len() == k,
                !has_duplicate(inputs@),
                forall|a: int, b: int| 0 <= a < b < n ==> crate_lt(units[a]@, units[b]@),
                crate_path.len() == n,
                exports.len() == n,
                forall|q: int| 0 <= q < n ==> #[trigger] entry_holds(units@, crate_path@, exports@, inputs@, order@, q),
                forall|d: (Seq<char>, Seq<char>)| input_units(inputs@).contains(d) <==> exists|q: int|
                    0 <= q < n && (#[trigger] units[q])@ == d,
                forall|q: int| 0 <= q < k ==> {
                    &&& (#[trigger] deps_1[q]).len() == inputs[order[q] as int].deps.len()
                    &&& forall|e: int| 0 <= e < deps_1[q].len() ==> {
                        &&& (#[trigger] deps_1[q][e]) < n
                        &&& units[deps_1[q][e] as int]@ == inputs[order[q] as int].deps[e]@
                    }
                },
                forall|q: int, e: int| 0 <= q < k && 0 <= e < inputs[order[q] as int].deps.len()
                    ==> input_units(inputs@).contains((#[trigger] inputs[order[q] as int].deps[e])@),
            decreases n - k,
        {
            let inp = &inputs[order[k]];
            let mut row: Vec<usize> = Vec::new();
            let mut e: usize = 0;
            while e < inp.deps.len()
                invariant
                    n == inputs.len(),
                    units.len() == n,
                    k < n,
                    is_permutation(order@, n as int),
                    !has_duplicate(inputs@),
                    inp == inputs[order[k as int] as int],
                    e <= inp.deps.len(),
                    row.len() == e,
                    forall|d: (Seq<char>, Seq<char>)| input_units(inputs@).contains(d) <==> exists|q: int|
                        0 <= q < n && (#[trigger] units[q])@ == d,
                    forall|f: int| 0 <= f < e ==> {
                        &&& (#[trigger] row[f]) < n
                        &&& units[row[f] as int]@ == inp.deps[f]@
                    },
                    forall|f: int| 0 <= f < e ==> input_units(inputs@).contains((#[trigger] inp.deps[f])@),
                decreases inp.deps.len() - e,
            {
                match find_unit(&units, &inp.deps[e]) {
                    Some(j) => {
                        row.push(j);
                        assert(input_units(inputs@).contains(inp.deps[e as int]@));
                    },
                    None => {
                        proof {
                            let i = order[k as int] as int;
                            assert(!input_units(inputs@).contains(inp.deps[e as int]@));
                            assert(0 <= i < inputs.len() && 0 <= e < inputs@[i].deps.len());
                            assert(!input_units(inputs@).contains(inputs@[i].deps[e as int]@));
                            assert(inputs@[i].unit@ == inp.unit@);
                            assert(exists|i2: int, e2: int|
                                0 <= i2 < inputs.len() && 0 <= e2 < inputs[i2].deps.len() && inputs[i2].unit@ == inp.unit@
                                    && (#[trigger] inputs[i2].deps[e2])@ == inp.deps[e as int]@) by {
                                assert(inputs[i].deps[e as int]@ == inp.deps[e as int]@);
                            }
                            assert(has_missing(inputs@));
                        }
                        let a = inp.unit.duplicate();
                        let b = inp.deps[e].duplicate();
                        assert(!input_units(inputs@).contains(b@));
                        assert(!has_duplicate(inputs@));
                        return Err(LibraryError::MissingDependency(a, b));
                    },
                }
                e = e + 1;
            }
            deps_1.push(row);
            k = k + 1;
        }
        proof {
            assert(!has_missing(inputs@)) by {
                assert forall|i: int, e: int| 0 <= i < n && 0 <= e < inputs[i].deps.len()
                    implies input_units(inputs@).contains((#[trigger] inputs[i].deps[e])@) by {
                    assert(order@.contains(i as usize));
                    let q = choose|q: int| 0 <= q < n && order[q] == i as usize;
                    assert(input_units(inputs@).contains(inputs[order[q] as int].deps[e]@));
                }
            }
            assert(graph_wf(deps_1.deep_view())) by {
                assert forall|u: int, e: int| 0 <= u < deps_1.deep_view().len() && 0 <= e < deps_1.deep_view()[u].len()
                    implies (#[trigger] deps_1.deep_view()[u][e]) < deps_1.deep_view().len() by {
                    assert(deps_1.deep_view()[u] == deps_1[u]@);
                }
            }
        }
        let deps_oo = match transitive(&deps_1) {
            Ok(t) => t,
            Err(u) => {
                proof {
                    assert(input_units(inputs@).contains(units[u as int]@));
                    let g = deps_1.deep_view();
                    assert forall|q: int| 0 <= q < units.len() implies (#[trigger] units@[q])@ == inputs@[order@[q] as int].unit@ by {
                        assert(entry_holds(units@, crate_path@, exports@, inputs@, order@, q));
                    }
                    assert forall|q: int| 0 <= q < units.len() implies (#[trigger] g[q]).len() == inputs@[order@[q] as int].deps.len() by {
                        assert(g[q] == deps_1[q]@);
                    }
                    assert forall|q: int, e: int| 0 <= q < units.len() && 0 <= e < g[q].len()
                        implies (#[trigger] g[q][e]) < units.len() && units@[g[q][e] as int]@ == inputs@[order@[q] as int].deps[e]@ by {
                        assert(g[q] == deps_1[q]@);
                        assert(g[q][e] == deps_1[q][e]);
                    }
                    lemma_cycle_of_inputs(units@, g, inputs@, order@, u);
                }
                return Err(LibraryError::Cycle(units[u].duplicate()));
            },
        };
        let lib = Library { units, crate_path, deps_1, deps_oo, exports };
        proof {
            assert forall|k: int| 0 <= k < n implies corresponds(lib, k, #[trigger] inputs[order[k] as int]) by {
                let inp = inputs[order[k] as int];
                assert(entry_holds(lib.units@, lib.crate_path@, lib.exports@, inputs@, order@, k));
                assert(lib.units[k]@ == inp.unit@);
                assert(lib.crate_path[k]@ == inp.entry_path@);
                assert(ident_views(lib.exports[k]@) == exports_of(inp.items@));
                assert(lib.deps_1[k].len() == inp.deps.len());
                assert forall|e: int| 0 <= e < inp.deps.len() implies lib.units[lib.deps_1[k][e] as int]@ == (#[trigger] inp.deps[e])@ by {
                    assert(lib.deps_1[k][e] < n);
                }
            }
        }
        assert(holds_inputs(lib, inputs@));
        assert(lib.wf());
        assert(!has_duplicate(inputs@));
        assert(!has_missing(inputs@));
        Ok(lib)
    }
}

/// Some name in `ex` is `name`.
pub open spec fn exports_name(ex: Seq<(bool, Seq<char>)>, name: Seq<char>) -> bool {
    exists|j: int| 0 <= j < ex.len() && (#[trigger] ex[j]).1 == name
}

/// Unit `u` registers `key`: as `[category, unit, name]` or as
/// `[category, name]`, for a name that it exports.
pub open spec fn owns(lib: Library, key: Seq<Seq<char>>, u: int) -> bool {
    let ex = ident_views(lib.exports[u]@);
    ||| key.len() == 3 && lib.units[u]@ == (key[0], key[1]) && exports_name(ex, key[2])
    ||| key.len() == 2 && lib.units[u]@.0 == key[0] && exports_name(ex, key[1])
}

/// `u` is the owner of `key` in the symbol index: of the units that
/// register it, the last in unit order.
pub open spec fn owner(lib: Library, key: Seq<Seq<char>>, u: int) -> bool {
    &&& 0 <= u < lib.units.len()
    &&& owns(lib, key, u)
    &&& forall|v: int| u < v < lib.units.len() ==> !#[trigger] owns(lib, key, v)
}

/// Some unit registers `key`.
pub open spec fn resolves(lib: Library, key: Seq<Seq<char>>) -> bool {
    exists|u: int| 0 <= u < lib.units.len() && #[trigger] owns(lib, key, u)
}

/// Unit `x` is needed for the references `is_usage(items, _)`: it owns
/// one of them, or the owner of one needs it transitively.
pub open spec fn needed(lib: Library, items: Seq<Decl>, x: int) -> bool {
    exists|p: Seq<Seq<char>>, u: int|
        #![trigger is_usage(items, p), owner(lib, p, u)]
        is_usage(items, p) && owner(lib, p, u) && (x == u || lib.deps_oo[u]@[x])
}

/// The needed units below `k`, in increasing order.
pub open spec fn needed_upto(lib: Library, items: Seq<Decl>, k: int) -> Seq<usize>
    decreases k,
{
    if k <= 0 {
        Seq::empty()
    } else if needed(lib, items, k - 1) {
        needed_upto(lib, items, k - 1).push((k - 1) as usize)
    } else {
        needed_upto(lib, items, k - 1)
    }
}

fn has_name(ex: &Vec<UseIdent>, name: &String) -> (r: bool)
    ensures
        r == exports_name(ident_views(ex@), name@),
{
    let mut j: usize = 0;
    while j < ex.len()
        invariant
            j <= ex.len(),
            forall|q: int| 0 <= q < j ==> ident_views(ex@)[q].1 != name@,
        decreases ex.len() - j,
    {
        let s = ex[j].to_string();
        if s == *name {
            assert(ident_views(ex@)[j as int].1 == name@);
            return true;
        }
        j = j + 1;
    }
    assert forall|q: int| 0 <= q < ident_views(ex@).len() implies (#[trigger] ident_views(ex@)[q]).1 != name@ by {}
    false
}

impl Library {
    fn owns_key(&self, key: &Vec<String>, u: usize) -> (r: bool)
        requires
            self.wf(),
            u < self.units.len(),
        ensures
            r == owns(*self, key.deep_view(), u as int),
    {
        let c = &self.units[u];
        let ghost kv = key.deep_view();
        if key.len() == 3 {
            assert(kv[0] == key[0]@ && kv[1] == key[1]@ && kv[2] == key[2]@);
            c.category_name == key[0] && c.crate_name == key[1] && has_name(&self.exports[u], &key[2])
        } else if key.len() == 2 {
            assert(kv[0] == key[0]@ && kv[1] == key[1]@);
            c.category_name == key[0] && has_name(&self.exports[u], &key[1])
        } else {
            false
        }
    }

    /// The unit that owns `key` in the symbol index.
    pub fn find_symbol(&self, key: &Vec<String>) -> (r: Option<usize>)
        requires
            self.wf(),
        ensures
            match r {
                Some(u) => owner(*self, key.deep_view(), u as int),
                None => !resolves(*self, key.deep_view()),
            },
    {
        let mut v: usize = self.units.len();
        while v > 0
            invariant
                self.wf(),
                v <= self.units.len(),
                forall|w: int| v <= w < self.units.len() ==> !#[trigger] owns(*self, key.deep_view(), w),
            decreases v,
        {
            if self.owns_key(key, v - 1) {
                return Some(v - 1);
            }
            v = v - 1;
        }
        None
    }

    fn required_of(&self, uses: &Vec<Vec<String>>, items: Ghost<Seq<Decl>>) -> (r: Result<Vec<usize>, Vec<String>>)
        requires
            self.wf(),
            uses.deep_view().no_duplicates(),
            forall|p: Seq<Seq<char>>| uses.deep_view().contains(p) <==> is_usage(items@, p),
        ensures
            match r {
                Ok(req) => {
                    &&& req@ == needed_upto(*self, items@, self.units.len() as int)
                    &&& forall|p: Seq<Seq<char>>| is_usage(items@, p) ==> resolves(*self, p)
                },
                Err(p) => is_usage(items@, p.deep_view()) && !resolves(*self, p.deep_view()),
            },
    {
        let n = self.units.len();
        let mut roots: Vec<usize> = Vec::new();
        let mut i: usize = 0;
        while i < uses.len()
            invariant
                self.wf(),
                n == self.units.len(),
                i <= uses.len(),
                roots.len() == i,
                forall|p: Seq<Seq<char>>| uses.deep_view().contains(p) <==> is_usage(items@, p),
                forall|q: int| 0 <= q < i ==> owner(*self, uses.deep_view()[q], #[trigger] roots[q] as int),
            decreases uses.len() - i,
        {
            assert(uses[i as int].deep_view() == uses.deep_view()[i as int]);
            match self.find_symbol(&uses[i]) {
                Some(u) => {
                    roots.push(u);
                },
                None => {
                    assert(uses.deep_view().contains(uses.deep_view()[i as int]));
                    return Err(uses[i].clone());
                },
            }
            i = i + 1;
        }
        let mut m: Vec<bool> = Vec::new();
        let mut x: usize = 0;
        while x < n
            invariant
                x <= n,
                m.len() == x,
                forall|y: int| 0 <= y < x ==> !m[y],
            decreases n - x,
        {
            m.push(false);
            x = x + 1;
        }
        let mut j: usize = 0;
        while j < roots.len()
            invariant
                self.wf(),
                n == self.units.len(),
                roots.len() == uses.len(),
                forall|q: int| 0 <= q < roots.len() ==> owner(*self, uses.deep_view()[q], #[trigger] roots[q] as int),
                j <= roots.len(),
                m.len() == n,
                forall|y: int| 0 <= y < n ==> (m[y] <==> exists|q: int|
                    0 <= q < j && (y == #[trigger] roots[q] || self.deps_oo[roots[q] as int]@[y])),
            decreases roots.len() - j,
        {
            let r = roots[j];
            m.set(r, true);
            let row = &self.deps_oo[r];
            let mut y: usize = 0;
            while y < n
                invariant
                    self.wf(),
                    n == self.units.len(),
                    r < n,
                    row@ == self.deps_oo[r as int]@,
                    y <= n,
                    m.len() == n,
                    m[r as int],
                    forall|z: int| 0 <= z < n ==> (m[z] <==> ((exists|q: int|
                        0 <= q < j && (z == #[trigger] roots[q] || self.deps_oo[roots[q] as int]@[z]))
                        || z == r || (z < y && self.deps_oo[r as int]@[z]))),
                decreases n - y,
            {
                if row[y] {
                    m.set(y, true);
                }
                y = y + 1;
            }
            proof {
                assert forall|z: int| 0 <= z < n implies (m[z] <==> exists|q: int|
                    0 <= q < j + 1 && (z == #[trigger] roots[q] || self.deps_oo[roots[q] as int]@[z])) by {
                    if m[z] && !(exists|q: int| 0 <= q < j && (z == #[trigger] roots[q] || self.deps_oo[roots[q] as int]@[z])) {
                        assert(z == roots[j as int] || self.deps_oo[roots[j as int] as int]@[z]);
                    }
                }
            }
            j = j + 1;
        }
        proof {
            assert forall|y: int| 0 <= y < n implies (m[y] <==> needed(*self, items@, y)) by {
                if m[y] {
                    let q = choose|q: int| 0 <= q < roots.len() && (y == #[trigger] roots[q] || self.deps_oo[roots[q] as int]@[y]);
                    let p = uses.deep_view()[q];
                    assert(uses.deep_view().contains(p));
                    assert(is_usage(items@, p) && owner(*self, p, roots[q] as int));
                }
                if needed(*self, items@, y) {
                    let (p, u) = choose|p: Seq<Seq<char>>, u: int|
                        #![trigger is_usage(items@, p), owner(*self, p, u)]
                        is_usage(items@, p) && owner(*self, p, u) && (y == u || self.deps_oo[u]@[y]);
                    assert(uses.deep_view().contains(p));
                    let q = choose|q: int| 0 <= q < uses.deep_view().len() && uses.deep_view()[q] == p;
                    assert(owner(*self, p, roots[q] as int));
                    assert(roots[q] as int == u) by {
                        if (roots[q] as int) < u {
                            assert(!owns(*self, p, u));
                        } else if (roots[q] as int) > u {
                            assert(!owns(*self, p, roots[q] as int));
                        }
                    }
                }
            }
            assert forall|p: Seq<Seq<char>>| is_usage(items@, p) implies resolves(*self, p) by {
                assert(uses.deep_view().contains(p));
                let q = choose|q: int| 0 <= q < uses.deep_view().len() && uses.deep_view()[q] == p;
                assert(owns(*self, p, roots[q] as int));
            }
        }
        let mut req: Vec<usize> = Vec::new();
        let mut x: usize = 0;
        while x < n
            invariant
                self.wf(),
                n == self.units.len(),
                x <= n,
                m.len() == n,
                forall|y: int| 0 <= y < n ==> (m[y] <==> needed(*self, items@, y)),
                req@ == needed_upto(*self, items@, x as int),
            decreases n - x,
        {
            if m[x] {
                req.push(x);
            }
            x = x + 1;
        }
        Ok(req)
    }

    /// The units that `source` needs, in unit order (so sorted by
    /// category and name); `Err` holds a reference that no unit registers.
    pub fn required(&self, source: &Source) -> (r: Result<Vec<usize>, Vec<String>>)
        requires
            self.wf(),
        ensures
            match r {
                Ok(req) => {
                    &&& req@ == needed_upto(*self, source.items@, self.units.len() as int)
                    &&& forall|p: Seq<Seq<char>>| is_usage(source.items@, p) ==> resolves(*self, p)
                },
                Err(p) => is_usage(source.items@, p.deep_view()) && !resolves(*self, p.deep_view()),
            },
    {
        let uses = source.get_uses();
        self.required_of(&uses, Ghost(source.items@))
    }
}

/// Without references no unit is needed.
pub proof fn lemma_nothing_needed(lib: Library, items: Seq<Decl>, k: int)
    requires
        forall|p: Seq<Seq<char>>| !is_usage(items, p),
    ensures
        needed_upto(lib, items, k).len() == 0,
    decreases k,
{
    if k > 0 {
        lemma_nothing_needed(lib, items, k - 1);
    }
}

/// The needed units below `k` are below `k`.
pub proof fn lemma_needed_upto_bounded(lib: Library, items: Seq<Decl>, k: int)
    requires
        k <= usize::MAX,
    ensures
        forall|q: int| 0 <= q < needed_upto(lib, items, k).len() ==> (#[trigger] needed_upto(lib, items, k)[q]) < k,
    decreases k,
{
    if k > 0 {
        lemma_needed_upto_bounded(lib, items, k - 1);
        let prev = needed_upto(lib, items, k - 1);
        let cur = needed_upto(lib, items, k);
        assert forall|q: int| 0 <= q < cur.len() implies (#[trigger] cur[q]) < k by {
            if q < prev.len() {
                assert(cur[q] == prev[q]);
            }
        }
    }
}

/// Every direct dependency of a needed unit is needed too.
pub proof fn lemma_required_closed(lib: Library, items: Seq<Decl>, x: int, e: int)
    requires
        lib.wf(),
        0 <= x < lib.units.len(),
        0 <= e < lib.graph()[x].len(),
        needed(lib, items, x),
    ensures
        needed(lib, items, lib.graph()[x][e] as int),
{
    let g = lib.graph();
    let d = g[x][e];
    let (p, u) = choose|p: Seq<Seq<char>>, u: int|
        #![trigger is_usage(items, p), owner(lib, p, u)]
        is_usage(items, p) && owner(lib, p, u) && (x == u || lib.deps_oo[u]@[x]);
    assert(d < lib.units.len());
    assert(reaches(g, g[u], d)) by {
        assert forall|s: Set<usize>|
            is_closed(g, s) && (forall|i: int| 0 <= i < g[u].len() ==> s.contains(#[trigger] g[u][i]))
            implies s.contains(d) by {
            if x == u {
                assert(s.contains(g[u][e]));
            } else {
                assert(reaches(g, g[u], x as usize));
                assert(s.contains(x as usize));
                assert(s.contains(g[x as usize as int][e]));
            }
        }
    }
    assert(lib.deps_oo[u]@[d as int]);
}

/// Strictly increasing in unit order.
pub open spec fn strictly_sorted(s: Seq<(Seq<char>, Seq<char>)>) -> bool {
    forall|a: int, b: int| 0 <= a < b < s.len() ==> crate_lt(s[a], s[b])
}

/// The identities of a library's units, in its order.
pub open spec fn unit_views(lib: Library) -> Seq<(Seq<char>, Seq<char>)> {
    lib.units@.map_values(|c: Crate| c@)
}

proof fn lemma_sorted_unique(a: Seq<(Seq<char>, Seq<char>)>, b: Seq<(Seq<char>, Seq<char>)>)
    requires
        strictly_sorted(a),
        strictly_sorted(b),
        forall|x: (Seq<char>, Seq<char>)| a.contains(x) <==> b.contains(x),
    ensures
        a == b,
    decreases a.len(),
{
    if a.len() == 0 {
        if b.len() > 0 {
            assert(b.contains(b[0]));
        }
        assert(a =~= b);
    } else {
        assert(a.contains(a[0]));
        assert(b.contains(a[0]));
        let j = choose|j: int| 0 <= j < b.len() && b[j] == a[0];
        assert(b.contains(b[0]));
        assert(a.contains(b[0]));
        let i = choose|i: int| 0 <= i < a.len() && a[i] == b[0];
        if j > 0 {
            assert(crate_lt(b[0], a[0]));
            if i > 0 {
                assert(crate_lt(a[0], b[0]));
            }
            lemma_crate_lt_total(a[0], b[0]);
        }
        assert(a[0] == b[0]);
        let a1 = a.drop_first();
        let b1 = b.drop_first();
        assert forall|x: (Seq<char>, Seq<char>)| a1.contains(x) <==> b1.contains(x) by {
            if a1.contains(x) {
                let w = choose|w: int| 0 <= w < a1.len() && a1[w] == x;
                assert(a[w + 1] == x);
                assert(crate_lt(a[0], x));
                lemma_crate_lt_total(a[0], x);
                assert(b.contains(x));
                let v = choose|v: int| 0 <= v < b.len() && b[v] == x;
                assert(v != 0);
                assert(b1[v - 1] == x);
            }
            if b1.contains(x) {
                let w = choose|w: int| 0 <= w < b1.len() && b1[w] == x;
                assert(b[w + 1] == x);
                assert(crate_lt(b[0], x));
                lemma_crate_lt_total(b[0], x);
                assert(a.contains(x));
                let v = choose|v: int| 0 <= v < a.len() && a[v] == x;
                assert(v != 0);
                assert(a1[v - 1] == x);
            }
        }
        lemma_sorted_unique(a1, b1);
        assert(a =~= seq![a[0]] + a1);
        assert(b =~= seq![b[0]] + b1);
    }
}

/// Units come out in the same order whatever order their inputs were read
/// in: two libraries built from inputs that name the same units list those
/// units alike.
pub proof fn lemma_unit_order_determined(l1: Library, in1: Seq<UnitInput>, l2: Library, in2: Seq<UnitInput>)
    requires
        l1.wf(),
        l2.wf(),
        l1.units.len() == in1.len(),
        l2.units.len() == in2.len(),
        holds_inputs(l1, in1),
        holds_inputs(l2, in2),
        forall|x: (Seq<char>, Seq<char>)| input_units(in1).contains(x) <==> input_units(in2).contains(x),
    ensures
        unit_views(l1) == unit_views(l2),
{
    lemma_units_are_inputs(l1, in1);
    lemma_units_are_inputs(l2, in2);
    lemma_sorted_unique(unit_views(l1), unit_views(l2));
}

proof fn lemma_units_are_inputs(lib: Library, inputs: Seq<UnitInput>)
    requires
        lib.wf(),
        lib.units.len() == inputs.len(),
        holds_inputs(lib, inputs),
    ensures
        strictly_sorted(unit_views(lib)),
        forall|x: (Seq<char>, Seq<char>)| unit_views(lib).contains(x) <==> input_units(inputs).contains(x),
{
    let order = choose|order: Seq<usize>|
        is_permutation(order, inputs.len() as int) && forall|k: int|
            0 <= k < inputs.len() ==> #[trigger] corresponds(lib, k, inputs[order[k] as int]);
    let uv = unit_views(lib);
    assert forall|x: (Seq<char>, Seq<char>)| uv.contains(x) <==> input_units(inputs).contains(x) by {
        if uv.contains(x) {
            let k = choose|k: int| 0 <= k < uv.len() && uv[k] == x;
            assert(corresponds(lib, k, inputs[order[k] as int]));
            assert(input_units(inputs)[order[k] as int] == x);
        }
        if input_units(inputs).contains(x) {
            let i = choose|i: int| 0 <= i < inputs.len() && input_units(inputs)[i] == x;
            assert(order.contains(i as usize));
            let k = choose|k: int| 0 <= k < order.len() && order[k] == i as usize;
            assert(corresponds(lib, k, inputs[order[k] as int]));
            assert(uv[k] == x);
        }
    }
}

/// Entry `k` has the same entry file and exports in both libraries.
pub open spec fn same_entry(l1: Library, l2: Library, k: int) -> bool {
    &&& l1.crate_path[k]@ == l2.crate_path[k]@
    &&& ident_views(l1.exports[k]@) == ident_views(l2.exports[k]@)
}

/// A library's entries do not depend on the order in which the inputs were
/// read: built from the same inputs in any order, two libraries list the
/// same units with the same entry files, exports and dependency edges.
pub proof fn lemma_library_determined(l1: Library, in1: Seq<UnitInput>, l2: Library, in2: Seq<UnitInput>)
    requires
        l1.wf(),
        l2.wf(),
        l1.units.len() == in1.len(),
        l2.units.len() == in2.len(),
        holds_inputs(l1, in1),
        holds_inputs(l2, in2),
        !has_duplicate(in2),
        forall|i: int| 0 <= i < in1.len() ==> exists|j: int| 0 <= j < in2.len() && in2[j] == #[trigger] in1[i],
        forall|j: int| 0 <= j < in2.len() ==> exists|i: int| 0 <= i < in1.len() && in1[i] == #[trigger] in2[j],
    ensures
        unit_views(l1) == unit_views(l2),
        l1.graph() == l2.graph(),
        forall|k: int| 0 <= k < l1.units.len() ==> #[trigger] same_entry(l1, l2, k),
{
    assert forall|x: (Seq<char>, Seq<char>)| input_units(in1).contains(x) <==> input_units(in2).contains(x) by {
        if input_units(in1).contains(x) {
            let i = choose|i: int| 0 <= i < in1.len() && input_units(in1)[i] == x;
            assert(in1[i] == in1[i]);
            let j = choose|j: int| 0 <= j < in2.len() && in2[j] == in1[i];
            assert(input_units(in2)[j] == x);
        }
        if input_units(in2).contains(x) {
            let j = choose|j: int| 0 <= j < in2.len() && input_units(in2)[j] == x;
            assert(in2[j] == in2[j]);
            let i = choose|i: int| 0 <= i < in1.len() && in1[i] == in2[j];
            assert(input_units(in1)[i] == x);
        }
    }
    lemma_unit_order_determined(l1, in1, l2, in2);
    let uv = unit_views(l1);
    let o1 = choose|order: Seq<usize>|
        is_permutation(order, in1.len() as int) && forall|k: int|
            0 <= k < in1.len() ==> #[trigger] corresponds(l1, k, in1[order[k] as int]);
    let o2 = choose|order: Seq<usize>|
        is_permutation(order, in2.len() as int) && forall|k: int|
            0 <= k < in2.len() ==> #[trigger] corresponds(l2, k, in2[order[k] as int]);
    assert(uv.len() == unit_views(l2).len());
    assert forall|k: int| 0 <= k < l1.units.len() implies in1[o1[k] as int] == in2[o2[k] as int] by {
        assert(corresponds(l1, k, in1[o1[k] as int]));
        assert(corresponds(l2, k, in2[o2[k] as int]));
        let inp = in1[o1[k] as int];
        let j = choose|j: int| 0 <= j < in2.len() && in2[j] == inp;
        assert(uv[k] == unit_views(l2)[k]);
        if j != o2[k] as int {
            assert(in2[j].unit@ == in2[o2[k] as int].unit@);
        }
    }
    assert forall|k: int| 0 <= k < l1.units.len() implies l1.deps_1[k]@ == l2.deps_1[k]@ by {
        let inp = in1[o1[k] as int];
        assert(corresponds(l1, k, inp));
        assert(corresponds(l2, k, in2[o2[k] as int]));
        assert forall|e: int| 0 <= e < l1.deps_1[k].len() implies l1.deps_1[k][e] == l2.deps_1[k][e] by {
            let a = l1.deps_1[k][e] as int;
            let b = l2.deps_1[k][e] as int;
            assert(l1.graph()[k][e] == l1.deps_1[k][e]);
            assert(l2.graph()[k][e] == l2.deps_1[k][e]);
            assert(in1[o1[k] as int] == in2[o2[k] as int]);
            assert(l1.units[a]@ == inp.deps[e]@);
            assert(l2.units[b]@ == in2[o2[k] as int].deps[e]@);
            assert(uv[a] == l1.units[a]@);
            assert(unit_views(l2)[b] == l2.units[b]@);
            assert(uv[a] == unit_views(l2)[b]);
            if a < b {
                assert(crate_lt(uv[a], uv[b]));
                lemma_crate_lt_total(uv[a], uv[b]);
            } else if b < a {
                assert(crate_lt(uv[b], uv[a]));
                lemma_crate_lt_total(uv[a], uv[b]);
            }
        }
        assert(l1.deps_1[k]@ =~= l2.deps_1[k]@);
    }
    assert(l1.graph() =~= l2.graph()) by {
        assert forall|k: int| 0 <= k < l1.graph().len() implies l1.graph()[k] == l2.graph()[k] by {
            assert(l1.graph()[k] == l1.deps_1[k]@);
            assert(l2.graph()[k] == l2.deps_1[k]@);
        }
    }
    assert forall|k: int| 0 <= k < l1.units.len() implies #[trigger] same_entry(l1, l2, k) by {
        assert(corresponds(l1, k, in1[o1[k] as int]));
        assert(corresponds(l2, k, in2[o2[k] as int]));
        assert(in1[o1[k] as int] == in2[o2[k] as int]);
    }
}

} // verus!
