//! The text of a bundle: the consumer source followed by one module that
//! nests every needed unit under its category.
use vstd::prelude::*;
use vstd::string::*;
use crate::exports::ident_views;
use crate::library::{needed_upto, resolves, Library};
use crate::metadata::Metadata;
use crate::source::{is_usage, Source};
use crate::unit::UseIdent;

verus! {

broadcast use vstd::std_specs::vec::group_vec_axioms;

/// The import that makes dependency `d` visible inside a unit.
pub open spec fn dep_line(lib: Library, d: usize) -> Seq<char> {
    "        use crate::nekolib::"@ + lib.units[d as int]@.0 + "::"@ + lib.units[d as int]@.1 + ";"@
}

/// The imports of the first `k` direct dependencies of unit `u`.
pub open spec fn dep_lines(lib: Library, u: int, k: int) -> Seq<char>
    decreases k,
{
    if k <= 0 {
        Seq::empty()
    } else {
        dep_lines(lib, u, k - 1) + dep_line(lib, lib.graph()[u][k - 1])
    }
}

/// The names of the exported macros among `ex`, in order.
pub open spec fn macro_names(ex: Seq<(bool, Seq<char>)>) -> Seq<Seq<char>>
    decreases ex.len(),
{
    if ex.len() == 0 {
        Seq::empty()
    } else if ex.last().0 {
        macro_names(ex.drop_last()).push(ex.last().1)
    } else {
        macro_names(ex.drop_last())
    }
}

/// `names` separated by `, `.
pub open spec fn join(names: Seq<Seq<char>>) -> Seq<char>
    decreases names.len(),
{
    if names.len() == 0 {
        Seq::empty()
    } else if names.len() == 1 {
        names[0]
    } else {
        join(names.drop_last()) + ", "@ + names.last()
    }
}

/// The re-export of unit `u`'s exported macros, if it has any.
pub open spec fn macro_line(lib: Library, u: int) -> Seq<char> {
    let ms = macro_names(ident_views(lib.exports[u]@));
    if ms.len() == 0 {
        Seq::empty()
    } else {
        "        pub(crate) use {"@ + join(ms) + "};\n"@
    }
}

/// Unit `u` with body `body`, nested under its own name and promoted one
/// level up.
pub open spec fn unit_block(lib: Library, u: int, body: Seq<char>) -> Seq<char> {
    let name = lib.units[u]@.1;
    "    pub mod "@ + name + " {\n"@ + dep_lines(lib, u, lib.graph()[u].len() as int) + body + macro_line(lib, u)
        + "    }\n"@ + "    #[allow(unused_imports)]\n"@ + "    pub use "@ + name + "::*;\n"@
}

/// What precedes the `k`-th needed unit: the opening of its category
/// where it starts one, after closing the previous one.
pub open spec fn category_open(lib: Library, req: Seq<usize>, k: int) -> Seq<char> {
    let cat = lib.units[req[k] as int]@.0;
    if k == 0 {
        "pub mod "@ + cat + " {\n"@
    } else if cat != lib.units[req[k - 1] as int]@.0 {
        "}\n"@ + "pub mod "@ + cat + " {\n"@
    } else {
        Seq::empty()
    }
}

/// The first `k` needed units, grouped by category.
pub open spec fn units_text(lib: Library, req: Seq<usize>, bodies: Seq<Seq<char>>, k: int) -> Seq<char>
    decreases k,
{
    if k <= 0 {
        Seq::empty()
    } else {
        units_text(lib, req, bodies, k - 1) + category_open(lib, req, k - 1)
            + unit_block(lib, req[k - 1] as int, bodies[req[k - 1] as int])
    }
}

/// The comment that stamps the bundle with the library's revision.
pub open spec fn header(commit: Seq<char>) -> Seq<char> {
    "\n/// This module is bundled automatically.\n/// See <https://rsk0315.github.io/nekolib/nekolib_doc/index.html> for documentation.\n/// Commit: "@
        + commit + "\n#[allow(unused)]\n"@
}

/// The whole bundle: the consumer text alone when nothing is needed.
pub open spec fn bundle_text(
    lib: Library,
    content: Seq<char>,
    commit: Seq<char>,
    req: Seq<usize>,
    bodies: Seq<Seq<char>>,
) -> Seq<char> {
    if req.len() == 0 {
        content
    } else {
        content + header(commit) + "pub mod nekolib {"@ + units_text(lib, req, bodies, req.len() as int) + "}\n"@
            + "}\n"@
    }
}

fn macro_list(ex: &Vec<UseIdent>) -> (r: (String, usize))
    ensures
        r.0@ == join(macro_names(ident_views(ex@))),
        r.1 == macro_names(ident_views(ex@)).len(),
{
    let mut r = String::new();
    let mut count: usize = 0;
    let mut j: usize = 0;
    while j < ex.len()
        invariant
            j <= ex.len(),
            count <= j,
            count == macro_names(ident_views(ex@.subrange(0, j as int))).len(),
            r@ == join(macro_names(ident_views(ex@.subrange(0, j as int)))),
        decreases ex.len() - j,
    {
        let ghost pre = ident_views(ex@.subrange(0, j as int));
        assert(ident_views(ex@.subrange(0, j + 1)).drop_last() =~= pre);
        assert(ident_views(ex@.subrange(0, j + 1)).last() == ex@[j as int]@);
        match &ex[j] {
            UseIdent::MacroExport(name) => {
                let ghost ms = macro_names(pre);
                assert(macro_names(ident_views(ex@.subrange(0, j + 1))) == ms.push(name@));
                assert(ms.push(name@).drop_last() =~= ms);
                if count > 0 {
                    r.append(", ");
                }
                r.append(name.as_str());
                count = count + 1;
            },
            UseIdent::PubItem(_) => {},
        }
        j = j + 1;
    }
    assert(ex@.subrange(0, ex.len() as int) =~= ex@);
    (r, count)
}

impl Library {
    fn dep_text(&self, u: usize) -> (r: String)
        requires
            self.wf(),
            u < self.units.len(),
        ensures
            r@ == dep_lines(*self, u as int, self.graph()[u as int].len() as int),
    {
        let row = &self.deps_1[u];
        assert(row@ == self.graph()[u as int]);
        let mut r = String::new();
        let mut e: usize = 0;
        while e < row.len()
            invariant
                self.wf(),
                u < self.units.len(),
                row@ == self.graph()[u as int],
                e <= row.len(),
                r@ == dep_lines(*self, u as int, e as int),
            decreases row.len() - e,
        {
            let d = row[e];
            assert(d < self.units.len());
            let c = &self.units[d];
            r.append("        use crate::nekolib::");
            r.append(c.category_name.as_str());
            r.append("::");
            r.append(c.crate_name.as_str());
            r.append(";");
            e = e + 1;
        }
        r
    }

    fn unit_text(&self, u: usize, body: &String) -> (r: String)
        requires
            self.wf(),
            u < self.units.len(),
        ensures
            r@ == unit_block(*self, u as int, body@),
    {
        let name = self.units[u].crate_name.as_str();
        let mut r = String::new();
        r.append("    pub mod ");
        r.append(name);
        r.append(" {\n");
        let deps = self.dep_text(u);
        r.append(deps.as_str());
        r.append(body.as_str());
        let (mx, count) = macro_list(&self.exports[u]);
        if count > 0 {
            r.append("        pub(crate) use {");
            r.append(mx.as_str());
            r.append("};\n");
        }
        r.append("    }\n");
        r.append("    #[allow(unused_imports)]\n");
        r.append("    pub use ");
        r.append(name);
        r.append("::*;\n");
        r
    }

    /// The consumer source followed by the needed units, each given its
    /// flattened and polished text in `bodies` (indexed by unit). `Err`
    /// holds a reference that no unit registers.
    pub fn bundle(&self, source: &Source, metadata: &Metadata, bodies: &Vec<String>) -> (r: Result<String, Vec<String>>)
        requires
            self.wf(),
            bodies.len() == self.units.len(),
        ensures
            match r {
                Ok(s) => {
                    &&& s@ == bundle_text(*self, source.content@, metadata.commit@,
                        needed_upto(*self, source.items@, self.units.len() as int), bodies.deep_view())
                    &&& forall|p: Seq<Seq<char>>| is_usage(source.items@, p) ==> resolves(*self, p)
                },
                Err(p) => is_usage(source.items@, p.deep_view()) && !resolves(*self, p.deep_view()),
            },
            (forall|p: Seq<Seq<char>>| !is_usage(source.items@, p)) ==> (r is Ok && r->Ok_0@ == source.content@),
    {
        let req = match self.required(source) {
            Ok(req) => req,
            Err(p) => {
                return Err(p);
            },
        };
        proof {
            if forall|p: Seq<Seq<char>>| !is_usage(source.items@, p) {
                crate::library::lemma_nothing_needed(*self, source.items@, self.units.len() as int);
            }
        }
        proof {
            crate::library::lemma_needed_upto_bounded(*self, source.items@, self.units.len() as int);
        }
        let mut res = String::from_str(source.get_code());
        if req.len() == 0 {
            return Ok(res);
        }
        res.append("\n/// This module is bundled automatically.\n/// See <https://rsk0315.github.io/nekolib/nekolib_doc/index.html> for documentation.\n/// Commit: ");
        res.append(metadata.get_commit());
        res.append("\n#[allow(unused)]\n");
        res.append("pub mod nekolib {");
        let ghost start = res@;
        let ghost bv = bodies.deep_view();
        let mut k: usize = 0;
        while k < req.len()
            invariant
                self.wf(),
                bodies.len() == self.units.len(),
                bv == bodies.deep_view(),
                req@ == needed_upto(*self, source.items@, self.units.len() as int),
                forall|q: int| 0 <= q < req.len() ==> (#[trigger] req[q]) < self.units.len(),
                k <= req.len(),
                res@ == start + units_text(*self, req@, bv, k as int),
            decreases req.len() - k,
        {
            let u = req[k];
            let cat = self.units[u].category_name.as_str();
            if k == 0 {
                res.append("pub mod ");
                res.append(cat);
                res.append(" {\n");
            } else if self.units[u].category_name != self.units[req[k - 1]].category_name {
                res.append("}\n");
                res.append("pub mod ");
                res.append(cat);
                res.append(" {\n");
            }
            assert(bodies[u as int]@ == bv[u as int]);
            let block = self.unit_text(u, &bodies[u]);
            res.append(block.as_str());
            assert(res@ =~= start + units_text(*self, req@, bv, k + 1));
            k = k + 1;
        }
        res.append("}\n");
        res.append("}\n");
        Ok(res)
    }
}

} // verus!
