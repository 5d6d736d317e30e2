//! Locating the file behind a `mod name;` declaration and splicing that
//! file's content in its place.
use vstd::prelude::*;
use vstd::string::*;
use crate::syntax::{Attr, Decl, Meta};
use crate::unit::{file_name, last_slash, parent, substring};

verus! {

broadcast use vstd::std_specs::vec::group_vec_axioms;

/// The value of the first outer `#[path = "..."]` attribute, if any.
pub open spec fn path_override(attrs: Seq<Attr>) -> Option<Seq<char>>
    decreases attrs.len(),
{
    if attrs.len() == 0 {
        None
    } else {
        let a = attrs[0];
        match a.meta {
            Meta::NameValue(Some(v)) => if !a.inner && a.name@ == "path"@ {
                Some(v@)
            } else {
                path_override(attrs.drop_first())
            },
            _ => path_override(attrs.drop_first()),
        }
    }
}

/// `p` taken relative to the directory `dir`: an absolute `p` stands
/// alone, and so does any `p` beside an empty `dir`.
pub open spec fn join_path(dir: Seq<char>, p: Seq<char>) -> Seq<char> {
    if (p.len() > 0 && p[0] == '/') || dir.len() == 0 {
        p
    } else {
        dir + seq!['/'] + p
    }
}

/// Index of the last `.` in `s`, or -1.
pub open spec fn last_dot(s: Seq<char>) -> int
    decreases s.len(),
{
    if s.len() == 0 {
        -1
    } else if s.last() == '.' {
        s.len() - 1
    } else {
        last_dot(s.drop_last())
    }
}

/// A file name without its extension (a leading dot starts no
/// extension).
pub open spec fn file_stem(f: Seq<char>) -> Seq<char> {
    if last_dot(f) <= 0 {
        f
    } else {
        f.subrange(0, last_dot(f))
    }
}

/// Where the module `name` declared in the file `main` lives.
pub open spec fn mod_path(main: Seq<char>, name: Seq<char>, attrs: Seq<Attr>) -> Seq<char> {
    let dir = parent(main);
    let stem = file_stem(file_name(main));
    match path_override(attrs) {
        Some(p) => join_path(dir, p),
        None => if stem == "mod"@ || stem == "lib"@ {
            join_path(dir, name + ".rs"@)
        } else {
            join_path(join_path(dir, stem), name + ".rs"@)
        },
    }
}

fn find_override(attrs: &Vec<Attr>) -> (r: Option<String>)
    ensures
        match r {
            Some(v) => path_override(attrs@) == Some(v@),
            None => path_override(attrs@) is None,
        },
{
    let key = String::from_str("path");
    let mut i: usize = 0;
    assert(attrs@.subrange(0, attrs.len() as int) =~= attrs@);
    while i < attrs.len()
        invariant
            i <= attrs.len(),
            key@ == "path"@,
            path_override(attrs@) == path_override(attrs@.subrange(i as int, attrs.len() as int)),
        decreases attrs.len() - i,
    {
        let ghost rest = attrs@.subrange(i as int, attrs.len() as int);
        assert(rest[0] == attrs@[i as int]);
        assert(rest.drop_first() =~= attrs@.subrange(i + 1, attrs.len() as int));
        let a = &attrs[i];
        if let Meta::NameValue(Some(v)) = &a.meta {
            if !a.inner && a.name == key {
                return Some(v.clone());
            }
        }
        i = i + 1;
    }
    assert(attrs@.subrange(i as int, attrs.len() as int).len() == 0);
    None
}

fn join(dir: &str, p: &str) -> (r: String)
    ensures
        r@ == join_path(dir@, p@),
{
    let absolute = p.unicode_len() > 0 && p.get_char(0) == '/';
    if absolute || dir.unicode_len() == 0 {
        String::from_str(p)
    } else {
        let mut r = String::from_str(dir);
        r.append("/");
        r.append(p);
        proof {
            reveal_strlit("/");
        }
        assert(r@ =~= dir@ + seq!['/'] + p@);
        r
    }
}

proof fn lemma_last_dot(s: Seq<char>)
    ensures
        -1 <= last_dot(s) < s.len(),
    decreases s.len(),
{
    if s.len() > 0 && s.last() != '.' {
        lemma_last_dot(s.drop_last());
    }
}

proof fn lemma_last_slash_bounds(s: Seq<char>)
    ensures
        -1 <= last_slash(s) < s.len(),
    decreases s.len(),
{
    if s.len() > 0 && s.last() != '/' {
        lemma_last_slash_bounds(s.drop_last());
    }
}

/// `last_dot(s[0..end])`, scanning backwards.
fn find_last_dot(s: &str, end: usize) -> (r: usize)
    requires
        end <= s@.len(),
    ensures
        r as int == last_dot(s@.subrange(0, end as int)) + 1,
{
    let mut k: usize = end;
    while k > 0
        invariant
            k <= end <= s@.len(),
            last_dot(s@.subrange(0, end as int)) == last_dot(s@.subrange(0, k as int)),
        decreases k,
    {
        if s.get_char(k - 1) == '.' {
            return k;
        }
        assert(s@.subrange(0, k as int).drop_last() =~= s@.subrange(0, k - 1));
        k = k - 1;
    }
    0
}

/// `last_slash(s[0..end])`, scanning backwards.
fn find_last_slash_at(s: &str, end: usize) -> (r: usize)
    requires
        end <= s@.len(),
    ensures
        r as int == last_slash(s@.subrange(0, end as int)) + 1,
{
    let mut k: usize = end;
    while k > 0
        invariant
            k <= end <= s@.len(),
            last_slash(s@.subrange(0, end as int)) == last_slash(s@.subrange(0, k as int)),
        decreases k,
    {
        if s.get_char(k - 1) == '/' {
            return k;
        }
        assert(s@.subrange(0, k as int).drop_last() =~= s@.subrange(0, k - 1));
        k = k - 1;
    }
    0
}

/// The path of the file that holds the module declared by `item_mod`
/// inside the file `main_path`: the `#[path]` override relative to that
/// file's directory if there is one; otherwise `name.rs` beside a
/// `mod.rs` or `lib.rs`, or inside the directory named after any other
/// file's stem.
pub fn resolve_mod_source(main_path: &str, item_mod: &Decl) -> (r: String)
    requires
        item_mod.ident is Some,
    ensures
        r@ == mod_path(main_path@, item_mod.ident->Some_0@, item_mod.attrs@),
{
    let n = main_path.unicode_len();
    let slash = find_last_slash_at(main_path, n);
    proof {
        assert(main_path@.subrange(0, n as int) =~= main_path@);
        lemma_last_slash_bounds(main_path@);
    }
    let dir = if slash == 0 { String::new() } else { substring(main_path, 0, slash - 1) };
    assert(dir@ =~= parent(main_path@));
    let file = substring(main_path, slash, n);
    assert(file@ =~= file_name(main_path@));
    let fl = file.unicode_len();
    let dot = find_last_dot(file.as_str(), fl);
    proof {
        assert(file@.subrange(0, fl as int) =~= file@);
        lemma_last_dot(file@);
    }
    let stem = if dot <= 1 { file.clone() } else { substring(file.as_str(), 0, dot - 1) };
    assert(stem@ =~= file_stem(file@));
    match find_override(&item_mod.attrs) {
        Some(p) => join(dir.as_str(), p.as_str()),
        None => {
            let name = match &item_mod.ident {
                Some(name) => name,
                None => {
                    return String::new();
                },
            };
            let mut base = name.clone();
            base.append(".rs");
            if stem == String::from_str("mod") || stem == String::from_str("lib") {
                join(dir.as_str(), base.as_str())
            } else {
                let sub = join(dir.as_str(), stem.as_str());
                join(sub.as_str(), base.as_str())
            }
        },
    }
}

/// Replaces the closing `;` of a file-backed module declaration by the
/// module's content in braces; `None` where `decl` does not end in `;`.
pub fn splice_mod(decl: &str, content: &str) -> (r: Option<String>)
    ensures
        match r {
            Some(s) => decl@.len() > 0 && decl@.last() == ';' && s@ == decl@.drop_last() + "{"@ + content@ + "}"@,
            None => decl@.len() == 0 || decl@.last() != ';',
        },
{
    let n = decl.unicode_len();
    if n == 0 || decl.get_char(n - 1) != ';' {
        return None;
    }
    let mut s = substring(decl, 0, n - 1);
    assert(s@ =~= decl@.drop_last());
    s.append("{");
    s.append(content);
    s.append("}");
    Some(s)
}

} // verus!
