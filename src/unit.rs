//! Unit identities and the names a unit exports.
use vstd::prelude::*;
use vstd::string::*;
use crate::text::push_char;

verus! {

/// A unit of the library, named by its category and its own name.
#[derive(Clone, Debug, PartialEq, Eq, PartialOrd, Ord, Hash)]
pub struct Crate {
    pub category_name: String,
    pub crate_name: String,
}

/// A name that a unit exports: a macro marked for export, or a public
/// declaration (possibly surfaced through a public import).
#[derive(Clone, Debug, PartialEq, Eq, PartialOrd, Ord, Hash)]
pub enum UseIdent {
    MacroExport(String),
    PubItem(String),
}

impl View for Crate {
    type V = (Seq<char>, Seq<char>);

    open spec fn view(&self) -> (Seq<char>, Seq<char>) {
        (self.category_name@, self.crate_name@)
    }
}

impl View for UseIdent {
    /// Whether the name is an exported macro, and the name.
    type V = (bool, Seq<char>);

    open spec fn view(&self) -> (bool, Seq<char>) {
        match self {
            UseIdent::MacroExport(s) => (true, s@),
            UseIdent::PubItem(s) => (false, s@),
        }
    }
}

impl UseIdent {
    /// The exported name.
    pub fn to_string(&self) -> (r: String)
        ensures
            r@ == self@.1,
    {
        match self {
            UseIdent::MacroExport(s) => s.clone(),
            UseIdent::PubItem(s) => s.clone(),
        }
    }
}

/// Index of the last `/` in `s`, or -1.
pub open spec fn last_slash(s: Seq<char>) -> int
    decreases s.len(),
{
    if s.len() == 0 {
        -1
    } else if s.last() == '/' {
        s.len() - 1
    } else {
        last_slash(s.drop_last())
    }
}

/// The last segment of a `/`-separated path.
pub open spec fn file_name(s: Seq<char>) -> Seq<char> {
    s.subrange(last_slash(s) + 1, s.len() as int)
}

/// The path without its last segment and separator (empty if it has one
/// segment only).
pub open spec fn parent(s: Seq<char>) -> Seq<char> {
    if last_slash(s) < 0 {
        Seq::empty()
    } else {
        s.subrange(0, last_slash(s))
    }
}

proof fn lemma_last_slash(s: Seq<char>)
    ensures
        -1 <= last_slash(s) < s.len(),
        last_slash(s) >= 0 ==> s[last_slash(s)] == '/',
        forall|j: int| last_slash(s) < j < s.len() ==> s[j] != '/',
    decreases s.len(),
{
    if s.len() > 0 && s.last() != '/' {
        lemma_last_slash(s.drop_last());
        assert forall|j: int| last_slash(s) < j < s.len() implies s[j] != '/' by {
            if j < s.len() - 1 {
                assert(s[j] == s.drop_last()[j]);
            }
        }
    }
}

/// Scans `s` backwards from `end` for a `/`; returns its index in the
/// prefix `s[0..end]`, as `last_slash` gives it.
fn find_last_slash(s: &str, end: usize) -> (r: Option<usize>)
    requires
        end <= s@.len(),
    ensures
        match r {
            Some(i) => (i < end) && (i as int == last_slash(s@.subrange(0, end as int))),
            None => last_slash(s@.subrange(0, end as int)) == -1,
        },
{
    let mut k: usize = end;
    while k > 0
        invariant
            k <= end <= s@.len(),
            last_slash(s@.subrange(0, end as int)) == last_slash(s@.subrange(0, k as int)),
        decreases k,
    {
        let c = s.get_char(k - 1);
        if c == '/' {
            return Some(k - 1);
        }
        assert(s@.subrange(0, k as int).drop_last() =~= s@.subrange(0, k - 1));
        k = k - 1;
    }
    None
}

/// The characters `s[from..to]` as a new string.
pub fn substring(s: &str, from: usize, to: usize) -> (r: String)
    requires
        from <= to <= s@.len(),
    ensures
        r@ == s@.subrange(from as int, to as int),
{
    let mut r = String::new();
    let mut i: usize = from;
    while i < to
        invariant
            from <= i <= to <= s@.len(),
            r@ == s@.subrange(from as int, i as int),
        decreases to - i,
    {
        let c = s.get_char(i);
        push_char(&mut r, c);
        assert(r@ =~= s@.subrange(from as int, i + 1));
        i = i + 1;
    }
    r
}

impl Crate {
    pub fn new(category_name: String, crate_name: String) -> (r: Crate)
        ensures
            r@ == (category_name@, crate_name@),
    {
        Crate { category_name, crate_name }
    }

    /// The unit whose directory is `path`: its category is the name of the
    /// parent directory, its own name the last segment. `None` where
    /// either name would be empty.
    pub fn from_path(path: &str) -> (r: Option<Crate>)
        ensures
            match r {
                Some(c) => {
                    &&& c@ == (file_name(parent(path@)), file_name(path@))
                    &&& last_slash(path@) >= 0
                },
                None => last_slash(path@) < 0 || file_name(path@).len() == 0
                    || file_name(parent(path@)).len() == 0,
            },
    {
        let n = path.unicode_len();
        proof {
            assert(path@.subrange(0, n as int) =~= path@);
            lemma_last_slash(path@);
        }
        match find_last_slash(path, n) {
            None => None,
            Some(j) => {
                if j + 1 == n {
                    return None;
                }
                let crate_name = substring(path, j + 1, n);
                let start = match find_last_slash(path, j) {
                    None => 0,
                    Some(i) => i + 1,
                };
                proof {
                    assert(path@.subrange(0, j as int) == parent(path@));
                    lemma_last_slash(parent(path@));
                }
                if start == j {
                    return None;
                }
                let category_name = substring(path, start, j);
                assert(category_name@ =~= file_name(parent(path@)));
                Some(Crate { category_name, crate_name })
            },
        }
    }

    pub fn category_name(&self) -> (r: &String)
        ensures
            r@ == self@.0,
    {
        &self.category_name
    }

    pub fn crate_name(&self) -> (r: &String)
        ensures
            r@ == self@.1,
    {
        &self.crate_name
    }

    /// A copy of this unit's identity.
    pub fn duplicate(&self) -> (r: Crate)
        ensures
            r@ == self@,
    {
        Crate { category_name: self.category_name.clone(), crate_name: self.crate_name.clone() }
    }

    /// `category::name`.
    pub fn fmt(&self) -> (r: String)
        ensures
            r@ == self@.0 + "::"@ + self@.1,
    {
        let mut r = self.category_name.clone();
        r.append("::");
        r.append(self.crate_name.as_str());
        r
    }
}

/// Whether two units are the same.
pub fn same_crate(a: &Crate, b: &Crate) -> (r: bool)
    ensures
        r == (a@ == b@),
{
    a.category_name == b.category_name && a.crate_name == b.crate_name
}

} // verus!
