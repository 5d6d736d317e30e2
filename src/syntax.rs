//! A plain-value model of the top-level structure of a source file: the
//! declarations, their attributes and their import trees.
use vstd::prelude::*;

verus! {

/// An import tree, as written after `use`. A leading `::` is a `Path`
/// whose first segment is empty.
pub enum UseTree {
    /// `seg::rest`
    Path(String, Box<UseTree>),
    /// `name`
    Name(String),
    /// `name as alias`: the name it imports, then the alias
    Rename(String, String),
    /// `*`
    Glob,
    /// `{a, b, ...}`
    Group(Vec<UseTree>),
}

/// The shape of an attribute's arguments.
pub enum Meta {
    /// `#[name]`
    Path,
    /// `#[name(tokens)]`, with the tokens as text.
    List(String),
    /// `#[name = value]`, with the string literal's value when it is one.
    NameValue(Option<String>),
}

/// One attribute: `name` is the attribute path when it is a single
/// identifier (and empty otherwise); `text` is how it is printed.
pub struct Attr {
    pub name: String,
    pub meta: Meta,
    pub inner: bool,
    pub text: String,
}

/// The finite set of declaration kinds; `Other` stands for any kind the
/// tools here do not handle.
#[derive(PartialEq, Eq, Structural, Clone, Copy, Debug)]
pub enum DeclKind {
    Const,
    Enum,
    ExternCrate,
    Fn,
    ForeignMod,
    Impl,
    Macro,
    Mod,
    Static,
    Struct,
    Trait,
    TraitAlias,
    Type,
    Union,
    Use,
    Other,
}

/// One declaration. `head` is its text without outer attributes and,
/// where `body` is present, without the braced block: `body` then holds
/// the declarations of an inline module or the items of an impl block.
pub struct Decl {
    pub kind: DeclKind,
    pub is_pub: bool,
    pub ident: Option<String>,
    pub attrs: Vec<Attr>,
    pub head: String,
    pub body: Option<Vec<Decl>>,
    pub use_tree: Option<UseTree>,
}

/// A whole file: its inner attributes and its declarations.
pub struct SourceFile {
    pub attrs: Vec<Attr>,
    pub items: Vec<Decl>,
}

} // verus!
