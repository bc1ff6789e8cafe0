//! The Nabla configuration language: lexer, parser, name resolution, type
//! checker and value evaluator, the errors of a text by line and column,
//! and the values as documents of JSON, YAML, TOML and XML.

pub mod ast;
pub mod backend;
pub mod diagnostics;
pub mod eval;
pub mod lexer;
pub mod node;
pub mod parser;
pub mod position;
pub mod semantics;
pub mod table;
pub mod token;

use crate::ast::Ast;
use vstd::prelude::*;
use vstd::string::*;

verus! {

/// The global name of a binding: the root module and the path below it.
#[derive(Clone, Debug, PartialEq, Eq)]
pub struct GlobalIdent {
    pub root: String,
    pub path: Vec<String>,
}

/// The name of the root module.
pub const ROOT: &'static str = "root";

/// The separator between the parts of a path.
pub const PATH_SEPARATOR: &'static str = "::";

/// The character sequences of a list of strings.
pub open spec fn strings_model(strings: Seq<String>) -> Seq<Seq<char>> {
    Seq::new(strings.len(), |i: int| strings[i]@)
}

/// The parts of a path joined by `::`, each part after a separator.
pub open spec fn joined_path(path: Seq<Seq<char>>) -> Seq<char>
    decreases path.len(),
{
    if path.len() == 0 {
        Seq::empty()
    } else {
        joined_path(path.drop_last()) + PATH_SEPARATOR@ + path.last()
    }
}

impl View for GlobalIdent {
    type V = Seq<Seq<char>>;

    /// The root followed by the parts of the path.
    open spec fn view(&self) -> Seq<Seq<char>> {
        seq![self.root@] + strings_model(self.path@)
    }
}

impl GlobalIdent {
    /// The identifier one level below this one.
    pub fn extend(self, ident: String) -> (r: Self)
        ensures
            r.root == self.root,
            r.path@ == self.path@.push(ident),
            r@ == self@.push(ident@),
    {
        let mut path = self.path;
        path.push(ident);
        let r = Self { root: self.root, path };
        assert(r@ =~= self@.push(ident@));
        r
    }

    /// A copy with the same content.
    pub fn duplicate(&self) -> (r: Self)
        ensures
            r@ == self@,
            r.root@ == self.root@,
            strings_model(r.path@) == strings_model(self.path@),
    {
        let mut path: Vec<String> = Vec::new();
        let mut i: usize = 0;
        while i < self.path.len()
            invariant
                i <= self.path@.len(),
                path@.len() == i,
                forall|j: int| 0 <= j < i ==> (#[trigger] path@[j])@ == self.path@[j]@,
            decreases self.path@.len() - i,
        {
            path.push(self.path[i].clone());
            i += 1;
        }
        let r = Self { root: self.root.clone(), path };
        assert(strings_model(r.path@) =~= strings_model(self.path@));
        r
    }

    /// Whether two identifiers name the same thing.
    pub fn same(&self, other: &Self) -> (r: bool)
        ensures
            r == (self@ == other@),
    {
        if self.root != other.root {
            assert(self@[0] != other@[0]);
            return false;
        }
        if self.path.len() != other.path.len() {
            assert(self@.len() != other@.len());
            return false;
        }
        let mut i: usize = 0;
        while i < self.path.len()
            invariant
                i <= self.path@.len(),
                self.path@.len() == other.path@.len(),
                self.root@ == other.root@,
                forall|j: int| 0 <= j < i ==> (#[trigger] self.path@[j])@ == other.path@[j]@,
            decreases self.path@.len() - i,
        {
            if self.path[i] != other.path[i] {
                assert(self@[i + 1] != other@[i + 1]);
                return false;
            }
            i += 1;
        }
        assert(self@ =~= other@);
        true
    }

    /// The text of the identifier: `root`, or `root::a::b`.
    pub open spec fn spec_text(&self) -> Seq<char> {
        self.root@ + joined_path(strings_model(self.path@))
    }

    /// The text of the identifier: the root and the parts of the path,
    /// joined by `::`.
    pub fn to_string(&self) -> (r: String)
        ensures
            r@ == self.spec_text(),
    {
        let mut out = self.root.clone();
        let mut i: usize = 0;
        assert(strings_model(self.path@).take(0) =~= Seq::<Seq<char>>::empty());
        assert(out@ + Seq::<char>::empty() =~= out@);
        while i < self.path.len()
            invariant
                i <= self.path@.len(),
                out@ == self.root@ + joined_path(strings_model(self.path@).take(i as int)),
            decreases self.path@.len() - i,
        {
            let ghost parts = strings_model(self.path@);
            proof {
                assert(parts.take(i + 1).drop_last() =~= parts.take(i as int));
                assert(parts.take(i + 1).last() == self.path@[i as int]@);
            }
            let ghost before = out@;
            out.append(PATH_SEPARATOR);
            out.append(self.path[i].as_str());
            assert(out@ =~= self.root@ + joined_path(parts.take(i + 1)));
            i += 1;
        }
        assert(strings_model(self.path@).take(i as int) =~= strings_model(self.path@));
        out
    }
}

impl Default for GlobalIdent {
    /// The root module.
    fn default() -> (r: Self)
        ensures
            r.root@ == ROOT@,
            r.path@.len() == 0,
    {
        Self { root: String::from_str(ROOT), path: Vec::new() }
    }
}

/// A module: its global name and its syntax tree.
#[derive(Debug, PartialEq, Eq)]
pub struct ModuleAst {
    pub name: GlobalIdent,
    pub ast: Ast,
}

impl ModuleAst {
    pub fn new(name: GlobalIdent, ast: Ast) -> (r: Self)
        ensures
            r.name == name,
            r.ast == ast,
    {
        Self { name, ast }
    }
}

} // verus!
