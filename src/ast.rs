//! The declarative input: the owning type's name and its capability references.
use vstd::prelude::*;

verus! {

/// A name and an ordered list of references, such as `SomeName{Display, std::fmt::Debug}`.
/// Each reference is held as its `::`-separated segments.
pub struct Ast {
    /// The name of the generated type (e.g. `SomeName`).
    pub name: String,
    /// The references, each a list of path segments (e.g. `["std", "fmt", "Debug"]`).
    pub paths: Vec<Vec<String>>,
}

pub struct AstView {
    pub name: Seq<char>,
    pub paths: Seq<Seq<Seq<char>>>,
}

impl View for Ast {
    type V = AstView;

    open spec fn view(&self) -> AstView {
        AstView { name: self.name@, paths: self.paths.deep_view() }
    }
}

} // verus!
