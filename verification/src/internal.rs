//! Descriptors of constructible components and the names used in diagnostics.
use vstd::prelude::*;
use vstd::string::StringExecFns;

verus! {

/// Dependency chains this many layers deep are refused by default.
pub const MAX_TREE_DEPTH: u32 = 500;

/// Describes one constructible component: its identity, the identities of its
/// direct dependencies in the order in which its constructor receives their
/// handles, and the name shown in diagnostics.
#[derive(Debug)]
pub struct TypeInitDef {
    pub id: u64,
    pub deps: Vec<u64>,
    pub name: String,
}

/// The mathematical content of a [`TypeInitDef`].
pub ghost struct DefView {
    pub id: u64,
    pub deps: Seq<u64>,
    pub name: Seq<char>,
}

impl View for TypeInitDef {
    type V = DefView;

    open spec fn view(&self) -> DefView {
        DefView { id: self.id, deps: self.deps@, name: self.name@ }
    }
}

impl Clone for TypeInitDef {
    /// A descriptor with the same content.
    fn clone(&self) -> (copy: Self)
        ensures
            copy@ == self@,
    {
        TypeInitDef { id: self.id, deps: self.deps.clone(), name: self.name.clone() }
    }
}

impl TypeInitDef {
    /// Creates a descriptor.
    ///
    /// `id` is the identity of the component, `deps` lists its direct
    /// dependencies and `name` is its display name.
    pub fn new(id: u64, deps: Vec<u64>, name: String) -> (def: Self)
        ensures
            def@ == (DefView { id, deps: deps@, name: name@ }),
    {
        TypeInitDef { id, deps, name }
    }

    /// The descriptor of a component that depends on nothing and has no name
    /// of its own, as a component that is simply created by default is
    /// described. Its name should never need to be shown.
    pub fn standalone(id: u64) -> (def: Self)
        ensures
            def@ == (DefView { id, deps: Seq::empty(), name: "<Unknown Type>"@ }),
    {
        TypeInitDef { id, deps: Vec::new(), name: String::from_str("<Unknown Type>") }
    }
}

/// The identities of a sequence of descriptors, in order.
pub open spec fn ids_of(defs: Seq<DefView>) -> Seq<u64> {
    Seq::new(defs.len(), |i: int| defs[i].id)
}

/// The display names of a sequence of descriptors, in order.
pub open spec fn names_of(defs: Seq<DefView>) -> Seq<Seq<char>> {
    Seq::new(defs.len(), |i: int| defs[i].name)
}

/// The views of a sequence of descriptors, in order.
pub open spec fn views_of(defs: Seq<TypeInitDef>) -> Seq<DefView> {
    Seq::new(defs.len(), |i: int| defs[i]@)
}

/// `parts` written one after the other with `sep` between neighbours.
pub open spec fn joined(parts: Seq<Seq<char>>, sep: Seq<char>) -> Seq<char>
    decreases parts.len(),
{
    if parts.len() == 0 {
        Seq::empty()
    } else if parts.len() == 1 {
        parts[0]
    } else {
        joined(parts.drop_last(), sep) + sep + parts.last()
    }
}

/// Calls `itertools::join` on the display names of `defs`.
///
/// Trusted: `join` writes the first item, then `sep` and the next item for each
/// item that follows, and gives the empty string for no items. A name is
/// written as it is, so the result is the names with `sep` between them.
#[verifier::external_body]
fn join_names(defs: &Vec<TypeInitDef>, sep: &str) -> (text: String)
    ensures
        text@ == joined(names_of(views_of(defs@)), sep@),
{
    itertools::join(defs.iter().map(|d| &d.name), sep)
}

/// The display names of `defs`, separated by a comma and a space.
pub fn get_type_names(defs: &Vec<TypeInitDef>) -> (text: String)
    ensures
        text@ == joined(names_of(views_of(defs@)), ", "@),
{
    join_names(defs, ", ")
}

} // verus!
