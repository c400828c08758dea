//! Definitions that names resolve to.
use crate::arena::{Arena, ArenaId};
use crate::ast::idents::IdentId;
use vstd::prelude::*;

verus! {

/// The id of a definition.
pub type DefId = ArenaId<Def>;

/// The definitions of a program.
pub type Defs = Arena<Def>;

/// A definition: the identifier that introduced it.
#[derive(Debug, Clone, Copy)]
pub struct Def {
    pub ident: IdentId,
}

} // verus!
