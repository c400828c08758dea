//! Analyses of a parsed program.
pub mod names;

use crate::ast::AstView;
use crate::errors::Errors;
use crate::tir::def::Defs;
use crate::tir::typ::Typs;
use names::resolutions::NameResolutions;
use names::{items_uses, resolve_names, resolve_names_spec};
use vstd::prelude::*;

verus! {

/// Resolves the names of the program of `view`, from no definitions; the errors found
/// go to `errors`.
pub fn analyse(view: AstView, errors: &mut Errors) -> (r: NameResolutions)
    requires
        view.wf(),
        view.ast.items@.len() + items_uses(view, view.ast.items@.len() as int) < u32::MAX,
    ensures
        ({
            let res = resolve_names_spec(view, Seq::empty(), old(errors).reports());
            &&& r.kinds() == res.kinds
            &&& final(errors).reports() == res.reports
        }),
{
    let mut defs = Defs::new();
    let mut typs = Typs::new();
    resolve_names(view, &mut defs, &mut typs, errors)
}

} // verus!
