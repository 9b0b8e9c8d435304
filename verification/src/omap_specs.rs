//! Declarations that let verified code use the `omap` crate's symbol codes
//! and symbol sets.

use vstd::prelude::*;

verus! {

/// `omap::Code`, a three-part symbol code `major.minor.patch`.
#[verifier::external_type_specification]
#[verifier::external_body]
pub struct ExOmapCode(omap::Code);

/// `omap::symbols::SymbolSet`, the symbol table of a map.
#[verifier::external_type_specification]
#[verifier::external_body]
pub struct ExOmapSymbolSet(omap::symbols::SymbolSet);

/// `omap::symbols::SymbolRef`, a borrowed handle to one symbol of a set.
#[verifier::external_type_specification]
#[verifier::external_body]
pub struct ExOmapSymbolRef<'a>(omap::symbols::SymbolRef<'a>);

/// The code that `omap::Code::new` builds from its three components.
pub uninterp spec fn symbol_code(major: u16, minor: u16, patch: u16) -> omap::Code;

/// `omap::Code::new` only stores its three arguments in the three public
/// fields of `omap::Code`: equal components give the same code, named
/// [`symbol_code`], and the code fixes its components, so a code built from
/// other components is another code.
pub assume_specification[ omap::Code::new ](major: u16, minor: u16, patch: u16) -> (code: omap::Code)
    ensures
        code == symbol_code(major, minor, patch),
        forall|a: u16, b: u16, c: u16| #[trigger] symbol_code(a, b, c) == code ==> a == major && b == minor && c == patch,
;

/// What `omap::symbols::SymbolSet::find_by_code` returns for a symbol set
/// and a code: the first symbol of the set, in set order, whose code equals
/// the given one, or `None`.
pub uninterp spec fn found_by_code(symbol_set: &omap::symbols::SymbolSet, code: omap::Code) -> Option<omap::symbols::SymbolRef<'_>>;

/// Calls `omap::symbols::SymbolSet::find_by_code`. The search walks the set
/// in order and only reads it, so the result is a function of the set and
/// the code, named [`found_by_code`]; which symbol that is depends on what
/// the set holds, which verified code does not see.
#[verifier::external_body]
pub(crate) fn find_symbol_by_code<'a>(symbol_set: &'a omap::symbols::SymbolSet, code: omap::Code) -> (found: Option<omap::symbols::SymbolRef<'a>>)
    ensures
        found == found_by_code(symbol_set, code),
{
    symbol_set.find_by_code(code)
}

} // verus!
