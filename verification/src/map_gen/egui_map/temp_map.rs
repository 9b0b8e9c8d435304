//! The symbols of the preview map, shared with the map file writer.

use vstd::prelude::*;
use crate::map::symbol::{code_from_numbers, code_numbers};
use crate::omap_specs::{find_symbol_by_code, found_by_code};
pub use crate::map::symbol::{AreaSymbol, LineSymbol, PointSymbol, Symbol};

verus! {

impl Symbol {
    /// Looks the symbol up by its code in the preview's `omap` symbol set.
    pub fn get_omap_symbol<'a>(&self, symbol_set: &'a omap::symbols::SymbolSet) -> (found: Option<omap::symbols::SymbolRef<'a>>)
        ensures
            found == found_by_code(symbol_set, code_from_numbers(code_numbers(*self))),
            forall|other: Symbol| other != *self
                ==> #[trigger] code_from_numbers(code_numbers(other)) != code_from_numbers(code_numbers(*self)),
    {
        let code = self.get_code();
        find_symbol_by_code(symbol_set, code)
    }
}

} // verus!
