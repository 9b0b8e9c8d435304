//! The map symbols that the generator emits and their ISOM symbol codes.

use vstd::prelude::*;
use crate::omap_specs::{find_symbol_by_code, found_by_code, symbol_code};

verus! {

/// Any symbol of the generated map.
#[derive(Debug, Clone, Copy, PartialEq, Eq, Hash, PartialOrd, Ord, Structural)]
pub enum Symbol {
    Area(AreaSymbol),
    Line(LineSymbol),
    Point(PointSymbol),
}

/// Area symbols.
#[derive(Debug, Clone, Copy, PartialEq, Eq, Hash, PartialOrd, Ord, Structural)]
pub enum AreaSymbol {
    WhiteForest,
    RoughOpenLand,
    OpenLand,
    SandyGround,
    BareRock,
    LightGreen,
    MediumGreen,
    DarkGreen,
    Marsh,
    PrivateArea,
    PavedAreaWithBoundary,
    ShallowWaterWithSolidBankLine,
    UncrossableWaterWithBankLine,
    GiganticBoulder,
    Building,
}

/// Line symbols.
#[derive(Debug, Clone, Copy, PartialEq, Eq, Hash, PartialOrd, Ord, Structural)]
pub enum LineSymbol {
    BasemapContour,
    FormLine,
    Contour,
    IndexContour,
    NegBasemapContour,
    SmallCrossableWatercourse,
    Cliff,
    ImpassableCliff,
}

/// Point symbols.
#[derive(Debug, Clone, Copy, PartialEq, Eq, Hash, PartialOrd, Ord, Structural)]
pub enum PointSymbol {
    SlopeLineFormLine,
    SlopeLineContour,
    DotKnoll,
    ElongatedDotKnoll,
    UDepression,
    SmallBoulder,
    LargeBoulder,
}

/// The ISOM code `(major, minor, patch)` of an area symbol.
pub open spec fn area_code_numbers(symbol: AreaSymbol) -> (u16, u16, u16) {
    match symbol {
        AreaSymbol::RoughOpenLand => (403, 0, 0),
        AreaSymbol::OpenLand => (401, 0, 0),
        AreaSymbol::SandyGround => (213, 0, 0),
        AreaSymbol::BareRock => (214, 0, 0),
        AreaSymbol::LightGreen => (406, 0, 0),
        AreaSymbol::MediumGreen => (408, 0, 0),
        AreaSymbol::DarkGreen => (410, 0, 0),
        AreaSymbol::Marsh => (308, 0, 0),
        AreaSymbol::PrivateArea => (520, 0, 0),
        AreaSymbol::PavedAreaWithBoundary => (501, 0, 0),
        AreaSymbol::ShallowWaterWithSolidBankLine => (302, 0, 0),
        AreaSymbol::UncrossableWaterWithBankLine => (301, 0, 0),
        AreaSymbol::GiganticBoulder => (206, 0, 0),
        AreaSymbol::Building => (521, 0, 0),
        AreaSymbol::WhiteForest => (405, 0, 0),
    }
}

/// The ISOM code `(major, minor, patch)` of a line symbol.
pub open spec fn line_code_numbers(symbol: LineSymbol) -> (u16, u16, u16) {
    match symbol {
        LineSymbol::BasemapContour => (101, 2, 0),
        LineSymbol::FormLine => (103, 0, 0),
        LineSymbol::Contour => (101, 0, 0),
        LineSymbol::IndexContour => (102, 0, 0),
        LineSymbol::NegBasemapContour => (101, 3, 0),
        LineSymbol::SmallCrossableWatercourse => (305, 0, 0),
        LineSymbol::Cliff => (202, 0, 0),
        LineSymbol::ImpassableCliff => (201, 0, 0),
    }
}

/// The ISOM code `(major, minor, patch)` of a point symbol.
pub open spec fn point_code_numbers(symbol: PointSymbol) -> (u16, u16, u16) {
    match symbol {
        PointSymbol::SlopeLineFormLine => (103, 1, 0),
        PointSymbol::SlopeLineContour => (101, 1, 0),
        PointSymbol::DotKnoll => (109, 0, 0),
        PointSymbol::ElongatedDotKnoll => (110, 0, 0),
        PointSymbol::UDepression => (111, 0, 0),
        PointSymbol::SmallBoulder => (204, 0, 0),
        PointSymbol::LargeBoulder => (205, 0, 0),
    }
}

/// The ISOM code `(major, minor, patch)` of any symbol.
pub open spec fn code_numbers(symbol: Symbol) -> (u16, u16, u16) {
    match symbol {
        Symbol::Area(s) => area_code_numbers(s),
        Symbol::Line(s) => line_code_numbers(s),
        Symbol::Point(s) => point_code_numbers(s),
    }
}

/// The `omap` code whose components are `numbers`.
pub open spec fn code_from_numbers(numbers: (u16, u16, u16)) -> omap::Code {
    symbol_code(numbers.0, numbers.1, numbers.2)
}

/// Law: every symbol is looked up under its number in the ISOM
/// specification: forests 405–410, open land 401 and 403, sand and rock
/// 213 and 214, marsh 308, water 301 and 302, buildings and private and
/// paved areas 520, 521 and 501, boulders 204–206, contours 101–103 with
/// slope lines and basemap contours as their minor variants, knolls and
/// depressions 109–111, the watercourse 305, the cliff 202 and the
/// impassable cliff 201.
pub proof fn lemma_isom_codes(symbol: Symbol)
    ensures
        symbol == Symbol::Area(AreaSymbol::WhiteForest) ==> code_from_numbers(code_numbers(symbol)) == symbol_code(405, 0, 0),
        symbol == Symbol::Area(AreaSymbol::RoughOpenLand) ==> code_from_numbers(code_numbers(symbol)) == symbol_code(403, 0, 0),
        symbol == Symbol::Area(AreaSymbol::OpenLand) ==> code_from_numbers(code_numbers(symbol)) == symbol_code(401, 0, 0),
        symbol == Symbol::Area(AreaSymbol::SandyGround) ==> code_from_numbers(code_numbers(symbol)) == symbol_code(213, 0, 0),
        symbol == Symbol::Area(AreaSymbol::BareRock) ==> code_from_numbers(code_numbers(symbol)) == symbol_code(214, 0, 0),
        symbol == Symbol::Area(AreaSymbol::LightGreen) ==> code_from_numbers(code_numbers(symbol)) == symbol_code(406, 0, 0),
        symbol == Symbol::Area(AreaSymbol::MediumGreen) ==> code_from_numbers(code_numbers(symbol)) == symbol_code(408, 0, 0),
        symbol == Symbol::Area(AreaSymbol::DarkGreen) ==> code_from_numbers(code_numbers(symbol)) == symbol_code(410, 0, 0),
        symbol == Symbol::Area(AreaSymbol::Marsh) ==> code_from_numbers(code_numbers(symbol)) == symbol_code(308, 0, 0),
        symbol == Symbol::Area(AreaSymbol::PrivateArea) ==> code_from_numbers(code_numbers(symbol)) == symbol_code(520, 0, 0),
        symbol == Symbol::Area(AreaSymbol::PavedAreaWithBoundary) ==> code_from_numbers(code_numbers(symbol)) == symbol_code(501, 0, 0),
        symbol == Symbol::Area(AreaSymbol::ShallowWaterWithSolidBankLine) ==> code_from_numbers(code_numbers(symbol)) == symbol_code(302, 0, 0),
        symbol == Symbol::Area(AreaSymbol::UncrossableWaterWithBankLine) ==> code_from_numbers(code_numbers(symbol)) == symbol_code(301, 0, 0),
        symbol == Symbol::Area(AreaSymbol::GiganticBoulder) ==> code_from_numbers(code_numbers(symbol)) == symbol_code(206, 0, 0),
        symbol == Symbol::Area(AreaSymbol::Building) ==> code_from_numbers(code_numbers(symbol)) == symbol_code(521, 0, 0),
        symbol == Symbol::Line(LineSymbol::BasemapContour) ==> code_from_numbers(code_numbers(symbol)) == symbol_code(101, 2, 0),
        symbol == Symbol::Line(LineSymbol::FormLine) ==> code_from_numbers(code_numbers(symbol)) == symbol_code(103, 0, 0),
        symbol == Symbol::Line(LineSymbol::Contour) ==> code_from_numbers(code_numbers(symbol)) == symbol_code(101, 0, 0),
        symbol == Symbol::Line(LineSymbol::IndexContour) ==> code_from_numbers(code_numbers(symbol)) == symbol_code(102, 0, 0),
        symbol == Symbol::Line(LineSymbol::NegBasemapContour) ==> code_from_numbers(code_numbers(symbol)) == symbol_code(101, 3, 0),
        symbol == Symbol::Line(LineSymbol::SmallCrossableWatercourse) ==> code_from_numbers(code_numbers(symbol)) == symbol_code(305, 0, 0),
        symbol == Symbol::Line(LineSymbol::Cliff) ==> code_from_numbers(code_numbers(symbol)) == symbol_code(202, 0, 0),
        symbol == Symbol::Line(LineSymbol::ImpassableCliff) ==> code_from_numbers(code_numbers(symbol)) == symbol_code(201, 0, 0),
        symbol == Symbol::Point(PointSymbol::SlopeLineFormLine) ==> code_from_numbers(code_numbers(symbol)) == symbol_code(103, 1, 0),
        symbol == Symbol::Point(PointSymbol::SlopeLineContour) ==> code_from_numbers(code_numbers(symbol)) == symbol_code(101, 1, 0),
        symbol == Symbol::Point(PointSymbol::DotKnoll) ==> code_from_numbers(code_numbers(symbol)) == symbol_code(109, 0, 0),
        symbol == Symbol::Point(PointSymbol::ElongatedDotKnoll) ==> code_from_numbers(code_numbers(symbol)) == symbol_code(110, 0, 0),
        symbol == Symbol::Point(PointSymbol::UDepression) ==> code_from_numbers(code_numbers(symbol)) == symbol_code(111, 0, 0),
        symbol == Symbol::Point(PointSymbol::SmallBoulder) ==> code_from_numbers(code_numbers(symbol)) == symbol_code(204, 0, 0),
        symbol == Symbol::Point(PointSymbol::LargeBoulder) ==> code_from_numbers(code_numbers(symbol)) == symbol_code(205, 0, 0),
{
}

/// The text the map file shows for a symbol: the name of its variant.
pub open spec fn symbol_text(symbol: Symbol) -> Seq<char> {
    match symbol {
        Symbol::Area(s) => match s {
            AreaSymbol::WhiteForest => "WhiteForest"@,
            AreaSymbol::RoughOpenLand => "RoughOpenLand"@,
            AreaSymbol::OpenLand => "OpenLand"@,
            AreaSymbol::SandyGround => "SandyGround"@,
            AreaSymbol::BareRock => "BareRock"@,
            AreaSymbol::LightGreen => "LightGreen"@,
            AreaSymbol::MediumGreen => "MediumGreen"@,
            AreaSymbol::DarkGreen => "DarkGreen"@,
            AreaSymbol::Marsh => "Marsh"@,
            AreaSymbol::PrivateArea => "PrivateArea"@,
            AreaSymbol::PavedAreaWithBoundary => "PavedAreaWithBoundary"@,
            AreaSymbol::ShallowWaterWithSolidBankLine => "ShallowWaterWithSolidBankLine"@,
            AreaSymbol::UncrossableWaterWithBankLine => "UncrossableWaterWithBankLine"@,
            AreaSymbol::GiganticBoulder => "GiganticBoulder"@,
            AreaSymbol::Building => "Building"@,
        },
        Symbol::Line(s) => match s {
            LineSymbol::BasemapContour => "BasemapContour"@,
            LineSymbol::FormLine => "FormLine"@,
            LineSymbol::Contour => "Contour"@,
            LineSymbol::IndexContour => "IndexContour"@,
            LineSymbol::NegBasemapContour => "NegBasemapContour"@,
            LineSymbol::SmallCrossableWatercourse => "SmallCrossableWatercourse"@,
            LineSymbol::Cliff => "Cliff"@,
            LineSymbol::ImpassableCliff => "ImpassableCliff"@,
        },
        Symbol::Point(s) => match s {
            PointSymbol::SlopeLineFormLine => "SlopeLineFormLine"@,
            PointSymbol::SlopeLineContour => "SlopeLineContour"@,
            PointSymbol::DotKnoll => "DotKnoll"@,
            PointSymbol::ElongatedDotKnoll => "ElongatedDotKnoll"@,
            PointSymbol::UDepression => "UDepression"@,
            PointSymbol::SmallBoulder => "SmallBoulder"@,
            PointSymbol::LargeBoulder => "LargeBoulder"@,
        },
    }
}

impl Symbol {
    /// Looks the symbol up by its code in an `omap` symbol set.
    pub fn get_omap_symbol_ref<'a>(
        &self,
        symbol_set: &'a omap::symbols::SymbolSet,
    ) -> (found: Option<omap::symbols::SymbolRef<'a>>)
        ensures
            found == found_by_code(symbol_set, code_from_numbers(code_numbers(*self))),
            forall|other: Symbol| other != *self
                ==> #[trigger] code_from_numbers(code_numbers(other)) != code_from_numbers(code_numbers(*self)),
    {
        let code = self.get_code();
        find_symbol_by_code(symbol_set, code)
    }

    /// The ISOM code of the symbol.
    pub fn get_code(&self) -> (code: omap::Code)
        ensures
            code == code_from_numbers(code_numbers(*self)),
            forall|other: Symbol| other != *self ==> #[trigger] code_from_numbers(code_numbers(other)) != code,
    {
        let code = match self {
            Symbol::Area(area_symbol) => area_symbol.get_code(),
            Symbol::Line(line_symbol) => line_symbol.get_code(),
            Symbol::Point(point_symbol) => point_symbol.get_code(),
        };
        proof {
            let own = code_numbers(*self);
            assert forall|a: u16, b: u16, c: u16| #[trigger] symbol_code(a, b, c) == code implies (a, b, c) == own by {
                match self {
                    Symbol::Area(s) => assert((a, b, c) == area_code_numbers(*s)),
                    Symbol::Line(s) => assert((a, b, c) == line_code_numbers(*s)),
                    Symbol::Point(s) => assert((a, b, c) == point_code_numbers(*s)),
                }
            }
            assert forall|other: Symbol| other != *self implies #[trigger] code_from_numbers(code_numbers(other)) != code by {
                let t = code_numbers(other);
                if symbol_code(t.0, t.1, t.2) == code {
                    lemma_symbol_codes_distinct(other, *self);
                }
            }
        }
        code
    }

    /// The name under which the symbol is written to a map file.
    pub fn name(&self) -> (text: &'static str)
        ensures
            text@ == symbol_text(*self),
    {
        match self {
            Symbol::Area(s) => match s {
                AreaSymbol::WhiteForest => "WhiteForest",
                AreaSymbol::RoughOpenLand => "RoughOpenLand",
                AreaSymbol::OpenLand => "OpenLand",
                AreaSymbol::SandyGround => "SandyGround",
                AreaSymbol::BareRock => "BareRock",
                AreaSymbol::LightGreen => "LightGreen",
                AreaSymbol::MediumGreen => "MediumGreen",
                AreaSymbol::DarkGreen => "DarkGreen",
                AreaSymbol::Marsh => "Marsh",
                AreaSymbol::PrivateArea => "PrivateArea",
                AreaSymbol::PavedAreaWithBoundary => "PavedAreaWithBoundary",
                AreaSymbol::ShallowWaterWithSolidBankLine => "ShallowWaterWithSolidBankLine",
                AreaSymbol::UncrossableWaterWithBankLine => "UncrossableWaterWithBankLine",
                AreaSymbol::GiganticBoulder => "GiganticBoulder",
                AreaSymbol::Building => "Building",
            },
            Symbol::Line(s) => match s {
                LineSymbol::BasemapContour => "BasemapContour",
                LineSymbol::FormLine => "FormLine",
                LineSymbol::Contour => "Contour",
                LineSymbol::IndexContour => "IndexContour",
                LineSymbol::NegBasemapContour => "NegBasemapContour",
                LineSymbol::SmallCrossableWatercourse => "SmallCrossableWatercourse",
                LineSymbol::Cliff => "Cliff",
                LineSymbol::ImpassableCliff => "ImpassableCliff",
            },
            Symbol::Point(s) => match s {
                PointSymbol::SlopeLineFormLine => "SlopeLineFormLine",
                PointSymbol::SlopeLineContour => "SlopeLineContour",
                PointSymbol::DotKnoll => "DotKnoll",
                PointSymbol::ElongatedDotKnoll => "ElongatedDotKnoll",
                PointSymbol::UDepression => "UDepression",
                PointSymbol::SmallBoulder => "SmallBoulder",
                PointSymbol::LargeBoulder => "LargeBoulder",
            },
        }
    }
}

impl AreaSymbol {
    /// The ISOM code of the area symbol.
    pub fn get_code(&self) -> (code: omap::Code)
        ensures
            code == code_from_numbers(area_code_numbers(*self)),
            forall|a: u16, b: u16, c: u16| #[trigger] symbol_code(a, b, c) == code ==> (a, b, c) == area_code_numbers(*self),
            forall|other: AreaSymbol| other != *self ==> #[trigger] code_from_numbers(area_code_numbers(other)) != code,
    {
        let code = match self {
            AreaSymbol::RoughOpenLand => omap::Code::new(403, 0, 0),
            AreaSymbol::OpenLand => omap::Code::new(401, 0, 0),
            AreaSymbol::SandyGround => omap::Code::new(213, 0, 0),
            AreaSymbol::BareRock => omap::Code::new(214, 0, 0),
            AreaSymbol::LightGreen => omap::Code::new(406, 0, 0),
            AreaSymbol::MediumGreen => omap::Code::new(408, 0, 0),
            AreaSymbol::DarkGreen => omap::Code::new(410, 0, 0),
            AreaSymbol::Marsh => omap::Code::new(308, 0, 0),
            AreaSymbol::PrivateArea => omap::Code::new(520, 0, 0),
            AreaSymbol::PavedAreaWithBoundary => omap::Code::new(501, 0, 0),
            AreaSymbol::ShallowWaterWithSolidBankLine => omap::Code::new(302, 0, 0),
            AreaSymbol::UncrossableWaterWithBankLine => omap::Code::new(301, 0, 0),
            AreaSymbol::GiganticBoulder => omap::Code::new(206, 0, 0),
            AreaSymbol::Building => omap::Code::new(521, 0, 0),
            AreaSymbol::WhiteForest => omap::Code::new(405, 0, 0),
        };
        proof {
            assert forall|other: AreaSymbol| other != *self implies #[trigger] code_from_numbers(area_code_numbers(other)) != code by {
                let t = area_code_numbers(other);
                if symbol_code(t.0, t.1, t.2) == code {
                    lemma_symbol_codes_distinct(Symbol::Area(other), Symbol::Area(*self));
                }
            }
        }
        code
    }
}

impl LineSymbol {
    /// The ISOM code of the line symbol.
    pub fn get_code(&self) -> (code: omap::Code)
        ensures
            code == code_from_numbers(line_code_numbers(*self)),
            forall|a: u16, b: u16, c: u16| #[trigger] symbol_code(a, b, c) == code ==> (a, b, c) == line_code_numbers(*self),
            forall|other: LineSymbol| other != *self ==> #[trigger] code_from_numbers(line_code_numbers(other)) != code,
    {
        let code = match self {
            LineSymbol::BasemapContour => omap::Code::new(101, 2, 0),
            LineSymbol::FormLine => omap::Code::new(103, 0, 0),
            LineSymbol::Contour => omap::Code::new(101, 0, 0),
            LineSymbol::IndexContour => omap::Code::new(102, 0, 0),
            LineSymbol::NegBasemapContour => omap::Code::new(101, 3, 0),
            LineSymbol::SmallCrossableWatercourse => omap::Code::new(305, 0, 0),
            LineSymbol::Cliff => omap::Code::new(202, 0, 0),
            LineSymbol::ImpassableCliff => omap::Code::new(201, 0, 0),
        };
        proof {
            assert forall|other: LineSymbol| other != *self implies #[trigger] code_from_numbers(line_code_numbers(other)) != code by {
                let t = line_code_numbers(other);
                if symbol_code(t.0, t.1, t.2) == code {
                    lemma_symbol_codes_distinct(Symbol::Line(other), Symbol::Line(*self));
                }
            }
        }
        code
    }
}

impl PointSymbol {
    /// The ISOM code of the point symbol.
    pub fn get_code(&self) -> (code: omap::Code)
        ensures
            code == code_from_numbers(point_code_numbers(*self)),
            forall|a: u16, b: u16, c: u16| #[trigger] symbol_code(a, b, c) == code ==> (a, b, c) == point_code_numbers(*self),
            forall|other: PointSymbol| other != *self ==> #[trigger] code_from_numbers(point_code_numbers(other)) != code,
    {
        let code = match self {
            PointSymbol::SlopeLineFormLine => omap::Code::new(103, 1, 0),
            PointSymbol::SlopeLineContour => omap::Code::new(101, 1, 0),
            PointSymbol::DotKnoll => omap::Code::new(109, 0, 0),
            PointSymbol::ElongatedDotKnoll => omap::Code::new(110, 0, 0),
            PointSymbol::UDepression => omap::Code::new(111, 0, 0),
            PointSymbol::SmallBoulder => omap::Code::new(204, 0, 0),
            PointSymbol::LargeBoulder => omap::Code::new(205, 0, 0),
        };
        proof {
            assert forall|other: PointSymbol| other != *self implies #[trigger] code_from_numbers(point_code_numbers(other)) != code by {
                let t = point_code_numbers(other);
                if symbol_code(t.0, t.1, t.2) == code {
                    lemma_symbol_codes_distinct(Symbol::Point(other), Symbol::Point(*self));
                }
            }
        }
        code
    }
}

impl From<AreaSymbol> for Symbol {
    fn from(value: AreaSymbol) -> (symbol: Symbol) {
        Symbol::Area(value)
    }
}

impl vstd::std_specs::convert::FromSpecImpl<AreaSymbol> for Symbol {
    open spec fn obeys_from_spec() -> bool {
        true
    }

    open spec fn from_spec(value: AreaSymbol) -> Symbol {
        Symbol::Area(value)
    }
}

impl From<LineSymbol> for Symbol {
    fn from(value: LineSymbol) -> (symbol: Symbol) {
        Symbol::Line(value)
    }
}

impl vstd::std_specs::convert::FromSpecImpl<LineSymbol> for Symbol {
    open spec fn obeys_from_spec() -> bool {
        true
    }

    open spec fn from_spec(value: LineSymbol) -> Symbol {
        Symbol::Line(value)
    }
}

impl From<PointSymbol> for Symbol {
    fn from(value: PointSymbol) -> (symbol: Symbol) {
        Symbol::Point(value)
    }
}

impl vstd::std_specs::convert::FromSpecImpl<PointSymbol> for Symbol {
    open spec fn obeys_from_spec() -> bool {
        true
    }

    open spec fn from_spec(value: PointSymbol) -> Symbol {
        Symbol::Point(value)
    }
}

/// Law: no two symbols share an ISOM code, so looking a symbol up by its
/// code finds that symbol's entry.
pub proof fn lemma_symbol_codes_distinct(a: Symbol, b: Symbol)
    requires
        code_numbers(a) == code_numbers(b),
    ensures
        a == b,
{
}

} // verus!
