use omapmaker::map::area_object::{AreaObject, MapPolygon};
use omapmaker::map::line_object::LineObject;
use omapmaker::map::merge::ComponentForest;
use omapmaker::map::tag::Tag;
use omapmaker::map::text::append_decimal;
use omapmaker::map::{AreaSymbol, LineSymbol, PointSymbol, Symbol};
use omapmaker::map_gen::common::persistence::PersistenceForest;
use omapmaker::map_gen::egui_map::temp_map;

#[test]
fn tag_text_is_an_xml_element() {
    let tag = Tag::new("elev", "102.5");
    assert_eq!(tag.to_string(), "<t k=\"elev\">102.5</t>");
}

#[test]
fn decimal_text_of_integers() {
    let mut text = String::new();
    for n in [0_i64, 7, 10, -3, 1_234_567, i64::MIN, i64::MAX] {
        append_decimal(&mut text, n);
        text.push(' ');
    }
    assert_eq!(text, "0 7 10 -3 1234567 -9223372036854775808 9223372036854775807 ");
}

#[test]
fn area_object_is_written_as_closed_rings() {
    let polygon = MapPolygon {
        exterior: vec![(0, 0), (10, 0), (10, -10), (0, -10), (0, 0)],
        interiors: vec![vec![(2, -2), (4, -2), (4, -4), (2, -2)]],
    };
    let mut object = AreaObject::from_polygon(polygon, Symbol::Area(AreaSymbol::Marsh));
    assert_eq!(object.tags_text(), "");
    object.add_auto_tag();
    assert_eq!(
        object.polyline_text(),
        "<coords count=\"9\">0 0;10 0;10 -10;0 -10;0 0 18;2 -2;4 -2;4 -4;2 -2 18;</coords>"
    );
    assert_eq!(
        object.polyline_object_text(),
        "<object type=\"1\" symbol=\"Marsh\"><tags><t k=\"generator\">laz2omap</t></tags>\
         <coords count=\"9\">0 0;10 0;10 -10;0 -10;0 0 18;2 -2;4 -2;4 -4;2 -2 18;</coords></object>\n"
    );
}

#[test]
fn line_object_flags_its_end_only_when_closed() {
    let open = LineObject::from_line_string(vec![(1, 2), (3, 4)], Symbol::Line(LineSymbol::Cliff));
    assert_eq!(open.polyline_text(), "<coords count=\"2\">1 2;3 4;</coords>");
    let mut closed = LineObject::from_line_string(vec![(0, 0), (5, 0), (0, 5), (0, 0)], Symbol::Line(LineSymbol::Contour));
    closed.add_tag("elev", "20");
    assert_eq!(
        closed.polyline_object_text(),
        "<object type=\"1\" symbol=\"Contour\"><tags><t k=\"elev\">20</t></tags>\
         <coords count=\"4\">0 0;5 0;0 5;0 0 18;</coords></object>\n"
    );
}

#[test]
fn tags_are_written_in_the_order_they_were_added() {
    let mut line = LineObject::from_line_string(vec![(0, 0)], Symbol::Line(LineSymbol::FormLine));
    line.add_tag("a", "1");
    line.add_tag("b", "2");
    assert_eq!(line.tags_text(), "<tags><t k=\"a\">1</t><t k=\"b\">2</t></tags>");
    assert_eq!(line.polyline_text(), "<coords count=\"1\">0 0 18;</coords>");
}

#[test]
fn joined_components_share_a_root() {
    let mut forest = ComponentForest::new(6);
    for i in 0..6 {
        assert_eq!(forest.component_root(i), i);
    }
    forest.union_components(0, 1);
    forest.union_components(3, 4);
    forest.union_components(1, 4);
    let root = forest.component_root(0);
    for i in [1, 3, 4] {
        assert_eq!(forest.component_root(i), root);
    }
    assert_eq!(forest.component_root(2), 2);
    assert_eq!(forest.component_root(5), 5);
    assert_ne!(forest.component_root(2), root);
    // Joining twice changes nothing.
    forest.union_components(4, 0);
    assert_eq!(forest.component_root(3), root);
}

#[test]
fn union_hangs_the_second_root_below_the_first() {
    let mut forest = ComponentForest::new(3);
    forest.union_components(2, 0);
    assert_eq!(forest.component_root(0), 2);
    forest.union_components(1, 0);
    assert_eq!(forest.component_root(2), 1);
    assert_eq!(forest.component_root(0), 1);
}

#[test]
fn symbols_map_to_their_isom_codes() {
    assert_eq!(AreaSymbol::Marsh.get_code(), omap::Code::new(308, 0, 0));
    assert_eq!(AreaSymbol::WhiteForest.get_code(), omap::Code::new(405, 0, 0));
    assert_eq!(LineSymbol::BasemapContour.get_code(), omap::Code::new(101, 2, 0));
    assert_eq!(LineSymbol::NegBasemapContour.get_code(), omap::Code::new(101, 3, 0));
    assert_eq!(PointSymbol::UDepression.get_code(), omap::Code::new(111, 0, 0));
    assert_eq!(Symbol::Point(PointSymbol::SlopeLineContour).get_code(), omap::Code::new(101, 1, 0));
    assert_eq!(Symbol::from(AreaSymbol::Building), Symbol::Area(AreaSymbol::Building));
}

#[test]
fn symbols_are_found_in_the_bundled_symbol_set() {
    let map = omap::Omap::default_15_000().unwrap();
    for symbol in [Symbol::Area(AreaSymbol::Marsh), Symbol::Line(LineSymbol::Contour), Symbol::Point(PointSymbol::DotKnoll)] {
        let found = symbol.get_omap_symbol_ref(&map.symbols).unwrap();
        assert_eq!(found.symbol().common().code, symbol.get_code());
        let preview: temp_map::Symbol = symbol;
        let found = preview.get_omap_symbol(&map.symbols).unwrap();
        assert_eq!(found.symbol().common().code, symbol.get_code());
    }
}

#[test]
fn union_by_size_keeps_member_lists() {
    let mut forest = PersistenceForest::new(6);
    assert_eq!(forest.union(0, 1), 0);
    assert_eq!(forest.members_of(0), vec![0, 1]);
    // The larger set survives.
    assert_eq!(forest.union(2, 0), 0);
    assert_eq!(forest.members_of(0), vec![0, 1, 2]);
    assert_eq!(forest.union(3, 4), 3);
    assert_eq!(forest.union(4, 1), 0);
    assert_eq!(forest.members_of(0), vec![0, 1, 2, 3, 4]);
    for i in 0..5 {
        assert_eq!(forest.find(i), 0);
    }
    assert_eq!(forest.find(5), 5);
    assert_eq!(forest.members_of(5), vec![5]);
    // Joining members of one set changes nothing.
    assert_eq!(forest.union(2, 4), 0);
    assert_eq!(forest.members_of(0).len(), 5);
}

#[test]
fn every_symbol_has_its_own_code() {
    let areas = [
        AreaSymbol::WhiteForest,
        AreaSymbol::RoughOpenLand,
        AreaSymbol::OpenLand,
        AreaSymbol::SandyGround,
        AreaSymbol::BareRock,
        AreaSymbol::LightGreen,
        AreaSymbol::MediumGreen,
        AreaSymbol::DarkGreen,
        AreaSymbol::Marsh,
        AreaSymbol::PrivateArea,
        AreaSymbol::PavedAreaWithBoundary,
        AreaSymbol::ShallowWaterWithSolidBankLine,
        AreaSymbol::UncrossableWaterWithBankLine,
        AreaSymbol::GiganticBoulder,
        AreaSymbol::Building,
    ];
    let lines = [
        LineSymbol::BasemapContour,
        LineSymbol::FormLine,
        LineSymbol::Contour,
        LineSymbol::IndexContour,
        LineSymbol::NegBasemapContour,
        LineSymbol::SmallCrossableWatercourse,
        LineSymbol::Cliff,
        LineSymbol::ImpassableCliff,
    ];
    let points = [
        PointSymbol::SlopeLineFormLine,
        PointSymbol::SlopeLineContour,
        PointSymbol::DotKnoll,
        PointSymbol::ElongatedDotKnoll,
        PointSymbol::UDepression,
        PointSymbol::SmallBoulder,
        PointSymbol::LargeBoulder,
    ];
    let mut symbols: Vec<Symbol> = Vec::new();
    symbols.extend(areas.iter().map(|a| Symbol::Area(*a)));
    symbols.extend(lines.iter().map(|l| Symbol::Line(*l)));
    symbols.extend(points.iter().map(|p| Symbol::Point(*p)));
    assert_eq!(symbols.len(), 30);
    for (i, first) in symbols.iter().enumerate() {
        for second in symbols.iter().skip(i + 1) {
            assert_ne!(first.get_code(), second.get_code());
        }
    }
}
