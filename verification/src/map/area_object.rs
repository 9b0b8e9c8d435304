//! Area objects of the map file, written as closed coordinate rings.

use vstd::prelude::*;
use vstd::string::StringExecFns;
use crate::map::symbol::Symbol;
use crate::map::tag::Tag;
use crate::map::text::{append_count, append_ring, digits, object_text, ring_text, tags_block, tags_text};

verus! {

/// A polygon in map coordinates: an outer ring and its holes.
pub struct MapPolygon {
    pub exterior: Vec<(i64, i64)>,
    pub interiors: Vec<Vec<(i64, i64)>>,
}

/// The number of points of the holes.
pub open spec fn hole_points(holes: Seq<Vec<(i64, i64)>>) -> nat
    decreases holes.len(),
{
    if holes.len() == 0 {
        0
    } else {
        hole_points(holes.drop_last()) + holes.last()@.len()
    }
}

/// The text of the holes, each a closed ring.
pub open spec fn holes_text(holes: Seq<Vec<(i64, i64)>>) -> Seq<char>
    decreases holes.len(),
{
    if holes.len() == 0 {
        Seq::empty()
    } else {
        holes_text(holes.drop_last()) + ring_text(holes.last()@, true)
    }
}

/// Every ring of the polygon has a point, and the point count fits a
/// `usize`.
pub open spec fn polygon_writable(exterior: Seq<(i64, i64)>, interiors: Seq<Vec<(i64, i64)>>) -> bool {
    &&& exterior.len() > 0
    &&& forall|h: int| 0 <= h < interiors.len() ==> (#[trigger] interiors[h])@.len() > 0
    &&& exterior.len() + hole_points(interiors) <= usize::MAX
}

/// The coordinate block of a polygon: the point count, then the outer ring
/// and the holes, each ring closed.
pub open spec fn polygon_coords_text(exterior: Seq<(i64, i64)>, interiors: Seq<Vec<(i64, i64)>>) -> Seq<char> {
    "<coords count=\""@ + digits(exterior.len() + hole_points(interiors)) + "\">"@ + ring_text(exterior, true)
        + holes_text(interiors) + "</coords>"@
}

/// An area object: a symbol, a polygon and tags.
pub struct AreaObject {
    symbol: Symbol,
    coordinates: MapPolygon,
    tags: Vec<Tag>,
}

impl AreaObject {
    /// The symbol.
    pub closed spec fn symbol(&self) -> Symbol {
        self.symbol
    }

    /// The outer ring.
    pub closed spec fn exterior(&self) -> Seq<(i64, i64)> {
        self.coordinates.exterior@
    }

    /// The holes.
    pub closed spec fn interiors(&self) -> Seq<Vec<(i64, i64)>> {
        self.coordinates.interiors@
    }

    /// The tags, in the order they were added.
    pub closed spec fn tags(&self) -> Seq<Tag> {
        self.tags@
    }

    /// An untagged area object of the given polygon and symbol.
    pub fn from_polygon(polygon: MapPolygon, symbol: Symbol) -> (object: Self)
        ensures
            object.symbol() == symbol,
            object.exterior() == polygon.exterior@,
            object.interiors() == polygon.interiors@,
            object.tags() == Seq::<Tag>::empty(),
    {
        AreaObject { symbol, coordinates: polygon, tags: Vec::new() }
    }

    /// Adds the tag `k` = `v`.
    pub fn add_tag(&mut self, k: &str, v: &str)
        ensures
            final(self).symbol() == old(self).symbol(),
            final(self).exterior() == old(self).exterior(),
            final(self).interiors() == old(self).interiors(),
            final(self).tags().len() == old(self).tags().len() + 1,
            final(self).tags().drop_last() == old(self).tags(),
            final(self).tags().last().key() == k@,
            final(self).tags().last().value() == v@,
    {
        self.tags.push(Tag::new(k, v));
        assert(self.tags@.drop_last() =~= old(self).tags@);
    }

    /// Tags the object as made by the generator.
    pub fn add_auto_tag(&mut self)
        ensures
            final(self).symbol() == old(self).symbol(),
            final(self).exterior() == old(self).exterior(),
            final(self).interiors() == old(self).interiors(),
            final(self).tags().len() == old(self).tags().len() + 1,
            final(self).tags().drop_last() == old(self).tags(),
            final(self).tags().last().key() == "generator"@,
            final(self).tags().last().value() == "laz2omap"@,
    {
        self.add_tag("generator", "laz2omap");
    }

    /// The coordinate block of the object, with straight segments.
    pub fn polyline_text(&self) -> (text: String)
        requires
            polygon_writable(self.exterior(), self.interiors()),
        ensures
            text@ == polygon_coords_text(self.exterior(), self.interiors()),
    {
        let exterior = &self.coordinates.exterior;
        let interiors = &self.coordinates.interiors;
        let mut count: usize = exterior.len();
        let mut h: usize = 0;
        while h < interiors.len()
            invariant
                polygon_writable(exterior@, interiors@),
                h <= interiors@.len(),
                count == exterior@.len() + hole_points(interiors@.subrange(0, h as int)),
            decreases interiors@.len() - h,
        {
            proof {
                assert(interiors@.subrange(0, h + 1).drop_last() =~= interiors@.subrange(0, h as int));
                lemma_hole_points_prefix(interiors@, h + 1);
            }
            count = count + interiors[h].len();
            h = h + 1;
        }
        proof {
            assert(interiors@.subrange(0, interiors@.len() as int) =~= interiors@);
        }
        let mut text = String::from_str("<coords count=\"");
        append_count(&mut text, count);
        text.append("\">");
        append_ring(&mut text, exterior, true);
        let ghost start = text@;
        let mut h: usize = 0;
        while h < interiors.len()
            invariant
                polygon_writable(exterior@, interiors@),
                h <= interiors@.len(),
                text@ == start + holes_text(interiors@.subrange(0, h as int)),
            decreases interiors@.len() - h,
        {
            append_ring(&mut text, &interiors[h], true);
            proof {
                assert(interiors@.subrange(0, h + 1).drop_last() =~= interiors@.subrange(0, h as int));
            }
            assert(text@ =~= start + holes_text(interiors@.subrange(0, h + 1)));
            h = h + 1;
        }
        text.append("</coords>");
        assert(text@ =~= polygon_coords_text(exterior@, interiors@));
        text
    }

    /// The tags block of the object.
    pub fn tags_text(&self) -> (text: String)
        ensures
            text@ == tags_block(self.tags()),
    {
        tags_text(&self.tags)
    }

    /// The object's text in the map file, with straight segments.
    pub fn polyline_object_text(&self) -> (text: String)
        requires
            polygon_writable(self.exterior(), self.interiors()),
        ensures
            text@ == object_text(self.symbol(), self.tags(), polygon_coords_text(self.exterior(), self.interiors())),
    {
        let mut text = String::from_str("<object type=\"1\" symbol=\"");
        text.append(self.symbol.name());
        text.append("\">");
        let tags = self.tags_text();
        text.append(tags.as_str());
        let coords = self.polyline_text();
        text.append(coords.as_str());
        text.append("</object>\n");
        text
    }
}

/// The point count of a prefix of the holes is at most that of all holes.
proof fn lemma_hole_points_prefix(holes: Seq<Vec<(i64, i64)>>, k: int)
    requires
        0 <= k <= holes.len(),
    ensures
        hole_points(holes.subrange(0, k)) <= hole_points(holes),
    decreases holes.len(),
{
    if k < holes.len() {
        assert(holes.drop_last() =~= holes.subrange(0, holes.len() - 1));
        assert(holes.drop_last().subrange(0, k) =~= holes.subrange(0, k));
        lemma_hole_points_prefix(holes.drop_last(), k);
    } else {
        assert(holes.subrange(0, k) =~= holes);
    }
}

} // verus!
