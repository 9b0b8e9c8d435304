//! Line objects of the map file, written as coordinate lists.

use vstd::prelude::*;
use vstd::string::StringExecFns;
use crate::map::symbol::Symbol;
use crate::map::tag::Tag;
use crate::map::text::{append_count, append_ring, digits, object_text, open_points_text, point_text, ring_text, tags_block, tags_text};

verus! {

/// The line ends where it starts.
pub open spec fn is_closed(line: Seq<(i64, i64)>) -> bool {
    line.len() > 0 && line[0] == line.last()
}

/// The coordinate block of a line: the point count, then the points; a
/// closed line flags its last point.
pub open spec fn line_coords_text(line: Seq<(i64, i64)>) -> Seq<char> {
    "<coords count=\""@ + digits(line.len()) + "\">"@ + ring_text(line, is_closed(line)) + "</coords>"@
}

/// Law: a line is written as its point count and its points, each point
/// ended by `;`; the last point carries the flag `18` exactly when the line
/// ends at its first point, in both coordinates.
pub proof fn lemma_closing_flag(line: Seq<(i64, i64)>)
    requires
        line.len() > 0,
    ensures
        line_coords_text(line) == "<coords count=\""@ + digits(line.len()) + "\">"@ + open_points_text(line.drop_last())
            + point_text(line.last()) + (if line[0].0 == line.last().0 && line[0].1 == line.last().1 {
            " 18;"@
        } else {
            ";"@
        }) + "</coords>"@,
{
    if line[0].0 == line.last().0 && line[0].1 == line.last().1 {
        assert(line[0] == line.last());
    }
}

/// A line object: a symbol, a line in map coordinates and tags.
pub struct LineObject {
    symbol: Symbol,
    coordinates: Vec<(i64, i64)>,
    tags: Vec<Tag>,
}

impl LineObject {
    /// The symbol.
    pub closed spec fn symbol(&self) -> Symbol {
        self.symbol
    }

    /// The points of the line.
    pub closed spec fn line(&self) -> Seq<(i64, i64)> {
        self.coordinates@
    }

    /// The tags, in the order they were added.
    pub closed spec fn tags(&self) -> Seq<Tag> {
        self.tags@
    }

    /// An untagged line object of the given line and symbol.
    pub fn from_line_string(line: Vec<(i64, i64)>, symbol: Symbol) -> (object: Self)
        ensures
            object.symbol() == symbol,
            object.line() == line@,
            object.tags() == Seq::<Tag>::empty(),
    {
        LineObject { symbol, coordinates: line, tags: Vec::new() }
    }

    /// Adds the tag `k` = `v`.
    pub fn add_tag(&mut self, k: &str, v: &str)
        ensures
            final(self).symbol() == old(self).symbol(),
            final(self).line() == old(self).line(),
            final(self).tags().len() == old(self).tags().len() + 1,
            final(self).tags().drop_last() == old(self).tags(),
            final(self).tags().last().key() == k@,
            final(self).tags().last().value() == v@,
    {
        self.tags.push(Tag::new(k, v));
        assert(self.tags@.drop_last() =~= old(self).tags@);
    }

    /// Tags the object as made by the generator.
    pub fn add_auto_tag(&mut self)
        ensures
            final(self).symbol() == old(self).symbol(),
            final(self).line() == old(self).line(),
            final(self).tags().len() == old(self).tags().len() + 1,
            final(self).tags().drop_last() == old(self).tags(),
            final(self).tags().last().key() == "generator"@,
            final(self).tags().last().value() == "laz2omap"@,
    {
        self.add_tag("generator", "laz2omap");
    }

    /// The coordinate block of the object, with straight segments.
    pub fn polyline_text(&self) -> (text: String)
        requires
            self.line().len() > 0,
        ensures
            text@ == line_coords_text(self.line()),
    {
        let line = &self.coordinates;
        let first = line[0];
        let last = line[line.len() - 1];
        let closed = first.0 == last.0 && first.1 == last.1;
        let mut text = String::from_str("<coords count=\"");
        append_count(&mut text, line.len());
        text.append("\">");
        append_ring(&mut text, line, closed);
        text.append("</coords>");
        assert(text@ =~= line_coords_text(line@));
        text
    }

    /// The tags block of the object.
    pub fn tags_text(&self) -> (text: String)
        ensures
            text@ == tags_block(self.tags()),
    {
        tags_text(&self.tags)
    }

    /// The object's text in the map file, with straight segments.
    pub fn polyline_object_text(&self) -> (text: String)
        requires
            self.line().len() > 0,
        ensures
            text@ == object_text(self.symbol(), self.tags(), line_coords_text(self.line())),
    {
        let mut text = String::from_str("<object type=\"1\" symbol=\"");
        text.append(self.symbol.name());
        text.append("\">");
        let tags = self.tags_text();
        text.append(tags.as_str());
        let coords = self.polyline_text();
        text.append(coords.as_str());
        text.append("</object>\n");
        text
    }
}

} // verus!
