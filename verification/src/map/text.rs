//! The text of map objects in the map file: decimal integers, coordinate
//! lists and tag lists.

use vstd::prelude::*;
use vstd::string::StringExecFns;
use crate::map::symbol::{symbol_text, Symbol};
use crate::map::tag::{tag_text, Tag};

verus! {

/// The character of a decimal digit.
pub open spec fn digit_char(d: nat) -> char {
    if d == 0 {
        '0'
    } else if d == 1 {
        '1'
    } else if d == 2 {
        '2'
    } else if d == 3 {
        '3'
    } else if d == 4 {
        '4'
    } else if d == 5 {
        '5'
    } else if d == 6 {
        '6'
    } else if d == 7 {
        '7'
    } else if d == 8 {
        '8'
    } else {
        '9'
    }
}

/// The decimal digits of `n`, most significant first, without leading
/// zeros (zero is `0`).
pub open spec fn digits(n: nat) -> Seq<char>
    decreases n,
{
    if n < 10 {
        seq![digit_char(n)]
    } else {
        digits(n / 10).push(digit_char(n % 10))
    }
}

/// The decimal text of `n`, with a leading `-` when negative.
pub open spec fn decimal(n: int) -> Seq<char> {
    if n < 0 {
        seq!['-'] + digits((-n) as nat)
    } else {
        digits(n as nat)
    }
}

/// The text of one digit.
fn digit_text(d: u64) -> (text: &'static str)
    requires
        d < 10,
    ensures
        text@ == seq![digit_char(d as nat)],
{
    proof {
        reveal_strlit("0");
        reveal_strlit("1");
        reveal_strlit("2");
        reveal_strlit("3");
        reveal_strlit("4");
        reveal_strlit("5");
        reveal_strlit("6");
        reveal_strlit("7");
        reveal_strlit("8");
        reveal_strlit("9");
    }
    if d == 0 {
        "0"
    } else if d == 1 {
        "1"
    } else if d == 2 {
        "2"
    } else if d == 3 {
        "3"
    } else if d == 4 {
        "4"
    } else if d == 5 {
        "5"
    } else if d == 6 {
        "6"
    } else if d == 7 {
        "7"
    } else if d == 8 {
        "8"
    } else {
        "9"
    }
}

/// Appends the decimal digits of `n`.
pub fn append_digits(text: &mut String, n: u64)
    ensures
        final(text)@ == old(text)@ + digits(n as nat),
    decreases n,
{
    if n >= 10 {
        append_digits(text, n / 10);
    }
    text.append(digit_text(n % 10));
    proof {
        if n >= 10 {
            assert(digits(n as nat) == digits((n / 10) as nat).push(digit_char((n % 10) as nat)));
        }
    }
    assert(text@ =~= old(text)@ + digits(n as nat));
}

/// Appends the decimal text of `n`.
pub fn append_decimal(text: &mut String, n: i64)
    ensures
        final(text)@ == old(text)@ + decimal(n as int),
{
    if n < 0 {
        text.append("-");
        proof {
            reveal_strlit("-");
        }
        let magnitude: u64 = if n == i64::MIN {
            9_223_372_036_854_775_808u64
        } else {
            (-n) as u64
        };
        append_digits(text, magnitude);
        assert(text@ =~= old(text)@ + decimal(n as int));
    } else {
        append_digits(text, n as u64);
    }
}

/// Appends the decimal text of a count.
pub fn append_count(text: &mut String, n: usize)
    ensures
        final(text)@ == old(text)@ + digits(n as nat),
{
    append_digits(text, n as u64);
}

/// The text of a point: its two map coordinates.
pub open spec fn point_text(p: (i64, i64)) -> Seq<char> {
    decimal(p.0 as int) + " "@ + decimal(p.1 as int)
}

/// The text of points that do not end a ring: each followed by `;`.
pub open spec fn open_points_text(points: Seq<(i64, i64)>) -> Seq<char>
    decreases points.len(),
{
    if points.len() == 0 {
        Seq::empty()
    } else {
        open_points_text(points.drop_last()) + point_text(points.last()) + ";"@
    }
}

/// The text of a ring or line: its last point carries the flag `18` when
/// the ring is closed.
pub open spec fn ring_text(ring: Seq<(i64, i64)>, closed: bool) -> Seq<char> {
    open_points_text(ring.drop_last()) + point_text(ring.last()) + if closed {
        " 18;"@
    } else {
        ";"@
    }
}

/// Appends the text of a ring or line.
pub fn append_ring(text: &mut String, ring: &Vec<(i64, i64)>, closed: bool)
    requires
        ring@.len() > 0,
    ensures
        final(text)@ == old(text)@ + ring_text(ring@, closed),
{
    let last = ring.len() - 1;
    let mut i: usize = 0;
    while i < last
        invariant
            last == ring@.len() - 1,
            i <= last,
            text@ == old(text)@ + open_points_text(ring@.subrange(0, i as int)),
        decreases last - i,
    {
        let point = ring[i];
        append_decimal(text, point.0);
        text.append(" ");
        append_decimal(text, point.1);
        text.append(";");
        proof {
            let shorter = ring@.subrange(0, i as int);
            let longer = ring@.subrange(0, i + 1);
            assert(longer.drop_last() =~= shorter);
            assert(longer.last() == point);
        }
        assert(text@ =~= old(text)@ + open_points_text(ring@.subrange(0, i + 1)));
        i = i + 1;
    }
    let point = ring[last];
    append_decimal(text, point.0);
    text.append(" ");
    append_decimal(text, point.1);
    if closed {
        text.append(" 18;");
    } else {
        text.append(";");
    }
    proof {
        assert(ring@.drop_last() =~= ring@.subrange(0, last as int));
    }
    assert(text@ =~= old(text)@ + ring_text(ring@, closed));
}

/// The text of a list of tags, one after the other.
pub open spec fn tag_list_text(tags: Seq<Tag>) -> Seq<char>
    decreases tags.len(),
{
    if tags.len() == 0 {
        Seq::empty()
    } else {
        tag_list_text(tags.drop_last()) + tag_text(tags.last().key(), tags.last().value())
    }
}

/// The tags block of an object: nothing without tags, else the tags inside
/// `<tags>`.
pub open spec fn tags_block(tags: Seq<Tag>) -> Seq<char> {
    if tags.len() == 0 {
        Seq::empty()
    } else {
        "<tags>"@ + tag_list_text(tags) + "</tags>"@
    }
}

/// The tags block of an object.
pub fn tags_text(tags: &Vec<Tag>) -> (text: String)
    ensures
        text@ == tags_block(tags@),
{
    let mut text = String::new();
    if tags.len() == 0 {
        return text;
    }
    text.append("<tags>");
    let ghost start = text@;
    let mut i: usize = 0;
    while i < tags.len()
        invariant
            i <= tags@.len(),
            text@ == start + tag_list_text(tags@.subrange(0, i as int)),
        decreases tags@.len() - i,
    {
        let tag = tags[i].to_string();
        text.append(tag.as_str());
        proof {
            let shorter = tags@.subrange(0, i as int);
            let longer = tags@.subrange(0, i + 1);
            assert(longer.drop_last() =~= shorter);
        }
        assert(text@ =~= start + tag_list_text(tags@.subrange(0, i + 1)));
        i = i + 1;
    }
    text.append("</tags>");
    proof {
        assert(tags@.subrange(0, tags@.len() as int) =~= tags@);
    }
    text
}

/// The text of an object of the map file: its symbol, tags and
/// coordinates.
pub open spec fn object_text(symbol: Symbol, tags: Seq<Tag>, coords: Seq<char>) -> Seq<char> {
    "<object type=\"1\" symbol=\""@ + symbol_text(symbol) + "\">"@ + tags_block(tags) + coords + "</object>\n"@
}

} // verus!
