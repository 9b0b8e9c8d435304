//! Key/value tags of map objects and their text in the map file.

use vstd::prelude::*;
use vstd::string::StringExecFns;

verus! {

/// A key/value tag attached to a map object.
pub struct Tag {
    key: String,
    value: String,
}

/// The text of a tag in the map file: `<t k="key">value</t>`.
pub open spec fn tag_text(key: Seq<char>, value: Seq<char>) -> Seq<char> {
    "<t k=\""@ + key + "\">"@ + value + "</t>"@
}

impl Tag {
    /// The key.
    pub closed spec fn key(&self) -> Seq<char> {
        self.key@
    }

    /// The value.
    pub closed spec fn value(&self) -> Seq<char> {
        self.value@
    }

    /// A tag with key `k` and value `v`.
    pub fn new(k: &str, v: &str) -> (tag: Self)
        ensures
            tag.key() == k@,
            tag.value() == v@,
    {
        Tag { key: String::from_str(k), value: String::from_str(v) }
    }

    /// The text of the tag in the map file.
    pub fn to_string(&self) -> (text: String)
        ensures
            text@ == tag_text(self.key(), self.value()),
    {
        let mut text = String::from_str("<t k=\"");
        text.append(self.key.as_str());
        text.append("\">");
        text.append(self.value.as_str());
        text.append("</t>");
        text
    }
}

} // verus!
