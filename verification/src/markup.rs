//! Reading one start tag with the XML reader.

use vstd::prelude::*;
use xml::reader::{EventReader, XmlEvent};
use crate::event::{Attribute, AttributeModel};

verus! {

/// What the XML reader makes of the start tag written as `raw`: the tag's
/// local name and its attributes, each with its local name and its value, in
/// the order in which they are written; `None` where it cannot read `raw` as a
/// start tag.
pub uninterp spec fn xml_start_tag(raw: Seq<char>) -> Option<(Seq<char>, Seq<AttributeModel>)>;

/// Reads `raw` with `xml::reader::EventReader`, as a document of its own. The
/// reader first gives the start of the document and then, where `raw` is a
/// start tag that it accepts, a `StartElement`: its name and attributes are
/// the result. What the reader gives depends on `raw` alone.
#[verifier::external_body]
pub(crate) fn read_start_tag(raw: &str) -> (tag: Option<(String, Vec<Attribute>)>)
    ensures
        match tag {
            Some((name, attributes)) => xml_start_tag(raw@) == Some(
                (name@, attributes.deep_view()),
            ),
            None => xml_start_tag(raw@) is None,
        },
{
    match EventReader::from_str(raw).into_iter().nth(1) {
        Some(Ok(XmlEvent::StartElement { name, attributes, .. })) => Some(
            (
                name.local_name,
                attributes.into_iter().map(
                    |a| Attribute { name: a.name.local_name, value: a.value },
                ).collect(),
            ),
        ),
        _ => None,
    }
}

} // verus!
