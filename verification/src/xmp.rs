//! The markup of a packet: reading its fields and rewriting them.

use vstd::prelude::*;

pub mod copying;
pub mod keeping;
pub mod laws;
pub mod once;
pub mod rewrite;
pub mod rule;
pub mod rules;
pub mod twice;

pub use rewrite::WriteError;
pub use rule::{RewriteAction, RewriteRule, RewriteRuleError, SetRdfList, SetToCurrentDateTime};

use crate::codec::{parsed_events, read_events};
use crate::markup::{events_view, Attribute, AttributeView, MarkupEvent, MarkupEventView, QNameView};
use crate::text::{opt_text, texts_view};

verus! {

/// Why bytes could not be read as markup.
#[derive(Debug)]
pub enum XmpParseError {
    /// The markup is malformed; the reader's error says where and how.
    Xml(xml::reader::Error),
}

/// Whether a name is that of the description element, which holds the
/// fields of a document.
pub open spec fn is_description(name: QNameView) -> bool {
    name.is(Some(crate::ns::RDF@), "Description"@)
}

/// Whether an event starts an element of this namespace and local name.
pub open spec fn starts_element(
    event: MarkupEventView,
    namespace: Option<Seq<char>>,
    local_name: Seq<char>,
) -> bool {
    event matches MarkupEventView::StartElement { name, .. } && name.is(namespace, local_name)
}

/// The index of the first event at or after `from` that starts an element
/// of this namespace and local name, or the number of events when none
/// does.
pub open spec fn first_start(
    events: Seq<MarkupEventView>,
    namespace: Option<Seq<char>>,
    local_name: Seq<char>,
    from: int,
) -> int
    decreases events.len() - from,
{
    if from < 0 || from >= events.len() {
        events.len() as int
    } else if starts_element(events[from], namespace, local_name) {
        from
    } else {
        first_start(events, namespace, local_name, from + 1)
    }
}

/// The value of the first attribute at or after `from` that has this
/// namespace and local name.
pub open spec fn attribute_value(
    attributes: Seq<AttributeView>,
    namespace: Option<Seq<char>>,
    local_name: Seq<char>,
    from: int,
) -> Option<Seq<char>>
    decreases attributes.len() - from,
{
    if from < 0 || from >= attributes.len() {
        None
    } else if attributes[from].name.is(namespace, local_name) {
        Some(attributes[from].value)
    } else {
        attribute_value(attributes, namespace, local_name, from + 1)
    }
}

/// The depth of nesting behind an event, where it was `depth` before it.
pub open spec fn depth_behind(event: MarkupEventView, depth: int) -> int {
    match event {
        MarkupEventView::StartElement { .. } => depth + 1,
        MarkupEventView::EndElement { .. } => depth - 1,
        _ => depth,
    }
}

/// The number of events from `from` on that lie inside an element which is
/// open `depth` levels deep there: all up to the end event that closes it,
/// that one included, or all that are left where nothing closes it.
pub open spec fn subtree_len(events: Seq<MarkupEventView>, from: int, depth: int) -> int
    decreases events.len() - from,
{
    if from < 0 || from >= events.len() || depth <= 0 {
        0
    } else {
        1 + subtree_len(events, from + 1, depth_behind(events[from], depth))
    }
}

/// A subtree ends within the events.
pub proof fn lemma_subtree_len(events: Seq<MarkupEventView>, from: int, depth: int)
    requires
        0 <= from <= events.len(),
    ensures
        0 <= subtree_len(events, from, depth) <= events.len() - from,
    decreases events.len() - from,
{
    if from < events.len() && depth > 0 {
        lemma_subtree_len(events, from + 1, depth_behind(events[from], depth));
    }
}

/// The texts of the text events among `events[from..to]`, in order.
pub open spec fn texts_between(events: Seq<MarkupEventView>, from: int, to: int) -> Seq<Seq<char>>
    decreases to - from,
{
    if from >= to || from < 0 || to > events.len() {
        Seq::empty()
    } else {
        match events[to - 1] {
            MarkupEventView::Characters(text) => texts_between(events, from, to - 1).push(text),
            _ => texts_between(events, from, to - 1),
        }
    }
}

/// The value that the first description element gives as an attribute to the
/// field `local_name` of the catalog's vocabulary.
pub open spec fn attribute_field(events: Seq<MarkupEventView>, local_name: Seq<char>) -> Option<
    Seq<char>,
> {
    let at = first_start(events, Some(crate::ns::RDF@), "Description"@, 0);
    if at < events.len() {
        attribute_value(
            events[at]->StartElement_attributes,
            Some(crate::ns::ACDSEE@),
            local_name,
            0,
        )
    } else {
        None
    }
}

/// The value that the first element of a namespace and local name holds:
/// the text that follows its start, the empty text where its end follows,
/// and none where anything else follows or there is no such element.
pub open spec fn element_value(
    events: Seq<MarkupEventView>,
    namespace: Option<Seq<char>>,
    local_name: Seq<char>,
) -> Option<Seq<char>> {
    let at = first_start(events, namespace, local_name, 0);
    if at + 1 < events.len() {
        match events[at + 1] {
            MarkupEventView::Characters(text) => Some(text),
            MarkupEventView::EndElement { .. } => Some(Seq::empty()),
            _ => None,
        }
    } else {
        None
    }
}

/// The texts inside the first element of a namespace and local name, in the
/// order of the document.
pub open spec fn element_texts(
    events: Seq<MarkupEventView>,
    namespace: Option<Seq<char>>,
    local_name: Seq<char>,
) -> Seq<Seq<char>> {
    let at = first_start(events, namespace, local_name, 0);
    if at < events.len() {
        texts_between(events, at + 1, at + 1 + subtree_len(events, at + 1, 1))
    } else {
        Seq::empty()
    }
}

/// The value that the first element of the field `local_name` of the
/// catalog's vocabulary holds.
pub open spec fn element_field(events: Seq<MarkupEventView>, local_name: Seq<char>) -> Option<
    Seq<char>,
> {
    element_value(events, Some(crate::ns::ACDSEE@), local_name)
}

/// The value of a field that holds one value: that of the attribute where
/// there is one, else that of the element.
pub open spec fn scalar_field(events: Seq<MarkupEventView>, local_name: Seq<char>) -> Option<
    Seq<char>,
> {
    match attribute_field(events, local_name) {
        Some(value) => Some(value),
        None => element_field(events, local_name),
    }
}

/// The values of a field that holds many: the texts inside the first element
/// of the field `local_name` of the catalog's vocabulary, in the order of
/// the document.
pub open spec fn bag_field(events: Seq<MarkupEventView>, local_name: Seq<char>) -> Seq<Seq<char>> {
    element_texts(events, Some(crate::ns::ACDSEE@), local_name)
}

/// The index of the first event at or after `from` that starts an element
/// of this namespace and local name.
pub fn find_start(
    events: &Vec<MarkupEvent>,
    namespace: Option<&str>,
    local_name: &str,
    from: usize,
) -> (r: usize)
    ensures
        r == first_start(events_view(events@), opt_text(namespace), local_name@, from as int),
        from <= r <= events@.len() || (from > events@.len() && r == events@.len()),
        r < events@.len() ==> starts_element(events@[r as int]@, opt_text(namespace), local_name@),
{
    let mut i: usize = from;
    if i > events.len() {
        return events.len();
    }
    while i < events.len()
        invariant
            from <= i <= events@.len(),
            first_start(events_view(events@), opt_text(namespace), local_name@, i as int)
                == first_start(events_view(events@), opt_text(namespace), local_name@, from as int),
        decreases events@.len() - i,
    {
        let found = match &events[i] {
            MarkupEvent::StartElement { name, .. } => name.is(namespace, local_name),
            _ => false,
        };
        if found {
            return i;
        }
        i += 1;
    }
    i
}

/// The value of the first attribute that has this namespace and local name.
pub fn find_attribute<'a>(
    attributes: &'a Vec<Attribute>,
    namespace: Option<&str>,
    local_name: &str,
) -> (r: Option<&'a String>)
    ensures
        match r {
            Some(value) => attribute_value(
                crate::markup::attributes_view(attributes@),
                opt_text(namespace),
                local_name@,
                0,
            ) == Some(value@),
            None => attribute_value(
                crate::markup::attributes_view(attributes@),
                opt_text(namespace),
                local_name@,
                0,
            ).is_none(),
        },
{
    let mut i: usize = 0;
    while i < attributes.len()
        invariant
            i <= attributes@.len(),
            attribute_value(
                crate::markup::attributes_view(attributes@),
                opt_text(namespace),
                local_name@,
                i as int,
            ) == attribute_value(
                crate::markup::attributes_view(attributes@),
                opt_text(namespace),
                local_name@,
                0,
            ),
        decreases attributes@.len() - i,
    {
        if attributes[i].name.is(namespace, local_name) {
            return Some(&attributes[i].value);
        }
        i += 1;
    }
    None
}

/// The markup of a packet, as the events it is made of.
#[derive(Debug)]
pub struct XmpData {
    events: Vec<MarkupEvent>,
}

impl View for XmpData {
    type V = Seq<MarkupEventView>;

    closed spec fn view(&self) -> Seq<MarkupEventView> {
        events_view(self.events@)
    }
}

impl XmpData {
    /// Reads markup. Text that is white space only is left out, the white
    /// space around other text is cut off, and character data sections are
    /// read as text.
    pub fn parse(source: &[u8]) -> (r: Result<XmpData, XmpParseError>)
        ensures
            match r {
                Ok(data) => parsed_events(source@, true, true) == Some(data@),
                Err(_) => parsed_events(source@, true, true).is_none(),
            },
    {
        match read_events(source, true, true) {
            Ok(events) => Ok(XmpData { events }),
            Err(error) => Err(XmpParseError::Xml(error)),
        }
    }

    /// The document that is made of `events`.
    pub fn from_events(events: Vec<MarkupEvent>) -> (r: XmpData)
        ensures
            r@ == events_view(events@),
    {
        XmpData { events }
    }

    /// The events of the document.
    pub fn events(&self) -> (r: &Vec<MarkupEvent>)
        ensures
            events_view(r@) == self@,
    {
        &self.events
    }

    /// The value that the first description element gives as an attribute
    /// to a field of the catalog's vocabulary.
    pub fn acdsee_attr_value(&self, local_name: &str) -> (r: Option<String>)
        ensures
            crate::text::opt_string(r) == attribute_field(self@, local_name@),
    {
        let at = find_start(&self.events, Some(crate::ns::RDF), "Description", 0);
        if at < self.events.len() {
            match &self.events[at] {
                MarkupEvent::StartElement { attributes, .. } => {
                    match find_attribute(attributes, Some(crate::ns::ACDSEE), local_name) {
                        Some(value) => Some(value.clone()),
                        None => None,
                    }
                },
                _ => None,
            }
        } else {
            None
        }
    }

    /// The value of a field of the catalog's vocabulary that holds one
    /// value. An attribute of the description element counts before an
    /// element of the field's name.
    pub fn acdsee_tag_value(&self, local_name: &str) -> (r: Option<String>)
        ensures
            crate::text::opt_string(r) == scalar_field(self@, local_name@),
    {
        match self.acdsee_attr_value(local_name) {
            Some(value) => Some(value),
            None => {
                let at = find_start(&self.events, Some(crate::ns::ACDSEE), local_name, 0);
                if at < self.events.len() && at + 1 < self.events.len() {
                    match &self.events[at + 1] {
                        MarkupEvent::Characters(text) => Some(text.clone()),
                        MarkupEvent::EndElement { .. } => Some(String::new()),
                        _ => None,
                    }
                } else {
                    None
                }
            },
        }
    }

    /// The values of a field of the catalog's vocabulary that holds many.
    pub fn acdsee_bag_value(&self, local_name: &str) -> (r: Vec<String>)
        ensures
            texts_view(r@) == bag_field(self@, local_name@),
    {
        let mut values: Vec<String> = Vec::new();
        let at = find_start(&self.events, Some(crate::ns::ACDSEE), local_name, 0);
        assert(texts_view(values@) =~= Seq::<Seq<char>>::empty());
        if at >= self.events.len() {
            return values;
        }
        let first = at + 1;
        let mut i: usize = first;
        let mut depth: usize = 1;
        let ghost events = self@;
        proof {
            lemma_subtree_len(events, first as int, 1);
        }
        while i < self.events.len() && depth > 0
            invariant
                first <= i <= self.events@.len(),
                events == events_view(self.events@),
                depth <= i,
                subtree_len(events, i as int, depth as int) + (i - first) == subtree_len(
                    events,
                    first as int,
                    1,
                ),
                texts_view(values@) == texts_between(events, first as int, i as int),
            decreases self.events@.len() - i,
        {
            match &self.events[i] {
                MarkupEvent::StartElement { .. } => {
                    depth += 1;
                },
                MarkupEvent::EndElement { .. } => {
                    depth -= 1;
                },
                MarkupEvent::Characters(text) => {
                    values.push(text.clone());
                },
                _ => {},
            }
            proof {
                assert(texts_view(values@) =~= texts_between(events, first as int, i + 1));
            }
            i += 1;
        }
        values
    }
}

} // verus!
