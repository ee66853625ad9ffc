//! The events that a packet's markup is made of, and their mathematical
//! views.
//!
//! A document is a flat sequence of events: element boundaries, text, and
//! the few other things that markup can hold. Namespace bindings are kept in
//! the markup crate's own map from prefix to URI.

use vstd::prelude::*;
use xml::common::XmlVersion;
use xml::namespace::Namespace;

use crate::text::{opt_as_str, opt_string, opt_text, opt_text_eq, opt_to_owned, text_eq};

verus! {

/// The markup crate's map from namespace prefixes to URIs.
#[verifier::external_type_specification]
#[verifier::external_body]
pub struct ExNamespace(Namespace);

/// The markup crate's version of the markup language, as a document's
/// declaration names it.
#[verifier::external_type_specification]
#[verifier::external_body]
pub struct ExXmlVersion(XmlVersion);

/// The bindings that a namespace map holds, from prefix to URI.
pub uninterp spec fn namespace_bindings(namespace: Namespace) -> Map<Seq<char>, Seq<char>>;

/// `Namespace::empty`: a map without bindings.
#[verifier::external_body]
pub(crate) fn namespace_empty() -> (r: Namespace)
    ensures
        namespace_bindings(r) == no_bindings(),
{
    Namespace::empty()
}

/// `Namespace::put`: binds the prefix to the URI unless the map binds the
/// prefix already, and says whether it did.
#[verifier::external_body]
pub(crate) fn namespace_put(namespace: &mut Namespace, prefix: &str, uri: &str) -> (r: bool)
    ensures
        r == !namespace_bindings(*old(namespace)).dom().contains(prefix@),
        namespace_bindings(*final(namespace)) == put_binding(
            namespace_bindings(*old(namespace)),
            prefix@,
            uri@,
        ),
{
    namespace.put(prefix, uri)
}

/// `Namespace::extend` over the bindings of another map: each of them is
/// put, so a prefix that the map binds already keeps its URI.
#[verifier::external_body]
pub(crate) fn namespace_extend(namespace: &mut Namespace, other: &Namespace)
    ensures
        namespace_bindings(*final(namespace)) == merge_bindings(
            namespace_bindings(*old(namespace)),
            namespace_bindings(*other),
        ),
{
    namespace.extend(other.iter())
}

/// `Namespace::clone`: a map with the same bindings.
#[verifier::external_body]
pub(crate) fn namespace_clone(namespace: &Namespace) -> (r: Namespace)
    ensures
        namespace_bindings(r) == namespace_bindings(*namespace),
{
    namespace.clone()
}

/// The bindings of a map that binds nothing.
pub open spec fn no_bindings() -> Map<Seq<char>, Seq<char>> {
    Map::empty()
}

/// `bindings` with `prefix` bound to `uri`, unless it is bound already.
pub open spec fn put_binding(
    bindings: Map<Seq<char>, Seq<char>>,
    prefix: Seq<char>,
    uri: Seq<char>,
) -> Map<Seq<char>, Seq<char>> {
    if bindings.dom().contains(prefix) {
        bindings
    } else {
        bindings.insert(prefix, uri)
    }
}

/// The bindings of `bindings`, and those of `more` whose prefix `bindings`
/// does not bind.
pub open spec fn merge_bindings(
    bindings: Map<Seq<char>, Seq<char>>,
    more: Map<Seq<char>, Seq<char>>,
) -> Map<Seq<char>, Seq<char>> {
    more.union_prefer_right(bindings)
}

/// A qualified name.
#[derive(Debug, PartialEq, Eq)]
pub struct QName {
    pub local_name: String,
    pub namespace: Option<String>,
    pub prefix: Option<String>,
}

/// A qualified name, as three texts.
pub struct QNameView {
    pub local_name: Seq<char>,
    pub namespace: Option<Seq<char>>,
    pub prefix: Option<Seq<char>>,
}

impl View for QName {
    type V = QNameView;

    open spec fn view(&self) -> QNameView {
        QNameView {
            local_name: self.local_name@,
            namespace: opt_string(self.namespace),
            prefix: opt_string(self.prefix),
        }
    }
}

impl QNameView {
    /// Whether the name has this namespace and this local name; prefixes do
    /// not count.
    pub open spec fn is(self, namespace: Option<Seq<char>>, local_name: Seq<char>) -> bool {
        self.namespace == namespace && self.local_name == local_name
    }
}

impl QName {
    /// A name without namespace and prefix.
    pub fn local(local_name: &str) -> (r: QName)
        ensures
            r@ == (QNameView { local_name: local_name@, namespace: None, prefix: None }),
    {
        QName { local_name: local_name.to_owned(), namespace: None, prefix: None }
    }

    /// A name in a namespace, with or without a prefix.
    pub fn qualified(local_name: &str, namespace: &str, prefix: Option<&str>) -> (r: QName)
        ensures
            r@ == (QNameView {
                local_name: local_name@,
                namespace: Some(namespace@),
                prefix: opt_text(prefix),
            }),
    {
        QName {
            local_name: local_name.to_owned(),
            namespace: Some(namespace.to_owned()),
            prefix: opt_to_owned(prefix),
        }
    }

    /// Whether the name has this namespace and this local name.
    pub fn is(&self, namespace: Option<&str>, local_name: &str) -> (r: bool)
        ensures
            r == self@.is(opt_text(namespace), local_name@),
    {
        text_eq(self.local_name.as_str(), local_name) && opt_text_eq(
            opt_as_str(&self.namespace),
            namespace,
        )
    }

    /// A copy of the name.
    pub fn duplicate(&self) -> (r: QName)
        ensures
            r@ == self@,
    {
        QName {
            local_name: self.local_name.clone(),
            namespace: opt_to_owned(opt_as_str(&self.namespace)),
            prefix: opt_to_owned(opt_as_str(&self.prefix)),
        }
    }
}

/// An attribute of an element.
#[derive(Debug, PartialEq, Eq)]
pub struct Attribute {
    pub name: QName,
    pub value: String,
}

/// An attribute, as a name and a text.
pub struct AttributeView {
    pub name: QNameView,
    pub value: Seq<char>,
}

impl View for Attribute {
    type V = AttributeView;

    open spec fn view(&self) -> AttributeView {
        AttributeView { name: self.name@, value: self.value@ }
    }
}

impl Attribute {
    /// A copy of the attribute.
    pub fn duplicate(&self) -> (r: Attribute)
        ensures
            r@ == self@,
    {
        Attribute { name: self.name.duplicate(), value: self.value.clone() }
    }
}

/// The views of the attributes of a list.
pub open spec fn attributes_view(attributes: Seq<Attribute>) -> Seq<AttributeView> {
    attributes.map_values(|a: Attribute| a@)
}

/// A copy of a list of attributes.
pub fn clone_attributes(attributes: &Vec<Attribute>) -> (r: Vec<Attribute>)
    ensures
        attributes_view(r@) == attributes_view(attributes@),
{
    let mut out: Vec<Attribute> = Vec::with_capacity(attributes.len());
    let mut i: usize = 0;
    while i < attributes.len()
        invariant
            i <= attributes.len(),
            out@.len() == i,
            forall|k: int| 0 <= k < i ==> out@[k]@ == attributes@[k]@,
        decreases attributes.len() - i,
    {
        out.push(attributes[i].duplicate());
        i += 1;
    }
    assert(attributes_view(out@) =~= attributes_view(attributes@));
    out
}

/// One event of a document.
#[derive(Debug, PartialEq)]
#[allow(inconsistent_fields)]
pub enum MarkupEvent {
    /// The start of the document, with what its declaration says.
    StartDocument { version: XmlVersion, encoding: String, standalone: Option<bool> },
    /// The end of the document.
    EndDocument,
    ProcessingInstruction { name: String, data: Option<String> },
    /// The start of an element, with the namespace bindings in scope there.
    StartElement { name: QName, attributes: Vec<Attribute>, namespace: Namespace },
    EndElement { name: QName },
    CData(String),
    Comment(String),
    /// Text.
    Characters(String),
    Whitespace(String),
}

/// An event, with texts, sequences and maps in place of strings, vectors
/// and namespace maps.
#[allow(inconsistent_fields)]
pub enum MarkupEventView {
    StartDocument { version: XmlVersion, encoding: Seq<char>, standalone: Option<bool> },
    EndDocument,
    ProcessingInstruction { name: Seq<char>, data: Option<Seq<char>> },
    StartElement {
        name: QNameView,
        attributes: Seq<AttributeView>,
        namespace: Map<Seq<char>, Seq<char>>,
    },
    EndElement { name: QNameView },
    CData(Seq<char>),
    Comment(Seq<char>),
    Characters(Seq<char>),
    Whitespace(Seq<char>),
}

impl View for MarkupEvent {
    type V = MarkupEventView;

    open spec fn view(&self) -> MarkupEventView {
        match *self {
            MarkupEvent::StartDocument { version, encoding, standalone } => {
                MarkupEventView::StartDocument { version, encoding: encoding@, standalone }
            },
            MarkupEvent::EndDocument => MarkupEventView::EndDocument,
            MarkupEvent::ProcessingInstruction { name, data } => {
                MarkupEventView::ProcessingInstruction { name: name@, data: opt_string(data) }
            },
            MarkupEvent::StartElement { name, attributes, namespace } => {
                MarkupEventView::StartElement {
                    name: name@,
                    attributes: attributes_view(attributes@),
                    namespace: namespace_bindings(namespace),
                }
            },
            MarkupEvent::EndElement { name } => MarkupEventView::EndElement { name: name@ },
            MarkupEvent::CData(text) => MarkupEventView::CData(text@),
            MarkupEvent::Comment(text) => MarkupEventView::Comment(text@),
            MarkupEvent::Characters(text) => MarkupEventView::Characters(text@),
            MarkupEvent::Whitespace(text) => MarkupEventView::Whitespace(text@),
        }
    }
}

impl MarkupEvent {
    /// A copy of the event.
    pub fn duplicate(&self) -> (r: MarkupEvent)
        ensures
            r@ == self@,
    {
        match self {
            MarkupEvent::StartDocument { version, encoding, standalone } => {
                MarkupEvent::StartDocument {
                    version: *version,
                    encoding: encoding.clone(),
                    standalone: *standalone,
                }
            },
            MarkupEvent::EndDocument => MarkupEvent::EndDocument,
            MarkupEvent::ProcessingInstruction { name, data } => {
                MarkupEvent::ProcessingInstruction {
                    name: name.clone(),
                    data: opt_to_owned(opt_as_str(data)),
                }
            },
            MarkupEvent::StartElement { name, attributes, namespace } => {
                MarkupEvent::StartElement {
                    name: name.duplicate(),
                    attributes: clone_attributes(attributes),
                    namespace: namespace_clone(namespace),
                }
            },
            MarkupEvent::EndElement { name } => MarkupEvent::EndElement { name: name.duplicate() },
            MarkupEvent::CData(text) => MarkupEvent::CData(text.clone()),
            MarkupEvent::Comment(text) => MarkupEvent::Comment(text.clone()),
            MarkupEvent::Characters(text) => MarkupEvent::Characters(text.clone()),
            MarkupEvent::Whitespace(text) => MarkupEvent::Whitespace(text.clone()),
        }
    }
}

/// The views of the events of a list.
pub open spec fn events_view(events: Seq<MarkupEvent>) -> Seq<MarkupEventView> {
    events.map_values(|e: MarkupEvent| e@)
}

} // verus!
