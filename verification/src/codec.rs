//! Reading markup from bytes and writing it back, both done by the markup
//! crate. What it reads and writes is given a name here, over the views of
//! the events; nothing else is claimed of it.

use vstd::prelude::*;
use xml::attribute::OwnedAttribute;
use xml::name::OwnedName;
use xml::reader::XmlEvent;

use crate::markup::{events_view, Attribute, MarkupEvent, MarkupEventView, QName};

verus! {

/// The markup crate's event, as its reader gives it.
#[verifier::external_type_specification]
#[verifier::external_body]
pub struct ExXmlEvent(XmlEvent);

/// The markup crate's qualified name.
#[verifier::external_type_specification]
#[verifier::external_body]
pub struct ExOwnedName(OwnedName);

/// The markup crate's attribute.
#[verifier::external_type_specification]
#[verifier::external_body]
pub struct ExOwnedAttribute(OwnedAttribute);

/// The error of the markup crate's reader.
#[verifier::external_type_specification]
#[verifier::external_body]
pub struct ExReaderError(xml::reader::Error);

/// The error of the markup crate's writer.
#[verifier::external_type_specification]
#[verifier::external_body]
pub struct ExWriterError(xml::writer::Error);

/// The events that the markup crate's reader gives for `source`, `None`
/// where it reports an error.
pub uninterp spec fn parsed_events(
    source: Seq<u8>,
    trim_whitespace: bool,
    cdata_to_characters: bool,
) -> Option<Seq<MarkupEventView>>;

/// The bytes that the markup crate's writer gives for `events`, `None`
/// where it reports an error.
pub uninterp spec fn emitted_bytes(
    events: Seq<MarkupEventView>,
    perform_indent: bool,
    indent_string: Seq<char>,
    write_document_declaration: bool,
) -> Option<Seq<u8>>;

/// Moves the three fields of a name of the markup crate into a name.
#[verifier::external_body]
fn name_from_xml(name: OwnedName) -> QName {
    QName { local_name: name.local_name, namespace: name.namespace, prefix: name.prefix }
}

/// Moves the two fields of an attribute of the markup crate into an
/// attribute.
#[verifier::external_body]
fn attribute_from_xml(attribute: OwnedAttribute) -> Attribute {
    Attribute { name: name_from_xml(attribute.name), value: attribute.value }
}

/// Moves the fields of an event of the markup crate into an event, variant
/// by variant.
#[verifier::external_body]
fn event_from_xml(event: XmlEvent) -> MarkupEvent {
    match event {
        XmlEvent::StartDocument { version, encoding, standalone } => MarkupEvent::StartDocument { version, encoding, standalone },
        XmlEvent::EndDocument => MarkupEvent::EndDocument,
        XmlEvent::ProcessingInstruction { name, data } => MarkupEvent::ProcessingInstruction { name, data },
        XmlEvent::StartElement { name, attributes, namespace } => MarkupEvent::StartElement { name: name_from_xml(name), attributes: attributes.into_iter().map(attribute_from_xml).collect(), namespace },
        XmlEvent::EndElement { name } => MarkupEvent::EndElement { name: name_from_xml(name) },
        XmlEvent::CData(text) => MarkupEvent::CData(text),
        XmlEvent::Comment(text) => MarkupEvent::Comment(text),
        XmlEvent::Characters(text) => MarkupEvent::Characters(text),
        XmlEvent::Whitespace(text) => MarkupEvent::Whitespace(text),
    }
}

/// Moves the three fields of a name into a name of the markup crate.
#[verifier::external_body]
fn name_to_xml(name: QName) -> OwnedName {
    OwnedName { local_name: name.local_name, namespace: name.namespace, prefix: name.prefix }
}

/// Moves the two fields of an attribute into an attribute of the markup
/// crate.
#[verifier::external_body]
fn attribute_to_xml(attribute: Attribute) -> OwnedAttribute {
    OwnedAttribute { name: name_to_xml(attribute.name), value: attribute.value }
}

/// Moves the fields of an event into an event of the markup crate, variant
/// by variant.
#[verifier::external_body]
fn event_to_xml(event: MarkupEvent) -> XmlEvent {
    match event {
        MarkupEvent::StartDocument { version, encoding, standalone } => XmlEvent::StartDocument { version, encoding, standalone },
        MarkupEvent::EndDocument => XmlEvent::EndDocument,
        MarkupEvent::ProcessingInstruction { name, data } => XmlEvent::ProcessingInstruction { name, data },
        MarkupEvent::StartElement { name, attributes, namespace } => XmlEvent::StartElement { name: name_to_xml(name), attributes: attributes.into_iter().map(attribute_to_xml).collect(), namespace },
        MarkupEvent::EndElement { name } => XmlEvent::EndElement { name: name_to_xml(name) },
        MarkupEvent::CData(text) => XmlEvent::CData(text),
        MarkupEvent::Comment(text) => XmlEvent::Comment(text),
        MarkupEvent::Characters(text) => XmlEvent::Characters(text),
        MarkupEvent::Whitespace(text) => XmlEvent::Whitespace(text),
    }
}

/// `xml::EventReader` over `source`, configured by `xml::ParserConfig`, and
/// read to its end: all the events that it gives, or the error at which it
/// stops. The crate's documentation does not rule out that its reader
/// panics.
#[verifier::external_body]
pub(crate) fn read_events(source: &[u8], trim_whitespace: bool, cdata_to_characters: bool) -> (r:
    Result<Vec<MarkupEvent>, xml::reader::Error>)
    ensures
        match r {
            Ok(events) => parsed_events(source@, trim_whitespace, cdata_to_characters) == Some(
                events_view(events@),
            ),
            Err(_) => parsed_events(source@, trim_whitespace, cdata_to_characters).is_none(),
        },
{
    let config = xml::ParserConfig::new().trim_whitespace(trim_whitespace).cdata_to_characters(cdata_to_characters);
    xml::EventReader::new_with_config(source, config).into_iter().map(|e| e.map(event_from_xml)).collect()
}

/// `xml::EventWriter` into a vector, configured by `xml::EmitterConfig`, and
/// given each event that `XmlEvent::as_writer_event` has a writer's event
/// for: all the bytes that it writes, or the error at which it stops.
#[verifier::external_body]
pub(crate) fn write_events(
    events: Vec<MarkupEvent>,
    perform_indent: bool,
    indent_string: &'static str,
    write_document_declaration: bool,
) -> (r: Result<Vec<u8>, xml::writer::Error>)
    ensures
        match r {
            Ok(bytes) => emitted_bytes(
                events_view(events@),
                perform_indent,
                indent_string@,
                write_document_declaration,
            ) == Some(bytes@),
            Err(_) => emitted_bytes(
                events_view(events@),
                perform_indent,
                indent_string@,
                write_document_declaration,
            ).is_none(),
        },
{
    let config = xml::EmitterConfig::new().perform_indent(perform_indent).indent_string(indent_string).write_document_declaration(write_document_declaration);
    let mut writer = xml::EventWriter::new_with_config(Vec::new(), config);
    for event in events {
        if let Some(e) = event_to_xml(event).as_writer_event() {
            writer.write(e)?;
        }
    }
    Ok(writer.into_inner())
}

} // verus!
