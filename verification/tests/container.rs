use acd2lr_core::container::{
    detect_kind, prepare_packet, Container, ContainerError, ContainerKind, ContainerRewriteError,
    ContainerWriteError,
};
use acd2lr_core::file::WritePacketError;
use acd2lr_core::markup::MarkupEvent;
use acd2lr_core::xmp::rules;
use acd2lr_core::xmp::XmpData;
use acd2lr_core::xpacket::{XPacket, XPacketParseError};

const HEADER: &[u8] = b"<?xpacket begin=\"\" id=\"W5M0MpCehiHzreSzNTczkc9d\"?>";
const FOOTER: &[u8] = b"<?xpacket end=\"w\"?>";
const MARKUP: &[u8] = b"<x:xmpmeta xmlns:x=\"adobe:ns:meta/\"><rdf:RDF xmlns:rdf=\"http://www.w3.org/1999/02/22-rdf-syntax-ns#\"><rdf:Description acdsee:caption=\"cat\" xmlns:acdsee=\"http://ns.acdsee.com/iptc/1.0/\"/></rdf:RDF></x:xmpmeta>";
const STAMP: &str = "2021-01-02T03:04:05+01:00";

fn packet_with_body_of(len: usize) -> Vec<u8> {
    let mut packet = HEADER.to_vec();
    packet.extend_from_slice(MARKUP);
    packet.resize(HEADER.len() + len, b' ');
    packet.extend_from_slice(FOOTER);
    packet
}

fn title_from_caption(packet: &[u8]) -> Vec<MarkupEvent> {
    let xpacket = XPacket::try_from(packet).unwrap();
    let data = XmpData::parse(xpacket.body).unwrap();
    let caption = data.acdsee_data().unwrap().caption.unwrap();
    data.write_events_at(vec![rules::set_dc_title(caption)], STAMP).unwrap()
}

#[test]
fn title_is_set_from_caption_within_the_body() {
    let packet = packet_with_body_of(400);
    let events = title_from_caption(&packet);
    let body = prepare_packet(packet.clone(), &events).unwrap();
    assert_eq!(body.len(), 400);
    assert_eq!(body[0], b'\n');
    assert_eq!(body[399], b'\n');

    let indented = b"<x:xmpmeta xmlns:x=\"adobe:ns:meta/\">\n <rdf:RDF xmlns:rdf=\"http://www.w3.org/1999/02/22-rdf-syntax-ns#\">\n  <rdf:Description xmlns:acdsee=\"http://ns.acdsee.com/iptc/1.0/\" xmlns:dc=\"http://purl.org/dc/elements/1.1/\" acdsee:caption=\"cat\">\n   <dc:title>\n    <rdf:Alt>\n     <rdf:li>cat</rdf:li>\n    </rdf:Alt>\n   </dc:title>\n  </rdf:Description>\n </rdf:RDF>\n</x:xmpmeta>";
    assert_eq!(&body[1..1 + indented.len()], &indented[..]);
    assert!(body[1 + indented.len()..399].iter().all(|b| *b == b' '));

    let again = XmpData::parse(&body).unwrap();
    let events = again.events();
    let at = events
        .iter()
        .position(|e| matches!(e, MarkupEvent::StartElement { name, .. } if name.is(Some(acd2lr_core::ns::DC), "title")))
        .unwrap();
    assert!(
        matches!(&events[at + 1], MarkupEvent::StartElement { name, .. } if name.is(Some(acd2lr_core::ns::RDF), "Alt"))
    );
    assert!(
        matches!(&events[at + 2], MarkupEvent::StartElement { name, .. } if name.is(Some(acd2lr_core::ns::RDF), "li"))
    );
    assert_eq!(events[at + 3], MarkupEvent::Characters("cat".to_string()));
}

#[test]
fn body_that_is_too_small_for_indentation_takes_the_compact_markup() {
    let packet = packet_with_body_of(340);
    let events = title_from_caption(&packet);
    let body = prepare_packet(packet.clone(), &events).unwrap();
    assert_eq!(body.len(), 340);
    let compact = b"<x:xmpmeta xmlns:x=\"adobe:ns:meta/\"><rdf:RDF xmlns:rdf=\"http://www.w3.org/1999/02/22-rdf-syntax-ns#\"><rdf:Description xmlns:acdsee=\"http://ns.acdsee.com/iptc/1.0/\" xmlns:dc=\"http://purl.org/dc/elements/1.1/\" acdsee:caption=\"cat\"><dc:title><rdf:Alt><rdf:li>cat</rdf:li></rdf:Alt></dc:title></rdf:Description></rdf:RDF></x:xmpmeta>";
    assert_eq!(body[0], b'\n');
    assert_eq!(&body[1..1 + compact.len()], &compact[..]);
    assert!(body[1 + compact.len()..339].iter().all(|b| *b == b' '));
    assert_eq!(body[339], b'\n');
}

#[test]
fn markup_that_fits_exactly_is_taken() {
    let compact_len = 329;
    let packet = packet_with_body_of(compact_len + 2);
    let events = title_from_caption(&packet);
    let body = prepare_packet(packet.clone(), &events).unwrap();
    assert_eq!(body.len(), compact_len + 2);
    assert!(body.starts_with(b"\n<x:xmpmeta"));
    assert!(body.ends_with(b"</x:xmpmeta>\n"));
}

#[test]
fn markup_that_does_not_fit_is_refused() {
    let packet = packet_with_body_of(330);
    let events = title_from_caption(&packet);
    assert!(matches!(
        prepare_packet(packet.clone(), &events),
        Err(ContainerRewriteError::NotEnoughSpace)
    ));
}

#[test]
fn body_of_two_hundred_bytes_is_too_small_for_the_title() {
    let mut packet = HEADER.to_vec();
    packet.extend_from_slice(b"<rdf:Description xmlns:rdf=\"http://www.w3.org/1999/02/22-rdf-syntax-ns#\" xmlns:acdsee=\"http://ns.acdsee.com/iptc/1.0/\" acdsee:caption=\"cat\"/>");
    packet.resize(HEADER.len() + 200, b' ');
    packet.extend_from_slice(FOOTER);
    let events = title_from_caption(&packet);
    let compact = acd2lr_core::container::emit_compact(&events).unwrap();
    assert_eq!(compact.len(), 262);
    assert!(matches!(
        prepare_packet(packet.clone(), &events),
        Err(ContainerRewriteError::NotEnoughSpace)
    ));

    packet.truncate(HEADER.len() + 200);
    packet.resize(HEADER.len() + 264, b' ');
    packet.extend_from_slice(FOOTER);
    let body = prepare_packet(packet.clone(), &events).unwrap();
    assert_eq!(body.len(), 264);
    assert_eq!(&body[1..263], &compact[..]);
}

#[test]
fn bytes_that_are_no_packet_are_refused() {
    assert!(matches!(
        prepare_packet(b"no packet".to_vec(), &vec![]),
        Err(ContainerRewriteError::XPacketParse(XPacketParseError::MissingHeader))
    ));
}

#[test]
fn events_that_cannot_be_written_are_refused() {
    let events = vec![MarkupEvent::EndElement { name: acd2lr_core::markup::QName::local("a") }];
    assert!(matches!(
        prepare_packet(packet_with_body_of(300), &events),
        Err(ContainerRewriteError::Emitter(_))
    ));
}

#[test]
fn kind_is_told_from_the_first_bytes() {
    assert_eq!(detect_kind(b"<x:xmpmeta xmlns"), ContainerKind::Xmp);
    assert_eq!(detect_kind(b"<?xpacket begin="), ContainerKind::XPacket);
    assert_eq!(detect_kind(b"\xff\xd8\xff\xe1"), ContainerKind::XPacket);
    assert_eq!(detect_kind(b""), ContainerKind::XPacket);
}

#[test]
fn short_host_is_given_back() {
    assert_eq!(Container::open(b"<x:xmp".to_vec()).err(), Some(b"<x:xmp".to_vec()));
}

#[test]
fn file_that_is_markup_is_written_anew() {
    let mut container = Container::open(MARKUP.to_vec()).unwrap();
    let data = container.read_xmp().unwrap().unwrap();
    let events = data.write_events_at(vec![rules::set_dc_title("cat".to_string())], STAMP).unwrap();
    let prepared = container.prepare_write(&events).unwrap();
    assert!(prepared.starts_with(b"<x:xmpmeta xmlns:x=\"adobe:ns:meta/\">\n <rdf:RDF"));
    assert!(prepared.len() > MARKUP.len());
    assert_eq!(container.write(&prepared), Ok(()));
    assert_eq!(container.into_inner(), prepared);
}

fn host_with(packet: &[u8]) -> Vec<u8> {
    let mut host = vec![0xff, 0xd8, 0xff, 0xe1, 0x00, 0x10, 0, 1, 2, 3, 4, 5, 6, 7, 8, 9];
    host.extend_from_slice(packet);
    host.extend_from_slice(&[0xff, 0xd9]);
    host
}

#[test]
fn test_rewrite_single() {
    let host = host_with(&packet_with_body_of(600));
    let mut container = Container::open(host.clone()).unwrap();
    let xmp = container.read_xmp().unwrap().unwrap();
    let mut ruleset = vec![rules::xmp_metadata_date()];
    ruleset.extend(xmp.acdsee_data().unwrap().to_ruleset());
    let events = xmp.write_events(ruleset).unwrap();
    let body = container.prepare_write(&events).unwrap();
    assert_eq!(body.len(), 600);
    assert_eq!(container.write(&body), Ok(()));
    let written = container.into_inner();
    assert_eq!(written.len(), host.len());
    let body_start = 16 + HEADER.len();
    assert_eq!(&written[..body_start], &host[..body_start]);
    assert_eq!(&written[body_start..body_start + 600], &body[..]);
    assert_eq!(&written[body_start + 600..], &host[body_start + 600..]);
    let text = String::from_utf8_lossy(&written);
    assert!(text.contains("<rdf:li>cat</rdf:li>"));
    assert!(text.contains("xmp:MetadataDate"));
}

#[test]
fn test_rewrite_multi() {
    let markup = b"<x:xmpmeta xmlns:x=\"adobe:ns:meta/\"><rdf:RDF xmlns:rdf=\"http://www.w3.org/1999/02/22-rdf-syntax-ns#\"><rdf:Description rdf:about=\"\" xmlns:acdsee=\"http://ns.acdsee.com/iptc/1.0/\"><acdsee:caption>cat</acdsee:caption><acdsee:keywords><rdf:Bag><rdf:li>a</rdf:li></rdf:Bag></acdsee:keywords></rdf:Description><rdf:Description xmlns:xmp=\"http://ns.adobe.com/xap/1.0/\"><xmp:MetadataDate>2020-11-28T17:25:13+01:00</xmp:MetadataDate></rdf:Description></rdf:RDF></x:xmpmeta>";
    let mut packet = HEADER.to_vec();
    packet.extend_from_slice(markup);
    packet.resize(HEADER.len() + 900, b' ');
    packet.extend_from_slice(FOOTER);
    let host = host_with(&packet);
    let mut container = Container::open(host.clone()).unwrap();
    let xmp = container.read_xmp().unwrap().unwrap();
    let mut ruleset = vec![rules::xmp_metadata_date()];
    ruleset.extend(xmp.acdsee_data().unwrap().to_ruleset());
    let events = xmp.write_events(ruleset).unwrap();
    let prepared = container.prepare_write(&events).unwrap();
    assert_eq!(prepared.len(), 900);
    assert_eq!(container.write(&prepared), Ok(()));
    let written = container.into_inner();
    assert_eq!(written.len(), host.len());
    assert!(written.starts_with(&host[..16 + HEADER.len()]));
    assert!(written.ends_with(&host[16 + HEADER.len() + 900..]));
    let text = String::from_utf8_lossy(&written);
    assert!(text.contains("<dc:title>"));
    assert!(text.contains("<dc:subject>"));
    assert!(!text.contains("2020-11-28T17:25:13+01:00"));
    assert_eq!(text.matches("<rdf:Description").count(), 1);
}

#[test]
fn host_without_packet_has_no_markup() {
    let mut container = Container::open(b"0123456789abcdef no packet".to_vec()).unwrap();
    assert!(matches!(container.read_xmp(), Ok(None)));
    assert!(matches!(
        container.prepare_write(&vec![]),
        Err(ContainerRewriteError::MissingXPacket)
    ));
    assert_eq!(container.write(b"x"), Err(ContainerWriteError::MissingXPacket));
}

#[test]
fn body_of_another_size_does_not_go_into_the_host() {
    let host = host_with(&packet_with_body_of(300));
    let mut container = Container::open(host.clone()).unwrap();
    assert_eq!(container.write(b"short"), Err(ContainerWriteError::NotEnoughSpace));
    let whole = packet_with_body_of(300);
    assert_eq!(container.write(&whole), Err(ContainerWriteError::NotEnoughSpace));
    assert_eq!(container.into_inner(), host);

    let mut container = Container::open(host.clone()).unwrap();
    assert_eq!(container.write(&[b'x'; 300]), Ok(()));
    let written = container.into_inner();
    let body_start = 16 + HEADER.len();
    assert_eq!(&written[..body_start], &host[..body_start]);
    assert!(written[body_start..body_start + 300].iter().all(|b| *b == b'x'));
    assert_eq!(&written[body_start + 300..], &host[body_start + 300..]);

    let mut container =
        Container::open(host_with(b"<?xpacket begin= <?xpacket end=\"w\"?>")).unwrap();
    assert_eq!(container.write(b""), Err(ContainerWriteError::MissingXPacket));
    assert_eq!(
        ContainerWriteError::from(WritePacketError::NoPacket),
        ContainerWriteError::MissingXPacket
    );
    assert_eq!(
        ContainerWriteError::from(WritePacketError::WrongPacketSize),
        ContainerWriteError::NotEnoughSpace
    );
}

#[test]
fn malformed_packets_are_reported() {
    let mut packet = HEADER.to_vec();
    packet.extend_from_slice(b"<a><b></a>");
    packet.extend_from_slice(FOOTER);
    let container = Container::open(host_with(&packet)).unwrap();
    assert!(matches!(container.read_xmp(), Err(ContainerError::XmpParse(_))));

    let container =
        Container::open(host_with(b"<?xpacket begin= <?xpacket end=\"w\"?>")).unwrap();
    assert!(matches!(
        container.read_xmp(),
        Err(ContainerError::XPacketParse(XPacketParseError::MissingHeaderBoundary))
    ));
}
