use acd2lr_core::xpacket::{split_offsets, XPacket, XPacketMut, XPacketParseError};

const ACDSEE_PACKET: &[u8] = b"<?xpacket begin=\"\xef\xbb\xbf\" id=\"W5M0MpCehiHzreSzNTczkc9d\"?>\n<x:xmpmeta xmlns:x=\"adobe:ns:meta/\" x:xmptk=\"Public XMP Toolkit Core 3.5\">\n <rdf:RDF xmlns:rdf=\"http://www.w3.org/1999/02/22-rdf-syntax-ns#\">\n  <rdf:Description rdf:about=\"\" xmlns:acdsee=\"http://ns.acdsee.com/iptc/1.0/\">\n   <acdsee:caption>cat</acdsee:caption>\n   <acdsee:author>someone</acdsee:author>\n   <acdsee:rating>3</acdsee:rating>\n   <acdsee:tagged>True</acdsee:tagged>\n   <acdsee:keywords>\n    <rdf:Bag>\n     <rdf:li>cat</rdf:li>\n     <rdf:li>pet</rdf:li>\n    </rdf:Bag>\n   </acdsee:keywords>\n  </rdf:Description>\n </rdf:RDF>\n</x:xmpmeta>\n                                                                      \n<?xpacket end=\"w\"?>";

const LIGHTROOM_PACKET: &[u8] = b"<?xpacket begin=\"\xef\xbb\xbf\" id=\"W5M0MpCehiHzreSzNTczkc9d\"?>\n<x:xmpmeta xmlns:x=\"adobe:ns:meta/\" x:xmptk=\"Adobe XMP Core 5.6-c140\">\n <rdf:RDF xmlns:rdf=\"http://www.w3.org/1999/02/22-rdf-syntax-ns#\">\n  <rdf:Description rdf:about=\"\"\n    xmlns:xmp=\"http://ns.adobe.com/xap/1.0/\"\n    xmlns:dc=\"http://purl.org/dc/elements/1.1/\"\n    xmlns:lr=\"http://ns.adobe.com/lightroom/1.0/\"\n   xmp:MetadataDate=\"2020-11-28T17:25:13+01:00\">\n   <dc:subject>\n    <rdf:Bag>\n     <rdf:li>cat</rdf:li>\n    </rdf:Bag>\n   </dc:subject>\n   <lr:hierarchicalSubject>\n    <rdf:Bag>\n     <rdf:li>Animals|cat</rdf:li>\n    </rdf:Bag>\n   </lr:hierarchicalSubject>\n  </rdf:Description>\n </rdf:RDF>\n</x:xmpmeta>\n<?xpacket end='w'?>\n";

fn test_xpacket(val: &[u8]) -> XPacket {
    let parsed = XPacket::try_from(val).expect("failed to parse xpacket");

    assert!(parsed.header.starts_with(b"<?xpacket begin"));
    assert!(parsed.header.ends_with(b"?>"));

    parsed
}

#[test]
fn test_xpacket_acdsee() {
    test_xpacket(ACDSEE_PACKET);
}

#[test]
fn test_xpacket_lightroom() {
    test_xpacket(LIGHTROOM_PACKET);
}

#[test]
fn parts_make_up_the_packet() {
    let packet = test_xpacket(LIGHTROOM_PACKET);
    let mut all = packet.header.to_vec();
    all.extend_from_slice(packet.body);
    all.extend_from_slice(packet.footer);
    assert_eq!(all, LIGHTROOM_PACKET[..LIGHTROOM_PACKET.len() - 1].to_vec());
    assert!(packet.body.starts_with(b"\n<x:xmpmeta"));
    assert_eq!(packet.footer, b"<?xpacket end='w'?>");
}

#[test]
fn footer_is_the_end_marker_alone() {
    let bytes = b"<?xpacket begin=''?>a<?xpacket end=\"w\"?>b<?xpacket end='w'?>\n";
    let packet = XPacket::try_from(&bytes[..]).unwrap();
    assert_eq!(packet.header, b"<?xpacket begin=''?>");
    assert_eq!(packet.body, b"a");
    assert_eq!(packet.footer, b"<?xpacket end=\"w\"?>");
    assert_eq!(packet.footer.len(), 19);
}

#[test]
fn what_stands_behind_the_footer_is_kept() {
    let bytes = b"<?xpacket begin=''?>0123456789<?xpacket end='w'?> tail\n".to_vec();
    let mut packet = XPacketMut::try_from(bytes.clone()).unwrap();
    assert_eq!(packet.footer(), b"<?xpacket end='w'?>");
    assert!(packet.fit_body(b"<a/>"));
    assert_eq!(packet.footer(), b"<?xpacket end='w'?>");
    assert_eq!(
        packet.into_bytes(),
        b"<?xpacket begin=''?>\n<a/>    \n<?xpacket end='w'?> tail\n".to_vec()
    );
}

#[test]
fn split_offsets_are_exact() {
    assert_eq!(
        split_offsets(b"<?xpacket begin=\"\"?>body<?xpacket end=\"w\"?>"),
        Ok((20, 24))
    );
}

#[test]
fn first_end_marker_of_either_spelling_starts_the_footer() {
    let bytes = b"<?xpacket begin=''?>a<?xpacket end='w'?>b<?xpacket end=\"w\"?>";
    assert_eq!(split_offsets(bytes), Ok((20, 21)));
}

#[test]
fn split_reports_missing_header() {
    assert_eq!(
        XPacket::try_from(&b"<x:xmpmeta/>"[..]).err(),
        Some(XPacketParseError::MissingHeader)
    );
    assert_eq!(
        XPacket::try_from(&b" <?xpacket begin=''?><?xpacket end='w'?>"[..]).err(),
        Some(XPacketParseError::MissingHeader)
    );
}

#[test]
fn split_reports_missing_footer() {
    assert_eq!(
        XPacket::try_from(&b"<?xpacket begin=\"\"?><x/>"[..]).err(),
        Some(XPacketParseError::MissingFooter)
    );
}

#[test]
fn split_reports_missing_header_boundary() {
    assert_eq!(
        XPacket::try_from(&b"<?xpacket begin= <?xpacket end=\"w\"?>"[..]).err(),
        Some(XPacketParseError::MissingHeaderBoundary)
    );
}

#[test]
fn error_messages() {
    assert_eq!(XPacketParseError::MissingHeader.message(), "missing xpacket header");
    assert_eq!(XPacketParseError::MissingFooter.message(), "missing xpacket footer");
    assert_eq!(
        XPacketParseError::MissingHeaderBoundary.message(),
        "missing xpacket header boundary"
    );
    assert_eq!(
        XPacketParseError::MissingFooterBoundary.message(),
        "missing xpacket footer boundary"
    );
}

#[test]
fn fit_body_pads_with_spaces() {
    let mut packet =
        XPacketMut::try_from(b"<?xpacket begin=\"\"?>0123456789<?xpacket end='w'?>".to_vec())
            .unwrap();
    assert_eq!(packet.body_len(), 10);
    assert!(packet.fit_body(b"<a/>"));
    assert_eq!(packet.header(), b"<?xpacket begin=\"\"?>");
    assert_eq!(packet.body(), b"\n<a/>    \n");
    assert_eq!(packet.footer(), b"<?xpacket end='w'?>");
    assert_eq!(
        packet.into_bytes(),
        b"<?xpacket begin=\"\"?>\n<a/>    \n<?xpacket end='w'?>".to_vec()
    );
}

#[test]
fn fit_body_takes_what_fits_exactly() {
    let mut packet =
        XPacketMut::try_from(b"<?xpacket begin=\"\"?>0123456789<?xpacket end='w'?>".to_vec())
            .unwrap();
    assert!(packet.fit_body(b"12345678"));
    assert_eq!(packet.body(), b"\n12345678\n");
}

#[test]
fn fit_body_leaves_the_packet_alone_when_too_long() {
    let bytes = b"<?xpacket begin=\"\"?>0123456789<?xpacket end='w'?>".to_vec();
    let mut packet = XPacketMut::try_from(bytes.clone()).unwrap();
    assert!(!packet.fit_body(b"123456789"));
    assert_eq!(packet.into_bytes(), bytes);
}

#[test]
fn fit_body_needs_two_bytes() {
    let bytes = b"<?xpacket begin=\"\"?>0<?xpacket end='w'?>".to_vec();
    let mut packet = XPacketMut::try_from(bytes.clone()).unwrap();
    assert!(!packet.fit_body(b""));
    assert_eq!(packet.into_bytes(), bytes);
}
