use acd2lr_core::bytes::{matches_at, starts_with};
use acd2lr_core::file::{
    locate, scan_window, ByteRange, ByteStream, ScanStep, Search, WritePacketError, XPacketFile,
};
use acd2lr_core::xmp::XmpData;
use acd2lr_core::xpacket::XPacket;

const PACKET: &[u8] = b"<?xpacket begin=\"\" id=\"W5M0MpCehiHzreSzNTczkc9d\"?><x:xmpmeta xmlns:x=\"adobe:ns:meta/\"><rdf:RDF xmlns:rdf=\"http://www.w3.org/1999/02/22-rdf-syntax-ns#\"><rdf:Description rdf:about=\"\" xmlns:acdsee=\"http://ns.acdsee.com/iptc/1.0/\" acdsee:caption=\"cat\"/></rdf:RDF></x:xmpmeta>          <?xpacket end=\"w\"?>";

const MULTI_PACKET: &[u8] = b"<?xpacket begin=\"\" id=\"W5M0MpCehiHzreSzNTczkc9d\"?><x:xmpmeta xmlns:x=\"adobe:ns:meta/\"><rdf:RDF xmlns:rdf=\"http://www.w3.org/1999/02/22-rdf-syntax-ns#\"><rdf:Description rdf:about=\"\" xmlns:acdsee=\"http://ns.acdsee.com/iptc/1.0/\" acdsee:caption=\"cat\"/><rdf:Description rdf:about=\"\" xmlns:dc=\"http://purl.org/dc/elements/1.1/\"><dc:format>image/jpeg</dc:format></rdf:Description></rdf:RDF></x:xmpmeta>          <?xpacket end=\"w\"?>";

fn host_with(packet: &[u8]) -> Vec<u8> {
    let mut host = vec![0xff, 0xd8, 0xff, 0xe1, 0x00, 0x10, b'<', b'?', b'x', 0x00];
    host.extend_from_slice(packet);
    host.extend_from_slice(&[0xff, 0xd9, b'?', b'>']);
    host
}

fn test_file(host: Vec<u8>) {
    let result = XPacketFile::open(host);
    let packet = result.read_packet_bytes();
    assert!(packet.is_some());

    let packet = packet.unwrap();
    let xpacket = XPacket::try_from(&packet[..]).expect("failed to parse xpacket");
    XmpData::parse(xpacket.body).expect("failed to parse xmp");
}

#[test]
fn test_single_description() {
    test_file(host_with(PACKET));
}

#[test]
fn test_multi_description() {
    test_file(host_with(MULTI_PACKET));
}

#[test]
fn located_range_starts_with_begin_marker_and_ends_with_closing_sequence() {
    let host = host_with(PACKET);
    let range = locate(&host).unwrap();
    assert_eq!(range, ByteRange { start: 10, end: 10 + PACKET.len() });
    assert_eq!(&host[range.start..range.start + 16], b"<?xpacket begin=");
    assert_eq!(&host[range.end - 2..range.end], b"?>");
}

#[test]
fn host_without_begin_marker_has_no_packet() {
    assert_eq!(locate(b"no packet here <?xpacket end=\"w\"?>"), None);
    assert_eq!(locate(b""), None);
}

#[test]
fn host_without_end_marker_has_no_packet() {
    assert_eq!(locate(b"<?xpacket begin=\"\"?><x/>"), None);
}

#[test]
fn host_without_closing_sequence_has_no_packet() {
    assert_eq!(locate(b"<?xpacket begin=\"\" <?xpacket end=\"w\""), None);
}

#[test]
fn end_marker_before_the_begin_marker_does_not_count() {
    let host = b"<?xpacket end='w'?> <?xpacket begin=''?>";
    assert_eq!(locate(host), None);
}

#[test]
fn scanner_finds_needle_that_lies_across_two_windows() {
    let needle = b"ABCDEFGH";
    let host = b"..ABCDEFGH......";
    let mut stream = ByteStream::new(host);
    assert_eq!(stream.find_windowed(needle, 4), Some(2));
    assert_eq!(stream.position(), 2);

    let mut stream = ByteStream::new(host);
    assert_eq!(stream.find_windowed(needle, 8), Some(2));

    let mut stream = ByteStream::new(b"......WXYZ..");
    assert_eq!(stream.find_windowed(b"WXYZ", 4), Some(6));
    assert_eq!(stream.position(), 6);
}

#[test]
fn scanner_goes_on_behind_a_false_start() {
    let mut stream = ByteStream::new(b"ABABABCD");
    assert_eq!(stream.find(b"ABCD"), Some(4));
    assert_eq!(stream.position(), 4);
}

#[test]
fn scanner_ends_at_the_end_of_the_host_when_nothing_is_found() {
    let host = b"0123456789";
    let mut stream = ByteStream::new(host);
    assert_eq!(stream.find(b"abc"), None);
    assert_eq!(stream.position(), host.len());
}

#[test]
fn scanner_searches_from_its_position() {
    let mut stream = ByteStream::new(b"ab..ab..");
    assert_eq!(stream.find(b"ab"), Some(0));
    assert_eq!(stream.find(b"ab"), Some(0));
    assert_eq!(stream.find(b".."), Some(2));
    assert_eq!(stream.find(b"ab"), Some(4));
    assert_eq!(stream.position(), 4);
}

#[test]
fn wide_window_gives_up_where_it_cannot_be_filled() {
    let mut stream = ByteStream::new(b"..ABCD");
    assert_eq!(stream.find_windowed(b"ABCD", 8), None);
    let mut stream = ByteStream::new(b"..ABCD..");
    assert_eq!(stream.find_windowed(b"ABCD", 8), Some(2));
}

#[test]
fn scan_window_decides_on_one_window() {
    assert_eq!(scan_window(b"AB", b"....", 10), ScanStep::Resume(14));
    assert_eq!(scan_window(b"AB", b".AB.", 10), ScanStep::Found(11));
    assert_eq!(scan_window(b"AB", b".A..", 10), ScanStep::Resume(12));
    assert_eq!(scan_window(b"AB", b"...A", 10), ScanStep::Resume(13));
}

#[test]
fn byte_searches() {
    assert!(starts_with(b"abcdef", b"abc"));
    assert!(!starts_with(b"ab", b"abc"));
    assert!(matches_at(b"abcdef", b"def", 3));
    assert!(!matches_at(b"abcdef", b"def", 4));
}

#[test]
fn packet_bytes_are_read_and_written_in_place() {
    let host = host_with(PACKET);
    let mut file = XPacketFile::open(host.clone());
    assert_eq!(file.read_packet_bytes(), Some(PACKET.to_vec()));

    let (body_start, body_end) = acd2lr_core::xpacket::split_offsets(PACKET).unwrap();
    assert_eq!(
        file.body_range(),
        Some(ByteRange { start: 10 + body_start, end: 10 + body_end })
    );
    let replacement = vec![b'x'; body_end - body_start];
    assert_eq!(file.write_packet_bytes(&replacement), Ok(()));
    let (bytes, span) = file.into_inner();
    assert_eq!(span, Some(ByteRange { start: 10, end: 10 + PACKET.len() }));
    assert_eq!(&bytes[..10 + body_start], &host[..10 + body_start]);
    assert_eq!(&bytes[10 + body_start..10 + body_end], &replacement[..]);
    assert_eq!(&bytes[10 + body_end..], &host[10 + body_end..]);
}

#[test]
fn packet_of_another_size_is_refused() {
    let host = host_with(PACKET);
    let mut file = XPacketFile::open(host.clone());
    assert_eq!(
        file.write_packet_bytes(b"short"),
        Err(WritePacketError::WrongPacketSize)
    );
    assert_eq!(
        file.write_packet_bytes(&vec![b'x'; PACKET.len()]),
        Err(WritePacketError::WrongPacketSize)
    );
    assert_eq!(file.file(), &host);
}

#[test]
fn host_without_packet_takes_none() {
    let mut file = XPacketFile::open(b"plain bytes".to_vec());
    assert_eq!(file.read_packet_bytes(), None);
    assert_eq!(file.write_packet_bytes(b"x"), Err(WritePacketError::NoPacket));
    assert_eq!(WritePacketError::NoPacket.message(), "no packet in this file");
    assert_eq!(
        WritePacketError::WrongPacketSize.message(),
        "packet size does not match physical packet size"
    );
}

#[test]
fn search_looks_for_three_markers_in_turn() {
    let search = Search::Begin;
    assert_eq!(search.needle(), Some(&b"<?xpacket begin="[..]));
    let search = search.next(Some(10));
    assert_eq!(search, Search::End { start: 10 });
    assert_eq!(search.needle(), Some(&b"<?xpacket end"[..]));
    let search = search.next(Some(300));
    assert_eq!(search, Search::Close { start: 10 });
    assert_eq!(search.needle(), Some(&b"?>"[..]));
    let search = search.next(Some(317));
    assert_eq!(search, Search::Over(Some(ByteRange { start: 10, end: 319 })));
    assert_eq!(search.needle(), None);
    assert_eq!(search.next(Some(1)), search);
    assert_eq!(search.next(None), search);
}

#[test]
fn search_ends_where_a_marker_is_missing() {
    assert_eq!(Search::Begin.next(None), Search::Over(None));
    assert_eq!(Search::End { start: 3 }.next(None), Search::Over(None));
    assert_eq!(Search::Close { start: 3 }.next(None), Search::Over(None));
    assert_eq!(Search::Close { start: 3 }.next(Some(usize::MAX - 1)), Search::Over(None));
    assert_eq!(Search::Over(None).needle(), None);
}

#[test]
fn search_driven_by_hand_finds_what_locate_finds() {
    let host = host_with(PACKET);
    let mut stream = ByteStream::new(&host);
    let mut search = Search::Begin;
    while let Some(needle) = search.needle() {
        let found = stream.find(needle);
        search = search.next(found);
    }
    assert_eq!(search, Search::Over(locate(&host)));
    assert_eq!(search, Search::Over(Some(ByteRange { start: 10, end: 10 + PACKET.len() })));
}
