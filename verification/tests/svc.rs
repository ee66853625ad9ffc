use acd2lr_core::container::{Container, ContainerError, ContainerRewriteError, ContainerWriteError};
use acd2lr_core::svc::{
    added_severity, apply, check_rewrite, check_rewrite_at, eq_ignoring_case, is_stale,
    progress_update, supported_extension, BackgroundProgress, FileState, ProgressUpdate, Severity,
};
use acd2lr_core::xmp::WriteError;
use acd2lr_core::xpacket::XPacketParseError;

const HEADER: &[u8] = b"<?xpacket begin=\"\" id=\"W5M0MpCehiHzreSzNTczkc9d\"?>";
const FOOTER: &[u8] = b"<?xpacket end=\"w\"?>";
const STAMP: &str = "2021-01-02T03:04:05+01:00";

fn host(markup: &[u8], body_len: usize) -> Vec<u8> {
    let mut host = vec![0xff, 0xd8, 0xff, 0xe1, 0x00, 0x10, 0, 1, 2, 3, 4, 5, 6, 7, 8, 9];
    host.extend_from_slice(HEADER);
    host.extend_from_slice(markup);
    host.resize(16 + HEADER.len() + body_len, b' ');
    host.extend_from_slice(FOOTER);
    host.extend_from_slice(&[0xff, 0xd9]);
    host
}

fn markup(description: &str) -> Vec<u8> {
    format!("<x:xmpmeta xmlns:x=\"adobe:ns:meta/\"><rdf:RDF xmlns:rdf=\"http://www.w3.org/1999/02/22-rdf-syntax-ns#\" xmlns:acdsee=\"http://ns.acdsee.com/iptc/1.0/\" xmlns:xmp=\"http://ns.adobe.com/xap/1.0/\">{}</rdf:RDF></x:xmpmeta>", description).into_bytes()
}

#[test]
fn progress_counts_down() {
    assert_eq!(BackgroundProgress::from(0), BackgroundProgress::Complete);
    assert_eq!(BackgroundProgress::from(3), BackgroundProgress::Left(3));
    assert_eq!(
        progress_update(BackgroundProgress::Left(3), Some(10)),
        (ProgressUpdate { current: 7, total: 10 }, Some(10))
    );
    assert_eq!(
        progress_update(BackgroundProgress::Left(3), None),
        (ProgressUpdate { current: 1, total: 4 }, None)
    );
    assert_eq!(
        progress_update(BackgroundProgress::Complete, Some(10)),
        (ProgressUpdate { current: 10, total: 10 }, None)
    );
    assert_eq!(
        progress_update(BackgroundProgress::Complete, None),
        (ProgressUpdate { current: 1, total: 1 }, None)
    );
}

#[test]
fn file_is_stale_when_it_was_changed_since() {
    assert!(is_stale(None, 5));
    assert!(is_stale(Some(4), 5));
    assert!(!is_stale(Some(5), 5));
    assert!(!is_stale(Some(6), 5));
}

#[test]
fn extensions_are_told_without_case() {
    for extension in ["jpeg", "jpg", "tif", "tiff", "xmp", "xpacket", "JPG", "Tiff", "XPacket"] {
        assert!(supported_extension(extension));
    }
    for extension in ["", "png", "jp", "jpgs", "xm\u{f0}", "j\u{10}pg"] {
        assert!(!supported_extension(extension));
    }
    assert!(eq_ignoring_case("AbC", "aBc"));
    assert!(!eq_ignoring_case("abc", "abd"));
    assert!(!eq_ignoring_case("@", "`"));
    assert!(!eq_ignoring_case("[", "{"));
}

#[test]
fn host_with_fields_is_ready() {
    let description = "<rdf:Description acdsee:caption=\"cat\" xmp:MetadataDate=\"2020\"/>";
    let bytes = host(&markup(description), 700);
    let mut container = Container::open(bytes.clone()).unwrap();
    let state = check_rewrite_at(&container, STAMP);
    assert_eq!(state.kind(), "Ready");
    let packet = match state {
        FileState::Ready(packet) => packet,
        other => panic!("{:?}", other),
    };
    assert_eq!(packet.len(), 700);
    let text = String::from_utf8(packet.clone()).unwrap();
    assert!(text.contains("xmp:MetadataDate=\"2021-01-02T03:04:05+01:00\""));
    assert!(text.contains("<dc:title>"));

    assert!(matches!(apply(&mut container, &packet), FileState::Complete));
    let written = container.into_inner();
    assert_eq!(written.len(), bytes.len());
    let body_start = 16 + HEADER.len();
    assert_eq!(&written[body_start..body_start + 700], &packet[..]);
    assert_eq!(&written[..body_start], &bytes[..body_start]);
    assert_eq!(&written[body_start + 700..], &bytes[body_start + 700..]);
    assert!(written[body_start + 700..].starts_with(FOOTER));

    let container = Container::open(written).unwrap();
    assert!(matches!(check_rewrite(&container), FileState::Ready(_)));
}

#[test]
fn host_without_fields_has_no_data() {
    let bytes = host(&markup("<rdf:Description xmp:MetadataDate=\"2020\"/>"), 400);
    let container = Container::open(bytes).unwrap();
    assert!(matches!(check_rewrite_at(&container, STAMP), FileState::NoAcdData));
}

#[test]
fn host_without_packet_is_told_so() {
    let mut container = Container::open(b"sixteen bytes or more".to_vec()).unwrap();
    assert!(matches!(check_rewrite_at(&container, STAMP), FileState::NoXmpData));
    assert!(matches!(
        apply(&mut container, b"x"),
        FileState::ApplyError(ContainerWriteError::MissingXPacket)
    ));
}

#[test]
fn failures_are_told_apart() {
    let container = Container::open(host(b"<a><b></a>", 100)).unwrap();
    assert!(matches!(
        check_rewrite_at(&container, STAMP),
        FileState::ContainerError(ContainerError::XmpParse(_))
    ));

    let mut no_boundary = vec![0u8; 16];
    no_boundary.extend_from_slice(b"<?xpacket begin= <?xpacket end=\"w\"?>");
    let container = Container::open(no_boundary).unwrap();
    assert!(matches!(
        check_rewrite_at(&container, STAMP),
        FileState::ContainerError(ContainerError::XPacketParse(
            XPacketParseError::MissingHeaderBoundary
        ))
    ));

    let container = Container::open(host(
        &markup("<rdf:Description acdsee:caption=\"cat\" acdsee:datetime=\"soon\"/>"),
        400,
    ))
    .unwrap();
    let state = check_rewrite_at(&container, STAMP);
    assert_eq!(state.kind(), "InvalidAcdseeData");

    let description = "<rdf:Description acdsee:caption=\"cat\"/>";
    let small = markup(description).len();
    let container = Container::open(host(&markup(description), small)).unwrap();
    assert!(matches!(
        check_rewrite_at(&container, STAMP),
        FileState::RewriteError(ContainerRewriteError::NotEnoughSpace)
    ));

    let mut container = Container::open(host(&markup(description), 400)).unwrap();
    assert!(matches!(
        apply(&mut container, b"too short"),
        FileState::ApplyError(ContainerWriteError::NotEnoughSpace)
    ));
    assert!(!matches!(
        check_rewrite_at(&container, STAMP),
        FileState::XmpRewriteError(WriteError::RuleFailed(_))
    ));
}

#[test]
fn states_have_names() {
    assert_eq!(FileState::Init.kind(), "Init");
    assert_eq!(FileState::NoXmpData.kind(), "NoXmpData");
    assert_eq!(FileState::NoAcdData.kind(), "NoAcdData");
    assert_eq!(FileState::Complete.kind(), "Complete");
    assert_eq!(FileState::Ready(vec![]).kind(), "Ready");
    assert_eq!(
        FileState::ApplyError(ContainerWriteError::NotEnoughSpace).kind(),
        "ApplyError"
    );
}

#[test]
fn outcome_of_adding_files_is_weighed() {
    assert_eq!(added_severity(0, 0), Severity::Warning);
    assert_eq!(added_severity(0, 3), Severity::Error);
    assert_eq!(added_severity(3, 3), Severity::Info);
    assert_eq!(added_severity(2, 3), Severity::Warning);
}
