use acd2lr_core::acdsee::{is_true_text, AcdSeeError};
use acd2lr_core::container::{emit_compact, emit_indented};
use acd2lr_core::markup::{Attribute, MarkupEvent, QName};
use acd2lr_core::ns;
use acd2lr_core::xmp::rules;
use acd2lr_core::xmp::{
    RewriteAction, RewriteRule, RewriteRuleError, SetRdfList, SetToCurrentDateTime, WriteError,
    XmpData,
};
use acd2lr_core::xpacket::XPacket;
use acd2lr_core::{FromAcdSee, Tag, TagHierarchy};
use xml::namespace::Namespace;

const ACDSEE_PACKET: &[u8] = b"<?xpacket begin=\"\xef\xbb\xbf\" id=\"W5M0MpCehiHzreSzNTczkc9d\"?>\n<x:xmpmeta xmlns:x=\"adobe:ns:meta/\" x:xmptk=\"Public XMP Toolkit Core 3.5\">\n <rdf:RDF xmlns:rdf=\"http://www.w3.org/1999/02/22-rdf-syntax-ns#\">\n  <rdf:Description rdf:about=\"\" xmlns:acdsee=\"http://ns.acdsee.com/iptc/1.0/\">\n   <acdsee:caption>cat</acdsee:caption>\n   <acdsee:author>someone</acdsee:author>\n   <acdsee:datetime>2020-11-28T17:25:13</acdsee:datetime>\n   <acdsee:rating>3</acdsee:rating>\n   <acdsee:notes></acdsee:notes>\n   <acdsee:tagged>True</acdsee:tagged>\n   <acdsee:categories>&lt;Categories&gt;&lt;Category Assigned=\"0\"&gt;Animals&lt;Category Assigned=\"1\"&gt;Cats&lt;/Category&gt;&lt;Category Assigned=\"1\"&gt;Pets&lt;/Category&gt;&lt;/Category&gt;&lt;Category Assigned=\"1\"&gt;Home&lt;/Category&gt;&lt;/Categories&gt;</acdsee:categories>\n   <acdsee:keywords>\n    <rdf:Bag>\n     <rdf:li>cat</rdf:li>\n     <rdf:li>pet</rdf:li>\n    </rdf:Bag>\n   </acdsee:keywords>\n  </rdf:Description>\n </rdf:RDF>\n</x:xmpmeta>\n                                                                      \n<?xpacket end=\"w\"?>";

const LIGHTROOM_PACKET: &[u8] = b"<?xpacket begin=\"\xef\xbb\xbf\" id=\"W5M0MpCehiHzreSzNTczkc9d\"?>\n<x:xmpmeta xmlns:x=\"adobe:ns:meta/\" x:xmptk=\"Adobe XMP Core 5.6-c140\">\n <rdf:RDF xmlns:rdf=\"http://www.w3.org/1999/02/22-rdf-syntax-ns#\">\n  <rdf:Description rdf:about=\"\"\n    xmlns:xmp=\"http://ns.adobe.com/xap/1.0/\"\n    xmlns:dc=\"http://purl.org/dc/elements/1.1/\"\n    xmlns:lr=\"http://ns.adobe.com/lightroom/1.0/\"\n   xmp:MetadataDate=\"2020-11-28T17:25:13+01:00\">\n   <dc:subject>\n    <rdf:Bag>\n     <rdf:li>cat</rdf:li>\n    </rdf:Bag>\n   </dc:subject>\n   <lr:hierarchicalSubject>\n    <rdf:Bag>\n     <rdf:li>Animals|cat</rdf:li>\n    </rdf:Bag>\n   </lr:hierarchicalSubject>\n  </rdf:Description>\n </rdf:RDF>\n</x:xmpmeta>\n<?xpacket end='w'?>\n";

const STAMP: &str = "2021-01-02T03:04:05+01:00";

fn test_xpacket(val: &[u8]) -> XPacket {
    let parsed = XPacket::try_from(val).expect("failed to parse xpacket");

    assert!(parsed.header.starts_with(b"<?xpacket begin"));
    assert!(parsed.header.ends_with(b"?>"));

    parsed
}

fn test_xmp(val: &[u8]) {
    let xpacket = test_xpacket(val);
    let parsed = XmpData::parse(xpacket.body).expect("failed to parse xmp");
    parsed.acdsee_data().expect("failed to parse acdsee data");
}

#[test]
fn test_xmp_acdsee() {
    test_xmp(ACDSEE_PACKET);
}

#[test]
fn test_xmp_lightroom() {
    test_xmp(LIGHTROOM_PACKET);
}

fn parse_body(val: &[u8]) -> XmpData {
    XmpData::parse(test_xpacket(val).body).unwrap()
}

fn texts(values: &[&str]) -> Vec<String> {
    values.iter().map(|v| v.to_string()).collect()
}

fn name(prefix: &str, namespace: &str, local: &str) -> QName {
    QName::qualified(local, namespace, Some(prefix))
}

fn start(name: QName) -> MarkupEvent {
    MarkupEvent::StartElement { name, attributes: vec![], namespace: Namespace::empty() }
}

fn end(name: QName) -> MarkupEvent {
    MarkupEvent::EndElement { name }
}

fn text(value: &str) -> MarkupEvent {
    MarkupEvent::Characters(value.to_string())
}

fn compact(events: &Vec<MarkupEvent>) -> String {
    String::from_utf8(emit_compact(events).unwrap()).unwrap()
}

fn rewrite(body: &[u8], rules: Vec<RewriteRule>) -> String {
    let data = XmpData::parse(body).unwrap();
    compact(&data.write_events_at(rules, STAMP).unwrap())
}

#[test]
fn fields_of_the_catalog_are_read() {
    let data = parse_body(ACDSEE_PACKET);
    assert_eq!(data.acdsee_tag_value("caption"), Some("cat".to_string()));
    assert_eq!(data.acdsee_tag_value("author"), Some("someone".to_string()));
    assert_eq!(data.acdsee_tag_value("notes"), Some(String::new()));
    assert_eq!(data.acdsee_tag_value("collections"), None);
    assert_eq!(data.acdsee_attr_value("caption"), None);
    assert_eq!(data.acdsee_bag_value("keywords"), texts(&["cat", "pet"]));
    assert_eq!(data.acdsee_bag_value("nothing"), Vec::<String>::new());

    let acdsee = data.acdsee_data().unwrap();
    assert_eq!(acdsee.caption, Some("cat".to_string()));
    assert_eq!(acdsee.author, Some("someone".to_string()));
    assert_eq!(acdsee.rating, Some(3));
    assert_eq!(acdsee.notes, Some(String::new()));
    assert_eq!(acdsee.tagged, Some(true));
    assert_eq!(acdsee.collections, None);
    assert_eq!(acdsee.keywords, texts(&["cat", "pet"]));
    assert_eq!(
        acdsee.datetime,
        Some(
            chrono::NaiveDate::from_ymd_opt(2020, 11, 28)
                .unwrap()
                .and_hms_opt(17, 25, 13)
                .unwrap()
        )
    );
    assert!(!acdsee.is_empty());
    let categories = acdsee.categories.as_ref().unwrap();
    assert_eq!(
        categories.tags(),
        &vec![
            Tag(texts(&["Animals", "Cats"])),
            Tag(texts(&["Animals", "Pets"])),
            Tag(texts(&["Home"])),
        ]
    );
}

#[test]
fn attribute_counts_before_element() {
    let body = b"<rdf:RDF xmlns:rdf=\"http://www.w3.org/1999/02/22-rdf-syntax-ns#\" xmlns:acdsee=\"http://ns.acdsee.com/iptc/1.0/\"><rdf:Description acdsee:caption=\"from attribute\"><acdsee:caption>from element</acdsee:caption><acdsee:author>a</acdsee:author></rdf:Description></rdf:RDF>";
    let data = XmpData::parse(body).unwrap();
    assert_eq!(data.acdsee_attr_value("caption"), Some("from attribute".to_string()));
    assert_eq!(data.acdsee_tag_value("caption"), Some("from attribute".to_string()));
    assert_eq!(data.acdsee_tag_value("author"), Some("a".to_string()));
}

#[test]
fn only_the_first_description_gives_attributes() {
    let body = b"<rdf:RDF xmlns:rdf=\"http://www.w3.org/1999/02/22-rdf-syntax-ns#\" xmlns:acdsee=\"http://ns.acdsee.com/iptc/1.0/\"><rdf:Description rdf:about=\"\"/><rdf:Description acdsee:caption=\"late\"/></rdf:RDF>";
    let data = XmpData::parse(body).unwrap();
    assert_eq!(data.acdsee_attr_value("caption"), None);
    assert_eq!(data.acdsee_tag_value("caption"), None);
}

#[test]
fn element_that_holds_an_element_gives_no_value() {
    let body = b"<rdf:RDF xmlns:rdf=\"http://www.w3.org/1999/02/22-rdf-syntax-ns#\" xmlns:acdsee=\"http://ns.acdsee.com/iptc/1.0/\"><rdf:Description><acdsee:caption><rdf:Alt/></acdsee:caption><acdsee:notes/></rdf:Description></rdf:RDF>";
    let data = XmpData::parse(body).unwrap();
    assert_eq!(data.acdsee_tag_value("caption"), None);
    assert_eq!(data.acdsee_tag_value("notes"), Some(String::new()));
}

#[test]
fn bag_ends_with_its_element() {
    let body = b"<rdf:RDF xmlns:rdf=\"http://www.w3.org/1999/02/22-rdf-syntax-ns#\" xmlns:acdsee=\"http://ns.acdsee.com/iptc/1.0/\"><rdf:Description><acdsee:keywords><rdf:Bag><rdf:li>a</rdf:li><rdf:li>b</rdf:li></rdf:Bag></acdsee:keywords><acdsee:notes>not a keyword</acdsee:notes></rdf:Description></rdf:RDF>";
    let data = XmpData::parse(body).unwrap();
    assert_eq!(data.acdsee_bag_value("keywords"), texts(&["a", "b"]));
}

#[test]
fn malformed_markup_is_an_error() {
    assert!(XmpData::parse(b"<a><b></a>").is_err());
    assert!(XmpData::parse(b"").is_err());
}

#[test]
fn rating_that_is_no_number_is_zero() {
    let body = b"<rdf:RDF xmlns:rdf=\"http://www.w3.org/1999/02/22-rdf-syntax-ns#\" xmlns:acdsee=\"http://ns.acdsee.com/iptc/1.0/\"><rdf:Description acdsee:rating=\"many\" acdsee:tagged=\"no\" acdsee:datetime=\"\"/></rdf:RDF>";
    let acdsee = XmpData::parse(body).unwrap().acdsee_data().unwrap();
    assert_eq!(acdsee.rating, Some(0));
    assert_eq!(acdsee.tagged, Some(false));
    assert_eq!(acdsee.datetime, None);
    assert!(!acdsee.is_empty());
}

#[test]
fn ratings_are_decimal_numbers() {
    for (written, rating) in [
        ("5", 5),
        ("+5", 5),
        ("-5", -5),
        ("007", 7),
        ("2147483647", 2147483647),
        ("-2147483648", -2147483648),
        ("2147483648", 0),
        ("-2147483649", 0),
        ("", 0),
        ("-", 0),
        ("+", 0),
        (" 5", 0),
        ("5 ", 0),
        ("5.0", 0),
        ("+-5", 0),
    ] {
        let body = format!("<rdf:RDF xmlns:rdf=\"http://www.w3.org/1999/02/22-rdf-syntax-ns#\" xmlns:acdsee=\"http://ns.acdsee.com/iptc/1.0/\"><rdf:Description acdsee:rating=\"{}\"/></rdf:RDF>", written);
        let acdsee = XmpData::parse(body.as_bytes()).unwrap().acdsee_data().unwrap();
        assert_eq!(acdsee.rating, Some(rating));
    }
}

#[test]
fn true_is_spelled_in_either_case() {
    assert!(is_true_text("true"));
    assert!(is_true_text("TRUE"));
    assert!(is_true_text("tRuE"));
    assert!(!is_true_text("yes"));
    assert!(!is_true_text("true "));
    assert!(!is_true_text(""));
    assert!(!is_true_text("tru\u{e9}"));
}

#[test]
fn date_that_is_no_date_is_an_error() {
    let body = b"<rdf:RDF xmlns:rdf=\"http://www.w3.org/1999/02/22-rdf-syntax-ns#\" xmlns:acdsee=\"http://ns.acdsee.com/iptc/1.0/\"><rdf:Description acdsee:datetime=\"yesterday\"/></rdf:RDF>";
    let result = XmpData::parse(body).unwrap().acdsee_data();
    assert!(matches!(result, Err(AcdSeeError::Date(_))));
}

#[test]
fn categories_that_are_no_markup_are_an_error() {
    let body = b"<rdf:RDF xmlns:rdf=\"http://www.w3.org/1999/02/22-rdf-syntax-ns#\" xmlns:acdsee=\"http://ns.acdsee.com/iptc/1.0/\"><rdf:Description acdsee:categories=\"&lt;Categories&gt;\" acdsee:datetime=\"yesterday\"/></rdf:RDF>";
    let result = XmpData::parse(body).unwrap().acdsee_data();
    assert!(matches!(result, Err(AcdSeeError::Xml(_))));
}

#[test]
fn document_without_fields_is_empty() {
    let acdsee = parse_body(LIGHTROOM_PACKET).acdsee_data().unwrap();
    assert!(acdsee.is_empty());
    assert!(acdsee.to_ruleset().is_empty());
}

#[test]
fn categories_are_paths_of_assigned_categories() {
    let tags = TagHierarchy::from_acdsee("<Categories><Category Assigned=\"1\">A<Category Assigned=\"0\">B<Category Assigned=\"1\">C</Category></Category></Category><Category>D</Category><Category Assigned=\"1\">A</Category></Categories>").unwrap();
    assert_eq!(
        tags.tags(),
        &vec![Tag(texts(&["A", "B", "C"])), Tag(texts(&["A"]))]
    );
    assert_eq!(tags.len(), 2);
    assert_eq!(tags.tags()[0].joined("|"), "A|B|C");
    assert_eq!(tags.tags()[1].joined("|"), "A");
    assert_eq!(Tag(vec![]).joined("|"), "");
    assert!(tags.tags()[0].same(&Tag(texts(&["A", "B", "C"]))));
    assert!(!tags.tags()[0].same(&Tag(texts(&["A", "B"]))));
    assert_eq!(tags.duplicate().tags(), tags.tags());
}

#[test]
fn empty_text_holds_no_categories() {
    assert_eq!(TagHierarchy::from_acdsee("").unwrap().len(), 0);
    assert_eq!(TagHierarchy::new().len(), 0);
    assert!(TagHierarchy::from_acdsee("Animals").is_err());
}

#[test]
fn ruleset_carries_the_fields_over() {
    let acdsee = parse_body(ACDSEE_PACKET).acdsee_data().unwrap();
    let ruleset = acdsee.to_ruleset();
    let names: Vec<(Option<&str>, &str, &str, bool, bool)> = ruleset
        .iter()
        .map(|r| (r.namespace(), r.prefix(), r.local_name(), r.allow_attribute(), r.required()))
        .collect();
    assert_eq!(
        names,
        vec![
            (Some(ns::DC), "dc", "title", false, true),
            (Some(ns::DC), "dc", "creator", false, true),
            (Some(ns::DC), "dc", "description", false, true),
            (Some(ns::LR), "lr", "hierarchicalSubject", false, true),
            (Some(ns::DC), "dc", "subject", false, true),
        ]
    );
    let written: Vec<String> =
        ruleset.iter().map(|r| compact(&r.run_at(&[], STAMP).unwrap())).collect();
    assert_eq!(
        written,
        vec![
            "<dc:title><rdf:Alt><rdf:li>cat</rdf:li></rdf:Alt></dc:title>",
            "<dc:creator><rdf:Seq><rdf:li>someone</rdf:li></rdf:Seq></dc:creator>",
            "<dc:description><rdf:Alt><rdf:li></rdf:li></rdf:Alt></dc:description>",
            "<lr:hierarchicalSubject><rdf:Bag><rdf:li>Animals|Cats</rdf:li><rdf:li>Animals|Pets</rdf:li><rdf:li>Home</rdf:li></rdf:Bag></lr:hierarchicalSubject>",
            "<dc:subject><rdf:Bag><rdf:li>cat</rdf:li><rdf:li>pet</rdf:li></rdf:Bag></dc:subject>",
        ]
    );
}

#[test]
fn rule_names_and_matches() {
    let rule = rules::xmp_metadata_date();
    assert_eq!(rule.name(), name("xmp", ns::XMP, "MetadataDate"));
    assert_eq!(rule.namespace(), Some(ns::XMP));
    assert_eq!(rule.local_name(), "MetadataDate");
    assert_eq!(rule.prefix(), "xmp");
    assert!(rule.allow_attribute());
    assert!(rule.required());
    assert!(rule.matches(&name("other", ns::XMP, "MetadataDate")));
    assert!(!rule.matches(&name("xmp", ns::DC, "MetadataDate")));
    assert!(!rule.matches(&name("xmp", ns::XMP, "CreateDate")));
    assert!(!rule.matches(&QName::local("MetadataDate")));
    assert_eq!(rule.duplicate().name(), rule.name());

    let local = RewriteRule::new(
        None,
        "plain",
        "unused",
        false,
        true,
        RewriteAction::SetRdfList(SetRdfList::new("Seq", vec![])),
    );
    assert_eq!(local.name(), QName::local("plain"));
    assert!(local.matches(&QName::local("plain")));
}

#[test]
fn rules_render_elements() {
    let title = rules::set_dc_title("cat".to_string());
    let dc_title = name("dc", ns::DC, "title");
    assert_eq!(
        title.run_at(&[], STAMP),
        Ok(vec![
            start(name("dc", ns::DC, "title")),
            start(name("rdf", ns::RDF, "Alt")),
            start(name("rdf", ns::RDF, "li")),
            text("cat"),
            end(name("rdf", ns::RDF, "li")),
            end(name("rdf", ns::RDF, "Alt")),
            end(dc_title),
        ])
    );

    let seq = rules::set_rdf_seq(ns::DC, "dc", "creator", texts(&["a", "b"]));
    let found = [start(name("x", ns::DC, "creator")), text("old")];
    assert_eq!(
        seq.run_at(&found, STAMP),
        Ok(vec![
            start(name("x", ns::DC, "creator")),
            start(name("rdf", ns::RDF, "Seq")),
            start(name("rdf", ns::RDF, "li")),
            text("a"),
            end(name("rdf", ns::RDF, "li")),
            start(name("rdf", ns::RDF, "li")),
            text("b"),
            end(name("rdf", ns::RDF, "li")),
            end(name("rdf", ns::RDF, "Seq")),
            end(name("x", ns::DC, "creator")),
        ])
    );

    let empty = rules::set_rdf_bag(ns::DC, "dc", "subject", vec![]);
    assert_eq!(
        empty.run_at(&[text("no element")], STAMP),
        Ok(vec![
            start(name("dc", ns::DC, "subject")),
            start(name("rdf", ns::RDF, "Bag")),
            end(name("rdf", ns::RDF, "Bag")),
            end(name("dc", ns::DC, "subject")),
        ])
    );

    let date = rules::xmp_metadata_date();
    assert_eq!(
        date.run_at(&[], STAMP),
        Ok(vec![
            start(name("xmp", ns::XMP, "MetadataDate")),
            text(STAMP),
            end(name("xmp", ns::XMP, "MetadataDate")),
        ])
    );
}

#[test]
fn rules_render_attributes() {
    assert_eq!(
        rules::xmp_metadata_date().run_attribute_at("old", STAMP),
        Ok(STAMP.to_string())
    );
    assert_eq!(
        rules::set_dc_title("cat".to_string()).run_attribute_at("old", STAMP),
        Err(RewriteRuleError::Unsupported)
    );
    assert_eq!(
        rules::set_dc_title("cat".to_string()).run_attribute("old"),
        Err(RewriteRuleError::Unsupported)
    );
    assert_eq!(
        RewriteRuleError::Unsupported.message(),
        "attributes are not supported by this rule"
    );
}

fn is_timestamp(value: &str) -> bool {
    let bytes = value.as_bytes();
    let digits = [0, 1, 2, 3, 5, 6, 8, 9, 11, 12, 14, 15, 17, 18, 20, 21, 23, 24];
    bytes.len() == 25
        && digits.iter().all(|i| bytes[*i].is_ascii_digit())
        && bytes[4] == b'-'
        && bytes[7] == b'-'
        && bytes[10] == b'T'
        && bytes[13] == b':'
        && bytes[16] == b':'
        && (bytes[19] == b'+' || bytes[19] == b'-')
        && bytes[22] == b':'
}

#[test]
fn time_of_the_call_is_a_timestamp() {
    assert!(is_timestamp(STAMP));
    assert!(is_timestamp(&SetToCurrentDateTime::now()));
    let value = rules::xmp_metadata_date().run_attribute("old").unwrap();
    assert!(is_timestamp(&value));
    let events = rules::xmp_metadata_date().run(&[]).unwrap();
    assert_eq!(events.len(), 3);
    match &events[1] {
        MarkupEvent::Characters(value) => assert!(is_timestamp(value)),
        other => panic!("{:?}", other),
    }
}

const SINGLE: &[u8] = b"<x:xmpmeta xmlns:x=\"adobe:ns:meta/\"><rdf:RDF xmlns:rdf=\"http://www.w3.org/1999/02/22-rdf-syntax-ns#\"><rdf:Description rdf:about=\"\" xmlns:acdsee=\"http://ns.acdsee.com/iptc/1.0/\" acdsee:caption=\"cat\"/></rdf:RDF></x:xmpmeta>";

#[test]
fn required_rule_adds_its_field_behind_the_last() {
    assert_eq!(
        rewrite(SINGLE, vec![rules::set_dc_title("cat".to_string())]),
        "<x:xmpmeta xmlns:x=\"adobe:ns:meta/\"><rdf:RDF xmlns:rdf=\"http://www.w3.org/1999/02/22-rdf-syntax-ns#\"><rdf:Description xmlns:acdsee=\"http://ns.acdsee.com/iptc/1.0/\" xmlns:dc=\"http://purl.org/dc/elements/1.1/\" rdf:about=\"\" acdsee:caption=\"cat\"><dc:title><rdf:Alt><rdf:li>cat</rdf:li></rdf:Alt></dc:title></rdf:Description></rdf:RDF></x:xmpmeta>"
    );
}

#[test]
fn rule_that_is_not_required_adds_nothing() {
    let rule = RewriteRule::new(
        Some(ns::XMP),
        "MetadataDate",
        "xmp",
        true,
        false,
        RewriteAction::SetToCurrentDateTime(SetToCurrentDateTime),
    );
    assert!(!rule.required());
    assert_eq!(
        rewrite(SINGLE, vec![rule]),
        "<x:xmpmeta xmlns:x=\"adobe:ns:meta/\"><rdf:RDF xmlns:rdf=\"http://www.w3.org/1999/02/22-rdf-syntax-ns#\"><rdf:Description xmlns:acdsee=\"http://ns.acdsee.com/iptc/1.0/\" rdf:about=\"\" acdsee:caption=\"cat\" /></rdf:RDF></x:xmpmeta>"
    );
}

#[test]
fn date_of_the_metadata_is_added_where_it_is_missing() {
    assert_eq!(
        rewrite(SINGLE, vec![rules::xmp_metadata_date()]),
        "<x:xmpmeta xmlns:x=\"adobe:ns:meta/\"><rdf:RDF xmlns:rdf=\"http://www.w3.org/1999/02/22-rdf-syntax-ns#\"><rdf:Description xmlns:acdsee=\"http://ns.acdsee.com/iptc/1.0/\" xmlns:xmp=\"http://ns.adobe.com/xap/1.0/\" rdf:about=\"\" acdsee:caption=\"cat\"><xmp:MetadataDate>2021-01-02T03:04:05+01:00</xmp:MetadataDate></rdf:Description></rdf:RDF></x:xmpmeta>"
    );
}

#[test]
fn only_a_child_of_the_description_is_replaced() {
    let body = b"<rdf:RDF xmlns:rdf=\"http://www.w3.org/1999/02/22-rdf-syntax-ns#\" xmlns:dc=\"http://purl.org/dc/elements/1.1/\"><rdf:Description><rdf:Bag><dc:title>old</dc:title></rdf:Bag></rdf:Description></rdf:RDF>";
    assert_eq!(
        rewrite(body, vec![rules::set_dc_title("new".to_string())]),
        "<rdf:RDF xmlns:dc=\"http://purl.org/dc/elements/1.1/\" xmlns:rdf=\"http://www.w3.org/1999/02/22-rdf-syntax-ns#\"><rdf:Description><rdf:Bag><dc:title>old</dc:title></rdf:Bag><dc:title><rdf:Alt><rdf:li>new</rdf:li></rdf:Alt></dc:title></rdf:Description></rdf:RDF>"
    );
}

#[test]
fn child_behind_a_nested_element_is_replaced() {
    let body = b"<rdf:RDF xmlns:rdf=\"http://www.w3.org/1999/02/22-rdf-syntax-ns#\" xmlns:dc=\"http://purl.org/dc/elements/1.1/\"><rdf:Description><dc:a><dc:b><dc:title>deep</dc:title></dc:b></dc:a><dc:title>old</dc:title></rdf:Description></rdf:RDF>";
    assert_eq!(
        rewrite(body, vec![rules::set_dc_title("new".to_string())]),
        "<rdf:RDF xmlns:dc=\"http://purl.org/dc/elements/1.1/\" xmlns:rdf=\"http://www.w3.org/1999/02/22-rdf-syntax-ns#\"><rdf:Description><dc:a><dc:b><dc:title>deep</dc:title></dc:b></dc:a><dc:title><rdf:Alt><rdf:li>new</rdf:li></rdf:Alt></dc:title></rdf:Description></rdf:RDF>"
    );
}

#[test]
fn no_rules_leave_the_fields_alone() {
    let data = parse_body(ACDSEE_PACKET);
    let events = data.write_events_at(vec![], STAMP).unwrap();
    let again = XmpData::from_events(events);
    for field in ["caption", "author", "datetime", "rating", "notes", "tagged", "categories", "collections"] {
        assert_eq!(again.acdsee_tag_value(field), data.acdsee_tag_value(field));
    }
    assert_eq!(again.acdsee_bag_value("keywords"), data.acdsee_bag_value("keywords"));
    let mut expected: Vec<MarkupEvent> =
        data.events().iter().skip(1).map(|e| e.duplicate()).collect();
    assert!(matches!(data.events()[0], MarkupEvent::StartDocument { .. }));
    assert_eq!(again.events().len(), expected.len());
    expected.truncate(again.events().len());
    assert_eq!(again.events(), &expected);
}

#[test]
fn markup_survives_reading_and_writing() {
    let body = test_xpacket(LIGHTROOM_PACKET).body;
    let data = XmpData::parse(body).unwrap();
    let events = data.write_events_at(vec![], STAMP).unwrap();
    let written = emit_indented(&events).unwrap();
    let squeeze = |bytes: &[u8]| -> Vec<u8> {
        bytes.iter().copied().filter(|b| !b.is_ascii_whitespace()).collect()
    };
    let given = String::from_utf8(squeeze(body)).unwrap().replace("/>", ">");
    let rewritten = String::from_utf8(squeeze(&written)).unwrap().replace("/>", ">");
    let sorted = |s: &str| -> Vec<u8> {
        let mut bytes = s.as_bytes().to_vec();
        bytes.sort();
        bytes
    };
    assert_eq!(sorted(&given), sorted(&rewritten));
    let reread = XmpData::parse(&written).unwrap();
    assert_eq!(reread.events(), data.events());
}

#[test]
fn element_of_a_rule_is_replaced() {
    let body = test_xpacket(LIGHTROOM_PACKET).body;
    assert_eq!(
        rewrite(body, vec![rules::set_dc_subject(texts(&["dog", "pet"]))]),
        "<x:xmpmeta xmlns:x=\"adobe:ns:meta/\" x:xmptk=\"Adobe XMP Core 5.6-c140\"><rdf:RDF xmlns:rdf=\"http://www.w3.org/1999/02/22-rdf-syntax-ns#\"><rdf:Description xmlns:dc=\"http://purl.org/dc/elements/1.1/\" xmlns:lr=\"http://ns.adobe.com/lightroom/1.0/\" xmlns:xmp=\"http://ns.adobe.com/xap/1.0/\" rdf:about=\"\" xmp:MetadataDate=\"2020-11-28T17:25:13+01:00\"><dc:subject><rdf:Bag><rdf:li>dog</rdf:li><rdf:li>pet</rdf:li></rdf:Bag></dc:subject><lr:hierarchicalSubject><rdf:Bag><rdf:li>Animals|cat</rdf:li></rdf:Bag></lr:hierarchicalSubject></rdf:Description></rdf:RDF></x:xmpmeta>"
    );
}

#[test]
fn attribute_of_a_rule_is_rewritten() {
    let body = test_xpacket(LIGHTROOM_PACKET).body;
    let written = rewrite(body, vec![rules::xmp_metadata_date()]);
    assert!(written.contains("xmp:MetadataDate=\"2021-01-02T03:04:05+01:00\""));
    assert!(!written.contains("2020-11-28"));
    assert!(!written.contains("<xmp:MetadataDate>"));
}

#[test]
fn list_cannot_be_an_attribute() {
    let body = test_xpacket(LIGHTROOM_PACKET).body;
    let data = XmpData::parse(body).unwrap();
    let rule = RewriteRule::new(
        Some(ns::XMP),
        "MetadataDate",
        "xmp",
        true,
        true,
        RewriteAction::SetRdfList(SetRdfList::new("Seq", texts(&["x"]))),
    );
    assert_eq!(
        data.write_events_at(vec![rule], STAMP),
        Err(WriteError::RuleFailed(name("xmp", ns::XMP, "MetadataDate")))
    );
}

#[test]
fn of_two_rules_for_a_field_the_last_counts() {
    assert_eq!(
        rewrite(
            SINGLE,
            vec![
                rules::set_dc_title("first".to_string()),
                rules::set_dc_creator("me".to_string()),
                rules::set_dc_title("last".to_string()),
            ]
        ),
        "<x:xmpmeta xmlns:x=\"adobe:ns:meta/\"><rdf:RDF xmlns:rdf=\"http://www.w3.org/1999/02/22-rdf-syntax-ns#\"><rdf:Description xmlns:acdsee=\"http://ns.acdsee.com/iptc/1.0/\" xmlns:dc=\"http://purl.org/dc/elements/1.1/\" rdf:about=\"\" acdsee:caption=\"cat\"><dc:creator><rdf:Seq><rdf:li>me</rdf:li></rdf:Seq></dc:creator><dc:title><rdf:Alt><rdf:li>last</rdf:li></rdf:Alt></dc:title></rdf:Description></rdf:RDF></x:xmpmeta>"
    );
}

#[test]
fn descriptions_that_follow_one_another_are_merged() {
    let body = b"<x:xmpmeta xmlns:x=\"adobe:ns:meta/\"><rdf:RDF xmlns:rdf=\"http://www.w3.org/1999/02/22-rdf-syntax-ns#\"><rdf:Description rdf:about=\"\" xmlns:acdsee=\"http://ns.acdsee.com/iptc/1.0/\" acdsee:caption=\"cat\"><acdsee:notes>n</acdsee:notes></rdf:Description><rdf:Description xmlns:dc=\"http://purl.org/dc/elements/1.1/\" dc:format=\"image/jpeg\"><dc:title><rdf:Alt><rdf:li>old</rdf:li></rdf:Alt></dc:title></rdf:Description></rdf:RDF></x:xmpmeta>";
    assert_eq!(
        rewrite(
            body,
            vec![rules::set_dc_title("new".to_string()), rules::set_dc_creator("me".to_string())]
        ),
        "<x:xmpmeta xmlns:x=\"adobe:ns:meta/\"><rdf:RDF xmlns:rdf=\"http://www.w3.org/1999/02/22-rdf-syntax-ns#\"><rdf:Description xmlns:acdsee=\"http://ns.acdsee.com/iptc/1.0/\" xmlns:dc=\"http://purl.org/dc/elements/1.1/\" rdf:about=\"\" acdsee:caption=\"cat\" dc:format=\"image/jpeg\"><acdsee:notes>n</acdsee:notes><dc:title><rdf:Alt><rdf:li>new</rdf:li></rdf:Alt></dc:title><dc:creator><rdf:Seq><rdf:li>me</rdf:li></rdf:Seq></dc:creator></rdf:Description></rdf:RDF></x:xmpmeta>"
    );
}

#[test]
fn nested_description_is_left_alone() {
    let body = b"<rdf:RDF xmlns:rdf=\"http://www.w3.org/1999/02/22-rdf-syntax-ns#\" xmlns:dc=\"http://purl.org/dc/elements/1.1/\"><rdf:Description><dc:source><rdf:Description dc:format=\"x\"><dc:title>inner</dc:title></rdf:Description></dc:source><dc:title>outer</dc:title></rdf:Description></rdf:RDF>";
    assert_eq!(
        rewrite(body, vec![rules::set_dc_title("new".to_string())]),
        "<rdf:RDF xmlns:dc=\"http://purl.org/dc/elements/1.1/\" xmlns:rdf=\"http://www.w3.org/1999/02/22-rdf-syntax-ns#\"><rdf:Description><dc:source><rdf:Description dc:format=\"x\"><dc:title>inner</dc:title></rdf:Description></dc:source><dc:title><rdf:Alt><rdf:li>new</rdf:li></rdf:Alt></dc:title></rdf:Description></rdf:RDF>"
    );
}

#[test]
fn document_without_description_is_copied() {
    let body = b"<a><b>text</b></a>";
    assert_eq!(
        rewrite(body, vec![rules::set_dc_title("new".to_string())]),
        "<a><b>text</b></a>"
    );
}

#[test]
fn events_can_be_built_by_hand() {
    let mut namespace = Namespace::empty();
    namespace.put("rdf", ns::RDF);
    let description = name("rdf", ns::RDF, "Description");
    let events = vec![
        MarkupEvent::StartElement {
            name: name("rdf", ns::RDF, "Description"),
            attributes: vec![Attribute {
                name: name("xmp", ns::XMP, "MetadataDate"),
                value: "old".to_string(),
            }],
            namespace,
        },
        end(description),
        MarkupEvent::EndDocument,
    ];
    let data = XmpData::from_events(events);
    let written = data.write_events_at(vec![rules::xmp_metadata_date()], STAMP).unwrap();
    assert_eq!(
        compact(&written),
        "<rdf:Description xmlns:rdf=\"http://www.w3.org/1999/02/22-rdf-syntax-ns#\" xmlns:xmp=\"http://ns.adobe.com/xap/1.0/\" xmp:MetadataDate=\"2021-01-02T03:04:05+01:00\" />"
    );
    let now = data.write_events(vec![rules::xmp_metadata_date()]).unwrap();
    match &now[0] {
        MarkupEvent::StartElement { attributes, .. } => assert!(is_timestamp(&attributes[0].value)),
        other => panic!("{:?}", other),
    }
}

#[test]
fn applying_a_list_rule_twice_changes_nothing_more() {
    let data = XmpData::parse(SINGLE).unwrap();
    let once = data
        .write_events_at(vec![rules::set_dc_title("cat".to_string())], STAMP)
        .unwrap();
    let again = XmpData::from_events(once.iter().map(|e| e.duplicate()).collect())
        .write_events_at(vec![rules::set_dc_title("cat".to_string())], STAMP)
        .unwrap();
    assert_eq!(once, again);
}

#[test]
fn indented_markup_uses_one_space_for_each_level() {
    let events = XmpData::parse(b"<a><b>text</b><c/></a>")
        .unwrap()
        .write_events_at(vec![], STAMP)
        .unwrap();
    assert_eq!(
        String::from_utf8(emit_indented(&events).unwrap()).unwrap(),
        "<a>\n <b>text</b>\n <c />\n</a>"
    );
    assert_eq!(compact(&events), "<a><b>text</b><c /></a>");
}

#[test]
fn events_that_do_not_nest_cannot_be_written() {
    let events = vec![end(QName::local("a"))];
    assert!(emit_compact(&events).is_err());
    let events = vec![start(QName::local("a")), end(QName::local("b"))];
    assert!(emit_indented(&events).is_err());
}

#[test]
fn applying_a_timestamp_rule_twice_leaves_the_later_time() {
    let body = test_xpacket(LIGHTROOM_PACKET).body;
    let data = XmpData::parse(body).unwrap();
    let once = data.write_events_at(vec![rules::xmp_metadata_date()], STAMP).unwrap();
    let later = "2022-02-03T04:05:06+01:00";
    let twice = XmpData::from_events(once.iter().map(|e| e.duplicate()).collect())
        .write_events_at(vec![rules::xmp_metadata_date()], later)
        .unwrap();
    assert_ne!(once, twice);
    assert!(compact(&once).contains(STAMP));
    assert!(compact(&twice).contains(later));
    assert!(!compact(&twice).contains(STAMP));

    let element = rules::xmp_metadata_date().run_at(&[], STAMP).unwrap();
    assert_eq!(
        rules::xmp_metadata_date().run_at(&element, later).unwrap(),
        rules::xmp_metadata_date().run_at(&[], later).unwrap()
    );
    let list = rules::set_dc_title("cat".to_string()).run_at(&[], STAMP).unwrap();
    assert_eq!(rules::set_dc_title("cat".to_string()).run_at(&list, later).unwrap(), list);
}

#[test]
fn empty_values() {
    assert_eq!(TagHierarchy::default().len(), 0);
    let data = acd2lr_core::acdsee::AcdSeeData::default();
    assert!(data.is_empty());
    assert!(data.to_ruleset().is_empty());
}

#[test]
fn description_behind_other_content_is_copied_as_it_is() {
    let body = b"<rdf:RDF xmlns:rdf=\"http://www.w3.org/1999/02/22-rdf-syntax-ns#\" xmlns:dc=\"http://purl.org/dc/elements/1.1/\"><rdf:Description rdf:about=\"a\"/><rdf:Seq/><rdf:Description rdf:about=\"b\"><dc:title>later</dc:title></rdf:Description></rdf:RDF>";
    assert_eq!(
        rewrite(body, vec![rules::set_dc_title("new".to_string())]),
        "<rdf:RDF xmlns:dc=\"http://purl.org/dc/elements/1.1/\" xmlns:rdf=\"http://www.w3.org/1999/02/22-rdf-syntax-ns#\"><rdf:Description rdf:about=\"a\" rdf:about=\"b\"><dc:title><rdf:Alt><rdf:li>new</rdf:li></rdf:Alt></dc:title></rdf:Description><rdf:Seq /><rdf:Description rdf:about=\"b\"><dc:title>later</dc:title></rdf:Description></rdf:RDF>"
    );
}

#[test]
fn document_that_ends_with_its_description_gets_no_new_field() {
    let description = name("rdf", ns::RDF, "Description");
    let events = vec![start(name("rdf", ns::RDF, "Description")), end(description)];
    let written = XmpData::from_events(events)
        .write_events_at(vec![rules::set_dc_title("new".to_string())], STAMP)
        .unwrap();
    assert_eq!(written, vec![start(name("rdf", ns::RDF, "Description"))]);
}

#[test]
fn description_inside_a_field_is_kept_without_rules() {
    let body = b"<rdf:RDF xmlns:rdf=\"http://www.w3.org/1999/02/22-rdf-syntax-ns#\" xmlns:acdsee=\"http://ns.acdsee.com/iptc/1.0/\"><rdf:Description><acdsee:notes><rdf:Description><rdf:li>inner</rdf:li></rdf:Description></acdsee:notes><acdsee:caption>cat</acdsee:caption></rdf:Description></rdf:RDF>";
    let data = XmpData::parse(body).unwrap();
    let again = XmpData::from_events(data.write_events_at(vec![], STAMP).unwrap());
    for field in ["notes", "caption"] {
        assert_eq!(again.acdsee_tag_value(field), data.acdsee_tag_value(field));
        assert_eq!(again.acdsee_bag_value(field), data.acdsee_bag_value(field));
    }
    assert_eq!(data.acdsee_bag_value("notes"), vec!["inner".to_string()]);
    assert_eq!(again.acdsee_tag_value("caption"), Some("cat".to_string()));
}

#[test]
fn document_with_one_description_comes_back_without_its_start() {
    let data = XmpData::parse(SINGLE).unwrap();
    let written = data.write_events_at(vec![], STAMP).unwrap();
    assert!(matches!(data.events()[0], MarkupEvent::StartDocument { .. }));
    assert_eq!(written.len(), data.events().len() - 1);
    assert_eq!(&written[..], &data.events()[1..]);
}
