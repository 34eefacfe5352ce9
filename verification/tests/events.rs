use nullmark::binary::document::{private_count_of, scrub_xml_attributes};
use nullmark::binary::svg::{analysis_of, inventory_of};
use nullmark::xml::{read_items, XmlAttribute, XmlItem, XmlKind};

fn element(kind: XmlKind, name: &str, attributes: &[(&str, &str)]) -> XmlItem {
    XmlItem {
        kind,
        name: name.to_string(),
        attributes: Some(
            attributes
                .iter()
                .map(|(key, value)| XmlAttribute {
                    key: key.to_string(),
                    value: value.to_string(),
                })
                .collect(),
        ),
        text: String::new(),
    }
}

fn plain(kind: XmlKind, text: &str) -> XmlItem {
    XmlItem {
        kind,
        name: String::new(),
        attributes: Some(Vec::new()),
        text: text.to_string(),
    }
}

#[test]
fn private_attributes_are_counted_over_events() {
    let items = vec![
        element(
            XmlKind::Empty,
            "w:ins",
            &[("w:author", "Alice"), ("w:date", "2026"), ("w:id", "1")],
        ),
        plain(XmlKind::Eof, ""),
    ];
    assert_eq!(private_count_of(&items), Ok(2));
    let unfinished = vec![element(XmlKind::Empty, "w:ins", &[("w:author", "Alice")])];
    assert_eq!(
        private_count_of(&unfinished),
        Err("Malformed document XML rejected.")
    );
    let mut broken = element(XmlKind::Start, "w:p", &[]);
    broken.attributes = None;
    assert_eq!(
        private_count_of(&vec![broken, plain(XmlKind::Eof, "")]),
        Err("Malformed XML attribute rejected.")
    );
}

#[test]
fn svg_inventory_is_taken_over_events() {
    let bytes = b"<svg/>";
    let items = vec![
        element(XmlKind::Start, "svg", &[("onload", "run()")]),
        plain(XmlKind::Comment, "trace"),
        plain(XmlKind::Text, "A\u{200B}"),
        element(XmlKind::Empty, "metadata", &[]),
        plain(XmlKind::End, ""),
        plain(XmlKind::Eof, ""),
    ];
    let inventory = inventory_of(bytes, &items).expect("events must pass");
    assert_eq!(inventory.metadata, 1);
    assert_eq!(inventory.comments, 1);
    assert_eq!(inventory.active_content, 1);
    assert_eq!(inventory.unicode_payloads, 1);
    let parsed = analysis_of(bytes, &items).expect("events must pass");
    assert_eq!(parsed.metadata_count(), 4);
    assert_eq!(
        inventory_of(bytes, &vec![element(XmlKind::Start, "html", &[])]).map(|inv| inv.metadata),
        Err("XML root is not SVG.")
    );
    assert_eq!(
        inventory_of(b"", &items).map(|inv| inv.metadata),
        Err("SVG size boundary rejected.")
    );
}

#[test]
fn reading_stops_at_the_end_or_at_malformed_xml() {
    let items = read_items(b"<a x=\"1\"><b/></a>");
    let kinds: Vec<XmlKind> = items.iter().map(|item| item.kind).collect();
    assert_eq!(
        kinds,
        vec![XmlKind::Start, XmlKind::Empty, XmlKind::End, XmlKind::Eof]
    );
    assert_eq!(items[0].name, "a");
    assert_eq!(
        items[0].attributes.clone().expect("attributes")[0].value,
        "1"
    );
    let broken = read_items(b"<a></b>");
    assert!(broken.iter().all(|item| item.kind != XmlKind::Eof));
}

#[test]
fn scrubbing_keeps_events_and_drops_private_attributes() {
    let out = scrub_xml_attributes(b"<?xml version=\"1.0\"?><w:body><w:ins w:author=\"A\" w:id=\"1\"/><!--c--><w:t>x &amp; y</w:t></w:body>")
        .expect("well-formed XML must scrub");
    assert_eq!(
        String::from_utf8(out).unwrap(),
        "<?xml version=\"1.0\"?><w:body><w:ins w:id=\"1\"/><!--c--><w:t>x &amp; y</w:t></w:body>"
    );
    assert_eq!(
        scrub_xml_attributes(b"<a></b>"),
        Err("Malformed document XML rejected.")
    );
}

#[test]
fn reading_gives_each_event_its_content() {
    let items = read_items(b"<?xml version=\"1.0\"?><a>t</a>");
    let texts: Vec<&str> = items.iter().map(|item| item.text.as_str()).collect();
    assert_eq!(texts, vec!["xml version=\"1.0\"", "a", "t", "a", ""]);
}
