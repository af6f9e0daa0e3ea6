use hskclustering::graphml_filter::{FilterAction, FilterError, FilterStats, GraphmlFilter, XmlEvent};
use quick_xml::events::{BytesStart, Event};
use quick_xml::{Reader, Writer};
use std::io::Write;

/// The attributes the filter reads on an element, with normalized values.
fn attributes(element: &BytesStart<'_>, names: &[&str]) -> Result<Vec<(String, String)>, String> {
    let mut found = Vec::new();
    for name in names {
        let attribute = element.try_get_attribute(*name).map_err(|e| e.to_string())?;
        if let Some(attribute) = attribute {
            let value = attribute
                .normalized_value(quick_xml::XmlVersion::Implicit1_0)
                .map_err(|e| e.to_string())?;
            found.push((name.to_string(), value.into_owned()));
        }
    }
    Ok(found)
}

fn open_event(filter: &GraphmlFilter, element: &BytesStart<'_>, empty: bool) -> Result<XmlEvent, String> {
    let name = element.name().as_ref().to_string();
    let names: &[&str] = match name.as_str() {
        "key" => &["attr.name", "for", "id"],
        "edge" => &["source", "target"],
        "data" if filter.reads_data_key() => &["key"],
        _ => &[],
    };
    Ok(XmlEvent::Open { attributes: attributes(element, names)?, name, empty })
}

/// Stream `xml` through the filter, keeping edges whose weight is at least `threshold`.
fn filter_text(xml: &str, threshold: f64) -> Result<(FilterStats, String), String> {
    let mut reader = Reader::from_reader(xml.as_bytes());
    let mut writer = Writer::new(Vec::new());
    let mut held = Writer::new(Vec::new());
    let mut filter = GraphmlFilter::new();
    let mut buffer = Vec::new();
    loop {
        let event = reader.read_event_into(&mut buffer).map_err(|e| e.to_string())?;
        let xml_event = match &event {
            Event::Start(e) => open_event(&filter, e, false)?,
            Event::Empty(e) => open_event(&filter, e, true)?,
            Event::Text(t) => XmlEvent::Text(t.to_string()),
            Event::CData(t) => XmlEvent::Text(t.to_string()),
            Event::GeneralRef(_) => XmlEvent::EntityRef,
            Event::End(e) => XmlEvent::Close(e.name().as_ref().to_string()),
            Event::Eof => XmlEvent::Eof,
            _ => XmlEvent::Other,
        };
        match filter.step(&xml_event).map_err(|e| format!("{e:?}"))? {
            FilterAction::Write => writer.write_event(event.borrow()).map_err(|e| e.to_string())?,
            FilterAction::Hold => held.write_event(event.borrow()).map_err(|e| e.to_string())?,
            FilterAction::WeighThenHold(text) => {
                let weight: f64 = text.trim().parse().map_err(|_| "Invalid edge weight".to_string())?;
                if !weight.is_finite() {
                    return Err("Non-finite edge weight".into());
                }
                filter.record_weight(weight >= threshold);
                held.write_event(event.borrow()).map_err(|e| e.to_string())?;
            }
            FilterAction::Release(keep) => {
                held.write_event(event.borrow()).map_err(|e| e.to_string())?;
                let bytes = std::mem::replace(&mut held, Writer::new(Vec::new())).into_inner();
                if keep {
                    writer.get_mut().write_all(&bytes).map_err(|e| e.to_string())?;
                }
            }
            FilterAction::Finish => break,
        }
        buffer.clear();
    }
    Ok((filter.stats, String::from_utf8(writer.into_inner()).map_err(|e| e.to_string())?))
}

#[test]
fn malformed_xml_and_missing_weights_fail() {
    for xml in [
        "",
        "<graphml><graph>",
        "<graphml><graph><edge source=\"a\" target=\"b\"/></graph></graphml>",
    ] {
        assert!(filter_text(xml, 0.7).is_err());
    }
}

#[test]
fn threshold_is_inclusive_and_metadata_is_preserved() {
    let xml = r#"<graphml><key id="w" for="edge" attr.name="weight" attr.type="double"/><graph edgedefault="undirected"><node id="a"><data key="label">A&amp;B</data></node><node id="b"/><edge source="a" target="b" id="e1"><data key="w">0.7</data><data key="label">keep me</data></edge></graph></graphml>"#;
    let (stats, output) = filter_text(xml, 0.7).unwrap();
    assert_eq!((stats.nodes, stats.edges_kept), (2, 1));
    assert_eq!(output, xml);
    for weight in ["NaN", "inf", "invalid", "<nested>0.7</nested>"] {
        let invalid = xml.replace(">0.7<", &format!(">{weight}<"));
        assert!(filter_text(&invalid, 0.7).is_err());
    }
}

#[test]
fn edges_below_threshold_are_dropped_whole() {
    let xml = r#"<graphml><key id="w" attr.name="weight"/><graph><node id="a"/><node id="b"/><node id="c"/><edge source="a" target="b"><data key="w">0.9</data></edge><edge source="b" target="c"><data key="w">0.2</data></edge></graph></graphml>"#;
    let (stats, output) = filter_text(xml, 0.5).unwrap();
    assert_eq!(stats, FilterStats { nodes: 3, edges_read: 2, edges_kept: 1 });
    assert_eq!(
        output,
        r#"<graphml><key id="w" attr.name="weight"/><graph><node id="a"/><node id="b"/><node id="c"/><edge source="a" target="b"><data key="w">0.9</data></edge></graph></graphml>"#
    );
}

#[test]
fn structural_errors_are_reported() {
    let cases = [
        ("<graph/>", "RootExpected"),
        ("<graphml/><graphml/>", "RootExpected"),
        ("<graphml><graph/><graph/></graphml>", "NestedGraph"),
        ("<graphml><key attr.name=\"weight\"/></graphml>", "WeightKeyMissingId"),
        ("<graphml><key id=\"w\" attr.name=\"weight\"/><graph><edge source=\"a\" target=\"b\"><edge source=\"a\" target=\"b\"></edge></edge></graph></graphml>", "NestedEdge"),
        ("<graphml><graph><edge source=\"a\"></edge></graph></graphml>", "MissingEndpoint"),
        ("<graphml><key id=\"w\" attr.name=\"weight\"/><graph><edge source=\"a\" target=\"b\"><data key=\"w\"/></edge></graph></graphml>", "EmptyWeight"),
        ("<graphml><key id=\"w\" attr.name=\"weight\"/><graph><edge source=\"a\" target=\"b\"><data key=\"w\">1</data><data key=\"w\">1</data></edge></graph></graphml>", "DuplicateWeight"),
        ("<graphml><key id=\"w\" attr.name=\"weight\"/><graph><edge source=\"a\" target=\"b\"><data key=\"w\">0&amp;7</data></edge></graph></graphml>", "EntityInWeight"),
        ("<graphml><key id=\"w\" attr.name=\"weight\"/><graph><edge source=\"a\" target=\"b\"></edge></graph></graphml>", "MissingWeight"),
        ("<graphml><key id=\"w\" for=\"node\" attr.name=\"weight\"/><graph><edge source=\"a\" target=\"b\"><data key=\"w\">1</data></edge></graph></graphml>", "MissingWeight"),
    ];
    for (xml, expected) in cases {
        assert_eq!(filter_text(xml, 0.5).unwrap_err(), expected, "{xml}");
    }
}

#[test]
fn events_drive_the_filter_directly() {
    let mut filter = GraphmlFilter::new();
    assert_eq!(filter.step(&XmlEvent::Close("x".into())), Err(FilterError::UnexpectedClose));
    let mut filter = GraphmlFilter::new();
    assert_eq!(filter.step(&XmlEvent::Other), Ok(FilterAction::Write));
    assert_eq!(filter.step(&XmlEvent::Eof), Err(FilterError::Incomplete));
    let open = |name: &str, empty: bool| XmlEvent::Open { name: name.into(), empty, attributes: vec![] };
    let mut filter = GraphmlFilter::new();
    assert_eq!(filter.step(&open("graphml", false)), Ok(FilterAction::Write));
    assert_eq!(filter.step(&open("graph", false)), Ok(FilterAction::Write));
    assert_eq!(filter.step(&open("node", true)), Ok(FilterAction::Write));
    assert_eq!(filter.step(&XmlEvent::Close("graph".into())), Ok(FilterAction::Write));
    assert_eq!(filter.step(&XmlEvent::Close("graphml".into())), Ok(FilterAction::Write));
    assert_eq!(filter.step(&XmlEvent::Eof), Ok(FilterAction::Finish));
    assert_eq!(filter.stats, FilterStats { nodes: 1, edges_read: 0, edges_kept: 0 });
}

#[test]
fn events_inside_an_edge_are_held_until_its_release() {
    let attrs = |pairs: &[(&str, &str)]| pairs.iter().map(|(k, v)| (k.to_string(), v.to_string())).collect::<Vec<_>>();
    let open = |name: &str, empty: bool, a: Vec<(String, String)>| XmlEvent::Open { name: name.into(), empty, attributes: a };
    let mut filter = GraphmlFilter::new();
    assert_eq!(filter.step(&open("graphml", false, vec![])), Ok(FilterAction::Write));
    let key = attrs(&[("attr.name", "weight"), ("id", "w")]);
    assert_eq!(filter.step(&open("key", true, key)), Ok(FilterAction::Write));
    assert_eq!(filter.step(&open("graph", false, vec![])), Ok(FilterAction::Write));
    let edge = attrs(&[("source", "a"), ("target", "b")]);
    assert_eq!(filter.step(&open("edge", false, edge)), Ok(FilterAction::Hold));
    assert_eq!(filter.step(&XmlEvent::Other), Ok(FilterAction::Hold));
    assert_eq!(filter.step(&open("data", false, attrs(&[("key", "w")]))), Ok(FilterAction::Hold));
    assert_eq!(filter.step(&XmlEvent::Text(" 0.".into())), Ok(FilterAction::Hold));
    assert_eq!(filter.step(&XmlEvent::Text("25".into())), Ok(FilterAction::Hold));
    assert_eq!(filter.step(&XmlEvent::Close("data".into())), Ok(FilterAction::WeighThenHold(" 0.25".into())));
    filter.record_weight(false);
    assert_eq!(filter.step(&open("note", true, vec![])), Ok(FilterAction::Hold));
    assert_eq!(filter.step(&XmlEvent::Close("edge".into())), Ok(FilterAction::Release(false)));
    assert_eq!(filter.step(&XmlEvent::Other), Ok(FilterAction::Write));
    assert_eq!(filter.stats, FilterStats { nodes: 0, edges_read: 1, edges_kept: 0 });
}
