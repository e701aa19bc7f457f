use sys_dashboard::weather::condition::symbol_to_condition;
use sys_dashboard::weather::feed::{local_name, parse_simple_features, rows_from_events, XmlEvent};

fn rounded(v: f32) -> Option<i32> {
    Some(v.round() as i32)
}

#[test]
fn symbol_groups() {
    assert_eq!(symbol_to_condition(rounded(1.0)), "clear");
    assert_eq!(symbol_to_condition(rounded(2.0)), "partly-cloudy");
    assert_eq!(symbol_to_condition(rounded(3.0)), "cloudy");
    assert_eq!(symbol_to_condition(rounded(22.0)), "rain");
    assert_eq!(symbol_to_condition(rounded(32.0)), "rain");
    assert_eq!(symbol_to_condition(rounded(42.0)), "snow");
    assert_eq!(symbol_to_condition(rounded(52.0)), "snow");
    assert_eq!(symbol_to_condition(rounded(61.0)), "thunder");
    assert_eq!(symbol_to_condition(rounded(63.0)), "thunder");
    assert_eq!(symbol_to_condition(rounded(72.0)), "sleet");
    assert_eq!(symbol_to_condition(rounded(82.0)), "sleet");
    assert_eq!(symbol_to_condition(rounded(91.0)), "fog");
    assert_eq!(symbol_to_condition(rounded(92.0)), "fog");

    // Defensive fallbacks.
    assert_eq!(symbol_to_condition(None), "cloudy");
    assert_eq!(symbol_to_condition(rounded(999.0)), "cloudy");
}

#[test]
fn parses_a_minimal_simple_feature_collection() {
    let xml = r#"<?xml version="1.0"?>
<wfs:FeatureCollection xmlns:wfs="http://www.opengis.net/wfs/2.0"
                       xmlns:gml="http://www.opengis.net/gml/3.2"
                       xmlns:BsWfs="http://xml.fmi.fi/schema/wfs/2.0">
  <wfs:member>
    <BsWfs:BsWfsElement>
      <BsWfs:Location>
        <gml:Point><gml:pos>64.22 27.72</gml:pos></gml:Point>
      </BsWfs:Location>
      <BsWfs:Time>2026-06-14T12:00:00Z</BsWfs:Time>
      <BsWfs:ParameterName>Temperature</BsWfs:ParameterName>
      <BsWfs:ParameterValue>15.5</BsWfs:ParameterValue>
    </BsWfs:BsWfsElement>
  </wfs:member>
  <wfs:member>
    <BsWfs:BsWfsElement>
      <BsWfs:Time>2026-06-14T12:00:00Z</BsWfs:Time>
      <BsWfs:ParameterName>WeatherSymbol3</BsWfs:ParameterName>
      <BsWfs:ParameterValue>3.0</BsWfs:ParameterValue>
    </BsWfs:BsWfsElement>
  </wfs:member>
</wfs:FeatureCollection>"#;

    let rows = parse_simple_features(xml).expect("parse");
    assert_eq!(rows.len(), 2);
    assert_eq!(rows[0].name, "Temperature");
    let value: f32 = rows[0].value.parse().unwrap();
    assert!((value - 15.5).abs() < 1e-3);
    assert_eq!(rows[1].name, "WeatherSymbol3");
}

#[test]
fn parses_nan_as_missing() {
    let xml = r#"<wfs:FeatureCollection xmlns:wfs="http://www.opengis.net/wfs/2.0"
                                            xmlns:BsWfs="http://xml.fmi.fi/schema/wfs/2.0">
  <wfs:member>
    <BsWfs:BsWfsElement>
      <BsWfs:Time>2026-06-14T12:00:00Z</BsWfs:Time>
      <BsWfs:ParameterName>Temperature</BsWfs:ParameterName>
      <BsWfs:ParameterValue>NaN</BsWfs:ParameterValue>
    </BsWfs:BsWfsElement>
  </wfs:member>
</wfs:FeatureCollection>"#;
    let rows = parse_simple_features(xml).expect("parse");
    assert!(rows.is_empty(), "NaN rows should be dropped, got {} rows", rows.len());
}

#[test]
fn row_time_is_utc_seconds_and_nanos() {
    let xml = "<a><BsWfsElement><Time>2026-06-14T15:00:00.25+03:00</Time>\
               <ParameterName>Temperature</ParameterName>\
               <ParameterValue>-2</ParameterValue></BsWfsElement></a>";
    let rows = parse_simple_features(xml).expect("parse");
    assert_eq!(rows.len(), 1);
    assert_eq!(rows[0].time.secs, 1781438400);
    assert_eq!(rows[0].time.nanos, 250_000_000);
    assert_eq!(rows[0].value, "-2");
}

#[test]
fn text_is_unescaped_and_trimmed() {
    let xml = "<a><BsWfsElement><Time> 2026-06-14T12:00:00Z\n</Time>\
               <ParameterName>Temp&amp;erature</ParameterName>\
               <ParameterValue>\t1e1 </ParameterValue></BsWfsElement></a>";
    let rows = parse_simple_features(xml).expect("parse");
    assert_eq!(rows.len(), 1);
    assert_eq!(rows[0].name, "Temp&erature");
    assert_eq!(rows[0].value, "1e1");
}

#[test]
fn unparsable_value_or_time_drops_the_row() {
    let xml = "<a><BsWfsElement><Time>2026-06-14T12:00:00Z</Time>\
               <ParameterName>Temperature</ParameterName>\
               <ParameterValue>warm</ParameterValue></BsWfsElement>\
               <BsWfsElement><Time>yesterday</Time>\
               <ParameterName>Temperature</ParameterName>\
               <ParameterValue>3</ParameterValue></BsWfsElement>\
               <BsWfsElement><Time>2026-06-14T13:00:00Z</Time>\
               <ParameterName>Temperature</ParameterName></BsWfsElement></a>";
    let rows = parse_simple_features(xml).expect("parse");
    assert!(rows.is_empty());
}

#[test]
fn nan_keeps_an_earlier_value_and_lowercase_nan_too() {
    let xml = "<a><BsWfsElement><Time>2026-06-14T12:00:00Z</Time>\
               <ParameterName>Temperature</ParameterName>\
               <ParameterValue>4.5</ParameterValue><ParameterValue>nan</ParameterValue>\
               </BsWfsElement></a>";
    let rows = parse_simple_features(xml).expect("parse");
    assert_eq!(rows.len(), 1);
    assert_eq!(rows[0].value, "4.5");
}

#[test]
fn malformed_xml_reports_the_byte_position() {
    let xml = "<a><BsWfsElement></a>";
    let err = parse_simple_features(xml).err().expect("error");
    assert!(err.starts_with("XML parse error at byte "), "{}", err);
}

#[test]
fn bad_entity_is_an_error() {
    let xml = "<a><Time>&bogus;</Time></a>";
    assert!(parse_simple_features(xml).is_err());
}

#[test]
fn local_names_drop_the_prefix() {
    assert_eq!(local_name(b"BsWfs:BsWfsElement").unwrap(), "BsWfsElement");
    assert_eq!(local_name(b"Time").unwrap(), "Time");
    assert_eq!(local_name(b"a:b:c").unwrap(), "b:c");
    assert_eq!(local_name(b"ns:").unwrap(), "");
    let err = local_name(&[b'x', b':', 0xff]).unwrap_err();
    assert!(err.starts_with("non-UTF8 element name: "), "{}", err);
}

#[test]
fn events_fold_into_rows() {
    let events = vec![
        XmlEvent::Start(b"BsWfs:BsWfsElement".to_vec()),
        XmlEvent::Start(b"BsWfs:Time".to_vec()),
        XmlEvent::Text(b"2026-06-14T12:00:00Z".to_vec()),
        XmlEvent::End(b"BsWfs:Time".to_vec()),
        XmlEvent::Start(b"BsWfs:ParameterName".to_vec()),
        XmlEvent::Text(b"WeatherSymbol3".to_vec()),
        XmlEvent::End(b"BsWfs:ParameterName".to_vec()),
        XmlEvent::Other,
        XmlEvent::Start(b"BsWfs:ParameterValue".to_vec()),
        XmlEvent::Text(b"  21.0 ".to_vec()),
        XmlEvent::End(b"BsWfs:ParameterValue".to_vec()),
        XmlEvent::End(b"BsWfs:BsWfsElement".to_vec()),
        XmlEvent::Eof,
        XmlEvent::Failed(3, "never read".to_string()),
    ];
    let rows = rows_from_events(&events).expect("rows");
    assert_eq!(rows.len(), 1);
    assert_eq!(rows[0].name, "WeatherSymbol3");
    assert_eq!(rows[0].value, "21.0");
    assert_eq!(rows[0].time.secs, 1781438400);
}

#[test]
fn failed_event_message() {
    let events = vec![XmlEvent::Other, XmlEvent::Failed(1234, "boom".to_string())];
    let err = rows_from_events(&events).err().expect("error");
    assert_eq!(err, "XML parse error at byte 1234: boom");
}

#[test]
fn undecodable_text_is_an_error() {
    let events = vec![XmlEvent::Text(vec![0xc3, 0x28])];
    let err = rows_from_events(&events).err().expect("error");
    assert!(err.starts_with("Malformed UTF-8 input: "), "{}", err);
}

#[test]
fn every_condition_key_is_one_of_eight() {
    let keys = ["clear", "partly-cloudy", "cloudy", "fog", "rain", "thunder", "sleet", "snow"];
    for code in -5..120 {
        let k = symbol_to_condition(Some(code));
        assert!(keys.contains(&k.as_str()), "{} -> {}", code, k);
    }
    assert_eq!(symbol_to_condition(Some(33)), "rain");
    assert_eq!(symbol_to_condition(Some(83)), "sleet");
    assert_eq!(symbol_to_condition(Some(84)), "cloudy");
    assert_eq!(symbol_to_condition(Some(0)), "cloudy");
}
