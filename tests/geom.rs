use onadata_xml::geom::{extract_geopoints, get_values_matching_key};
use onadata_xml::parser::parse_xml;
use onadata_xml::value::Value;

fn parse_f64(s: &str) -> Option<f64> {
    s.parse::<f64>().ok()
}

#[test]
fn test_extract_gps_simple() {
    let xml = r#"<?xml version='1.0' ?><tutorial id="tutorial">
  <name>Larry</name>
  <gps>-1.2836198 36.8795437 0.0 1044.0</gps>
  <meta><instanceID>uuid:abc</instanceID></meta>
</tutorial>"#;

    let result = parse_xml(xml, &[], false).unwrap();
    let dict = result.dict.unwrap();
    let points = extract_geopoints(&dict, &["gps".to_string()], parse_f64);

    assert_eq!(points.len(), 1);
    assert!((points[0].0 - (-1.2836198)).abs() < 1e-10);
    assert!((points[0].1 - 36.8795437).abs() < 1e-10);
}

#[test]
fn test_extract_gps_nested() {
    let xml = r#"<new_repeats id="new_repeats">
  <info><age>80</age></info>
  <gps>-1.2627557 36.7926442 0.0 30.0</gps>
</new_repeats>"#;

    let result = parse_xml(xml, &[], false).unwrap();
    let dict = result.dict.unwrap();
    let points = extract_geopoints(&dict, &["gps".to_string()], parse_f64);

    assert_eq!(points.len(), 1);
    assert!((points[0].0 - (-1.2627557)).abs() < 1e-10);
    assert!((points[0].1 - 36.7926442).abs() < 1e-10);
}

#[test]
fn test_no_gps() {
    let xml = "<root><name>test</name></root>";
    let result = parse_xml(xml, &[], false).unwrap();
    let dict = result.dict.unwrap();
    let points = extract_geopoints(&dict, &["gps".to_string()], parse_f64);
    assert!(points.is_empty());
}

#[test]
fn test_empty_geo_xpaths() {
    let xml = "<root><gps>-1.0 36.0 0.0 0.0</gps></root>";
    let result = parse_xml(xml, &[], false).unwrap();
    let dict = result.dict.unwrap();
    let points = extract_geopoints(&dict, &[], parse_f64);
    assert!(points.is_empty());
}

#[test]
fn test_get_values_matching_key_nested() {
    // Simulate a nested dict structure
    let dict = Value::Dict(vec![
        (
            "root".to_string(),
            Value::Dict(vec![
                (
                    "group".to_string(),
                    Value::Dict(vec![("gps".to_string(), Value::Str("-1.0 36.0".to_string()))]),
                ),
            ]),
        ),
    ]);

    let values = get_values_matching_key(&dict, "gps");
    assert_eq!(values.len(), 1);
    assert_eq!(*values[0], Value::Str("-1.0 36.0".to_string()));
}

#[test]
fn test_get_values_matching_key_in_list() {
    // Value with a list of dicts (repeat group)
    let dict = Value::Dict(vec![
        (
            "locations".to_string(),
            Value::List(vec![
                Value::Dict(vec![("gps".to_string(), Value::Str("-1.0 36.0".to_string()))]),
                Value::Dict(vec![("gps".to_string(), Value::Str("-2.0 37.0".to_string()))]),
            ]),
        ),
    ]);

    let values = get_values_matching_key(&dict, "gps");
    assert_eq!(values.len(), 2);
}
