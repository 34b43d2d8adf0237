use onadata_xml::dom::ParseError;
use onadata_xml::geom::{extract_geopoints, geo_candidates_of, get_values_matching_key};
use onadata_xml::headers::check_csv_headers;
use onadata_xml::identity::strip_uuid_prefix;
use onadata_xml::parser::parse_xml;
use onadata_xml::submission::parse_submission;
use onadata_xml::value::Value;

fn decode(s: &str) -> Option<f64> {
    s.parse::<f64>().ok()
}

fn strs(v: &[&str]) -> Vec<String> {
    v.iter().map(|s| s.to_string()).collect()
}

fn entry<'a>(pairs: &'a [(String, Value)], key: &str) -> Option<&'a Value> {
    pairs.iter().find(|(k, _)| k == key).map(|(_, v)| v)
}

fn root_children(v: &Value) -> &Vec<(String, Value)> {
    match v {
        Value::Dict(pairs) => match &pairs[0].1 {
            Value::Dict(inner) => inner,
            other => panic!("root holds {:?}", other),
        },
        other => panic!("not a dictionary: {:?}", other),
    }
}

fn s(text: &str) -> Value {
    Value::Str(text.to_string())
}

const SIMPLE: &str = "<?xml version='1.0' ?><tutorial id=\"tutorial\"><name>Larry\n        Again\n  </name><age>23</age><gps>-1.2836198 36.8795437 0.0 1044.0</gps><meta><instanceID>uuid:729f173c688e482486a48661700455ff</instanceID></meta></tutorial>";

#[test]
fn simple_form_submission() {
    let r = parse_submission(SIMPLE, &[], false, &strs(&["gps"]), decode).unwrap();
    assert_eq!(r.root_node_name, "tutorial");
    assert_eq!(r.uuid, Some("729f173c688e482486a48661700455ff".to_string()));
    assert_eq!(r.attributes, vec![("id".to_string(), "tutorial".to_string())]);
    assert_eq!(entry(&r.flat_dict, "name"), Some(&s("Larry\n        Again\n  ")));
    assert_eq!(
        entry(&r.flat_dict, "meta/instanceID"),
        Some(&s("uuid:729f173c688e482486a48661700455ff"))
    );
    assert_eq!(r.geom_points, vec![(-1.2836198, 36.8795437)]);
    assert_eq!(r.checksum, "0cf62f4fcfe6d2ed85ab04f0c11043052047d19aee67a1e9cee8bf426760531d");
}

#[test]
fn checksum_of_small_document() {
    let r = parse_submission("<root><a>1</a></root>", &[], false, &[], decode).unwrap();
    assert_eq!(r.checksum, "95b6b6677f2e62b38050556fad99aa5a0568ea10104205cc8cc276f4dd93549e");
    assert_eq!(r.checksum.len(), 64);
}

#[test]
fn checksum_is_deterministic() {
    let a = parse_submission(SIMPLE, &[], false, &[], decode).unwrap();
    let b = parse_submission(SIMPLE, &[], false, &[], decode).unwrap();
    assert_eq!(a.checksum, b.checksum);
    let c = parse_submission("<root><a>2</a></root>", &[], false, &[], decode).unwrap();
    assert_ne!(a.checksum, c.checksum);
}

#[test]
fn declared_repeat_with_one_instance() {
    let xml = "<f><kids><kids_details><kids_age>50</kids_age><kids_name>Abel</kids_name></kids_details></kids></f>";
    let r = parse_submission(xml, &strs(&["kids/kids_details"]), false, &[], decode).unwrap();
    let root = root_children(r.dict.as_ref().unwrap());
    let kids = match entry(root, "kids").unwrap() {
        Value::Dict(d) => d,
        other => panic!("kids is {:?}", other),
    };
    assert_eq!(
        entry(kids, "kids_details"),
        Some(&Value::List(vec![Value::Dict(vec![
            ("kids_age".to_string(), s("50")),
            ("kids_name".to_string(), s("Abel")),
        ])]))
    );
    assert_eq!(
        entry(&r.flat_dict, "kids/kids_details"),
        Some(&Value::List(vec![Value::Dict(vec![
            ("kids/kids_details/kids_age".to_string(), s("50")),
            ("kids/kids_details/kids_name".to_string(), s("Abel")),
        ])]))
    );
}

#[test]
fn encrypted_media_items() {
    let xml = "<data encrypted=\"yes\"><media><file>a.jpg.enc</file></media><media><file>b.jpg.enc</file></media></data>";
    let r = parse_submission(xml, &[], true, &[], decode).unwrap();
    let root = root_children(r.dict.as_ref().unwrap());
    assert_eq!(
        entry(root, "media"),
        Some(&Value::List(vec![
            Value::Dict(vec![("file".to_string(), s("a.jpg.enc"))]),
            Value::Dict(vec![("file".to_string(), s("b.jpg.enc"))]),
        ]))
    );
    assert_eq!(
        entry(&r.flat_dict, "media"),
        Some(&Value::List(vec![
            Value::Dict(vec![("media/file".to_string(), s("a.jpg.enc"))]),
            Value::Dict(vec![("media/file".to_string(), s("b.jpg.enc"))]),
        ]))
    );
}

#[test]
fn single_media_without_encryption_is_plain() {
    let xml = "<data><media><file>a.jpg</file></media></data>";
    let r = parse_xml(xml, &[], false).unwrap();
    let root = root_children(r.dict.as_ref().unwrap());
    assert_eq!(entry(root, "media"), Some(&Value::Dict(vec![("file".to_string(), s("a.jpg"))])));
}

#[test]
fn repeated_siblings_become_a_list() {
    let xml = "<r><S2A><x>1</x></S2A><S2A><x>2</x></S2A><S2A><S3B><v>2</v><v>test</v></S3B></S2A></r>";
    let r = parse_xml(xml, &[], false).unwrap();
    let root = root_children(r.dict.as_ref().unwrap());
    match entry(root, "S2A").unwrap() {
        Value::List(items) => {
            assert_eq!(items.len(), 3);
            assert_eq!(items[0], Value::Dict(vec![("x".to_string(), s("1"))]));
            assert_eq!(items[1], Value::Dict(vec![("x".to_string(), s("2"))]));
            assert_eq!(
                items[2],
                Value::Dict(vec![(
                    "S3B".to_string(),
                    Value::Dict(vec![("v".to_string(), Value::List(vec![s("2"), s("test")]))])
                )])
            );
        }
        other => panic!("S2A is {:?}", other),
    }
}

#[test]
fn keys_keep_first_occurrence_order() {
    let xml = "<r><b>1</b><a>2</a><b>3</b><c/><d>4</d></r>";
    let r = parse_xml(xml, &[], false).unwrap();
    let root = root_children(r.dict.as_ref().unwrap());
    let keys: Vec<&str> = root.iter().map(|(k, _)| k.as_str()).collect();
    assert_eq!(keys, vec!["b", "a", "d"]);
    assert_eq!(entry(root, "b"), Some(&Value::List(vec![s("1"), s("3")])));
}

#[test]
fn entity_attributes_and_submission_date() {
    let xml = "<data id=\"form1\" submissionDate=\"2023-01-15T10:30:00Z\"><entity id=\"ent1\" dataset=\"people\"><label>x</label></entity></data>";
    let r = parse_xml(xml, &[], false).unwrap();
    assert_eq!(
        r.attributes,
        vec![
            ("id".to_string(), "form1".to_string()),
            ("submissionDate".to_string(), "2023-01-15T10:30:00Z".to_string()),
        ]
    );
    assert_eq!(r.submission_date, Some("2023-01-15T10:30:00Z".to_string()));
}

#[test]
fn nested_duplicate_attribute_does_not_override() {
    let xml = "<data id=\"root\"><g id=\"inner\" extra=\"e\"><x>1</x></g></data>";
    let r = parse_xml(xml, &[], false).unwrap();
    assert_eq!(
        r.attributes,
        vec![("id".to_string(), "root".to_string()), ("extra".to_string(), "e".to_string())]
    );
}

#[test]
fn empty_submission_date_is_absent() {
    let r = parse_xml("<data submissionDate=\"\"><x>1</x></data>", &[], false).unwrap();
    assert_eq!(r.submission_date, None);
}

#[test]
fn geopoint_extraction_stops_at_malformed_value() {
    let xml = "<r><p><gps>1.5 2.5</gps></p><p><gps>abc def</gps></p><p><gps>3.5 4.5</gps></p></r>";
    let r = parse_submission(xml, &[], false, &strs(&["gps"]), decode).unwrap();
    assert_eq!(r.geom_points, vec![(1.5, 2.5)]);
    let d = r.dict.unwrap();
    assert_eq!(
        geo_candidates_of(&d, &strs(&["gps"])),
        vec![
            ("1.5".to_string(), "2.5".to_string()),
            ("abc".to_string(), "def".to_string()),
            ("3.5".to_string(), "4.5".to_string()),
        ]
    );
    assert_eq!(extract_geopoints(&d, &strs(&["gps"]), decode), vec![(1.5, 2.5)]);
}

#[test]
fn geopoint_with_one_word_is_skipped() {
    let xml = "<r><gps>7.0</gps><loc>1.0\t2.0 3</loc></r>";
    let r = parse_submission(xml, &[], false, &strs(&["gps", "loc"]), decode).unwrap();
    assert_eq!(r.geom_points, vec![(1.0, 2.0)]);
}

#[test]
fn uuid_prefix_is_stripped() {
    assert_eq!(strip_uuid_prefix("uuid:abc"), Some("abc".to_string()));
    assert_eq!(strip_uuid_prefix("abc"), Some("abc".to_string()));
    assert_eq!(strip_uuid_prefix("uuid:"), None);
    assert_eq!(strip_uuid_prefix(""), None);
    assert_eq!(strip_uuid_prefix("UUID:abc"), Some("UUID:abc".to_string()));
}

#[test]
fn uuid_from_instance_id_attribute() {
    let r = parse_xml("<data instanceID=\"uuid:from-attr\"><x>1</x></data>", &[], false).unwrap();
    assert_eq!(r.uuid, Some("from-attr".to_string()));
}

#[test]
fn meta_names_match_in_any_case() {
    let xml = "<data><META><InstanceId>  uuid:upper  </InstanceId></META></data>";
    let r = parse_xml(xml, &[], false).unwrap();
    assert_eq!(r.uuid, Some("upper".to_string()));
}

#[test]
fn cdata_wins_over_sibling_elements() {
    let xml = "<r><note><a>1</a><![CDATA[raw <text>]]><b>2</b></note></r>";
    let r = parse_xml(xml, &[], false).unwrap();
    let root = root_children(r.dict.as_ref().unwrap());
    assert_eq!(entry(root, "note"), Some(&s("raw <text>")));
}

#[test]
fn entities_are_resolved() {
    let xml = "<r a=\"x &amp; y\"><t>1 &lt; 2 &#65;</t></r>";
    let r = parse_xml(xml, &[], false).unwrap();
    assert_eq!(r.attributes, vec![("a".to_string(), "x & y".to_string())]);
    let root = root_children(r.dict.as_ref().unwrap());
    assert_eq!(entry(root, "t"), Some(&s("1 < 2 A")));
}

#[test]
fn namespace_prefixes_are_kept() {
    let xml = "<d:root xmlns:d=\"urn:x\"><d:item>v</d:item></d:root>";
    let r = parse_xml(xml, &[], false).unwrap();
    assert_eq!(r.root_node_name, "d:root");
    let root = root_children(r.dict.as_ref().unwrap());
    assert_eq!(entry(root, "d:item"), Some(&s("v")));
}

#[test]
fn unclosed_element_is_a_read_error() {
    match parse_xml("<root><a>1</a>", &[], false) {
        Err(ParseError::Read(_)) => {}
        other => panic!("unexpected {:?}", other),
    }
}

#[test]
fn mismatched_end_tag_is_a_read_error() {
    match parse_xml("<root><a>1</b></root>", &[], false) {
        Err(ParseError::Read(m)) => assert!(m.starts_with("XML parse error")),
        other => panic!("unexpected {:?}", other),
    }
}

#[test]
fn document_without_root_is_a_structure_error() {
    match parse_xml("<!-- nothing here -->", &[], false) {
        Err(e @ ParseError::Structure(_)) => assert_eq!(e.message(), "No root element found"),
        other => panic!("unexpected {:?}", other),
    }
}

#[test]
fn flat_view_holds_each_leaf_once() {
    let xml = "<r><a><b>1</b><c>2</c></a><d>3</d><l><x>4</x></l><l><x>5</x></l></r>";
    let r = parse_submission(xml, &[], false, &[], decode).unwrap();
    let strings: Vec<(&str, &Value)> = r
        .flat_dict
        .iter()
        .filter(|(_, v)| matches!(v, Value::Str(_)))
        .map(|(k, v)| (k.as_str(), v))
        .collect();
    assert_eq!(strings, vec![("a/b", &s("1")), ("a/c", &s("2")), ("d", &s("3"))]);
    assert_eq!(
        entry(&r.flat_dict, "l"),
        Some(&Value::List(vec![
            Value::Dict(vec![("l/x".to_string(), s("4"))]),
            Value::Dict(vec![("l/x".to_string(), s("5"))]),
        ]))
    );
}

#[test]
fn value_get_finds_first_key() {
    let v = Value::Dict(vec![("a".to_string(), s("1")), ("b".to_string(), s("2"))]);
    assert_eq!(v.get("b"), Some(&s("2")));
    assert_eq!(v.get("z"), None);
    assert_eq!(s("x").get("a"), None);
}

#[test]
fn csv_headers_missing_columns() {
    let headers = strs(&["name", "age"]);
    let columns = vec![
        ("name".to_string(), "text".to_string()),
        ("height".to_string(), "integer".to_string()),
        ("colours".to_string(), "select all that apply".to_string()),
        ("weight".to_string(), "decimal".to_string()),
    ];
    let err = check_csv_headers(&headers, &columns).unwrap_err();
    assert_eq!(err.columns, strs(&["height", "weight"]));
    assert_eq!(err.message(), "Imported CSV is missing the following fields: height, weight");
}

#[test]
fn csv_headers_additional_columns() {
    let headers = strs(&["name", "extra", "colours[red]", "age"]);
    let columns = vec![
        ("name".to_string(), "text".to_string()),
        ("age".to_string(), "integer".to_string()),
        ("colours".to_string(), "select all that apply".to_string()),
    ];
    assert_eq!(check_csv_headers(&headers, &columns).unwrap(), strs(&["extra"]));
    assert_eq!(check_csv_headers(&[], &[]).unwrap(), Vec::<String>::new());
}

#[test]
fn key_search_finds_equal_strings_in_lists() {
    let v = Value::Dict(vec![
        ("gps".to_string(), s("1 2")),
        ("tags".to_string(), Value::List(vec![s("gps"), s("other")])),
        ("g".to_string(), Value::Dict(vec![("gps".to_string(), s("3 4"))])),
    ]);
    let found = get_values_matching_key(&v, "gps");
    assert_eq!(found, vec![&s("1 2"), &s("gps"), &s("3 4")]);
}

#[test]
fn duplicate_is_equal() {
    let v = Value::Dict(vec![
        ("a".to_string(), Value::List(vec![s("1"), Value::Dict(vec![("b".to_string(), s("2"))])])),
        ("c".to_string(), s("")),
    ]);
    assert_eq!(v.duplicate(), v);
}
