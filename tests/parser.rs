use onadata_xml::clean::clean_xml;
use onadata_xml::parser::parse_xml;
use onadata_xml::tree::compute_xpath;
use onadata_xml::value::Value;

#[test]
fn test_clean_xml() {
    let input = "  <?xml version='1.0' ?><root>  \n  <child>text</child>  \n  </root>  ";
    let cleaned = clean_xml(input);
    assert_eq!(
        cleaned,
        "<?xml version='1.0' ?><root><child>text</child></root>"
    );
}

#[test]
fn test_clean_xml_preserves_inner_text() {
    let input = "<root><name>Larry\n        Again\n  </name></root>";
    let cleaned = clean_xml(input);
    // Text inside a single element should be preserved
    assert_eq!(cleaned, "<root><name>Larry\n        Again\n  </name></root>");
}

#[test]
fn test_simple_form() {
    let xml = r#"<?xml version='1.0' ?><tutorial id="tutorial">
  <name>Larry
        Again
  </name>
  <age>23</age>
  <picture>1333604907194.jpg</picture>
  <has_children>0</has_children>
  <gps>-1.2836198 36.8795437 0.0 1044.0</gps>
  <web_browsers>firefox chrome safari</web_browsers>
  <meta>
    <instanceID>uuid:729f173c688e482486a48661700455ff</instanceID>
  </meta>
</tutorial>"#;

    let result = parse_xml(xml, &[], false).unwrap();

    assert_eq!(result.root_node_name, "tutorial");
    assert_eq!(
        result.uuid,
        Some("729f173c688e482486a48661700455ff".to_string())
    );
    assert_eq!(result.deprecated_uuid, None);
    assert_eq!(result.submission_date, None);

    // Check attributes
    assert_eq!(result.attributes, vec![("id".to_string(), "tutorial".to_string())]);

    // Check dict structure
    let dict = result.dict.unwrap();
    match &dict {
        Value::Dict(pairs) => {
            assert_eq!(pairs.len(), 1);
            assert_eq!(pairs[0].0, "tutorial");
            match &pairs[0].1 {
                Value::Dict(inner) => {
                    // Check name preserves whitespace
                    let name_val = inner.iter().find(|(k, _)| k == "name").unwrap();
                    match &name_val.1 {
                        Value::Str(s) => {
                            assert_eq!(s, "Larry\n        Again\n  ");
                        }
                        _ => panic!("Expected Str for name"),
                    }

                    // Check age
                    let age_val = inner.iter().find(|(k, _)| k == "age").unwrap();
                    assert_eq!(age_val.1, Value::Str("23".to_string()));

                    // Check meta/instanceID
                    let meta_val = inner.iter().find(|(k, _)| k == "meta").unwrap();
                    match &meta_val.1 {
                        Value::Dict(meta_inner) => {
                            assert_eq!(meta_inner.len(), 1);
                            assert_eq!(meta_inner[0].0, "instanceID");
                            assert_eq!(
                                meta_inner[0].1,
                                Value::Str(
                                    "uuid:729f173c688e482486a48661700455ff".to_string()
                                )
                            );
                        }
                        _ => panic!("Expected Dict for meta"),
                    }
                }
                _ => panic!("Expected Dict for tutorial"),
            }
        }
        _ => panic!("Expected Dict"),
    }
}

#[test]
fn test_nested_repeats() {
    let xml = r#"<new_repeats id="new_repeats">
  <info><age>80</age><name>Adam</name></info>
  <kids><kids_details><kids_age>50</kids_age><kids_name>Abel</kids_name></kids_details><has_kids>1</has_kids></kids>
  <web_browsers>chrome ie</web_browsers>
  <gps>-1.2627557 36.7926442 0.0 30.0</gps>
</new_repeats>"#;

    let repeats = vec!["kids/kids_details".to_string()];
    let result = parse_xml(xml, &repeats, false).unwrap();

    let dict = result.dict.unwrap();
    // dict = {"new_repeats": {"info": ..., "kids": ..., ...}}
    match &dict {
        Value::Dict(pairs) => {
            assert_eq!(pairs[0].0, "new_repeats");
            let inner = match &pairs[0].1 {
                Value::Dict(d) => d,
                _ => panic!("Expected Dict"),
            };

            // Check kids/kids_details is a list
            let kids = inner.iter().find(|(k, _)| k == "kids").unwrap();
            match &kids.1 {
                Value::Dict(kids_inner) => {
                    let kids_details =
                        kids_inner.iter().find(|(k, _)| k == "kids_details").unwrap();
                    match &kids_details.1 {
                        Value::List(list) => {
                            assert_eq!(list.len(), 1);
                            // The single item should be a dict with kids_age and kids_name
                            match &list[0] {
                                Value::Dict(d) => {
                                    assert!(d.iter().any(|(k, _)| k == "kids_age"));
                                    assert!(d.iter().any(|(k, _)| k == "kids_name"));
                                }
                                _ => panic!("Expected Dict in list"),
                            }
                        }
                        _ => panic!("Expected List for kids_details"),
                    }
                }
                _ => panic!("Expected Dict for kids"),
            }
        }
        _ => panic!("Expected Dict"),
    }
}

#[test]
fn test_encrypted_media() {
    let xml = r#"<data id="tutorial_encrypted" version="201701031234" encrypted="yes" xmlns="http://www.opendatakit.org/xforms/encrypted"><base64EncryptedKey>ZJTc</base64EncryptedKey><orx:meta xmlns:orx="http://openrosa.org/xforms"><orx:instanceID>uuid:f8971231-f3b8-4b2b-8c35-d95fa207d937</orx:instanceID></orx:meta>
<media><file>1483528430996.jpg.enc</file></media>
<media><file>1483528445767.jpg.enc</file></media>
<encryptedXmlFile>submission.xml.enc</encryptedXmlFile><base64EncryptedElementSignature>UUR8</base64EncryptedElementSignature></data>"#;

    let result = parse_xml(xml, &[], true).unwrap();

    assert_eq!(
        result.uuid,
        Some("f8971231-f3b8-4b2b-8c35-d95fa207d937".to_string())
    );

    let dict = result.dict.unwrap();
    match &dict {
        Value::Dict(pairs) => {
            assert_eq!(pairs[0].0, "data");
            let inner = match &pairs[0].1 {
                Value::Dict(d) => d,
                _ => panic!("Expected Dict"),
            };

            // media should be a list with 2 items
            let media = inner.iter().find(|(k, _)| k == "media").unwrap();
            match &media.1 {
                Value::List(list) => {
                    assert_eq!(list.len(), 2);
                    // First item
                    match &list[0] {
                        Value::Dict(d) => {
                            assert_eq!(d[0].0, "file");
                            assert_eq!(
                                d[0].1,
                                Value::Str("1483528430996.jpg.enc".to_string())
                            );
                        }
                        _ => panic!("Expected Dict in media list"),
                    }
                    // Second item
                    match &list[1] {
                        Value::Dict(d) => {
                            assert_eq!(d[0].0, "file");
                            assert_eq!(
                                d[0].1,
                                Value::Str("1483528445767.jpg.enc".to_string())
                            );
                        }
                        _ => panic!("Expected Dict in media list"),
                    }
                }
                _ => panic!("Expected List for media"),
            }
        }
        _ => panic!("Expected Dict"),
    }
}

#[test]
fn test_repeated_nodes_auto_list() {
    // S2A appears 3 times without being in repeat_xpaths.
    // Repeated siblings become a list from the second occurrence on.
    let xml = r#"<RW_OUNIS_2016 id="ROUNIS2" version="201608211141">
<S2A><S2A_note/><S2_1_3_2_2>1</S2_1_3_2_2><S2_1_3_2_3>1.25</S2_1_3_2_3></S2A>
<S2A><S2A_note/><S2_1_3_3_2>1</S2_1_3_3_2><S2_1_3_3_3>1.25</S2_1_3_3_3></S2A>
<S2A><S2A_note/><S2_1_3_5_2>1</S2_1_3_5_2><S2_1_3_5_3><S3B><S3_1_3_4>2</S3_1_3_4><S3_1_3_4>test</S3_1_3_4></S3B><S3B><S3_1_3_5>8</S3_1_3_5><S3_1_3_6>test2</S3_1_3_6></S3B><S3B><S3_1_3_7>5</S3_1_3_7><S3_1_3_8>test</S3_1_3_8></S3B></S2_1_3_5_3></S2A>
</RW_OUNIS_2016>"#;

    let result = parse_xml(xml, &[], false).unwrap();
    let dict = result.dict.unwrap();

    match &dict {
        Value::Dict(pairs) => {
            assert_eq!(pairs[0].0, "RW_OUNIS_2016");
            let inner = match &pairs[0].1 {
                Value::Dict(d) => d,
                _ => panic!("Expected Dict"),
            };

            // S2A should be a list of 3 dicts
            let s2a = inner.iter().find(|(k, _)| k == "S2A").unwrap();
            match &s2a.1 {
                Value::List(list) => {
                    assert_eq!(list.len(), 3);

                    // First S2A: {S2_1_3_2_2: "1", S2_1_3_2_3: "1.25"}
                    // (S2A_note is empty/self-closing, so skipped)
                    match &list[0] {
                        Value::Dict(d) => {
                            assert!(d.iter().any(|(k, v)| k == "S2_1_3_2_2"
                                && *v == Value::Str("1".to_string())));
                            assert!(d.iter().any(|(k, v)| k == "S2_1_3_2_3"
                                && *v == Value::Str("1.25".to_string())));
                        }
                        _ => panic!("Expected Dict in S2A list"),
                    }

                    // Third S2A has nested S2_1_3_5_3 with S3B repeats
                    match &list[2] {
                        Value::Dict(d) => {
                            let s2_1_3_5_3 =
                                d.iter().find(|(k, _)| k == "S2_1_3_5_3").unwrap();
                            match &s2_1_3_5_3.1 {
                                Value::Dict(inner_d) => {
                                    let s3b =
                                        inner_d.iter().find(|(k, _)| k == "S3B").unwrap();
                                    match &s3b.1 {
                                        Value::List(s3b_list) => {
                                            assert_eq!(s3b_list.len(), 3);
                                            // First S3B has S3_1_3_4 appearing twice -> list ["2", "test"]
                                            match &s3b_list[0] {
                                                Value::Dict(d) => {
                                                    let field = d
                                                        .iter()
                                                        .find(|(k, _)| k == "S3_1_3_4")
                                                        .unwrap();
                                                    match &field.1 {
                                                        Value::List(vals) => {
                                                            assert_eq!(vals.len(), 2);
                                                            assert_eq!(
                                                                vals[0],
                                                                Value::Str("2".to_string())
                                                            );
                                                            assert_eq!(
                                                                vals[1],
                                                                Value::Str(
                                                                    "test".to_string()
                                                                )
                                                            );
                                                        }
                                                        _ => panic!(
                                                            "Expected List for S3_1_3_4"
                                                        ),
                                                    }
                                                }
                                                _ => panic!("Expected Dict in S3B list"),
                                            }
                                        }
                                        _ => panic!("Expected List for S3B"),
                                    }
                                }
                                _ => panic!("Expected Dict for S2_1_3_5_3"),
                            }
                        }
                        _ => panic!("Expected Dict in S2A list"),
                    }
                }
                _ => panic!("Expected List for S2A, got {:?}", s2a.1),
            }
        }
        _ => panic!("Expected Dict"),
    }
}

#[test]
fn test_self_closing_tag_skipped() {
    let xml = "<root><note/><name>test</name></root>";
    let result = parse_xml(xml, &[], false).unwrap();
    let dict = result.dict.unwrap();
    match &dict {
        Value::Dict(pairs) => {
            let inner = match &pairs[0].1 {
                Value::Dict(d) => d,
                _ => panic!("Expected Dict"),
            };
            // note should be skipped
            assert!(!inner.iter().any(|(k, _)| k == "note"));
            // name should be present
            assert!(inner.iter().any(|(k, _)| k == "name"));
        }
        _ => panic!("Expected Dict"),
    }
}

#[test]
fn test_entity_attributes_skipped() {
    let xml = r#"<data id="form1"><entity id="ent1" dataset="people"><label>test</label></entity><name>test</name></data>"#;
    let result = parse_xml(xml, &[], false).unwrap();
    // "id" from data should be present, but "id" and "dataset" from entity should be skipped
    assert_eq!(
        result.attributes,
        vec![("id".to_string(), "form1".to_string())]
    );
}

#[test]
fn test_submission_date_extraction() {
    let xml = r#"<data id="form1" submissionDate="2023-01-15T10:30:00.000Z"><name>test</name></data>"#;
    let result = parse_xml(xml, &[], false).unwrap();
    assert_eq!(
        result.submission_date,
        Some("2023-01-15T10:30:00.000Z".to_string())
    );
}

#[test]
fn test_deprecated_uuid() {
    let xml = r#"<data id="form1"><meta><instanceID>uuid:new-uuid</instanceID><deprecatedID>uuid:old-uuid</deprecatedID></meta><name>test</name></data>"#;
    let result = parse_xml(xml, &[], false).unwrap();
    assert_eq!(result.uuid, Some("new-uuid".to_string()));
    assert_eq!(result.deprecated_uuid, Some("old-uuid".to_string()));
}

#[test]
fn test_orx_namespace_uuid() {
    let xml = r#"<data id="test" xmlns:orx="http://openrosa.org/xforms"><orx:meta><orx:instanceID>uuid:f8971231-f3b8-4b2b-8c35-d95fa207d937</orx:instanceID></orx:meta><name>test</name></data>"#;
    let result = parse_xml(xml, &[], false).unwrap();
    assert_eq!(
        result.uuid,
        Some("f8971231-f3b8-4b2b-8c35-d95fa207d937".to_string())
    );
}

#[test]
fn test_empty_root() {
    let xml = "<root/>";
    let result = parse_xml(xml, &[], false).unwrap();
    assert!(result.dict.is_none());
    assert_eq!(result.root_node_name, "root");
}

#[test]
fn test_xpath_computation() {
    // For a child "age" under root "tutorial", xpath should be "age"
    assert_eq!(compute_xpath(&["tutorial".to_string()], "age"), "age");

    // For grandchild "instanceID" under root "tutorial" > "meta"
    assert_eq!(
        compute_xpath(
            &["tutorial".to_string(), "meta".to_string()],
            "instanceID"
        ),
        "meta/instanceID"
    );

    // For deeply nested
    assert_eq!(
        compute_xpath(
            &["root".to_string(), "a".to_string(), "b".to_string()],
            "c"
        ),
        "a/b/c"
    );
}

#[test]
fn test_xmlns_attributes_included() {
    // xmlns attributes should be included (they are regular attributes to quick-xml)
    let xml = r#"<data id="test" xmlns="http://example.com"><name>v</name></data>"#;
    let result = parse_xml(xml, &[], false).unwrap();
    // Should have both 'id' and 'xmlns'
    assert!(result.attributes.iter().any(|(k, _)| k == "id"));
    assert!(result.attributes.iter().any(|(k, _)| k == "xmlns"));
}
