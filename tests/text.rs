use onadata_xml::clean::clean_xml;
use onadata_xml::tree::compute_xpath;

#[test]
fn clean_keeps_text_between_tag_and_word() {
    assert_eq!(clean_xml("<a> x <b/> </a>"), "<a> x <b/></a>");
    assert_eq!(clean_xml("> <"), "><");
    assert_eq!(clean_xml("\u{a0}<a>\u{2003}<b/>\n</a>\t"), "<a><b/></a>");
}

#[test]
fn clean_empty_and_blank() {
    assert_eq!(clean_xml(""), "");
    assert_eq!(clean_xml("   \n "), "");
}

#[test]
fn xpath_of_root_itself() {
    assert_eq!(compute_xpath(&[], "root"), "root");
}
