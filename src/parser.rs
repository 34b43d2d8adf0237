use vstd::prelude::*;

use crate::attrs::{XmlAttribute, attribute_walk, build_attributes, collect_attributes, first_wins, attributes_view};
use crate::clean::{clean_xml, cleaned};
use crate::dom::{DomNode, ParseError, attrs_view};
use crate::identity::{
    deprecated_uuid_of, extract_deprecated_uuid, extract_submission_date, extract_uuid,
    opt_string_view, submission_date_of, uuid_of,
};
use crate::reader::{build_dom, read_document};
use crate::tree::{element_value, names_view, node_to_dict, option_view};
use crate::text::copy_text;
use crate::value::{Tree, Value};

verus! {

broadcast use vstd::std_specs::vec::group_vec_axioms, vstd::seq::group_seq_axioms;

/// Everything read from one submission.
#[derive(Debug)]
pub struct ParseResult {
    /// `{root_name: {...}}`, absent when the root element contributes nothing.
    pub dict: Option<Value>,
    /// The root element's name, prefix kept.
    pub root_node_name: String,
    /// The attributes of the whole tree, first of each key kept, `entity` elements left out.
    pub attributes: Vec<(String, String)>,
    /// From `meta/instanceID`, without its `uuid:` prefix.
    pub uuid: Option<String>,
    /// From `meta/deprecatedID`, without its `uuid:` prefix.
    pub deprecated_uuid: Option<String>,
    /// The root's non-empty `submissionDate` attribute.
    pub submission_date: Option<String>,
}

/// Index of the first element among `cs`, or -1.
pub open spec fn first_element(cs: Seq<DomNode>) -> int
    decreases cs.len(),
{
    if cs.len() == 0 {
        -1
    } else if cs[0] is Element {
        0
    } else {
        let i = first_element(cs.drop_first());
        if i < 0 {
            -1
        } else {
            i + 1
        }
    }
}

/// The nested tree of a root element: `{name: value}`, when it has a value.
pub open spec fn root_tree(root: DomNode, repeats: Seq<Seq<char>>, encrypted: bool) -> Option<Tree> {
    match element_value(root, repeats, encrypted, seq![]) {
        Some(t) => Some(Tree::Node(seq![(root->Element_name@, t)])),
        None => None,
    }
}

/// `res` is what a submission whose root element is `root` gives.
pub open spec fn describes(res: ParseResult, root: DomNode, repeats: Seq<Seq<char>>, encrypted: bool) -> bool {
    &&& root is Element
    &&& res.root_node_name@ == root->Element_name@
    &&& option_view(res.dict) == root_tree(root, repeats, encrypted)
    &&& attrs_view(res.attributes@) == first_wins(attribute_walk(root))
    &&& opt_string_view(res.uuid) == uuid_of(root, attrs_view(res.attributes@))
    &&& opt_string_view(res.deprecated_uuid) == deprecated_uuid_of(root)
    &&& opt_string_view(res.submission_date) == submission_date_of(attrs_view(res.attributes@))
}

/// `r` is what interpreting the document `doc` gives: a structure error when
/// it has no element, else the description of its first element.
pub open spec fn interprets(
    doc: DomNode,
    r: Result<ParseResult, ParseError>,
    repeats: Seq<Seq<char>>,
    encrypted: bool,
) -> bool {
    match doc {
        DomNode::Element { children, .. } => {
            let i = first_element(children@);
            if i < 0 {
                r matches Err(e) && e is Structure
            } else {
                r matches Ok(res) && describes(res, children@[i], repeats, encrypted)
            }
        },
        _ => r matches Err(e) && e is Structure,
    }
}

/// `r` is what parsing the text `xml` gives: a read error when the cleaned
/// text does not read as a document, else the interpretation of the document.
pub open spec fn parses_to(
    xml: Seq<char>,
    r: Result<ParseResult, ParseError>,
    repeats: Seq<Seq<char>>,
    encrypted: bool,
) -> bool {
    match read_document(cleaned(xml)) {
        Some(d) => exists|doc: DomNode| doc@ == d && interprets(doc, r, repeats, encrypted),
        None => r matches Err(ParseError::Read(_)),
    }
}

proof fn lemma_first_element(cs: Seq<DomNode>, i: int)
    requires
        0 <= i < cs.len(),
        cs[i] is Element,
        forall|j: int| 0 <= j < i ==> !(cs[j] is Element),
    ensures
        first_element(cs) == i,
    decreases i,
{
    if i > 0 {
        lemma_first_element(cs.drop_first(), i - 1);
    }
}

proof fn lemma_no_element(cs: Seq<DomNode>)
    requires
        forall|j: int| 0 <= j < cs.len() ==> !(cs[j] is Element),
    ensures
        first_element(cs) == -1,
    decreases cs.len(),
{
    if cs.len() > 0 {
        lemma_no_element(cs.drop_first());
    }
}

fn is_element(n: &DomNode) -> (r: bool)
    ensures
        r == n is Element,
{
    match n {
        DomNode::Element { .. } => true,
        _ => false,
    }
}

/// Interprets a document read from XML: its first element is the root.
pub fn parse_document(doc: &DomNode, repeat_xpaths: &[String], encrypted: bool) -> (r: Result<
    ParseResult,
    ParseError,
>)
    ensures
        interprets(*doc, r, names_view(repeat_xpaths@), encrypted),
{
    let children = match doc {
        DomNode::Element { children, .. } => children,
        _ => {
            return Err(ParseError::Structure(copy_text("Expected document node")));
        },
    };
    let mut i: usize = 0;
    while i < children.len() && !is_element(&children[i])
        invariant
            i <= children.len(),
            forall|j: int| 0 <= j < i ==> !(children@[j] is Element),
        decreases children.len() - i,
    {
        i = i + 1;
    }
    if i == children.len() {
        proof {
            lemma_no_element(children@);
        }
        return Err(ParseError::Structure(copy_text("No root element found")));
    }
    proof {
        lemma_first_element(children@, i as int);
    }
    let root_element = &children[i];
    let root_name = match root_element {
        DomNode::Element { name, .. } => copy_text(name.as_str()),
        _ => String::new(),
    };
    let no_ancestors: Vec<String> = Vec::new();
    proof {
        assert(names_view(no_ancestors@) =~= Seq::<Seq<char>>::empty());
    }
    let dict = node_to_dict(root_element, repeat_xpaths, encrypted, no_ancestors.as_slice());
    let mut raw_attrs: Vec<XmlAttribute> = Vec::new();
    collect_attributes(root_element, &mut raw_attrs);
    proof {
        assert(attributes_view(raw_attrs@) =~= attribute_walk(*root_element));
    }
    let attributes = build_attributes(raw_attrs.as_slice());
    let uuid = extract_uuid(root_element, attributes.as_slice());
    let deprecated_uuid = extract_deprecated_uuid(root_element);
    let submission_date = extract_submission_date(attributes.as_slice());
    Ok(ParseResult { dict, root_node_name: root_name, attributes, uuid, deprecated_uuid, submission_date })
}

/// Reads a submission: cleans the text, reads it into a document and
/// interprets the document's root element.
pub fn parse_xml(xml_str: &str, repeat_xpaths: &[String], encrypted: bool) -> (r: Result<
    ParseResult,
    ParseError,
>)
    ensures
        parses_to(xml_str@, r, names_view(repeat_xpaths@), encrypted),
{
    let cleaned = clean_xml(xml_str);
    let dom = build_dom(cleaned.as_str())?;
    parse_document(&dom, repeat_xpaths, encrypted)
}

} // verus!
