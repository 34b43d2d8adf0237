use vstd::prelude::*;

use crate::checksum::{sha256_hex, sha256_hex_of};
use crate::dom::ParseError;
use crate::flatten::{flat_view, flatten_dict};
use crate::geom::{decoded_points, extract_geopoints, geo_candidates};
use crate::parser::{ParseResult, parse_xml, parses_to};
use crate::tree::names_view;
use crate::value::{Value, pairs_view};

verus! {

/// Everything produced for one submission; `P` is the type of a decoded coordinate.
#[derive(Debug)]
pub struct SubmissionResult<P> {
    pub dict: Option<Value>,
    pub flat_dict: Vec<(String, Value)>,
    pub attributes: Vec<(String, String)>,
    pub root_node_name: String,
    pub uuid: Option<String>,
    pub deprecated_uuid: Option<String>,
    pub submission_date: Option<String>,
    pub geom_points: Vec<(P, P)>,
    pub checksum: String,
}

/// The fields read from the XML itself.
pub open spec fn parsed_part<P>(s: SubmissionResult<P>) -> ParseResult {
    ParseResult {
        dict: s.dict,
        root_node_name: s.root_node_name,
        attributes: s.attributes,
        uuid: s.uuid,
        deprecated_uuid: s.deprecated_uuid,
        submission_date: s.submission_date,
    }
}

/// What is derived from the nested tree and the raw text.
pub open spec fn derived_parts_hold<P, F: Fn(&str) -> Option<P>>(
    s: SubmissionResult<P>,
    xml: Seq<char>,
    geo_xpaths: Seq<Seq<char>>,
    f: F,
) -> bool {
    &&& s.checksum@ == sha256_hex_of(xml)
    &&& match s.dict {
        Some(d) => pairs_view(s.flat_dict@) == flat_view(d@) && decoded_points(
            f,
            geo_candidates(d@, geo_xpaths),
            s.geom_points@,
        ),
        None => s.flat_dict@.len() == 0 && s.geom_points@.len() == 0,
    }
}

/// Completes a parsed submission with its flat view, geopoints and checksum.
pub fn assemble<P, F: Fn(&str) -> Option<P>>(
    parsed: ParseResult,
    xml_str: &str,
    geo_xpaths: &[String],
    parse_coordinate: F,
) -> (r: SubmissionResult<P>)
    requires
        forall|s: &str| #[trigger] parse_coordinate.requires((s,)),
    ensures
        parsed_part(r) == parsed,
        derived_parts_hold(r, xml_str@, names_view(geo_xpaths@), parse_coordinate),
{
    let (flat_dict, geom_points) = match &parsed.dict {
        Some(d) => (flatten_dict(d), extract_geopoints(d, geo_xpaths, parse_coordinate)),
        None => (Vec::new(), Vec::new()),
    };
    let checksum = sha256_hex(xml_str);
    SubmissionResult {
        dict: parsed.dict,
        flat_dict,
        attributes: parsed.attributes,
        root_node_name: parsed.root_node_name,
        uuid: parsed.uuid,
        deprecated_uuid: parsed.deprecated_uuid,
        submission_date: parsed.submission_date,
        geom_points,
        checksum,
    }
}

/// The parse result inside a submission result; errors as they are.
pub open spec fn parse_part<P>(r: Result<SubmissionResult<P>, ParseError>) -> Result<ParseResult, ParseError> {
    match r {
        Ok(s) => Ok(parsed_part(s)),
        Err(e) => Err(e),
    }
}

/// Parses a submission and derives its flat view, its geopoints (decoded by
/// `parse_coordinate`) and the checksum of the raw text. Fails exactly as
/// parsing the text does, with the same error.
pub fn parse_submission<P, F: Fn(&str) -> Option<P>>(
    xml_str: &str,
    repeat_xpaths: &[String],
    encrypted: bool,
    geo_xpaths: &[String],
    parse_coordinate: F,
) -> (r: Result<SubmissionResult<P>, ParseError>)
    requires
        forall|s: &str| #[trigger] parse_coordinate.requires((s,)),
    ensures
        parses_to(xml_str@, parse_part(r), names_view(repeat_xpaths@), encrypted),
        r matches Ok(s) ==> derived_parts_hold(s, xml_str@, names_view(geo_xpaths@), parse_coordinate),
{
    match parse_xml(xml_str, repeat_xpaths, encrypted) {
        Ok(parsed) => Ok(assemble(parsed, xml_str, geo_xpaths, parse_coordinate)),
        Err(e) => Err(e),
    }
}

} // verus!
