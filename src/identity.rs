use vstd::prelude::*;

use crate::clean::{trim, trimmed_chars};
use crate::dom::{DomNode, attrs_view};
use crate::text::{begins_with, chars_of, copy_text, lowercase, lowercase_of, same_text, string_of};

verus! {

broadcast use vstd::std_specs::vec::group_vec_axioms, vstd::seq::group_seq_axioms;

/// Text of the first text or CDATA node of `cs`.
pub open spec fn text_content(cs: Seq<DomNode>) -> Option<Seq<char>>
    decreases cs.len(),
{
    if cs.len() == 0 {
        None
    } else {
        match cs[0] {
            DomNode::Text(t) => Some(t@),
            DomNode::CData(t) => Some(t@),
            _ => text_content(cs.drop_first()),
        }
    }
}

/// Whether an element name, lowercased, is `tag` or `orx:tag` (lowercased).
pub open spec fn names_tag(name: Seq<char>, tag: Seq<char>) -> bool {
    lowercase_of(name) == lowercase_of(tag) || lowercase_of(name) == "orx:"@ + lowercase_of(tag)
}

/// The trimmed text of the first child of `cs` named `tag` that has text.
pub open spec fn tag_value(cs: Seq<DomNode>, tag: Seq<char>) -> Option<Seq<char>>
    decreases cs.len(),
{
    if cs.len() == 0 {
        None
    } else {
        let here = match cs[0] {
            DomNode::Element { name, children, .. } => if names_tag(name@, tag) {
                match text_content(children@) {
                    Some(t) => Some(trim(t)),
                    None => None,
                }
            } else {
                None
            },
            _ => None,
        };
        match here {
            Some(v) => Some(v),
            None => tag_value(cs.drop_first(), tag),
        }
    }
}

/// The value of `tag` in the first `meta` (or `orx:meta`) child of `cs` that has one.
pub open spec fn meta_value_in(cs: Seq<DomNode>, tag: Seq<char>) -> Option<Seq<char>>
    decreases cs.len(),
{
    if cs.len() == 0 {
        None
    } else {
        let here = match cs[0] {
            DomNode::Element { name, children, .. } => if lowercase_of(name@) == "meta"@
                || lowercase_of(name@) == "orx:meta"@ {
                tag_value(children@, tag)
            } else {
                None
            },
            _ => None,
        };
        match here {
            Some(v) => Some(v),
            None => meta_value_in(cs.drop_first(), tag),
        }
    }
}

/// The value of `meta/tag` (or `orx:meta/orx:tag`) under `root`.
pub open spec fn meta_value(root: DomNode, tag: Seq<char>) -> Option<Seq<char>> {
    match root {
        DomNode::Element { children, .. } => meta_value_in(children@, tag),
        _ => None,
    }
}

/// A UUID without its `uuid:` prefix; absent when nothing is left.
pub open spec fn stripped_uuid(s: Seq<char>) -> Option<Seq<char>> {
    if s.len() >= 5 && s.subrange(0, 5) == "uuid:"@ {
        if s.len() == 5 {
            None
        } else {
            Some(s.subrange(5, s.len() as int))
        }
    } else if s.len() == 0 {
        None
    } else {
        Some(s)
    }
}

/// The value of the first pair keyed `k`.
pub open spec fn lookup(pairs: Seq<(Seq<char>, Seq<char>)>, k: Seq<char>) -> Option<Seq<char>>
    decreases pairs.len(),
{
    if pairs.len() == 0 {
        None
    } else if pairs[0].0 == k {
        Some(pairs[0].1)
    } else {
        lookup(pairs.drop_first(), k)
    }
}

/// The submission's UUID: from `meta/instanceID`, else from an `instanceID` attribute.
pub open spec fn uuid_of(root: DomNode, attributes: Seq<(Seq<char>, Seq<char>)>) -> Option<Seq<char>> {
    match meta_value(root, "instanceID"@) {
        Some(u) => stripped_uuid(u),
        None => match lookup(attributes, "instanceID"@) {
            Some(u) => stripped_uuid(u),
            None => None,
        },
    }
}

/// The UUID this submission replaces, from `meta/deprecatedID`.
pub open spec fn deprecated_uuid_of(root: DomNode) -> Option<Seq<char>> {
    match meta_value(root, "deprecatedID"@) {
        Some(u) => stripped_uuid(u),
        None => None,
    }
}

/// The first non-empty `submissionDate` attribute.
pub open spec fn submission_date_of(pairs: Seq<(Seq<char>, Seq<char>)>) -> Option<Seq<char>>
    decreases pairs.len(),
{
    if pairs.len() == 0 {
        None
    } else if pairs[0].0 == "submissionDate"@ && pairs[0].1.len() > 0 {
        Some(pairs[0].1)
    } else {
        submission_date_of(pairs.drop_first())
    }
}

pub open spec fn opt_string_view(v: Option<String>) -> Option<Seq<char>> {
    match v {
        Some(s) => Some(s@),
        None => None,
    }
}

/// The text of the first text or CDATA node of `children`.
fn get_text_content(children: &[DomNode]) -> (r: Option<String>)
    ensures
        opt_string_view(r) == text_content(children@),
{
    let mut i: usize = 0;
    proof {
        assert(children@.subrange(0, children.len() as int) =~= children@);
    }
    while i < children.len()
        invariant
            i <= children.len(),
            text_content(children@) == text_content(children@.subrange(i as int, children.len() as int)),
        decreases children.len() - i,
    {
        proof {
            let rest = children@.subrange(i as int, children.len() as int);
            assert(rest.drop_first() =~= children@.subrange(i + 1, children.len() as int));
            assert(rest[0] == children@[i as int]);
        }
        match &children[i] {
            DomNode::Text(t) => return Some(copy_text(t.as_str())),
            DomNode::CData(t) => return Some(copy_text(t.as_str())),
            _ => {},
        }
        i = i + 1;
    }
    None
}

fn trimmed_string(s: &str) -> (r: String)
    ensures
        r@ == trim(s@),
{
    let t = trimmed_chars(s);
    string_of(&t, 0, t.len())
}

fn matches_tag(name: &str, tag: &str) -> (r: bool)
    ensures
        r == names_tag(name@, tag@),
{
    let n = lowercase(name);
    let t = lowercase(tag);
    let mut orx = copy_text("orx:");
    orx.push_str(t.as_str());
    same_text(n.as_str(), t.as_str()) || same_text(n.as_str(), orx.as_str())
}

fn is_meta_name(name: &str) -> (r: bool)
    ensures
        r == (lowercase_of(name@) == "meta"@ || lowercase_of(name@) == "orx:meta"@),
{
    let n = lowercase(name);
    same_text(n.as_str(), "meta") || same_text(n.as_str(), "orx:meta")
}

fn find_tag_value(cs: &[DomNode], tag: &str) -> (r: Option<String>)
    ensures
        opt_string_view(r) == tag_value(cs@, tag@),
{
    let mut i: usize = 0;
    proof {
        assert(cs@.subrange(0, cs.len() as int) =~= cs@);
    }
    while i < cs.len()
        invariant
            i <= cs.len(),
            tag_value(cs@, tag@) == tag_value(cs@.subrange(i as int, cs.len() as int), tag@),
        decreases cs.len() - i,
    {
        proof {
            let rest = cs@.subrange(i as int, cs.len() as int);
            assert(rest.drop_first() =~= cs@.subrange(i + 1, cs.len() as int));
            assert(rest[0] == cs@[i as int]);
        }
        if let DomNode::Element { name, children, .. } = &cs[i] {
            if matches_tag(name.as_str(), tag) {
                if let Some(text) = get_text_content(children.as_slice()) {
                    return Some(trimmed_string(text.as_str()));
                }
            }
        }
        i = i + 1;
    }
    None
}

/// The value of `meta/<tag_name>` or `orx:meta/orx:<tag_name>` under `root`,
/// trimmed; names are compared in lowercase.
pub fn extract_meta_value(root: &DomNode, tag_name: &str) -> (r: Option<String>)
    ensures
        opt_string_view(r) == meta_value(*root, tag_name@),
{
    if let DomNode::Element { children, .. } = root {
        let mut i: usize = 0;
        proof {
            assert(children@.subrange(0, children.len() as int) =~= children@);
        }
        while i < children.len()
            invariant
                i <= children.len(),
                meta_value(*root, tag_name@) == meta_value_in(
                    children@.subrange(i as int, children.len() as int),
                    tag_name@,
                ),
            decreases children.len() - i,
        {
            proof {
                let rest = children@.subrange(i as int, children.len() as int);
                assert(rest.drop_first() =~= children@.subrange(i + 1, children.len() as int));
                assert(rest[0] == children@[i as int]);
            }
            if let DomNode::Element { name, children: meta_children, .. } = &children[i] {
                if is_meta_name(name.as_str()) {
                    if let Some(v) = find_tag_value(meta_children.as_slice(), tag_name) {
                        return Some(v);
                    }
                }
            }
            i = i + 1;
        }
        proof {
            assert(children@.subrange(children.len() as int, children.len() as int) =~= Seq::<DomNode>::empty());
        }
    }
    None
}

/// Drops a leading `uuid:`; absent when nothing is left or `s` is empty.
pub fn strip_uuid_prefix(s: &str) -> (r: Option<String>)
    ensures
        opt_string_view(r) == stripped_uuid(s@),
{
    proof {
        reveal_strlit("uuid:");
    }
    let v = chars_of(s);
    if begins_with(s, "uuid:") {
        if v.len() == 5 {
            None
        } else {
            Some(string_of(&v, 5, v.len()))
        }
    } else if v.len() == 0 {
        None
    } else {
        Some(copy_text(s))
    }
}

fn lookup_pair<'a>(pairs: &'a [(String, String)], key: &str) -> (r: Option<&'a String>)
    ensures
        match r {
            Some(v) => lookup(attrs_view(pairs@), key@) == Some(v@),
            None => lookup(attrs_view(pairs@), key@) is None,
        },
{
    let ghost pv = attrs_view(pairs@);
    let mut i: usize = 0;
    proof {
        assert(pv.subrange(0, pv.len() as int) =~= pv);
    }
    while i < pairs.len()
        invariant
            i <= pairs.len(),
            pv == attrs_view(pairs@),
            lookup(pv, key@) == lookup(pv.subrange(i as int, pv.len() as int), key@),
        decreases pairs.len() - i,
    {
        proof {
            let rest = pv.subrange(i as int, pv.len() as int);
            assert(rest.drop_first() =~= pv.subrange(i + 1, pv.len() as int));
        }
        if same_text(pairs[i].0.as_str(), key) {
            return Some(&pairs[i].1);
        }
        i = i + 1;
    }
    None
}

/// The submission's UUID: `meta/instanceID`, else the `instanceID` attribute.
pub fn extract_uuid(root: &DomNode, attributes: &[(String, String)]) -> (r: Option<String>)
    ensures
        opt_string_view(r) == uuid_of(*root, attrs_view(attributes@)),
{
    if let Some(uuid) = extract_meta_value(root, "instanceID") {
        return strip_uuid_prefix(uuid.as_str());
    }
    match lookup_pair(attributes, "instanceID") {
        Some(v) => strip_uuid_prefix(v.as_str()),
        None => None,
    }
}

/// The UUID of the submission this one replaces, from `meta/deprecatedID`.
pub fn extract_deprecated_uuid(root: &DomNode) -> (r: Option<String>)
    ensures
        opt_string_view(r) == deprecated_uuid_of(*root),
{
    match extract_meta_value(root, "deprecatedID") {
        Some(uuid) => strip_uuid_prefix(uuid.as_str()),
        None => None,
    }
}

/// The first non-empty `submissionDate` attribute.
pub fn extract_submission_date(attributes: &[(String, String)]) -> (r: Option<String>)
    ensures
        opt_string_view(r) == submission_date_of(attrs_view(attributes@)),
{
    let ghost pv = attrs_view(attributes@);
    let mut i: usize = 0;
    proof {
        assert(pv.subrange(0, pv.len() as int) =~= pv);
    }
    while i < attributes.len()
        invariant
            i <= attributes.len(),
            pv == attrs_view(attributes@),
            submission_date_of(pv) == submission_date_of(pv.subrange(i as int, pv.len() as int)),
        decreases attributes.len() - i,
    {
        proof {
            let rest = pv.subrange(i as int, pv.len() as int);
            assert(rest.drop_first() =~= pv.subrange(i + 1, pv.len() as int));
        }
        if same_text(attributes[i].0.as_str(), "submissionDate") && !attributes[i].1.as_str().is_empty() {
            return Some(copy_text(attributes[i].1.as_str()));
        }
        i = i + 1;
    }
    None
}

} // verus!
