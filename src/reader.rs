use vstd::prelude::*;

use quick_xml::events::attributes::Attributes;
use quick_xml::events::Event;
use quick_xml::Reader;

use crate::dom::{
    DomModel, DomNode, EventModel, ParseError, XmlEvent, attrs_view, dom_from_events,
    document_of, events_view,
};
use crate::text::copy_text;

verus! {

broadcast use vstd::std_specs::vec::group_vec_axioms, vstd::seq::group_seq_axioms;

/// quick_xml's pull reader, carried through opaquely.
#[verifier::external_type_specification]
#[verifier::external_body]
#[verifier::reject_recursive_types(R)]
pub struct ExReader<R>(Reader<R>);

/// quick_xml's reader error, carried through opaquely.
#[verifier::external_type_specification]
#[verifier::external_body]
pub struct ExXmlError(quick_xml::Error);

/// An event as the reader reports it; tag attributes and text still escaped.
pub enum RawEvent {
    /// An opening tag: its name, and the text of its attributes.
    Start(String, String),
    /// A self-closing tag: its name, and the text of its attributes.
    Empty(String, String),
    End,
    Text(String),
    CData(String),
    /// A comment, declaration, processing instruction or doctype.
    Other,
    Eof,
}

/// Mathematical model of a [`RawEvent`].
pub enum RawModel {
    Start(Seq<char>, Seq<char>),
    Empty(Seq<char>, Seq<char>),
    End,
    Text(Seq<char>),
    CData(Seq<char>),
    Other,
    Eof,
}

impl View for RawEvent {
    type V = RawModel;

    open spec fn view(&self) -> RawModel {
        match self {
            RawEvent::Start(n, a) => RawModel::Start(n@, a@),
            RawEvent::Empty(n, a) => RawModel::Empty(n@, a@),
            RawEvent::End => RawModel::End,
            RawEvent::Text(t) => RawModel::Text(t@),
            RawEvent::CData(t) => RawModel::CData(t@),
            RawEvent::Other => RawModel::Other,
            RawEvent::Eof => RawModel::Eof,
        }
    }
}

/// Names the events that quick_xml reads from a text: up to and including
/// the end of input, or up to its first error, where they stop.
pub uninterp spec fn raw_events_of(xml: Seq<char>) -> Seq<RawModel>;

/// Names the events a reader has still to report: up to and including the
/// end of input, or up to its first error, where they stop.
pub uninterp spec fn unread_events(reader: Reader<&[u8]>) -> Seq<RawModel>;

/// Names the attributes that quick_xml reads from the attribute text of a
/// tag: (name, raw value) for each, `None` for each malformed one.
pub uninterp spec fn attributes_of(raw: Seq<char>) -> Seq<Option<(Seq<char>, Seq<char>)>>;

/// Names what quick_xml's `escape::unescape` makes of a text, the text
/// itself where it fails.
pub uninterp spec fn unescaped_of(raw: Seq<char>) -> Seq<char>;

/// Relies on `quick_xml::Reader::from_str`: a reader at the start of `xml`,
/// which is to report the events of `xml`.
#[verifier::external_body]
fn open_reader(xml: &str) -> (r: Reader<&[u8]>)
    ensures
        unread_events(r) == raw_events_of(xml@),
{
    Reader::from_str(xml)
}

/// Relies on `quick_xml::Reader::read_event`: the next event, or the error
/// that comes before it. At the end of input the reader stays there.
#[verifier::external_body]
fn read_event(reader: &mut Reader<&[u8]>) -> (r: Result<RawEvent, quick_xml::Error>)
    ensures
        unread_events(*old(reader)).len() == 0 ==> r is Err,
        unread_events(*old(reader)).len() > 0 ==> (r matches Ok(e) && e@ == unread_events(
            *old(reader),
        )[0] && unread_events(*final(reader)) == if e is Eof {
            unread_events(*old(reader))
        } else {
            unread_events(*old(reader)).drop_first()
        }),
{
    Ok(match reader.read_event()? {
        Event::Start(e) => RawEvent::Start(String::from_utf8_lossy(e.name().0).into_owned(), String::from_utf8_lossy(e.attributes_raw()).into_owned()),
        Event::Empty(e) => RawEvent::Empty(String::from_utf8_lossy(e.name().0).into_owned(), String::from_utf8_lossy(e.attributes_raw()).into_owned()),
        Event::End(_) => RawEvent::End,
        Event::Text(e) => RawEvent::Text(String::from_utf8_lossy(&e).into_owned()),
        Event::CData(e) => RawEvent::CData(String::from_utf8_lossy(&e).into_owned()),
        Event::Comment(_) | Event::Decl(_) | Event::PI(_) | Event::DocType(_) => RawEvent::Other,
        Event::Eof => RawEvent::Eof,
    })
}

/// Relies on `quick_xml::Error`'s `Display`: the reader's diagnostic.
#[verifier::external_body]
fn error_text(e: &quick_xml::Error) -> String {
    e.to_string()
}

pub open spec fn attribute_results_view(v: Seq<Option<(String, String)>>) -> Seq<
    Option<(Seq<char>, Seq<char>)>,
> {
    Seq::new(
        v.len(),
        |i: int|
            match v[i] {
                Some(p) => Some((p.0@, p.1@)),
                None => None,
            },
    )
}

/// Relies on `quick_xml::events::attributes::Attributes`: the attributes
/// of a tag's attribute text, in order, with their raw values.
#[verifier::external_body]
fn attribute_results(raw: &str) -> (r: Vec<Option<(String, String)>>)
    ensures
        attribute_results_view(r@) == attributes_of(raw@),
{
    Attributes::new(raw, 0).map(|a| a.ok().map(|a| (
        String::from_utf8_lossy(a.key.as_ref()).into_owned(),
        String::from_utf8_lossy(&a.value).into_owned(),
    ))).collect()
}

/// Relies on `quick_xml::escape::unescape`: entities and character
/// references resolved; the text as it is where one is malformed.
#[verifier::external_body]
fn unescape_text(raw: &str) -> (r: String)
    ensures
        r@ == unescaped_of(raw@),
{
    match quick_xml::escape::unescape(raw) {
        Ok(v) => v.into_owned(),
        Err(_) => raw.to_string(),
    }
}

/// The well-formed attributes, with their values unescaped.
pub open spec fn decoded_attributes(a: Seq<Option<(Seq<char>, Seq<char>)>>) -> Seq<(Seq<char>, Seq<char>)>
    decreases a.len(),
{
    if a.len() == 0 {
        Seq::empty()
    } else {
        decoded_attributes(a.drop_last()) + match a.last() {
            Some(p) => seq![(p.0, unescaped_of(p.1))],
            None => Seq::empty(),
        }
    }
}

/// The event with its attributes read and its text unescaped.
pub open spec fn decoded(e: RawModel) -> EventModel {
    match e {
        RawModel::Start(n, a) => EventModel::Start(n, decoded_attributes(attributes_of(a))),
        RawModel::Empty(n, a) => EventModel::Empty(n, decoded_attributes(attributes_of(a))),
        RawModel::End => EventModel::End,
        RawModel::Text(t) => EventModel::Text(unescaped_of(t)),
        RawModel::CData(t) => EventModel::CData(t),
        _ => EventModel::Other,
    }
}

pub open spec fn decoded_all(evs: Seq<RawModel>) -> Seq<EventModel> {
    Seq::new(evs.len(), |i: int| decoded(evs[i]))
}

/// Index of the first end of input among `evs`, or -1.
pub open spec fn end_index(evs: Seq<RawModel>) -> int
    decreases evs.len(),
{
    if evs.len() == 0 {
        -1
    } else if evs[0] is Eof {
        0
    } else {
        let i = end_index(evs.drop_first());
        if i < 0 {
            -1
        } else {
            i + 1
        }
    }
}

/// The events read from `xml` before its end; `None` when reading fails.
pub open spec fn events_read(xml: Seq<char>) -> Option<Seq<EventModel>> {
    let raws = raw_events_of(xml);
    if end_index(raws) < 0 {
        None
    } else {
        Some(decoded_all(raws.take(end_index(raws))))
    }
}

/// The document read from `xml`; `None` when reading fails, an end tag is
/// unmatched or an element is left open.
pub open spec fn read_document(xml: Seq<char>) -> Option<DomModel> {
    match events_read(xml) {
        Some(evs) => document_of(evs),
        None => None,
    }
}

proof fn lemma_end_index(evs: Seq<RawModel>, i: int)
    requires
        0 <= i <= evs.len(),
        forall|j: int| 0 <= j < i ==> !(evs[j] is Eof),
    ensures
        i < evs.len() && evs[i] is Eof ==> end_index(evs) == i,
        i == evs.len() ==> end_index(evs) == -1,
    decreases i,
{
    if i > 0 {
        lemma_end_index(evs.drop_first(), i - 1);
    }
}

/// The attributes of a tag's attribute text, well-formed ones only, values unescaped.
fn tag_attributes(raw: &str) -> (r: Vec<(String, String)>)
    ensures
        attrs_view(r@) == decoded_attributes(attributes_of(raw@)),
{
    let results = attribute_results(raw);
    let ghost rv = attribute_results_view(results@);
    let mut out: Vec<(String, String)> = Vec::new();
    let mut i: usize = 0;
    proof {
        assert(attrs_view(out@) =~= decoded_attributes(rv.take(0)));
    }
    while i < results.len()
        invariant
            i <= results.len(),
            rv == attribute_results_view(results@),
            attrs_view(out@) == decoded_attributes(rv.take(i as int)),
        decreases results.len() - i,
    {
        proof {
            assert(rv.take(i + 1).drop_last() =~= rv.take(i as int));
            assert(rv.take(i + 1).last() == rv[i as int]);
        }
        if let Some(p) = &results[i] {
            let k = copy_text(p.0.as_str());
            let v = unescape_text(p.1.as_str());
            let ghost before = out@;
            out.push((k, v));
            proof {
                assert(attrs_view(before).len() == before.len());
                assert forall|j: int| 0 <= j < out@.len() implies attrs_view(out@)[j]
                    == (attrs_view(before) + seq![(p.0@, unescaped_of(p.1@))])[j] by {
                    if j < before.len() {
                        assert(attrs_view(before)[j] == attrs_view(out@)[j]);
                    }
                }
                assert(attrs_view(out@) =~= attrs_view(before) + seq![(p.0@, unescaped_of(p.1@))]);
            }
        } else {
            proof {
                assert(attrs_view(out@) =~= attrs_view(out@) + Seq::<(Seq<char>, Seq<char>)>::empty());
            }
        }
        i = i + 1;
    }
    proof {
        assert(rv.take(results.len() as int) =~= rv);
    }
    out
}

/// The event with its attributes read and its text unescaped.
fn decode_event(e: &RawEvent) -> (r: XmlEvent)
    ensures
        r@ == decoded(e@),
{
    match e {
        RawEvent::Start(n, a) => XmlEvent::Start { name: copy_text(n.as_str()), attrs: tag_attributes(a.as_str()) },
        RawEvent::Empty(n, a) => XmlEvent::Empty { name: copy_text(n.as_str()), attrs: tag_attributes(a.as_str()) },
        RawEvent::End => XmlEvent::End,
        RawEvent::Text(t) => XmlEvent::Text(unescape_text(t.as_str())),
        RawEvent::CData(t) => XmlEvent::CData(copy_text(t.as_str())),
        _ => XmlEvent::Other,
    }
}

/// Reads every event of `xml` up to its end.
pub fn read_events(xml: &str) -> (r: Result<Vec<XmlEvent>, ParseError>)
    ensures
        match events_read(xml@) {
            Some(evs) => r matches Ok(v) && events_view(v@) == evs,
            None => r matches Err(ParseError::Read(_)),
        },
{
    let ghost raws = raw_events_of(xml@);
    let mut reader = open_reader(xml);
    let mut events: Vec<XmlEvent> = Vec::new();
    let ghost mut i: int = 0;
    proof {
        assert(raws.subrange(0, raws.len() as int) =~= raws);
        assert(events_view(events@) =~= decoded_all(raws.take(0)));
    }
    loop
        invariant
            raws == raw_events_of(xml@),
            0 <= i <= raws.len(),
            unread_events(reader) == raws.subrange(i, raws.len() as int),
            forall|j: int| 0 <= j < i ==> !(raws[j] is Eof),
            events_view(events@) == decoded_all(raws.take(i)),
        decreases raws.len() - i,
    {
        let ghost before = events@;
        match read_event(&mut reader) {
            Err(e) => {
                proof {
                    lemma_end_index(raws, i);
                }
                let mut m = copy_text("XML parse error: ");
                m.push_str(error_text(&e).as_str());
                return Err(ParseError::Read(m));
            },
            Ok(RawEvent::Eof) => {
                proof {
                    lemma_end_index(raws, i);
                }
                return Ok(events);
            },
            Ok(ev) => {
                proof {
                    assert(raws[i] == ev@);
                    assert(raws.subrange(i, raws.len() as int).drop_first() =~= raws.subrange(i + 1, raws.len() as int));
                }
                let d = decode_event(&ev);
                events.push(d);
                proof {
                    assert(events_view(before).len() == before.len());
                    assert forall|j: int| 0 <= j < events@.len() implies events_view(events@)[j]
                        == decoded_all(raws.take(i + 1))[j] by {
                        if j < before.len() {
                            assert(events_view(before)[j] == events_view(events@)[j]);
                        }
                    }
                    assert(events_view(events@) =~= decoded_all(raws.take(i + 1)));
                }
                proof {
                    i = i + 1;
                }
            },
        }
    }
}

/// Reads `xml` into its document node, whose children are the top-level nodes.
pub fn build_dom(xml: &str) -> (r: Result<DomNode, ParseError>)
    ensures
        match read_document(xml@) {
            Some(d) => r matches Ok(doc) && doc@ == d,
            None => r matches Err(ParseError::Read(_)),
        },
{
    let events = read_events(xml)?;
    dom_from_events(&events)
}

} // verus!
