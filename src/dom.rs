use vstd::prelude::*;

verus! {

broadcast use vstd::std_specs::vec::group_vec_axioms, vstd::seq::group_seq_axioms;

/// A node of the minimal document tree read from XML.
#[derive(Debug)]
pub enum DomNode {
    Element { name: String, attrs: Vec<(String, String)>, children: Vec<DomNode> },
    Text(String),
    CData(String),
}

/// Mathematical model of a [`DomNode`].
pub enum DomModel {
    Elem { name: Seq<char>, attrs: Seq<(Seq<char>, Seq<char>)>, children: Seq<DomModel> },
    Text(Seq<char>),
    CData(Seq<char>),
}

/// The model of a list of (key, value) string pairs.
pub open spec fn attrs_view(attrs: Seq<(String, String)>) -> Seq<(Seq<char>, Seq<char>)> {
    Seq::new(attrs.len(), |i: int| (attrs[i].0@, attrs[i].1@))
}

impl View for DomNode {
    type V = DomModel;

    open spec fn view(&self) -> DomModel
        decreases self,
    {
        match self {
            DomNode::Element { name, attrs, children } => DomModel::Elem {
                name: name@,
                attrs: attrs_view(attrs@),
                children: Seq::new(
                    children.len() as nat,
                    |i: int|
                        if 0 <= i < children.len() {
                            children@[i].view()
                        } else {
                            DomModel::Text(Seq::empty())
                        },
                ),
            },
            DomNode::Text(t) => DomModel::Text(t@),
            DomNode::CData(t) => DomModel::CData(t@),
        }
    }
}

/// The models of a list of nodes.
pub open spec fn nodes_view(nodes: Seq<DomNode>) -> Seq<DomModel> {
    Seq::new(nodes.len(), |i: int| nodes[i]@)
}

pub proof fn lemma_element_view(name: String, attrs: Vec<(String, String)>, children: Vec<DomNode>)
    ensures
        (DomNode::Element { name, attrs, children })@ == (DomModel::Elem {
            name: name@,
            attrs: attrs_view(attrs@),
            children: nodes_view(children@),
        }),
{
    let v = (DomNode::Element { name, attrs, children })@;
    assert(v->Elem_children =~= nodes_view(children@));
}

/// One event of the XML reader, with names and text decoded.
#[derive(Debug)]
pub enum XmlEvent {
    /// An opening tag.
    Start { name: String, attrs: Vec<(String, String)> },
    /// A self-closing tag.
    Empty { name: String, attrs: Vec<(String, String)> },
    /// A closing tag.
    End,
    /// Character data with entities resolved.
    Text(String),
    /// The content of a CDATA section.
    CData(String),
    /// A declaration, processing instruction, comment or doctype.
    Other,
}

/// Mathematical model of an [`XmlEvent`].
pub enum EventModel {
    Start(Seq<char>, Seq<(Seq<char>, Seq<char>)>),
    Empty(Seq<char>, Seq<(Seq<char>, Seq<char>)>),
    End,
    Text(Seq<char>),
    CData(Seq<char>),
    Other,
}

impl View for XmlEvent {
    type V = EventModel;

    open spec fn view(&self) -> EventModel {
        match self {
            XmlEvent::Start { name, attrs } => EventModel::Start(name@, attrs_view(attrs@)),
            XmlEvent::Empty { name, attrs } => EventModel::Empty(name@, attrs_view(attrs@)),
            XmlEvent::End => EventModel::End,
            XmlEvent::Text(t) => EventModel::Text(t@),
            XmlEvent::CData(t) => EventModel::CData(t@),
            XmlEvent::Other => EventModel::Other,
        }
    }
}

/// The models of a list of events.
pub open spec fn events_view(evs: Seq<XmlEvent>) -> Seq<EventModel> {
    Seq::new(evs.len(), |i: int| evs[i]@)
}

/// `c` added as the last child of the innermost open element.
pub open spec fn add_child(stack: Seq<DomModel>, c: DomModel) -> Seq<DomModel> {
    if stack.len() == 0 {
        stack
    } else {
        match stack.last() {
            DomModel::Elem { name, attrs, children } => stack.update(
                stack.len() - 1,
                DomModel::Elem { name, attrs, children: children.push(c) },
            ),
            _ => stack,
        }
    }
}

/// The stack of open elements after one more event; `None` when an end tag
/// has nothing to close.
pub open spec fn dom_step(stack: Seq<DomModel>, e: EventModel) -> Option<Seq<DomModel>> {
    match e {
        EventModel::Start(name, attrs) => Some(
            stack.push(DomModel::Elem { name, attrs, children: seq![] }),
        ),
        EventModel::Empty(name, attrs) => Some(
            add_child(stack, DomModel::Elem { name, attrs, children: seq![] }),
        ),
        EventModel::End => if stack.len() < 2 {
            None
        } else {
            Some(add_child(stack.drop_last(), stack.last()))
        },
        EventModel::Text(t) => Some(add_child(stack, DomModel::Text(t))),
        EventModel::CData(t) => Some(add_child(stack, DomModel::CData(t))),
        EventModel::Other => Some(stack),
    }
}

/// The document node that holds the top-level nodes.
pub open spec fn document_frame() -> DomModel {
    DomModel::Elem { name: "#document"@, attrs: seq![], children: seq![] }
}

/// The stack of open elements after the events `evs`, starting from the document.
pub open spec fn dom_run(evs: Seq<EventModel>) -> Option<Seq<DomModel>>
    decreases evs.len(),
{
    if evs.len() == 0 {
        Some(seq![document_frame()])
    } else {
        match dom_run(evs.drop_last()) {
            Some(st) => dom_step(st, evs.last()),
            None => None,
        }
    }
}

/// The document that `evs` describe: every element closed, and no end tag
/// left unmatched.
pub open spec fn document_of(evs: Seq<EventModel>) -> Option<DomModel> {
    match dom_run(evs) {
        Some(st) => if st.len() == 1 {
            Some(st[0])
        } else {
            None
        },
        None => None,
    }
}

/// Errors of reading and interpreting a submission.
#[derive(Debug)]
pub enum ParseError {
    /// The XML could not be read: malformed text, an unmatched or missing end tag.
    Read(String),
    /// The document has no root element.
    Structure(String),
}

impl ParseError {
    /// The human-readable message.
    pub fn message(&self) -> (r: &String)
        ensures
            match self {
                ParseError::Read(m) => r == m,
                ParseError::Structure(m) => r == m,
            },
    {
        match self {
            ParseError::Read(m) => m,
            ParseError::Structure(m) => m,
        }
    }
}

/// Adds `c` as the last child of the node on top of `stack`.
fn push_child(stack: &mut Vec<DomNode>, c: DomNode)
    ensures
        nodes_view(final(stack)@) == add_child(nodes_view(old(stack)@), c@),
{
    let ghost before = nodes_view(stack@);
    match stack.pop() {
        None => {
            proof {
                assert(nodes_view(stack@) =~= before);
            }
        },
        Some(top) => {
            match top {
                DomNode::Element { name, attrs, mut children } => {
                    proof {
                        lemma_element_view(name, attrs, children);
                    }
                    let ghost old_children = children@;
                    children.push(c);
                    proof {
                        lemma_element_view(name, attrs, children);
                        assert(nodes_view(children@) =~= nodes_view(old_children).push(c@));
                    }
                    stack.push(DomNode::Element { name, attrs, children });
                },
                other => {
                    stack.push(other);
                },
            }
            proof {
                assert(nodes_view(stack@) =~= add_child(before, c@));
            }
        },
    }
}

fn text_node(s: &String) -> (r: DomNode)
    ensures
        r@ == DomModel::Text(s@),
{
    DomNode::Text(crate::text::copy_text(s.as_str()))
}

/// Builds the document that the events describe.
pub fn dom_from_events(events: &Vec<XmlEvent>) -> (r: Result<DomNode, ParseError>)
    ensures
        match document_of(events_view(events@)) {
            Some(d) => r matches Ok(doc) && doc@ == d,
            None => r matches Err(ParseError::Read(_)),
        },
{
    let ghost ev = events_view(events@);
    let mut stack: Vec<DomNode> = Vec::new();
    let root = DomNode::Element { name: crate::text::copy_text("#document"), attrs: Vec::new(), children: Vec::new() };
    proof {
        lemma_element_view(root->Element_name, root->Element_attrs, root->Element_children);
        assert(nodes_view(root->Element_children@) =~= seq![]);
        assert(attrs_view(root->Element_attrs@) =~= seq![]);
    }
    stack.push(root);
    proof {
        assert(nodes_view(stack@) =~= seq![document_frame()]);
        assert(ev.take(0) =~= seq![]);
    }
    let mut i: usize = 0;
    while i < events.len()
        invariant
            i <= events.len(),
            ev == events_view(events@),
            dom_run(ev.take(i as int)) == Some(nodes_view(stack@)),
        decreases events.len() - i,
    {
        proof {
            assert(ev.take(i + 1).drop_last() =~= ev.take(i as int));
            assert(ev.take(i + 1).last() == events@[i as int]@);
        }
        let ghost st = nodes_view(stack@);
        match &events[i] {
            XmlEvent::Start { name, attrs } => {
                let node = element_node(name, attrs);
                stack.push(node);
                proof {
                    assert(nodes_view(stack@) =~= st.push(node@));
                }
            },
            XmlEvent::Empty { name, attrs } => {
                let node = element_node(name, attrs);
                push_child(&mut stack, node);
            },
            XmlEvent::End => {
                if stack.len() < 2 {
                    proof {
                        assert(dom_run(ev.take(i + 1)) is None);
                        lemma_run_stops(ev, i as int + 1);
                        assert(ev.take(events.len() as int) =~= ev);
                    }
                    return Err(ParseError::Read(crate::text::copy_text("No parent for end tag")));
                }
                let top = stack.pop().unwrap();
                proof {
                    assert(nodes_view(stack@) =~= st.drop_last());
                }
                push_child(&mut stack, top);
            },
            XmlEvent::Text(t) => {
                push_child(&mut stack, text_node(t));
            },
            XmlEvent::CData(t) => {
                push_child(&mut stack, DomNode::CData(crate::text::copy_text(t.as_str())));
            },
            XmlEvent::Other => {},
        }
        i = i + 1;
    }
    proof {
        assert(ev.take(events.len() as int) =~= ev);
    }
    if stack.len() != 1 {
        return Err(ParseError::Read(crate::text::copy_text("Malformed XML: unclosed elements")));
    }
    let doc = stack.pop().unwrap();
    Ok(doc)
}

fn element_node(name: &String, attrs: &Vec<(String, String)>) -> (r: DomNode)
    ensures
        r@ == (DomModel::Elem { name: name@, attrs: attrs_view(attrs@), children: seq![] }),
{
    let mut copied: Vec<(String, String)> = Vec::new();
    let mut i: usize = 0;
    while i < attrs.len()
        invariant
            i <= attrs.len(),
            attrs_view(copied@) == attrs_view(attrs@).take(i as int),
        decreases attrs.len() - i,
    {
        let k = crate::text::copy_text(attrs[i].0.as_str());
        let v = crate::text::copy_text(attrs[i].1.as_str());
        let ghost before = copied@;
        copied.push((k, v));
        proof {
            assert(attrs_view(before).len() == i);
            assert forall|j: int| 0 <= j <= i implies attrs_view(copied@)[j] == attrs_view(attrs@)[j] by {
                if j < i {
                    assert(attrs_view(before)[j] == attrs_view(attrs@).take(i as int)[j]);
                }
            }
            assert(attrs_view(copied@) =~= attrs_view(attrs@).take(i + 1));
        }
        i = i + 1;
    }
    let node = DomNode::Element { name: crate::text::copy_text(name.as_str()), attrs: copied, children: Vec::new() };
    proof {
        lemma_element_view(node->Element_name, node->Element_attrs, node->Element_children);
        assert(nodes_view(node->Element_children@) =~= seq![]);
        assert(attrs_view(attrs@).take(attrs.len() as int) =~= attrs_view(attrs@));
    }
    node
}

/// Every open node is an element, and the document is one of them.
pub proof fn lemma_run_elements(evs: Seq<EventModel>)
    ensures
        dom_run(evs) matches Some(st) ==> st.len() >= 1 && forall|i: int| 0 <= i < st.len() ==> #[trigger] st[i] is Elem,
    decreases evs.len(),
{
    if evs.len() > 0 {
        lemma_run_elements(evs.drop_last());
        if let Some(st) = dom_run(evs.drop_last()) {
            if let Some(next) = dom_step(st, evs.last()) {
                assert forall|i: int| 0 <= i < next.len() implies #[trigger] next[i] is Elem by {
                    match evs.last() {
                        EventModel::End => {
                            assert(st.drop_last()[i] == st[i]);
                        },
                        EventModel::Start(..) => {
                            if i < st.len() {
                                assert(next[i] == st[i]);
                            }
                        },
                        _ => {},
                    }
                }
            }
        }
    }
}

/// The document read from events is an element.
pub proof fn lemma_document_is_element(evs: Seq<EventModel>, doc: DomNode)
    requires
        document_of(evs) == Some(doc@),
    ensures
        doc is Element,
{
    lemma_run_elements(evs);
}

proof fn lemma_run_stops(evs: Seq<EventModel>, k: int)
    requires
        0 <= k <= evs.len(),
        dom_run(evs.take(k)) is None,
    ensures
        dom_run(evs) is None,
    decreases evs.len() - k,
{
    if k < evs.len() {
        assert(evs.take(k + 1).drop_last() =~= evs.take(k));
        lemma_run_stops(evs, k + 1);
    } else {
        assert(evs.take(k) =~= evs);
    }
}

} // verus!
