use vstd::prelude::*;

use crate::dom::DomNode;
use crate::value::{
    Tree, Value, pairs_view, key_index, lemma_dict_view, lemma_list_view, items_view,
    lemma_key_index_bounds, find_key,
};

verus! {

broadcast use vstd::std_specs::vec::group_vec_axioms, vstd::seq::group_seq_axioms;

/// `parts` joined with `/`.
pub open spec fn join_path(parts: Seq<Seq<char>>) -> Seq<char>
    decreases parts.len(),
{
    if parts.len() == 0 {
        Seq::empty()
    } else if parts.len() == 1 {
        parts[0]
    } else {
        join_path(parts.drop_last()) + seq!['/'] + parts.last()
    }
}

/// The names below the root element: the first name of `path` is dropped.
pub open spec fn below_root(path: Seq<Seq<char>>) -> Seq<Seq<char>> {
    if path.len() == 0 {
        path
    } else {
        path.skip(1)
    }
}

/// Abbreviated xpath of an element named `name` whose ancestors, from the root
/// element down, are `ancestors`.
pub open spec fn xpath_of(ancestors: Seq<Seq<char>>, name: Seq<char>) -> Seq<char> {
    join_path(below_root(ancestors).push(name))
}

/// The character sequences of a list of strings.
pub open spec fn names_view(names: Seq<String>) -> Seq<Seq<char>> {
    Seq::new(names.len(), |i: int| names[i]@)
}

/// Whether a child is always held in a list.
pub open spec fn is_list_type(
    xpath: Seq<char>,
    name: Seq<char>,
    repeats: Seq<Seq<char>>,
    encrypted: bool,
) -> bool {
    repeats.contains(xpath) || (encrypted && name == "media"@)
}

/// Some node of `cs` is a CDATA section.
pub open spec fn has_cdata(cs: Seq<DomNode>) -> bool {
    exists|i: int| 0 <= i < cs.len() && cs[i] is CData
}

/// Text of the first CDATA child.
pub open spec fn first_cdata(cs: Seq<DomNode>) -> Seq<char>
    decreases cs.len(),
{
    if cs.len() == 0 {
        Seq::empty()
    } else if cs[0] is CData {
        cs[0]->CData_0@
    } else {
        first_cdata(cs.drop_first())
    }
}

/// Adds the value `v` of a child named `name` to the pairs built so far.
pub open spec fn insert_child(
    acc: Seq<(Seq<char>, Tree)>,
    name: Seq<char>,
    v: Tree,
    list_type: bool,
) -> Seq<(Seq<char>, Tree)> {
    let i = key_index(acc, name);
    if i < 0 {
        if list_type {
            acc.push((name, Tree::Items(seq![v])))
        } else {
            acc.push((name, v))
        }
    } else {
        match acc[i].1 {
            Tree::Items(l) => acc.update(i, (name, Tree::Items(l.push(v)))),
            other => if list_type {
                acc
            } else {
                acc.update(i, (name, Tree::Items(seq![other, v])))
            },
        }
    }
}

/// The value an element contributes to its parent, if any.
pub open spec fn element_value(
    n: DomNode,
    repeats: Seq<Seq<char>>,
    encrypted: bool,
    ancestors: Seq<Seq<char>>,
) -> Option<Tree>
    decreases n,
{
    match n {
        DomNode::Element { name, children, .. } => {
            if children.len() == 0 {
                None
            } else if children.len() == 1 && children@[0] is Text {
                Some(Tree::Leaf(children@[0]->Text_0@))
            } else if has_cdata(children@) {
                Some(Tree::Leaf(first_cdata(children@)))
            } else {
                let pairs = children_pairs(children@, repeats, encrypted, ancestors.push(name@));
                if pairs.len() == 0 {
                    None
                } else {
                    Some(Tree::Node(pairs))
                }
            }
        },
        _ => None,
    }
}

/// The pairs built from the element children `cs` of an element whose path
/// from the root element is `path`.
pub open spec fn children_pairs(
    cs: Seq<DomNode>,
    repeats: Seq<Seq<char>>,
    encrypted: bool,
    path: Seq<Seq<char>>,
) -> Seq<(Seq<char>, Tree)>
    decreases cs,
{
    if cs.len() == 0 {
        Seq::empty()
    } else {
        let acc = children_pairs(cs.drop_last(), repeats, encrypted, path);
        let c = cs.last();
        match c {
            DomNode::Element { name, .. } => match element_value(c, repeats, encrypted, path) {
                Some(v) => insert_child(
                    acc,
                    name@,
                    v,
                    is_list_type(xpath_of(path, name@), name@, repeats, encrypted),
                ),
                None => acc,
            },
            _ => acc,
        }
    }
}

} // verus!

verus! {

/// Abbreviated xpath of `node_name` under `ancestor_names` (root element first):
/// the root element's name is left out, the rest is joined with `/`.
pub fn compute_xpath(ancestor_names: &[String], node_name: &str) -> (r: String)
    ensures
        r@ == xpath_of(names_view(ancestor_names@), node_name@),
{
    let ghost parts = names_view(ancestor_names@);
    let mut out = String::new();
    if ancestor_names.len() > 1 {
        let mut i: usize = 1;
        while i < ancestor_names.len()
            invariant
                1 <= i <= ancestor_names.len(),
                parts == names_view(ancestor_names@),
                out@ == join_path(parts.subrange(1, i as int)),
            decreases ancestor_names.len() - i,
        {
            if i > 1 {
                out.push('/');
            }
            out.push_str(ancestor_names[i].as_str());
            proof {
                let next = parts.subrange(1, i + 1);
                assert(next.drop_last() =~= parts.subrange(1, i as int));
                if i == 1 {
                    assert(out@ =~= next[0]);
                } else {
                    assert(out@ =~= join_path(next.drop_last()) + seq!['/'] + next.last());
                }
            }
            i = i + 1;
        }
        out.push('/');
    }
    out.push_str(node_name);
    proof {
        let full = below_root(parts).push(node_name@);
        if ancestor_names.len() > 1 {
            assert(parts.subrange(1, parts.len() as int) =~= below_root(parts));
            assert(full.drop_last() =~= below_root(parts));
            assert(out@ =~= join_path(full.drop_last()) + seq!['/'] + full.last());
        } else {
            assert(below_root(parts) =~= Seq::<Seq<char>>::empty());
            assert(full =~= seq![node_name@]);
            assert(out@ =~= node_name@);
        }
    }
    out
}

/// `path` with `name` added at the end.
pub(crate) fn extend_path(path: &[String], name: &String) -> (r: Vec<String>)
    ensures
        names_view(r@) == names_view(path@).push(name@),
{
    let mut out: Vec<String> = Vec::new();
    let mut i: usize = 0;
    while i < path.len()
        invariant
            i <= path.len(),
            names_view(out@) == names_view(path@).take(i as int),
        decreases path.len() - i,
    {
        let ghost before = out@;
        let c = crate::text::copy_text(path[i].as_str());
        out.push(c);
        proof {
            assert(out@ == before.push(c));
            assert(c@ == path@[i as int]@);
            assert(names_view(before).len() == i);
            assert(before.len() == i);
            assert(out@.len() == i + 1);
            assert(names_view(out@).len() == i + 1);
            assert forall|j: int| 0 <= j <= i implies names_view(out@)[j] == names_view(path@)[j] by {
                if j < i {
                    assert(names_view(before)[j] == names_view(path@).take(i as int)[j]);
                }
            }
            assert(names_view(out@) =~= names_view(path@).take(i + 1));
        }
        i = i + 1;
    }
    proof {
        assert(names_view(path@).take(path.len() as int) =~= names_view(path@));
    }
    let ghost before = out@;
    let c = crate::text::copy_text(name.as_str());
    out.push(c);
    proof {
        assert(names_view(before).len() == path.len());
        assert(out@.len() == path.len() + 1);
        assert forall|j: int| 0 <= j < out@.len() implies names_view(out@)[j] == names_view(path@).push(name@)[j] by {
            if j < path.len() {
                assert(names_view(before)[j] == names_view(path@)[j]);
            }
        }
        assert(names_view(out@) =~= names_view(path@).push(name@));
    }
    out
}

/// Whether `s` is among `names`.
pub fn contains_name(names: &[String], s: &str) -> (r: bool)
    ensures
        r == names_view(names@).contains(s@),
{
    let mut i: usize = 0;
    while i < names.len()
        invariant
            i <= names.len(),
            forall|j: int| 0 <= j < i ==> names@[j]@ != s@,
        decreases names.len() - i,
    {
        if crate::text::same_text(names[i].as_str(), s) {
            proof {
                assert(names_view(names@)[i as int] == s@);
            }
            return true;
        }
        i = i + 1;
    }
    proof {
        if names_view(names@).contains(s@) {
            let j = choose|j: int| 0 <= j < names_view(names@).len() && names_view(names@)[j] == s@;
            assert(names@[j]@ == s@);
        }
    }
    false
}

proof fn lemma_first_cdata(cs: Seq<DomNode>, i: int)
    requires
        0 <= i < cs.len(),
        cs[i] is CData,
        forall|j: int| 0 <= j < i ==> !(cs[j] is CData),
    ensures
        first_cdata(cs) == cs[i]->CData_0@,
    decreases i,
{
    if i > 0 {
        lemma_first_cdata(cs.drop_first(), i - 1);
    }
}

/// Adds `v`, the value of a child named `name`, to `pairs`.
fn insert_child_value(pairs: &mut Vec<(String, Value)>, name: &String, v: Value, list_type: bool)
    ensures
        pairs_view(final(pairs)@) == insert_child(pairs_view(old(pairs)@), name@, v@, list_type),
{
    let ghost acc = pairs_view(pairs@);
    match find_key(pairs, name.as_str()) {
        None => {
            if list_type {
                let mut l: Vec<Value> = Vec::new();
                l.push(v);
                proof {
                    lemma_list_view(l);
                    assert(items_view(l@) =~= seq![v@]);
                }
                pairs.push((name.clone(), Value::List(l)));
            } else {
                pairs.push((name.clone(), v));
            }
            proof {
                assert(pairs_view(pairs@) =~= insert_child(acc, name@, v@, list_type));
            }
        },
        Some(j) => {
            proof {
                lemma_key_index_bounds(acc, name@);
            }
            let mut slot = (String::new(), Value::Str(String::new()));
            pairs.set_and_swap(j, &mut slot);
            let (k, old_v) = slot;
            let ghost old_t = old_v@;
            let new_v = match old_v {
                Value::List(mut l) => {
                    proof {
                        lemma_list_view(l);
                    }
                    l.push(v);
                    proof {
                        lemma_list_view(l);
                        assert(items_view(l@) =~= old_t->Items_0.push(v@));
                    }
                    Value::List(l)
                },
                other => {
                    if list_type {
                        other
                    } else {
                        let mut l: Vec<Value> = Vec::new();
                        l.push(other);
                        l.push(v);
                        proof {
                            lemma_list_view(l);
                            assert(items_view(l@) =~= seq![old_t, v@]);
                        }
                        Value::List(l)
                    }
                },
            };
            let mut back = (k, new_v);
            pairs.set_and_swap(j, &mut back);
            proof {
                assert(pairs_view(pairs@) =~= insert_child(acc, name@, v@, list_type));
            }
        },
    }
}

} // verus!

verus! {

/// The model of an optional value.
pub open spec fn option_view(v: Option<Value>) -> Option<Tree> {
    match v {
        Some(x) => Some(x@),
        None => None,
    }
}

/// The value an element contributes to its parent (without the name around it).
#[verifier::loop_isolation(false)]
fn element_inner(node: &DomNode, repeats: &[String], encrypted: bool, ancestor_names: &[String]) -> (r:
    Option<Value>)
    ensures
        option_view(r) == element_value(
            *node,
            names_view(repeats@),
            encrypted,
            names_view(ancestor_names@),
        ),
    decreases node,
{
    match node {
        DomNode::Text(_) | DomNode::CData(_) => None,
        DomNode::Element { name, children, .. } => {
            if children.len() == 0 {
                return None;
            }
            if children.len() == 1 {
                if let DomNode::Text(text) = &children[0] {
                    return Some(Value::Str(crate::text::copy_text(text.as_str())));
                }
            }
            let mut i: usize = 0;
            while i < children.len()
                invariant
                    i <= children.len(),
                    forall|j: int| 0 <= j < i ==> !(children@[j] is CData),
                decreases children.len() - i,
            {
                if let DomNode::CData(text) = &children[i] {
                    proof {
                        lemma_first_cdata(children@, i as int);
                    }
                    return Some(Value::Str(crate::text::copy_text(text.as_str())));
                }
                i = i + 1;
            }
            let path = extend_path(ancestor_names, name);
            let ghost reps = names_view(repeats@);
            let ghost gpath = names_view(path@);
            let mut value: Vec<(String, Value)> = Vec::new();
            let mut k: usize = 0;
            while k < children.len()
                invariant
                    k <= children.len(),
                    pairs_view(value@) == children_pairs(children@.take(k as int), reps, encrypted, gpath),
                decreases children.len() - k,
            {
                let child = &children[k];
                proof {
                    let next = children@.take(k + 1);
                    assert(next.drop_last() =~= children@.take(k as int));
                    assert(next.last() == children@[k as int]);
                }
                if let DomNode::Element { name: child_name, .. } = child {
                    let cv = element_inner(child, repeats, encrypted, &path);
                    if let Some(child_value) = cv {
                        let xpath = compute_xpath(&path, child_name.as_str());
                        let list_type = contains_name(repeats, xpath.as_str()) || (encrypted
                            && crate::text::same_text(child_name.as_str(), "media"));
                        insert_child_value(&mut value, child_name, child_value, list_type);
                    }
                }
                k = k + 1;
            }
            proof {
                assert(children@.take(children.len() as int) =~= children@);
                assert(!has_cdata(children@));
            }
            if value.len() == 0 {
                None
            } else {
                proof {
                    lemma_dict_view(value);
                }
                Some(Value::Dict(value))
            }
        },
    }
}

/// Converts an element into `{name: value}`, or `None` when it contributes nothing.
/// `repeats` holds the xpaths of repeating groups; with `encrypted`, children
/// named `media` are held in lists too.
pub fn node_to_dict(node: &DomNode, repeats: &[String], encrypted: bool, ancestor_names: &[String]) -> (r:
    Option<Value>)
    ensures
        match element_value(*node, names_view(repeats@), encrypted, names_view(ancestor_names@)) {
            Some(t) => r matches Some(v) && v@ == Tree::Node(seq![(node->Element_name@, t)]),
            None => r is None,
        },
{
    match element_inner(node, repeats, encrypted, ancestor_names) {
        Some(v) => {
            let name = match node {
                DomNode::Element { name, .. } => crate::text::copy_text(name.as_str()),
                _ => String::new(),
            };
            let mut pairs: Vec<(String, Value)> = Vec::new();
            pairs.push((name, v));
            proof {
                lemma_dict_view(pairs);
                assert(pairs_view(pairs@) =~= seq![(node->Element_name@, v@)]);
            }
            Some(Value::Dict(pairs))
        },
        None => None,
    }
}

} // verus!
