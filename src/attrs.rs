use vstd::prelude::*;

use crate::dom::{DomNode, attrs_view};
use crate::text::{copy_text, same_text};

verus! {

broadcast use vstd::std_specs::vec::group_vec_axioms, vstd::seq::group_seq_axioms;

/// An attribute with the name of the element that carries it.
#[derive(Debug)]
pub struct XmlAttribute {
    pub key: String,
    pub value: String,
    pub node_name: String,
}

/// (key, value, name of the owning element).
pub type AttrModel = (Seq<char>, Seq<char>, Seq<char>);

pub open spec fn attribute_view(a: XmlAttribute) -> AttrModel {
    (a.key@, a.value@, a.node_name@)
}

pub open spec fn attributes_view(v: Seq<XmlAttribute>) -> Seq<AttrModel> {
    Seq::new(v.len(), |i: int| attribute_view(v[i]))
}

/// The attributes of an element's own tag.
pub open spec fn own_attributes(name: Seq<char>, attrs: Seq<(Seq<char>, Seq<char>)>) -> Seq<AttrModel> {
    Seq::new(attrs.len(), |i: int| (attrs[i].0, attrs[i].1, name))
}

/// Every attribute of the tree under `n`, in pre-order.
pub open spec fn attribute_walk(n: DomNode) -> Seq<AttrModel>
    decreases n,
{
    match n {
        DomNode::Element { name, attrs, children } => own_attributes(name@, attrs_view(attrs@))
            + walk_all(children@),
        _ => Seq::empty(),
    }
}

/// The attribute walks of `cs`, one after the other.
pub open spec fn walk_all(cs: Seq<DomNode>) -> Seq<AttrModel>
    decreases cs,
{
    if cs.len() == 0 {
        Seq::empty()
    } else {
        walk_all(cs.drop_last()) + attribute_walk(cs.last())
    }
}

/// Appends every attribute of the tree under `node` to `out`, in pre-order.
#[verifier::loop_isolation(false)]
pub fn collect_attributes(node: &DomNode, out: &mut Vec<XmlAttribute>)
    ensures
        attributes_view(final(out)@) == attributes_view(old(out)@) + attribute_walk(*node),
    decreases node,
{
    match node {
        DomNode::Element { name, attrs, children } => {
            let ghost start = attributes_view(out@);
            let mut i: usize = 0;
            while i < attrs.len()
                invariant
                    i <= attrs.len(),
                    attributes_view(out@) == start + own_attributes(name@, attrs_view(attrs@)).take(i as int),
                decreases attrs.len() - i,
            {
                let ghost before = out@;
                out.push(
                    XmlAttribute {
                        key: copy_text(attrs[i].0.as_str()),
                        value: copy_text(attrs[i].1.as_str()),
                        node_name: copy_text(name.as_str()),
                    },
                );
                proof {
                    assert(attributes_view(before).len() == before.len());
                    assert forall|j: int| 0 <= j < out@.len() implies attributes_view(out@)[j] == (start
                        + own_attributes(name@, attrs_view(attrs@)).take(i + 1))[j] by {
                        if j < before.len() {
                            assert(attributes_view(before)[j] == attributes_view(out@)[j]);
                        }
                    }
                    assert(attributes_view(out@) =~= start + own_attributes(name@, attrs_view(attrs@)).take(i + 1));
                }
                i = i + 1;
            }
            proof {
                assert(own_attributes(name@, attrs_view(attrs@)).take(attrs.len() as int) =~= own_attributes(name@, attrs_view(attrs@)));
            }
            let ghost mid = attributes_view(out@);
            let mut k: usize = 0;
            while k < children.len()
                invariant
                    k <= children.len(),
                    attributes_view(out@) == mid + walk_all(children@.take(k as int)),
                decreases children.len() - k,
            {
                proof {
                    assert(children@.take(k + 1).drop_last() =~= children@.take(k as int));
                }
                collect_attributes(&children[k], out);
                proof {
                    assert(attributes_view(out@) =~= mid + walk_all(children@.take(k + 1)));
                }
                k = k + 1;
            }
            proof {
                assert(children@.take(children.len() as int) =~= children@);
                assert(attributes_view(out@) =~= start + attribute_walk(*node));
            }
        },
        _ => {
            proof {
                assert(attributes_view(out@) =~= attributes_view(out@) + attribute_walk(*node));
            }
        },
    }
}

/// Whether some pair of `pairs` has the key `k`.
pub open spec fn has_key(pairs: Seq<(Seq<char>, Seq<char>)>, k: Seq<char>) -> bool {
    exists|i: int| 0 <= i < pairs.len() && pairs[i].0 == k
}

/// The submission's attributes: those of elements named `entity` are left out,
/// and of several with one key the first is kept.
pub open spec fn first_wins(raw: Seq<AttrModel>) -> Seq<(Seq<char>, Seq<char>)>
    decreases raw.len(),
{
    if raw.len() == 0 {
        Seq::empty()
    } else {
        let acc = first_wins(raw.drop_last());
        let a = raw.last();
        if a.2 == "entity"@ || has_key(acc, a.0) {
            acc
        } else {
            acc.push((a.0, a.1))
        }
    }
}

fn has_pair_key(pairs: &Vec<(String, String)>, key: &str) -> (r: bool)
    ensures
        r == has_key(attrs_view(pairs@), key@),
{
    let mut i: usize = 0;
    while i < pairs.len()
        invariant
            i <= pairs.len(),
            forall|j: int| 0 <= j < i ==> pairs@[j].0@ != key@,
        decreases pairs.len() - i,
    {
        if same_text(pairs[i].0.as_str(), key) {
            proof {
                assert(attrs_view(pairs@)[i as int].0 == key@);
            }
            return true;
        }
        i = i + 1;
    }
    proof {
        if has_key(attrs_view(pairs@), key@) {
            let j = choose|j: int| 0 <= j < attrs_view(pairs@).len() && attrs_view(pairs@)[j].0 == key@;
            assert(pairs@[j].0@ == key@);
        }
    }
    false
}

/// Keeps the first attribute of each key, leaving out those of `entity` elements.
pub fn build_attributes(raw: &[XmlAttribute]) -> (r: Vec<(String, String)>)
    ensures
        attrs_view(r@) == first_wins(attributes_view(raw@)),
{
    let ghost rv = attributes_view(raw@);
    let mut result: Vec<(String, String)> = Vec::new();
    let mut i: usize = 0;
    proof {
        assert(rv.take(0) =~= Seq::<AttrModel>::empty());
        assert(attrs_view(result@) =~= Seq::<(Seq<char>, Seq<char>)>::empty());
    }
    while i < raw.len()
        invariant
            i <= raw.len(),
            rv == attributes_view(raw@),
            attrs_view(result@) == first_wins(rv.take(i as int)),
        decreases raw.len() - i,
    {
        proof {
            assert(rv.take(i + 1).drop_last() =~= rv.take(i as int));
            assert(rv.take(i + 1).last() == attribute_view(raw@[i as int]));
        }
        let attr = &raw[i];
        if !same_text(attr.node_name.as_str(), "entity") && !has_pair_key(&result, attr.key.as_str()) {
            let ghost before = result@;
            result.push((copy_text(attr.key.as_str()), copy_text(attr.value.as_str())));
            proof {
                assert(attrs_view(before).len() == before.len());
                assert forall|j: int| 0 <= j < result@.len() implies attrs_view(result@)[j]
                    == attrs_view(before).push((attr.key@, attr.value@))[j] by {
                    if j < before.len() {
                        assert(attrs_view(before)[j] == attrs_view(result@)[j]);
                    }
                }
                assert(attrs_view(result@) =~= attrs_view(before).push((attr.key@, attr.value@)));
            }
        }
        i = i + 1;
    }
    proof {
        assert(rv.take(raw.len() as int) =~= rv);
    }
    result
}

} // verus!
