use vstd::prelude::*;

verus! {

broadcast use vstd::std_specs::vec::group_vec_axioms, vstd::seq::group_seq_axioms;

/// Mathematical model of a [`Value`]: strings become character sequences.
pub enum Tree {
    Leaf(Seq<char>),
    Node(Seq<(Seq<char>, Tree)>),
    Items(Seq<Tree>),
}

/// A value of the nested submission tree.
#[derive(Debug, PartialEq)]
pub enum Value {
    Str(String),
    Dict(Vec<(String, Value)>),
    List(Vec<Value>),
}

impl View for Value {
    type V = Tree;

    open spec fn view(&self) -> Tree
        decreases self,
    {
        match self {
            Value::Str(s) => Tree::Leaf(s@),
            Value::Dict(pairs) => Tree::Node(
                Seq::new(
                    pairs.len() as nat,
                    |i: int|
                        (
                            pairs@[i].0@,
                            if 0 <= i < pairs.len() {
                                pairs@[i].1.view()
                            } else {
                                Tree::Leaf(Seq::empty())
                            },
                        ),
                ),
            ),
            Value::List(items) => Tree::Items(
                Seq::new(
                    items.len() as nat,
                    |i: int|
                        if 0 <= i < items.len() {
                            items@[i].view()
                        } else {
                            Tree::Leaf(Seq::empty())
                        },
                ),
            ),
        }
    }
}

/// The model of an ordered list of (key, value) pairs.
pub open spec fn pairs_view(pairs: Seq<(String, Value)>) -> Seq<(Seq<char>, Tree)> {
    Seq::new(pairs.len(), |i: int| (pairs[i].0@, pairs[i].1@))
}

/// The model of a list of values.
pub open spec fn items_view(items: Seq<Value>) -> Seq<Tree> {
    Seq::new(items.len(), |i: int| items[i]@)
}

pub proof fn lemma_dict_view(pairs: Vec<(String, Value)>)
    ensures
        Value::Dict(pairs)@ == Tree::Node(pairs_view(pairs@)),
{
    let v = Value::Dict(pairs)@;
    assert(v is Node);
    assert(v->Node_0 =~= pairs_view(pairs@));
}

pub proof fn lemma_list_view(items: Vec<Value>)
    ensures
        Value::List(items)@ == Tree::Items(items_view(items@)),
{
    let v = Value::List(items)@;
    assert(v is Items);
    assert(v->Items_0 =~= items_view(items@));
}

/// Index of the first pair whose key is `k`, or -1.
pub open spec fn key_index(pairs: Seq<(Seq<char>, Tree)>, k: Seq<char>) -> int
    decreases pairs.len(),
{
    if pairs.len() == 0 {
        -1
    } else {
        let i = key_index(pairs.drop_last(), k);
        if i >= 0 {
            i
        } else if pairs.last().0 == k {
            pairs.len() - 1
        } else {
            -1
        }
    }
}

pub proof fn lemma_key_index_found(pairs: Seq<(Seq<char>, Tree)>, k: Seq<char>, j: int)
    requires
        0 <= j < pairs.len(),
        pairs[j].0 == k,
        forall|i: int| 0 <= i < j ==> pairs[i].0 != k,
    ensures
        key_index(pairs, k) == j,
    decreases pairs.len(),
{
    if j < pairs.len() - 1 {
        lemma_key_index_found(pairs.drop_last(), k, j);
    } else {
        lemma_key_index_absent(pairs.drop_last(), k);
    }
}

pub proof fn lemma_key_index_absent(pairs: Seq<(Seq<char>, Tree)>, k: Seq<char>)
    requires
        forall|i: int| 0 <= i < pairs.len() ==> pairs[i].0 != k,
    ensures
        key_index(pairs, k) == -1,
    decreases pairs.len(),
{
    if pairs.len() > 0 {
        lemma_key_index_absent(pairs.drop_last(), k);
    }
}

pub proof fn lemma_key_index_bounds(pairs: Seq<(Seq<char>, Tree)>, k: Seq<char>)
    ensures
        -1 <= key_index(pairs, k) < pairs.len(),
        key_index(pairs, k) >= 0 ==> pairs[key_index(pairs, k)].0 == k,
        key_index(pairs, k) == -1 ==> forall|i: int| 0 <= i < pairs.len() ==> pairs[i].0 != k,
    decreases pairs.len(),
{
    if pairs.len() > 0 {
        lemma_key_index_bounds(pairs.drop_last(), k);
        if key_index(pairs, k) == -1 {
            assert forall|i: int| 0 <= i < pairs.len() implies pairs[i].0 != k by {
                if i < pairs.len() - 1 {
                    assert(pairs.drop_last()[i] == pairs[i]);
                }
            }
        }
    }
}

} // verus!

verus! {

/// Position of the first pair whose key is `key`.
pub fn find_key(pairs: &Vec<(String, Value)>, key: &str) -> (r: Option<usize>)
    ensures
        r matches Some(j) ==> j < pairs.len() && key_index(pairs_view(pairs@), key@) == j,
        r is None ==> key_index(pairs_view(pairs@), key@) == -1,
{
    let mut j: usize = 0;
    while j < pairs.len()
        invariant
            j <= pairs.len(),
            forall|i: int| 0 <= i < j ==> pairs@[i].0@ != key@,
        decreases pairs.len() - j,
    {
        if crate::text::same_text(pairs[j].0.as_str(), key) {
            proof {
                lemma_key_index_found(pairs_view(pairs@), key@, j as int);
            }
            return Some(j);
        }
        j = j + 1;
    }
    proof {
        lemma_key_index_absent(pairs_view(pairs@), key@);
    }
    None
}

impl Value {
    /// A structurally equal copy of this value.
    #[verifier::loop_isolation(false)]
    pub fn duplicate(&self) -> (r: Value)
        ensures
            r@ == self@,
        decreases self,
    {
        match self {
            Value::Str(s) => Value::Str(crate::text::copy_text(s.as_str())),
            Value::Dict(pairs) => {
                let mut out: Vec<(String, Value)> = Vec::new();
                let mut i: usize = 0;
                while i < pairs.len()
                    invariant
                        i <= pairs.len(),
                        pairs_view(out@) == pairs_view(pairs@).take(i as int),
                    decreases pairs.len() - i,
                {
                    let k = crate::text::copy_text(pairs[i].0.as_str());
                    let v = pairs[i].1.duplicate();
                    out.push((k, v));
                    proof {
                        assert(pairs_view(out@) =~= pairs_view(pairs@).take(i + 1));
                    }
                    i = i + 1;
                }
                proof {
                    lemma_dict_view(out);
                    lemma_dict_view(*pairs);
                    assert(pairs_view(pairs@).take(pairs.len() as int) =~= pairs_view(pairs@));
                }
                Value::Dict(out)
            },
            Value::List(items) => {
                let mut out: Vec<Value> = Vec::new();
                let mut i: usize = 0;
                while i < items.len()
                    invariant
                        i <= items.len(),
                        items_view(out@) == items_view(items@).take(i as int),
                    decreases items.len() - i,
                {
                    let v = items[i].duplicate();
                    out.push(v);
                    proof {
                        assert(items_view(out@) =~= items_view(items@).take(i + 1));
                    }
                    i = i + 1;
                }
                proof {
                    lemma_list_view(out);
                    lemma_list_view(*items);
                    assert(items_view(items@).take(items.len() as int) =~= items_view(items@));
                }
                Value::List(out)
            },
        }
    }

    /// The value stored under `key`, when this value is a dictionary holding it.
    pub fn get(&self, key: &str) -> (r: Option<&Value>)
        ensures
            match self@ {
                Tree::Node(pairs) => {
                    let i = key_index(pairs, key@);
                    if i < 0 {
                        r is None
                    } else {
                        r matches Some(v) && v@ == pairs[i].1
                    }
                },
                _ => r is None,
            },
    {
        match self {
            Value::Dict(pairs) => {
                proof {
                    lemma_dict_view(*pairs);
                }
                match find_key(pairs, key) {
                    Some(j) => Some(&pairs[j].1),
                    None => None,
                }
            },
            _ => None,
        }
    }
}

} // verus!
