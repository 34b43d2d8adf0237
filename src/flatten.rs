use vstd::prelude::*;

use crate::text::copy_text;
use crate::tree::{extend_path, join_path, names_view};
use crate::value::{Tree, Value, pairs_view, items_view, lemma_dict_view, lemma_list_view};

verus! {

broadcast use vstd::std_specs::vec::group_vec_axioms, vstd::seq::group_seq_axioms;

/// A flat entry: the path of keys that leads to a value, and the value.
pub type FlatModel = (Seq<Seq<char>>, Tree);

/// The key of a path in the flat view: its names after the first, joined by `/`.
pub open spec fn flat_key(path: Seq<Seq<char>>) -> Seq<char> {
    join_path(path.skip(1))
}

/// The flat entries of `pairs`, whose keys extend `prefix`. A string is an
/// entry of its own, a dictionary is descended into, and a list is one entry
/// whose items are flat dictionaries.
pub open spec fn flat_entries(pairs: Seq<(Seq<char>, Tree)>, prefix: Seq<Seq<char>>) -> Seq<FlatModel>
    decreases pairs,
{
    if pairs.len() == 0 {
        Seq::empty()
    } else {
        let before = flat_entries(pairs.drop_last(), prefix);
        let p = prefix.push(pairs.last().0);
        match pairs.last().1 {
            Tree::Node(inner) => before + flat_entries(inner, p),
            Tree::Items(items) => before.push((p, Tree::Items(repeat_dicts(items, p)))),
            Tree::Leaf(s) => before.push((p, Tree::Leaf(s))),
        }
    }
}

/// Each item of a list under `p` as a flat dictionary keyed by full paths.
pub open spec fn repeat_dicts(items: Seq<Tree>, p: Seq<Seq<char>>) -> Seq<Tree>
    decreases items,
{
    if items.len() == 0 {
        Seq::empty()
    } else {
        let before = repeat_dicts(items.drop_last(), p);
        match items.last() {
            Tree::Node(ip) => before.push(Tree::Node(keyed(flat_entries(ip, p)))),
            other => before.push(Tree::Node(seq![(flat_key(p), other)])),
        }
    }
}

/// Entries with their paths turned into keys.
pub open spec fn keyed(entries: Seq<FlatModel>) -> Seq<(Seq<char>, Tree)> {
    Seq::new(entries.len(), |i: int| (flat_key(entries[i].0), entries[i].1))
}

/// The flat view of a nested tree `{root: {...}}`.
pub open spec fn flat_view(t: Tree) -> Seq<(Seq<char>, Tree)> {
    match t {
        Tree::Node(pairs) => keyed(flat_entries(pairs, seq![])),
        _ => Seq::empty(),
    }
}

pub open spec fn entries_view(v: Seq<(Vec<String>, Value)>) -> Seq<FlatModel> {
    Seq::new(v.len(), |i: int| (names_view(v[i].0@), v[i].1@))
}

/// The names of `path` after the first, joined by `/`.
fn join_tail(path: &[String]) -> (r: String)
    requires
        path@.len() >= 1,
    ensures
        r@ == flat_key(names_view(path@)),
{
    let ghost parts = names_view(path@);
    let mut out = String::new();
    let mut i: usize = 1;
    proof {
        assert(parts.subrange(1, 1) =~= Seq::<Seq<char>>::empty());
    }
    while i < path.len()
        invariant
            1 <= i <= path.len(),
            parts == names_view(path@),
            out@ == join_path(parts.subrange(1, i as int)),
        decreases path.len() - i,
    {
        if i > 1 {
            out.push('/');
        }
        out.push_str(path[i].as_str());
        proof {
            let next = parts.subrange(1, i + 1);
            assert(next.drop_last() =~= parts.subrange(1, i as int));
            if i == 1 {
                assert(out@ =~= next[0]);
            } else {
                assert(out@ =~= join_path(next.drop_last()) + seq!['/'] + next.last());
            }
        }
        i = i + 1;
    }
    proof {
        assert(parts.subrange(1, parts.len() as int) =~= parts.skip(1));
    }
    out
}

fn push_entry(entries: &mut Vec<(Vec<String>, Value)>, path: Vec<String>, v: Value)
    ensures
        entries_view(final(entries)@) == entries_view(old(entries)@).push((names_view(path@), v@)),
        final(entries)@ == old(entries)@.push((path, v)),
{
    let ghost before = entries@;
    entries.push((path, v));
    proof {
        assert(entries_view(before).len() == before.len());
        assert forall|j: int| 0 <= j < entries@.len() implies entries_view(entries@)[j]
            == entries_view(before).push((names_view(path@), v@))[j] by {
            if j < before.len() {
                assert(entries_view(before)[j] == entries_view(entries@)[j]);
            }
        }
        assert(entries_view(entries@) =~= entries_view(before).push((names_view(path@), v@)));
    }
}

/// `entries` with their paths turned into keys.
fn keyed_pairs(entries: Vec<(Vec<String>, Value)>) -> (r: Vec<(String, Value)>)
    requires
        forall|i: int| 0 <= i < entries@.len() ==> entries@[i].0@.len() >= 1,
    ensures
        pairs_view(r@) == keyed(entries_view(entries@)),
{
    let ghost ev = entries_view(entries@);
    proof {
        assert forall|k: int| 0 <= k < entries@.len() implies (names_view(entries@[k].0@), entries@[k].1@) == ev[k] by {}
    }
    let mut out: Vec<(String, Value)> = Vec::new();
    let mut rest = entries;
    let mut i: usize = 0;
    let n = rest.len();
    proof {
        assert(pairs_view(out@) =~= keyed(ev).take(0));
    }
    while i < n
        invariant
            n == rest.len(),
            i <= n,
            ev.len() == n,
            forall|k: int| i <= k < n ==> (names_view(rest@[k].0@), rest@[k].1@) == ev[k],
            forall|k: int| i <= k < n ==> rest@[k].0@.len() >= 1,
            pairs_view(out@) == keyed(ev).take(i as int),
        decreases n - i,
    {
        let mut slot: (Vec<String>, Value) = (Vec::new(), Value::Str(String::new()));
        rest.set_and_swap(i, &mut slot);
        let (path, v) = slot;
        let key = join_tail(path.as_slice());
        let ghost before = out@;
        out.push((key, v));
        proof {
            assert(ev[i as int] == (names_view(path@), v@));
            assert(pairs_view(before).len() == i);
            assert forall|j: int| 0 <= j <= i implies pairs_view(out@)[j] == keyed(ev).take(i + 1)[j] by {
                if j < i {
                    assert(pairs_view(before)[j] == pairs_view(out@)[j]);
                }
            }
            assert(pairs_view(out@) =~= keyed(ev).take(i + 1));
        }
        i = i + 1;
    }
    proof {
        assert(keyed(ev).take(n as int) =~= keyed(ev));
    }
    out
}

} // verus!

verus! {

proof fn lemma_entries_view_append(a: Seq<(Vec<String>, Value)>, b: Seq<(Vec<String>, Value)>)
    ensures
        entries_view(a + b) == entries_view(a) + entries_view(b),
{
    assert(entries_view(a + b) =~= entries_view(a) + entries_view(b));
}

/// The flat entries of `data_dict`, with paths that extend `prefix`.
#[verifier::loop_isolation(false)]
fn flatten_dict_nest_repeats_inner(data_dict: &[(String, Value)], prefix: &[String]) -> (r: Vec<
    (Vec<String>, Value),
>)
    ensures
        entries_view(r@) == flat_entries(pairs_view(data_dict@), names_view(prefix@)),
        forall|i: int| 0 <= i < r@.len() ==> r@[i].0@.len() > prefix@.len(),
    decreases data_dict@,
{
    let ghost pre = names_view(prefix@);
    let ghost pv = pairs_view(data_dict@);
    let mut entries: Vec<(Vec<String>, Value)> = Vec::new();
    let mut i: usize = 0;
    while i < data_dict.len()
        invariant
            i <= data_dict.len(),
            entries_view(entries@) == flat_entries(pv.take(i as int), pre),
            forall|k: int| 0 <= k < entries@.len() ==> entries@[k].0@.len() > prefix@.len(),
        decreases data_dict.len() - i,
    {
        proof {
            assert(pv.take(i + 1).drop_last() =~= pv.take(i as int));
            assert(pv.take(i + 1).last() == pv[i as int]);
        }
        let key = &data_dict[i].0;
        let value = &data_dict[i].1;
        let new_prefix = extend_path(prefix, key);
        let ghost p = names_view(new_prefix@);
        proof {
            assert(names_view(new_prefix@).len() == new_prefix@.len());
            assert(names_view(prefix@).len() == prefix@.len());
            assert(new_prefix@.len() == prefix@.len() + 1);
        }
        let ghost before_all = entries@;
        match value {
            Value::Dict(inner_pairs) => {
                proof {
                    lemma_dict_view(*inner_pairs);
                }
                let mut sub = flatten_dict_nest_repeats_inner(inner_pairs.as_slice(), new_prefix.as_slice());
                let ghost before = entries@;
                let ghost sub_seq = sub@;
                entries.append(&mut sub);
                proof {
                    lemma_entries_view_append(before, sub_seq);
                }
            },
            Value::List(items) => {
                proof {
                    lemma_list_view(*items);
                }
                let ghost iv = items_view(items@);
                let mut repeats: Vec<Value> = Vec::new();
                let mut j: usize = 0;
                while j < items.len()
                    invariant
                        j <= items.len(),
                        items_view(repeats@) == repeat_dicts(iv.take(j as int), p),
                    decreases items.len() - j,
                {
                    proof {
                        assert(iv.take(j + 1).drop_last() =~= iv.take(j as int));
                        assert(iv.take(j + 1).last() == iv[j as int]);
                    }
                    let item = &items[j];
                    let ghost before = repeats@;
                    match item {
                        Value::Dict(item_pairs) => {
                            proof {
                                lemma_dict_view(*item_pairs);
                            }
                            let sub_entries = flatten_dict_nest_repeats_inner(
                                item_pairs.as_slice(),
                                new_prefix.as_slice(),
                            );
                            let repeat_dict = keyed_pairs(sub_entries);
                            proof {
                                lemma_dict_view(repeat_dict);
                            }
                            repeats.push(Value::Dict(repeat_dict));
                        },
                        _ => {
                            let item_key = join_tail(new_prefix.as_slice());
                            let mut repeat_dict: Vec<(String, Value)> = Vec::new();
                            repeat_dict.push((item_key, item.duplicate()));
                            proof {
                                lemma_dict_view(repeat_dict);
                                assert(pairs_view(repeat_dict@) =~= seq![(flat_key(p), item@)]);
                            }
                            repeats.push(Value::Dict(repeat_dict));
                        },
                    }
                    proof {
                        assert(items_view(before).len() == before.len());
                        assert forall|k: int| 0 <= k < repeats@.len() implies items_view(repeats@)[k]
                            == repeat_dicts(iv.take(j + 1), p)[k] by {
                            if k < before.len() {
                                assert(items_view(before)[k] == items_view(repeats@)[k]);
                            }
                        }
                        assert(items_view(repeats@) =~= repeat_dicts(iv.take(j + 1), p));
                    }
                    j = j + 1;
                }
                proof {
                    assert(iv.take(items.len() as int) =~= iv);
                    lemma_list_view(repeats);
                }
                push_entry(&mut entries, new_prefix, Value::List(repeats));
            },
            Value::Str(s) => {
                push_entry(&mut entries, new_prefix, Value::Str(copy_text(s.as_str())));
            },
        }
        i = i + 1;
    }
    proof {
        assert(pv.take(data_dict.len() as int) =~= pv);
    }
    entries
}

/// The flat view of a nested tree `{root: {...}}`: each key is the path
/// below the root joined by `/`; lists become lists of flat dictionaries.
pub fn flatten_dict(dict: &Value) -> (r: Vec<(String, Value)>)
    ensures
        pairs_view(r@) == flat_view(dict@),
{
    match dict {
        Value::Dict(pairs) => {
            proof {
                lemma_dict_view(*pairs);
            }
            let no_prefix: Vec<String> = Vec::new();
            proof {
                assert(names_view(no_prefix@) =~= Seq::<Seq<char>>::empty());
            }
            let entries = flatten_dict_nest_repeats_inner(pairs.as_slice(), no_prefix.as_slice());
            keyed_pairs(entries)
        },
        _ => {
            let r: Vec<(String, Value)> = Vec::new();
            proof {
                assert(pairs_view(r@) =~= Seq::<(Seq<char>, Tree)>::empty());
            }
            r
        },
    }
}

} // verus!
