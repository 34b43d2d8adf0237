use vstd::prelude::*;

use crate::attrs::{AttrModel, first_wins, has_key};
use crate::dom::DomNode;
use crate::flatten::{FlatModel, flat_entries, flat_key, flat_view, keyed, repeat_dicts};
use crate::identity::stripped_uuid;
use crate::tree::{children_pairs, element_value, has_cdata, insert_child, is_list_type, xpath_of};
use crate::value::{Tree, key_index, lemma_key_index_bounds};

verus! {

broadcast use vstd::seq::group_seq_axioms;

/// The keys of a dictionary, in order.
pub open spec fn keys_of(pairs: Seq<(Seq<char>, Tree)>) -> Seq<Seq<char>> {
    Seq::new(pairs.len(), |i: int| pairs[i].0)
}

/// `names` with every repetition of a name left out.
pub open spec fn first_occurrences(names: Seq<Seq<char>>) -> Seq<Seq<char>>
    decreases names.len(),
{
    if names.len() == 0 {
        Seq::empty()
    } else {
        let d = first_occurrences(names.drop_last());
        if d.contains(names.last()) {
            d
        } else {
            d.push(names.last())
        }
    }
}

/// The names of the element children that contribute a value, in document order.
pub open spec fn contributing_names(
    cs: Seq<DomNode>,
    repeats: Seq<Seq<char>>,
    encrypted: bool,
    path: Seq<Seq<char>>,
) -> Seq<Seq<char>>
    decreases cs.len(),
{
    if cs.len() == 0 {
        Seq::empty()
    } else {
        let before = contributing_names(cs.drop_last(), repeats, encrypted, path);
        match cs.last() {
            DomNode::Element { name, .. } => if element_value(cs.last(), repeats, encrypted, path) is Some {
                before.push(name@)
            } else {
                before
            },
            _ => before,
        }
    }
}

/// The values of the element children named `n`, in document order.
pub open spec fn occurrences(
    cs: Seq<DomNode>,
    n: Seq<char>,
    repeats: Seq<Seq<char>>,
    encrypted: bool,
    path: Seq<Seq<char>>,
) -> Seq<Tree>
    decreases cs.len(),
{
    if cs.len() == 0 {
        Seq::empty()
    } else {
        let before = occurrences(cs.drop_last(), n, repeats, encrypted, path);
        match cs.last() {
            DomNode::Element { name, .. } => if name@ == n {
                match element_value(cs.last(), repeats, encrypted, path) {
                    Some(v) => before.push(v),
                    None => before,
                }
            } else {
                before
            },
            _ => before,
        }
    }
}

/// The entry that the children named `n` produce: a list when the name is
/// list-typed or repeats, the single value otherwise.
pub open spec fn expected_entry(occ: Seq<Tree>, list_type: bool) -> Tree {
    if list_type || occ.len() >= 2 {
        Tree::Items(occ)
    } else {
        occ[0]
    }
}

proof fn lemma_key_index_push(acc: Seq<(Seq<char>, Tree)>, p: (Seq<char>, Tree), n: Seq<char>)
    ensures
        key_index(acc.push(p), n) == if key_index(acc, n) >= 0 {
            key_index(acc, n)
        } else if p.0 == n {
            acc.len() as int
        } else {
            -1
        },
{
    assert(acc.push(p).drop_last() =~= acc);
}

proof fn lemma_key_index_update(acc: Seq<(Seq<char>, Tree)>, i: int, p: (Seq<char>, Tree), n: Seq<char>)
    requires
        0 <= i < acc.len(),
        p.0 == acc[i].0,
    ensures
        key_index(acc.update(i, p), n) == key_index(acc, n),
    decreases acc.len(),
{
    let u = acc.update(i, p);
    if i < acc.len() - 1 {
        assert(u.drop_last() =~= acc.drop_last().update(i, p));
        lemma_key_index_update(acc.drop_last(), i, p, n);
    } else {
        assert(u.drop_last() =~= acc.drop_last());
    }
}

proof fn lemma_value_not_list(c: DomNode, repeats: Seq<Seq<char>>, encrypted: bool, path: Seq<Seq<char>>)
    ensures
        element_value(c, repeats, encrypted, path) matches Some(v) ==> !(v is Items),
{
}

proof fn lemma_keys_insert(acc: Seq<(Seq<char>, Tree)>, n: Seq<char>, v: Tree, lt: bool)
    ensures
        keys_of(insert_child(acc, n, v, lt)) == if keys_of(acc).contains(n) {
            keys_of(acc)
        } else {
            keys_of(acc).push(n)
        },
{
    lemma_key_index_bounds(acc, n);
    let i = key_index(acc, n);
    if i >= 0 {
        assert(keys_of(acc)[i] == n);
        assert(keys_of(insert_child(acc, n, v, lt)) =~= keys_of(acc));
    } else {
        assert(!keys_of(acc).contains(n));
        assert(keys_of(insert_child(acc, n, v, lt)) =~= keys_of(acc).push(n));
    }
}

/// Order preservation: the keys of the dictionary built from an element's
/// children are the names of the contributing children, each at its first
/// occurrence, in document order.
pub proof fn law_order_preserved(
    cs: Seq<DomNode>,
    repeats: Seq<Seq<char>>,
    encrypted: bool,
    path: Seq<Seq<char>>,
)
    ensures
        keys_of(children_pairs(cs, repeats, encrypted, path)) == first_occurrences(
            contributing_names(cs, repeats, encrypted, path),
        ),
    decreases cs.len(),
{
    if cs.len() == 0 {
        assert(keys_of(children_pairs(cs, repeats, encrypted, path)) =~= Seq::<Seq<char>>::empty());
    } else {
        law_order_preserved(cs.drop_last(), repeats, encrypted, path);
        let acc = children_pairs(cs.drop_last(), repeats, encrypted, path);
        let names0 = contributing_names(cs.drop_last(), repeats, encrypted, path);
        let c = cs.last();
        match c {
            DomNode::Element { name, .. } => match element_value(c, repeats, encrypted, path) {
                Some(v) => {
                    lemma_keys_insert(
                        acc,
                        name@,
                        v,
                        is_list_type(xpath_of(path, name@), name@, repeats, encrypted),
                    );
                    assert(contributing_names(cs, repeats, encrypted, path) == names0.push(name@));
                    assert(names0.push(name@).drop_last() =~= names0);
                },
                None => {},
            },
            _ => {},
        }
    }
}

proof fn lemma_first_occurrences_distinct(names: Seq<Seq<char>>)
    ensures
        forall|i: int, j: int|
            0 <= i < j < first_occurrences(names).len() ==> first_occurrences(names)[i]
                != first_occurrences(names)[j],
    decreases names.len(),
{
    if names.len() > 0 {
        lemma_first_occurrences_distinct(names.drop_last());
        let d = first_occurrences(names.drop_last());
        if !d.contains(names.last()) {
            assert forall|i: int, j: int|
                0 <= i < j < first_occurrences(names).len() implies first_occurrences(names)[i]
                != first_occurrences(names)[j] by {
                if j == d.len() {
                    assert(first_occurrences(names)[i] == d[i]);
                }
            }
        }
    }
}

/// A dictionary built from an element's children holds each key once.
pub proof fn law_keys_distinct(
    cs: Seq<DomNode>,
    repeats: Seq<Seq<char>>,
    encrypted: bool,
    path: Seq<Seq<char>>,
)
    ensures
        ({
            let pairs = children_pairs(cs, repeats, encrypted, path);
            forall|i: int, j: int| 0 <= i < j < pairs.len() ==> pairs[i].0 != pairs[j].0
        }),
{
    let pairs = children_pairs(cs, repeats, encrypted, path);
    law_order_preserved(cs, repeats, encrypted, path);
    lemma_first_occurrences_distinct(contributing_names(cs, repeats, encrypted, path));
    assert forall|i: int, j: int| 0 <= i < j < pairs.len() implies pairs[i].0 != pairs[j].0 by {
        assert(keys_of(pairs)[i] == pairs[i].0);
        assert(keys_of(pairs)[j] == pairs[j].0);
    }
}

/// Every name's entry in the dictionary built from `cs` is what its
/// occurrences give, and names without occurrences have none.
pub proof fn lemma_entries(
    cs: Seq<DomNode>,
    n: Seq<char>,
    repeats: Seq<Seq<char>>,
    encrypted: bool,
    path: Seq<Seq<char>>,
)
    ensures
        ({
            let pairs = children_pairs(cs, repeats, encrypted, path);
            let occ = occurrences(cs, n, repeats, encrypted, path);
            let lt = is_list_type(xpath_of(path, n), n, repeats, encrypted);
            &&& forall|i: int| 0 <= i < occ.len() ==> !(#[trigger] occ[i] is Items)
            &&& occ.len() == 0 ==> key_index(pairs, n) == -1
            &&& occ.len() > 0 ==> 0 <= key_index(pairs, n) < pairs.len() && pairs[key_index(pairs, n)].1
                == expected_entry(occ, lt)
        }),
    decreases cs.len(),
{
    if cs.len() > 0 {
        lemma_entries(cs.drop_last(), n, repeats, encrypted, path);
        let acc = children_pairs(cs.drop_last(), repeats, encrypted, path);
        let occ0 = occurrences(cs.drop_last(), n, repeats, encrypted, path);
        let lt = is_list_type(xpath_of(path, n), n, repeats, encrypted);
        let c = cs.last();
        lemma_key_index_bounds(acc, n);
        let kn = key_index(acc, n);
        match c {
            DomNode::Element { name, .. } => match element_value(c, repeats, encrypted, path) {
                Some(v) => {
                    lemma_value_not_list(c, repeats, encrypted, path);
                    let m = name@;
                    let ltm = is_list_type(xpath_of(path, m), m, repeats, encrypted);
                    let new = insert_child(acc, m, v, ltm);
                    assert(children_pairs(cs, repeats, encrypted, path) == new);
                    lemma_key_index_bounds(acc, m);
                    let j = key_index(acc, m);
                    if m != n {
                        assert(occurrences(cs, n, repeats, encrypted, path) == occ0);
                        if j < 0 {
                            let p = if ltm {
                                (m, Tree::Items(seq![v]))
                            } else {
                                (m, v)
                            };
                            assert(new == acc.push(p));
                            lemma_key_index_push(acc, p, n);
                            if kn >= 0 {
                                assert(new[kn] == acc[kn]);
                            }
                        } else {
                            let old = acc[j].1;
                            match old {
                                Tree::Items(l) => {
                                    lemma_key_index_update(acc, j, (m, Tree::Items(l.push(v))), n);
                                },
                                _ => {
                                    if !ltm {
                                        lemma_key_index_update(acc, j, (m, Tree::Items(seq![old, v])), n);
                                    }
                                },
                            }
                            if kn >= 0 {
                                assert(kn != j);
                                assert(new[kn] == acc[kn]);
                            }
                        }
                    } else {
                        let occ = occ0.push(v);
                        assert(occurrences(cs, n, repeats, encrypted, path) == occ);
                        assert(ltm == lt);
                        assert forall|i: int| 0 <= i < occ.len() implies !(#[trigger] occ[i] is Items) by {
                            if i < occ0.len() {
                                assert(occ[i] == occ0[i]);
                            }
                        }
                        if j < 0 {
                            assert(occ0.len() == 0);
                            let p = if lt {
                                (m, Tree::Items(seq![v]))
                            } else {
                                (m, v)
                            };
                            assert(new == acc.push(p));
                            lemma_key_index_push(acc, p, n);
                            assert(occ =~= seq![v]);
                        } else {
                            assert(occ0.len() > 0);
                            assert(j == kn);
                            let old = acc[j].1;
                            match old {
                                Tree::Items(l) => {
                                    assert(lt || occ0.len() >= 2) by {
                                        if !(lt || occ0.len() >= 2) {
                                            assert(old == occ0[0]);
                                        }
                                    }
                                    assert(l == occ0);
                                    assert(new == acc.update(j, (m, Tree::Items(l.push(v)))));
                                    lemma_key_index_update(acc, j, (m, Tree::Items(l.push(v))), n);
                                },
                                _ => {
                                    assert(!lt && occ0.len() == 1);
                                    assert(old == occ0[0]);
                                    assert(new == acc.update(j, (m, Tree::Items(seq![old, v]))));
                                    lemma_key_index_update(acc, j, (m, Tree::Items(seq![old, v])), n);
                                    assert(seq![old, v] =~= occ);
                                },
                            }
                        }
                    }
                },
                None => {
                    assert(occurrences(cs, n, repeats, encrypted, path) == occ0);
                },
            },
            _ => {
                assert(occurrences(cs, n, repeats, encrypted, path) == occ0);
            },
        }
    }
}

} // verus!

verus! {

/// `c` is an element named `n`.
pub open spec fn named(c: DomNode, n: Seq<char>) -> bool {
    c matches DomNode::Element { name, .. } && name@ == n
}

/// Every child named `n` holds child elements.
pub open spec fn all_groups(cs: Seq<DomNode>, n: Seq<char>) -> bool {
    forall|j: int| 0 <= j < cs.len() && named(#[trigger] cs[j], n) ==> is_group(cs[j])
}

/// An element that holds child elements: neither a lone text nor CDATA.
pub open spec fn is_group(c: DomNode) -> bool {
    c matches DomNode::Element { children, .. } && !has_cdata(children@) && !(children.len() == 1
        && children@[0] is Text)
}

proof fn lemma_group_occurrences(
    cs: Seq<DomNode>,
    n: Seq<char>,
    repeats: Seq<Seq<char>>,
    encrypted: bool,
    path: Seq<Seq<char>>,
)
    requires
        all_groups(cs, n),
    ensures
        forall|i: int|
            0 <= i < occurrences(cs, n, repeats, encrypted, path).len() ==> #[trigger] occurrences(
                cs,
                n,
                repeats,
                encrypted,
                path,
            )[i] is Node,
    decreases cs.len(),
{
    if cs.len() > 0 {
        let occ0 = occurrences(cs.drop_last(), n, repeats, encrypted, path);
        assert forall|j: int| 0 <= j < cs.drop_last().len() && named(#[trigger] cs.drop_last()[j], n) implies is_group(
            cs.drop_last()[j],
        ) by {
            assert(cs.drop_last()[j] == cs[j]);
        }
        lemma_group_occurrences(cs.drop_last(), n, repeats, encrypted, path);
        let occ = occurrences(cs, n, repeats, encrypted, path);
        assert forall|i: int| 0 <= i < occ.len() implies #[trigger] occ[i] is Node by {
            if i < occ0.len() {
                assert(occ[i] == occ0[i]);
            } else {
                assert(cs[cs.len() - 1] == cs.last());
            }
        }
    }
}

/// Auto-promotion: two or more contributing children sharing a name that is
/// not list-typed become one list of their values, in document order.
pub proof fn law_auto_promotion(
    cs: Seq<DomNode>,
    n: Seq<char>,
    repeats: Seq<Seq<char>>,
    encrypted: bool,
    path: Seq<Seq<char>>,
)
    requires
        !is_list_type(xpath_of(path, n), n, repeats, encrypted),
        occurrences(cs, n, repeats, encrypted, path).len() >= 2,
    ensures
        ({
            let pairs = children_pairs(cs, repeats, encrypted, path);
            let i = key_index(pairs, n);
            &&& 0 <= i < pairs.len() && pairs[i].1 == Tree::Items(occurrences(cs, n, repeats, encrypted, path))
            &&& forall|j: int| 0 <= j < pairs.len() && j != i ==> pairs[j].0 != n
        }),
{
    lemma_entries(cs, n, repeats, encrypted, path);
    lemma_key_index_bounds(children_pairs(cs, repeats, encrypted, path), n);
    law_keys_distinct(cs, repeats, encrypted, path);
}

/// Declared-repeat typing: a child whose xpath is declared repeating gives a
/// list, even for one occurrence; its items are dictionaries when every such
/// child holds child elements.
pub proof fn law_declared_repeats(
    cs: Seq<DomNode>,
    n: Seq<char>,
    repeats: Seq<Seq<char>>,
    encrypted: bool,
    path: Seq<Seq<char>>,
)
    requires
        repeats.contains(xpath_of(path, n)),
        occurrences(cs, n, repeats, encrypted, path).len() >= 1,
    ensures
        ({
            let pairs = children_pairs(cs, repeats, encrypted, path);
            let occ = occurrences(cs, n, repeats, encrypted, path);
            let i = key_index(pairs, n);
            &&& 0 <= i < pairs.len() && pairs[i].1 == Tree::Items(occ)
            &&& forall|j: int| 0 <= j < pairs.len() && j != i ==> pairs[j].0 != n
            &&& all_groups(cs, n) ==> forall|k: int| 0 <= k < occ.len() ==> #[trigger] occ[k] is Node
        }),
{
    lemma_entries(cs, n, repeats, encrypted, path);
    lemma_key_index_bounds(children_pairs(cs, repeats, encrypted, path), n);
    law_keys_distinct(cs, repeats, encrypted, path);
    if all_groups(cs, n) {
        lemma_group_occurrences(cs, n, repeats, encrypted, path);
    }
}

/// Encryption media: in an encrypted submission, children named `media` give
/// a list; its items are dictionaries when every such child holds child elements.
pub proof fn law_encrypted_media(
    cs: Seq<DomNode>,
    repeats: Seq<Seq<char>>,
    path: Seq<Seq<char>>,
)
    requires
        occurrences(cs, "media"@, repeats, true, path).len() >= 1,
    ensures
        ({
            let pairs = children_pairs(cs, repeats, true, path);
            let occ = occurrences(cs, "media"@, repeats, true, path);
            let i = key_index(pairs, "media"@);
            &&& 0 <= i < pairs.len() && pairs[i].1 == Tree::Items(occ)
            &&& forall|j: int| 0 <= j < pairs.len() && j != i ==> pairs[j].0 != "media"@
            &&& all_groups(cs, "media"@) ==> forall|k: int| 0 <= k < occ.len() ==> #[trigger] occ[k] is Node
        }),
{
    lemma_entries(cs, "media"@, repeats, true, path);
    lemma_key_index_bounds(children_pairs(cs, repeats, true, path), "media"@);
    law_keys_distinct(cs, repeats, true, path);
    if all_groups(cs, "media"@) {
        lemma_group_occurrences(cs, "media"@, repeats, true, path);
    }
}

} // verus!

verus! {

/// The value of the first attribute keyed `k` whose element is not named `entity`.
pub open spec fn first_value(raw: Seq<AttrModel>, k: Seq<char>) -> Option<Seq<char>>
    decreases raw.len(),
{
    if raw.len() == 0 {
        None
    } else {
        match first_value(raw.drop_last(), k) {
            Some(v) => Some(v),
            None => if raw.last().2 != "entity"@ && raw.last().0 == k {
                Some(raw.last().1)
            } else {
                None
            },
        }
    }
}

/// Attribute first-wins: each kept key holds the value of its first
/// occurrence in pre-order, elements named `entity` aside, and a key is kept
/// exactly when such an occurrence exists.
pub proof fn law_attribute_first_wins(raw: Seq<AttrModel>)
    ensures
        forall|i: int|
            0 <= i < first_wins(raw).len() ==> first_value(raw, #[trigger] first_wins(raw)[i].0) == Some(
                first_wins(raw)[i].1,
            ),
        forall|k: Seq<char>| #[trigger] has_key(first_wins(raw), k) <==> first_value(raw, k) is Some,
    decreases raw.len(),
{
    if raw.len() > 0 {
        law_attribute_first_wins(raw.drop_last());
        let acc = first_wins(raw.drop_last());
        let a = raw.last();
        let r = first_wins(raw);
        assert forall|i: int| 0 <= i < r.len() implies first_value(raw, #[trigger] r[i].0) == Some(r[i].1) by {
            if i < acc.len() {
                assert(r[i] == acc[i]);
                assert(first_value(raw.drop_last(), acc[i].0) == Some(acc[i].1));
            } else {
                assert(!has_key(acc, a.0));
            }
        }
        assert forall|k: Seq<char>| #[trigger] has_key(r, k) <==> first_value(raw, k) is Some by {
            if has_key(acc, k) {
                let i = choose|i: int| 0 <= i < acc.len() && acc[i].0 == k;
                assert(r[i] == acc[i]);
            }
            if has_key(r, k) && !has_key(acc, k) {
                let i = choose|i: int| 0 <= i < r.len() && r[i].0 == k;
                if i < acc.len() {
                    assert(r[i] == acc[i]);
                }
            }
            if !has_key(acc, k) && first_value(raw, k) is Some {
                assert(r.len() == acc.len() + 1);
                assert(r[acc.len() as int].0 == k);
            }
        }
    }
}

/// Entity exclusion: every kept attribute is carried by an element not named `entity`.
pub proof fn law_entity_excluded(raw: Seq<AttrModel>)
    ensures
        forall|i: int|
            0 <= i < first_wins(raw).len() ==> exists|j: int|
                0 <= j < raw.len() && raw[j].2 != "entity"@ && raw[j].0 == (#[trigger] first_wins(raw)[i]).0
                    && raw[j].1 == first_wins(raw)[i].1,
    decreases raw.len(),
{
    if raw.len() > 0 {
        law_entity_excluded(raw.drop_last());
        let acc = first_wins(raw.drop_last());
        let r = first_wins(raw);
        assert forall|i: int| 0 <= i < r.len() implies exists|j: int|
            0 <= j < raw.len() && raw[j].2 != "entity"@ && raw[j].0 == (#[trigger] r[i]).0 && raw[j].1
                == r[i].1 by {
            if i < acc.len() {
                assert(r[i] == acc[i]);
                let j = choose|j: int|
                    0 <= j < raw.drop_last().len() && raw.drop_last()[j].2 != "entity"@
                        && raw.drop_last()[j].0 == (#[trigger] acc[i]).0 && raw.drop_last()[j].1 == acc[i].1;
                assert(raw[j] == raw.drop_last()[j]);
            } else {
                assert(raw[raw.len() - 1] == raw.last());
            }
        }
    }
}

/// UUID prefix: a UUID read from a value that does not begin with the prefix
/// twice does not begin with `uuid:`.
pub proof fn law_uuid_prefix(s: Seq<char>)
    requires
        !(s.len() >= 10 && s.subrange(0, 10) == "uuid:uuid:"@),
    ensures
        stripped_uuid(s) matches Some(u) ==> !(u.len() >= 5 && u.subrange(0, 5) == "uuid:"@),
{
    reveal_strlit("uuid:");
    reveal_strlit("uuid:uuid:");
    if let Some(u) = stripped_uuid(s) {
        if u.len() >= 5 && u.subrange(0, 5) == "uuid:"@ {
            if s.len() >= 5 && s.subrange(0, 5) == "uuid:"@ {
                assert(s.subrange(0, 10) =~= "uuid:uuid:"@) by {
                    assert forall|i: int| 0 <= i < 10 implies s.subrange(0, 10)[i] == "uuid:uuid:"@[i] by {
                        if i < 5 {
                            assert(s.subrange(0, 5)[i] == s[i]);
                        } else {
                            assert(u.subrange(0, 5)[i - 5] == u[i - 5]);
                            assert(u[i - 5] == s[i]);
                        }
                    }
                }
            } else {
                assert(u == s);
            }
        }
    }
}

} // verus!

verus! {

/// Every string reachable from `pairs` through dictionaries only, with the
/// path of keys that leads to it from `prefix`, in document order.
pub open spec fn leaf_entries(pairs: Seq<(Seq<char>, Tree)>, prefix: Seq<Seq<char>>) -> Seq<
    (Seq<Seq<char>>, Seq<char>),
>
    decreases pairs,
{
    if pairs.len() == 0 {
        Seq::empty()
    } else {
        leaf_entries(pairs.drop_last(), prefix) + match pairs.last().1 {
            Tree::Node(inner) => leaf_entries(inner, prefix.push(pairs.last().0)),
            Tree::Leaf(s) => seq![(prefix.push(pairs.last().0), s)],
            Tree::Items(_) => Seq::empty(),
        }
    }
}

/// The string entries among flat entries.
pub open spec fn string_entries(es: Seq<FlatModel>) -> Seq<(Seq<Seq<char>>, Seq<char>)>
    decreases es.len(),
{
    if es.len() == 0 {
        Seq::empty()
    } else {
        string_entries(es.drop_last()) + match es.last().1 {
            Tree::Leaf(s) => seq![(es.last().0, s)],
            _ => Seq::empty(),
        }
    }
}

/// The string entries of a flat dictionary.
pub open spec fn string_pairs(kv: Seq<(Seq<char>, Tree)>) -> Seq<(Seq<char>, Seq<char>)>
    decreases kv.len(),
{
    if kv.len() == 0 {
        Seq::empty()
    } else {
        string_pairs(kv.drop_last()) + match kv.last().1 {
            Tree::Leaf(s) => seq![(kv.last().0, s)],
            _ => Seq::empty(),
        }
    }
}

/// Strings keyed by the abbreviated xpath of their path.
pub open spec fn keyed_leaves(ls: Seq<(Seq<Seq<char>>, Seq<char>)>) -> Seq<(Seq<char>, Seq<char>)> {
    Seq::new(ls.len(), |i: int| (flat_key(ls[i].0), ls[i].1))
}

proof fn lemma_string_entries_append(a: Seq<FlatModel>, b: Seq<FlatModel>)
    ensures
        string_entries(a + b) == string_entries(a) + string_entries(b),
    decreases b.len(),
{
    if b.len() == 0 {
        assert(a + b =~= a);
        assert(string_entries(a) + string_entries(b) =~= string_entries(a));
    } else {
        assert((a + b).drop_last() =~= a + b.drop_last());
        lemma_string_entries_append(a, b.drop_last());
        assert(string_entries(a + b) =~= string_entries(a) + string_entries(b));
    }
}

proof fn lemma_flat_strings(pairs: Seq<(Seq<char>, Tree)>, prefix: Seq<Seq<char>>)
    ensures
        string_entries(flat_entries(pairs, prefix)) == leaf_entries(pairs, prefix),
    decreases pairs,
{
    if pairs.len() == 0 {
        assert(string_entries(flat_entries(pairs, prefix)) =~= leaf_entries(pairs, prefix));
    } else {
        lemma_flat_strings(pairs.drop_last(), prefix);
        let before = flat_entries(pairs.drop_last(), prefix);
        let p = prefix.push(pairs.last().0);
        match pairs.last().1 {
            Tree::Node(inner) => {
                lemma_flat_strings(inner, p);
                lemma_string_entries_append(before, flat_entries(inner, p));
            },
            Tree::Items(items) => {
                let e = (p, Tree::Items(repeat_dicts(items, p)));
                assert(before.push(e).drop_last() =~= before);
                assert(leaf_entries(pairs, prefix) =~= leaf_entries(pairs.drop_last(), prefix));
            },
            Tree::Leaf(s) => {
                assert(before.push((p, Tree::Leaf(s))).drop_last() =~= before);
            },
        }
    }
}

proof fn lemma_string_pairs_keyed(es: Seq<FlatModel>)
    ensures
        string_pairs(keyed(es)) == keyed_leaves(string_entries(es)),
    decreases es.len(),
{
    if es.len() == 0 {
        assert(string_pairs(keyed(es)) =~= keyed_leaves(string_entries(es)));
    } else {
        lemma_string_pairs_keyed(es.drop_last());
        assert(keyed(es).drop_last() =~= keyed(es.drop_last()));
        assert(string_pairs(keyed(es)) =~= keyed_leaves(string_entries(es)));
    }
}

/// Flatten round trip: the string entries of the flat view are exactly the
/// strings reachable through dictionaries in the nested tree, in document
/// order, each under the abbreviated xpath of its path (root left out).
pub proof fn law_flatten_leaves(pairs: Seq<(Seq<char>, Tree)>)
    ensures
        string_pairs(flat_view(Tree::Node(pairs))) == keyed_leaves(leaf_entries(pairs, seq![])),
{
    lemma_flat_strings(pairs, seq![]);
    lemma_string_pairs_keyed(flat_entries(pairs, seq![]));
}

} // verus!

verus! {

/// The attributes not carried by an element named `entity`.
pub open spec fn without_entities(raw: Seq<AttrModel>) -> Seq<AttrModel>
    decreases raw.len(),
{
    if raw.len() == 0 {
        Seq::empty()
    } else if raw.last().2 == "entity"@ {
        without_entities(raw.drop_last())
    } else {
        without_entities(raw.drop_last()).push(raw.last())
    }
}

/// Entity exclusion, as a filter: the kept attributes are those kept from
/// the attributes of elements not named `entity`, and a key that only
/// `entity` elements carry is not kept.
pub proof fn law_entities_filtered(raw: Seq<AttrModel>)
    ensures
        first_wins(raw) == first_wins(without_entities(raw)),
        forall|k: Seq<char>|
            (forall|j: int| 0 <= j < raw.len() && raw[j].0 == k ==> raw[j].2 == "entity"@) ==> !#[trigger] has_key(
                first_wins(raw),
                k,
            ),
    decreases raw.len(),
{
    if raw.len() > 0 {
        law_entities_filtered(raw.drop_last());
        let w = without_entities(raw.drop_last());
        if raw.last().2 != "entity"@ {
            assert(w.push(raw.last()).drop_last() =~= w);
        }
        assert forall|k: Seq<char>|
            (forall|j: int| 0 <= j < raw.len() && raw[j].0 == k ==> raw[j].2 == "entity"@) implies !#[trigger] has_key(
            first_wins(raw),
            k,
        ) by {
            assert forall|j: int| 0 <= j < raw.drop_last().len() && raw.drop_last()[j].0 == k implies raw.drop_last()[j].2
                == "entity"@ by {
                assert(raw.drop_last()[j] == raw[j]);
            }
            assert(raw[raw.len() - 1] == raw.last());
            let acc = first_wins(raw.drop_last());
            assert(!has_key(acc, k));
            if has_key(first_wins(raw), k) {
                let i = choose|i: int| 0 <= i < first_wins(raw).len() && first_wins(raw)[i].0 == k;
                if i < acc.len() {
                    assert(first_wins(raw)[i] == acc[i]);
                }
            }
        }
    }
}

} // verus!
