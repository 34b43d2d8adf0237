use vstd::prelude::*;

use crate::text::{chars_of, same_text, string_of};
use crate::tree::names_view;
use crate::value::{Tree, Value, key_index, pairs_view, items_view, lemma_dict_view, lemma_list_view, find_key};

verus! {

broadcast use vstd::std_specs::vec::group_vec_axioms, vstd::seq::group_seq_axioms;

/// Every value found under `key` anywhere in `t`, in traversal order. Inside
/// lists, strings equal to `key` are found as well.
pub open spec fn matching(t: Tree, key: Seq<char>) -> Seq<Tree>
    decreases t,
{
    match t {
        Tree::Node(pairs) => {
            let i = key_index(pairs, key);
            (if i >= 0 {
                seq![pairs[i].1]
            } else {
                Seq::empty()
            }) + pairs_matching(pairs, key)
        },
        Tree::Items(items) => items_matching(items, key),
        Tree::Leaf(_) => Seq::empty(),
    }
}

/// The matches inside the values of `pairs`.
pub open spec fn pairs_matching(pairs: Seq<(Seq<char>, Tree)>, key: Seq<char>) -> Seq<Tree>
    decreases pairs,
{
    if pairs.len() == 0 {
        Seq::empty()
    } else {
        pairs_matching(pairs.drop_last(), key) + match pairs.last().1 {
            Tree::Leaf(_) => Seq::empty(),
            other => matching(other, key),
        }
    }
}

/// The matches inside the items of a list.
pub open spec fn items_matching(items: Seq<Tree>, key: Seq<char>) -> Seq<Tree>
    decreases items,
{
    if items.len() == 0 {
        Seq::empty()
    } else {
        items_matching(items.drop_last(), key) + match items.last() {
            Tree::Leaf(s) => if s == key {
                seq![Tree::Leaf(s)]
            } else {
                Seq::empty()
            },
            other => matching(other, key),
        }
    }
}

pub open spec fn refs_view(v: Seq<&Value>) -> Seq<Tree> {
    Seq::new(v.len(), |i: int| (*v[i])@)
}

proof fn lemma_refs_append(a: Seq<&Value>, b: Seq<&Value>)
    ensures
        refs_view(a + b) == refs_view(a) + refs_view(b),
{
    assert(refs_view(a + b) =~= refs_view(a) + refs_view(b));
}

proof fn lemma_refs_push(a: Seq<&Value>, b: &Value)
    ensures
        refs_view(a.push(b)) == refs_view(a).push((*b)@),
{
    assert(refs_view(a.push(b)) =~= refs_view(a).push((*b)@));
}

/// Every value found under `key` anywhere in `value`.
#[verifier::loop_isolation(false)]
pub fn get_values_matching_key<'a>(value: &'a Value, key: &str) -> (r: Vec<&'a Value>)
    ensures
        refs_view(r@) == matching(value@, key@),
    decreases value,
{
    let mut results: Vec<&'a Value> = Vec::new();
    match value {
        Value::Dict(pairs) => {
            proof {
                lemma_dict_view(*pairs);
            }
            let ghost pv = pairs_view(pairs@);
            if let Some(j) = find_key(pairs, key) {
                results.push(&pairs[j].1);
                proof {
                    assert(refs_view(results@) =~= seq![pv[j as int].1]);
                }
            } else {
                proof {
                    assert(refs_view(results@) =~= Seq::<Tree>::empty());
                }
            }
            let ghost head = refs_view(results@);
            let mut i: usize = 0;
            proof {
                assert(head + pairs_matching(pv.take(0), key@) =~= head);
            }
            while i < pairs.len()
                invariant
                    i <= pairs.len(),
                    refs_view(results@) == head + pairs_matching(pv.take(i as int), key@),
                decreases pairs.len() - i,
            {
                proof {
                    assert(pv.take(i + 1).drop_last() =~= pv.take(i as int));
                    assert(pv.take(i + 1).last() == pv[i as int]);
                }
                let v = &pairs[i].1;
                let ghost before = results@;
                match v {
                    Value::Str(_) => {
                        proof {
                            assert(refs_view(results@) =~= head + pairs_matching(pv.take(i + 1), key@));
                        }
                    },
                    _ => {
                        let mut sub = get_values_matching_key(v, key);
                        let ghost sub_seq = sub@;
                        results.append(&mut sub);
                        proof {
                            lemma_refs_append(before, sub_seq);
                            assert(refs_view(results@) =~= head + pairs_matching(pv.take(i + 1), key@));
                        }
                    },
                }
                i = i + 1;
            }
            proof {
                assert(pv.take(pairs.len() as int) =~= pv);
            }
        },
        Value::List(items) => {
            proof {
                lemma_list_view(*items);
            }
            let ghost iv = items_view(items@);
            let mut i: usize = 0;
            proof {
                assert(refs_view(results@) =~= items_matching(iv.take(0), key@));
            }
            while i < items.len()
                invariant
                    i <= items.len(),
                    refs_view(results@) == items_matching(iv.take(i as int), key@),
                decreases items.len() - i,
            {
                proof {
                    assert(iv.take(i + 1).drop_last() =~= iv.take(i as int));
                    assert(iv.take(i + 1).last() == iv[i as int]);
                }
                let item = &items[i];
                let ghost before = results@;
                match item {
                    Value::Str(s) => {
                        if same_text(s.as_str(), key) {
                            results.push(item);
                            proof {
                                lemma_refs_push(before, item);
                            }
                        }
                        proof {
                            assert(refs_view(results@) =~= items_matching(iv.take(i + 1), key@));
                        }
                    },
                    _ => {
                        let mut sub = get_values_matching_key(item, key);
                        let ghost sub_seq = sub@;
                        results.append(&mut sub);
                        proof {
                            lemma_refs_append(before, sub_seq);
                            assert(refs_view(results@) =~= items_matching(iv.take(i + 1), key@));
                        }
                    },
                }
                i = i + 1;
            }
            proof {
                assert(iv.take(items.len() as int) =~= iv);
            }
        },
        Value::Str(_) => {
            proof {
                assert(refs_view(results@) =~= Seq::<Tree>::empty());
            }
        },
    }
    results
}

} // verus!

verus! {

/// ASCII white space: space, tab, line feed, form feed, carriage return.
pub open spec fn is_ascii_space(c: char) -> bool {
    c == ' ' || c == '\t' || c == '\n' || c == '\x0C' || c == '\r'
}

fn ascii_space(c: char) -> (r: bool)
    ensures
        r == is_ascii_space(c),
{
    c == ' ' || c == '\t' || c == '\n' || c == '\x0C' || c == '\r'
}

/// The words of `s`: maximal runs of characters that are not ASCII white space.
pub open spec fn tokens(s: Seq<char>) -> Seq<Seq<char>>
    decreases s.len(),
{
    if s.len() == 0 {
        Seq::empty()
    } else {
        let t = tokens(s.drop_last());
        let c = s.last();
        if is_ascii_space(c) {
            t
        } else if s.len() >= 2 && !is_ascii_space(s[s.len() - 2]) && t.len() > 0 {
            t.update(t.len() - 1, t.last().push(c))
        } else {
            t.push(seq![c])
        }
    }
}

/// The first two words of each string among `vs`, for those with two words or more.
pub open spec fn coordinates(vs: Seq<Tree>) -> Seq<(Seq<char>, Seq<char>)>
    decreases vs.len(),
{
    if vs.len() == 0 {
        Seq::empty()
    } else {
        coordinates(vs.drop_last()) + match vs.last() {
            Tree::Leaf(s) => if tokens(s).len() >= 2 {
                seq![(tokens(s)[0], tokens(s)[1])]
            } else {
                Seq::empty()
            },
            _ => Seq::empty(),
        }
    }
}

/// The coordinate texts found for each key of `xpaths`, key after key.
pub open spec fn geo_candidates(t: Tree, xpaths: Seq<Seq<char>>) -> Seq<(Seq<char>, Seq<char>)>
    decreases xpaths.len(),
{
    if xpaths.len() == 0 {
        Seq::empty()
    } else {
        geo_candidates(t, xpaths.drop_last()) + coordinates(matching(t, xpaths.last()))
    }
}

pub open spec fn words_view(v: Seq<Vec<char>>) -> Seq<Seq<char>> {
    Seq::new(v.len(), |i: int| v[i]@)
}

/// The words of `s`.
pub fn split_words(s: &str) -> (r: Vec<Vec<char>>)
    ensures
        words_view(r@) == tokens(s@),
{
    let cs = chars_of(s);
    let mut words: Vec<Vec<char>> = Vec::new();
    let mut i: usize = 0;
    proof {
        assert(words_view(words@) =~= tokens(cs@.take(0)));
    }
    while i < cs.len()
        invariant
            i <= cs.len(),
            cs@ == s@,
            words_view(words@) == tokens(cs@.take(i as int)),
        decreases cs.len() - i,
    {
        let c = cs[i];
        let ghost pre = cs@.take(i as int);
        proof {
            assert(cs@.take(i + 1).drop_last() =~= pre);
            assert(cs@.take(i + 1).last() == c);
        }
        if ascii_space(c) {
        } else if i >= 1 && !ascii_space(cs[i - 1]) && words.len() > 0 {
            let mut last = words.pop().unwrap();
            let ghost last_before = last@;
            last.push(c);
            let ghost popped = words@;
            words.push(last);
            proof {
                assert(cs@.take(i + 1)[i - 1] == cs@[i - 1]);
                assert(words_view(words@) =~= words_view(popped).push(last_before.push(c)));
                assert(words_view(words@) =~= tokens(pre).update(tokens(pre).len() - 1, tokens(pre).last().push(c)));
            }
        } else {
            let mut w: Vec<char> = Vec::new();
            w.push(c);
            let ghost before = words@;
            words.push(w);
            proof {
                if i >= 1 {
                    assert(cs@.take(i + 1)[i - 1] == cs@[i - 1]);
                }
                assert(w@ =~= seq![c]);
                assert(words_view(words@) =~= tokens(pre).push(seq![c]));
            }
        }
        i = i + 1;
    }
    proof {
        assert(cs@.take(cs.len() as int) =~= cs@);
    }
    words
}

} // verus!

verus! {

pub open spec fn text_pairs_view(v: Seq<(String, String)>) -> Seq<(Seq<char>, Seq<char>)> {
    Seq::new(v.len(), |i: int| (v[i].0@, v[i].1@))
}

fn push_pair(out: &mut Vec<(String, String)>, a: String, b: String)
    ensures
        text_pairs_view(final(out)@) == text_pairs_view(old(out)@).push((a@, b@)),
{
    let ghost before = out@;
    out.push((a, b));
    proof {
        assert(text_pairs_view(before).len() == before.len());
        assert forall|j: int| 0 <= j < out@.len() implies text_pairs_view(out@)[j]
            == text_pairs_view(before).push((a@, b@))[j] by {
            if j < before.len() {
                assert(text_pairs_view(before)[j] == text_pairs_view(out@)[j]);
            }
        }
        assert(text_pairs_view(out@) =~= text_pairs_view(before).push((a@, b@)));
    }
}

/// The texts of the first two words of every geopoint string found under the
/// keys `geo_xpaths`, key after key.
pub fn geo_candidates_of(dict: &Value, geo_xpaths: &[String]) -> (r: Vec<(String, String)>)
    ensures
        text_pairs_view(r@) == geo_candidates(dict@, names_view(geo_xpaths@)),
{
    let ghost xs = names_view(geo_xpaths@);
    let mut out: Vec<(String, String)> = Vec::new();
    let mut x: usize = 0;
    proof {
        assert(xs.take(0) =~= Seq::<Seq<char>>::empty());
        assert(text_pairs_view(out@) =~= Seq::<(Seq<char>, Seq<char>)>::empty());
    }
    while x < geo_xpaths.len()
        invariant
            x <= geo_xpaths.len(),
            xs == names_view(geo_xpaths@),
            text_pairs_view(out@) == geo_candidates(dict@, xs.take(x as int)),
        decreases geo_xpaths.len() - x,
    {
        proof {
            assert(xs.take(x + 1).drop_last() =~= xs.take(x as int));
            assert(xs.take(x + 1).last() == geo_xpaths@[x as int]@);
        }
        let values = get_values_matching_key(dict, geo_xpaths[x].as_str());
        let ghost vs = refs_view(values@);
        let ghost start = text_pairs_view(out@);
        let mut k: usize = 0;
        proof {
            assert(vs.take(0) =~= Seq::<Tree>::empty());
            assert(start + coordinates(vs.take(0)) =~= start);
        }
        while k < values.len()
            invariant
                k <= values.len(),
                vs == refs_view(values@),
                text_pairs_view(out@) == start + coordinates(vs.take(k as int)),
            decreases values.len() - k,
        {
            proof {
                assert(vs.take(k + 1).drop_last() =~= vs.take(k as int));
                assert(vs.take(k + 1).last() == vs[k as int]);
            }
            let ghost before = text_pairs_view(out@);
            if let Value::Str(s) = values[k] {
                let words = split_words(s.as_str());
                if words.len() >= 2 {
                    let a = string_of(&words[0], 0, words[0].len());
                    let b = string_of(&words[1], 0, words[1].len());
                    proof {
                        assert(words[0]@.subrange(0, words[0]@.len() as int) =~= words[0]@);
                        assert(words[1]@.subrange(0, words[1]@.len() as int) =~= words[1]@);
                        assert(words_view(words@)[0] == words@[0]@);
                        assert(words_view(words@)[1] == words@[1]@);
                    }
                    push_pair(&mut out, a, b);
                }
            }
            proof {
                assert(text_pairs_view(out@) =~= start + coordinates(vs.take(k + 1)));
            }
            k = k + 1;
        }
        proof {
            assert(vs.take(values.len() as int) =~= vs);
            assert(text_pairs_view(out@) =~= geo_candidates(dict@, xs.take(x + 1)));
        }
        x = x + 1;
    }
    proof {
        assert(xs.take(geo_xpaths.len() as int) =~= xs);
    }
    out
}

/// Some string with the characters `text` made `f` return `out`.
pub open spec fn decodes_to<P, F: Fn(&str) -> Option<P>>(f: F, text: Seq<char>, out: Option<P>) -> bool {
    exists|s: &str| s@ == text && #[trigger] f.ensures((s,), out)
}

/// `points` are the decoded pairs of `c`, in order, up to the first pair of
/// which a word did not decode, if any.
pub open spec fn decoded_points<P, F: Fn(&str) -> Option<P>>(
    f: F,
    c: Seq<(Seq<char>, Seq<char>)>,
    points: Seq<(P, P)>,
) -> bool {
    &&& points.len() <= c.len()
    &&& forall|i: int|
        0 <= i < points.len() ==> decodes_to(f, c[i].0, Some(#[trigger] points[i].0)) && decodes_to(
            f,
            c[i].1,
            Some(points[i].1),
        )
    &&& points.len() < c.len() ==> decodes_to(f, c[points.len() as int].0, None) || decodes_to(
        f,
        c[points.len() as int].1,
        None,
    )
}

/// Decodes the geopoints of a nested tree: for each key of `geo_xpaths`, in
/// order, every string found under it gives the pair of its first two words,
/// each decoded by `parse_coordinate`. The first pair that does not decode
/// ends the whole extraction: the pairs decoded before it are returned.
pub fn extract_geopoints<P, F: Fn(&str) -> Option<P>>(
    dict: &Value,
    geo_xpaths: &[String],
    parse_coordinate: F,
) -> (r: Vec<(P, P)>)
    requires
        forall|s: &str| #[trigger] parse_coordinate.requires((s,)),
    ensures
        decoded_points(parse_coordinate, geo_candidates(dict@, names_view(geo_xpaths@)), r@),
{
    let candidates = geo_candidates_of(dict, geo_xpaths);
    let ghost c = text_pairs_view(candidates@);
    let mut points: Vec<(P, P)> = Vec::new();
    let mut k: usize = 0;
    while k < candidates.len()
        invariant
            k <= candidates.len(),
            c == text_pairs_view(candidates@),
            c == geo_candidates(dict@, names_view(geo_xpaths@)),
            forall|s: &str| #[trigger] parse_coordinate.requires((s,)),
            points@.len() == k,
            forall|i: int|
                0 <= i < k ==> decodes_to(parse_coordinate, c[i].0, Some(#[trigger] points@[i].0))
                    && decodes_to(parse_coordinate, c[i].1, Some(points@[i].1)),
        decreases candidates.len() - k,
    {
        let lat_text = candidates[k].0.as_str();
        let lng_text = candidates[k].1.as_str();
        let lat = parse_coordinate(lat_text);
        let lng = parse_coordinate(lng_text);
        proof {
            assert(lat_text@ == c[k as int].0);
            assert(lng_text@ == c[k as int].1);
            assert(decodes_to(parse_coordinate, c[k as int].0, lat));
            assert(decodes_to(parse_coordinate, c[k as int].1, lng));
        }
        match (lat, lng) {
            (Some(a), Some(b)) => {
                let ghost before = points@;
                points.push((a, b));
                proof {
                    assert forall|i: int| 0 <= i < k + 1 implies decodes_to(
                        parse_coordinate,
                        c[i].0,
                        Some(#[trigger] points@[i].0),
                    ) && decodes_to(parse_coordinate, c[i].1, Some(points@[i].1)) by {
                        if i < k {
                            assert(points@[i] == before[i]);
                        }
                    }
                }
            },
            _ => {
                return points;
            },
        }
        k = k + 1;
    }
    points
}

} // verus!
