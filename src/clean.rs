use vstd::prelude::*;

use crate::text::chars_of;

verus! {

broadcast use vstd::seq::group_seq_axioms;

/// Characters with the Unicode `White_Space` property.
pub open spec fn is_space(c: char) -> bool {
    let u = c as u32;
    (0x9 <= u <= 0xd) || u == 0x20 || u == 0x85 || u == 0xa0 || u == 0x1680 || (0x2000 <= u
        <= 0x200a) || u == 0x2028 || u == 0x2029 || u == 0x202f || u == 0x205f || u == 0x3000
}

pub fn space_char(c: char) -> (r: bool)
    ensures
        r == is_space(c),
{
    let u = c as u32;
    (0x9 <= u && u <= 0xd) || u == 0x20 || u == 0x85 || u == 0xa0 || u == 0x1680 || (0x2000 <= u
        && u <= 0x200a) || u == 0x2028 || u == 0x2029 || u == 0x202f || u == 0x205f || u == 0x3000
}

/// `s` without leading white space.
pub open spec fn trim_start(s: Seq<char>) -> Seq<char>
    decreases s.len(),
{
    if s.len() > 0 && is_space(s[0]) {
        trim_start(s.drop_first())
    } else {
        s
    }
}

/// `s` without trailing white space.
pub open spec fn trim_end(s: Seq<char>) -> Seq<char>
    decreases s.len(),
{
    if s.len() > 0 && is_space(s.last()) {
        trim_end(s.drop_last())
    } else {
        s
    }
}

/// `s` without leading and trailing white space.
pub open spec fn trim(s: Seq<char>) -> Seq<char> {
    trim_end(trim_start(s))
}

/// The character at `i` lies in a run of white space between a `>` and a `<`.
pub open spec fn between_tags(t: Seq<char>, i: int) -> bool {
    exists|a: int, b: int|
        0 <= a < i < b < t.len() && t[a] == '>' && t[b] == '<' && forall|j: int|
            a < j < b ==> is_space(#[trigger] t[j])
}

/// The first `n` characters of `t`, without those between tags.
pub open spec fn kept(t: Seq<char>, n: int) -> Seq<char>
    decreases n,
{
    if n <= 0 {
        Seq::empty()
    } else if between_tags(t, n - 1) {
        kept(t, n - 1)
    } else {
        kept(t, n - 1).push(t[n - 1])
    }
}

/// The document after cleaning: trimmed, and without white space between tags.
pub open spec fn cleaned(s: Seq<char>) -> Seq<char> {
    kept(trim(s), trim(s).len() as int)
}

proof fn lemma_trim_start(s: Seq<char>, lo: int)
    requires
        0 <= lo <= s.len(),
        forall|j: int| 0 <= j < lo ==> is_space(s[j]),
        lo == s.len() || !is_space(s[lo]),
    ensures
        trim_start(s) == s.subrange(lo, s.len() as int),
    decreases lo,
{
    if lo > 0 {
        lemma_trim_start(s.drop_first(), lo - 1);
        assert(s.drop_first().subrange(lo - 1, s.len() - 1) =~= s.subrange(lo, s.len() as int));
    } else {
        assert(s.subrange(0, s.len() as int) =~= s);
    }
}

proof fn lemma_trim_end(s: Seq<char>, hi: int)
    requires
        0 <= hi <= s.len(),
        forall|j: int| hi <= j < s.len() ==> is_space(s[j]),
        hi == 0 || !is_space(s[hi - 1]),
    ensures
        trim_end(s) == s.subrange(0, hi),
    decreases s.len() - hi,
{
    if hi < s.len() {
        lemma_trim_end(s.drop_last(), hi);
        assert(s.drop_last().subrange(0, hi) =~= s.subrange(0, hi));
    } else {
        assert(s.subrange(0, hi) =~= s);
    }
}

/// The characters of `s` without leading and trailing white space.
pub fn trimmed_chars(s: &str) -> (r: Vec<char>)
    ensures
        r@ == trim(s@),
{
    let t = chars_of(s);
    let mut lo: usize = 0;
    while lo < t.len() && space_char(t[lo])
        invariant
            lo <= t.len(),
            forall|j: int| 0 <= j < lo ==> is_space(t@[j]),
        decreases t.len() - lo,
    {
        lo = lo + 1;
    }
    proof {
        lemma_trim_start(t@, lo as int);
    }
    let mut hi: usize = t.len();
    while hi > lo && space_char(t[hi - 1])
        invariant
            lo <= hi <= t.len(),
            forall|j: int| hi <= j < t.len() ==> is_space(t@[j]),
        decreases hi,
    {
        hi = hi - 1;
    }
    let ghost mid = t@.subrange(lo as int, t.len() as int);
    proof {
        lemma_trim_end(mid, hi - lo);
        assert(mid.subrange(0, hi - lo) =~= t@.subrange(lo as int, hi as int));
    }
    let mut out: Vec<char> = Vec::new();
    let mut k: usize = lo;
    while k < hi
        invariant
            lo <= k <= hi,
            hi <= t.len(),
            out@ == t@.subrange(lo as int, k as int),
        decreases hi - k,
    {
        out.push(t[k]);
        proof {
            assert(out@ =~= t@.subrange(lo as int, k + 1));
        }
        k = k + 1;
    }
    out
}

} // verus!

verus! {

proof fn lemma_run_between_tags(t: Seq<char>, i: int, j: int, k: int)
    requires
        0 <= i <= k < j <= t.len(),
        i == 0 || !is_space(t[i - 1]),
        forall|m: int| i <= m < j ==> is_space(t[m]),
        j == t.len() || !is_space(t[j]),
    ensures
        between_tags(t, k) == (i > 0 && t[i - 1] == '>' && j < t.len() && t[j] == '<'),
{
    assert(!is_space('>') && !is_space('<'));
    if i > 0 && t[i - 1] == '>' && j < t.len() && t[j] == '<' {
        assert forall|m: int| i - 1 < m < j implies is_space(#[trigger] t[m]) by {}
    }
    if between_tags(t, k) {
        let (a, b) = choose|a: int, b: int|
            0 <= a < k < b < t.len() && t[a] == '>' && t[b] == '<' && forall|m: int|
                a < m < b ==> is_space(#[trigger] t[m]);
        if a < i - 1 {
            assert(is_space(t[i - 1]));
        }
        if a >= i {
            assert(is_space(t[a]));
        }
        if b < j {
            assert(is_space(t[b]));
        }
        if b > j {
            assert(is_space(t[j]));
        }
    }
}

proof fn lemma_kept_run(t: Seq<char>, i: int, m: int, drop: bool)
    requires
        0 <= i <= m <= t.len(),
        forall|k: int| i <= k < m ==> between_tags(t, k) == drop,
    ensures
        kept(t, m) == kept(t, i) + (if drop {
            Seq::<char>::empty()
        } else {
            t.subrange(i, m)
        }),
    decreases m - i,
{
    if m > i {
        lemma_kept_run(t, i, m - 1, drop);
        if !drop {
            assert(t.subrange(i, m) =~= t.subrange(i, m - 1).push(t[m - 1]));
        }
    } else {
        assert(t.subrange(i, m) =~= Seq::<char>::empty());
    }
}

/// Trims the document and removes every run of white space that stands
/// between a `>` and a `<`. White space inside text is kept.
pub fn clean_xml(xml_str: &str) -> (r: String)
    ensures
        r@ == cleaned(xml_str@),
{
    let t = trimmed_chars(xml_str);
    let mut out = String::new();
    let mut i: usize = 0;
    while i < t.len()
        invariant
            i <= t.len(),
            (i > 0 && i < t.len() && is_space(t@[i as int])) ==> !is_space(t@[i - 1]),
            out@ == kept(t@, i as int),
        decreases t.len() - i,
    {
        if !space_char(t[i]) {
            proof {
                assert(!between_tags(t@, i as int));
            }
            out.push(t[i]);
            i = i + 1;
        } else {
            let mut j: usize = i;
            while j < t.len() && space_char(t[j])
                invariant
                    i <= j <= t.len(),
                    forall|m: int| i <= m < j ==> is_space(t@[m]),
                decreases t.len() - j,
            {
                j = j + 1;
            }
            let drop = i > 0 && t[i - 1] == '>' && j < t.len() && t[j] == '<';
            proof {
                assert forall|k: int| i <= k < j implies between_tags(t@, k) == drop by {
                    lemma_run_between_tags(t@, i as int, j as int, k);
                }
                lemma_kept_run(t@, i as int, j as int, drop);
            }
            if !drop {
                let mut k: usize = i;
                while k < j
                    invariant
                        i <= k <= j <= t.len(),
                        out@ == kept(t@, i as int) + t@.subrange(i as int, k as int),
                    decreases j - k,
                {
                    out.push(t[k]);
                    proof {
                        assert(t@.subrange(i as int, k + 1) =~= t@.subrange(i as int, k as int).push(t@[k as int]));
                    }
                    k = k + 1;
                }
            } else {
                proof {
                    assert(kept(t@, i as int) + Seq::<char>::empty() =~= kept(t@, i as int));
                }
            }
            i = j;
        }
    }
    out
}

} // verus!
