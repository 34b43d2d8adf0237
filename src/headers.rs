use vstd::prelude::*;

use crate::text::{chars_of, copy_text, same_text};
use crate::tree::{contains_name, names_view};

verus! {

broadcast use vstd::std_specs::vec::group_vec_axioms, vstd::seq::group_seq_axioms;

/// Declared columns that a CSV header row lacks.
#[derive(Debug)]
pub struct MissingColumns {
    pub columns: Vec<String>,
}

/// `names` joined with `, `.
pub open spec fn comma_joined(names: Seq<Seq<char>>) -> Seq<char>
    decreases names.len(),
{
    if names.len() == 0 {
        Seq::empty()
    } else if names.len() == 1 {
        names[0]
    } else {
        comma_joined(names.drop_last()) + ", "@ + names.last()
    }
}

impl MissingColumns {
    /// The human-readable message that lists the missing columns.
    pub fn message(&self) -> (r: String)
        ensures
            r@ == "Imported CSV is missing the following fields: "@ + comma_joined(names_view(self.columns@)),
    {
        let ghost parts = names_view(self.columns@);
        let mut out = copy_text("Imported CSV is missing the following fields: ");
        let ghost head = out@;
        let mut i: usize = 0;
        proof {
            assert(parts.take(0) =~= Seq::<Seq<char>>::empty());
            assert(out@ =~= head + comma_joined(parts.take(0)));
        }
        while i < self.columns.len()
            invariant
                i <= self.columns.len(),
                parts == names_view(self.columns@),
                out@ == head + comma_joined(parts.take(i as int)),
            decreases self.columns.len() - i,
        {
            let ghost before = out@;
            if i > 0 {
                out.push_str(", ");
            }
            out.push_str(self.columns[i].as_str());
            proof {
                let next = parts.take(i + 1);
                assert(next.drop_last() =~= parts.take(i as int));
                assert(next.last() == self.columns@[i as int]@);
                if i == 0 {
                    assert(comma_joined(next) == next[0]);
                    assert(out@ =~= head + comma_joined(next));
                } else {
                    assert(out@ =~= head + (comma_joined(next.drop_last()) + ", "@ + next.last()));
                }
            }
            i = i + 1;
        }
        proof {
            assert(parts.take(self.columns.len() as int) =~= parts);
        }
        out
    }
}

/// The type of a column that may be absent: its choices come as columns of their own.
pub open spec fn is_multi_select(t: Seq<char>) -> bool {
    t == "select all that apply"@
}

/// Declared columns that the headers lack, in declaration order.
pub open spec fn missing_columns(headers: Seq<Seq<char>>, columns: Seq<(Seq<char>, Seq<char>)>) -> Seq<Seq<char>>
    decreases columns.len(),
{
    if columns.len() == 0 {
        Seq::empty()
    } else {
        let rest = missing_columns(headers, columns.drop_last());
        let c = columns.last();
        if !headers.contains(c.0) && !is_multi_select(c.1) {
            rest.push(c.0)
        } else {
            rest
        }
    }
}

pub open spec fn declares(columns: Seq<(Seq<char>, Seq<char>)>, h: Seq<char>) -> bool {
    exists|i: int| 0 <= i < columns.len() && columns[i].0 == h
}

/// Headers that are not declared and hold no `[`, in header order.
pub open spec fn additional_columns(headers: Seq<Seq<char>>, columns: Seq<(Seq<char>, Seq<char>)>) -> Seq<Seq<char>>
    decreases headers.len(),
{
    if headers.len() == 0 {
        Seq::empty()
    } else {
        let rest = additional_columns(headers.drop_last(), columns);
        let h = headers.last();
        if !declares(columns, h) && !h.contains('[') {
            rest.push(h)
        } else {
            rest
        }
    }
}

pub open spec fn columns_view(v: Seq<(String, String)>) -> Seq<(Seq<char>, Seq<char>)> {
    Seq::new(v.len(), |i: int| (v[i].0@, v[i].1@))
}

fn push_name(out: &mut Vec<String>, s: &str)
    ensures
        names_view(final(out)@) == names_view(old(out)@).push(s@),
{
    let ghost before = out@;
    out.push(copy_text(s));
    proof {
        assert(names_view(before).len() == before.len());
        assert forall|j: int| 0 <= j < out@.len() implies names_view(out@)[j] == names_view(before).push(s@)[j] by {
            if j < before.len() {
                assert(names_view(before)[j] == names_view(out@)[j]);
            }
        }
        assert(names_view(out@) =~= names_view(before).push(s@));
    }
}

fn declares_column(columns: &[(String, String)], h: &str) -> (r: bool)
    ensures
        r == declares(columns_view(columns@), h@),
{
    let mut i: usize = 0;
    while i < columns.len()
        invariant
            i <= columns.len(),
            forall|j: int| 0 <= j < i ==> columns@[j].0@ != h@,
        decreases columns.len() - i,
    {
        if same_text(columns[i].0.as_str(), h) {
            proof {
                assert(columns_view(columns@)[i as int].0 == h@);
            }
            return true;
        }
        i = i + 1;
    }
    proof {
        if declares(columns_view(columns@), h@) {
            let j = choose|j: int| 0 <= j < columns_view(columns@).len() && columns_view(columns@)[j].0 == h@;
            assert(columns@[j].0@ == h@);
        }
    }
    false
}

fn has_bracket(s: &str) -> (r: bool)
    ensures
        r == s@.contains('['),
{
    let cs = chars_of(s);
    let mut i: usize = 0;
    while i < cs.len()
        invariant
            i <= cs.len(),
            cs@ == s@,
            forall|j: int| 0 <= j < i ==> cs@[j] != '[',
        decreases cs.len() - i,
    {
        if cs[i] == '[' {
            return true;
        }
        i = i + 1;
    }
    false
}

/// Checks a CSV header row against declared columns (name, type). Fails with
/// the declared columns that are missing, those of type `select all that apply`
/// excepted; otherwise returns the undeclared headers that hold no `[`.
pub fn check_csv_headers(headers: &[String], columns_with_type: &[(String, String)]) -> (r: Result<
    Vec<String>,
    MissingColumns,
>)
    ensures
        ({
            let hs = names_view(headers@);
            let cs = columns_view(columns_with_type@);
            let missing = missing_columns(hs, cs);
            if missing.len() > 0 {
                r matches Err(m) && names_view(m.columns@) == missing
            } else {
                r matches Ok(extra) && names_view(extra@) == additional_columns(hs, cs)
            }
        }),
{
    let ghost hs = names_view(headers@);
    let ghost cs = columns_view(columns_with_type@);
    let mut missing: Vec<String> = Vec::new();
    let mut i: usize = 0;
    proof {
        assert(names_view(missing@) =~= missing_columns(hs, cs.take(0)));
    }
    while i < columns_with_type.len()
        invariant
            i <= columns_with_type.len(),
            hs == names_view(headers@),
            cs == columns_view(columns_with_type@),
            names_view(missing@) == missing_columns(hs, cs.take(i as int)),
        decreases columns_with_type.len() - i,
    {
        proof {
            assert(cs.take(i + 1).drop_last() =~= cs.take(i as int));
            assert(cs.take(i + 1).last() == cs[i as int]);
        }
        let key = columns_with_type[i].0.as_str();
        let kind = columns_with_type[i].1.as_str();
        if !contains_name(headers, key) && !same_text(kind, "select all that apply") {
            push_name(&mut missing, key);
        }
        i = i + 1;
    }
    proof {
        assert(cs.take(columns_with_type.len() as int) =~= cs);
    }
    if missing.len() > 0 {
        return Err(MissingColumns { columns: missing });
    }
    let mut extra: Vec<String> = Vec::new();
    let mut k: usize = 0;
    proof {
        assert(names_view(extra@) =~= additional_columns(hs.take(0), cs));
    }
    while k < headers.len()
        invariant
            k <= headers.len(),
            hs == names_view(headers@),
            cs == columns_view(columns_with_type@),
            names_view(extra@) == additional_columns(hs.take(k as int), cs),
        decreases headers.len() - k,
    {
        proof {
            assert(hs.take(k + 1).drop_last() =~= hs.take(k as int));
            assert(hs.take(k + 1).last() == headers@[k as int]@);
        }
        let h = headers[k].as_str();
        if !declares_column(columns_with_type, h) && !has_bracket(h) {
            push_name(&mut extra, h);
        }
        k = k + 1;
    }
    proof {
        assert(hs.take(headers.len() as int) =~= hs);
    }
    Ok(extra)
}

} // verus!
