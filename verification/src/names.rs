//! Lookups in lists of names (component names, plugin names).
use vstd::prelude::*;

verus! {

/// The names separated by `sep`.
pub open spec fn joined(names: Seq<Seq<char>>, sep: Seq<char>) -> Seq<char>
    decreases names.len(),
{
    if names.len() == 0 {
        Seq::empty()
    } else if names.len() == 1 {
        names[0]
    } else {
        joined(names.drop_last(), sep) + sep + names.last()
    }
}

/// Joins the names with `sep` between each two.
pub fn join_names(names: &Vec<String>, sep: &str) -> (r: String)
    ensures
        r@ == joined(names.deep_view(), sep@),
{
    let ghost nv = names.deep_view();
    let mut r = String::new();
    let mut i: usize = 0;
    while i < names.len()
        invariant
            i <= names@.len(),
            nv == names.deep_view(),
            r@ == joined(nv.take(i as int), sep@),
        decreases names@.len() - i,
    {
        let ghost before = r@;
        assert(nv.take(i + 1).drop_last() == nv.take(i as int));
        assert(nv.take(i + 1).last() == nv[i as int]);
        if i > 0 {
            r.append(sep);
        }
        r.append(names[i].as_str());
        if i == 0 {
            assert(before == Seq::<char>::empty());
            assert(r@ =~= nv[0]);
        }
        i = i + 1;
    }
    assert(nv.take(i as int) == nv);
    r
}

/// Position of the first entry equal to `name`, if any.
pub fn find_name(names: &Vec<String>, name: &String) -> (r: Option<usize>)
    ensures
        match r {
            Some(i) => {
                &&& i < names@.len()
                &&& names@[i as int]@ == name@
                &&& forall|j: int| 0 <= j < i ==> #[trigger] names@[j]@ != name@
            },
            None => forall|j: int| 0 <= j < names@.len() ==> #[trigger] names@[j]@ != name@,
        },
        r is Some <==> names.deep_view().contains(name@),
{
    let mut k: usize = 0;
    while k < names.len()
        invariant
            k <= names@.len(),
            forall|j: int| 0 <= j < k ==> #[trigger] names@[j]@ != name@,
        decreases names@.len() - k,
    {
        if names[k] == *name {
            assert(names.deep_view()[k as int] == name@);
            return Some(k);
        }
        k = k + 1;
    }
    assert(!names.deep_view().contains(name@)) by {
        if names.deep_view().contains(name@) {
            let j = choose|j: int| 0 <= j < names.deep_view().len() && names.deep_view()[j] == name@;
            assert(names@[j]@ == name@);
        }
    }
    None
}

/// `j` is the first position whose name already occurred earlier.
pub open spec fn is_first_repeat(names: Seq<Seq<char>>, j: int) -> bool {
    &&& 0 <= j < names.len()
    &&& names.subrange(0, j).no_duplicates()
    &&& names.subrange(0, j).contains(names[j])
}

/// Position of the first name that repeats an earlier one, if any.
pub fn first_repeat(names: &Vec<String>) -> (r: Option<usize>)
    ensures
        match r {
            Some(j) => is_first_repeat(names.deep_view(), j as int),
            None => names.deep_view().no_duplicates(),
        },
{
    let ghost v = names.deep_view();
    let mut j: usize = 0;
    while j < names.len()
        invariant
            j <= names@.len(),
            v == names.deep_view(),
            v.subrange(0, j as int).no_duplicates(),
        decreases names@.len() - j,
    {
        let mut i: usize = 0;
        while i < j
            invariant
                i <= j < names@.len(),
                v == names.deep_view(),
                v.subrange(0, j as int).no_duplicates(),
                forall|t: int| 0 <= t < i ==> #[trigger] v[t] != v[j as int],
            decreases j - i,
        {
            if names[i] == names[j] {
                assert(v[i as int] == names@[i as int]@);
                assert(v.subrange(0, j as int)[i as int] == v[j as int]);
                assert(v.subrange(0, j as int).contains(v[j as int]));
                return Some(j);
            }
            i = i + 1;
        }
        assert(v.subrange(0, j + 1).no_duplicates()) by {
            let w = v.subrange(0, j + 1);
            assert forall|a: int, b: int| 0 <= a < w.len() && 0 <= b < w.len() && a != b implies w[a] != w[b] by {
                if a < j && b < j {
                    assert(v.subrange(0, j as int)[a] == w[a] && v.subrange(0, j as int)[b] == w[b]);
                }
            }
        }
        j = j + 1;
    }
    assert(v.subrange(0, v.len() as int) == v);
    None
}

/// A copy of a list of names.
pub fn copy_names(names: &Vec<String>) -> (r: Vec<String>)
    ensures
        r.deep_view() == names.deep_view(),
{
    let mut r: Vec<String> = Vec::new();
    let mut k: usize = 0;
    while k < names.len()
        invariant
            k <= names@.len(),
            r.deep_view() == names.deep_view().subrange(0, k as int),
        decreases names@.len() - k,
    {
        let ghost before = r.deep_view();
        r.push(names[k].clone());
        assert(r.deep_view() =~= before.push(names@[k as int]@));
        assert(r.deep_view() =~= names.deep_view().subrange(0, k + 1));
        k = k + 1;
    }
    assert(names.deep_view().subrange(0, k as int) == names.deep_view());
    r
}

/// Names of the positions in `c`.
pub open spec fn names_at(names: Seq<Seq<char>>, c: Seq<usize>) -> Seq<Seq<char>> {
    c.map_values(|x: usize| names[x as int])
}

/// The names at the given positions, in order.
pub fn names_at_positions(names: &Vec<String>, positions: &Vec<usize>) -> (r: Vec<String>)
    requires
        forall|t: int| #![trigger positions@[t]] 0 <= t < positions@.len() ==> positions@[t] < names@.len(),
    ensures
        r.deep_view() == names_at(names.deep_view(), positions@),
{
    let ghost nv = names.deep_view();
    let mut r: Vec<String> = Vec::new();
    let mut k: usize = 0;
    while k < positions.len()
        invariant
            k <= positions@.len(),
            nv == names.deep_view(),
            forall|t: int| #![trigger positions@[t]] 0 <= t < positions@.len() ==> positions@[t] < names@.len(),
            r.deep_view() == names_at(nv, positions@.subrange(0, k as int)),
        decreases positions@.len() - k,
    {
        let ghost before = r.deep_view();
        let ghost before_v = r@;
        assert(before.len() == k);
        let name = names[positions[k]].clone();
        r.push(name);
        assert(r@ == before_v.push(name));
        assert(r.deep_view() =~= names_at(nv, positions@.subrange(0, k + 1))) by {
            assert forall|t: int| 0 <= t < k + 1 implies #[trigger] r.deep_view()[t] == names_at(nv, positions@.subrange(0, k + 1))[t] by {
                if t < k {
                    assert(r@[t] == before_v[t]);
                    assert(r.deep_view()[t] == before[t]);
                    assert(names_at(nv, positions@.subrange(0, k as int))[t] == nv[positions@[t] as int]);
                } else {
                    assert(r@[t] == name);
                    assert(nv[positions@[k as int] as int] == names@[positions@[k as int] as int]@);
                }
            }
        }
        k = k + 1;
    }
    assert(positions@.subrange(0, positions@.len() as int) == positions@);
    r
}

} // verus!
