//! Lookup and comparison of named extra values.

use vstd::prelude::*;
use crate::model::{extra_lookup, extras_view, same_extras, ExtraData, ExtraValue};

verus! {

/// A name has a value exactly when some entry carries that name.
pub proof fn lemma_lookup_some(s: Seq<(Seq<char>, ExtraValue)>, k: Seq<char>)
    ensures
        extra_lookup(s, k) is Some <==> exists|i: int| 0 <= i < s.len() && (#[trigger] s[i]).0 == k,
    decreases s.len(),
{
    if s.len() > 0 {
        lemma_lookup_some(s.drop_first(), k);
        if extra_lookup(s.drop_first(), k) is Some {
            let i = choose|i: int| 0 <= i < s.drop_first().len() && (#[trigger] s.drop_first()[i]).0 == k;
            assert(s[i + 1].0 == k);
        }
        if exists|i: int| 0 <= i < s.len() && (#[trigger] s[i]).0 == k {
            let i = choose|i: int| 0 <= i < s.len() && (#[trigger] s[i]).0 == k;
            if i > 0 {
                assert(s.drop_first()[i - 1].0 == k);
            }
        }
    }
}

/// Equality of two extra values.
pub fn extra_eq(a: &ExtraData, b: &ExtraData) -> (r: bool)
    ensures
        r == (a@ == b@),
{
    match (a, b) {
        (ExtraData::Int(x), ExtraData::Int(y)) => *x == *y,
        (ExtraData::String(x), ExtraData::String(y)) => *x == *y,
        (ExtraData::Bool(x), ExtraData::Bool(y)) => *x == *y,
        _ => false,
    }
}

/// The value of the first entry named `k`.
pub fn lookup_extra<'a>(v: &'a Vec<(String, ExtraData)>, k: &String) -> (r: Option<&'a ExtraData>)
    ensures
        match r {
            Some(e) => extra_lookup(extras_view(v@), k@) == Some(e@),
            None => extra_lookup(extras_view(v@), k@) is None,
        },
{
    let ghost whole = extras_view(v@);
    assert(whole.subrange(0, whole.len() as int) =~= whole);
    let mut i: usize = 0;
    while i < v.len()
        invariant
            i <= v@.len(),
            whole == extras_view(v@),
            extra_lookup(whole, k@) == extra_lookup(whole.subrange(i as int, whole.len() as int), k@),
        decreases v@.len() - i,
    {
        let ghost rest = whole.subrange(i as int, whole.len() as int);
        if v[i].0 == *k {
            assert(rest[0] == whole[i as int]);
            return Some(&v[i].1);
        }
        assert(rest.drop_first() =~= whole.subrange(i + 1, whole.len() as int));
        i = i + 1;
    }
    None
}

fn same_option(a: Option<&ExtraData>, b: Option<&ExtraData>) -> (r: bool)
    ensures
        r == (match (a, b) {
            (Some(x), Some(y)) => x@ == y@,
            (None, None) => true,
            _ => false,
        }),
{
    match (a, b) {
        (Some(x), Some(y)) => extra_eq(x, y),
        (None, None) => true,
        _ => false,
    }
}

fn covered_by(a: &Vec<(String, ExtraData)>, b: &Vec<(String, ExtraData)>) -> (r: bool)
    ensures
        r == forall|i: int|
            0 <= i < a@.len() ==> extra_lookup(extras_view(a@), #[trigger] a@[i].0@) == extra_lookup(
                extras_view(b@),
                a@[i].0@,
            ),
{
    let mut i: usize = 0;
    while i < a.len()
        invariant
            i <= a@.len(),
            forall|j: int|
                0 <= j < i ==> extra_lookup(extras_view(a@), #[trigger] a@[j].0@) == extra_lookup(
                    extras_view(b@),
                    a@[j].0@,
                ),
        decreases a@.len() - i,
    {
        let x = lookup_extra(a, &a[i].0);
        let y = lookup_extra(b, &a[i].0);
        if !same_option(x, y) {
            return false;
        }
        i = i + 1;
    }
    true
}

/// Whether two lists of extra values name the same values.
pub fn extras_equal(a: &Vec<(String, ExtraData)>, b: &Vec<(String, ExtraData)>) -> (r: bool)
    ensures
        r == same_extras(extras_view(a@), extras_view(b@)),
{
    let ab = covered_by(a, b);
    let ba = covered_by(b, a);
    let ghost va = extras_view(a@);
    let ghost vb = extras_view(b@);
    proof {
        if ab && ba {
            assert forall|k: Seq<char>| #[trigger] extra_lookup(va, k) == extra_lookup(vb, k) by {
                lemma_lookup_some(va, k);
                lemma_lookup_some(vb, k);
                if extra_lookup(va, k) is Some {
                    let i = choose|i: int| 0 <= i < va.len() && (#[trigger] va[i]).0 == k;
                    assert(a@[i].0@ == k);
                } else if extra_lookup(vb, k) is Some {
                    let i = choose|i: int| 0 <= i < vb.len() && (#[trigger] vb[i]).0 == k;
                    assert(b@[i].0@ == k);
                }
            }
        }
        if !ab {
            let i = choose|i: int|
                0 <= i < a@.len() && extra_lookup(va, #[trigger] a@[i].0@) != extra_lookup(vb, a@[i].0@);
        }
        if !ba {
            let i = choose|i: int|
                0 <= i < b@.len() && extra_lookup(vb, #[trigger] b@[i].0@) != extra_lookup(va, b@[i].0@);
        }
    }
    ab && ba
}

} // verus!
