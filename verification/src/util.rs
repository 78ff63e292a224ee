use vstd::prelude::*;

verus! {

/// Character-by-character string comparison: decides equality of the views.
pub(crate) fn str_eq(a: &str, b: &str) -> (r: bool)
    ensures
        r == (a@ == b@),
{
    let na = a.unicode_len();
    let nb = b.unicode_len();
    if na != nb {
        return false;
    }
    let mut i: usize = 0;
    while i < na
        invariant
            na == a@.len(),
            nb == b@.len(),
            na == nb,
            0 <= i <= na,
            forall|j: int| 0 <= j < i ==> a@[j] == b@[j],
        decreases na - i,
    {
        if a.get_char(i) != b.get_char(i) {
            return false;
        }
        i += 1;
    }
    proof {
        assert(a@ =~= b@);
    }
    true
}

/// Whether one of the strings in `v` has view `x@`.
pub(crate) fn contains_str(v: &Vec<String>, x: &str) -> (r: bool)
    ensures
        r == v.deep_view().contains(x@),
{
    let mut k: usize = 0;
    while k < v.len()
        invariant
            0 <= k <= v@.len(),
            forall|j: int| 0 <= j < k ==> v.deep_view()[j] != x@,
        decreases v@.len() - k,
    {
        if str_eq(v[k].as_str(), x) {
            proof {
                assert(v.deep_view()[k as int] == x@);
            }
            return true;
        }
        proof {
            assert(v.deep_view()[k as int] == v@[k as int]@);
        }
        k += 1;
    }
    proof {
        assert(v.deep_view().len() == v@.len());
        if v.deep_view().contains(x@) {
            let j = choose|j: int| 0 <= j < v.deep_view().len() && v.deep_view()[j] == x@;
            assert(false);
        }
    }
    false
}

/// Filtering a sequence extended by one element keeps the filtered prefix and
/// appends the new element exactly when it satisfies the predicate.
pub(crate) proof fn lemma_filter_push<A>(s: Seq<A>, x: A, p: spec_fn(A) -> bool)
    ensures
        p(x) ==> s.push(x).filter(p) == s.filter(p).push(x),
        !p(x) ==> s.push(x).filter(p) == s.filter(p),
{
    reveal(Seq::filter);
    assert(s.push(x).drop_last() =~= s);
    assert(s.push(x).last() == x);
}

} // verus!
