use vstd::prelude::*;

verus! {

/// Filtering keeps any relation that held between every earlier and later element.
pub proof fn lemma_filter_pairwise<A>(s: Seq<A>, p: spec_fn(A) -> bool, r: spec_fn(A, A) -> bool)
    requires
        forall|i: int, j: int| #![trigger s[i], s[j]] 0 <= i < j < s.len() ==> r(s[i], s[j]),
    ensures
        forall|a: int, b: int|
            #![trigger s.filter(p)[a], s.filter(p)[b]]
            0 <= a < b < s.filter(p).len() ==> r(s.filter(p)[a], s.filter(p)[b]),
    decreases s.len(),
{
    reveal(Seq::filter);
    if s.len() > 0 {
        let rest = s.drop_last();
        assert forall|i: int, j: int| #![trigger rest[i], rest[j]] 0 <= i < j < rest.len() implies r(
            rest[i],
            rest[j],
        ) by {
            assert(rest[i] == s[i] && rest[j] == s[j]);
        }
        lemma_filter_pairwise(rest, p, r);
        let fr = rest.filter(p);
        if p(s.last()) {
            assert(s.filter(p) == fr.push(s.last()));
            assert forall|a: int, b: int|
                #![trigger s.filter(p)[a], s.filter(p)[b]]
                0 <= a < b < s.filter(p).len() implies r(s.filter(p)[a], s.filter(p)[b]) by {
                if b == fr.len() {
                    let x = fr[a];
                    assert(fr.contains(x));
                    rest.lemma_filter_contains_rev(p, x);
                    let k = choose|k: int| 0 <= k < rest.len() && rest[k] == x;
                    assert(s[k] == x);
                    assert(s[s.len() - 1] == s.last());
                    assert(r(s[k], s[s.len() - 1]));
                }
            }
        } else {
            assert(s.filter(p) == fr);
        }
    }
}

/// Every element that a filter keeps was in the sequence.
pub proof fn lemma_filter_member<A>(s: Seq<A>, p: spec_fn(A) -> bool, a: int)
    requires
        0 <= a < s.filter(p).len(),
    ensures
        exists|k: int| 0 <= k < s.len() && s[k] == s.filter(p)[a],
        p(s.filter(p)[a]),
{
    broadcast use vstd::seq_lib::group_filter_ensures;

    let x = s.filter(p)[a];
    assert(s.filter(p).contains(x));
    s.lemma_filter_contains_rev(p, x);
}

/// A filter that every element passes keeps the whole sequence.
pub proof fn lemma_filter_keeps_all<A>(s: Seq<A>, p: spec_fn(A) -> bool)
    requires
        forall|i: int| 0 <= i < s.len() ==> p(#[trigger] s[i]),
    ensures
        s.filter(p) == s,
    decreases s.len(),
{
    reveal(Seq::filter);
    if s.len() > 0 {
        let rest = s.drop_last();
        assert forall|i: int| 0 <= i < rest.len() implies p(#[trigger] rest[i]) by {
            assert(rest[i] == s[i]);
        }
        lemma_filter_keeps_all(rest, p);
        assert(p(s[s.len() - 1]));
        assert(rest.push(s.last()) =~= s);
    }
}

} // verus!
