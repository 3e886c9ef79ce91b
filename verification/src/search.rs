use vstd::prelude::*;

verus! {

/// Every element of `s` satisfies `p`.
pub open spec fn all_satisfy<A>(s: Seq<A>, p: spec_fn(A) -> bool) -> bool {
    forall|i: int| 0 <= i < s.len() ==> #[trigger] p(s[i])
}

/// `i` is the position of the first element of `s` that fails `p`.
pub open spec fn is_first_failure<A>(s: Seq<A>, p: spec_fn(A) -> bool, i: int) -> bool {
    &&& 0 <= i < s.len()
    &&& !p(s[i])
    &&& forall|j: int| 0 <= j < i ==> #[trigger] p(s[j])
}

/// The position of the first element of `s` that fails `p`; meaningful when some element fails.
pub open spec fn first_failure<A>(s: Seq<A>, p: spec_fn(A) -> bool) -> int {
    choose|i: int| is_first_failure(s, p, i)
}

/// The first failing position is unique, so `first_failure` names it.
pub proof fn lemma_first_failure_is<A>(s: Seq<A>, p: spec_fn(A) -> bool, i: int)
    requires
        is_first_failure(s, p, i),
    ensures
        first_failure(s, p) == i,
        !all_satisfy(s, p),
{
    let k = first_failure(s, p);
    assert(is_first_failure(s, p, k));
    if k < i {
        assert(p(s[k]));
    } else if k > i {
        assert(p(s[i]));
    }
}

/// Where some element fails `p`, there is a first one, and `first_failure` names it.
pub proof fn lemma_first_failure_exists<A>(s: Seq<A>, p: spec_fn(A) -> bool, i: int)
    requires
        0 <= i < s.len(),
        !p(s[i]),
    ensures
        is_first_failure(s, p, first_failure(s, p)),
        first_failure(s, p) <= i,
    decreases i,
{
    if forall|j: int| 0 <= j < i ==> #[trigger] p(s[j]) {
        lemma_first_failure_is(s, p, i);
    } else {
        let j = choose|j: int| 0 <= j < i && !#[trigger] p(s[j]);
        lemma_first_failure_exists(s, p, j);
    }
}

} // verus!
