//! Facts about filtered and mapped sequences.
use vstd::prelude::*;

verus! {

/// Filtering one element more.
pub proof fn lemma_filter_step<A>(s: Seq<A>, keep: spec_fn(A) -> bool, i: int)
    requires
        0 <= i < s.len(),
    ensures
        s.take(i + 1).filter(keep) == (if keep(s[i]) {
            s.take(i).filter(keep).push(s[i])
        } else {
            s.take(i).filter(keep)
        }),
{
    reveal(Seq::filter);
    assert(s.take(i + 1).drop_last() =~= s.take(i));
    assert(s.take(i + 1).last() == s[i]);
}

/// What is left after filtering was there before and is wanted.
pub proof fn lemma_filter_members<A>(s: Seq<A>, keep: spec_fn(A) -> bool)
    ensures
        forall|x: A| #[trigger]
            s.filter(keep).contains(x) <==> s.contains(x) && keep(x),
        s.filter(keep).len() <= s.len(),
    decreases s.len(),
{
    reveal(Seq::filter);
    if s.len() > 0 {
        let rest = s.drop_last();
        lemma_filter_members(rest, keep);
        assert forall|x: A| #[trigger]
            s.filter(keep).contains(x) <==> s.contains(x) && keep(x) by {
            let kept = rest.filter(keep);
            assert(kept.contains(x) <==> rest.contains(x) && keep(x));
            if s.contains(x) {
                let i = s.index_of(x);
                if i < rest.len() {
                    assert(rest[i] == x);
                }
            }
            if rest.contains(x) {
                let i = rest.index_of(x);
                assert(s[i] == x);
            }
            assert(s[s.len() - 1] == s.last());
            if keep(s.last()) {
                let pushed = kept.push(s.last());
                if pushed.contains(x) {
                    let i = pushed.index_of(x);
                    if i < kept.len() {
                        assert(kept[i] == x);
                    }
                }
                if kept.contains(x) {
                    let i = kept.index_of(x);
                    assert(pushed[i] == x);
                }
                assert(pushed[kept.len() as int] == s.last());
            }
        }
    }
}

/// Whether no two elements have the same key.
pub open spec fn distinct_by<A, K>(s: Seq<A>, key: spec_fn(A) -> K) -> bool {
    forall|i: int, j: int|
        0 <= i < j < s.len() ==> key(#[trigger] s[i]) != key(#[trigger] s[j])
}

/// Filtering keeps keys distinct.
pub proof fn lemma_filter_distinct<A, K>(
    s: Seq<A>,
    keep: spec_fn(A) -> bool,
    key: spec_fn(A) -> K,
)
    requires
        distinct_by(s, key),
    ensures
        distinct_by(s.filter(keep), key),
    decreases s.len(),
{
    reveal(Seq::filter);
    if s.len() > 0 {
        let rest = s.drop_last();
        let kept = rest.filter(keep);
        lemma_filter_distinct(rest, keep, key);
        lemma_filter_members(rest, keep);
        if keep(s.last()) {
            let all = kept.push(s.last());
            assert forall|i: int, j: int| 0 <= i < j < all.len() implies key(#[trigger] all[i])
                != key(#[trigger] all[j]) by {
                if j == kept.len() {
                    assert(kept.contains(kept[i]));
                    let k = rest.index_of(kept[i]);
                    assert(s[k] == all[i]);
                    assert(s[s.len() - 1] == all[j]);
                } else {
                    assert(kept[i] == all[i] && kept[j] == all[j]);
                }
            }
        }
    }
}

/// A new key keeps keys distinct.
pub proof fn lemma_push_distinct<A, K>(s: Seq<A>, x: A, key: spec_fn(A) -> K)
    requires
        distinct_by(s, key),
        forall|i: int| 0 <= i < s.len() ==> key(#[trigger] s[i]) != key(x),
    ensures
        distinct_by(s.push(x), key),
{
    let all = s.push(x);
    assert forall|i: int, j: int| 0 <= i < j < all.len() implies key(#[trigger] all[i]) != key(
        #[trigger] all[j],
    ) by {
        assert(all[i] == s[i]);
        if j < s.len() {
            assert(all[j] == s[j]);
        }
    }
}

} // verus!
