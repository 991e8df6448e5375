//! Facts about sequences that the loops of this crate lean on.

use vstd::prelude::*;

verus! {

/// Filtering one element further.
pub proof fn lemma_filter_step<A>(s: Seq<A>, f: spec_fn(A) -> bool, k: int)
    requires
        0 <= k < s.len(),
    ensures
        s.take(k + 1).filter(f) == if f(s[k]) {
            s.take(k).filter(f).push(s[k])
        } else {
            s.take(k).filter(f)
        },
{
    reveal(Seq::filter);
    assert(s.take(k + 1).drop_last() =~= s.take(k));
}

/// Filtering nothing.
pub proof fn lemma_filter_none<A>(s: Seq<A>, f: spec_fn(A) -> bool)
    ensures
        s.take(0).filter(f) == Seq::<A>::empty(),
        s.take(s.len() as int) == s,
{
    reveal(Seq::filter);
    assert(s.take(s.len() as int) =~= s);
    assert(s.take(0).filter(f) =~= Seq::empty());
}

/// A filtered sequence holds the elements that pass, and no others.
pub proof fn lemma_filter_holds<A>(s: Seq<A>, f: spec_fn(A) -> bool)
    ensures
        forall|i: int| 0 <= i < s.filter(f).len() ==> #[trigger] f(s.filter(f)[i]) && s.contains(
            s.filter(f)[i],
        ),
        forall|a: A| s.contains(a) && f(a) ==> s.filter(f).contains(a),
        s.filter(f).len() <= s.len(),
    decreases s.len(),
{
    reveal(Seq::filter);
    if s.len() > 0 {
        let init = s.drop_last();
        lemma_filter_holds(init, f);
        let kept = init.filter(f);
        assert(s.filter(f) == if f(s.last()) {
            kept.push(s.last())
        } else {
            kept
        });
        assert forall|i: int| 0 <= i < s.filter(f).len() implies #[trigger] f(s.filter(f)[i])
            && s.contains(s.filter(f)[i]) by {
            if i < kept.len() {
                assert(f(kept[i]));
                let j = choose|j: int| 0 <= j < init.len() && init[j] == kept[i];
                assert(s[j] == kept[i]);
            } else {
                assert(s[s.len() - 1] == s.last());
            }
        }
        assert forall|a: A| s.contains(a) && f(a) implies s.filter(f).contains(a) by {
            let j = choose|j: int| 0 <= j < s.len() && s[j] == a;
            if j < init.len() {
                assert(init[j] == a);
                assert(init.contains(a));
                let i = choose|i: int| 0 <= i < kept.len() && kept[i] == a;
                assert(s.filter(f)[i] == a);
            } else {
                assert(s.filter(f)[kept.len() as int] == a);
            }
        }
    }
}

/// What holds of each element and each behind it also holds in a filtered
/// sequence.
pub proof fn lemma_filter_keeps_order<A>(
    s: Seq<A>,
    f: spec_fn(A) -> bool,
    r: spec_fn(A, A) -> bool,
)
    requires
        forall|i: int, j: int| 0 <= i < j < s.len() ==> r(#[trigger] s[i], #[trigger] s[j]),
    ensures
        forall|i: int, j: int|
            0 <= i < j < s.filter(f).len() ==> r(
                #[trigger] s.filter(f)[i],
                #[trigger] s.filter(f)[j],
            ),
    decreases s.len(),
{
    reveal(Seq::filter);
    if s.len() > 0 {
        let init = s.drop_last();
        let kept = init.filter(f);
        let all = s.filter(f);
        lemma_filter_keeps_order(init, f, r);
        lemma_filter_holds(init, f);
        assert forall|i: int, j: int| 0 <= i < j < all.len() implies r(
            #[trigger] all[i],
            #[trigger] all[j],
        ) by {
            assert(all[i] == kept[i]);
            if j < kept.len() {
                assert(all[j] == kept[j]);
            } else {
                assert(f(kept[i]) && init.contains(kept[i]));
                let k = choose|k: int| 0 <= k < init.len() && init[k] == kept[i];
                assert(r(s[k], s[s.len() - 1]));
            }
        }
    }
}

} // verus!
