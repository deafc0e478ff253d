//! Facts about sequences and about the deep views of vectors that the other
//! modules share.
use vstd::prelude::*;

verus! {

/// `T::clone` hands back a value with the deep view of the value cloned.
pub open spec fn clone_is_faithful<T: Clone + DeepView>() -> bool {
    forall|a: T, b: T| #[trigger] cloned::<T>(a, b) ==> a.deep_view() == b.deep_view()
}

/// The deep view of a vector after a push is the deep view before it with the
/// pushed item's deep view at the end.
pub proof fn lemma_pushed_row<T: DeepView>(before: Vec<T>, after: Vec<T>, item: T)
    requires
        after@ == before@.push(item),
    ensures
        after.deep_view() == before.deep_view().push(item.deep_view()),
{
    assert forall|k: int| 0 <= k < after.len() implies after.deep_view()[k]
        == before.deep_view().push(item.deep_view())[k] by {
        if k < before.len() {
            assert(after[k] == before[k]);
        }
    }
    assert(after.deep_view() =~= before.deep_view().push(item.deep_view()));
}

/// A clone of a vector has the deep view of the vector cloned.
pub proof fn lemma_cloned_row<T: Clone + DeepView>(src: Vec<T>, dst: Vec<T>)
    requires
        clone_is_faithful::<T>(),
        dst.len() == src.len(),
        forall|k: int| 0 <= k < src.len() ==> cloned::<T>(#[trigger] src[k], dst[k]),
    ensures
        dst.deep_view() == src.deep_view(),
{
    assert forall|k: int| 0 <= k < src.len() implies dst.deep_view()[k] == src.deep_view()[k] by {
        assert(cloned::<T>(src[k], dst[k]));
    }
    assert(dst.deep_view() =~= src.deep_view());
}

/// The deep view of two vectors in a row is their deep views in a row.
pub proof fn lemma_deep_view_concat<T: DeepView>(a: Vec<T>, b: Vec<T>)
    ensures
        forall|c: Vec<T>| c@ == a@ + b@ ==> #[trigger] c.deep_view() == a.deep_view() + b.deep_view(),
{
    assert forall|c: Vec<T>| c@ == a@ + b@ implies #[trigger] c.deep_view() == a.deep_view()
        + b.deep_view() by {
        assert(c.deep_view() =~= a.deep_view() + b.deep_view()) by {
            assert forall|k: int| 0 <= k < c.len() implies c.deep_view()[k] == (a.deep_view()
                + b.deep_view())[k] by {
                if k < a.len() {
                    assert(c[k] == a[k]);
                } else {
                    assert(c[k] == b[k - a.len()]);
                }
            }
        }
    }
}

/// A filter keeps a sequence whole whose every item passes.
pub proof fn lemma_filter_keeps_all<A>(s: Seq<A>, keep: spec_fn(A) -> bool)
    requires
        forall|i: int| 0 <= i < s.len() ==> keep(#[trigger] s[i]),
    ensures
        s.filter(keep) == s,
    decreases s.len(),
{
    reveal(Seq::filter);
    if s.len() > 0 {
        lemma_filter_keeps_all(s.drop_last(), keep);
        assert(s.drop_last().push(s.last()) =~= s);
    }
}

/// Filtering a sequence with one more item at its end keeps that item, after
/// what it keeps of the others, exactly where the item passes.
pub proof fn lemma_filter_push<A>(s: Seq<A>, item: A, keep: spec_fn(A) -> bool)
    ensures
        s.push(item).filter(keep) == if keep(item) {
            s.filter(keep).push(item)
        } else {
            s.filter(keep)
        },
{
    reveal(Seq::filter);
    assert(s.push(item).drop_last() =~= s);
}

} // verus!
