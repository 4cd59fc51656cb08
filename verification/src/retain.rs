//! Keeping the marked elements of a sequence, in order.

use vstd::prelude::*;

verus! {

/// The elements of `items` whose mark in `keep` is set, in their order.
pub open spec fn kept_items<T>(items: Seq<T>, keep: Seq<bool>) -> Seq<T>
    decreases items.len(),
{
    if items.len() == 0 {
        Seq::empty()
    } else {
        let rest = kept_items(items.drop_last(), keep.take(items.len() - 1));
        if keep[items.len() - 1] {
            rest.push(items.last())
        } else {
            rest
        }
    }
}

/// Extending both sequences by one element extends the kept elements by that
/// element exactly when its mark is set.
pub proof fn lemma_kept_items_step<T>(items: Seq<T>, keep: Seq<bool>, i: int)
    requires
        0 <= i < items.len(),
        items.len() <= keep.len(),
    ensures
        kept_items(items.take(i + 1), keep.take(i + 1)) == if keep[i] {
            kept_items(items.take(i), keep.take(i)).push(items[i])
        } else {
            kept_items(items.take(i), keep.take(i))
        },
{
    assert(items.take(i + 1).drop_last() =~= items.take(i));
    assert(keep.take(i + 1).take(i) =~= keep.take(i));
}

/// Only the marks of the first `items.len()` positions matter.
pub proof fn lemma_kept_items_marks_prefix<T>(items: Seq<T>, keep: Seq<bool>)
    requires
        items.len() <= keep.len(),
    ensures
        kept_items(items, keep) == kept_items(items, keep.take(items.len() as int)),
    decreases items.len(),
{
    if items.len() > 0 {
        assert(keep.take(items.len() as int).take(items.len() - 1) =~= keep.take(items.len() - 1));
    }
}

/// Every element kept is an element of the input whose mark is set.
pub proof fn lemma_kept_items_from_marked<T>(items: Seq<T>, keep: Seq<bool>, k: int)
    requires
        items.len() <= keep.len(),
        0 <= k < kept_items(items, keep).len(),
    ensures
        exists|i: int| 0 <= i < items.len() && keep[i] && items[i] == kept_items(items, keep)[k],
    decreases items.len(),
{
    let n = items.len() as int;
    let rest = kept_items(items.drop_last(), keep.take(n - 1));
    lemma_kept_items_marks_prefix(items.drop_last(), keep);
    assert(keep.take(n - 1).take(n - 1) =~= keep.take(n - 1));
    if keep[n - 1] && k == rest.len() {
        assert(items[n - 1] == kept_items(items, keep)[k]);
    } else {
        lemma_kept_items_from_marked(items.drop_last(), keep, k);
        let i = choose|i: int| 0 <= i < n - 1 && keep[i] && items.drop_last()[i] == rest[k];
        assert(items[i] == kept_items(items, keep)[k]);
    }
}

/// The elements of `items` whose mark in `keep` is set, in their order.
pub fn retain_marked<T>(items: Vec<T>, keep: &Vec<bool>) -> (r: Vec<T>)
    requires
        items@.len() == keep@.len(),
    ensures
        r@ == kept_items(items@, keep@),
{
    let ghost input = items@;
    let n = items.len();
    let mut items = items;
    let mut reversed: Vec<T> = Vec::new();
    while items.len() > 0
        invariant
            n == input.len(),
            items@.len() + reversed@.len() == n,
            items@ == input.take(items@.len() as int),
            forall|j: int| 0 <= j < reversed@.len() ==> reversed@[j] == input[n - 1 - j],
        decreases items@.len(),
    {
        let x = items.pop().unwrap();
        reversed.push(x);
        assert(items@ =~= input.take(items@.len() as int));
    }
    let mut out: Vec<T> = Vec::new();
    let mut i: usize = 0;
    assert(input.take(0) =~= Seq::<T>::empty());
    while reversed.len() > 0
        invariant
            n == input.len(),
            n == keep@.len(),
            i + reversed@.len() == n,
            forall|j: int| 0 <= j < reversed@.len() ==> reversed@[j] == input[n - 1 - j],
            out@ == kept_items(input.take(i as int), keep@.take(i as int)),
        decreases reversed@.len(),
    {
        let x = reversed.pop().unwrap();
        proof {
            lemma_kept_items_step(input, keep@, i as int);
        }
        if keep[i] {
            out.push(x);
        }
        i = i + 1;
    }
    assert(input.take(n as int) =~= input);
    assert(keep@.take(n as int) =~= keep@);
    out
}

} // verus!
