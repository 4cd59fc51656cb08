//! Insertion sort over a prefix of an array.

use vstd::prelude::*;
use vstd::multiset::Multiset;

verus! {

/// Whether the sequence is in non-decreasing order.
pub open spec fn sorted(s: Seq<i32>) -> bool {
    forall|a: int, b: int| 0 <= a < b < s.len() ==> s[a] <= s[b]
}

/// Swapping two elements keeps the multiset of the sequence.
proof fn lemma_swap_keeps_multiset(s: Seq<i32>, a: int, b: int)
    requires
        0 <= a < s.len(),
        0 <= b < s.len(),
        a != b,
    ensures
        s.update(a, s[b]).update(b, s[a]).to_multiset() == s.to_multiset(),
{
    broadcast use vstd::seq_lib::to_multiset_update, vstd::multiset::group_multiset_axioms;
    let t = s.update(a, s[b]);
    assert(t.to_multiset() == s.to_multiset().insert(s[b]).remove(s[a]));
    assert(t[b] == s[b]);
    assert(t.update(b, s[a]).to_multiset() == t.to_multiset().insert(s[a]).remove(s[b]));
    assert(s.to_multiset().count(s[a]) > 0) by {
        vstd::seq_lib::to_multiset_contains(s, s[a]);
        assert(s.contains(s[a]));
    }
    assert(s.to_multiset().count(s[b]) > 0) by {
        vstd::seq_lib::to_multiset_contains(s, s[b]);
        assert(s.contains(s[b]));
    }
    assert(t.update(b, s[a]).to_multiset() =~= s.to_multiset());
}

/// A prefix and the rest of a sequence: when the whole keeps its multiset
/// and the rest is unchanged, so does the prefix.
proof fn lemma_prefix_multiset(s: Seq<i32>, t: Seq<i32>, n: int)
    requires
        0 <= n <= s.len(),
        s.len() == t.len(),
        s.to_multiset() == t.to_multiset(),
        s.skip(n) == t.skip(n),
    ensures
        s.take(n).to_multiset() == t.take(n).to_multiset(),
{
    broadcast use vstd::multiset::group_multiset_axioms;
    assert(s =~= s.take(n) + s.skip(n));
    assert(t =~= t.take(n) + t.skip(n));
    vstd::seq_lib::lemma_multiset_commutative(s.take(n), s.skip(n));
    vstd::seq_lib::lemma_multiset_commutative(t.take(n), t.skip(n));
    assert(s.take(n).to_multiset() =~= t.take(n).to_multiset()) by {
        assert forall|x: i32| s.take(n).to_multiset().count(x) == t.take(n).to_multiset().count(x) by {
            assert(s.to_multiset().count(x) == s.take(n).to_multiset().count(x) + s.skip(n).to_multiset().count(x));
            assert(t.to_multiset().count(x) == t.take(n).to_multiset().count(x) + t.skip(n).to_multiset().count(x));
        }
    }
}

/// Two sorted sequences with the same elements are equal.
proof fn lemma_sorted_same_elements_equal(a: Seq<i32>, b: Seq<i32>)
    requires
        sorted(a),
        sorted(b),
        a.to_multiset() == b.to_multiset(),
    ensures
        a == b,
    decreases a.len(),
{
    broadcast use vstd::multiset::group_multiset_axioms;
    vstd::seq_lib::to_multiset_len(a);
    vstd::seq_lib::to_multiset_len(b);
    if a.len() > 0 {
        let n = a.len() - 1;
        let x = a[n];
        let y = b[n];
        vstd::seq_lib::to_multiset_contains(a, y);
        vstd::seq_lib::to_multiset_contains(b, x);
        vstd::seq_lib::to_multiset_contains(a, x);
        vstd::seq_lib::to_multiset_contains(b, y);
        assert(b[n] == y);
        assert(a[n] == x);
        assert(b.contains(y));
        assert(a.contains(x));
        assert(a.contains(y));
        assert(b.contains(x));
        let i = choose|i: int| 0 <= i < a.len() && a[i] == y;
        let j = choose|j: int| 0 <= j < b.len() && b[j] == x;
        if i < n {
            assert(a[i] <= a[n]);
        }
        if j < n {
            assert(b[j] <= b[n]);
        }
        assert(x == y);
        assert(a =~= a.drop_last().push(x));
        assert(b =~= b.drop_last().push(y));
        vstd::seq_lib::to_multiset_build(a.drop_last(), x);
        vstd::seq_lib::to_multiset_build(b.drop_last(), y);
        assert(a.drop_last().to_multiset() =~= b.drop_last().to_multiset()) by {
            assert forall|e: i32| a.drop_last().to_multiset().count(e) == b.drop_last().to_multiset().count(e) by {
                assert(a.to_multiset().count(e) == b.to_multiset().count(e));
                assert(a.to_multiset() == a.drop_last().to_multiset().insert(x));
                assert(b.to_multiset() == b.drop_last().to_multiset().insert(y));
                assert(a.drop_last().to_multiset().insert(x).count(e) == a.drop_last().to_multiset().count(e) + if e == x { 1int } else { 0int });
                assert(b.drop_last().to_multiset().insert(y).count(e) == b.drop_last().to_multiset().count(e) + if e == y { 1int } else { 0int });
            }
        }
        lemma_sorted_same_elements_equal(a.drop_last(), b.drop_last());
    }
}

/// Sorting a prefix that is already sorted changes nothing: whatever meets
/// the contract of `insertion_sort` on such an input is the input itself.
pub proof fn lemma_sorting_sorted_prefix_changes_nothing(before: Seq<i32>, after: Seq<i32>, n: int)
    requires
        0 <= n <= before.len(),
        after.len() == before.len(),
        sorted(before.take(n)),
        sorted(after.take(n)),
        after.take(n).to_multiset() == before.take(n).to_multiset(),
        after.skip(n) == before.skip(n),
    ensures
        after == before,
{
    lemma_sorted_same_elements_equal(after.take(n), before.take(n));
    assert(after =~= after.take(n) + after.skip(n));
    assert(before =~= before.take(n) + before.skip(n));
}

/// Sorts the first `n` elements of `p` in non-decreasing order, moving each
/// element back past the larger elements before it. Nothing happens where
/// `n` is at most 1; the elements from `n` on are left alone.
pub fn insertion_sort(n: i32, p: &mut Vec<i32>)
    requires
        n <= 1 || n <= old(p)@.len(),
    ensures
        final(p)@.len() == old(p)@.len(),
        n <= 1 ==> final(p)@ == old(p)@,
        n > 1 ==> {
            &&& sorted(final(p)@.take(n as int))
            &&& final(p)@.take(n as int).to_multiset() == old(p)@.take(n as int).to_multiset()
            &&& final(p)@.skip(n as int) == old(p)@.skip(n as int)
        },
{
    let ghost orig = p@;
    if n <= 1 {
        return;
    }
    let len = n as usize;
    let mut i: usize = 1;
    while i < len
        invariant
            1 <= i <= len,
            len == n,
            len <= p@.len(),
            p@.len() == orig.len(),
            sorted(p@.take(i as int)),
            p@.to_multiset() == orig.to_multiset(),
            p@.skip(n as int) == orig.skip(n as int),
        decreases len - i,
    {
        let tmp = p[i];
        let ghost before = p@;
        let mut j: usize = i;
        assert(p@.update(j as int, tmp) =~= p@);
        while j > 0 && p[j - 1] > tmp
            invariant
                0 <= j <= i < len,
                len <= p@.len(),
                p@.len() == orig.len(),
                before.len() == orig.len(),
                before[i as int] == tmp,
                sorted(before.take(i as int)),
                before.to_multiset() == orig.to_multiset(),
                before.skip(n as int) == orig.skip(n as int),
                forall|k: int| 0 <= k < j ==> p@[k] == before[k],
                forall|k: int| j < k <= i ==> p@[k] == before[k - 1],
                forall|k: int| j < k <= i ==> p@[k] > tmp,
                forall|k: int| i < k < p@.len() ==> p@[k] == before[k],
                p@.update(j as int, tmp).to_multiset() == orig.to_multiset(),
            decreases j,
        {
            let prev = p[j - 1];
            let ghost q = p@.update(j as int, tmp);
            p.set(j, prev);
            proof {
                lemma_swap_keeps_multiset(q, j - 1, j as int);
                assert(q.update(j - 1, q[j as int]).update(j as int, q[j - 1]) =~= p@.update(j - 1, tmp));
            }
            j = j - 1;
        }
        p.set(j, tmp);
        proof {
            assert(p@ == before.take(j as int) + seq![tmp] + before.subrange(j as int, i as int) + before.skip(i + 1)) by {
                assert(p@ =~= before.take(j as int) + seq![tmp] + before.subrange(j as int, i as int) + before.skip(i + 1));
            }
            assert forall|a: int, b: int| 0 <= a < b < i + 1 implies #[trigger] p@.take(i + 1)[a] <= #[trigger] p@.take(i + 1)[b] by {
                if b < j {
                    assert(before.take(i as int)[a] <= before.take(i as int)[b]);
                } else if b == j {
                    if a < j {
                        assert(before.take(i as int)[a] <= before.take(i as int)[j - 1]);
                    }
                } else if a < j {
                    assert(before.take(i as int)[a] <= before.take(i as int)[b - 1]);
                } else if a > j {
                    assert(before.take(i as int)[a - 1] <= before.take(i as int)[b - 1]);
                }
            }
            assert(p@.skip(n as int) =~= orig.skip(n as int)) by {
                assert forall|k: int| 0 <= k < p@.skip(n as int).len() implies p@.skip(n as int)[k] == orig.skip(n as int)[k] by {
                    assert(before.skip(n as int)[k] == before[n + k]);
                }
            }
        }
        i = i + 1;
    }
    proof {
        lemma_prefix_multiset(p@, orig, n as int);
    }
}

} // verus!
