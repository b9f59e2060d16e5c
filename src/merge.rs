//! Merging two adjacent sorted runs: the model and its laws.
use crate::order::{key_class, leq, lemma_total_order, same_key, sorted, total_order};
use vstd::multiset::Multiset;
use vstd::prelude::*;
use vstd::std_specs::cmp::OrdSpec;

verus! {

/// The stable merge of `a` and `b`: on equal keys the element of `a` comes first.
pub open spec fn merge_seqs<T: Ord>(a: Seq<T>, b: Seq<T>) -> Seq<T>
    decreases a.len() + b.len(),
{
    if a.len() == 0 {
        b
    } else if b.len() == 0 {
        a
    } else if leq(a[0], b[0]) {
        seq![a[0]] + merge_seqs(a.drop_first(), b)
    } else {
        seq![b[0]] + merge_seqs(a, b.drop_first())
    }
}

/// Every element of `s` is at least `p`.
pub open spec fn bounded_below<T: Ord>(s: Seq<T>, p: T) -> bool {
    forall|i: int| 0 <= i < s.len() ==> leq(p, #[trigger] s[i])
}

pub proof fn lemma_merge_len<T: Ord>(a: Seq<T>, b: Seq<T>)
    ensures
        merge_seqs(a, b).len() == a.len() + b.len(),
    decreases a.len() + b.len(),
{
    if a.len() != 0 && b.len() != 0 {
        if leq(a[0], b[0]) {
            lemma_merge_len(a.drop_first(), b);
        } else {
            lemma_merge_len(a, b.drop_first());
        }
    }
}

pub proof fn lemma_merge_multiset<T: Ord>(a: Seq<T>, b: Seq<T>)
    ensures
        merge_seqs(a, b).to_multiset() == a.to_multiset().add(b.to_multiset()),
    decreases a.len() + b.len(),
{
    broadcast use vstd::seq_lib::group_to_multiset_ensures;

    if a.len() == 0 {
        assert(a.to_multiset() =~= Multiset::empty());
        assert(a.to_multiset().add(b.to_multiset()) =~= b.to_multiset());
    } else if b.len() == 0 {
        assert(b.to_multiset() =~= Multiset::empty());
        assert(a.to_multiset().add(b.to_multiset()) =~= a.to_multiset());
    } else if leq(a[0], b[0]) {
        lemma_merge_multiset(a.drop_first(), b);
        let m = merge_seqs(a.drop_first(), b);
        vstd::seq_lib::lemma_multiset_commutative(seq![a[0]], m);
        vstd::seq_lib::lemma_multiset_commutative(seq![a[0]], a.drop_first());
        assert(seq![a[0]] + a.drop_first() =~= a);
        assert(seq![a[0]].to_multiset() =~= Multiset::singleton(a[0])) by {
            assert(seq![a[0]] =~= Seq::<T>::empty().push(a[0]));
        }
        assert(merge_seqs(a, b).to_multiset() =~= a.to_multiset().add(b.to_multiset()));
    } else {
        lemma_merge_multiset(a, b.drop_first());
        let m = merge_seqs(a, b.drop_first());
        vstd::seq_lib::lemma_multiset_commutative(seq![b[0]], m);
        vstd::seq_lib::lemma_multiset_commutative(seq![b[0]], b.drop_first());
        assert(seq![b[0]] + b.drop_first() =~= b);
        assert(seq![b[0]].to_multiset() =~= Multiset::singleton(b[0])) by {
            assert(seq![b[0]] =~= Seq::<T>::empty().push(b[0]));
        }
        assert(merge_seqs(a, b).to_multiset() =~= a.to_multiset().add(b.to_multiset()));
    }
}

pub proof fn lemma_merge_bounded_below<T: Ord>(a: Seq<T>, b: Seq<T>, p: T)
    requires
        bounded_below(a, p),
        bounded_below(b, p),
    ensures
        bounded_below(merge_seqs(a, b), p),
    decreases a.len() + b.len(),
{
    if a.len() != 0 && b.len() != 0 {
        if leq(a[0], b[0]) {
            lemma_merge_bounded_below(a.drop_first(), b, p);
            let m = merge_seqs(a.drop_first(), b);
            assert forall|i: int| 0 <= i < merge_seqs(a, b).len() implies leq(
                p,
                #[trigger] merge_seqs(a, b)[i],
            ) by {
                if i > 0 {
                    assert(merge_seqs(a, b)[i] == m[i - 1]);
                }
            }
        } else {
            lemma_merge_bounded_below(a, b.drop_first(), p);
            let m = merge_seqs(a, b.drop_first());
            assert forall|i: int| 0 <= i < merge_seqs(a, b).len() implies leq(
                p,
                #[trigger] merge_seqs(a, b)[i],
            ) by {
                if i > 0 {
                    assert(merge_seqs(a, b)[i] == m[i - 1]);
                }
            }
        }
    }
}

/// The merge of two sorted runs is sorted.
pub proof fn lemma_merge_sorted<T: Ord>(a: Seq<T>, b: Seq<T>)
    requires
        total_order::<T>(),
        sorted(a),
        sorted(b),
    ensures
        sorted(merge_seqs(a, b)),
    decreases a.len() + b.len(),
{
    lemma_total_order::<T>();
    if a.len() != 0 && b.len() != 0 {
        let (h, a2, b2) = if leq(a[0], b[0]) {
            (a[0], a.drop_first(), b)
        } else {
            (b[0], a, b.drop_first())
        };
        lemma_merge_sorted(a2, b2);
        assert(bounded_below(a2, h)) by {
            assert forall|i: int| 0 <= i < a2.len() implies leq(h, #[trigger] a2[i]) by {
                if leq(a[0], b[0]) {
                    assert(a2[i] == a[i + 1]);
                } else {
                    assert(leq(a[0], a[i]));
                }
            }
        }
        assert(bounded_below(b2, h)) by {
            assert forall|i: int| 0 <= i < b2.len() implies leq(h, #[trigger] b2[i]) by {
                if leq(a[0], b[0]) {
                    assert(leq(b[0], b[i]));
                } else {
                    assert(b2[i] == b[i + 1]);
                }
            }
        }
        lemma_merge_bounded_below(a2, b2, h);
        let m = merge_seqs(a2, b2);
        assert(merge_seqs(a, b) == seq![h] + m);
        assert forall|i: int, j: int| 0 <= i < j < merge_seqs(a, b).len() implies leq(
            #[trigger] merge_seqs(a, b)[i],
            #[trigger] merge_seqs(a, b)[j],
        ) by {
            assert(merge_seqs(a, b)[j] == m[j - 1]);
            if i > 0 {
                assert(merge_seqs(a, b)[i] == m[i - 1]);
            }
        }
    }
}

/// Runs already in relative order merge to their concatenation.
pub proof fn lemma_merge_in_order<T: Ord>(a: Seq<T>, b: Seq<T>)
    requires
        total_order::<T>(),
        sorted(a),
        a.len() > 0,
        b.len() > 0,
        leq(a.last(), b[0]),
    ensures
        merge_seqs(a, b) == a + b,
    decreases a.len(),
{
    lemma_total_order::<T>();
    if a.len() > 1 {
        assert(leq(a[0], a.last()));
    }
    assert(leq(a[0], b[0]));
    if a.len() == 1 {
        assert(a.drop_first() =~= Seq::<T>::empty());
        assert(merge_seqs(a.drop_first(), b) == b);
        assert(merge_seqs(a, b) == seq![a[0]] + b);
        assert(merge_seqs(a, b) =~= a + b);
    } else {
        let a2 = a.drop_first();
        assert(a2.len() > 0);
        assert(a2.last() == a.last());
        lemma_merge_in_order(a2, b);
        assert(merge_seqs(a, b) =~= a + b);
    }
}

pub proof fn lemma_filter_singleton<T>(x: T, pred: spec_fn(T) -> bool)
    ensures
        seq![x].filter(pred) == (if pred(x) {
            seq![x]
        } else {
            Seq::<T>::empty()
        }),
{
    reveal_with_fuel(Seq::filter, 2);
    assert(seq![x].drop_last() =~= Seq::<T>::empty());
    assert(Seq::<T>::empty().push(x) =~= seq![x]);
}

pub proof fn lemma_filter_none<T>(s: Seq<T>, pred: spec_fn(T) -> bool)
    requires
        forall|i: int| 0 <= i < s.len() ==> !pred(#[trigger] s[i]),
    ensures
        s.filter(pred) == Seq::<T>::empty(),
    decreases s.len(),
{
    reveal(Seq::filter);
    if s.len() > 0 {
        lemma_filter_none(s.drop_last(), pred);
    }
    assert(s.filter(pred) =~= Seq::<T>::empty());
}

/// Merging keeps, for each key, the elements of `a` before those of `b`.
pub proof fn lemma_merge_stable<T: Ord>(a: Seq<T>, b: Seq<T>, x: T)
    requires
        total_order::<T>(),
        sorted(a),
    ensures
        key_class(merge_seqs(a, b), x) == key_class(a, x) + key_class(b, x),
    decreases a.len() + b.len(),
{
    lemma_total_order::<T>();
    let pred = |y: T| same_key(y, x);
    if a.len() == 0 {
        assert(a.filter(pred) =~= Seq::<T>::empty()) by {
            lemma_filter_none(a, pred);
        }
        assert(key_class(b, x) =~= key_class(a, x) + key_class(b, x));
    } else if b.len() == 0 {
        assert(b.filter(pred) =~= Seq::<T>::empty()) by {
            lemma_filter_none(b, pred);
        }
        assert(key_class(a, x) =~= key_class(a, x) + key_class(b, x));
    } else if leq(a[0], b[0]) {
        let a2 = a.drop_first();
        lemma_merge_stable(a2, b, x);
        let m = merge_seqs(a2, b);
        Seq::filter_distributes_over_add(seq![a[0]], m, pred);
        Seq::filter_distributes_over_add(seq![a[0]], a2, pred);
        assert(seq![a[0]] + a2 =~= a);
        lemma_filter_singleton(a[0], pred);
        assert(key_class(merge_seqs(a, b), x) =~= key_class(a, x) + key_class(b, x));
    } else {
        let b2 = b.drop_first();
        lemma_merge_stable(a, b2, x);
        let m = merge_seqs(a, b2);
        Seq::filter_distributes_over_add(seq![b[0]], m, pred);
        Seq::filter_distributes_over_add(seq![b[0]], b2, pred);
        assert(seq![b[0]] + b2 =~= b);
        lemma_filter_singleton(b[0], pred);
        if same_key(b[0], x) {
            assert forall|i: int| 0 <= i < a.len() implies !pred(#[trigger] a[i]) by {
                assert(leq(a[0], a[i]));
                if same_key(a[i], x) {
                    assert(same_key(x, b[0]));
                    assert(same_key(a[i], b[0]));
                }
            }
            lemma_filter_none(a, pred);
        }
        assert(key_class(merge_seqs(a, b), x) =~= key_class(a, x) + key_class(b, x));
    }
}


/// The values held by a run of slots.
pub open spec fn vals<T>(s: Seq<Option<T>>) -> Seq<T> {
    s.map_values(|o: Option<T>| o.unwrap())
}

/// Every slot of `s` holds a value.
pub open spec fn all_some<T>(s: Seq<Option<T>>) -> bool {
    forall|i: int| 0 <= i < s.len() ==> #[trigger] s[i] is Some
}

/// Every slot of `s` is empty.
pub open spec fn all_none<T>(s: Seq<Option<T>>) -> bool {
    forall|i: int| 0 <= i < s.len() ==> #[trigger] s[i] is None
}

/// One step of a merge: which element comes out first, and what is left to merge.
proof fn lemma_merge_step<T: Ord>(a: Seq<T>, b: Seq<T>)
    requires
        a.len() > 0 || b.len() > 0,
    ensures
        (b.len() == 0 || (a.len() > 0 && leq(a[0], b[0]))) ==> merge_seqs(a, b)[0] == a[0]
            && merge_seqs(a, b).skip(1) == merge_seqs(a.skip(1), b),
        !(b.len() == 0 || (a.len() > 0 && leq(a[0], b[0]))) ==> merge_seqs(a, b)[0] == b[0]
            && merge_seqs(a, b).skip(1) == merge_seqs(a, b.skip(1)),
{
    assert(a.drop_first() =~= a.skip(1));
    assert(b.drop_first() =~= b.skip(1));
    if b.len() == 0 {
        if a.len() > 1 {
            lemma_merge_len(a.skip(1), b);
        }
        assert(merge_seqs(a.skip(1), b) == a.skip(1)) by {
            if a.skip(1).len() > 0 {
            }
        }
        assert(merge_seqs(a, b).skip(1) =~= merge_seqs(a.skip(1), b));
    } else if a.len() == 0 {
        assert(merge_seqs(a, b.skip(1)) == b.skip(1));
        assert(merge_seqs(a, b).skip(1) =~= merge_seqs(a, b.skip(1)));
    } else if leq(a[0], b[0]) {
        assert(merge_seqs(a, b).skip(1) =~= merge_seqs(a.skip(1), b));
    } else {
        assert(merge_seqs(a, b).skip(1) =~= merge_seqs(a, b.skip(1)));
    }
}

/// Whether the run ending at `mid` may stand unmerged before the run starting there.
fn is_sorted<T: Ord>(arr: &[Option<T>], mid: usize) -> (r: bool)
    requires
        total_order::<T>(),
        0 < mid < arr@.len(),
        arr@[mid - 1] is Some,
        arr@[mid as int] is Some,
    ensures
        r == leq(arr@[mid - 1].unwrap(), arr@[mid as int].unwrap()),
{
    proof {
        lemma_total_order::<T>();
    }
    match (&arr[mid - 1], &arr[mid]) {
        (Some(x), Some(y)) => x.le(y),
        _ => true,
    }
}

/// Merges the sorted runs `arr[lo..mid]` and `arr[mid..hi]` into `arr[lo..hi]`, moving the first
/// run out to `buf[blo..]` and back; `buf` ends as it began.
fn merge_halves<T: Ord>(
    arr: &mut [Option<T>],
    lo: usize,
    mid: usize,
    hi: usize,
    buf: &mut [Option<T>],
    blo: usize,
)
    requires
        total_order::<T>(),
        lo < mid < hi <= old(arr)@.len(),
        blo + (mid - lo) <= old(buf)@.len(),
        all_some(old(arr)@.subrange(lo as int, hi as int)),
        all_none(old(buf)@.subrange(blo as int, blo + (mid - lo))),
    ensures
        final(arr)@.len() == old(arr)@.len(),
        forall|k: int|
            0 <= k < old(arr)@.len() && !(lo <= k < hi) ==> #[trigger] final(arr)@[k] == old(
                arr,
            )@[k],
        all_some(final(arr)@.subrange(lo as int, hi as int)),
        vals(final(arr)@.subrange(lo as int, hi as int)) == merge_seqs(
            vals(old(arr)@.subrange(lo as int, mid as int)),
            vals(old(arr)@.subrange(mid as int, hi as int)),
        ),
        final(buf)@ == old(buf)@,
{
    let ghost arr0 = arr@;
    let ghost buf0 = buf@;
    let ghost a = vals(arr0.subrange(lo as int, mid as int));
    let ghost b = vals(arr0.subrange(mid as int, hi as int));
    let ghost m = merge_seqs(a, b);
    proof {
        lemma_merge_len(a, b);
        assert forall|k: int| lo <= k < hi implies #[trigger] arr0[k] is Some by {
            assert(arr0.subrange(lo as int, hi as int)[k - lo] is Some);
        }
        assert forall|k: int| blo <= k < blo + (mid - lo) implies #[trigger] buf0[k] is None by {
            assert(buf0.subrange(blo as int, blo + (mid - lo))[k - blo] is None);
        }
    }
    let half: usize = mid - lo;
    let blen = buf.len();
    let mut i: usize = 0;
    while i < half
        invariant
            total_order::<T>(),
            lo < mid < hi <= arr0.len(),
            half == mid - lo,
            blo + half <= buf0.len(),
            buf0.len() == blen,
            0 <= i <= half,
            arr@.len() == arr0.len(),
            buf@.len() == buf0.len(),
            forall|k: int| 0 <= k < arr0.len() && !(lo <= k < lo + i) ==> #[trigger] arr@[k] == arr0[k],
            forall|k: int| 0 <= k < buf0.len() && !(blo <= k < blo + i) ==> #[trigger] buf@[k] == buf0[k],
            forall|k: int| blo <= k < blo + i ==> #[trigger] buf@[k] == arr0[lo + k - blo],
        decreases half - i,
    {
        let x = arr[lo + i].take();
        buf[blo + i] = x;
        i = i + 1;
    }
    let mut f: usize = 0;
    let mut s: usize = mid;
    let mut out: usize = lo;
    proof {
        assert(m.skip(0) =~= m);
        assert(a.skip(0) =~= a);
        assert(b.skip(0) =~= b);
    }
    while f < half
        invariant
            total_order::<T>(),
            lo < mid < hi <= arr0.len(),
            half == mid - lo,
            blo + half <= buf0.len(),
            buf0.len() == blen,
            a == vals(arr0.subrange(lo as int, mid as int)),
            b == vals(arr0.subrange(mid as int, hi as int)),
            m == merge_seqs(a, b),
            m.len() == hi - lo,
            forall|k: int| lo <= k < hi ==> #[trigger] arr0[k] is Some,
            forall|k: int| blo <= k < blo + half ==> #[trigger] buf0[k] is None,
            0 <= f <= half,
            mid <= s <= hi,
            out == lo + f + (s - mid),
            arr@.len() == arr0.len(),
            buf@.len() == buf0.len(),
            forall|k: int| 0 <= k < arr0.len() && !(lo <= k < hi) ==> #[trigger] arr@[k] == arr0[k],
            forall|k: int| s <= k < hi ==> #[trigger] arr@[k] == arr0[k],
            forall|k: int| lo <= k < out ==> #[trigger] arr@[k] == Some(m[k - lo]),
            forall|k: int|
                0 <= k < buf0.len() && !(blo + f <= k < blo + half) ==> #[trigger] buf@[k]
                    == buf0[k],
            forall|k: int| blo + f <= k < blo + half ==> #[trigger] buf@[k] == arr0[lo + k - blo],
            m.skip(out - lo) == merge_seqs(a.skip(f as int), b.skip(s - mid)),
        decreases (half - f) + (hi - s),
    {
        let ghost a2 = a.skip(f as int);
        let ghost b2 = b.skip(s - mid);
        proof {
            lemma_total_order::<T>();
            assert(a2[0] == a[f as int]);
            assert(a[f as int] == arr0[lo + f].unwrap());
            assert(arr0.subrange(lo as int, mid as int)[f as int] == arr0[lo + f]);
            assert(buf@[blo + f] == arr0[lo + f]);
            if s < hi {
                assert(b2[0] == b[s - mid]);
                assert(b[s - mid] == arr0[s as int].unwrap());
                assert(arr0.subrange(mid as int, hi as int)[s - mid] == arr0[s as int]);
            }
            lemma_merge_step(a2, b2);
        }
        let second_first = if s < hi {
            match (&buf[blo + f], &arr[s]) {
                (Some(x), Some(y)) => !x.le(y),
                _ => false,
            }
        } else {
            false
        };
        if second_first {
            let x = arr[s].take();
            arr[out] = x;
            s = s + 1;
            proof {
                assert(b2.skip(1) =~= b.skip(s - mid));
                assert(m.skip(out - lo)[0] == m[out - lo]);
                assert(m.skip(out + 1 - lo) =~= m.skip(out - lo).skip(1));
            }
        } else {
            let x = buf[blo + f].take();
            arr[out] = x;
            f = f + 1;
            proof {
                assert(a2.skip(1) =~= a.skip(f as int));
                assert(m.skip(out - lo)[0] == m[out - lo]);
                assert(m.skip(out + 1 - lo) =~= m.skip(out - lo).skip(1));
            }
        }
        out = out + 1;
    }
    proof {
        assert(a.skip(half as int) =~= Seq::<T>::empty());
        assert(m.skip(out - lo) == b.skip(s - mid));
        assert forall|k: int| s <= k < hi implies #[trigger] arr@[k] == Some(m[k - lo]) by {
            assert(m.skip(out - lo)[k - s] == m[k - lo]);
            assert(arr0.subrange(mid as int, hi as int)[k - mid] == arr0[k]);
        }
        assert(vals(arr@.subrange(lo as int, hi as int)) =~= m);
        assert(buf@ =~= buf0);
    }
}

/// A block after its merge: a block without a second run stays as it is.
pub open spec fn merged_block<T: Ord>(s: Seq<T>, half: nat) -> Seq<T> {
    if s.len() <= half {
        s
    } else {
        merge_seqs(s.take(half as int), s.skip(half as int))
    }
}

/// Merges the block `arr[lo..hi]`, whose first `half` slots form a sorted run, skipping the
/// work where the two runs already stand in order.
pub(crate) fn merge_range<T: Ord>(
    arr: &mut [Option<T>],
    lo: usize,
    hi: usize,
    buf: &mut [Option<T>],
    blo: usize,
    half: usize,
)
    requires
        total_order::<T>(),
        0 < half,
        lo <= hi <= old(arr)@.len(),
        all_some(old(arr)@.subrange(lo as int, hi as int)),
        hi - lo > half ==> {
            &&& blo + half <= old(buf)@.len()
            &&& all_none(old(buf)@.subrange(blo as int, blo + half))
            &&& sorted(vals(old(arr)@.subrange(lo as int, lo + half)))
        },
    ensures
        final(arr)@.len() == old(arr)@.len(),
        forall|k: int|
            0 <= k < old(arr)@.len() && !(lo <= k < hi) ==> #[trigger] final(arr)@[k] == old(
                arr,
            )@[k],
        all_some(final(arr)@.subrange(lo as int, hi as int)),
        vals(final(arr)@.subrange(lo as int, hi as int)) == merged_block(
            vals(old(arr)@.subrange(lo as int, hi as int)),
            half as nat,
        ),
        final(buf)@ == old(buf)@,
{
    let ghost arr0 = arr@;
    let ghost v = vals(arr0.subrange(lo as int, hi as int));
    if hi - lo <= half {
        return ;
    }
    let mid = lo + half;
    proof {
        assert(v.take(half as int) =~= vals(arr0.subrange(lo as int, mid as int)));
        assert(v.skip(half as int) =~= vals(arr0.subrange(mid as int, hi as int)));
        assert(arr0.subrange(lo as int, hi as int)[half - 1] == arr0[mid - 1]);
        assert(arr0.subrange(lo as int, hi as int)[half as int] == arr0[mid as int]);
    }
    if is_sorted(arr, mid) {
        proof {
            let a = v.take(half as int);
            let b = v.skip(half as int);
            assert(a.last() == arr0[mid - 1].unwrap());
            assert(b[0] == arr0[mid as int].unwrap());
            lemma_merge_in_order(a, b);
            assert(a + b =~= v);
        }
        return ;
    }
    merge_halves(arr, lo, mid, hi, buf, blo);
}

/// Merges one block of a pass with its own stretch of scratch space.
pub(crate) fn merge_block<T: Ord>(block: &mut [Option<T>], buf: &mut [Option<T>], half: usize)
    requires
        total_order::<T>(),
        0 < half,
        all_some(old(block)@),
        old(block)@.len() > half ==> {
            &&& half <= old(buf)@.len()
            &&& all_none(old(buf)@.subrange(0, half as int))
            &&& sorted(vals(old(block)@.take(half as int)))
        },
    ensures
        all_some(final(block)@),
        vals(final(block)@) == merged_block(vals(old(block)@), half as nat),
        final(buf)@ == old(buf)@,
{
    let ghost b0 = block@;
    let n = block.len();
    proof {
        assert(b0.subrange(0, n as int) =~= b0);
        assert(b0.subrange(0, half as int) =~= b0.take(half as int));
    }
    merge_range(block, 0, n, buf, 0, half);
    proof {
        assert(block@.subrange(0, n as int) =~= block@);
    }
}

} // verus!
