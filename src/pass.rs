//! One pass of the sort: every block of `2 * half` slots merged, in order or in parallel.
use crate::merge::{
    all_none, all_some, lemma_merge_len, lemma_merge_multiset, lemma_merge_sorted,
    lemma_merge_stable, merge_block, merge_range, merge_seqs, merged_block, vals,
};
use crate::order::{key_class, sorted, total_order};
use rayon::iter::{IndexedParallelIterator, ParallelIterator};
use rayon::slice::ParallelSliceMut;
use vstd::prelude::*;

verus! {

/// `s` is a row of consecutive sorted runs of `width` elements, the last one possibly shorter.
pub open spec fn runs_sorted<T: Ord>(s: Seq<T>, width: nat) -> bool
    decreases s.len(),
{
    if width == 0 || s.len() <= width {
        sorted(s)
    } else {
        sorted(s.take(width as int)) && runs_sorted(s.skip(width as int), width)
    }
}

/// `s` after one pass, its blocks of `2 * half` elements merged from the first to the last.
pub open spec fn pass_result<T: Ord>(s: Seq<T>, half: nat) -> Seq<T>
    decreases s.len(),
{
    if half == 0 || s.len() <= 2 * half {
        merged_block(s, half)
    } else {
        merged_block(s.take(2 * half as int), half) + pass_result(s.skip(2 * half as int), half)
    }
}

/// `s` after one pass, each element read from the merge of the block that holds it.
pub open spec fn merged_by_chunks<T: Ord>(s: Seq<T>, half: nat) -> Seq<T> {
    Seq::new(
        s.len(),
        |k: int|
            {
                let start = k - k % (2 * half as int);
                let end = if start + 2 * half <= s.len() {
                    start + 2 * half
                } else {
                    s.len() as int
                };
                merged_block(s.subrange(start, end), half)[k - start]
            },
    )
}

pub proof fn lemma_merged_block_len<T: Ord>(s: Seq<T>, half: nat)
    ensures
        merged_block(s, half).len() == s.len(),
{
    if s.len() > half {
        lemma_merge_len(s.take(half as int), s.skip(half as int));
    }
}

pub proof fn lemma_pass_len<T: Ord>(s: Seq<T>, half: nat)
    ensures
        pass_result(s, half).len() == s.len(),
    decreases s.len(),
{
    if half == 0 || s.len() <= 2 * half {
        lemma_merged_block_len(s, half);
    } else {
        lemma_merged_block_len(s.take(2 * half as int), half);
        lemma_pass_len(s.skip(2 * half as int), half);
    }
}

pub proof fn lemma_merged_block_multiset<T: Ord>(s: Seq<T>, half: nat)
    ensures
        merged_block(s, half).to_multiset() == s.to_multiset(),
{
    if s.len() > half {
        let a = s.take(half as int);
        let b = s.skip(half as int);
        lemma_merge_multiset(a, b);
        vstd::seq_lib::lemma_multiset_commutative(a, b);
        assert(a + b =~= s);
    }
}

/// A pass only reorders.
pub proof fn lemma_pass_multiset<T: Ord>(s: Seq<T>, half: nat)
    ensures
        pass_result(s, half).to_multiset() == s.to_multiset(),
    decreases s.len(),
{
    if half == 0 || s.len() <= 2 * half {
        lemma_merged_block_multiset(s, half);
    } else {
        let a = s.take(2 * half as int);
        let b = s.skip(2 * half as int);
        lemma_merged_block_multiset(a, half);
        lemma_pass_multiset(b, half);
        vstd::seq_lib::lemma_multiset_commutative(merged_block(a, half), pass_result(b, half));
        vstd::seq_lib::lemma_multiset_commutative(a, b);
        assert(a + b =~= s);
    }
}

/// The first two runs of a row of runs, and the row that follows them.
proof fn lemma_runs_sorted_split<T: Ord>(s: Seq<T>, half: nat)
    requires
        half > 0,
        s.len() > half,
        runs_sorted(s, half),
    ensures
        sorted(s.take(half as int)),
        s.len() <= 2 * half ==> sorted(s.skip(half as int)),
        s.len() > 2 * half ==> sorted(s.skip(half as int).take(half as int)) && runs_sorted(
            s.skip(2 * half as int),
            half,
        ),
{
    reveal_with_fuel(runs_sorted, 3);
    let t = s.skip(half as int);
    assert(runs_sorted(t, half));
    if s.len() > 2 * half {
        assert(t.skip(half as int) =~= s.skip(2 * half as int));
    }
}

proof fn lemma_merged_block_sorted<T: Ord>(s: Seq<T>, half: nat)
    requires
        total_order::<T>(),
        half > 0,
        s.len() <= 2 * half,
        runs_sorted(s, half),
    ensures
        sorted(merged_block(s, half)),
{
    if s.len() > half {
        lemma_runs_sorted_split(s, half);
        lemma_merge_sorted(s.take(half as int), s.skip(half as int));
    }
}

/// After a pass over runs of `half`, the runs are twice as long.
pub proof fn lemma_pass_doubles_runs<T: Ord>(s: Seq<T>, half: nat)
    requires
        total_order::<T>(),
        half > 0,
        runs_sorted(s, half),
    ensures
        runs_sorted(pass_result(s, half), 2 * half),
    decreases s.len(),
{
    lemma_pass_len(s, half);
    if s.len() <= 2 * half {
        lemma_merged_block_sorted(s, half);
        lemma_merged_block_len(s, half);
    } else {
        let a = s.take(2 * half as int);
        let b = s.skip(2 * half as int);
        lemma_runs_sorted_split(s, half);
        assert(a.take(half as int) =~= s.take(half as int));
        assert(a.skip(half as int) =~= s.skip(half as int).take(half as int));
        assert(runs_sorted(a.skip(half as int), half));
        assert(runs_sorted(a, half));
        lemma_merged_block_sorted(a, half);
        lemma_pass_doubles_runs(b, half);
        lemma_merged_block_len(a, half);
        lemma_pass_len(b, half);
        let r = pass_result(s, half);
        assert(r.take(2 * half as int) =~= merged_block(a, half));
        assert(r.skip(2 * half as int) =~= pass_result(b, half));
    }
}

/// A pass keeps, for each key, the order of the elements that have it.
pub proof fn lemma_pass_stable<T: Ord>(s: Seq<T>, half: nat, x: T)
    requires
        total_order::<T>(),
        half > 0,
        runs_sorted(s, half),
    ensures
        key_class(pass_result(s, half), x) == key_class(s, x),
    decreases s.len(),
{
    let pred = |y: T| crate::order::same_key(y, x);
    let blk = if s.len() <= 2 * half {
        s
    } else {
        s.take(2 * half as int)
    };
    if blk.len() > half {
        let a = blk.take(half as int);
        let b = blk.skip(half as int);
        lemma_runs_sorted_split(s, half);
        assert(a =~= s.take(half as int));
        lemma_merge_stable(a, b, x);
        Seq::filter_distributes_over_add(a, b, pred);
        assert(a + b =~= blk);
    }
    if s.len() > 2 * half {
        let b = s.skip(2 * half as int);
        lemma_runs_sorted_split(s, half);
        lemma_pass_stable(b, half, x);
        Seq::filter_distributes_over_add(merged_block(blk, half), pass_result(b, half), pred);
        Seq::filter_distributes_over_add(blk, b, pred);
        assert(blk + b =~= s);
    }
}

/// Merging every block on its own, as the parallel pass does, gives what merging the blocks
/// one after another gives.
pub proof fn lemma_chunks_match_pass<T: Ord>(s: Seq<T>, half: nat)
    requires
        half > 0,
    ensures
        merged_by_chunks(s, half) == pass_result(s, half),
    decreases s.len(),
{
    let w: int = 2 * half as int;
    let c = merged_by_chunks(s, half);
    let p = pass_result(s, half);
    lemma_pass_len(s, half);
    if s.len() <= w {
        assert forall|k: int| 0 <= k < s.len() implies #[trigger] c[k] == p[k] by {
            vstd::arithmetic::div_mod::lemma_small_mod(k as nat, w as nat);
            assert(s.subrange(0, s.len() as int) =~= s);
        }
    } else {
        let rest = s.skip(w);
        lemma_chunks_match_pass(rest, half);
        lemma_merged_block_len(s.take(w), half);
        let c2 = merged_by_chunks(rest, half);
        assert forall|k: int| 0 <= k < s.len() implies #[trigger] c[k] == p[k] by {
            if k < w {
                vstd::arithmetic::div_mod::lemma_small_mod(k as nat, w as nat);
                assert(s.subrange(0, w) =~= s.take(w));
            } else {
                vstd::arithmetic::div_mod::lemma_mod_sub_multiples_vanish(k, w);
                let j = k - w;
                let start = j - j % w;
                assert(start >= 0) by {
                    vstd::arithmetic::div_mod::lemma_fundamental_div_mod(j, w);
                    vstd::arithmetic::div_mod::lemma_div_pos_is_pos(j, w);
                    assert(w * (j / w) >= 0) by (nonlinear_arith)
                        requires
                            w > 0,
                            j / w >= 0,
                    ;
                }
                vstd::arithmetic::div_mod::lemma_mod_bound(j, w);
                let end = if start + w <= rest.len() {
                    start + w
                } else {
                    rest.len() as int
                };
                assert(c2[j] == merged_block(rest.subrange(start, end), half)[j - start]);
                assert(rest.subrange(start, end) =~= s.subrange(start + w, end + w));
                assert(start + w == k - k % w);
                assert(p[k] == pass_result(rest, half)[j]);
            }
        }
    }
    assert(c =~= p);
}

/// Merges, one after another, the blocks of `2 * half` slots of `arr`, using the front of
/// `scratch` for each.
pub(crate) fn merge_pass_sequential<T: Ord>(
    arr: &mut [Option<T>],
    scratch: &mut [Option<T>],
    half: usize,
)
    requires
        total_order::<T>(),
        0 < half,
        all_some(old(arr)@),
        runs_sorted(vals(old(arr)@), half as nat),
        old(arr)@.len() > half ==> half <= old(scratch)@.len() && all_none(
            old(scratch)@.subrange(0, half as int),
        ),
    ensures
        all_some(final(arr)@),
        vals(final(arr)@) == pass_result(vals(old(arr)@), half as nat),
        final(scratch)@ == old(scratch)@,
{
    let ghost arr0 = arr@;
    let ghost s0 = vals(arr0);
    let n = arr.len();
    let mut lo: usize = 0;
    proof {
        assert(s0.skip(0) =~= s0);
        assert(vals(arr@.take(0)) =~= Seq::<T>::empty());
        assert(pass_result(s0, half as nat) =~= vals(arr@.take(0)) + pass_result(
            s0.skip(0),
            half as nat,
        ));
    }
    while lo < n
        invariant
            total_order::<T>(),
            0 < half,
            n == arr0.len(),
            arr@.len() == n,
            s0 == vals(arr0),
            lo <= n,
            all_some(arr@),
            forall|k: int| lo <= k < n ==> #[trigger] arr@[k] == arr0[k],
            runs_sorted(s0.skip(lo as int), half as nat),
            pass_result(s0, half as nat) == vals(arr@.take(lo as int)) + pass_result(
                s0.skip(lo as int),
                half as nat,
            ),
            n > half ==> half <= scratch@.len() && all_none(scratch@.subrange(0, half as int)),
            scratch@ == old(scratch)@,
        decreases n - lo,
    {
        let ghost rest = s0.skip(lo as int);
        let ghost before = arr@;
        let hi: usize = if n - lo <= half {
            n
        } else if n - lo - half <= half {
            n
        } else {
            lo + half + half
        };
        proof {
            assert(all_some(before.subrange(lo as int, hi as int)));
            assert(vals(before.subrange(lo as int, hi as int)) =~= rest.take(hi - lo));
            if hi - lo > half {
                lemma_runs_sorted_split(rest, half as nat);
                assert(vals(before.subrange(lo as int, lo + half)) =~= rest.take(half as int));
            }
        }
        merge_range(arr, lo, hi, scratch, 0, half);
        proof {
            assert forall|k: int| 0 <= k < n implies #[trigger] arr@[k] is Some by {
                if lo <= k < hi {
                    assert(arr@.subrange(lo as int, hi as int)[k - lo] is Some);
                }
            }
            let blk = rest.take(hi - lo);
            assert(vals(arr@.take(hi as int)) =~= vals(before.take(lo as int)) + vals(
                arr@.subrange(lo as int, hi as int),
            ));
            assert(before.take(lo as int) =~= arr@.take(lo as int));
            if hi == n {
                assert(blk =~= rest);
                assert(s0.skip(hi as int) =~= Seq::<T>::empty());
                assert(pass_result(s0.skip(hi as int), half as nat) =~= Seq::<T>::empty());
                assert(vals(arr@.take(hi as int)) + Seq::<T>::empty() =~= vals(
                    arr@.take(hi as int),
                ));
            } else {
                lemma_runs_sorted_split(rest, half as nat);
                assert(rest.skip(2 * half as int) =~= s0.skip(hi as int));
            }
        }
        lo = hi;
    }
    proof {
        assert(arr@.take(n as int) =~= arr@);
        assert(s0.skip(n as int) =~= Seq::<T>::empty());
        assert(vals(arr@) + Seq::<T>::empty() =~= vals(arr@));
    }
}

/// Relies on rayon's `par_chunks_mut`, `zip` and `for_each`: `arr` is cut into consecutive
/// chunks of `width` slots (the last one may be shorter; a `width` of the whole length, below
/// `2 * half`, gives the one chunk that `2 * half` would) and `scratch` into chunks of `half`
/// slots; the k-th chunks of the two are paired, as many pairs as the shorter side has, and
/// `merge_block` runs once on each pair, the calls on disjoint slots, possibly on several
/// threads; `for_each` returns once every call has.
#[verifier::external_body]
pub(crate) fn merge_pass_parallel<T: Ord + Send>(
    arr: &mut [Option<T>],
    scratch: &mut [Option<T>],
    width: usize,
    half: usize,
)
    requires
        total_order::<T>(),
        0 < half,
        0 < width,
        width == 2 * half || (width == old(arr)@.len() && old(arr)@.len() < 2 * half),
        all_some(old(arr)@),
        all_none(old(scratch)@),
        runs_sorted(vals(old(arr)@), half as nat),
        old(arr)@.len() <= 2 * old(scratch)@.len(),
        old(scratch)@.len() as int % (half as int) == 0,
    ensures
        all_some(final(arr)@),
        vals(final(arr)@) == merged_by_chunks(vals(old(arr)@), half as nat),
        final(scratch)@ == old(scratch)@,
{
    arr.par_chunks_mut(width).zip(scratch.par_chunks_mut(half)).for_each(
        |(block, buf)| merge_block(block, buf, half),
    );
}

} // verus!
