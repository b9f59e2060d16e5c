//! The sort driver: scratch sizing, the loop over passes, and the laws of the whole sort.
use crate::merge::{all_none, all_some, lemma_merge_in_order, merged_block, vals};
use crate::order::{key_class, leq, lemma_total_order, sorted, total_order};
use crate::pass::{
    lemma_chunks_match_pass, lemma_pass_doubles_runs, lemma_pass_len, lemma_pass_multiset,
    lemma_pass_stable, merge_pass_parallel, merge_pass_sequential, pass_result, runs_sorted,
};
use vstd::prelude::*;

verus! {

/// `q` is a power of two.
pub open spec fn is_pow2(q: nat) -> bool
    decreases q,
{
    if q == 0 {
        false
    } else if q == 1 {
        true
    } else {
        q % 2 == 0 && is_pow2(q / 2)
    }
}

/// How far the run length `half` is from covering `len` elements.
pub open spec fn passes_left(len: nat, half: nat) -> nat {
    if half >= len {
        0
    } else {
        (len - half) as nat
    }
}

/// The sort of `s` from the pass that merges runs of `half` on: passes double the run length
/// until one run covers the whole sequence.
pub open spec fn sort_from<T: Ord>(s: Seq<T>, half: nat) -> Seq<T>
    decreases passes_left(s.len(), half),
    via sort_from_decreases::<T>
{
    if half == 0 || half >= s.len() {
        s
    } else {
        sort_from(pass_result(s, half), 2 * half)
    }
}

#[via_fn]
proof fn sort_from_decreases<T: Ord>(s: Seq<T>, half: nat) {
    lemma_pass_len(s, half);
}

/// What the sort makes of `s`: every pass, from runs of one element on.
pub open spec fn merge_sorted<T: Ord>(s: Seq<T>) -> Seq<T> {
    sort_from(s, 1)
}

/// How the sort is run: the merges of one pass in parallel, or one after another.
pub enum ExecutionMode {
    Parallel,
    Sequential,
}

proof fn lemma_runs_of_one<T: Ord>(s: Seq<T>)
    ensures
        runs_sorted(s, 1),
    decreases s.len(),
{
    if s.len() > 1 {
        lemma_runs_of_one(s.skip(1));
    }
}

proof fn lemma_runs_of_whole<T: Ord>(s: Seq<T>, width: nat)
    requires
        width >= s.len(),
        runs_sorted(s, width),
    ensures
        sorted(s),
{
}

proof fn lemma_sort_from<T: Ord>(s: Seq<T>, half: nat)
    requires
        total_order::<T>(),
        half > 0,
        runs_sorted(s, half),
    ensures
        sort_from(s, half).len() == s.len(),
        sorted(sort_from(s, half)),
        sort_from(s, half).to_multiset() == s.to_multiset(),
        forall|x: T| #[trigger] key_class(sort_from(s, half), x) == key_class(s, x),
    decreases passes_left(s.len(), half),
{
    if half >= s.len() {
        lemma_runs_of_whole(s, half);
    } else {
        let p = pass_result(s, half);
        lemma_pass_len(s, half);
        lemma_pass_multiset(s, half);
        lemma_pass_doubles_runs(s, half);
        lemma_sort_from(p, 2 * half);
        assert forall|x: T| #[trigger] key_class(sort_from(s, half), x) == key_class(s, x) by {
            lemma_pass_stable(s, half, x);
        }
    }
}

/// The sort returns its input in non-descending order, each element exactly as often as it
/// was there.
pub proof fn lemma_sort_is_sorted_permutation<T: Ord>(s: Seq<T>)
    requires
        total_order::<T>(),
    ensures
        sorted(merge_sorted(s)),
        merge_sorted(s).to_multiset() == s.to_multiset(),
        merge_sorted(s).len() == s.len(),
{
    lemma_runs_of_one(s);
    lemma_sort_from(s, 1);
}

/// The sort is stable: the elements of any one key come out in the order they went in.
pub proof fn lemma_sort_is_stable<T: Ord>(s: Seq<T>, x: T)
    requires
        total_order::<T>(),
    ensures
        key_class(merge_sorted(s), x) == key_class(s, x),
{
    lemma_runs_of_one(s);
    lemma_sort_from(s, 1);
}

proof fn lemma_sorted_runs<T: Ord>(s: Seq<T>, width: nat)
    requires
        sorted(s),
    ensures
        runs_sorted(s, width),
    decreases s.len(),
{
    if width > 0 && s.len() > width {
        lemma_sorted_runs(s.skip(width as int), width);
    }
}

/// On sorted input a pass leaves the sequence as it was.
pub proof fn lemma_pass_keeps_sorted<T: Ord>(s: Seq<T>, half: nat)
    requires
        total_order::<T>(),
        half > 0,
        sorted(s),
    ensures
        pass_result(s, half) == s,
    decreases s.len(),
{
    lemma_total_order::<T>();
    let blk = if s.len() <= 2 * half {
        s
    } else {
        s.take(2 * half as int)
    };
    if blk.len() > half {
        let a = blk.take(half as int);
        let b = blk.skip(half as int);
        assert(leq(a.last(), b[0])) by {
            assert(a.last() == s[half - 1]);
            assert(b[0] == s[half as int]);
        }
        lemma_merge_in_order(a, b);
        assert(a + b =~= blk);
    }
    assert(merged_block(blk, half) == blk);
    if s.len() > 2 * half {
        let rest = s.skip(2 * half as int);
        lemma_pass_keeps_sorted(rest, half);
        assert(blk + rest =~= s);
    }
}

proof fn lemma_sort_from_sorted<T: Ord>(s: Seq<T>, half: nat)
    requires
        total_order::<T>(),
        half > 0,
        sorted(s),
    ensures
        sort_from(s, half) == s,
    decreases passes_left(s.len(), half),
{
    if half < s.len() {
        lemma_pass_keeps_sorted(s, half);
        lemma_sort_from_sorted(s, 2 * half);
    }
}

/// Sorting a sorted sequence gives it back unchanged.
pub proof fn lemma_sort_idempotent<T: Ord>(s: Seq<T>)
    requires
        total_order::<T>(),
    ensures
        sorted(s) ==> merge_sorted(s) == s,
        merge_sorted(merge_sorted(s)) == merge_sorted(s),
{
    if sorted(s) {
        lemma_sort_from_sorted(s, 1);
    }
    lemma_sort_is_sorted_permutation(s);
    lemma_sort_from_sorted(merge_sorted(s), 1);
}

/// Sequences of no element or one come back unchanged; one of two is one merge.
pub proof fn lemma_size_boundaries<T: Ord>(s: Seq<T>)
    ensures
        s.len() <= 1 ==> merge_sorted(s) == s,
        s.len() == 2 ==> merge_sorted(s) == merged_block(s, 1),
{
    if s.len() == 2 {
        lemma_pass_len(s, 1);
        assert(sort_from(pass_result(s, 1), 2) == pass_result(s, 1));
    }
}

/// The length of the scratch space for a sequence of `n` elements: the largest first run that
/// any merge will move, half the least power of two that is at least `n` (none for `n <= 1`).
pub fn scratch_len(n: usize) -> (r: usize)
    ensures
        n <= 1 ==> r == 0,
        n > 1 ==> is_pow2(r as nat) && r < n <= 2 * r,
{
    if n <= 1 {
        return 0;
    }
    let mut c: usize = 1;
    while c < n - c
        invariant
            1 <= c < n,
            is_pow2(c as nat),
        decreases n - c,
    {
        proof {
            assert((c + c) as nat / 2 == c);
        }
        c = c + c;
    }
    c
}

/// `n` empty slots.
fn empty_slots<T>(n: usize) -> (r: Vec<Option<T>>)
    ensures
        r@.len() == n,
        all_none(r@),
{
    let mut r: Vec<Option<T>> = Vec::with_capacity(n);
    let mut i: usize = 0;
    while i < n
        invariant
            i <= n,
            r@.len() == i,
            all_none(r@),
        decreases n - i,
    {
        r.push(None);
        i = i + 1;
    }
    r
}

/// Moves the elements of `arr` into slots, in order, leaving `arr` empty.
fn into_slots<T>(arr: &mut Vec<T>) -> (slots: Vec<Option<T>>)
    ensures
        final(arr)@.len() == 0,
        all_some(slots@),
        vals(slots@) == old(arr)@,
{
    let ghost arr0 = arr@;
    let n = arr.len();
    let mut slots: Vec<Option<T>> = empty_slots(n);
    let mut i: usize = n;
    while i > 0
        invariant
            n == arr0.len(),
            i <= n,
            arr@ == arr0.take(i as int),
            slots@.len() == n,
            forall|k: int| i <= k < n ==> #[trigger] slots@[k] == Some(arr0[k]),
        decreases i,
    {
        i = i - 1;
        let x = arr.pop();
        slots[i] = x;
        proof {
            assert(arr0.take(i + 1).take(i as int) =~= arr0.take(i as int));
        }
    }
    proof {
        assert(vals(slots@) =~= arr0);
    }
    slots
}

/// Moves the elements held in `slots` to the end of the empty `arr`, in order.
fn from_slots<T>(arr: &mut Vec<T>, slots: Vec<Option<T>>)
    requires
        old(arr)@.len() == 0,
        all_some(slots@),
    ensures
        final(arr)@ == vals(slots@),
{
    let ghost s0 = slots@;
    let mut slots = slots;
    let n = slots.len();
    let mut i: usize = 0;
    while i < n
        invariant
            n == s0.len(),
            i <= n,
            all_some(s0),
            slots@.len() == n,
            forall|k: int| i <= k < n ==> #[trigger] slots@[k] == s0[k],
            arr@ == vals(s0).take(i as int),
        decreases n - i,
    {
        if let Some(x) = slots[i].take() {
            arr.push(x);
        }
        proof {
            assert(s0[i as int] is Some);
            assert(arr@ =~= vals(s0).take(i + 1));
        }
        i = i + 1;
    }
    proof {
        assert(vals(s0).take(n as int) =~= vals(s0));
    }
}

/// Sorts `arr` in place into non-descending order with a bottom-up merge sort, in the mode
/// given. Equal elements keep their order; each element is moved, never copied.
pub fn merge_sort_in<T: Ord + Send>(arr: &mut Vec<T>, mode: ExecutionMode)
    requires
        total_order::<T>(),
    ensures
        final(arr)@ == merge_sorted(old(arr)@),
        sorted(final(arr)@),
        final(arr)@.to_multiset() == old(arr)@.to_multiset(),
        forall|x: T| #[trigger] key_class(final(arr)@, x) == key_class(old(arr)@, x),
{
    let ghost s0 = arr@;
    proof {
        lemma_sort_is_sorted_permutation(s0);
        assert forall|x: T| #[trigger] key_class(merge_sorted(s0), x) == key_class(s0, x) by {
            lemma_sort_is_stable(s0, x);
        }
        lemma_runs_of_one(s0);
    }
    let n = arr.len();
    let mut slots = into_slots(arr);
    let cap = scratch_len(n);
    let mut scratch: Vec<Option<T>> = empty_slots(cap);
    let mut half: usize = 1;
    let ghost mut q: nat = cap as nat;
    proof {
        assert(cap == 1 * q);
    }
    while half < n
        invariant
            total_order::<T>(),
            n == s0.len(),
            arr@.len() == 0,
            slots@.len() == n,
            all_some(slots@),
            scratch@.len() == cap,
            all_none(scratch@),
            n > 1 ==> n <= 2 * cap,
            1 <= half,
            half < n ==> cap == half * q && is_pow2(q),
            runs_sorted(vals(slots@), half as nat),
            sort_from(vals(slots@), half as nat) == merge_sorted(s0),
        decreases n - half,
    {
        let ghost before = vals(slots@);
        proof {
            assert(cap >= half) by (nonlinear_arith)
                requires
                    cap == half * q,
                    q >= 1,
            ;
            vstd::arithmetic::div_mod::lemma_mod_multiples_basic(q as int, half as int);
            assert(q * half == half * q) by (nonlinear_arith);
            assert(scratch@.subrange(0, half as int) =~= scratch@.take(half as int));
        }
        match mode {
            ExecutionMode::Parallel => {
                let width = if half <= n - half {
                    half + half
                } else {
                    n
                };
                merge_pass_parallel(slots.as_mut_slice(), scratch.as_mut_slice(), width, half);
                proof {
                    lemma_chunks_match_pass(before, half as nat);
                }
            },
            ExecutionMode::Sequential => {
                merge_pass_sequential(slots.as_mut_slice(), scratch.as_mut_slice(), half);
            },
        }
        proof {
            lemma_pass_doubles_runs(before, half as nat);
            lemma_pass_len(before, half as nat);
            assert(sort_from(before, half as nat) == sort_from(
                vals(slots@),
                2 * half as nat,
            ));
        }
        if n - half <= half {
            proof {
                lemma_runs_of_whole(vals(slots@), 2 * half as nat);
                lemma_sorted_runs(vals(slots@), n as nat);
                assert(sort_from(vals(slots@), 2 * half as nat) == vals(slots@));
                assert(sort_from(vals(slots@), n as nat) == vals(slots@));
            }
            half = n;
        } else {
            proof {
                if q == 1 {
                    assert(false);
                }
                assert(q % 2 == 0 && is_pow2(q / 2));
                assert(cap == (half + half) * (q / 2)) by (nonlinear_arith)
                    requires
                        cap == half * q,
                        q % 2 == 0,
                ;
                q = q / 2;
            }
            half = half + half;
        }
    }
    proof {
        assert(sort_from(vals(slots@), half as nat) == vals(slots@));
    }
    from_slots(arr, slots);
}

/// Sorts `arr` in place into non-descending order, the merges of each pass in parallel.
pub fn merge_sort<T: Ord + Send>(arr: &mut Vec<T>)
    requires
        total_order::<T>(),
    ensures
        final(arr)@ == merge_sorted(old(arr)@),
        sorted(final(arr)@),
        final(arr)@.to_multiset() == old(arr)@.to_multiset(),
        forall|x: T| #[trigger] key_class(final(arr)@, x) == key_class(old(arr)@, x),
{
    merge_sort_in(arr, ExecutionMode::Parallel);
}

/// A sorted copy of `arr`, which is left as it is: the sort of a clone of each element.
pub fn sorted_copy<T: Ord + Send + Clone>(arr: &[T]) -> (r: Vec<T>)
    requires
        total_order::<T>(),
    ensures
        exists|c: Seq<T>|
            {
                &&& c.len() == arr@.len()
                &&& forall|i: int| 0 <= i < c.len() ==> cloned(#[trigger] arr@[i], c[i])
                &&& r@ == merge_sorted(c)
            },
{
    let mut copy: Vec<T> = Vec::with_capacity(arr.len());
    let mut i: usize = 0;
    while i < arr.len()
        invariant
            i <= arr@.len(),
            copy@.len() == i,
            forall|k: int| 0 <= k < i ==> cloned(#[trigger] arr@[k], copy@[k]),
        decreases arr@.len() - i,
    {
        copy.push(arr[i].clone());
        i = i + 1;
    }
    let ghost c = copy@;
    merge_sort(&mut copy);
    proof {
        assert(c.len() == arr@.len());
    }
    copy
}

} // verus!
