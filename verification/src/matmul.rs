use vstd::prelude::*;
use crate::slices::copy_slice;

verus! {

/// `rayon::join` of rayon: runs both closures, perhaps in parallel, and
/// returns both results once both have finished. Trusted, as rayon documents
/// it: each closure is called once, so each result is one that its closure
/// may return.
pub assume_specification<A, B, RA, RB>[ rayon::join::<A, B, RA, RB> ](oper_a: A, oper_b: B) -> (res: (RA, RB))
    where
        A: FnOnce() -> RA + Send,
        B: FnOnce() -> RB + Send,
        RA: Send,
        RB: Send,
    requires
        oper_a.requires(()),
        oper_b.requires(()),
    ensures
        oper_a.ensures((), res.0),
        oper_b.ensures((), res.1),
;

/// Runs four closures in parallel with nested `rayon::join`s and returns
/// their four results.
pub fn join4<F1, F2, F3, F4, R1, R2, R3, R4>(f1: F1, f2: F2, f3: F3, f4: F4) -> (res: (R1, R2, R3, R4))
    where
        F1: FnOnce() -> R1 + Send,
        R1: Send,
        F2: FnOnce() -> R2 + Send,
        R2: Send,
        F3: FnOnce() -> R3 + Send,
        R3: Send,
        F4: FnOnce() -> R4 + Send,
        R4: Send,
    requires
        f1.requires(()),
        f2.requires(()),
        f3.requires(()),
        f4.requires(()),
    ensures
        f1.ensures((), res.0),
        f2.ensures((), res.1),
        f3.ensures((), res.2),
        f4.ensures((), res.3),
{
    let left = move || -> (r: (R1, R2))
        requires
            f1.requires(()),
            f2.requires(()),
        ensures
            f1.ensures((), r.0),
            f2.ensures((), r.1),
    {
        rayon::join(f1, f2)
    };
    let right = move || -> (r: (R3, R4))
        requires
            f3.requires(()),
            f4.requires(()),
        ensures
            f3.ensures((), r.0),
            f4.ensures((), r.1),
    {
        rayon::join(f3, f4)
    };
    let ((r1, r2), (r3, r4)) = rayon::join(left, right);
    (r1, r2, r3, r4)
}


/// Runs eight closures in parallel with nested `rayon::join`s (a balanced
/// tree of depth three) and returns their eight results.
pub fn join8<F1, F2, F3, F4, F5, F6, F7, F8, R1, R2, R3, R4, R5, R6, R7, R8>(
    f1: F1,
    f2: F2,
    f3: F3,
    f4: F4,
    f5: F5,
    f6: F6,
    f7: F7,
    f8: F8,
) -> (res: (R1, R2, R3, R4, R5, R6, R7, R8))
    where
        F1: FnOnce() -> R1 + Send,
        R1: Send,
        F2: FnOnce() -> R2 + Send,
        R2: Send,
        F3: FnOnce() -> R3 + Send,
        R3: Send,
        F4: FnOnce() -> R4 + Send,
        R4: Send,
        F5: FnOnce() -> R5 + Send,
        R5: Send,
        F6: FnOnce() -> R6 + Send,
        R6: Send,
        F7: FnOnce() -> R7 + Send,
        R7: Send,
        F8: FnOnce() -> R8 + Send,
        R8: Send,
    requires
        f1.requires(()),
        f2.requires(()),
        f3.requires(()),
        f4.requires(()),
        f5.requires(()),
        f6.requires(()),
        f7.requires(()),
        f8.requires(()),
    ensures
        f1.ensures((), res.0),
        f2.ensures((), res.1),
        f3.ensures((), res.2),
        f4.ensures((), res.3),
        f5.ensures((), res.4),
        f6.ensures((), res.5),
        f7.ensures((), res.6),
        f8.ensures((), res.7),
{
    let left = move || -> (r: (R1, R2, R3, R4))
        requires
            f1.requires(()),
            f2.requires(()),
            f3.requires(()),
            f4.requires(()),
        ensures
            f1.ensures((), r.0),
            f2.ensures((), r.1),
            f3.ensures((), r.2),
            f4.ensures((), r.3),
    {
        join4(f1, f2, f3, f4)
    };
    let right = move || -> (r: (R5, R6, R7, R8))
        requires
            f5.requires(()),
            f6.requires(()),
            f7.requires(()),
            f8.requires(()),
        ensures
            f5.ensures((), r.0),
            f6.ensures((), r.1),
            f7.ensures((), r.2),
            f8.ensures((), r.3),
    {
        join4(f5, f6, f7, f8)
    };
    let ((r1, r2, r3, r4), (r5, r6, r7, r8)) = rayon::join(left, right);
    (r1, r2, r3, r4, r5, r6, r7, r8)
}

/// Splits `v` into four consecutive pieces: its first half cut at a quarter
/// of the half length, then the rest cut at that same quarter length.
pub fn quarter_chunks<T>(v: &[T]) -> (res: (&[T], &[T], &[T], &[T]))
    ensures
        ({
            let mid = v@.len() / 2;
            let quarter = mid / 2;
            &&& res.0@ == v@.subrange(0, quarter as int)
            &&& res.1@ == v@.subrange(quarter as int, mid as int)
            &&& res.2@ == v@.subrange(mid as int, (mid + quarter) as int)
            &&& res.3@ == v@.subrange((mid + quarter) as int, v@.len() as int)
        }),
        res.0@ + res.1@ + res.2@ + res.3@ == v@,
{
    let mid = v.len() / 2;
    let quarter = mid / 2;
    let (left, right) = v.split_at(mid);
    let (a, b) = left.split_at(quarter);
    let (c, d) = right.split_at(quarter);
    proof {
        assert(a@ =~= v@.subrange(0, quarter as int));
        assert(b@ =~= v@.subrange(quarter as int, mid as int));
        assert(c@ =~= v@.subrange(mid as int, (mid + quarter) as int));
        assert(d@ =~= v@.subrange((mid + quarter) as int, v@.len() as int));
        assert(a@ + b@ + c@ + d@ =~= v@);
    }
    (a, b, c, d)
}

/// Splits `v` into the same four pieces as `quarter_chunks`, each of them
/// writable; what is written through them is what `v` holds afterwards.
pub fn quarter_chunks_mut<T>(v: &mut [T]) -> (res: (&mut [T], &mut [T], &mut [T], &mut [T]))
    ensures
        ({
            let n = old(v)@.len();
            let mid = n / 2;
            let quarter = mid / 2;
            &&& res.0@ == old(v)@.subrange(0, quarter as int)
            &&& res.1@ == old(v)@.subrange(quarter as int, mid as int)
            &&& res.2@ == old(v)@.subrange(mid as int, (mid + quarter) as int)
            &&& res.3@ == old(v)@.subrange((mid + quarter) as int, n as int)
        }),
        res.0@ + res.1@ + res.2@ + res.3@ == old(v)@,
        final(v)@ == final(res.0)@ + final(res.1)@ + final(res.2)@ + final(res.3)@,
{
    let mid = v.len() / 2;
    let quarter = mid / 2;
    let (left, right) = v.split_at_mut(mid);
    let (a, b) = left.split_at_mut(quarter);
    let (c, d) = right.split_at_mut(quarter);
    assert(a@ + b@ + c@ + d@ =~= old(v)@);
    (a, b, c, d)
}


/// The number of elements up to which `rcopy` copies directly.
pub const LINEAR_CHUNK: usize = 64 * 1024;

/// The number of elements up to which the z-order multiplications multiply
/// directly.
pub const MULT_CHUNK: usize = 1 * 1024;

/// Runs `rcopy(s1, d1)` and `rcopy(s2, d2)` with `rayon::join`. Trusted:
/// `rayon::join` runs both closures to completion (perhaps on two threads)
/// before it returns, so each call leaves its destination as `rcopy`
/// promises.
#[verifier::external_body]
fn join_copy<T: Copy + Send + Sync>(s1: &[T], d1: &mut [T], s2: &[T], d2: &mut [T])
    requires
        old(d1)@.len() == s1@.len(),
        old(d2)@.len() == s2@.len(),
    ensures
        final(d1)@ == s1@,
        final(d2)@ == s2@,
{
    rayon::join(|| rcopy(s1, d1), || rcopy(s2, d2));
}

/// Copies `src` into `dest`: directly up to `LINEAR_CHUNK` elements, else by
/// copying the two halves in parallel.
pub fn rcopy<T: Copy + Send + Sync>(src: &[T], dest: &mut [T])
    requires
        old(dest)@.len() == src@.len(),
    ensures
        final(dest)@ == src@,
{
    if dest.len() <= LINEAR_CHUNK {
        copy_slice(src, dest);
        return;
    }

    let mid = dest.len() / 2;
    let (s1, s2) = src.split_at(mid);
    let ghost n = dest@.len();
    let (d1, d2) = dest.split_at_mut(mid);
    assert(d1@.len() < n && d2@.len() < n);
    join_copy(s1, d1, s2, d2);
    assert(s1@ + s2@ =~= src@);
}

} // verus!
