use vstd::prelude::*;
use vstd::multiset::Multiset;
use crate::slices::copy_slice;

verus! {

broadcast use vstd::seq_lib::group_to_multiset_ensures;

/// The size below which `sort` sorts a piece directly; the merge switches to
/// its sequential form below twice this size.
pub const DIRECT_THRESHOLD: usize = 4096;

pub const SORT_CHUNK: usize = DIRECT_THRESHOLD;

pub const MERGE_CHUNK: usize = 2 * DIRECT_THRESHOLD;

/// `s` is in ascending order.
pub open spec fn sorted(s: Seq<i32>) -> bool {
    forall|i: int, j: int| 0 <= i <= j < s.len() ==> s[i] <= s[j]
}

/// `t` holds the elements of `s`, each as often, in ascending order.
pub open spec fn sorted_perm(t: Seq<i32>, s: Seq<i32>) -> bool {
    sorted(t) && t.to_multiset() == s.to_multiset()
}

/// The sequence that merging `a` and `b` front to back yields: the smaller of
/// the two front elements goes first, and `a`'s on a tie.
pub open spec fn merged(a: Seq<i32>, b: Seq<i32>) -> Seq<i32>
    decreases a.len() + b.len(),
{
    if a.len() == 0 {
        b
    } else if b.len() == 0 {
        a
    } else if a[0] <= b[0] {
        seq![a[0]] + merged(a.drop_first(), b)
    } else {
        seq![b[0]] + merged(a, b.drop_first())
    }
}


proof fn lemma_merged_step_left(a: Seq<i32>, b: Seq<i32>, i: int, j: int)
    requires
        0 <= i < a.len(),
        0 <= j < b.len(),
        a[i] <= b[j],
    ensures
        merged(a.skip(i), b.skip(j)) == seq![a[i]] + merged(a.skip(i + 1), b.skip(j)),
{
    assert(a.skip(i).drop_first() =~= a.skip(i + 1));
}

proof fn lemma_merged_step_right(a: Seq<i32>, b: Seq<i32>, i: int, j: int)
    requires
        0 <= i < a.len(),
        0 <= j < b.len(),
        !(a[i] <= b[j]),
    ensures
        merged(a.skip(i), b.skip(j)) == seq![b[j]] + merged(a.skip(i), b.skip(j + 1)),
{
    assert(b.skip(j).drop_first() =~= b.skip(j + 1));
}

/// Merges `src_left` and `src_right` into `dest` front to back, taking the
/// left element first on a tie.
pub fn seq_merge(src_left: &[i32], src_right: &[i32], dest: &mut [i32])
    requires
        old(dest)@.len() == src_left@.len() + src_right@.len(),
    ensures
        final(dest)@ == merged(src_left@, src_right@),
{
    if src_right.is_empty() {
        copy_slice(src_left, dest);
        return;
    }
    let mut i: usize = 0;  // index for src_left
    let mut j: usize = 0;  // index for src_right
    let mut k: usize = 0;  // index for dest

    let left_len = src_left.len();
    let right_len = src_right.len();
    let ghost l = src_left@;
    let ghost r = src_right@;
    assert(l.skip(0) =~= l);
    assert(r.skip(0) =~= r);
    assert(dest@.take(0) =~= Seq::<i32>::empty());

    while i < left_len && j < right_len
        invariant
            left_len == l.len(),
            right_len == r.len(),
            l == src_left@,
            r == src_right@,
            i <= left_len,
            j <= right_len,
            k == i + j,
            dest@.len() == left_len + right_len,
            merged(l, r) == dest@.take(k as int) + merged(l.skip(i as int), r.skip(j as int)),
        decreases left_len + right_len - k,
    {
        let left = src_left[i];
        let right = src_right[j];
        let ghost before = dest@;
        if left <= right {
            proof {
                lemma_merged_step_left(l, r, i as int, j as int);
            }
            dest[k] = left;
            i += 1;
        } else {
            proof {
                lemma_merged_step_right(l, r, i as int, j as int);
            }
            dest[k] = right;
            j += 1;
        }
        assert(dest@.take(k + 1) =~= before.take(k as int) + seq![dest@[k as int]]);
        k += 1;
    }

    let ghost head = dest@.take(k as int);
    if i < left_len {
        assert(r.skip(j as int) =~= Seq::<i32>::empty());
        let (_, rest) = src_left.split_at(i);
        let (_, tail) = dest.split_at_mut(k);
        copy_slice(rest, tail);
    } else if j < right_len {
        assert(l.skip(i as int) =~= Seq::<i32>::empty());
        let (_, rest) = src_right.split_at(j);
        let (_, tail) = dest.split_at_mut(k);
        copy_slice(rest, tail);
    }
    assert(dest@ =~= merged(l, r));
}


/// Merging keeps every element of both inputs, each as often.
pub proof fn lemma_merged_perm(a: Seq<i32>, b: Seq<i32>)
    ensures
        merged(a, b).to_multiset() == a.to_multiset().add(b.to_multiset()),
        merged(a, b).len() == a.len() + b.len(),
    decreases a.len() + b.len(),
{
    broadcast use vstd::multiset::group_multiset_axioms;

    if a.len() == 0 {
        assert(a.to_multiset() =~= Multiset::empty());
        assert(merged(a, b).to_multiset() =~= a.to_multiset().add(b.to_multiset()));
    } else if b.len() == 0 {
        assert(b.to_multiset() =~= Multiset::empty());
        assert(merged(a, b).to_multiset() =~= a.to_multiset().add(b.to_multiset()));
    } else if a[0] <= b[0] {
        lemma_merged_perm(a.drop_first(), b);
        let rest = merged(a.drop_first(), b);
        vstd::seq_lib::lemma_multiset_commutative(seq![a[0]], rest);
        vstd::seq_lib::lemma_multiset_commutative(seq![a[0]], a.drop_first());
        assert(seq![a[0]] + a.drop_first() =~= a);
        assert(merged(a, b).to_multiset() =~= a.to_multiset().add(b.to_multiset()));
    } else {
        lemma_merged_perm(a, b.drop_first());
        let rest = merged(a, b.drop_first());
        vstd::seq_lib::lemma_multiset_commutative(seq![b[0]], rest);
        vstd::seq_lib::lemma_multiset_commutative(seq![b[0]], b.drop_first());
        assert(seq![b[0]] + b.drop_first() =~= b);
        assert(merged(a, b).to_multiset() =~= a.to_multiset().add(b.to_multiset()));
    }
}

/// The merge of two sorted sequences is sorted.
pub proof fn lemma_merged_sorted(a: Seq<i32>, b: Seq<i32>)
    requires
        sorted(a),
        sorted(b),
    ensures
        sorted(merged(a, b)),
    decreases a.len() + b.len(),
{
    if a.len() > 0 && b.len() > 0 {
        if a[0] <= b[0] {
            let a1 = a.drop_first();
            lemma_merged_sorted(a1, b);
            lemma_merged_front(a1, b);
            let rest = merged(a1, b);
            assert(rest.len() > 0 ==> a[0] <= rest[0]);
            lemma_prepend_sorted(a[0], rest);
        } else {
            let b1 = b.drop_first();
            lemma_merged_sorted(a, b1);
            lemma_merged_front(a, b1);
            let rest = merged(a, b1);
            assert(rest.len() > 0 ==> b[0] <= rest[0]);
            lemma_prepend_sorted(b[0], rest);
        }
    }
}

proof fn lemma_merged_front(a: Seq<i32>, b: Seq<i32>)
    ensures
        merged(a, b).len() == a.len() + b.len(),
        merged(a, b).len() > 0 ==> (a.len() > 0 && merged(a, b)[0] == a[0]) || (b.len() > 0
            && merged(a, b)[0] == b[0]),
{
    lemma_merged_perm(a, b);
}

proof fn lemma_prepend_sorted(x: i32, s: Seq<i32>)
    requires
        sorted(s),
        s.len() > 0 ==> x <= s[0],
    ensures
        sorted(seq![x] + s),
{
    let t = seq![x] + s;
    assert forall|i: int, j: int| 0 <= i <= j < t.len() implies t[i] <= t[j] by {
        if i > 0 {
            assert(t[i] == s[i - 1] && t[j] == s[j - 1]);
        } else if j > 0 {
            assert(s[0] <= s[j - 1]);
        }
    }
}


/// Every element of `t` is at most `x` (`upper`) or at least `x` (not
/// `upper`) when `t` holds the same elements as `u + v` and those all are.
proof fn lemma_bound_by_multiset(t: Seq<i32>, u: Seq<i32>, v: Seq<i32>, x: i32, upper: bool)
    requires
        t.to_multiset() == u.to_multiset().add(v.to_multiset()),
        forall|k: int| 0 <= k < u.len() ==> if upper { u[k] <= x } else { u[k] >= x },
        forall|k: int| 0 <= k < v.len() ==> if upper { v[k] <= x } else { v[k] >= x },
    ensures
        forall|k: int| 0 <= k < t.len() ==> if upper { t[k] <= x } else { t[k] >= x },
{
    broadcast use vstd::multiset::group_multiset_axioms;

    vstd::seq_lib::lemma_multiset_commutative(u, v);
    let w = u + v;
    assert forall|k: int| 0 <= k < t.len() implies if upper { t[k] <= x } else { t[k] >= x } by {
        assert(t.contains(t[k]));
        assert(t.to_multiset().count(t[k]) > 0);
        assert(w.to_multiset().count(t[k]) > 0);
        assert(w.contains(t[k]));
        let m = choose|m: int| 0 <= m < w.len() && w[m] == t[k];
        if m < u.len() {
            assert(w[m] == u[m]);
        } else {
            assert(w[m] == v[m - u.len()]);
        }
    }
}

/// `b.binary_search(x)` of std on a sorted slice. Trusted, as std documents
/// it: `Ok(i)` gives the index of an element equal to `x` (any one of several
/// such), `Err(i)` the index at which `x` could be inserted keeping the slice
/// sorted. On an unsorted slice std leaves the result unspecified, so
/// `requires` asks for a sorted one.
#[verifier::external_body]
fn binary_search(b: &[i32], x: &i32) -> (res: Result<usize, usize>)
    requires
        sorted(b@),
    ensures
        match res {
            Ok(i) => i < b@.len() && b@[i as int] == *x,
            Err(i) => i <= b@.len() && (forall|k: int| 0 <= k < i ==> b@[k] < *x) && (forall|
                k: int,
            |
                i <= k < b@.len() ==> b@[k] > *x),
        },
{
    b.binary_search(x)
}

/// Runs `merge(a1, b1, d1)` and `merge(a2, b2, d2)` with `rayon::join`.
/// Trusted: `rayon::join` runs both closures to completion (perhaps on two
/// threads) before it returns, so each call leaves its slices as `merge`
/// promises.
#[verifier::external_body]
fn join_merge(
    a1: &mut [i32],
    b1: &mut [i32],
    d1: &mut [i32],
    a2: &mut [i32],
    b2: &mut [i32],
    d2: &mut [i32],
)
    requires
        sorted(old(a1)@),
        sorted(old(b1)@),
        old(d1)@.len() == old(a1)@.len() + old(b1)@.len(),
        sorted(old(a2)@),
        sorted(old(b2)@),
        old(d2)@.len() == old(a2)@.len() + old(b2)@.len(),
    ensures
        final(a1)@ == old(a1)@,
        final(b1)@ == old(b1)@,
        sorted_perm(final(d1)@, old(a1)@ + old(b1)@),
        final(a2)@ == old(a2)@,
        final(b2)@ == old(b2)@,
        sorted_perm(final(d2)@, old(a2)@ + old(b2)@),
{
    rayon::join(|| merge(a1, b1, d1), || merge(a2, b2, d2));
}

/// Merges the sorted slices `a` and `b` into `dest`: below a size threshold
/// front to back, above it by splitting the longer input at its middle
/// element, splitting the other where that element belongs, and merging the
/// two pairs of halves in parallel.
pub fn merge(a: &mut [i32], b: &mut [i32], dest: &mut [i32])
    requires
        sorted(old(a)@),
        sorted(old(b)@),
        old(dest)@.len() == old(a)@.len() + old(b)@.len(),
    ensures
        final(a)@ == old(a)@,
        final(b)@ == old(b)@,
        sorted_perm(final(dest)@, old(a)@ + old(b)@),
{
    let ghost a0 = a@;
    let ghost b0 = b@;
    proof {
        broadcast use vstd::multiset::group_multiset_axioms;
        vstd::seq_lib::lemma_multiset_commutative(a0, b0);
        vstd::seq_lib::lemma_multiset_commutative(b0, a0);
        assert((a0 + b0).to_multiset() =~= (b0 + a0).to_multiset());
    }
    // Swap so a is always longer.
    let (a, b) = if a.len() > b.len() { (a, b) } else { (b, a) };
    if dest.len() < MERGE_CHUNK {
        seq_merge(a, b, dest);
        proof {
            lemma_merged_perm(a@, b@);
            lemma_merged_sorted(a@, b@);
            vstd::seq_lib::lemma_multiset_commutative(a@, b@);
        }
        return;
    }

    // Find the middle element of the longer list, and
    // use binary search to find its location in the shorter list.
    let ma = a.len() / 2;
    let found = binary_search(b, &a[ma]);
    let mb = match found {
        Ok(i) => i,
        Err(i) => i,
    };
    let ghost x = a@[ma as int];
    let ghost sa = a@;
    let ghost sb = b@;
    assert(forall|k: int| 0 <= k < mb ==> sb[k] <= x);
    assert(forall|k: int| mb <= k < sb.len() ==> sb[k] >= x) by {
        match found {
            Ok(i) => {
                assert(forall|k: int| mb <= k < sb.len() ==> sb[mb as int] <= sb[k]);
            },
            Err(i) => {},
        }
    }

    let (a1, a2) = a.split_at_mut(ma);
    let (b1, b2) = b.split_at_mut(mb);
    let ghost n = dest@.len();
    let (d1, d2) = dest.split_at_mut(ma + mb);
    assert(d1@.len() < n && d2@.len() < n);
    join_merge(a1, b1, d1, a2, b2, d2);
    proof {
        broadcast use vstd::multiset::group_multiset_axioms;

        let ga1 = sa.subrange(0, ma as int);
        let ga2 = sa.subrange(ma as int, sa.len() as int);
        let gb1 = sb.subrange(0, mb as int);
        let gb2 = sb.subrange(mb as int, sb.len() as int);
        assert(ga1 + ga2 =~= sa);
        assert(gb1 + gb2 =~= sb);
        vstd::seq_lib::lemma_multiset_commutative(ga1, gb1);
        vstd::seq_lib::lemma_multiset_commutative(ga2, gb2);
        vstd::seq_lib::lemma_multiset_commutative(ga1, ga2);
        vstd::seq_lib::lemma_multiset_commutative(gb1, gb2);
        vstd::seq_lib::lemma_multiset_commutative(sa, sb);
        vstd::seq_lib::lemma_multiset_commutative(d1@, d2@);
        lemma_bound_by_multiset(d1@, ga1, gb1, x, true);
        lemma_bound_by_multiset(d2@, ga2, gb2, x, false);
        let d = d1@ + d2@;
        assert forall|i: int, j: int| 0 <= i <= j < d.len() implies d[i] <= d[j] by {
            if j < d1@.len() {
                assert(d[i] == d1@[i] && d[j] == d1@[j]);
            } else if i >= d1@.len() {
                assert(d[i] == d2@[i - d1@.len()] && d[j] == d2@[j - d1@.len()]);
            } else {
                assert(d[i] == d1@[i] && d[j] == d2@[j - d1@.len()]);
            }
        }
        assert(d.to_multiset() =~= (sa + sb).to_multiset());
    }
}


/// `t` holds the first half of `s` (its first `s.len() / 2` elements) sorted,
/// followed by the rest of `s` sorted.
pub open spec fn halves_sorted(t: Seq<i32>, s: Seq<i32>) -> bool {
    let mid = s.len() / 2;
    &&& t.len() == s.len()
    &&& sorted_perm(t.take(mid as int), s.take(mid as int))
    &&& sorted_perm(t.skip(mid as int), s.skip(mid as int))
}

/// What `sort(src, buf, usebuf)` leaves in `src` and `buf`, given their
/// contents `s` and `b` before: with `usebuf` the sorted elements end up in
/// `src` and `buf` serves as scratch space (left with the two halves sorted,
/// or untouched below the direct-sort size); without it they end up in `buf`
/// and `src` is left with its two halves sorted.
pub open spec fn sort_outcome(s: Seq<i32>, b: Seq<i32>, usebuf: bool, s2: Seq<i32>, b2: Seq<i32>) -> bool {
    if usebuf {
        &&& sorted_perm(s2, s)
        &&& if s.len() < SORT_CHUNK { b2 == b } else { halves_sorted(b2, s) }
    } else {
        &&& sorted_perm(b2, s)
        &&& halves_sorted(s2, s)
    }
}

/// `s.sort()` of std. Trusted, as std documents it: afterwards the slice
/// holds its elements in ascending order.
#[verifier::external_body]
fn sort_slice(s: &mut [i32])
    ensures
        sorted_perm(final(s)@, old(s)@),
{
    s.sort()
}

/// Runs `sort(sa, bufa, usebuf)` and `sort(sb, bufb, usebuf)` with
/// `rayon::join`. Trusted: `rayon::join` runs both closures to completion
/// (perhaps on two threads) before it returns, so each call leaves its slices
/// as `sort` promises.
#[verifier::external_body]
fn join_sort(sa: &mut [i32], bufa: &mut [i32], sb: &mut [i32], bufb: &mut [i32], usebuf: bool)
    requires
        old(bufa)@.len() == old(sa)@.len(),
        old(bufb)@.len() == old(sb)@.len(),
    ensures
        sort_outcome(old(sa)@, old(bufa)@, usebuf, final(sa)@, final(bufa)@),
        sort_outcome(old(sb)@, old(bufb)@, usebuf, final(sb)@, final(bufb)@),
{
    rayon::join(|| sort(sa, bufa, usebuf), || sort(sb, bufb, usebuf));
}

proof fn lemma_sorted_perm_len(t: Seq<i32>, s: Seq<i32>)
    requires
        sorted_perm(t, s),
    ensures
        t.len() == s.len(),
{
    assert(t.len() == t.to_multiset().len());
    assert(s.len() == s.to_multiset().len());
}

/// The measure that each recursive call of `sort` shrinks: twice the length,
/// plus one when the call sorts into `buf`.
pub open spec fn sort_measure(len: nat, usebuf: bool) -> nat {
    2 * len + if usebuf { 0nat } else { 1nat }
}

/// Sorts the elements of `src` by parallel merge sort, with `buf` (as long as
/// `src`) as scratch space; `usebuf` tells where the sorted elements go (see
/// `sort_outcome`).
pub fn sort(src: &mut [i32], buf: &mut [i32], usebuf: bool)
    requires
        (usebuf && old(src)@.len() < SORT_CHUNK) || old(buf)@.len() == old(src)@.len(),
    ensures
        sort_outcome(old(src)@, old(buf)@, usebuf, final(src)@, final(buf)@),
{
    if usebuf && src.len() < SORT_CHUNK {
        sort_slice(src);
        return;
    }
    let ghost s0 = src@;
    let ghost b0 = buf@;

    let mid = src.len() / 2;
    let (sa, sb) = src.split_at_mut(mid);
    let (bufa, bufb) = buf.split_at_mut(mid);
    assert(sort_measure(sa@.len(), !usebuf) < sort_measure(s0.len(), usebuf));
    assert(sort_measure(sb@.len(), !usebuf) < sort_measure(s0.len(), usebuf));
    join_sort(sa, bufa, sb, bufb, !usebuf);

    proof {
        lemma_outcome_len(s0.take(mid as int), b0.take(mid as int), !usebuf, sa@, bufa@);
        lemma_outcome_len(s0.skip(mid as int), b0.skip(mid as int), !usebuf, sb@, bufb@);
    }
    let ghost sa1 = sa@;
    let ghost sb1 = sb@;
    let ghost ba1 = bufa@;
    let ghost bb1 = bufb@;
    if usebuf {
        merge(bufa, bufb, src);
        proof {
            lemma_halves(s0, ba1, bb1, mid as int);
        }
    } else {
        merge(sa, sb, buf);
        proof {
            lemma_halves(s0, sa1, sb1, mid as int);
        }
    }
}

proof fn lemma_outcome_len(s: Seq<i32>, b: Seq<i32>, usebuf: bool, s2: Seq<i32>, b2: Seq<i32>)
    requires
        b.len() == s.len(),
        sort_outcome(s, b, usebuf, s2, b2),
    ensures
        s2.len() == s.len(),
        b2.len() == s.len(),
{
    if usebuf {
        lemma_sorted_perm_len(s2, s);
    } else {
        lemma_sorted_perm_len(b2, s);
    }
}

/// Two sorted halves of `s` side by side: they hold the elements of `s` and
/// form `halves_sorted` of it.
proof fn lemma_halves(s: Seq<i32>, x: Seq<i32>, y: Seq<i32>, mid: int)
    requires
        mid == s.len() / 2,
        sorted_perm(x, s.take(mid)),
        sorted_perm(y, s.skip(mid)),
    ensures
        (x + y).to_multiset() == s.to_multiset(),
        halves_sorted(x + y, s),
{
    broadcast use vstd::multiset::group_multiset_axioms;

    lemma_sorted_perm_len(x, s.take(mid));
    lemma_sorted_perm_len(y, s.skip(mid));
    vstd::seq_lib::lemma_multiset_commutative(x, y);
    vstd::seq_lib::lemma_multiset_commutative(s.take(mid), s.skip(mid));
    assert(s.take(mid) + s.skip(mid) =~= s);
    assert((x + y).take(mid) =~= x);
    assert((x + y).skip(mid) =~= y);
}


proof fn lemma_sorted_is_sorted_by(s: Seq<i32>)
    requires
        sorted(s),
    ensures
        vstd::relations::sorted_by(s, |x: i32, y: i32| x <= y),
{
}

/// There is only one sorted arrangement of a given collection of elements:
/// whatever sorts `s` yields the same sequence.
pub proof fn lemma_sorted_perm_unique(t1: Seq<i32>, t2: Seq<i32>, s: Seq<i32>)
    requires
        sorted_perm(t1, s),
        sorted_perm(t2, s),
    ensures
        t1 == t2,
{
    let leq = |x: i32, y: i32| x <= y;
    lemma_sorted_is_sorted_by(t1);
    lemma_sorted_is_sorted_by(t2);
    assert(vstd::relations::total_ordering(leq));
    vstd::seq_lib::lemma_sorted_unique(t1, t2, leq);
}

/// On sorted inputs the parallel `merge` and `seq_merge` produce the same
/// sequence: any sorted arrangement of the elements of `a` and `b` is their
/// front-to-back merge.
pub proof fn lemma_merge_matches_seq_merge(a: Seq<i32>, b: Seq<i32>, t: Seq<i32>)
    requires
        sorted(a),
        sorted(b),
        sorted_perm(t, a + b),
    ensures
        t == merged(a, b),
{
    lemma_merged_perm(a, b);
    lemma_merged_sorted(a, b);
    vstd::seq_lib::lemma_multiset_commutative(a, b);
    lemma_sorted_perm_unique(t, merged(a, b), a + b);
}

} // verus!
