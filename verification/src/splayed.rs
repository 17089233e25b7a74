use vstd::prelude::*;

verus! {

/// The bits at even positions (0, 2, 4, ...) of a 32-bit word.
pub const EVEN_BITS: usize = 0x5555_5555;

/// The bits at odd positions (1, 3, 5, ...) of a 32-bit word.
pub const ODD_BITS: usize = 0xaaaa_aaaa;

/// Counts in interleaved bits: the values it yields use only the even bit
/// positions, 0b0, 0b1, 0b100, 0b101, 0b10000, 0b10001, ..., as long as they
/// stay below `max`.
pub struct SplayedBitsCounter {
    value: usize,
    max: usize,
}

/// What `next` yields on a counter `v` with bound `max`: the even bits of
/// `v` while they are below `max`, `None` after.
pub open spec fn next_output(v: usize, max: usize) -> Option<usize> {
    if (v & EVEN_BITS) < max {
        Some(v & EVEN_BITS)
    } else {
        None
    }
}

/// The counter after `next` on a counter `v` with bound `max`: all odd bits
/// set and one added when a value is yielded, unchanged otherwise.
pub open spec fn next_state(v: usize, max: usize) -> usize {
    if (v & EVEN_BITS) < max {
        ((v | ODD_BITS) + 1) as usize
    } else {
        v
    }
}

/// The counter of `SplayedBitsCounter::new(max)` after `n` calls of `next`.
pub open spec fn state_after(max: usize, n: nat) -> usize
    decreases n,
{
    if n == 0 {
        0
    } else {
        next_state(state_after(max, (n - 1) as nat), max)
    }
}

/// What call number `n` (from 0) of `next` on `SplayedBitsCounter::new(max)`
/// returns.
pub open spec fn output_at(max: usize, n: nat) -> Option<usize> {
    next_output(state_after(max, n), max)
}

impl SplayedBitsCounter {
    /// The internal counter, whose even bits form the next value to yield.
    pub closed spec fn value(&self) -> usize {
        self.value
    }

    /// The bound below which values are yielded.
    pub closed spec fn max(&self) -> usize {
        self.max
    }

    /// A counter that starts at 0 and yields values below `max`.
    pub fn new(max: usize) -> (res: Self)
        ensures
            res.value() == 0,
            res.max() == max,
    {
        SplayedBitsCounter { value: 0, max }
    }

    /// Yields the even bits of the counter when they are below the bound, and
    /// then moves the counter on by setting all its odd bits and adding one,
    /// which carries through the odd bits into the next even bit; yields
    /// `None` and leaves the counter as it is otherwise.
    pub fn next(&mut self) -> (res: Option<usize>)
        requires
            (old(self).value() & EVEN_BITS) < old(self).max() ==> (old(self).value() | ODD_BITS)
                < usize::MAX,
        ensures
            final(self).max() == old(self).max(),
            res == next_output(old(self).value(), old(self).max()),
            final(self).value() == next_state(old(self).value(), old(self).max()),
    {
        // The even bits are the value to yield.
        let prev = self.value & EVEN_BITS;
        if prev < self.max {
            // Set all odd bits.
            self.value |= ODD_BITS;
            // Add one, carrying through the odd bits.
            self.value += 1;
            Some(prev)
        } else {
            None
        }
    }
}


/// The values a counter yields come in increasing order and skip none: from
/// a counter `v` below 2^32 whose even bits `p` are not yet all set, one step
/// (which cannot overflow) leads to a counter below 2^32 whose even bits form
/// the least number above `p` with no odd bit set.
pub proof fn lemma_next_is_successor(v: usize, y: usize)
    by (bit_vector)
    requires
        v <= 0xffff_ffff,
        v & EVEN_BITS != EVEN_BITS,
    ensures
        v | ODD_BITS < 0xffff_ffff,
        (((v | ODD_BITS) + 1) as usize) & EVEN_BITS & ODD_BITS == 0,
        v & EVEN_BITS < (((v | ODD_BITS) + 1) as usize) & EVEN_BITS,
        (y & ODD_BITS == 0 && y <= EVEN_BITS && v & EVEN_BITS < y) ==> (((v | ODD_BITS)
            + 1) as usize) & EVEN_BITS <= y,
{
}


/// The z-order indices of a matrix multiplication stay inside the matrices:
/// for `n = 2^t` elements with `t` even (a square matrix with a power-of-two
/// side), a destination index `ij < n` and a value `k < n` of the counter
/// (no odd bit set), the row part of `ij` joined with `k`, and `k` shifted to
/// the odd bits joined with the column part of `ij`, are both below `n`.
pub proof fn lemma_zorder_indices_in_bounds(ij: usize, k: usize, t: usize)
    by (bit_vector)
    requires
        t <= 32,
        t % 2 == 0,
        ij < (1usize << t),
        k < (1usize << t),
        k & ODD_BITS == 0,
    ensures
        (ij & ODD_BITS) | k < (1usize << t),
        (k << 1usize) | (ij & EVEN_BITS) < (1usize << t),
{
}

proof fn lemma_even_part(v: usize)
    by (bit_vector)
    ensures
        (v & EVEN_BITS) & ODD_BITS == 0,
        v & EVEN_BITS <= EVEN_BITS,
{
}

/// Below a bound of at most `EVEN_BITS` the counter stays within 32 bits, and
/// each step that yields a value moves its even bits to the least number
/// with no odd bit set above the value yielded.
proof fn lemma_run_step(max: usize, n: nat)
    requires
        max <= EVEN_BITS,
    ensures
        state_after(max, n) <= 0xffff_ffff,
        state_after(max, n + 1) <= 0xffff_ffff,
        output_at(max, n) is Some ==> {
            &&& state_after(max, n + 1) & EVEN_BITS > state_after(max, n) & EVEN_BITS
            &&& forall|y: usize|
                y & ODD_BITS == 0 && y <= EVEN_BITS && state_after(max, n) & EVEN_BITS < y
                    ==> #[trigger] (state_after(max, n + 1) & EVEN_BITS) <= y
        },
        output_at(max, n) is None ==> state_after(max, n + 1) == state_after(max, n),
    decreases n,
{
    if n > 0 {
        lemma_run_step(max, (n - 1) as nat);
    } else {
        assert(state_after(max, 0) == 0);
    }
    let v = state_after(max, n);
    assert(state_after(max, n + 1) == next_state(v, max));
    if (v & EVEN_BITS) < max {
        assert(v & EVEN_BITS != EVEN_BITS);
        lemma_next_is_successor(v, 0);
        assert forall|y: usize|
            y & ODD_BITS == 0 && y <= EVEN_BITS && v & EVEN_BITS < y implies #[trigger] (
            state_after(max, n + 1) & EVEN_BITS) <= y by {
            lemma_next_is_successor(v, y);
        }
    }
}

proof fn lemma_run_monotone(max: usize, n: nat, m: nat)
    requires
        max <= EVEN_BITS,
        n <= m,
    ensures
        state_after(max, n) & EVEN_BITS <= state_after(max, m) & EVEN_BITS,
        n < m && output_at(max, n) is Some ==> state_after(max, n) & EVEN_BITS < state_after(
            max,
            m,
        ) & EVEN_BITS,
        output_at(max, n) is None ==> state_after(max, m) == state_after(max, n),
    decreases m - n,
{
    if n < m {
        lemma_run_monotone(max, n, (m - 1) as nat);
        lemma_run_step(max, (m - 1) as nat);
        lemma_run_step(max, n);
        if n < m - 1 {
            lemma_run_monotone(max, n + 1, (m - 1) as nat);
        }
    }
}

proof fn lemma_run_reaches(max: usize, y: usize, n: nat)
    requires
        max <= EVEN_BITS,
        y < max,
        y & ODD_BITS == 0,
        state_after(max, n) & EVEN_BITS <= y,
    ensures
        exists|k: nat| output_at(max, k) == Some(y),
    decreases y - (state_after(max, n) & EVEN_BITS),
{
    lemma_run_step(max, n);
    if state_after(max, n) & EVEN_BITS == y {
        assert(output_at(max, n) == Some(y));
    } else {
        assert(output_at(max, n) is Some);
        assert(state_after(max, n + 1) & EVEN_BITS <= y);
        lemma_run_reaches(max, y, n + 1);
    }
}

proof fn lemma_run_ends(max: usize, n: nat)
    requires
        max <= EVEN_BITS,
    ensures
        exists|k: nat| #[trigger] output_at(max, k) is None,
    decreases EVEN_BITS - (state_after(max, n) & EVEN_BITS),
{
    lemma_run_step(max, n);
    lemma_even_part(state_after(max, n));
    lemma_even_part(state_after(max, n + 1));
    if output_at(max, n) is None {
    } else {
        lemma_run_ends(max, n + 1);
    }
}

/// The whole run of a counter whose bound is at most `EVEN_BITS`: the values
/// that successive calls of `next` on `SplayedBitsCounter::new(max)` yield
/// are exactly the numbers below `max` with no odd bit set, in strictly
/// increasing order (so each once); then `next` returns `None`, and from the
/// first `None` on it keeps returning `None` and leaves the counter as it is.
pub proof fn lemma_counter_run(max: usize)
    requires
        max <= EVEN_BITS,
    ensures
        forall|n: nat|
            #[trigger] output_at(max, n) is Some ==> output_at(max, n)->0 < max && output_at(
                max,
                n,
            )->0 & ODD_BITS == 0,
        forall|n: nat, m: nat|
            n < m && #[trigger] output_at(max, n) is Some && #[trigger] output_at(max, m) is Some
                ==> output_at(max, n)->0 < output_at(max, m)->0,
        forall|y: usize|
            y < max && y & ODD_BITS == 0 ==> exists|n: nat| #[trigger] output_at(max, n) == Some(y),
        exists|n: nat| #[trigger] output_at(max, n) is None,
        forall|n: nat, m: nat|
            n <= m && #[trigger] output_at(max, n) is None ==> #[trigger] state_after(max, m)
                == state_after(max, n) && output_at(max, m) is None,
{
    assert forall|n: nat| #[trigger] output_at(max, n) is Some implies output_at(max, n)->0 < max
        && output_at(max, n)->0 & ODD_BITS == 0 by {
        lemma_even_part(state_after(max, n));
    }
    assert forall|n: nat, m: nat|
        n < m && #[trigger] output_at(max, n) is Some && #[trigger] output_at(max, m) is Some
            implies output_at(max, n)->0 < output_at(max, m)->0 by {
        lemma_run_monotone(max, n, m);
    }
    assert forall|y: usize| y < max && y & ODD_BITS == 0 implies exists|n: nat|
        #[trigger] output_at(max, n) == Some(y) by {
        assert(state_after(max, 0) == 0);
        assert(0usize & EVEN_BITS == 0) by (bit_vector);
        lemma_run_reaches(max, y, 0);
    }
    lemma_run_ends(max, 0);
    assert forall|n: nat, m: nat|
        n <= m && #[trigger] output_at(max, n) is None implies #[trigger] state_after(max, m)
            == state_after(max, n) && output_at(max, m) is None by {
        lemma_run_monotone(max, n, m);
    }
}

/// A counter whose bound exceeds `EVEN_BITS` never runs out: whatever the
/// counter holds, its even bits are below the bound, so every call of `next`
/// yields a value (after `EVEN_BITS` itself it starts over at 0 on a 64-bit
/// target) and the sequence has no end.
pub proof fn lemma_counter_endless(max: usize, n: nat)
    requires
        max > EVEN_BITS,
    ensures
        output_at(max, n) is Some,
{
    lemma_even_part(state_after(max, n));
}

} // verus!
