use vstd::prelude::*;
use vstd::string::StringSliceAdditionalSpecFns;
use rayon::iter::{IntoParallelIterator, ParallelIterator};
use crate::config::{decimal_value, parse_decimal, setting_bytes, setting_ok, setting_value};

verus! {

/// The recursion cut-off of the N-queens kernels: `setting` read in decimal,
/// 6 when it is absent.
pub fn parse_threshold(setting: Option<&str>) -> (res: usize)
    requires
        setting_ok(setting_bytes(setting), usize::MAX as nat),
    ensures
        res == setting_value(setting_bytes(setting), 6),
        match setting {
            None => res == 6,
            Some(st) => res == decimal_value(st.spec_bytes()),
        },
{
    match setting {
        Some(string) => parse_decimal(string.as_bytes()) as usize,
        None => 6,
    }
}


/// A queen in column `q` of row `row` is attacked by none of the queens that
/// `b` places in rows `0..row` (same column or same diagonal).
pub open spec fn safe(b: Seq<u8>, row: int, q: int) -> bool {
    forall|i: int|
        0 <= i < row ==> {
            let p = #[trigger] b[i] - q;
            let d = row - i;
            p != 0 && p != d && p != -d
        }
}

/// The byte that records column `q` on the board: its low eight bits.
pub open spec fn column_byte(q: int) -> u8 {
    (q % 256) as u8
}

/// The number of ways to place queens in rows `row..size` of a `size`-wide
/// board, one per row and none attacking another, given the queens that `b`
/// places in rows `0..row` (column `q` is recorded as `column_byte(q)`).
pub open spec fn solutions(b: Seq<u8>, row: nat, size: nat) -> nat
    decreases size - row, 2 * size + 2,
{
    if row >= size {
        1
    } else {
        branches(b, row, size, size)
    }
}

/// The completions counted by `solutions` whose queen in row `row` stands in
/// one of the columns `0..n`.
pub open spec fn branches(b: Seq<u8>, row: nat, size: nat, n: nat) -> nat
    decreases size - row, 2 * n + 1,
{
    if n == 0 {
        0
    } else {
        branches(b, row, size, (n - 1) as nat) + branch(b, row, size, (n - 1) as nat)
    }
}

/// The completions counted by `solutions` whose queen in row `row` stands in
/// column `q`.
pub open spec fn branch(b: Seq<u8>, row: nat, size: nat, q: nat) -> nat
    decreases size - row, 2 * q + 2,
{
    if row < size && safe(b, row as int, q as int) {
        solutions(b.update(row as int, column_byte(q as int)), row + 1, size)
    } else {
        0
    }
}

/// The board that the search leaves behind when it starts at `row` on `b`:
/// each row from `row` on holds the column it tried last.
pub open spec fn scratch_after(b: Seq<u8>, row: nat, size: nat) -> Seq<u8>
    decreases size - row, 2 * size + 2,
{
    if row >= size {
        b
    } else {
        scratch_through(b, row, size, size)
    }
}

/// The board left behind once the columns `0..n` of row `row` have been tried.
pub open spec fn scratch_through(b: Seq<u8>, row: nat, size: nat, n: nat) -> Seq<u8>
    decreases size - row, 2 * n + 1,
{
    if n == 0 {
        b
    } else {
        let prev = scratch_through(b, row, size, (n - 1) as nat);
        if row < size && safe(prev, row as int, n - 1) {
            scratch_after(prev.update(row as int, column_byte(n - 1)), row + 1, size)
        } else {
            prev
        }
    }
}

/// The search that starts at `row` on `b` stays on the board: wherever it
/// reads the rows above the current one, they lie on `b`, and wherever it
/// puts a queen, that row lies on `b` too.
pub open spec fn fits(b: Seq<u8>, row: nat, size: nat) -> bool
    decreases size - row, 2 * size + 2,
{
    if row >= size {
        true
    } else {
        row <= b.len() && fits_through(b, row, size, size)
    }
}

/// `fits_at` holds for each of the columns `0..n` of row `row`.
pub open spec fn fits_through(b: Seq<u8>, row: nat, size: nat, n: nat) -> bool
    decreases size - row, 2 * n + 1,
{
    if n == 0 {
        true
    } else {
        fits_through(b, row, size, (n - 1) as nat) && fits_at(b, row, size, (n - 1) as nat)
    }
}

/// Where a queen may stand in column `q` of row `row`, that row lies on `b`
/// and the search below it stays on the board.
pub open spec fn fits_at(b: Seq<u8>, row: nat, size: nat, q: nat) -> bool
    decreases size - row, 2 * q + 2,
{
    row < size && safe(b, row as int, q as int) ==> row < b.len() && fits(
        b.update(row as int, column_byte(q as int)),
        row + 1,
        size,
    )
}

proof fn lemma_fits_at(b: Seq<u8>, row: nat, size: nat, n: nat, q: nat)
    requires
        fits_through(b, row, size, n),
        q < n,
    ensures
        fits_at(b, row, size, q),
    decreases n,
{
    if q < n - 1 {
        lemma_fits_at(b, row, size, (n - 1) as nat, q);
    }
}

/// A board with a row for each of the `size` rows always fits.
pub proof fn lemma_fits_full_board(b: Seq<u8>, row: nat, size: nat)
    requires
        size <= b.len(),
    ensures
        fits(b, row, size),
    decreases size - row, 2 * size + 2,
{
    if row < size {
        lemma_fits_through_full_board(b, row, size, size);
    }
}

proof fn lemma_fits_through_full_board(b: Seq<u8>, row: nat, size: nat, n: nat)
    requires
        row < size <= b.len(),
    ensures
        fits_through(b, row, size, n),
    decreases size - row, 2 * n + 1,
{
    if n > 0 {
        lemma_fits_through_full_board(b, row, size, (n - 1) as nat);
        let q = (n - 1) as nat;
        lemma_fits_full_board(b.update(row as int, column_byte(q as int)), row + 1, size);
        assert(fits_at(b, row, size, q));
    }
}

/// Whether the search fits depends only on the rows above `row` and on the
/// board's length.
proof fn lemma_fits_prefix(b1: Seq<u8>, b2: Seq<u8>, row: nat, size: nat)
    requires
        b1.len() == b2.len(),
        forall|i: int| 0 <= i < row && i < b1.len() ==> b1[i] == b2[i],
    ensures
        fits(b1, row, size) == fits(b2, row, size),
    decreases size - row, 2 * size + 2,
{
    if row < size && row <= b1.len() {
        lemma_fits_through_prefix(b1, b2, row, size, size);
    }
}

proof fn lemma_fits_through_prefix(b1: Seq<u8>, b2: Seq<u8>, row: nat, size: nat, n: nat)
    requires
        row < size,
        row <= b1.len(),
        b1.len() == b2.len(),
        forall|i: int| 0 <= i < row ==> b1[i] == b2[i],
    ensures
        fits_through(b1, row, size, n) == fits_through(b2, row, size, n),
    decreases size - row, 2 * n + 1,
{
    if n > 0 {
        let q = (n - 1) as nat;
        lemma_fits_through_prefix(b1, b2, row, size, q);
        lemma_safe_prefix(b1, b2, row as int, q as int);
        if safe(b1, row as int, q as int) && row < b1.len() {
            let c1 = b1.update(row as int, column_byte(q as int));
            let c2 = b2.update(row as int, column_byte(q as int));
            lemma_fits_prefix(c1, c2, row + 1, size);
        }
        assert(fits_at(b1, row, size, q) == fits_at(b2, row, size, q));
    }
}

proof fn lemma_safe_prefix(b1: Seq<u8>, b2: Seq<u8>, row: int, q: int)
    requires
        forall|i: int| 0 <= i < row ==> b1[i] == b2[i],
    ensures
        safe(b1, row, q) == safe(b2, row, q),
{
    assert forall|i: int| 0 <= i < row implies b1[i] == b2[i] by {}
    if safe(b1, row, q) {
        assert forall|i: int| 0 <= i < row implies {
            let p = #[trigger] b2[i] - q;
            let d = row - i;
            p != 0 && p != d && p != -d
        } by {
            assert(b1[i] == b2[i]);
        }
    }
    if safe(b2, row, q) {
        assert forall|i: int| 0 <= i < row implies {
            let p = #[trigger] b1[i] - q;
            let d = row - i;
            p != 0 && p != d && p != -d
        } by {
            assert(b1[i] == b2[i]);
        }
    }
}

proof fn lemma_branches_monotone(b: Seq<u8>, row: nat, size: nat, n: nat, m: nat)
    requires
        n <= m,
    ensures
        branches(b, row, size, n) <= branches(b, row, size, m),
    decreases m - n,
{
    if n < m {
        lemma_branches_monotone(b, row, size, n, (m - 1) as nat);
    }
}

/// Splitting off column `q`: the completions over columns `0..q + 1` are
/// those over `0..q` plus those with the queen in column `q`, and they are
/// among the completions over all `size` columns.
proof fn lemma_branches_split(b: Seq<u8>, row: nat, size: nat, q: nat)
    requires
        q < size,
    ensures
        branches(b, row, size, q + 1) == branches(b, row, size, q) + branch(b, row, size, q),
        branches(b, row, size, q + 1) <= branches(b, row, size, size),
{
    lemma_branches_monotone(b, row, size, q + 1, size);
}

/// The count of completions depends only on the queens already placed: two
/// boards on which the search fits and that agree on the rows above `row`
/// have the same completions.
pub proof fn lemma_solutions_prefix(b1: Seq<u8>, b2: Seq<u8>, row: nat, size: nat)
    requires
        fits(b1, row, size),
        fits(b2, row, size),
        forall|i: int| 0 <= i < row ==> b1[i] == b2[i],
    ensures
        solutions(b1, row, size) == solutions(b2, row, size),
    decreases size - row, 2 * size + 2,
{
    if row < size {
        lemma_branches_prefix(b1, b2, row, size, size);
    }
}

proof fn lemma_branches_prefix(b1: Seq<u8>, b2: Seq<u8>, row: nat, size: nat, n: nat)
    requires
        row < size,
        n <= size,
        fits(b1, row, size),
        fits(b2, row, size),
        forall|i: int| 0 <= i < row ==> b1[i] == b2[i],
    ensures
        branches(b1, row, size, n) == branches(b2, row, size, n),
    decreases size - row, 2 * n + 1,
{
    if n > 0 {
        let q = (n - 1) as nat;
        lemma_branches_prefix(b1, b2, row, size, q);
        lemma_safe_prefix(b1, b2, row as int, q as int);
        if safe(b1, row as int, q as int) {
            lemma_fits_at(b1, row, size, size, q);
            lemma_fits_at(b2, row, size, size, q);
            let c1 = b1.update(row as int, column_byte(q as int));
            let c2 = b2.update(row as int, column_byte(q as int));
            lemma_solutions_prefix(c1, c2, row + 1, size);
            assert(branch(b1, row, size, q) == solutions(c1, row + 1, size));
            assert(branch(b2, row, size, q) == solutions(c2, row + 1, size));
        }
        assert(branch(b1, row, size, q) == branch(b2, row, size, q));
        assert(branches(b1, row, size, n) == branches(b1, row, size, q) + branch(b1, row, size, q));
    }
}

/// Queens in columns `cols[0]`, `cols[1]`, ... of rows 0, 1, ...: no two of
/// them share a column or a diagonal.
pub open spec fn non_attacking(cols: Seq<int>) -> bool {
    forall|i: int, j: int|
        #![trigger cols[i], cols[j]]
        0 <= i < j < cols.len() ==> cols[i] != cols[j] && cols[j] - cols[i] != j - i && cols[i]
            - cols[j] != j - i
}

/// The columns of the queens that `b` places in rows `0..row`.
pub open spec fn placed(b: Seq<u8>, row: nat) -> Seq<int> {
    Seq::new(row, |i: int| b[i] as int)
}

/// The ways to put one queen in each of the rows `row..size` of a
/// `size`-wide board, each in one of the columns `0..size`, so that together
/// with the queens that `b` places in rows `0..row` no two attack each other;
/// each way is the sequence of the columns chosen, row by row.
pub open spec fn completions(b: Seq<u8>, row: nat, size: nat) -> Set<Seq<int>> {
    Set::new(
        |c: Seq<int>|
            c.len() + row == size && (forall|k: int| 0 <= k < c.len() ==> 0 <= #[trigger] c[k] < size)
                && non_attacking(placed(b, row) + c),
    )
}

spec fn completions_below(b: Seq<u8>, row: nat, size: nat, n: nat) -> Set<Seq<int>> {
    Set::new(|c: Seq<int>| completions(b, row, size).contains(c) && c[0] < n)
}

spec fn completions_at(b: Seq<u8>, row: nat, size: nat, q: nat) -> Set<Seq<int>> {
    Set::new(|c: Seq<int>| completions(b, row, size).contains(c) && c[0] == q)
}

proof fn lemma_non_attacking_prefix(x: Seq<int>, y: Seq<int>)
    requires
        non_attacking(x + y),
    ensures
        non_attacking(x),
{
    assert forall|i: int, j: int| 0 <= i < j < x.len() implies x[i] != x[j] && x[j] - x[i] != j
        - i && x[i] - x[j] != j - i by {
        assert((x + y)[i] == x[i] && (x + y)[j] == x[j]);
    }
}

/// One more queen in column `q` of row `row` keeps a non-attacking placement
/// non-attacking exactly when `safe` says so.
proof fn lemma_push_safe(b: Seq<u8>, row: nat, q: int)
    requires
        row <= b.len(),
        non_attacking(placed(b, row)),
    ensures
        non_attacking(placed(b, row).push(q)) == safe(b, row as int, q),
{
    let a = placed(b, row);
    let x = a.push(q);
    if non_attacking(x) {
        assert forall|i: int| 0 <= i < row implies {
            let p = #[trigger] b[i] - q;
            let d = row - i;
            p != 0 && p != d && p != -d
        } by {
            assert(x[i] == b[i] && x[row as int] == q);
        }
    }
    if safe(b, row as int, q) {
        assert forall|i: int, j: int| 0 <= i < j < x.len() implies x[i] != x[j] && x[j] - x[i] != j
            - i && x[i] - x[j] != j - i by {
            if j < row {
                assert(x[i] == a[i] && x[j] == a[j]);
            } else {
                assert(x[i] == b[i] && x[j] == q);
            }
        }
    }
}

/// Putting the first column `c[0]` of a completion on the board at `row`.
proof fn lemma_placed_step(b: Seq<u8>, row: nat, c: Seq<int>)
    requires
        row < b.len(),
        c.len() > 0,
        0 <= c[0] < 256,
    ensures
        placed(b.update(row as int, column_byte(c[0])), row + 1) == placed(b, row).push(c[0]),
        placed(b, row) + c == placed(b.update(row as int, column_byte(c[0])), row + 1)
            + c.drop_first(),
{
    let q = c[0];
    assert(column_byte(q) as int == q);
    let b2 = b.update(row as int, column_byte(q));
    assert(placed(b2, row + 1) =~= placed(b, row).push(q));
    assert(placed(b, row) + c =~= placed(b, row).push(q) + c.drop_first());
}

/// For boards of up to 256 columns `solutions` counts the non-attacking
/// placements: given a board at least `size` long whose queens in rows
/// `0..row` attack no other, the number of ways to complete them to `size`
/// non-attacking queens, one per row, is `solutions(b, row, size)`.
pub proof fn lemma_solutions_counts_placements(b: Seq<u8>, row: nat, size: nat)
    requires
        size <= 256,
        row <= size <= b.len(),
        non_attacking(placed(b, row)),
    ensures
        completions(b, row, size).finite(),
        completions(b, row, size).len() == solutions(b, row, size),
    decreases size - row, 2 * size + 2,
{
    broadcast use vstd::set::group_set_axioms;

    let all = completions(b, row, size);
    if row == size {
        let e = Seq::<int>::empty();
        assert(placed(b, row) + e =~= placed(b, row));
        assert forall|c: Seq<int>| all.contains(c) <==> c == e by {
            if c.len() == 0 {
                assert(c =~= e);
            }
        }
        assert(all =~= Set::<Seq<int>>::empty().insert(e));
    } else {
        lemma_branches_count(b, row, size, size);
        assert(all =~= completions_below(b, row, size, size));
    }
}

proof fn lemma_branches_count(b: Seq<u8>, row: nat, size: nat, n: nat)
    requires
        size <= 256,
        row < size <= b.len(),
        n <= size,
        non_attacking(placed(b, row)),
    ensures
        completions_below(b, row, size, n).finite(),
        completions_below(b, row, size, n).len() == branches(b, row, size, n),
    decreases size - row, 2 * n + 1,
{
    broadcast use vstd::set::group_set_axioms;

    if n == 0 {
        assert(completions_below(b, row, size, 0) =~= Set::<Seq<int>>::empty());
    } else {
        let q = (n - 1) as nat;
        lemma_branches_count(b, row, size, q);
        lemma_branch_count(b, row, size, q);
        let lo = completions_below(b, row, size, q);
        let at = completions_at(b, row, size, q);
        assert(completions_below(b, row, size, n) =~= lo + at);
        assert(lo.disjoint(at));
        vstd::set_lib::lemma_set_disjoint_lens(lo, at);
    }
}

proof fn lemma_branch_count(b: Seq<u8>, row: nat, size: nat, q: nat)
    requires
        size <= 256,
        row < size <= b.len(),
        q < size,
        non_attacking(placed(b, row)),
    ensures
        completions_at(b, row, size, q).finite(),
        completions_at(b, row, size, q).len() == branch(b, row, size, q),
    decreases size - row, 2 * q + 2,
{
    broadcast use vstd::set::group_set_axioms;

    let at = completions_at(b, row, size, q);
    let b2 = b.update(row as int, column_byte(q as int));
    lemma_push_safe(b, row, q as int);
    assert(column_byte(q as int) as int == q);
    assert(placed(b2, row + 1) =~= placed(b, row).push(q as int));
    if !safe(b, row as int, q as int) {
        assert forall|c: Seq<int>| !at.contains(c) by {
            if at.contains(c) {
                lemma_placed_step(b, row, c);
                lemma_non_attacking_prefix(placed(b2, row + 1), c.drop_first());
            }
        }
        assert(at =~= Set::<Seq<int>>::empty());
    } else {
        let rest = completions(b2, row + 1, size);
        lemma_solutions_counts_placements(b2, row + 1, size);
        let f = |c: Seq<int>| seq![q as int] + c;
        assert forall|x: Seq<int>| at.contains(x) <==> rest.map(f).contains(x) by {
            if at.contains(x) {
                lemma_placed_step(b, row, x);
                let c = x.drop_first();
                assert(x =~= f(c));
                assert forall|k: int| 0 <= k < c.len() implies 0 <= #[trigger] c[k] < size by {
                    assert(c[k] == x[k + 1]);
                }
                assert(rest.contains(c));
            }
            if rest.map(f).contains(x) {
                let c = choose|c: Seq<int>| rest.contains(c) && x == f(c);
                assert(x.drop_first() =~= c);
                assert(x[0] == q);
                assert forall|k: int| 0 <= k < x.len() implies 0 <= #[trigger] x[k] < size by {
                    if k > 0 {
                        assert(x[k] == c[k - 1]);
                    }
                }
                lemma_placed_step(b, row, x);
                assert(at.contains(x));
            }
        }
        assert(at =~= rest.map(f));
        assert forall|c1: Seq<int>, c2: Seq<int>|
            rest.contains(c1) && rest.contains(c2) && #[trigger] f(c1) == #[trigger] f(c2) implies c1
            == c2 by {
            assert(c1 =~= f(c1).drop_first());
            assert(c2 =~= f(c2).drop_first());
        }
        vstd::set_lib::lemma_map_size(rest, at, f);
    }
}

/// Whether a queen in column `q` of row `row` is safe from the queens that
/// `board` places in rows `0..row`.
fn is_safe(board: &[u8], row: usize, q: usize) -> (r: bool)
    requires
        row <= board@.len(),
    ensures
        r == safe(board@, row as int, q as int),
{
    let mut i: usize = 0;
    while i < row
        invariant
            row <= board@.len(),
            i <= row,
            forall|k: int|
                0 <= k < i ==> {
                    let p = #[trigger] board@[k] - q;
                    let d = row - k;
                    p != 0 && p != d && p != -d
                },
        decreases row - i,
    {
        let b = board[i] as usize;
        let d = row - i;
        if b == q || (b > q && b - q == d) || (q > b && q - b == d) {
            return false;
        }
        i = i + 1;
    }
    true
}

/// Counts the ways to complete the placement that `board` holds in rows
/// `0..row` to a solution of the `size`-queens problem, reusing `board` as
/// scratch space for the rows from `row` on.
pub fn nqueens(board: &mut [u8], row: usize, size: usize) -> (res: usize)
    requires
        fits(old(board)@, row as nat, size as nat),
        solutions(old(board)@, row as nat, size as nat) <= usize::MAX,
    ensures
        res == solutions(old(board)@, row as nat, size as nat),
        final(board)@ == scratch_after(old(board)@, row as nat, size as nat),
        final(board)@.len() == old(board)@.len(),
        forall|i: int| 0 <= i < row && i < old(board)@.len() ==> final(board)@[i] == old(board)@[i],
    decreases size - row,
{
    if row >= size {
        return 1;
    }
    let ghost b0 = board@;
    let mut total: usize = 0;
    let mut q: usize = 0;
    while q < size
        invariant
            row < size,
            row <= b0.len(),
            fits(b0, row as nat, size as nat),
            q <= size,
            board@.len() == b0.len(),
            forall|i: int| 0 <= i < row ==> board@[i] == b0[i],
            board@ == scratch_through(b0, row as nat, size as nat, q as nat),
            total == branches(b0, row as nat, size as nat, q as nat),
            branches(b0, row as nat, size as nat, size as nat) <= usize::MAX,
        decreases size - q,
    {
        let ok = is_safe(board, row, q);
        let ghost prev = board@;
        proof {
            lemma_safe_prefix(board@, b0, row as int, q as int);
            lemma_branches_split(b0, row as nat, size as nat, q as nat);
        }
        if ok {
            proof {
                lemma_fits_at(b0, row as nat, size as nat, size as nat, q as nat);
            }
            let byte = #[verifier::truncate] (q as u8);
            assert(byte == (q % 256) as u8) by (bit_vector)
                requires
                    byte == #[verifier::truncate] (q as u8),
            ;
            board[row] = byte;
            proof {
                let c = b0.update(row as int, column_byte(q as int));
                lemma_fits_prefix(board@, c, (row + 1) as nat, size as nat);
                lemma_solutions_prefix(board@, c, (row + 1) as nat, size as nat);
                assert(branch(b0, row as nat, size as nat, q as nat) == solutions(
                    c,
                    (row + 1) as nat,
                    size as nat,
                ));
            }
            let sub = nqueens(board, row + 1, size);
            total = total + sub;
            assert(scratch_through(b0, row as nat, size as nat, (q + 1) as nat) == scratch_after(
                prev.update(row as int, column_byte(q as int)),
                (row + 1) as nat,
                size as nat,
            ));
        }
        q = q + 1;
    }
    total
}


/// Puts a queen in column `q` of row `row` on a copy of `board`.
fn place(board: &Vec<u8>, row: usize, q: usize) -> (res: Vec<u8>)
    requires
        row < board@.len(),
    ensures
        res@ == board@.update(row as int, column_byte(q as int)),
{
    let mut new_board = board.clone();
    assert(new_board@ =~= board@);
    let byte = #[verifier::truncate] (q as u8);
    assert(byte == (q % 256) as u8) by (bit_vector)
        requires
            byte == #[verifier::truncate] (q as u8),
    ;
    new_board[row] = byte;
    new_board
}

/// Counts the completions of the placement in rows `0..row` of `board` like
/// `nqueens`, but hands every branch a board of its own; from rows below
/// `threshold` on it switches to `nqueens`.
pub fn nqueens_par(board: Vec<u8>, row: usize, size: usize, threshold: usize) -> (res: usize)
    requires
        fits(board@, row as nat, size as nat),
        solutions(board@, row as nat, size as nat) <= usize::MAX,
    ensures
        res == solutions(board@, row as nat, size as nat),
    decreases size - row,
{
    let mut board = board;
    if row > threshold {
        return nqueens(board.as_mut_slice(), row, size);
    }
    if row >= size {
        return 1;
    }
    let ghost b0 = board@;
    let mut total: usize = 0;
    let mut q: usize = 0;
    while q < size
        invariant
            row < size,
            row <= b0.len(),
            fits(b0, row as nat, size as nat),
            q <= size,
            board@ == b0,
            total == branches(b0, row as nat, size as nat, q as nat),
            branches(b0, row as nat, size as nat, size as nat) <= usize::MAX,
        decreases size - q,
    {
        proof {
            lemma_branches_split(b0, row as nat, size as nat, q as nat);
        }
        if is_safe(board.as_slice(), row, q) {
            proof {
                lemma_fits_at(b0, row as nat, size as nat, size as nat, q as nat);
            }
            let new_board = place(&board, row, q);
            let sub = nqueens_par(new_board, row + 1, size, threshold);
            total = total + sub;
        }
        q = q + 1;
    }
    total
}


/// The completions of `board` whose queen in row `row` stands in column `q`,
/// counted on a copy of the board.
fn fast_branch(board: &Vec<u8>, row: usize, size: usize, threshold: usize, q: usize) -> (res: usize)
    requires
        row < size,
        fits(board@, row as nat, size as nat),
        q < size,
        branches(board@, row as nat, size as nat, size as nat) <= usize::MAX,
    ensures
        res == branch(board@, row as nat, size as nat, q as nat),
    decreases size - row, 0nat,
{
    proof {
        lemma_branches_split(board@, row as nat, size as nat, q as nat);
    }
    if !is_safe(board.as_slice(), row, q) {
        return 0;
    }
    proof {
        lemma_fits_at(board@, row as nat, size as nat, size as nat, q as nat);
    }
    let mut new_board = place(board, row, q);
    _nqueens_fast(&mut new_board, row + 1, size, threshold)
}

/// Counts the completions of the placement in rows `0..row` of `board`,
/// summing over the columns of row `row` one copy of the board at a time;
/// from rows below `threshold` on it counts with `nqueens` on `board` itself.
pub fn _nqueens_fast(board: &mut Vec<u8>, row: usize, size: usize, threshold: usize) -> (res: usize)
    requires
        fits(old(board)@, row as nat, size as nat),
        solutions(old(board)@, row as nat, size as nat) <= usize::MAX,
    ensures
        res == solutions(old(board)@, row as nat, size as nat),
        final(board)@ == if row > threshold {
            scratch_after(old(board)@, row as nat, size as nat)
        } else {
            old(board)@
        },
    decreases size - row, 1nat,
{
    if row > threshold {
        return nqueens(board.as_mut_slice(), row, size);
    }
    if row >= size {
        return 1;
    }
    let ghost b0 = board@;
    let mut total: usize = 0;
    let mut q: usize = 0;
    while q < size
        invariant
            row < size,
            row <= b0.len(),
            fits(b0, row as nat, size as nat),
            q <= size,
            board@ == b0,
            total == branches(b0, row as nat, size as nat, q as nat),
            branches(b0, row as nat, size as nat, size as nat) <= usize::MAX,
        decreases size - q,
    {
        proof {
            lemma_branches_split(b0, row as nat, size as nat, q as nat);
        }
        let sub = fast_branch(board, row, size, threshold, q);
        total = total + sub;
        q = q + 1;
    }
    total
}

/// The completions of `board` whose queen in row `row` stands in column `q`,
/// counted on a copy of the board with the parallel search.
fn rayon_branch(board: &Vec<u8>, row: usize, size: usize, threshold: usize, q: usize) -> (res: usize)
    requires
        row < size,
        fits(board@, row as nat, size as nat),
        q < size,
        branches(board@, row as nat, size as nat, size as nat) <= usize::MAX,
    ensures
        res == branch(board@, row as nat, size as nat, q as nat),
{
    proof {
        lemma_branches_split(board@, row as nat, size as nat, q as nat);
    }
    if !is_safe(board.as_slice(), row, q) {
        return 0;
    }
    proof {
        lemma_fits_at(board@, row as nat, size as nat, size as nat, q as nat);
    }
    let mut new_board = place(board, row, q);
    assert(size - (row + 1) < size - row);
    nqueens_rayon(&mut new_board, row + 1, size, threshold)
}

/// Sums `rayon_branch` over the columns `0..size` with rayon's parallel
/// iterator: `(0..size).into_par_iter().map(..).sum()`. Trusted: rayon's
/// `map` applies the closure to every item of the range once and `sum` adds
/// all the results up (in an unspecified order, which does not matter for
/// `usize` addition); no partial sum exceeds the total, which `requires`
/// bounds, so the addition does not overflow.
#[verifier::external_body]
fn par_sum_branches(board: &Vec<u8>, row: usize, size: usize, threshold: usize) -> (res: usize)
    requires
        row < size,
        fits(board@, row as nat, size as nat),
        branches(board@, row as nat, size as nat, size as nat) <= usize::MAX,
    ensures
        res == branches(board@, row as nat, size as nat, size as nat),
{
    (0..size).into_par_iter().map(|q| rayon_branch(board, row, size, threshold, q)).sum()
}

/// Counts the completions of the placement in rows `0..row` of `board`,
/// trying the columns of row `row` in parallel, each on a copy of the board;
/// from rows below `threshold` on it counts with `nqueens` on `board` itself.
pub fn nqueens_rayon(board: &mut Vec<u8>, row: usize, size: usize, threshold: usize) -> (res: usize)
    requires
        fits(old(board)@, row as nat, size as nat),
        solutions(old(board)@, row as nat, size as nat) <= usize::MAX,
    ensures
        res == solutions(old(board)@, row as nat, size as nat),
        final(board)@ == if row > threshold {
            scratch_after(old(board)@, row as nat, size as nat)
        } else {
            old(board)@
        },
{
    if row > threshold {
        return nqueens(board.as_mut_slice(), row, size);
    }
    if row >= size {
        return 1;
    }
    par_sum_branches(board, row, size, threshold)
}

} // verus!
